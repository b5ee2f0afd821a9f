use federated_discovery::dfg::DirectlyFollowsGraph;
use federated_discovery::facade::OperationCounts;
use federated_discovery::log::{Event, EventLog, Trace};
use federated_discovery::organization::{PrivateKeyOrganization, PublicKeyOrganization};
use federated_discovery::protocol::communicate;

fn case(id: &str, events: &[(&str, u64)]) -> Trace {
    Trace {
        case_id: id.to_string(),
        events: events
            .iter()
            .map(|(a, t)| Event { activity: a.to_string(), timestamp: *t })
            .collect(),
    }
}

fn run(a: Vec<Trace>, b: Vec<Trace>, use_psi: bool) -> DirectlyFollowsGraph {
    let mut org_a = PrivateKeyOrganization::new(EventLog { traces: a }, true);
    let true_val = org_a.encrypt_true();
    let mut org_b = PublicKeyOrganization::new(EventLog { traces: b }, true_val);
    let mut counts = OperationCounts::new();
    communicate(&mut org_a, &mut org_b, 100, use_psi, &mut counts).unwrap()
}

fn sorted_edges(g: &DirectlyFollowsGraph) -> Vec<(String, String, u128)> {
    let mut r = g.directly_follows_relations.clone();
    r.sort();
    r
}

fn sorted_set(v: &[String]) -> Vec<String> {
    let mut r = v.to_vec();
    r.sort();
    r
}

fn rel(a: &str, b: &str, f: u128) -> (String, String, u128) {
    (a.to_string(), b.to_string(), f)
}

fn names(v: &[&str]) -> Vec<String> {
    v.iter().map(|s| s.to_string()).collect()
}

#[test]
fn disjoint_cases() {
    let g = run(
        vec![case("c1", &[("a", 1), ("b", 2)])],
        vec![case("c2", &[("x", 1), ("y", 2)])],
        true,
    );
    assert_eq!(sorted_edges(&g), vec![rel("a", "b", 1), rel("x", "y", 1)]);
    assert_eq!(sorted_set(&g.start_activities), names(&["a", "x"]));
    assert_eq!(sorted_set(&g.end_activities), names(&["b", "y"]));
}

#[test]
fn fully_shared_interleave() {
    let g = run(
        vec![case("c", &[("a", 10), ("c", 30)])],
        vec![case("c", &[("b", 20)])],
        true,
    );
    assert_eq!(sorted_edges(&g), vec![rel("a", "b", 1), rel("b", "c", 1)]);
    assert_eq!(sorted_set(&g.start_activities), names(&["a"]));
    assert_eq!(sorted_set(&g.end_activities), names(&["c"]));
}

#[test]
fn tie_on_timestamp_favours_a() {
    let g = run(vec![case("c", &[("a", 10)])], vec![case("c", &[("b", 10)])], true);
    assert_eq!(sorted_edges(&g), vec![rel("a", "b", 1)]);
    assert_eq!(sorted_set(&g.start_activities), names(&["a"]));
    assert_eq!(sorted_set(&g.end_activities), names(&["b"]));
}

#[test]
fn a_only_case_without_psi() {
    let g = run(vec![case("c", &[("a", 1), ("b", 2)])], vec![], false);
    assert_eq!(sorted_edges(&g), vec![rel("a", "b", 1)]);
    assert_eq!(sorted_set(&g.start_activities), names(&["a"]));
    assert_eq!(sorted_set(&g.end_activities), names(&["b"]));
}

#[test]
fn repeated_edges_add_up() {
    let g = run(
        vec![case("c1", &[("a", 1), ("b", 2)]), case("c2", &[("a", 1), ("b", 2)])],
        vec![],
        true,
    );
    assert_eq!(sorted_edges(&g), vec![rel("a", "b", 2)]);
    let g = run(
        vec![case("c1", &[("a", 1), ("b", 2)]), case("c2", &[("a", 1), ("b", 2)])],
        vec![],
        false,
    );
    assert_eq!(sorted_edges(&g), vec![rel("a", "b", 2)]);
}

#[test]
fn empty_side_in_shared_case() {
    // A's empty trace was filtered out when its log was read.
    let g = run(vec![], vec![case("c", &[("a", 1)])], true);
    assert_eq!(sorted_edges(&g), vec![]);
    // frequencies are recounted over the graph without its sentinels
    assert_eq!(g.activities, vec![("a".to_string(), 0)]);
    assert_eq!(sorted_set(&g.start_activities), names(&["a"]));
    assert_eq!(sorted_set(&g.end_activities), names(&["a"]));
}

#[test]
fn no_sentinel_vertices_remain() {
    let g = run(
        vec![case("c", &[("a", 10), ("c", 30)]), case("d", &[("a", 5)])],
        vec![case("c", &[("b", 20)]), case("e", &[("z", 3), ("z", 4)])],
        true,
    );
    for (name, _) in g.activities.iter() {
        assert_ne!(name, "start");
        assert_ne!(name, "end");
    }
    for (from, to, _) in g.directly_follows_relations.iter() {
        assert_ne!(from, "start");
        assert_ne!(to, "end");
    }
    assert_eq!(
        sorted_edges(&g),
        vec![rel("a", "b", 1), rel("b", "c", 1), rel("z", "z", 1)]
    );
    assert_eq!(sorted_set(&g.start_activities), names(&["a", "z"]));
    assert_eq!(sorted_set(&g.end_activities), names(&["a", "c", "z"]));
}

#[test]
fn case_order_does_not_change_the_graph() {
    let a1 = vec![case("c1", &[("a", 1), ("b", 5)]), case("c2", &[("b", 1), ("a", 2)])];
    let b1 = vec![case("c2", &[("x", 3)]), case("c1", &[("y", 2)])];
    let a2 = vec![case("c2", &[("b", 1), ("a", 2)]), case("c1", &[("a", 1), ("b", 5)])];
    let b2 = vec![case("c1", &[("y", 2)]), case("c2", &[("x", 3)])];
    let g1 = run(a1, b1, true);
    let g2 = run(a2, b2, true);
    assert_eq!(sorted_edges(&g1), sorted_edges(&g2));
    assert_eq!(sorted_set(&g1.start_activities), sorted_set(&g2.start_activities));
    assert_eq!(sorted_set(&g1.end_activities), sorted_set(&g2.end_activities));
    let mut acts1 = g1.activities.clone();
    let mut acts2 = g2.activities.clone();
    acts1.sort();
    acts2.sort();
    assert_eq!(acts1, acts2);
    assert_eq!(sorted_edges(&g1), vec![rel("a", "x", 1), rel("a", "y", 1), rel("b", "a", 1), rel("y", "b", 1)]);
}

#[test]
fn psi_off_and_on_agree() {
    let a = || vec![case("c1", &[("a", 1), ("b", 5)]), case("c3", &[("q", 1)])];
    let b = || vec![case("c1", &[("y", 2)]), case("c4", &[("r", 7), ("s", 8)])];
    let g1 = run(a(), b(), true);
    let g2 = run(a(), b(), false);
    assert_eq!(sorted_edges(&g1), sorted_edges(&g2));
    assert_eq!(sorted_set(&g1.start_activities), sorted_set(&g2.start_activities));
    assert_eq!(sorted_set(&g1.end_activities), sorted_set(&g2.end_activities));
}

#[test]
fn relabelling_permutes_names_only() {
    let g1 = run(
        vec![case("c", &[("a", 10), ("c", 30)])],
        vec![case("c", &[("b", 20)])],
        true,
    );
    let g2 = run(
        vec![case("c", &[("p", 10), ("r", 30)])],
        vec![case("c", &[("q", 20)])],
        true,
    );
    assert_eq!(sorted_edges(&g1), vec![rel("a", "b", 1), rel("b", "c", 1)]);
    assert_eq!(sorted_edges(&g2), vec![rel("p", "q", 1), rel("q", "r", 1)]);
}

#[test]
fn activity_counts_are_consistent() {
    let g = run(
        vec![case("c1", &[("a", 1), ("b", 2)]), case("c2", &[("a", 1), ("b", 2)])],
        vec![],
        true,
    );
    let mut acts = g.activities.clone();
    acts.sort();
    assert_eq!(acts, vec![("a".to_string(), 2), ("b".to_string(), 2)]);
}

#[test]
fn too_many_activities_is_refused() {
    let a_events: Vec<(String, u64)> = (0..40000).map(|i| (format!("a{}", i), i as u64)).collect();
    let b_events: Vec<(String, u64)> = (0..25535).map(|i| (format!("b{}", i), i as u64)).collect();
    let to_trace = |id: &str, evs: &Vec<(String, u64)>| Trace {
        case_id: id.to_string(),
        events: evs.iter().map(|(a, t)| Event { activity: a.clone(), timestamp: *t }).collect(),
    };
    let mut org_a = PrivateKeyOrganization::new(EventLog { traces: vec![to_trace("c1", &a_events)] }, true);
    let mut org_b = PublicKeyOrganization::new(EventLog { traces: vec![to_trace("c2", &b_events)] }, true);
    let mut counts = OperationCounts::new();
    let r = communicate(&mut org_a, &mut org_b, 100, true, &mut counts);
    assert_eq!(r.err(), Some(federated_discovery::codec::ProtocolError::TooManyActivities));
}

#[test]
fn window_size_does_not_change_the_graph() {
    let a = || vec![case("c1", &[("a", 1), ("b", 5)]), case("c2", &[("b", 1), ("a", 2)]), case("c3", &[("q", 1)])];
    let b = || vec![case("c2", &[("x", 3)]), case("c1", &[("y", 2)]), case("c4", &[("r", 7)])];
    let run_with = |w: usize| {
        let mut org_a = PrivateKeyOrganization::new(EventLog { traces: a() }, false);
        let mut org_b = PublicKeyOrganization::new(EventLog { traces: b() }, true);
        let mut counts = OperationCounts::new();
        communicate(&mut org_a, &mut org_b, w, true, &mut counts).unwrap()
    };
    let g1 = run_with(1);
    let g2 = run_with(100);
    assert_eq!(sorted_edges(&g1), sorted_edges(&g2));
    let mut acts1 = g1.activities.clone();
    let mut acts2 = g2.activities.clone();
    acts1.sort();
    acts2.sort();
    assert_eq!(acts1, acts2);
    assert_eq!(sorted_set(&g1.start_activities), sorted_set(&g2.start_activities));
    assert_eq!(sorted_set(&g1.end_activities), sorted_set(&g2.end_activities));
}
