use federated_discovery::codec::{build_code_table, code_of, encode_trace, ProtocolError};
use federated_discovery::dfg::{recalculate_activity_counts, DirectlyFollowsGraph};
use federated_discovery::facade::{le, select, OperationCounts};
use federated_discovery::log::{find_activities, Event, EventLog, Trace};
use federated_discovery::merge::{add_full_trace, find_secrets_for_case};
use federated_discovery::organization::{PrivateKeyOrganization, PublicKeyOrganization};
use federated_discovery::psi::{hash_all_case_ids, has_matching_case_id};

fn strings(v: &[&str]) -> Vec<String> {
    v.iter().map(|s| s.to_string()).collect()
}

fn log(cases: &[(&str, &[(&str, u64)])]) -> EventLog {
    EventLog {
        traces: cases
            .iter()
            .map(|(id, evs)| Trace {
                case_id: id.to_string(),
                events: evs
                    .iter()
                    .map(|(a, t)| Event { activity: a.to_string(), timestamp: *t })
                    .collect(),
            })
            .collect(),
    }
}

fn sorted(mut v: Vec<(u16, u16)>) -> Vec<(u16, u16)> {
    v.sort();
    v
}

#[test]
fn merge_interleaves_by_timestamp() {
    let mut counts = OperationCounts::new();
    // A: 2@10, 4@30; B: 3@20 -> start 2 3 4 end
    let r = find_secrets_for_case(&vec![2, 4], &vec![10, 30], &vec![3], &vec![20], 0, 1, &mut counts);
    assert_eq!(sorted(r), vec![(0, 2), (2, 3), (3, 4), (4, 1)]);
    assert_eq!(counts.timestamp_comparisons, 4);
    // 1 + 2*q*(p-1) + 2*p*(q-1) + 2 with p = 2, q = 1
    assert_eq!(counts.selections, 5);
}

#[test]
fn merge_tie_puts_a_first() {
    let mut counts = OperationCounts::new();
    let r = find_secrets_for_case(&vec![2], &vec![10], &vec![3], &vec![10], 0, 1, &mut counts);
    assert_eq!(sorted(r), vec![(0, 2), (2, 3), (3, 1)]);
}

#[test]
fn merge_b_before_a() {
    let mut counts = OperationCounts::new();
    let r = find_secrets_for_case(&vec![2, 5], &vec![10, 11], &vec![3, 4], &vec![1, 12], 0, 1, &mut counts);
    assert_eq!(sorted(r), vec![(0, 3), (2, 5), (3, 2), (4, 1), (5, 4)]);
}

#[test]
fn merge_with_empty_side() {
    let mut counts = OperationCounts::new();
    let r = find_secrets_for_case(&vec![], &vec![], &vec![7, 8], &vec![1, 2], 0, 1, &mut counts);
    assert_eq!(sorted(r), vec![(0, 7), (7, 8), (8, 1)]);
    assert_eq!(counts.selections, 0);
    let r = find_secrets_for_case(&vec![], &vec![], &vec![], &vec![], 0, 1, &mut counts);
    assert!(r.is_empty());
}

#[test]
fn full_trace_edges() {
    let mut out = vec![(9, 9)];
    add_full_trace(&vec![5, 6, 7], &mut out, 0, 1);
    assert_eq!(out, vec![(9, 9), (0, 5), (7, 1), (5, 6), (6, 7)]);
}

#[test]
fn facade_operations() {
    assert!(le(3, 3));
    assert!(!le(4, 3));
    assert_eq!(select(true, 1, 2), 1);
    assert_eq!(select(false, 1, 2), 2);
}

#[test]
fn code_table_reserves_sentinels() {
    let t = build_code_table(&strings(&["b", "a"]), &strings(&["a", "c"])).unwrap();
    assert_eq!(t, strings(&["start", "end", "a", "b", "c"]));
    assert_eq!(code_of(&t, &"c".to_string()), Some(4));
    assert_eq!(code_of(&t, &"zz".to_string()), None);
}

#[test]
fn encoding_rejects_unknown_activity() {
    let t = build_code_table(&strings(&["a"]), &strings(&[])).unwrap();
    assert_eq!(encode_trace(&strings(&["a", "end", "start"]), &t), Ok(vec![2, 1, 0]));
    assert_eq!(encode_trace(&strings(&["a", "b"]), &t), Err(ProtocolError::UnknownActivity));
}

#[test]
fn code_table_too_large() {
    let own: Vec<String> = (0..65535).map(|i| format!("x{}", i)).collect();
    assert_eq!(build_code_table(&own, &vec![]), Err(ProtocolError::TooManyActivities));
    let own: Vec<String> = (0..65534).map(|i| format!("x{}", i)).collect();
    assert_eq!(build_code_table(&own, &vec![]).unwrap().len(), 65536);
}

#[test]
fn activities_are_found_once() {
    let l = log(&[("c1", &[("a", 1), ("b", 2)]), ("c2", &[("a", 3)])]);
    assert_eq!(find_activities(&l), strings(&["a", "b"]));
}

#[test]
fn case_id_hashes_match_only_equal_ids() {
    let h = hash_all_case_ids(&strings(&["c1", "c2", "c1"]));
    assert_eq!(h[0], h[2]);
    assert_ne!(h[0], h[1]);
    let mut counts = OperationCounts::new();
    assert!(has_matching_case_id(h[1], &h, true, &mut counts));
    let other = hash_all_case_ids(&strings(&["zz"]));
    assert!(!has_matching_case_id(other[0], &h, true, &mut counts));
    assert_eq!(counts.case_id_comparisons, 6);
}

#[test]
fn psi_finds_the_intersection() {
    let a = PrivateKeyOrganization::new(log(&[("c1", &[("a", 1)]), ("c2", &[("a", 1)]), ("c3", &[("a", 1)])]), false);
    let b = PublicKeyOrganization::new(log(&[("c3", &[("b", 1)]), ("c1", &[("b", 1)]), ("c9", &[("b", 1)])]), true);
    let (ids, hashes) = a.encrypt_all_case_ids();
    let mut counts = OperationCounts::new();
    let check = b.find_shared_case_ids(&hashes, &mut counts);
    assert_eq!(check, vec![(0, true), (1, false), (2, true)]);
    let mut shared = a.decrypt_and_identify_shared_case_ids(&ids, &check);
    shared.sort();
    assert_eq!(shared, strings(&["c1", "c3"]));
}

#[test]
fn sanitize_rejects_out_of_range_and_duplicate_codes() {
    let b = PublicKeyOrganization::new(log(&[]), true);
    let mut s = vec![(0, 0), (2, 2)];
    assert_eq!(b.sanitize_sample_encryptions(&mut s), Err(ProtocolError::MalformedSamples));
    let mut s = vec![(0, 0), (0, 0)];
    assert_eq!(b.sanitize_sample_encryptions(&mut s), Err(ProtocolError::MalformedSamples));
    let mut s = vec![(1, 1), (0, 5)];
    assert_eq!(b.sanitize_sample_encryptions(&mut s), Ok(()));
    assert_eq!(s, vec![(1, 1), (0, 0)]);
}

#[test]
fn missing_sentinel_sample_is_malformed() {
    let mut b = PublicKeyOrganization::new(log(&[]), true);
    assert_eq!(b.set_activity_to_pos(strings(&["start", "end"]), &vec![(0, 0)]), Err(ProtocolError::MalformedSamples));
    assert_eq!(b.set_activity_to_pos(strings(&["start", "end"]), &vec![(1, 1), (0, 0)]), Ok(()));
    assert_eq!(b.start, Some(0));
    assert_eq!(b.end, Some(1));
}

#[test]
fn foreign_codes_are_clamped_to_end() {
    let mut b = PublicKeyOrganization::new(log(&[]), true);
    b.set_activity_to_pos(strings(&["start", "end", "a"]), &vec![(0, 0), (1, 1), (2, 2)]).unwrap();
    b.set_foreign_case_to_trace(vec![("c".to_string(), vec![2, 3, 9, 0], vec![1, 2, 3, 4])]);
    assert_eq!(b.foreign_case_to_trace[0].1, vec![2, 1, 1, 0]);
    assert_eq!(b.foreign_case_to_trace[0].2, vec![1, 2, 3, 4]);
}

#[test]
fn unknown_activity_in_shared_case() {
    let mut a = PrivateKeyOrganization::new(log(&[("c", &[("a", 1)])]), false);
    a.update_with_foreign_activities(vec![]).unwrap();
    a.activity_to_pos = strings(&["start", "end"]);
    assert_eq!(a.encrypt_all_data(&strings(&["c"])), Err(ProtocolError::UnknownActivity));
    assert_eq!(a.encrypt_all_data(&strings(&["d"])).unwrap().len(), 0);
}

#[test]
fn decrypted_edges_skip_end_sources() {
    let mut a = PrivateKeyOrganization::new(log(&[]), false);
    a.update_with_foreign_activities(strings(&["a", "b"])).unwrap();
    let g = a.evaluate_decrypted_edges_to_dfg(&vec![(0, 2), (2, 3), (2, 3), (1, 2), (3, 1), (2, 99)]);
    let mut r = g.directly_follows_relations.clone();
    r.sort();
    assert_eq!(
        r,
        vec![
            ("a".to_string(), "b".to_string(), 2),
            ("b".to_string(), "end".to_string(), 1),
            ("start".to_string(), "a".to_string(), 1)
        ]
    );
    assert_eq!(g.activities.len(), 4);
}

#[test]
fn private_cases_are_added_in_the_clear() {
    let a = PrivateKeyOrganization::new(log(&[("c1", &[("a", 1), ("b", 2)]), ("c2", &[("x", 1)])]), false);
    let mut g = DirectlyFollowsGraph::new();
    a.update_graph_with_private_cases(&mut g, &strings(&["c1", "c2"]), &strings(&["c2"]));
    let mut r = g.directly_follows_relations.clone();
    r.sort();
    assert_eq!(
        r,
        vec![
            ("a".to_string(), "b".to_string(), 1),
            ("b".to_string(), "end".to_string(), 1),
            ("start".to_string(), "a".to_string(), 1)
        ]
    );
}

#[test]
fn recount_takes_larger_of_in_and_out() {
    let mut g = DirectlyFollowsGraph::with_activities(&strings(&["a", "b", "c"]));
    g.add_df_relation("a".to_string(), "b".to_string(), 3);
    g.add_df_relation("c".to_string(), "b".to_string(), 2);
    g.add_df_relation("b".to_string(), "a".to_string(), 1);
    g.add_df_relation("a".to_string(), "b".to_string(), 1);
    recalculate_activity_counts(&mut g);
    assert_eq!(
        g.activities,
        vec![("a".to_string(), 4), ("b".to_string(), 6), ("c".to_string(), 2)]
    );
    assert_eq!(g.ingoing_frequency(&"b".to_string()), 6);
    assert_eq!(g.outgoing_frequency(&"b".to_string()), 1);
}

#[test]
fn secret_edge_count_and_shuffled_window() {
    let mut b = PublicKeyOrganization::new(log(&[("c", &[("a", 2)])]), true);
    b.set_activity_to_pos(strings(&["start", "end", "a", "x"]), &vec![(0, 0), (1, 1), (2, 2), (3, 3)]).unwrap();
    b.set_foreign_case_to_trace(vec![("c".to_string(), vec![3, 3], vec![1, 3]), ("d".to_string(), vec![3], vec![5])]);
    b.encrypt_all_data(&vec![(0, 0), (1, 1), (2, 2), (3, 3)]).unwrap();
    b.compute_all_case_names();
    assert_eq!(b.get_cases_len(), 2);
    assert_eq!(b.get_secret_edges_len(), 4 + 2);
    let mut counts = OperationCounts::new();
    let mut all = b.find_all_secrets(0, 2, &mut counts);
    all.sort();
    assert_eq!(all, vec![(0, 3), (0, 3), (2, 3), (3, 1), (3, 1), (3, 2)]);
}

#[test]
fn named_edges_to_graph() {
    let mut a = PrivateKeyOrganization::new(log(&[]), false);
    a.update_with_foreign_activities(strings(&["a", "b"])).unwrap();
    let edges = vec![
        ("a".to_string(), "b".to_string()),
        ("a".to_string(), "b".to_string()),
        ("b".to_string(), "a".to_string()),
    ];
    let g = a.edges_to_dfg(&edges);
    let mut r = g.directly_follows_relations.clone();
    r.sort();
    assert_eq!(r, vec![("a".to_string(), "b".to_string(), 2), ("b".to_string(), "a".to_string(), 1)]);
    assert_eq!(
        g.activities,
        vec![("start".to_string(), 0), ("end".to_string(), 0), ("a".to_string(), 2), ("b".to_string(), 2)]
    );
}

#[test]
fn visiting_order_is_random() {
    let ids = ["c1", "c2", "c3", "c4", "c5", "c6", "c7", "c8"];
    let cases: Vec<(&str, &[(&str, u64)])> = ids.iter().map(|id| (*id, &[("a", 1)][..])).collect();
    let mut orders = Vec::new();
    for _ in 0..20 {
        let mut b = PublicKeyOrganization::new(log(&cases), true);
        b.compute_all_case_names();
        let mut sorted_names = b.all_case_names.clone();
        sorted_names.sort();
        assert_eq!(sorted_names, strings(&ids));
        orders.push(b.all_case_names.clone());
    }
    assert!(orders.iter().any(|o| *o != orders[0]));
}

#[test]
fn code_table_depends_on_the_set_of_names_only() {
    let mut a1 = PrivateKeyOrganization::new(log(&[("c", &[("b", 1), ("a", 2)])]), false);
    let mut a2 = PrivateKeyOrganization::new(log(&[("c", &[("a", 1), ("b", 2)])]), false);
    let t1 = a1.update_with_foreign_activities(strings(&["z", "B", "\u{e9}"])).unwrap();
    let t2 = a2.update_with_foreign_activities(strings(&["\u{e9}", "z", "B"])).unwrap();
    assert_eq!(t1, t2);
    assert_eq!(t1, strings(&["start", "end", "B", "a", "b", "z", "\u{e9}"]));
    assert!(!federated_discovery::codec::less_than(&"ab".to_string(), &"a".to_string()));
    assert!(federated_discovery::codec::less_than(&"a".to_string(), &"ab".to_string()));
}
