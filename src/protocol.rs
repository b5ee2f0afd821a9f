//! The fixed sequence of steps between the two organizations that yields the
//! directly-follows graph of their joint log.
use vstd::prelude::*;
use vstd::seq_lib::*;
use crate::codec::{canonical_order, code_in, end_name, is_code_table, start_name, ProtocolError, END_CODE, MAX_CODES, START_CODE};
use crate::dfg::{positive, in_sum, max_int, out_sum, edge_freq, is_inner, lemma_positive_freq, recalculate_activity_counts, strip_sentinels, total_freq, DirectlyFollowsGraph};
use crate::facade::{bumped, lemma_bumped_twice, OperationCounts};
use crate::log::{distinct_names, has_name, views, EventLog, Trace};
use crate::psi::{case_id_hash, hashes_of, marked_ids};
use crate::merge::{df_edges, lemma_merge_one_side, sorted, case_edges, lemma_relabel_case_edges, merge_from, merged_trace, Edge};
use vstd::multiset::*;
use crate::organization::{
    lemma_window_ops_concat, window_selections, window_timestamp_ops,
    lemma_private_edges_bound,
    named_df_edges,
    case_from,
    name_of,
    clamped, lemma_selected_where, selected_where,
    case_names, encodes_case,
    EncodedCase,
    decoded_count, edges_of_cases_where, lemma_private_edges_where, private_edges,
    all_known, cases_sorted, cases_wf, lemma_window_concat, window_edges, code_for, joint_vocabulary, lemma_selected_member, sample_from, sampled_trace, selected,
    PrivateKeyOrganization, PublicKeyOrganization,
};

verus! {

/// The names that the agreed code table covers: the sentinels and the
/// activities of both logs.
pub open spec fn logs_vocabulary(a: EventLog, b: EventLog) -> Set<Seq<char>> {
    Set::new(|x: Seq<char>| x == start_name() || x == end_name() || a.has_activity(x) || b.has_activity(x))
}

/// Samples that hold, at each position `j`, the pair `(j, j)`.
pub open spec fn identity_samples(samples: Seq<(u16, u16)>) -> bool {
    forall|j: int| 0 <= j < samples.len() ==> #[trigger] samples[j] == (j as u16, j as u16)
}

proof fn lemma_identity_sample(samples: Seq<(u16, u16)>, c: int, i: int)
    requires
        identity_samples(samples),
        samples.len() <= MAX_CODES,
        0 <= i <= c < samples.len(),
    ensures
        sample_from(samples, c as u16, i) == Some(c as u16),
    decreases c - i,
{
    if i < c {
        assert(samples[i] == (i as u16, i as u16));
        assert(i as u16 != c as u16);
        lemma_identity_sample(samples, c, i + 1);
    }
}

/// The traces whose hashed identifier is not among those of `log_b`.
pub open spec fn hash_absent(log_b: EventLog) -> spec_fn(Trace) -> bool {
    |t: Trace| !hashes_of(log_b.case_id_list_spec()).contains(case_id_hash(t.case_id@))
}

/// Edges of A's cases that are not merged with B's: with PSI, the non-empty
/// cases whose hashed identifier B does not hold; without, none.
pub open spec fn a_private_edges(log_a: EventLog, log_b: EventLog, use_psi: bool) -> Seq<(Seq<char>, Seq<char>)> {
    if use_psi {
        edges_of_cases_where(log_a.traces@, hash_absent(log_b))
    } else {
        Seq::empty()
    }
}

proof fn lemma_no_edges_where(traces: Seq<Trace>)
    ensures
        edges_of_cases_where(traces, |t: Trace| false) == Seq::<(Seq<char>, Seq<char>)>::empty(),
    decreases traces.len(),
{
    if traces.len() > 0 {
        lemma_no_edges_where(traces.drop_last());
        assert(Seq::<(Seq<char>, Seq<char>)>::empty() + Seq::<(Seq<char>, Seq<char>)>::empty() =~= Seq::<
            (Seq<char>, Seq<char>),
        >::empty());
    }
}

/// Graph `g` holds, apart from the relations that touch a sentinel, the
/// decoded edges that the merge handed back for the cases named in `names`
/// together with the `private` edges: for some sequence of merge edges whose
/// multiset, where every stored case's timestamps are in order, is that of the
/// per-case merge edges, each relation's frequency counts its decoded
/// occurrences there plus its occurrences among `private`.
pub open spec fn assembled_from(
    g: DirectlyFollowsGraph,
    table: Seq<String>,
    foreign: Seq<EncodedCase>,
    own: Seq<EncodedCase>,
    names: Seq<String>,
    start: u16,
    end: u16,
    private: Seq<(Seq<char>, Seq<char>)>,
) -> bool {
    exists|secret_edges: Seq<Edge>|
        #![trigger secret_edges.to_multiset()]
        {
            &&& (cases_sorted(foreign) && cases_sorted(own)) ==> secret_edges.to_multiset() == window_edges(
                foreign,
                own,
                names,
                start,
                end,
            ).to_multiset()
            &&& forall|x: Seq<char>, y: Seq<char>|
                #[trigger] edge_freq(g.relations(), x, y) == if is_inner(x, y) {
                    decoded_count(table, secret_edges, x, y) + private.to_multiset().count((x, y))
                } else {
                    0
                }
        }
}

/// A's cases that B merges: with PSI, those whose hashed identifier B holds;
/// without, all of them.
pub open spec fn a_shared_cases(log_a: EventLog, log_b: EventLog, use_psi: bool) -> Seq<Trace> {
    selected_where(log_a.traces@, shared_pick(log_b, use_psi))
}

/// The traces of A that B merges: with PSI, those whose hashed identifier
/// is among those of `log_b`; without, all.
pub open spec fn shared_pick(log_b: EventLog, use_psi: bool) -> spec_fn(Trace) -> bool {
    |t: Trace| !use_psi || hashes_of(log_b.case_id_list_spec()).contains(case_id_hash(t.case_id@))
}

/// How often `u -> w` follows in the joint plaintext log: in the merges of
/// the cases named in `names` and in A's private cases.
pub open spec fn joint_count(
    log_a: EventLog,
    log_b: EventLog,
    use_psi: bool,
    names: Seq<String>,
    u: Seq<char>,
    w: Seq<char>,
) -> int {
    (named_window_edges(a_shared_cases(log_a, log_b, use_psi), log_b.traces@, names).to_multiset().count((u, w))
        + a_private_edges(log_a, log_b, use_psi).to_multiset().count((u, w))) as int
}

/// Runs the protocol between A and B. With `use_psi`, only the cases that both
/// hold are merged obliviously and A adds its other cases in the clear;
/// without, every case of A goes to B. B visits the cases in windows of
/// `window_size`. Once the sentinels are stripped, each activity's frequency
/// is recounted as the larger of its in- and out-frequencies.
#[verifier::spinoff_prover]
#[verifier::rlimit(60)]
pub fn communicate(
    org_a: &mut PrivateKeyOrganization,
    org_b: &mut PublicKeyOrganization,
    window_size: usize,
    use_psi: bool,
    counts: &mut OperationCounts,
) -> (r: Result<DirectlyFollowsGraph, ProtocolError>)
    requires
        window_size > 0,
        old(org_b).true_val,
    ensures
        r is Ok ==> final(counts).case_id_comparisons == if use_psi {
            bumped(
                old(counts).case_id_comparisons,
                old(org_a).event_log.traces.len() * old(org_b).event_log.traces.len(),
            )
        } else {
            old(counts).case_id_comparisons
        },
        r is Ok ==> final(counts).timestamp_comparisons == bumped(
            old(counts).timestamp_comparisons,
            window_timestamp_ops(
                final(org_b).foreign_case_to_trace@,
                final(org_b).own_case_to_trace@,
                final(org_b).all_case_names@,
            ),
        ),
        r is Ok ==> final(counts).selections == bumped(
            old(counts).selections,
            (if use_psi {
                old(org_a).event_log.traces.len() * (old(org_b).event_log.traces.len() + 1)
            } else {
                0
            }) + window_selections(
                final(org_b).foreign_case_to_trace@,
                final(org_b).own_case_to_trace@,
                final(org_b).all_case_names@,
            ),
        ),
        r is Err <==> logs_vocabulary(old(org_a).event_log, old(org_b).event_log).len() > MAX_CODES,
        r is Err ==> r->Err_0 == ProtocolError::TooManyActivities,
        r is Ok ==> {
            let g = r->Ok_0;
            &&& g.wf()
            &&& positive(g.relations())
            &&& forall|k: int|
                0 <= k < g.relations().len() ==> is_inner((#[trigger] g.relations()[k]).0@, g.relations()[k].1@)
            &&& forall|k: int|
                0 <= k < g.activities.len() ==> (#[trigger] g.activities@[k]).0@ != start_name()
                    && g.activities@[k].0@ != end_name()
            &&& forall|x: Seq<char>|
                (exists|k: int| 0 <= k < g.activities.len() && (#[trigger] g.activities@[k]).0@ == x) <==> (
                logs_vocabulary(old(org_a).event_log, old(org_b).event_log).contains(x) && x != start_name() && x
                    != end_name())
            &&& forall|k: int|
                0 <= k < g.activities.len() ==> (#[trigger] g.activities@[k]).1 == max_int(
                    in_sum(g.relations(), g.activities@[k].0@),
                    out_sum(g.relations(), g.activities@[k].0@),
                )
            &&& distinct_names(g.start_activities@)
            &&& distinct_names(g.end_activities@)
            &&& is_code_table(final(org_a).activity_to_pos@)
            &&& canonical_order(final(org_a).activity_to_pos@)
            &&& forall|x: Seq<char>|
                #[trigger] has_name(final(org_a).activity_to_pos@, x) <==> logs_vocabulary(
                    old(org_a).event_log,
                    old(org_b).event_log,
                ).contains(x)
            &&& final(org_b).activity_to_pos@ == final(org_a).activity_to_pos@
            &&& final(org_b).start == Some(START_CODE)
            &&& final(org_b).end == Some(END_CODE)
            &&& final(org_b).own_case_to_trace.len() == old(org_b).event_log.traces.len()
            &&& forall|k: int|
                0 <= k < final(org_b).own_case_to_trace.len() ==> encodes_case(
                    final(org_a).activity_to_pos@,
                    old(org_b).event_log.traces@[k],
                    #[trigger] final(org_b).own_case_to_trace@[k],
                )
            &&& final(org_b).foreign_case_to_trace.len() == a_shared_cases(
                old(org_a).event_log,
                old(org_b).event_log,
                use_psi,
            ).len()
            &&& forall|k: int|
                0 <= k < final(org_b).foreign_case_to_trace.len() ==> encodes_case(
                    final(org_a).activity_to_pos@,
                    a_shared_cases(old(org_a).event_log, old(org_b).event_log, use_psi)[k],
                    #[trigger] final(org_b).foreign_case_to_trace@[k],
                )
            &&& distinct_names(final(org_b).all_case_names@)
            &&& forall|x: Seq<char>|
                #[trigger] has_name(final(org_b).all_case_names@, x) <==> (old(org_b).event_log.case_ids().contains(x)
                    || trace_ids(a_shared_cases(old(org_a).event_log, old(org_b).event_log, use_psi)).contains(x))
            &&& (traces_sorted(old(org_a).event_log.traces@) && traces_sorted(old(org_b).event_log.traces@)
                && no_end_activity(old(org_a).event_log.traces@) && no_end_activity(old(org_b).event_log.traces@))
                ==> {
                &&& forall|x: Seq<char>, y: Seq<char>|
                    #[trigger] edge_freq(g.relations(), x, y) == if is_inner(x, y) {
                        joint_count(
                            old(org_a).event_log,
                            old(org_b).event_log,
                            use_psi,
                            final(org_b).all_case_names@,
                            x,
                            y,
                        )
                    } else {
                        0
                    }
                &&& forall|x: Seq<char>|
                    #[trigger] has_name(g.start_activities@, x) <==> joint_count(
                        old(org_a).event_log,
                        old(org_b).event_log,
                        use_psi,
                        final(org_b).all_case_names@,
                        start_name(),
                        x,
                    ) > 0
                &&& forall|x: Seq<char>|
                    #[trigger] has_name(g.end_activities@, x) <==> (x != start_name() && joint_count(
                        old(org_a).event_log,
                        old(org_b).event_log,
                        use_psi,
                        final(org_b).all_case_names@,
                        x,
                        end_name(),
                    ) > 0)
            }
            &&& (traces_sorted(old(org_a).event_log.traces@) && traces_sorted(old(org_b).event_log.traces@)
                && no_sentinel_activity(old(org_a).event_log.traces@) && no_sentinel_activity(
                old(org_b).event_log.traces@,
            )) ==> {
                &&& forall|k: int|
                    0 <= k < g.relations().len() ==> framed_edge(
                        ((#[trigger] g.relations()[k]).0@, g.relations()[k].1@),
                    )
                &&& forall|x: Seq<char>|
                    #[trigger] has_name(g.start_activities@, x) ==> x != start_name() && x != end_name()
                &&& forall|x: Seq<char>|
                    #[trigger] has_name(g.end_activities@, x) ==> x != start_name() && x != end_name()
            }
            &&& assembled_from(
                g,
                final(org_a).activity_to_pos@,
                final(org_b).foreign_case_to_trace@,
                final(org_b).own_case_to_trace@,
                final(org_b).all_case_names@,
                final(org_b).start->Some_0,
                final(org_b).end->Some_0,
                a_private_edges(old(org_a).event_log, old(org_b).event_log, use_psi),
            )
        },
{
    // agree on the encoding
    let activities_b = org_b.find_activities();
    let ghost log_a = org_a.event_log;
    let ghost log_b = org_b.event_log;
    proof {
        assert(joint_vocabulary(log_a, activities_b@) =~= logs_vocabulary(log_a, log_b));
    }
    let table = match org_a.update_with_foreign_activities(activities_b) {
        Ok(t) => t,
        Err(e) => {
            return Err(e);
        },
    };
    let ghost codes = table@;
    let mut sample_encryptions = org_a.provide_sample_encryptions();
    let ghost provided = sample_encryptions@;
    proof {
        assert forall|k: int| 0 <= k < provided.len() implies ((#[trigger] provided[k]).0 as int) < provided.len() by {
            assert(provided[k] == (k as u16, k as u16));
        }
        assert forall|k: int, m: int| 0 <= k < m < provided.len() implies provided[k].0 != provided[m].0 by {
            assert(provided[k] == (k as u16, k as u16));
            assert(provided[m] == (m as u16, m as u16));
        }
    }
    match org_b.sanitize_sample_encryptions(&mut sample_encryptions) {
        Ok(()) => {},
        Err(e) => {
            return Err(e);
        },
    }
    proof {
        assert(sample_encryptions@ =~= provided);
        assert(identity_samples(sample_encryptions@));
        assert(sample_encryptions@[0] == (0u16, 0u16));
        assert(sample_encryptions@[1] == (1u16, 1u16));
        assert(sample_from(sample_encryptions@, 1, 1) == Some(1u16));
    }
    match org_b.set_activity_to_pos(table, &sample_encryptions) {
        Ok(()) => {},
        Err(e) => {
            return Err(e);
        },
    }
    // find the shared cases
    let own_case_ids: Vec<String>;
    let shared_case_ids: Vec<String>;
    if use_psi {
        let (ids, hashes) = org_a.encrypt_all_case_ids();
        let check = org_b.find_shared_case_ids(&hashes, counts);
        proof {
            assert(hashes@.len() == ids@.len());
        }
        shared_case_ids = org_a.decrypt_and_identify_shared_case_ids(&ids, &check);
        own_case_ids = ids;
        proof {
            let hb = hashes_of(log_b.case_id_list_spec());
            let traces = log_a.traces@;
            assert(views(own_case_ids@).len() == own_case_ids@.len());
            assert(own_case_ids@.len() == traces.len());
            assert(check@.len() == traces.len());
            assert(org_b.true_val);
            assert(org_b.event_log == log_b);
            assert forall|k: int| 0 <= k < traces.len() implies #[trigger] hashes@[k] == case_id_hash(own_case_ids@[k]@) by {}
            assert forall|k: int| 0 <= k < traces.len() implies #[trigger] check@[k] == (k as usize, hb.contains(hashes@[k])) by {}
            assert forall|i: int| 0 <= i < traces.len() implies (has_name(own_case_ids@, (#[trigger] traces[i]).case_id@)
                && !has_name(shared_case_ids@, traces[i].case_id@)) == !hb.contains(case_id_hash(traces[i].case_id@)) by {
                let x = traces[i].case_id@;
                assert(views(own_case_ids@)[i] == log_a.case_ids()[i]);
                assert(own_case_ids@[i]@ == x);
                if hb.contains(case_id_hash(x)) {
                    assert(hashes@[i] == case_id_hash(own_case_ids@[i]@));
                    assert(check@[i] == (i as usize, true));
                    assert(check@[i].0 as int == i);
                    assert(own_case_ids@[check@[i].0 as int]@ == x);
                    assert(marked_ids(own_case_ids@, check@, x));
                } else {
                    if marked_ids(own_case_ids@, check@, x) {
                        let k = choose|k: int|
                            0 <= k < check@.len() && check@[k].1 && #[trigger] own_case_ids@[check@[k].0 as int]@ == x;
                        assert(check@[k].0 as int == k);
                        assert(hashes@[k] == case_id_hash(own_case_ids@[k]@));
                    }
                }
            }
            lemma_private_edges_where(traces, own_case_ids@, shared_case_ids@, hash_absent(log_b));
            assert forall|i: int| 0 <= i < traces.len() implies has_name(shared_case_ids@, (#[trigger] traces[i]).case_id@)
                == (!use_psi || hb.contains(case_id_hash(traces[i].case_id@))) by {
                assert(views(own_case_ids@)[i] == log_a.case_ids()[i]);
                assert(own_case_ids@[i]@ == traces[i].case_id@);
                assert(has_name(own_case_ids@, traces[i].case_id@));
            }
            lemma_selected_where(traces, shared_case_ids@, shared_pick(log_b, use_psi));
        }
    } else {
        own_case_ids = org_a.get_all_case_ids();
        shared_case_ids = org_a.get_all_case_ids();
        proof {
            let traces = log_a.traces@;
            assert(views(shared_case_ids@).len() == shared_case_ids@.len());
            assert(shared_case_ids@.len() == traces.len());
            assert forall|i: int| 0 <= i < traces.len() implies (has_name(own_case_ids@, (#[trigger] traces[i]).case_id@)
                && !has_name(shared_case_ids@, traces[i].case_id@)) == false by {
                assert(views(shared_case_ids@)[i] == log_a.case_ids()[i]);
                assert(shared_case_ids@[i]@ == traces[i].case_id@);
            }
            lemma_private_edges_where(traces, own_case_ids@, shared_case_ids@, |t: Trace| false);
            lemma_no_edges_where(traces);
            let hb = hashes_of(log_b.case_id_list_spec());
            assert forall|i: int| 0 <= i < traces.len() implies has_name(shared_case_ids@, (#[trigger] traces[i]).case_id@)
                == (!use_psi || hb.contains(case_id_hash(traces[i].case_id@))) by {
                assert(views(shared_case_ids@)[i] == log_a.case_ids()[i]);
                assert(shared_case_ids@[i]@ == traces[i].case_id@);
            }
            lemma_selected_where(traces, shared_case_ids@, shared_pick(log_b, use_psi));
        }
    }
    assert(private_edges(log_a.traces@, own_case_ids@, shared_case_ids@) == a_private_edges(log_a, log_b, use_psi));
    // A's shared cases go to B
    proof {
        let sel = selected(org_a.event_log.traces@, shared_case_ids@);
        lemma_selected_member(org_a.event_log.traces@, shared_case_ids@);
        assert forall|k: int| 0 <= k < sel.len() implies all_known(codes, #[trigger] sel[k]) by {
            let i = choose|i: int| 0 <= i < log_a.traces.len() && log_a.traces@[i] == sel[k];
            assert forall|m: int| 0 <= m < sel[k].events.len() implies has_name(codes, #[trigger] sel[k].events@[m].activity@) by {
                assert(log_a.traces@[i].events@[m].activity@ == sel[k].events@[m].activity@);
                assert(log_a.has_activity(sel[k].events@[m].activity@));
            }
        }
    }
    let foreign = match org_a.encrypt_all_data(&shared_case_ids) {
        Ok(f) => f,
        Err(e) => {
            return Err(e);
        },
    };
    proof {
        assert forall|k: int| 0 <= k < foreign.len() implies (#[trigger] foreign@[k]).1@.len() == foreign@[k].2@.len() by {
            assert(crate::organization::encodes_case(
                org_a.activity_to_pos@,
                crate::organization::selected(org_a.event_log.traces@, shared_case_ids@)[k],
                foreign@[k],
            ));
        }
    }
    let ghost sent = foreign@;
    let ghost sel = selected(log_a.traces@, shared_case_ids@);
    org_b.set_foreign_case_to_trace(foreign);
    proof {
        let t = org_b.activity_to_pos@;
        assert(sel == a_shared_cases(log_a, log_b, use_psi));
        assert forall|k: int| 0 <= k < org_b.foreign_case_to_trace.len() implies encodes_case(
            t,
            sel[k],
            #[trigger] org_b.foreign_case_to_trace@[k],
        ) by {
            let c = org_b.foreign_case_to_trace@[k];
            let f = sent[k];
            assert(encodes_case(t, sel[k], f));
            assert forall|m: int| 0 <= m < c.1@.len() implies #[trigger] c.1@[m] == f.1@[m] by {
                assert(code_in(t, sel[k].activity_seq()[m], f.1@[m] as int));
                assert(c.1@[m] == clamped(f.1@[m], t.len() as int));
            }
            assert(c.1@ =~= f.1@);
        }
    }
    proof {
        assert forall|i: int| 0 <= i < log_b.traces.len() implies sampled_trace(
            codes,
            sample_encryptions@,
            #[trigger] log_b.traces@[i],
        ) by {
            assert forall|m: int| 0 <= m < log_b.traces@[i].events.len() implies has_name(codes, #[trigger] log_b.traces@[i].events@[m].activity@)
                && sample_from(sample_encryptions@, code_for(codes, log_b.traces@[i].events@[m].activity@) as u16, 0) is Some by {
                let x = log_b.traces@[i].events@[m].activity@;
                assert(log_b.has_activity(x));
                assert(has_name(activities_b@, x));
                assert(has_name(codes, x));
                let c = choose|c: int| 0 <= c < codes.len() && codes[c]@ == x;
                assert(code_in(codes, x, c));
                let d = code_for(codes, x);
                assert(code_in(codes, x, d));
                lemma_identity_sample(sample_encryptions@, d, 0);
            }
        }
    }
    match org_b.encrypt_all_data(&sample_encryptions) {
        Ok(()) => {},
        Err(e) => {
            return Err(e);
        },
    }
    proof {
        let t = org_b.activity_to_pos@;
        assert forall|k: int| 0 <= k < org_b.own_case_to_trace.len() implies encodes_case(
            t,
            log_b.traces@[k],
            #[trigger] org_b.own_case_to_trace@[k],
        ) by {
            let c = org_b.own_case_to_trace@[k];
            let tr = log_b.traces@[k];
            assert forall|m: int| 0 <= m < tr.activity_seq().len() implies code_in(t, tr.activity_seq()[m], #[trigger] c.1@[m] as int) by {
                let x = tr.events@[m].activity@;
                assert(tr.activity_seq()[m] == x);
                assert(has_name(t, x));
                let d = code_for(t, x);
                let w = choose|w: int| 0 <= w < t.len() && t[w]@ == x;
                assert(code_in(t, x, w));
                assert(code_in(t, x, d));
                lemma_identity_sample(sample_encryptions@, d, 0);
                assert(sample_from(sample_encryptions@, d as u16, 0) == Some(c.1@[m]));
            }
        }
    }
    proof {
        let fc = org_b.foreign_case_to_trace@;
        let shared_a = a_shared_cases(log_a, log_b, use_psi);
        assert forall|k: int| 0 <= k < fc.len() implies #[trigger] case_names(fc)[k] == trace_ids(shared_a)[k] by {
            assert(encodes_case(org_a.activity_to_pos@, shared_a[k], fc[k]));
        }
        assert(case_names(fc) =~= trace_ids(shared_a));
    }
    org_b.compute_all_case_names();
    // B merges the cases window by window
    let n = org_b.get_cases_len();
    let mut secret_edges: Vec<Edge> = Vec::new();
    let mut lo: usize = 0;
    let ghost ok = cases_sorted(org_b.foreign_case_to_trace@) && cases_sorted(org_b.own_case_to_trace@);
    let ghost c0 = counts.case_id_comparisons;
    let ghost t0 = counts.timestamp_comparisons;
    let ghost s0 = counts.selections;
    proof {
        let n_a = log_a.traces.len() as int;
        let n_b = log_b.traces.len() as int;
        assert(n_a * n_b >= 0 && n_a * (n_b + 1) >= 0) by (nonlinear_arith)
            requires
                n_a >= 0,
                n_b >= 0,
        ;
        assert(org_b.all_case_names@.subrange(0, 0) =~= Seq::<String>::empty());
    }
    let ghost st = org_b.start->Some_0;
    let ghost en = org_b.end->Some_0;
    assert(org_b.all_case_names@.subrange(0, 0) =~= Seq::<String>::empty());
    while lo < n
        invariant
            n == org_b.all_case_names.len(),
            0 <= lo <= n,
            org_b.start is Some,
            org_b.end is Some,
            st == org_b.start->Some_0,
            en == org_b.end->Some_0,
            cases_wf(org_b.foreign_case_to_trace@),
            cases_wf(org_b.own_case_to_trace@),
            ok == (cases_sorted(org_b.foreign_case_to_trace@) && cases_sorted(org_b.own_case_to_trace@)),
            counts.case_id_comparisons == c0,
            counts.timestamp_comparisons == bumped(
                t0,
                window_timestamp_ops(
                    org_b.foreign_case_to_trace@,
                    org_b.own_case_to_trace@,
                    org_b.all_case_names@.subrange(0, lo as int),
                ),
            ),
            counts.selections == bumped(
                s0,
                window_selections(
                    org_b.foreign_case_to_trace@,
                    org_b.own_case_to_trace@,
                    org_b.all_case_names@.subrange(0, lo as int),
                ),
            ),
            ok ==> secret_edges@.to_multiset() == window_edges(
                org_b.foreign_case_to_trace@,
                org_b.own_case_to_trace@,
                org_b.all_case_names@.subrange(0, lo as int),
                st,
                en,
            ).to_multiset(),
            window_size > 0,
        decreases n - lo,
    {
        let hi = if n - lo < window_size {
            n
        } else {
            lo + window_size
        };
        let ghost t1 = counts.timestamp_comparisons;
        let ghost s1 = counts.selections;
        let mut edges = org_b.find_all_secrets(lo, hi, counts);
        proof {
            let f = org_b.foreign_case_to_trace@;
            let o = org_b.own_case_to_trace@;
            let ns = org_b.all_case_names@;
            lemma_window_ops_concat(f, o, ns, lo as int, hi as int);
            lemma_window_ops_concat(f, o, ns, 0, lo as int);
            lemma_bumped_twice(t0, window_timestamp_ops(f, o, ns.subrange(0, lo as int)), window_timestamp_ops(
                f,
                o,
                ns.subrange(lo as int, hi as int),
            ));
            lemma_bumped_twice(s0, window_selections(f, o, ns.subrange(0, lo as int)), window_selections(
                f,
                o,
                ns.subrange(lo as int, hi as int),
            ));
        }
        let ghost before = secret_edges@;
        let ghost e = edges@;
        secret_edges.append(&mut edges);
        proof {
            let f = org_b.foreign_case_to_trace@;
            let o = org_b.own_case_to_trace@;
            let ns = org_b.all_case_names@;
            lemma_window_concat(f, o, ns, lo as int, hi as int, st, en);
            lemma_multiset_commutative(before, e);
            lemma_multiset_commutative(
                window_edges(f, o, ns.subrange(0, lo as int), st, en),
                window_edges(f, o, ns.subrange(lo as int, hi as int), st, en),
            );
        }
        lo = hi;
    }
    assert(org_b.all_case_names@.subrange(0, n as int) =~= org_b.all_case_names@);
    proof {
        let f = org_b.foreign_case_to_trace@;
        let o = org_b.own_case_to_trace@;
        let ns = org_b.all_case_names@;
        lemma_window_ops_concat(f, o, ns, 0, n as int);
        let psi_sel = if use_psi {
            log_a.traces.len() * (log_b.traces.len() + 1)
        } else {
            0
        };
        lemma_bumped_twice(old(counts).selections, psi_sel, window_selections(f, o, ns));
    }
    // A assembles the graph
    let decrypted = org_a.decrypt_edges(&secret_edges);
    let mut graph = org_a.evaluate_decrypted_edges_to_dfg(&decrypted);
    proof {
        // the frequencies of the graph can never overflow
        lemma_private_edges_bound(log_a.traces@, own_case_ids@, shared_case_ids@);
        let m = usize::MAX as int;
        let n = log_a.traces.len() as int;
        assert(usize::MAX <= u64::MAX);
        assert(n * (m + 1) <= m * (m + 1)) by (nonlinear_arith)
            requires
                0 <= n <= m,
        ;
        assert(m + m * (m + 1) <= u128::MAX) by (nonlinear_arith)
            requires
                0 <= m <= u64::MAX,
        ;
    }
    let ghost g0 = graph.relations();
    org_a.update_graph_with_private_cases(&mut graph, &own_case_ids, &shared_case_ids);
    let ghost g1 = graph.relations();
    let ghost g2 = graph.relations();
    let ghost pre_acts = graph.activities@;
    strip_sentinels(&mut graph);
    let ghost stripped = graph.activities@;
    recalculate_activity_counts(&mut graph);
    proof {
        let table = org_a.activity_to_pos@;
        assert forall|x: Seq<char>|
            (exists|k: int| 0 <= k < graph.activities.len() && (#[trigger] graph.activities@[k]).0@ == x) <==> (
            logs_vocabulary(log_a, log_b).contains(x) && x != start_name() && x != end_name()) by {
            if exists|k: int| 0 <= k < graph.activities.len() && (#[trigger] graph.activities@[k]).0@ == x {
                let k = choose|k: int| 0 <= k < graph.activities.len() && (#[trigger] graph.activities@[k]).0@ == x;
                assert(stripped[k].0@ == x);
                let j = choose|j: int| 0 <= j < pre_acts.len() && stripped[k] == pre_acts[j];
                assert(table[j]@ == x);
                assert(has_name(table, x));
            }
            if logs_vocabulary(log_a, log_b).contains(x) && x != start_name() && x != end_name() {
                assert(has_name(table, x));
                let j = choose|j: int| 0 <= j < table.len() && table[j]@ == x;
                assert(pre_acts[j].0@ == x);
                let k = choose|k: int| 0 <= k < stripped.len() && stripped[k] == pre_acts[j];
                assert(graph.activities@[k].0@ == x);
            }
        }
    }
    proof {
        assert(decrypted@ == secret_edges@);
        assert(g2 == g1);
        let table = org_a.activity_to_pos@;
        let private = a_private_edges(log_a, log_b, use_psi);
        assert forall|x: Seq<char>, y: Seq<char>|
            #[trigger] edge_freq(graph.relations(), x, y) == if is_inner(x, y) {
                decoded_count(table, secret_edges@, x, y) + private.to_multiset().count((x, y))
            } else {
                0
            } by {
            assert(edge_freq(g0, x, y) == decoded_count(table, decrypted@, x, y));
            assert(edge_freq(g1, x, y) == edge_freq(g0, x, y) + private.to_multiset().count((x, y)));
            assert(edge_freq(g2, x, y) == edge_freq(g1, x, y));
        }
        assert((cases_sorted(org_b.foreign_case_to_trace@) && cases_sorted(org_b.own_case_to_trace@))
            ==> secret_edges@.to_multiset() == window_edges(
            org_b.foreign_case_to_trace@,
            org_b.own_case_to_trace@,
            org_b.all_case_names@,
            org_b.start->Some_0,
            org_b.end->Some_0,
        ).to_multiset());
        assert(assembled_from(
            graph,
            table,
            org_b.foreign_case_to_trace@,
            org_b.own_case_to_trace@,
            org_b.all_case_names@,
            org_b.start->Some_0,
            org_b.end->Some_0,
            private,
        )) by {
            let e = secret_edges@;
            assert(e.to_multiset() == secret_edges@.to_multiset());
        }
        let shared_a = a_shared_cases(log_a, log_b, use_psi);
        if traces_sorted(log_a.traces@) && traces_sorted(log_b.traces@) && no_end_activity(shared_a)
            && no_end_activity(log_b.traces@) {
            let fc = org_b.foreign_case_to_trace@;
            let oc = org_b.own_case_to_trace@;
            let ns = org_b.all_case_names@;
            assert(cases_sorted(fc) && cases_sorted(oc)) by {
                lemma_selected_member(log_a.traces@, shared_case_ids@);
                assert forall|k: int| 0 <= k < fc.len() implies sorted((#[trigger] fc[k]).2@) by {
                    assert(encodes_case(table, shared_a[k], fc[k]));
                    let i = choose|i: int| 0 <= i < log_a.traces.len() && log_a.traces@[i] == shared_a[k];
                }
                assert forall|k: int| 0 <= k < oc.len() implies sorted((#[trigger] oc[k]).2@) by {
                    assert(encodes_case(table, log_b.traces@[k], oc[k]));
                }
            }
            assert forall|x: Seq<char>, y: Seq<char>|
                #[trigger] edge_freq(g2, x, y) == joint_count(log_a, log_b, use_psi, ns, x, y) by {
                lemma_decoded_perm(table, secret_edges@, window_edges(fc, oc, ns, START_CODE, END_CODE), x, y);
                lemma_decoded_window(table, fc, oc, shared_a, log_b.traces@, ns, x, y);
                assert(edge_freq(g0, x, y) == decoded_count(table, decrypted@, x, y));
                assert(edge_freq(g1, x, y) == edge_freq(g0, x, y) + private.to_multiset().count((x, y)));
            }
            assert forall|x: Seq<char>, y: Seq<char>|
                #[trigger] edge_freq(graph.relations(), x, y) == if is_inner(x, y) {
                    joint_count(log_a, log_b, use_psi, ns, x, y)
                } else {
                    0
                } by {
                assert(edge_freq(g2, x, y) == joint_count(log_a, log_b, use_psi, ns, x, y));
            }
            assert forall|x: Seq<char>|
                #[trigger] has_name(graph.start_activities@, x) <==> joint_count(log_a, log_b, use_psi, ns, start_name(), x)
                    > 0 by {
                lemma_positive_freq(g2, start_name(), x);
                assert(edge_freq(g2, start_name(), x) == joint_count(log_a, log_b, use_psi, ns, start_name(), x));
            }
            assert forall|x: Seq<char>|
                #[trigger] has_name(graph.end_activities@, x) <==> (x != start_name() && joint_count(
                    log_a,
                    log_b,
                    use_psi,
                    ns,
                    x,
                    end_name(),
                ) > 0) by {
                lemma_positive_freq(g2, x, end_name());
                assert(edge_freq(g2, x, end_name()) == joint_count(log_a, log_b, use_psi, ns, x, end_name()));
            }
            if no_sentinel_activity(log_a.traces@) && no_sentinel_activity(log_b.traces@) {
                let rels = graph.relations();
                assert forall|k: int| 0 <= k < rels.len() implies framed_edge((#[trigger] rels[k].0@, rels[k].1@)) by {
                    lemma_positive_freq(rels, rels[k].0@, rels[k].1@);
                    assert(is_inner(rels[k].0@, rels[k].1@));
                    lemma_joint_framed(log_a, log_b, use_psi, ns, rels[k].0@, rels[k].1@);
                }
                assert forall|x: Seq<char>| #[trigger] has_name(graph.start_activities@, x) implies x != start_name() && x
                    != end_name() by {
                    lemma_joint_framed(log_a, log_b, use_psi, ns, start_name(), x);
                }
                assert forall|x: Seq<char>| #[trigger] has_name(graph.end_activities@, x) implies x != start_name() && x
                    != end_name() by {
                    lemma_joint_framed(log_a, log_b, use_psi, ns, x, end_name());
                }
            }
        }
    }
    proof {
        assert(canonical_order(org_a.activity_to_pos@));
        assert(positive(graph.relations()));
    }
    Ok(graph)
}

/// What one decrypted edge adds to the count of the relation `x -> y`.
pub open spec fn decoded_term(table: Seq<String>, e: Edge, x: Seq<char>, y: Seq<char>) -> int {
    if e.0 != END_CODE && code_in(table, x, e.0 as int) && code_in(table, y, e.1 as int) {
        1
    } else {
        0
    }
}

proof fn lemma_decoded_remove(table: Seq<String>, s: Seq<Edge>, p: int, x: Seq<char>, y: Seq<char>)
    requires
        0 <= p < s.len(),
    ensures
        decoded_count(table, s, x, y) == decoded_count(table, s.remove(p), x, y) + decoded_term(table, s[p], x, y),
    decreases s.len(),
{
    if p == s.len() - 1 {
        assert(s.remove(p) =~= s.drop_last());
    } else {
        lemma_decoded_remove(table, s.drop_last(), p, x, y);
        assert(s.remove(p).drop_last() =~= s.drop_last().remove(p));
        assert(s.remove(p).last() == s.last());
    }
}

/// The count of decoded edges depends on their multiset alone.
proof fn lemma_decoded_perm(table: Seq<String>, s1: Seq<Edge>, s2: Seq<Edge>, x: Seq<char>, y: Seq<char>)
    requires
        s1.to_multiset() == s2.to_multiset(),
    ensures
        decoded_count(table, s1, x, y) == decoded_count(table, s2, x, y),
    decreases s1.len(),
{
    broadcast use group_to_multiset_ensures, group_multiset_axioms;
    if s1.len() == 0 {
        assert(s2.to_multiset().len() == 0);
        assert(s2.len() == 0);
        assert(s1 =~= s2);
    } else {
        let e = s1.last();
        assert(s1 =~= s1.drop_last().push(e));
        assert(s1.to_multiset().contains(e));
        assert(s2.contains(e));
        let p = choose|p: int| 0 <= p < s2.len() && s2[p] == e;
        assert(s2.remove(p).to_multiset() =~= s2.to_multiset().remove(e));
        assert(s1.drop_last().to_multiset() =~= s1.to_multiset().remove(e));
        lemma_decoded_perm(table, s1.drop_last(), s2.remove(p), x, y);
        lemma_decoded_remove(table, s2, p, x, y);
    }
}

proof fn lemma_decoded_concat(table: Seq<String>, s1: Seq<Edge>, s2: Seq<Edge>, x: Seq<char>, y: Seq<char>)
    ensures
        decoded_count(table, s1 + s2, x, y) == decoded_count(table, s1, x, y) + decoded_count(table, s2, x, y),
    decreases s2.len(),
{
    if s2.len() == 0 {
        assert(s1 + s2 =~= s1);
    } else {
        lemma_decoded_concat(table, s1, s2.drop_last(), x, y);
        assert((s1 + s2).drop_last() =~= s1 + s2.drop_last());
        assert((s1 + s2).last() == s2.last());
    }
}

/// A code of an activity other than the `end` sentinel.
pub open spec fn activity_code(table: Seq<String>, c: u16) -> bool {
    c != END_CODE && (c as int) < table.len()
}

proof fn lemma_merge_members<T>(a: Seq<T>, ta: Seq<u64>, b: Seq<T>, tb: Seq<u64>, i: int, j: int)
    requires
        0 <= i <= a.len(),
        0 <= j <= b.len(),
    ensures
        forall|k: int|
            0 <= k < merge_from(a, ta, b, tb, i, j).len() ==> a.contains(#[trigger] merge_from(a, ta, b, tb, i, j)[k])
                || b.contains(merge_from(a, ta, b, tb, i, j)[k]),
    decreases (a.len() - i) + (b.len() - j),
{
    let m = merge_from(a, ta, b, tb, i, j);
    if i < a.len() && (j >= b.len() || ta[i] <= tb[j]) {
        lemma_merge_members(a, ta, b, tb, i + 1, j);
        let rest = merge_from(a, ta, b, tb, i + 1, j);
        assert forall|k: int| 0 <= k < m.len() implies a.contains(#[trigger] m[k]) || b.contains(m[k]) by {
            if k == 0 {
                assert(m[0] == a[i]);
            } else {
                assert(m[k] == rest[k - 1]);
            }
        }
    } else if j < b.len() {
        lemma_merge_members(a, ta, b, tb, i, j + 1);
        let rest = merge_from(a, ta, b, tb, i, j + 1);
        assert forall|k: int| 0 <= k < m.len() implies a.contains(#[trigger] m[k]) || b.contains(m[k]) by {
            if k == 0 {
                assert(m[0] == b[j]);
            } else {
                assert(m[k] == rest[k - 1]);
            }
        }
    }
}

proof fn lemma_decoded_as_count(table: Seq<String>, s: Seq<Edge>, x: Seq<char>, y: Seq<char>)
    requires
        forall|k: int| 0 <= k < s.len() ==> activity_code(table, (#[trigger] s[k]).0) && (s[k].1 as int) < table.len(),
    ensures
        decoded_count(table, s, x, y) == s.map_values(|e: Edge| (name_of(table, e.0), name_of(table, e.1))).to_multiset().count(
            (x, y),
        ),
    decreases s.len(),
{
    broadcast use group_to_multiset_ensures, group_multiset_axioms;
    let g = |e: Edge| (name_of(table, e.0), name_of(table, e.1));
    if s.len() == 0 {
        assert(s.map_values(g).len() == 0);
        assert(s.map_values(g).to_multiset().len() == 0);
    } else {
        let rest = s.drop_last();
        assert forall|k: int| 0 <= k < rest.len() implies activity_code(table, (#[trigger] rest[k]).0) && (rest[k].1 as int)
            < table.len() by {
            assert(rest[k] == s[k]);
        }
        lemma_decoded_as_count(table, rest, x, y);
        let e = s.last();
        assert(s[s.len() - 1] == e);
        assert(s.map_values(g) =~= rest.map_values(g).push(g(e)));
        assert(code_in(table, x, e.0 as int) == (name_of(table, e.0) == x));
        assert(code_in(table, y, e.1 as int) == (name_of(table, e.1) == y));
    }
}

/// Decoding the merge edges of one case: with both sides' codes those of
/// activities other than `end`, the count of decoded edges `x -> y` is the
/// number of times `x -> y` follows in the merge of the decoded traces.
proof fn lemma_decoded_case_count(
    table: Seq<String>,
    ca: Seq<u16>,
    ta: Seq<u64>,
    cb: Seq<u16>,
    tb: Seq<u64>,
    x: Seq<char>,
    y: Seq<char>,
)
    requires
        is_code_table(table),
        forall|k: int| 0 <= k < ca.len() ==> activity_code(table, #[trigger] ca[k]),
        forall|k: int| 0 <= k < cb.len() ==> activity_code(table, #[trigger] cb[k]),
    ensures
        decoded_count(table, case_edges(ca, ta, cb, tb, START_CODE, END_CODE), x, y) == case_edges(
            ca.map_values(|c: u16| name_of(table, c)),
            ta,
            cb.map_values(|c: u16| name_of(table, c)),
            tb,
            start_name(),
            end_name(),
        ).to_multiset().count((x, y)),
{
    let f = |c: u16| name_of(table, c);
    let ce = case_edges(ca, ta, cb, tb, START_CODE, END_CODE);
    if ca.len() > 0 || cb.len() > 0 {
        let m = merged_trace(ca, ta, cb, tb);
        lemma_merge_members(ca, ta, cb, tb, 0, 0);
        assert forall|k: int| 0 <= k < m.len() implies activity_code(table, #[trigger] m[k]) by {
            if ca.contains(m[k]) {
                let p = choose|p: int| 0 <= p < ca.len() && ca[p] == m[k];
            } else {
                let p = choose|p: int| 0 <= p < cb.len() && cb[p] == m[k];
            }
        }
        let full = seq![START_CODE] + m + seq![END_CODE];
        assert forall|k: int| 0 <= k < ce.len() implies activity_code(table, (#[trigger] ce[k]).0) && (ce[k].1 as int)
            < table.len() by {
            assert(ce[k] == (full[k], full[k + 1]));
            if k > 0 {
                assert(full[k] == m[k - 1]);
            }
            if k < m.len() {
                assert(full[k + 1] == m[k]);
            }
        }
    }
    lemma_decoded_as_count(table, ce, x, y);
    lemma_relabel_case_edges(ca, ta, cb, tb, START_CODE, END_CODE, f);
    assert(ce.map_values(|e: Edge| (name_of(table, e.0), name_of(table, e.1))) =~= ce.map_values(
        |e: Edge| (f(e.0), f(e.1)),
    ));
    assert(f(START_CODE) == start_name());
    assert(f(END_CODE) == end_name());
}

/// Activity names and timestamps of the first trace named `name` among
/// `traces` from position `i` on; empty ones where there is none.
pub open spec fn trace_from(traces: Seq<Trace>, name: Seq<char>, i: int) -> (Seq<Seq<char>>, Seq<u64>)
    decreases traces.len() - i,
{
    if i < 0 || i >= traces.len() {
        (Seq::empty(), Seq::empty())
    } else if traces[i].case_id@ == name {
        (traces[i].activity_seq(), traces[i].timestamp_seq())
    } else {
        trace_from(traces, name, i + 1)
    }
}

/// Directly-follows edges between activity names of the cases named in
/// `names`: for each, the chronological merge of its trace in `traces_a` and
/// its trace in `traces_b` (A first on equal timestamps), framed by the
/// sentinels; a side without such a trace is empty.
pub open spec fn named_window_edges(traces_a: Seq<Trace>, traces_b: Seq<Trace>, names: Seq<String>) -> Seq<
    (Seq<char>, Seq<char>),
>
    decreases names.len(),
{
    if names.len() == 0 {
        Seq::empty()
    } else {
        let a = trace_from(traces_a, names.last()@, 0);
        let b = trace_from(traces_b, names.last()@, 0);
        named_window_edges(traces_a, traces_b, names.drop_last()) + case_edges(
            a.0,
            a.1,
            b.0,
            b.1,
            start_name(),
            end_name(),
        )
    }
}

/// No event of `traces` has the name of the `end` sentinel.
pub open spec fn no_end_activity(traces: Seq<Trace>) -> bool {
    forall|k: int, m: int|
        0 <= k < traces.len() && 0 <= m < traces[k].events.len() ==> #[trigger] traces[k].events@[m].activity@
            != end_name()
}

/// Every trace's timestamps are in order.
pub open spec fn traces_sorted(traces: Seq<Trace>) -> bool {
    forall|k: int| 0 <= k < traces.len() ==> sorted((#[trigger] traces[k]).timestamp_seq())
}

proof fn lemma_lookup(table: Seq<String>, cases: Seq<EncodedCase>, traces: Seq<Trace>, name: Seq<char>, i: int)
    requires
        is_code_table(table),
        cases.len() == traces.len(),
        forall|k: int| 0 <= k < cases.len() ==> encodes_case(table, traces[k], #[trigger] cases[k]),
        no_end_activity(traces),
        0 <= i,
    ensures
        case_from(cases, name, i).0.map_values(|c: u16| name_of(table, c)) == trace_from(traces, name, i).0,
        case_from(cases, name, i).1 == trace_from(traces, name, i).1,
        forall|k: int|
            0 <= k < case_from(cases, name, i).0.len() ==> activity_code(table, #[trigger] case_from(cases, name, i).0[k]),
    decreases cases.len() - i,
{
    if i < cases.len() {
        assert(encodes_case(table, traces[i], cases[i]));
        if cases[i].0@ == name {
            let codes = cases[i].1@;
            let tr = traces[i];
            assert forall|m: int| 0 <= m < codes.len() implies activity_code(table, #[trigger] codes[m])
                && name_of(table, codes[m]) == tr.activity_seq()[m] by {
                assert(code_in(table, tr.activity_seq()[m], codes[m] as int));
                assert(tr.events@[m].activity@ != end_name());
            }
            assert(codes.map_values(|c: u16| name_of(table, c)) =~= tr.activity_seq());
        } else {
            lemma_lookup(table, cases, traces, name, i + 1);
        }
    } else {
        assert(Seq::<u16>::empty().map_values(|c: u16| name_of(table, c)) =~= Seq::<Seq<char>>::empty());
    }
}

/// The decoded merge edges of the cases named in `names` are the plaintext
/// merges' edges between names.
proof fn lemma_decoded_window(
    table: Seq<String>,
    foreign: Seq<EncodedCase>,
    own: Seq<EncodedCase>,
    traces_a: Seq<Trace>,
    traces_b: Seq<Trace>,
    names: Seq<String>,
    x: Seq<char>,
    y: Seq<char>,
)
    requires
        is_code_table(table),
        foreign.len() == traces_a.len(),
        own.len() == traces_b.len(),
        forall|k: int| 0 <= k < foreign.len() ==> encodes_case(table, traces_a[k], #[trigger] foreign[k]),
        forall|k: int| 0 <= k < own.len() ==> encodes_case(table, traces_b[k], #[trigger] own[k]),
        no_end_activity(traces_a),
        no_end_activity(traces_b),
    ensures
        decoded_count(table, window_edges(foreign, own, names, START_CODE, END_CODE), x, y) == named_window_edges(
            traces_a,
            traces_b,
            names,
        ).to_multiset().count((x, y)),
    decreases names.len(),
{
    broadcast use group_multiset_axioms, group_to_multiset_ensures;
    if names.len() == 0 {
        assert(named_window_edges(traces_a, traces_b, names).to_multiset().len() == 0);
    } else {
        let n = names.last()@;
        lemma_decoded_window(table, foreign, own, traces_a, traces_b, names.drop_last(), x, y);
        lemma_lookup(table, foreign, traces_a, n, 0);
        lemma_lookup(table, own, traces_b, n, 0);
        let f = case_from(foreign, n, 0);
        let o = case_from(own, n, 0);
        lemma_decoded_case_count(table, f.0, f.1, o.0, o.1, x, y);
        lemma_decoded_concat(
            table,
            window_edges(foreign, own, names.drop_last(), START_CODE, END_CODE),
            case_edges(f.0, f.1, o.0, o.1, START_CODE, END_CODE),
            x,
            y,
        );
        let a = trace_from(traces_a, n, 0);
        let b = trace_from(traces_b, n, 0);
        lemma_multiset_commutative(
            named_window_edges(traces_a, traces_b, names.drop_last()),
            case_edges(a.0, a.1, b.0, b.1, start_name(), end_name()),
        );
    }
}

/// Some case among those named in `names` has an event on one side.
pub open spec fn some_visited_case_nonempty(traces_a: Seq<Trace>, traces_b: Seq<Trace>, names: Seq<String>) -> bool {
    exists|k: int|
        0 <= k < names.len() && (trace_from(traces_a, (#[trigger] names[k])@, 0).0.len() > 0 || trace_from(
            traces_b,
            names[k]@,
            0,
        ).0.len() > 0)
}

/// Some trace among `traces` that `p` picks has an event.
pub open spec fn some_case_where(traces: Seq<Trace>, p: spec_fn(Trace) -> bool) -> bool {
    exists|i: int| 0 <= i < traces.len() && p(#[trigger] traces[i]) && traces[i].events.len() > 0
}

/// The edges of a case leave `start`, and enter `end`, exactly when the case
/// has an event.
proof fn lemma_case_start_edge<T>(a: Seq<T>, ta: Seq<u64>, b: Seq<T>, tb: Seq<u64>, start: T, end: T)
    ensures
        (exists|x: T| case_edges(a, ta, b, tb, start, end).contains((start, x))) <==> (a.len() > 0 || b.len() > 0),
        (exists|x: T| case_edges(a, ta, b, tb, start, end).contains((x, end))) <==> (a.len() > 0 || b.len() > 0),
{
    let ce = case_edges(a, ta, b, tb, start, end);
    if a.len() > 0 || b.len() > 0 {
        let m = merged_trace(a, ta, b, tb);
        let full = seq![start] + m + seq![end];
        assert(ce[0] == (full[0], full[1]));
        assert(ce.contains((start, full[1])));
        let l = m.len() as int;
        assert(ce[ce.len() - 1] == (full[l], full[l + 1]));
        assert(full[l + 1] == end);
        assert(ce.contains((full[l], end)));
    }
}

proof fn lemma_window_start_edge(traces_a: Seq<Trace>, traces_b: Seq<Trace>, names: Seq<String>)
    ensures
        (exists|x: Seq<char>| named_window_edges(traces_a, traces_b, names).contains((start_name(), x)))
            <==> some_visited_case_nonempty(traces_a, traces_b, names),
        (exists|x: Seq<char>| named_window_edges(traces_a, traces_b, names).contains((x, end_name())))
            <==> some_visited_case_nonempty(traces_a, traces_b, names),
    decreases names.len(),
{
    if names.len() > 0 {
        let rest = names.drop_last();
        lemma_window_start_edge(traces_a, traces_b, rest);
        let n = names.last()@;
        let a = trace_from(traces_a, n, 0);
        let b = trace_from(traces_b, n, 0);
        let ce = case_edges(a.0, a.1, b.0, b.1, start_name(), end_name());
        let w = named_window_edges(traces_a, traces_b, rest);
        lemma_case_start_edge(a.0, a.1, b.0, b.1, start_name(), end_name());
        assert(named_window_edges(traces_a, traces_b, names) == w + ce);
        assert forall|e: (Seq<char>, Seq<char>)| (w + ce).contains(e) <==> (w.contains(e) || ce.contains(e)) by {
            if (w + ce).contains(e) {
                let i = choose|i: int| 0 <= i < (w + ce).len() && (w + ce)[i] == e;
                if i < w.len() {
                    assert(w[i] == e);
                } else {
                    assert(ce[i - w.len()] == e);
                }
            }
            if w.contains(e) {
                let i = choose|i: int| 0 <= i < w.len() && w[i] == e;
                assert((w + ce)[i] == e);
            }
            if ce.contains(e) {
                let i = choose|i: int| 0 <= i < ce.len() && ce[i] == e;
                assert((w + ce)[w.len() + i] == e);
            }
        }
        assert(some_visited_case_nonempty(traces_a, traces_b, names) <==> (some_visited_case_nonempty(
            traces_a,
            traces_b,
            rest,
        ) || a.0.len() > 0 || b.0.len() > 0)) by {
            if some_visited_case_nonempty(traces_a, traces_b, names) {
                let k = choose|k: int|
                    0 <= k < names.len() && (trace_from(traces_a, (#[trigger] names[k])@, 0).0.len() > 0 || trace_from(
                        traces_b,
                        names[k]@,
                        0,
                    ).0.len() > 0);
                if k < rest.len() {
                    assert(rest[k] == names[k]);
                }
            }
            if some_visited_case_nonempty(traces_a, traces_b, rest) {
                let k = choose|k: int|
                    0 <= k < rest.len() && (trace_from(traces_a, (#[trigger] rest[k])@, 0).0.len() > 0 || trace_from(
                        traces_b,
                        rest[k]@,
                        0,
                    ).0.len() > 0);
                assert(names[k] == rest[k]);
            }
            if a.0.len() > 0 || b.0.len() > 0 {
                assert(names[names.len() - 1] == names.last());
            }
        }
    }
}

proof fn lemma_private_start_edge(traces: Seq<Trace>, p: spec_fn(Trace) -> bool)
    ensures
        (exists|x: Seq<char>| edges_of_cases_where(traces, p).contains((start_name(), x))) <==> some_case_where(traces, p),
        (exists|x: Seq<char>| edges_of_cases_where(traces, p).contains((x, end_name()))) <==> some_case_where(traces, p),
    decreases traces.len(),
{
    if traces.len() > 0 {
        let rest = traces.drop_last();
        lemma_private_start_edge(rest, p);
        let t = traces.last();
        let w = edges_of_cases_where(rest, p);
        let ce = if p(t) && t.events.len() > 0 {
            named_df_edges(t.activity_seq())
        } else {
            Seq::empty()
        };
        assert(edges_of_cases_where(traces, p) == w + ce);
        if p(t) && t.events.len() > 0 {
            let sq = t.activity_seq();
            let full = seq![start_name()] + sq + seq![end_name()];
            assert(ce[0] == (full[0], full[1]));
            assert(ce.contains((start_name(), full[1])));
            let l = sq.len() as int;
            assert(ce[ce.len() - 1] == (full[l], full[l + 1]));
            assert(ce.contains((full[l], end_name())));
        }
        assert forall|e: (Seq<char>, Seq<char>)| (w + ce).contains(e) <==> (w.contains(e) || ce.contains(e)) by {
            if (w + ce).contains(e) {
                let i = choose|i: int| 0 <= i < (w + ce).len() && (w + ce)[i] == e;
                if i < w.len() {
                    assert(w[i] == e);
                } else {
                    assert(ce[i - w.len()] == e);
                }
            }
            if w.contains(e) {
                let i = choose|i: int| 0 <= i < w.len() && w[i] == e;
                assert((w + ce)[i] == e);
            }
            if ce.contains(e) {
                let i = choose|i: int| 0 <= i < ce.len() && ce[i] == e;
                assert((w + ce)[w.len() + i] == e);
            }
        }
        assert(some_case_where(traces, p) <==> (some_case_where(rest, p) || (p(t) && t.events.len() > 0))) by {
            if some_case_where(traces, p) {
                let i = choose|i: int| 0 <= i < traces.len() && p(#[trigger] traces[i]) && traces[i].events.len() > 0;
                if i < rest.len() {
                    assert(rest[i] == traces[i]);
                }
            }
            if some_case_where(rest, p) {
                let i = choose|i: int| 0 <= i < rest.len() && p(#[trigger] rest[i]) && rest[i].events.len() > 0;
                assert(traces[i] == rest[i]);
            }
            if p(t) && t.events.len() > 0 {
                assert(traces[traces.len() - 1] == t);
            }
        }
    }
}

/// The ends of the joint log: some relation leaves `start`, and some relation
/// enters `end`, exactly when some case has an event, be it a case that B
/// visits or a private case of A. With the characterisation of the start and
/// end activities by `communicate`, these sets are non-empty exactly then.
pub proof fn lemma_joint_ends(log_a: EventLog, log_b: EventLog, use_psi: bool, names: Seq<String>)
    ensures
        (exists|x: Seq<char>| joint_count(log_a, log_b, use_psi, names, start_name(), x) > 0) <==> (
        some_visited_case_nonempty(a_shared_cases(log_a, log_b, use_psi), log_b.traces@, names) || (use_psi
            && some_case_where(log_a.traces@, hash_absent(log_b)))),
        (exists|x: Seq<char>| joint_count(log_a, log_b, use_psi, names, x, end_name()) > 0) <==> (
        some_visited_case_nonempty(a_shared_cases(log_a, log_b, use_psi), log_b.traces@, names) || (use_psi
            && some_case_where(log_a.traces@, hash_absent(log_b)))),
{
    broadcast use group_to_multiset_ensures;
    let shared_a = a_shared_cases(log_a, log_b, use_psi);
    let p = hash_absent(log_b);
    let w = named_window_edges(shared_a, log_b.traces@, names);
    let pe = a_private_edges(log_a, log_b, use_psi);
    lemma_window_start_edge(shared_a, log_b.traces@, names);
    lemma_private_start_edge(log_a.traces@, p);
    if !use_psi {
        assert(pe.len() == 0);
        assert forall|e: (Seq<char>, Seq<char>)| !pe.contains(e) by {}
    }
    assert forall|x: Seq<char>| #[trigger] joint_count(log_a, log_b, use_psi, names, start_name(), x) > 0 <==> (w.contains(
        (start_name(), x),
    ) || pe.contains((start_name(), x))) by {}
    assert forall|x: Seq<char>| #[trigger] joint_count(log_a, log_b, use_psi, names, x, end_name()) > 0 <==> (w.contains(
        (x, end_name()),
    ) || pe.contains((x, end_name()))) by {}
    let any_case = some_visited_case_nonempty(shared_a, log_b.traces@, names) || (use_psi && some_case_where(
        log_a.traces@,
        p,
    ));
    if any_case {
        if some_visited_case_nonempty(shared_a, log_b.traces@, names) {
            let x = choose|x: Seq<char>| w.contains((start_name(), x));
            assert(joint_count(log_a, log_b, use_psi, names, start_name(), x) > 0);
            let z = choose|z: Seq<char>| w.contains((z, end_name()));
            assert(joint_count(log_a, log_b, use_psi, names, z, end_name()) > 0);
        } else {
            let x = choose|x: Seq<char>| pe.contains((start_name(), x));
            assert(joint_count(log_a, log_b, use_psi, names, start_name(), x) > 0);
            let z = choose|z: Seq<char>| pe.contains((z, end_name()));
            assert(joint_count(log_a, log_b, use_psi, names, z, end_name()) > 0);
        }
    }
}

/// The merge edges between names of one case, looked up by its identifier.
pub open spec fn named_case_edges(traces_a: Seq<Trace>, traces_b: Seq<Trace>, n: Seq<char>) -> Seq<(Seq<char>, Seq<char>)> {
    let a = trace_from(traces_a, n, 0);
    let b = trace_from(traces_b, n, 0);
    case_edges(a.0, a.1, b.0, b.1, start_name(), end_name())
}

proof fn lemma_named_window_remove(traces_a: Seq<Trace>, traces_b: Seq<Trace>, names: Seq<String>, p: int)
    requires
        0 <= p < names.len(),
    ensures
        named_window_edges(traces_a, traces_b, names).to_multiset() =~= named_window_edges(
            traces_a,
            traces_b,
            names.remove(p),
        ).to_multiset().add(named_case_edges(traces_a, traces_b, names[p]@).to_multiset()),
    decreases names.len(),
{
    broadcast use group_multiset_axioms;
    let cl = named_case_edges(traces_a, traces_b, names.last()@);
    lemma_multiset_commutative(named_window_edges(traces_a, traces_b, names.drop_last()), cl);
    if p == names.len() - 1 {
        assert(names.remove(p) =~= names.drop_last());
    } else {
        lemma_named_window_remove(traces_a, traces_b, names.drop_last(), p);
        let rest = names.remove(p);
        assert(rest.drop_last() =~= names.drop_last().remove(p));
        assert(rest.last() == names.last());
        assert(names.drop_last()[p] == names[p]);
        lemma_multiset_commutative(named_window_edges(traces_a, traces_b, rest.drop_last()), cl);
    }
}

/// The joint log's merge edges do not depend on the order in which the cases
/// are visited, nor on which strings name them: only on the multiset of the
/// names' views.
pub proof fn lemma_named_window_order(traces_a: Seq<Trace>, traces_b: Seq<Trace>, names1: Seq<String>, names2: Seq<String>)
    requires
        views(names1).to_multiset() == views(names2).to_multiset(),
    ensures
        named_window_edges(traces_a, traces_b, names1).to_multiset() == named_window_edges(
            traces_a,
            traces_b,
            names2,
        ).to_multiset(),
    decreases names1.len(),
{
    broadcast use group_to_multiset_ensures, group_multiset_axioms;
    if names1.len() == 0 {
        assert(views(names1).len() == 0);
        assert(views(names2).to_multiset().len() == 0);
        assert(views(names2).len() == 0);
        assert(names2.len() == 0);
        assert(named_window_edges(traces_a, traces_b, names2) == Seq::<(Seq<char>, Seq<char>)>::empty());
    } else {
        let x = names1.last()@;
        assert(views(names1) =~= views(names1.drop_last()).push(x));
        assert(views(names1).to_multiset().contains(x));
        assert(views(names2).contains(x));
        let p = choose|p: int| 0 <= p < views(names2).len() && views(names2)[p] == x;
        assert(names2[p]@ == x);
        assert(views(names2.remove(p)) =~= views(names2).remove(p));
        assert(views(names2).remove(p).to_multiset() =~= views(names2).to_multiset().remove(x));
        assert(views(names1.drop_last()).to_multiset() =~= views(names1).to_multiset().remove(x));
        lemma_named_window_order(traces_a, traces_b, names1.drop_last(), names2.remove(p));
        lemma_named_window_remove(traces_a, traces_b, names2, p);
        lemma_multiset_commutative(
            named_window_edges(traces_a, traces_b, names1.drop_last()),
            named_case_edges(traces_a, traces_b, x),
        );
    }
}

/// No two traces share a case identifier.
pub open spec fn distinct_ids(traces: Seq<Trace>) -> bool {
    forall|i: int, j: int| 0 <= i < j < traces.len() ==> traces[i].case_id@ != traces[j].case_id@
}

proof fn lemma_trace_from_at(traces: Seq<Trace>, n: Seq<char>, i: int, k: int)
    requires
        distinct_ids(traces),
        0 <= i <= k < traces.len(),
        traces[k].case_id@ == n,
    ensures
        trace_from(traces, n, i) == (traces[k].activity_seq(), traces[k].timestamp_seq()),
    decreases k - i,
{
    if i < k {
        assert(traces[i].case_id@ != n);
        lemma_trace_from_at(traces, n, i + 1, k);
    }
}

proof fn lemma_trace_from_none(traces: Seq<Trace>, n: Seq<char>, i: int)
    requires
        0 <= i,
        forall|k: int| 0 <= k < traces.len() ==> (#[trigger] traces[k]).case_id@ != n,
    ensures
        trace_from(traces, n, i) == (Seq::<Seq<char>>::empty(), Seq::<u64>::empty()),
    decreases traces.len() - i,
{
    if i < traces.len() {
        lemma_trace_from_none(traces, n, i + 1);
    }
}

/// Input order: looking a case up by its identifier gives the same trace in
/// any order of a log whose identifiers are distinct.
pub proof fn lemma_trace_from_order(traces1: Seq<Trace>, traces2: Seq<Trace>, n: Seq<char>)
    requires
        traces1.to_multiset() == traces2.to_multiset(),
        distinct_ids(traces1),
        distinct_ids(traces2),
    ensures
        trace_from(traces1, n, 0) == trace_from(traces2, n, 0),
{
    broadcast use group_to_multiset_ensures, group_multiset_axioms;
    if exists|k: int| 0 <= k < traces1.len() && (#[trigger] traces1[k]).case_id@ == n {
        let k = choose|k: int| 0 <= k < traces1.len() && (#[trigger] traces1[k]).case_id@ == n;
        lemma_trace_from_at(traces1, n, 0, k);
        assert(traces1.contains(traces1[k]));
        to_multiset_contains(traces1, traces1[k]);
        to_multiset_contains(traces2, traces1[k]);
        assert(traces2.contains(traces1[k]));
        let j = choose|j: int| 0 <= j < traces2.len() && traces2[j] == traces1[k];
        lemma_trace_from_at(traces2, n, 0, j);
    } else {
        lemma_trace_from_none(traces1, n, 0);
        assert forall|j: int| 0 <= j < traces2.len() implies (#[trigger] traces2[j]).case_id@ != n by {
            assert(traces2.contains(traces2[j]));
            to_multiset_contains(traces2, traces2[j]);
            to_multiset_contains(traces1, traces2[j]);
            assert(traces1.contains(traces2[j]));
            let k = choose|k: int| 0 <= k < traces1.len() && traces1[k] == traces2[j];
            assert(traces1[k].case_id@ != n);
        }
        lemma_trace_from_none(traces2, n, 0);
    }
}

/// The edges that trace `t` adds to `edges_of_cases_where`.
pub open spec fn case_piece(t: Trace, p: spec_fn(Trace) -> bool) -> Seq<(Seq<char>, Seq<char>)> {
    if p(t) && t.events.len() > 0 {
        named_df_edges(t.activity_seq())
    } else {
        Seq::empty()
    }
}

proof fn lemma_cases_where_remove(traces: Seq<Trace>, p: spec_fn(Trace) -> bool, q: int)
    requires
        0 <= q < traces.len(),
    ensures
        edges_of_cases_where(traces, p).to_multiset() =~= edges_of_cases_where(traces.remove(q), p).to_multiset().add(
            case_piece(traces[q], p).to_multiset(),
        ),
    decreases traces.len(),
{
    broadcast use group_multiset_axioms;
    let cl = case_piece(traces.last(), p);
    assert(edges_of_cases_where(traces, p) == edges_of_cases_where(traces.drop_last(), p) + cl);
    lemma_multiset_commutative(edges_of_cases_where(traces.drop_last(), p), cl);
    if q == traces.len() - 1 {
        assert(traces.remove(q) =~= traces.drop_last());
    } else {
        lemma_cases_where_remove(traces.drop_last(), p, q);
        let rest = traces.remove(q);
        assert(rest.drop_last() =~= traces.drop_last().remove(q));
        assert(rest.last() == traces.last());
        assert(traces.drop_last()[q] == traces[q]);
        assert(edges_of_cases_where(rest, p) == edges_of_cases_where(rest.drop_last(), p) + cl);
        lemma_multiset_commutative(edges_of_cases_where(rest.drop_last(), p), cl);
    }
}

/// Input order: the edges of the cases that `p` picks, taken as a multiset,
/// do not depend on the order of the traces.
pub proof fn lemma_cases_where_order(traces1: Seq<Trace>, traces2: Seq<Trace>, p: spec_fn(Trace) -> bool)
    requires
        traces1.to_multiset() == traces2.to_multiset(),
    ensures
        edges_of_cases_where(traces1, p).to_multiset() == edges_of_cases_where(traces2, p).to_multiset(),
    decreases traces1.len(),
{
    broadcast use group_to_multiset_ensures, group_multiset_axioms;
    if traces1.len() == 0 {
        assert(traces2.to_multiset().len() == 0);
        assert(traces2.len() == 0);
        assert(traces1 =~= traces2);
    } else {
        let t = traces1.last();
        assert(traces1 =~= traces1.drop_last().push(t));
        assert(traces1.to_multiset().contains(t));
        assert(traces2.contains(t));
        let q = choose|q: int| 0 <= q < traces2.len() && traces2[q] == t;
        assert(traces2.remove(q).to_multiset() =~= traces2.to_multiset().remove(t));
        assert(traces1.drop_last().to_multiset() =~= traces1.to_multiset().remove(t));
        lemma_cases_where_order(traces1.drop_last(), traces2.remove(q), p);
        lemma_cases_where_remove(traces2, p, q);
        let cl = case_piece(t, p);
        assert(edges_of_cases_where(traces1, p) == edges_of_cases_where(traces1.drop_last(), p) + cl);
        lemma_multiset_commutative(edges_of_cases_where(traces1.drop_last(), p), cl);
    }
}

proof fn lemma_named_window_same_lookups(
    ta1: Seq<Trace>,
    tb1: Seq<Trace>,
    ta2: Seq<Trace>,
    tb2: Seq<Trace>,
    names: Seq<String>,
)
    requires
        forall|n: Seq<char>| #[trigger] trace_from(ta1, n, 0) == trace_from(ta2, n, 0),
        forall|n: Seq<char>| #[trigger] trace_from(tb1, n, 0) == trace_from(tb2, n, 0),
    ensures
        named_window_edges(ta1, tb1, names) == named_window_edges(ta2, tb2, names),
    decreases names.len(),
{
    if names.len() > 0 {
        lemma_named_window_same_lookups(ta1, tb1, ta2, tb2, names.drop_last());
        assert(trace_from(ta1, names.last()@, 0) == trace_from(ta2, names.last()@, 0));
        assert(trace_from(tb1, names.last()@, 0) == trace_from(tb2, names.last()@, 0));
    }
}

proof fn lemma_hashes_order(log1: EventLog, log2: EventLog, h: u64)
    requires
        log1.traces@.to_multiset() == log2.traces@.to_multiset(),
    ensures
        hashes_of(log1.case_id_list_spec()).contains(h) == hashes_of(log2.case_id_list_spec()).contains(h),
{
    broadcast use group_to_multiset_ensures;
    assert forall|l1: EventLog, l2: EventLog|
        l1.traces@.to_multiset() == l2.traces@.to_multiset() && #[trigger] hashes_of(l1.case_id_list_spec()).contains(
            h,
        ) implies #[trigger] hashes_of(l2.case_id_list_spec()).contains(h) by {
        let k = choose|k: int|
            0 <= k < hashes_of(l1.case_id_list_spec()).len() && hashes_of(l1.case_id_list_spec())[k] == h;
        let t = l1.traces@[k];
        assert(hashes_of(l1.case_id_list_spec())[k] == case_id_hash(t.case_id@));
        to_multiset_contains(l1.traces@, t);
        to_multiset_contains(l2.traces@, t);
        assert(l1.traces@.contains(t));
        let j = choose|j: int| 0 <= j < l2.traces@.len() && l2.traces@[j] == t;
        assert(hashes_of(l2.case_id_list_spec())[j] == case_id_hash(l2.traces@[j].case_id@));
    }
}

proof fn lemma_selected_where_ext(traces: Seq<Trace>, p1: spec_fn(Trace) -> bool, p2: spec_fn(Trace) -> bool)
    requires
        forall|i: int| 0 <= i < traces.len() ==> p1(#[trigger] traces[i]) == p2(traces[i]),
    ensures
        selected_where(traces, p1) == selected_where(traces, p2),
        edges_of_cases_where(traces, p1) == edges_of_cases_where(traces, p2),
    decreases traces.len(),
{
    if traces.len() > 0 {
        let rest = traces.drop_last();
        assert forall|i: int| 0 <= i < rest.len() implies p1(#[trigger] rest[i]) == p2(rest[i]) by {
            assert(rest[i] == traces[i]);
        }
        lemma_selected_where_ext(rest, p1, p2);
        assert(traces[traces.len() - 1] == traces.last());
    }
}

proof fn lemma_selected_where_member(traces: Seq<Trace>, p: spec_fn(Trace) -> bool)
    ensures
        forall|k: int|
            0 <= k < selected_where(traces, p).len() ==> exists|i: int|
                0 <= i < traces.len() && traces[i] == #[trigger] selected_where(traces, p)[k],
    decreases traces.len(),
{
    if traces.len() > 0 {
        let rest = traces.drop_last();
        lemma_selected_where_member(rest, p);
        assert forall|k: int| 0 <= k < selected_where(traces, p).len() implies exists|i: int|
            0 <= i < traces.len() && traces[i] == #[trigger] selected_where(traces, p)[k] by {
            if k < selected_where(rest, p).len() {
                assert(selected_where(traces, p)[k] == selected_where(rest, p)[k]);
                let i = choose|i: int| 0 <= i < rest.len() && rest[i] == #[trigger] selected_where(rest, p)[k];
                assert(traces[i] == rest[i]);
            } else {
                assert(selected_where(traces, p)[k] == traces.last());
                assert(traces[traces.len() - 1] == traces.last());
            }
        }
    }
}

proof fn lemma_selected_where_distinct(traces: Seq<Trace>, p: spec_fn(Trace) -> bool)
    requires
        distinct_ids(traces),
    ensures
        distinct_ids(selected_where(traces, p)),
    decreases traces.len(),
{
    if traces.len() > 0 {
        let rest = traces.drop_last();
        assert(distinct_ids(rest)) by {
            assert forall|i: int, j: int| 0 <= i < j < rest.len() implies rest[i].case_id@ != rest[j].case_id@ by {
                assert(rest[i] == traces[i] && rest[j] == traces[j]);
            }
        }
        lemma_selected_where_distinct(rest, p);
        lemma_selected_where_member(rest, p);
        let t = traces.last();
        if p(t) {
            let sr = selected_where(rest, p);
            let sel = sr.push(t);
            assert forall|i: int, j: int| 0 <= i < j < sel.len() implies sel[i].case_id@ != sel[j].case_id@ by {
                if j == sr.len() {
                    let i0 = choose|i0: int| 0 <= i0 < rest.len() && rest[i0] == #[trigger] sr[i];
                    assert(traces[i0] == rest[i0]);
                    assert(traces[traces.len() - 1] == t);
                } else {
                    assert(sel[i] == sr[i] && sel[j] == sr[j]);
                }
            }
        }
    }
}

proof fn lemma_selected_where_remove(traces: Seq<Trace>, p: spec_fn(Trace) -> bool, q: int)
    requires
        0 <= q < traces.len(),
    ensures
        selected_where(traces, p).to_multiset() =~= if p(traces[q]) {
            selected_where(traces.remove(q), p).to_multiset().insert(traces[q])
        } else {
            selected_where(traces.remove(q), p).to_multiset()
        },
    decreases traces.len(),
{
    broadcast use group_to_multiset_ensures, group_multiset_axioms;
    if q == traces.len() - 1 {
        assert(traces.remove(q) =~= traces.drop_last());
        assert(traces[q] == traces.last());
    } else {
        lemma_selected_where_remove(traces.drop_last(), p, q);
        let rest = traces.remove(q);
        assert(rest.drop_last() =~= traces.drop_last().remove(q));
        assert(rest.last() == traces.last());
        assert(traces.drop_last()[q] == traces[q]);
    }
}

proof fn lemma_selected_where_order(traces1: Seq<Trace>, traces2: Seq<Trace>, p: spec_fn(Trace) -> bool)
    requires
        traces1.to_multiset() == traces2.to_multiset(),
    ensures
        selected_where(traces1, p).to_multiset() == selected_where(traces2, p).to_multiset(),
    decreases traces1.len(),
{
    broadcast use group_to_multiset_ensures, group_multiset_axioms;
    if traces1.len() == 0 {
        assert(traces2.to_multiset().len() == 0);
        assert(traces2.len() == 0);
        assert(traces1 =~= traces2);
    } else {
        let t = traces1.last();
        assert(traces1 =~= traces1.drop_last().push(t));
        assert(traces1.to_multiset().contains(t));
        assert(traces2.contains(t));
        let q = choose|q: int| 0 <= q < traces2.len() && traces2[q] == t;
        assert(traces2.remove(q).to_multiset() =~= traces2.to_multiset().remove(t));
        assert(traces1.drop_last().to_multiset() =~= traces1.to_multiset().remove(t));
        lemma_selected_where_order(traces1.drop_last(), traces2.remove(q), p);
        lemma_selected_where_remove(traces2, p, q);
    }
}

/// Ordering independence of the joint log: reordering the cases of either
/// log (whose case identifiers are distinct) and visiting the cases in any
/// order, under any strings naming them, changes no count of the joint
/// plaintext log, hence (by `communicate`) no frequency of the graph.
pub proof fn lemma_joint_order(
    a1: EventLog,
    a2: EventLog,
    b1: EventLog,
    b2: EventLog,
    use_psi: bool,
    names1: Seq<String>,
    names2: Seq<String>,
    u: Seq<char>,
    w: Seq<char>,
)
    requires
        a1.traces@.to_multiset() == a2.traces@.to_multiset(),
        b1.traces@.to_multiset() == b2.traces@.to_multiset(),
        distinct_ids(a1.traces@),
        distinct_ids(a2.traces@),
        distinct_ids(b1.traces@),
        distinct_ids(b2.traces@),
        views(names1).to_multiset() == views(names2).to_multiset(),
    ensures
        joint_count(a1, b1, use_psi, names1, u, w) == joint_count(a2, b2, use_psi, names2, u, w),
{
    let q1 = shared_pick(b1, use_psi);
    let q2 = shared_pick(b2, use_psi);
    assert forall|t: Trace| #[trigger] q1(t) == q2(t) by {
        lemma_hashes_order(b1, b2, case_id_hash(t.case_id@));
    }
    assert forall|t: Trace| #[trigger] hash_absent(b1)(t) == hash_absent(b2)(t) by {
        lemma_hashes_order(b1, b2, case_id_hash(t.case_id@));
    }
    lemma_selected_where_ext(a2.traces@, q1, q2);
    lemma_selected_where_ext(a2.traces@, hash_absent(b1), hash_absent(b2));
    let s1 = selected_where(a1.traces@, q1);
    let s2 = selected_where(a2.traces@, q2);
    lemma_selected_where_order(a1.traces@, a2.traces@, q1);
    lemma_selected_where_distinct(a1.traces@, q1);
    lemma_selected_where_distinct(a2.traces@, q2);
    assert forall|n: Seq<char>| #[trigger] trace_from(s1, n, 0) == trace_from(s2, n, 0) by {
        lemma_trace_from_order(s1, s2, n);
    }
    assert forall|n: Seq<char>| #[trigger] trace_from(b1.traces@, n, 0) == trace_from(b2.traces@, n, 0) by {
        lemma_trace_from_order(b1.traces@, b2.traces@, n);
    }
    lemma_named_window_same_lookups(s1, b1.traces@, s2, b2.traces@, names1);
    lemma_named_window_order(s2, b2.traces@, names1, names2);
    lemma_cases_where_order(a1.traces@, a2.traces@, hash_absent(b1));
}

proof fn lemma_selected_where_contains(traces: Seq<Trace>, p: spec_fn(Trace) -> bool, k: int)
    requires
        0 <= k < traces.len(),
        p(traces[k]),
    ensures
        selected_where(traces, p).contains(traces[k]),
    decreases traces.len(),
{
    let rest = traces.drop_last();
    if k == traces.len() - 1 {
        assert(traces[k] == traces.last());
        let sel = selected_where(traces, p);
        assert(sel[sel.len() - 1] == traces[k]);
    } else {
        assert(rest[k] == traces[k]);
        lemma_selected_where_contains(rest, p, k);
        let sr = selected_where(rest, p);
        let j = choose|j: int| 0 <= j < sr.len() && sr[j] == traces[k];
        if p(traces.last()) {
            assert(selected_where(traces, p)[j] == sr[j]);
        }
    }
}

/// Looking up through a selection: where the trace with identifier `n`, if
/// any, is selected, the selection finds what the whole log finds.
proof fn lemma_trace_from_selected(traces: Seq<Trace>, p: spec_fn(Trace) -> bool, n: Seq<char>)
    requires
        distinct_ids(traces),
        forall|i: int| 0 <= i < traces.len() && (#[trigger] traces[i]).case_id@ == n ==> p(traces[i]),
    ensures
        trace_from(selected_where(traces, p), n, 0) == trace_from(traces, n, 0),
{
    let sel = selected_where(traces, p);
    lemma_selected_where_distinct(traces, p);
    lemma_selected_where_member(traces, p);
    if exists|k: int| 0 <= k < traces.len() && (#[trigger] traces[k]).case_id@ == n {
        let k = choose|k: int| 0 <= k < traces.len() && (#[trigger] traces[k]).case_id@ == n;
        lemma_trace_from_at(traces, n, 0, k);
        lemma_selected_where_contains(traces, p, k);
        let j = choose|j: int| 0 <= j < sel.len() && sel[j] == traces[k];
        lemma_trace_from_at(sel, n, 0, j);
    } else {
        lemma_trace_from_none(traces, n, 0);
        assert forall|j: int| 0 <= j < sel.len() implies (#[trigger] sel[j]).case_id@ != n by {
            let i = choose|i: int| 0 <= i < traces.len() && traces[i] == #[trigger] sel[j];
        }
        lemma_trace_from_none(sel, n, 0);
    }
}

proof fn lemma_named_window_lookups_on(
    ta1: Seq<Trace>,
    tb1: Seq<Trace>,
    ta2: Seq<Trace>,
    tb2: Seq<Trace>,
    names: Seq<String>,
)
    requires
        forall|k: int| 0 <= k < names.len() ==> trace_from(ta1, (#[trigger] names[k])@, 0) == trace_from(ta2, names[k]@, 0),
        forall|k: int| 0 <= k < names.len() ==> trace_from(tb1, (#[trigger] names[k])@, 0) == trace_from(tb2, names[k]@, 0),
    ensures
        named_window_edges(ta1, tb1, names) == named_window_edges(ta2, tb2, names),
    decreases names.len(),
{
    if names.len() > 0 {
        let rest = names.drop_last();
        assert forall|k: int| 0 <= k < rest.len() implies trace_from(ta1, (#[trigger] rest[k])@, 0) == trace_from(
            ta2,
            rest[k]@,
            0,
        ) && trace_from(tb1, rest[k]@, 0) == trace_from(tb2, rest[k]@, 0) by {
            assert(rest[k] == names[k]);
        }
        lemma_named_window_lookups_on(ta1, tb1, ta2, tb2, rest);
        assert(names[names.len() - 1] == names.last());
    }
}

proof fn lemma_named_window_concat(ta: Seq<Trace>, tb: Seq<Trace>, n1: Seq<String>, n2: Seq<String>)
    ensures
        named_window_edges(ta, tb, n1 + n2) =~= named_window_edges(ta, tb, n1) + named_window_edges(ta, tb, n2),
    decreases n2.len(),
{
    if n2.len() == 0 {
        assert(n1 + n2 =~= n1);
    } else {
        lemma_named_window_concat(ta, tb, n1, n2.drop_last());
        assert((n1 + n2).drop_last() =~= n1 + n2.drop_last());
        assert((n1 + n2).last() == n2.last());
    }
}

/// The identifiers of the traces among `traces` that `p` picks, in order.
pub open spec fn ids_where(traces: Seq<Trace>, p: spec_fn(Trace) -> bool) -> Seq<String>
    decreases traces.len(),
{
    if traces.len() == 0 {
        Seq::empty()
    } else if p(traces.last()) {
        ids_where(traces.drop_last(), p).push(traces.last().case_id)
    } else {
        ids_where(traces.drop_last(), p)
    }
}

/// Cases of A that B does not hold: their edges are those of their merge
/// with an empty side of B.
proof fn lemma_private_as_window(ta: Seq<Trace>, tb: Seq<Trace>, p: spec_fn(Trace) -> bool, i: int)
    requires
        distinct_ids(ta),
        0 <= i <= ta.len(),
        forall|k: int, j: int|
            0 <= k < ta.len() && p(ta[k]) && 0 <= j < tb.len() ==> #[trigger] tb[j].case_id@ != #[trigger] ta[k].case_id@,
    ensures
        edges_of_cases_where(ta.take(i), p) == named_window_edges(ta, tb, ids_where(ta.take(i), p)),
    decreases i,
{
    if i > 0 {
        lemma_private_as_window(ta, tb, p, i - 1);
        let pre = ta.take(i);
        assert(pre.drop_last() =~= ta.take(i - 1));
        let t = ta[i - 1];
        assert(pre.last() == t);
        if p(t) {
            let ids = ids_where(ta.take(i - 1), p);
            let all = ids.push(t.case_id);
            assert(all.drop_last() =~= ids);
            assert(all.last() == t.case_id);
            let n = t.case_id@;
            lemma_trace_from_at(ta, n, 0, i - 1);
            assert forall|j: int| 0 <= j < tb.len() implies (#[trigger] tb[j]).case_id@ != n by {
                assert(tb[j].case_id@ != ta[i - 1].case_id@);
            }
            lemma_trace_from_none(tb, n, 0);
            let acts = t.activity_seq();
            if t.events.len() > 0 {
                lemma_merge_one_side(acts, t.timestamp_seq(), Seq::<Seq<char>>::empty(), Seq::<u64>::empty(), 0, 0);
                assert(acts.subrange(0, acts.len() as int) =~= acts);
                assert(df_edges(acts, start_name(), end_name()) =~= named_df_edges(acts));
            } else {
                assert(acts.len() == 0);
            }
        }
    }
}

/// The case identifiers of `traces`, in order.
pub open spec fn trace_ids(traces: Seq<Trace>) -> Seq<Seq<char>> {
    traces.map_values(|t: Trace| t.case_id@)
}

proof fn lemma_selected_where_picks(traces: Seq<Trace>, p: spec_fn(Trace) -> bool)
    ensures
        forall|k: int| 0 <= k < selected_where(traces, p).len() ==> p(#[trigger] selected_where(traces, p)[k]),
    decreases traces.len(),
{
    if traces.len() > 0 {
        lemma_selected_where_picks(traces.drop_last(), p);
        let sr = selected_where(traces.drop_last(), p);
        assert forall|k: int| 0 <= k < selected_where(traces, p).len() implies p(
            #[trigger] selected_where(traces, p)[k],
        ) by {
            if k < sr.len() {
                assert(selected_where(traces, p)[k] == sr[k]);
            }
        }
    }
}

proof fn lemma_ids_where(traces: Seq<Trace>, p: spec_fn(Trace) -> bool)
    requires
        distinct_ids(traces),
    ensures
        views(ids_where(traces, p)).no_duplicates(),
        forall|x: Seq<char>|
            #[trigger] views(ids_where(traces, p)).contains(x) <==> exists|k: int|
                0 <= k < traces.len() && (#[trigger] traces[k]).case_id@ == x && p(traces[k]),
    decreases traces.len(),
{
    if traces.len() > 0 {
        let rest = traces.drop_last();
        assert(distinct_ids(rest)) by {
            assert forall|i: int, j: int| 0 <= i < j < rest.len() implies rest[i].case_id@ != rest[j].case_id@ by {
                assert(rest[i] == traces[i] && rest[j] == traces[j]);
            }
        }
        lemma_ids_where(rest, p);
        let t = traces.last();
        assert(traces[traces.len() - 1] == t);
        let vr = views(ids_where(rest, p));
        assert forall|x: Seq<char>| vr.contains(x) <==> exists|k: int|
            0 <= k < rest.len() && (#[trigger] traces[k]).case_id@ == x && p(traces[k]) by {
            if vr.contains(x) {
                let k = choose|k: int| 0 <= k < rest.len() && (#[trigger] rest[k]).case_id@ == x && p(rest[k]);
                assert(rest[k] == traces[k]);
            }
            if exists|k: int| 0 <= k < rest.len() && (#[trigger] traces[k]).case_id@ == x && p(traces[k]) {
                let k = choose|k: int| 0 <= k < rest.len() && (#[trigger] traces[k]).case_id@ == x && p(traces[k]);
                assert(rest[k] == traces[k]);
            }
        }
        if p(t) {
            let v = views(ids_where(traces, p));
            assert(v =~= vr.push(t.case_id@));
            assert(!vr.contains(t.case_id@)) by {
                if vr.contains(t.case_id@) {
                    let k = choose|k: int| 0 <= k < rest.len() && (#[trigger] traces[k]).case_id@ == t.case_id@ && p(
                        traces[k],
                    );
                    assert(traces[k].case_id@ != traces[traces.len() - 1].case_id@);
                }
            }
            assert forall|i: int, j: int| 0 <= i < v.len() && 0 <= j < v.len() && i != j implies v[i] != v[j] by {
                if i == vr.len() {
                    assert(vr.contains(v[j]));
                } else if j == vr.len() {
                    assert(vr.contains(v[i]));
                } else {
                    assert(v[i] == vr[i] && v[j] == vr[j]);
                }
            }
            assert forall|x: Seq<char>| #[trigger] v.contains(x) <==> exists|k: int|
                0 <= k < traces.len() && (#[trigger] traces[k]).case_id@ == x && p(traces[k]) by {
                if v.contains(x) {
                    let i = choose|i: int| 0 <= i < v.len() && v[i] == x;
                    if i < vr.len() {
                        assert(vr[i] == x);
                        assert(vr.contains(x));
                    }
                }
                if exists|k: int| 0 <= k < traces.len() && (#[trigger] traces[k]).case_id@ == x && p(traces[k]) {
                    let k = choose|k: int| 0 <= k < traces.len() && (#[trigger] traces[k]).case_id@ == x && p(traces[k]);
                    if k < rest.len() {
                        assert(vr.contains(x));
                        let i = choose|i: int| 0 <= i < vr.len() && vr[i] == x;
                        assert(v[i] == x);
                    } else {
                        assert(v[vr.len() as int] == x);
                    }
                }
            }
        } else {
            assert forall|x: Seq<char>| #[trigger] vr.contains(x) <==> exists|k: int|
                0 <= k < traces.len() && (#[trigger] traces[k]).case_id@ == x && p(traces[k]) by {
                if exists|k: int| 0 <= k < traces.len() && (#[trigger] traces[k]).case_id@ == x && p(traces[k]) {
                    let k = choose|k: int| 0 <= k < traces.len() && (#[trigger] traces[k]).case_id@ == x && p(traces[k]);
                    assert(k < rest.len());
                }
            }
        }
    }
}

proof fn lemma_same_distinct(s1: Seq<Seq<char>>, s2: Seq<Seq<char>>)
    requires
        s1.no_duplicates(),
        s2.no_duplicates(),
        forall|x: Seq<char>| #[trigger] s1.contains(x) <==> s2.contains(x),
    ensures
        s1.to_multiset() == s2.to_multiset(),
{
    broadcast use group_to_multiset_ensures;
    s1.lemma_multiset_has_no_duplicates();
    s2.lemma_multiset_has_no_duplicates();
    assert forall|x: Seq<char>| s1.to_multiset().count(x) == s2.to_multiset().count(x) by {
        if s1.contains(x) {
            assert(s2.contains(x));
        }
    }
    assert(s1.to_multiset() =~= s2.to_multiset());
}

/// Correctness against the plaintext oracle: the joint log whose counts the
/// graph of `communicate` holds is the plaintext one. Where case identifiers
/// are distinct within each log and, with PSI, no identifier of A shares its
/// hash with a different identifier of B, each count equals that of merging,
/// for every case identifier of either log, its events in A and in B in
/// timestamp order (A first on ties) and taking the directly-follows edges.
/// `names` is the set of cases that B visits, as `communicate` leaves it;
/// `all_ids` lists every case identifier of either log once.
pub proof fn lemma_joint_is_oracle(
    log_a: EventLog,
    log_b: EventLog,
    use_psi: bool,
    names: Seq<String>,
    all_ids: Seq<String>,
    u: Seq<char>,
    w: Seq<char>,
)
    requires
        distinct_ids(log_a.traces@),
        distinct_ids(log_b.traces@),
        use_psi ==> forall|i: int, j: int|
            0 <= i < log_a.traces.len() && 0 <= j < log_b.traces.len() && case_id_hash(
                (#[trigger] log_a.traces@[i]).case_id@,
            ) == case_id_hash((#[trigger] log_b.traces@[j]).case_id@) ==> log_a.traces@[i].case_id@
                == log_b.traces@[j].case_id@,
        distinct_names(names),
        forall|x: Seq<char>|
            #[trigger] has_name(names, x) <==> (log_b.case_ids().contains(x) || trace_ids(
                a_shared_cases(log_a, log_b, use_psi),
            ).contains(x)),
        distinct_names(all_ids),
        forall|x: Seq<char>|
            #[trigger] has_name(all_ids, x) <==> (log_a.case_ids().contains(x) || log_b.case_ids().contains(x)),
    ensures
        joint_count(log_a, log_b, use_psi, names, u, w) == named_window_edges(
            log_a.traces@,
            log_b.traces@,
            all_ids,
        ).to_multiset().count((u, w)),
{
    broadcast use group_to_multiset_ensures, group_multiset_axioms;
    let ta = log_a.traces@;
    let tb = log_b.traces@;
    let q = shared_pick(log_b, use_psi);
    let pa = hash_absent(log_b);
    let sh = selected_where(ta, q);
    let hb = hashes_of(log_b.case_id_list_spec());
    lemma_selected_where_member(ta, q);
    lemma_selected_where_picks(ta, q);
    // a B case with A's identifier has its hash among B's
    assert forall|k: int, j: int|
        0 <= k < ta.len() && 0 <= j < tb.len() && #[trigger] tb[j].case_id@ == #[trigger] ta[k].case_id@ implies hb.contains(
        case_id_hash(ta[k].case_id@),
    ) by {
        assert(hb[j] == case_id_hash(tb[j].case_id@));
    }
    // B visits each case with the trace A holds for it
    assert forall|m: int| 0 <= m < names.len() implies trace_from(sh, (#[trigger] names[m])@, 0) == trace_from(
        ta,
        names[m]@,
        0,
    ) by {
        let x = names[m]@;
        assert(has_name(names, x));
        assert forall|i: int| 0 <= i < ta.len() && (#[trigger] ta[i]).case_id@ == x implies q(ta[i]) by {
            if use_psi {
                if log_b.case_ids().contains(x) {
                    let j = choose|j: int| 0 <= j < log_b.case_ids().len() && log_b.case_ids()[j] == x;
                    assert(tb[j].case_id@ == ta[i].case_id@);
                } else {
                    let k = choose|k: int| 0 <= k < trace_ids(sh).len() && trace_ids(sh)[k] == x;
                    assert(q(sh[k]));
                    let i2 = choose|i2: int| 0 <= i2 < ta.len() && ta[i2] == #[trigger] sh[k];
                    assert(ta[i2].case_id@ == x);
                    if i2 != i {
                        assert(ta[i2].case_id@ != ta[i].case_id@) by {
                            if i2 < i {
                            } else {
                            }
                        }
                    }
                }
            }
        }
        lemma_trace_from_selected(ta, q, x);
    }
    assert forall|m: int| 0 <= m < names.len() implies trace_from(tb, (#[trigger] names[m])@, 0) == trace_from(
        tb,
        names[m]@,
        0,
    ) by {}
    lemma_named_window_lookups_on(sh, tb, ta, tb, names);
    // A's other cases
    let others = if use_psi {
        ids_where(ta, pa)
    } else {
        Seq::<String>::empty()
    };
    if use_psi {
        assert forall|k: int, j: int| 0 <= k < ta.len() && pa(ta[k]) && 0 <= j < tb.len() implies #[trigger] tb[j].case_id@
            != #[trigger] ta[k].case_id@ by {
            if tb[j].case_id@ == ta[k].case_id@ {
                assert(hb.contains(case_id_hash(ta[k].case_id@)));
            }
        }
        lemma_private_as_window(ta, tb, pa, ta.len() as int);
        assert(ta.take(ta.len() as int) =~= ta);
        lemma_ids_where(ta, pa);
    }
    assert(a_private_edges(log_a, log_b, use_psi) == named_window_edges(ta, tb, others));
    // the visited and the other cases are, together, every case once
    let both = names + others;
    assert(views(both) =~= views(names) + views(others));
    assert(views(names).no_duplicates());
    assert forall|x: Seq<char>| #[trigger] views(both).contains(x) <==> views(all_ids).contains(x) by {
        assert(views(both).contains(x) <==> (views(names).contains(x) || views(others).contains(x))) by {
            if views(both).contains(x) {
                let i = choose|i: int| 0 <= i < views(both).len() && views(both)[i] == x;
                if i < names.len() {
                    assert(views(names)[i] == x);
                } else {
                    assert(views(others)[i - names.len()] == x);
                }
            }
            if views(names).contains(x) {
                let i = choose|i: int| 0 <= i < views(names).len() && views(names)[i] == x;
                assert(views(both)[i] == x);
            }
            if views(others).contains(x) {
                let i = choose|i: int| 0 <= i < views(others).len() && views(others)[i] == x;
                assert(views(both)[names.len() + i] == x);
            }
        }
        assert(views(names).contains(x) <==> has_name(names, x)) by {
            if has_name(names, x) {
                let i = choose|i: int| 0 <= i < names.len() && names[i]@ == x;
                assert(views(names)[i] == x);
            }
        }
        assert(views(all_ids).contains(x) <==> has_name(all_ids, x)) by {
            if has_name(all_ids, x) {
                let i = choose|i: int| 0 <= i < all_ids.len() && all_ids[i]@ == x;
                assert(views(all_ids)[i] == x);
            }
        }
        if log_a.case_ids().contains(x) && !log_b.case_ids().contains(x) {
            let k = choose|k: int| 0 <= k < log_a.case_ids().len() && log_a.case_ids()[k] == x;
            if use_psi {
                if hb.contains(case_id_hash(x)) {
                    let j = choose|j: int| 0 <= j < hb.len() && hb[j] == case_id_hash(x);
                    assert(hb[j] == case_id_hash(tb[j].case_id@));
                    assert(ta[k].case_id@ == tb[j].case_id@);
                    assert(log_b.case_ids()[j] == x);
                }
                assert(pa(ta[k]));
            } else {
                lemma_selected_where_contains(ta, q, k);
                let j = choose|j: int| 0 <= j < sh.len() && sh[j] == ta[k];
                assert(trace_ids(sh)[j] == x);
            }
        }
        if views(others).contains(x) {
            let k = choose|k: int| 0 <= k < ta.len() && (#[trigger] ta[k]).case_id@ == x && pa(ta[k]);
            assert(log_a.case_ids()[k] == x);
        }
        if trace_ids(sh).contains(x) {
            let k = choose|k: int| 0 <= k < trace_ids(sh).len() && trace_ids(sh)[k] == x;
            let i = choose|i: int| 0 <= i < ta.len() && ta[i] == #[trigger] sh[k];
            assert(log_a.case_ids()[i] == x);
        }
    }
    assert(views(both).no_duplicates()) by {
        assert forall|i: int, j: int| 0 <= i < views(both).len() && 0 <= j < views(both).len() && i != j implies views(
            both,
        )[i] != views(both)[j] by {
            if i < names.len() && j < names.len() {
                assert(names[i]@ != names[j]@) by {
                    if i < j {
                    } else {
                    }
                }
            } else if i >= names.len() && j >= names.len() {
                assert(views(others)[i - names.len()] != views(others)[j - names.len()]);
            } else {
                let (a, b) = if i < names.len() {
                    (i, j)
                } else {
                    (j, i)
                };
                let x = views(both)[a];
                assert(views(names)[a] == x);
                assert(has_name(names, x));
                if views(both)[b] == x {
                    assert(views(others)[b - names.len()] == x);
                    assert(views(others).contains(x));
                    let k = choose|k: int| 0 <= k < ta.len() && (#[trigger] ta[k]).case_id@ == x && pa(ta[k]);
                    if log_b.case_ids().contains(x) {
                        let j2 = choose|j2: int| 0 <= j2 < log_b.case_ids().len() && log_b.case_ids()[j2] == x;
                        assert(tb[j2].case_id@ == ta[k].case_id@);
                    } else {
                        let k2 = choose|k2: int| 0 <= k2 < trace_ids(sh).len() && trace_ids(sh)[k2] == x;
                        assert(q(sh[k2]));
                        let i2 = choose|i2: int| 0 <= i2 < ta.len() && ta[i2] == #[trigger] sh[k2];
                        if i2 != k {
                            assert(ta[i2].case_id@ != ta[k].case_id@) by {
                                if i2 < k {
                                } else {
                                }
                            }
                        }
                    }
                }
            }
        }
    }
    assert(views(all_ids).no_duplicates()) by {
        assert forall|i: int, j: int| 0 <= i < views(all_ids).len() && 0 <= j < views(all_ids).len() && i != j implies views(
            all_ids,
        )[i] != views(all_ids)[j] by {
            if i < j {
                assert(all_ids[i]@ != all_ids[j]@);
            } else {
                assert(all_ids[j]@ != all_ids[i]@);
            }
        }
    }
    lemma_same_distinct(views(both), views(all_ids));
    lemma_named_window_order(ta, tb, both, all_ids);
    lemma_named_window_concat(ta, tb, names, others);
    lemma_multiset_commutative(named_window_edges(ta, tb, names), named_window_edges(ta, tb, others));
}

/// Trace `t2` is trace `t1` with every activity renamed by `g`.
pub open spec fn renamed(t1: Trace, t2: Trace, g: spec_fn(Seq<char>) -> Seq<char>) -> bool {
    &&& t2.case_id@ == t1.case_id@
    &&& t2.timestamp_seq() == t1.timestamp_seq()
    &&& t2.activity_seq() == t1.activity_seq().map_values(g)
}

/// Log `l2` is log `l1` with every activity renamed by `g`, trace by trace.
pub open spec fn renamed_log(l1: Seq<Trace>, l2: Seq<Trace>, g: spec_fn(Seq<char>) -> Seq<char>) -> bool {
    l1.len() == l2.len() && forall|k: int| 0 <= k < l1.len() ==> renamed(l1[k], #[trigger] l2[k], g)
}

proof fn lemma_trace_from_renamed(l1: Seq<Trace>, l2: Seq<Trace>, g: spec_fn(Seq<char>) -> Seq<char>, n: Seq<char>, i: int)
    requires
        renamed_log(l1, l2, g),
        0 <= i,
    ensures
        trace_from(l2, n, i).0 == trace_from(l1, n, i).0.map_values(g),
        trace_from(l2, n, i).1 == trace_from(l1, n, i).1,
    decreases l1.len() - i,
{
    if i < l1.len() {
        assert(renamed(l1[i], l2[i], g));
        if l1[i].case_id@ != n {
            lemma_trace_from_renamed(l1, l2, g, n, i + 1);
        }
    } else {
        assert(Seq::<Seq<char>>::empty().map_values(g) =~= Seq::<Seq<char>>::empty());
    }
}

/// Relabelling: renaming the activities of both logs by `g`, which leaves the
/// sentinels' names alone, renames the endpoints of every edge of the joint
/// log by `g`, case by case and in order, and changes nothing else.
pub proof fn lemma_named_window_renamed(
    a1: Seq<Trace>,
    b1: Seq<Trace>,
    a2: Seq<Trace>,
    b2: Seq<Trace>,
    g: spec_fn(Seq<char>) -> Seq<char>,
    names: Seq<String>,
)
    requires
        renamed_log(a1, a2, g),
        renamed_log(b1, b2, g),
        g(start_name()) == start_name(),
        g(end_name()) == end_name(),
    ensures
        named_window_edges(a2, b2, names) == named_window_edges(a1, b1, names).map_values(
            |e: (Seq<char>, Seq<char>)| (g(e.0), g(e.1)),
        ),
    decreases names.len(),
{
    let h = |e: (Seq<char>, Seq<char>)| (g(e.0), g(e.1));
    if names.len() == 0 {
        assert(named_window_edges(a1, b1, names).map_values(h) =~= Seq::<(Seq<char>, Seq<char>)>::empty());
    } else {
        let n = names.last()@;
        lemma_named_window_renamed(a1, b1, a2, b2, g, names.drop_last());
        lemma_trace_from_renamed(a1, a2, g, n, 0);
        lemma_trace_from_renamed(b1, b2, g, n, 0);
        let x = trace_from(a1, n, 0);
        let y = trace_from(b1, n, 0);
        lemma_relabel_case_edges(x.0, x.1, y.0, y.1, start_name(), end_name(), g);
        let w1 = named_window_edges(a1, b1, names.drop_last());
        let c1 = case_edges(x.0, x.1, y.0, y.1, start_name(), end_name());
        assert(c1.map_values(|e: (Seq<char>, Seq<char>)| (g(e.0), g(e.1))) =~= c1.map_values(h));
        assert((w1 + c1).map_values(h) =~= w1.map_values(h) + c1.map_values(h));
    }
}

/// No event of `traces` is named like a sentinel.
pub open spec fn no_sentinel_activity(traces: Seq<Trace>) -> bool {
    forall|k: int, m: int|
        0 <= k < traces.len() && 0 <= m < traces[k].events.len() ==> #[trigger] traces[k].events@[m].activity@
            != start_name() && traces[k].events@[m].activity@ != end_name()
}

/// An edge of a case that its sentinels frame: it leaves no `end`, enters no
/// `start`, and does not join the two sentinels.
pub open spec fn framed_edge(e: (Seq<char>, Seq<char>)) -> bool {
    e.0 != end_name() && e.1 != start_name() && !(e.0 == start_name() && e.1 == end_name())
}

proof fn lemma_df_edges_framed(s: Seq<Seq<char>>)
    requires
        s.len() > 0,
        forall|k: int| 0 <= k < s.len() ==> #[trigger] s[k] != start_name() && s[k] != end_name(),
    ensures
        forall|k: int| 0 <= k < df_edges(s, start_name(), end_name()).len() ==> framed_edge(
            #[trigger] df_edges(s, start_name(), end_name())[k],
        ),
{
    assert(start_name()[0] != end_name()[0]);
    let full = seq![start_name()] + s + seq![end_name()];
    assert forall|k: int| 0 <= k < df_edges(s, start_name(), end_name()).len() implies framed_edge(
        #[trigger] df_edges(s, start_name(), end_name())[k],
    ) by {
        if k > 0 {
            assert(full[k] == s[k - 1]);
        } else {
            assert(full[1] == s[0]);
        }
        if k < s.len() {
            assert(full[k + 1] == s[k]);
        }
    }
}

proof fn lemma_trace_from_names(traces: Seq<Trace>, n: Seq<char>, i: int)
    requires
        no_sentinel_activity(traces),
        0 <= i,
    ensures
        forall|m: int|
            0 <= m < trace_from(traces, n, i).0.len() ==> #[trigger] trace_from(traces, n, i).0[m] != start_name()
                && trace_from(traces, n, i).0[m] != end_name(),
    decreases traces.len() - i,
{
    if i < traces.len() {
        if traces[i].case_id@ != n {
            lemma_trace_from_names(traces, n, i + 1);
            assert(trace_from(traces, n, i) == trace_from(traces, n, i + 1));
        } else {
            assert(trace_from(traces, n, i).0 == traces[i].activity_seq());
            assert forall|m: int| 0 <= m < traces[i].activity_seq().len() implies #[trigger] traces[i].activity_seq()[m]
                != start_name() && traces[i].activity_seq()[m] != end_name() by {
                assert(traces[i].activity_seq()[m] == traces[i].events@[m].activity@);
                assert(traces[i].events@[m].activity@ != start_name());
            }
        }
    }
}

proof fn lemma_framed_concat(s1: Seq<(Seq<char>, Seq<char>)>, s2: Seq<(Seq<char>, Seq<char>)>)
    requires
        forall|k: int| 0 <= k < s1.len() ==> framed_edge(#[trigger] s1[k]),
        forall|k: int| 0 <= k < s2.len() ==> framed_edge(#[trigger] s2[k]),
    ensures
        forall|k: int| 0 <= k < (s1 + s2).len() ==> framed_edge(#[trigger] (s1 + s2)[k]),
{
    assert forall|k: int| 0 <= k < (s1 + s2).len() implies framed_edge(#[trigger] (s1 + s2)[k]) by {
        if k < s1.len() {
            assert((s1 + s2)[k] == s1[k]);
        } else {
            assert((s1 + s2)[k] == s2[k - s1.len()]);
        }
    }
}

proof fn lemma_window_framed(ta: Seq<Trace>, tb: Seq<Trace>, names: Seq<String>)
    requires
        no_sentinel_activity(ta),
        no_sentinel_activity(tb),
    ensures
        forall|k: int|
            0 <= k < named_window_edges(ta, tb, names).len() ==> framed_edge(
                #[trigger] named_window_edges(ta, tb, names)[k],
            ),
    decreases names.len(),
{
    if names.len() > 0 {
        lemma_window_framed(ta, tb, names.drop_last());
        let n = names.last()@;
        let a = trace_from(ta, n, 0);
        let b = trace_from(tb, n, 0);
        lemma_trace_from_names(ta, n, 0);
        lemma_trace_from_names(tb, n, 0);
        let ce = case_edges(a.0, a.1, b.0, b.1, start_name(), end_name());
        if a.0.len() > 0 || b.0.len() > 0 {
            let m = merged_trace(a.0, a.1, b.0, b.1);
            lemma_merge_members(a.0, a.1, b.0, b.1, 0, 0);
            assert forall|k: int| 0 <= k < m.len() implies #[trigger] m[k] != start_name() && m[k] != end_name() by {
                if a.0.contains(m[k]) {
                    let p = choose|p: int| 0 <= p < a.0.len() && a.0[p] == m[k];
                } else {
                    let p = choose|p: int| 0 <= p < b.0.len() && b.0[p] == m[k];
                }
            }
            if m.len() == 0 {
                if a.0.len() > 0 {
                    assert(m == seq![a.0[0]] + merge_from(a.0, a.1, b.0, b.1, 1, 0));
                } else {
                    assert(m == seq![b.0[0]] + merge_from(a.0, a.1, b.0, b.1, 0, 1));
                }
            }
            lemma_df_edges_framed(m);
        }
        lemma_framed_concat(named_window_edges(ta, tb, names.drop_last()), ce);
    }
}

proof fn lemma_private_framed(traces: Seq<Trace>, p: spec_fn(Trace) -> bool)
    requires
        no_sentinel_activity(traces),
    ensures
        forall|k: int|
            0 <= k < edges_of_cases_where(traces, p).len() ==> framed_edge(#[trigger] edges_of_cases_where(traces, p)[k]),
    decreases traces.len(),
{
    if traces.len() > 0 {
        let rest = traces.drop_last();
        assert(no_sentinel_activity(rest)) by {
            assert forall|k: int, m: int| 0 <= k < rest.len() && 0 <= m < rest[k].events.len() implies #[trigger] rest[k].events@[m].activity@
                != start_name() && rest[k].events@[m].activity@ != end_name() by {
                assert(rest[k] == traces[k]);
            }
        }
        lemma_private_framed(rest, p);
        let t = traces.last();
        assert(traces[traces.len() - 1] == t);
        let piece = case_piece(t, p);
        if p(t) && t.events.len() > 0 {
            assert forall|m: int| 0 <= m < t.activity_seq().len() implies #[trigger] t.activity_seq()[m] != start_name()
                && t.activity_seq()[m] != end_name() by {
                assert(t.activity_seq()[m] == traces[traces.len() - 1].events@[m].activity@);
            }
            lemma_df_edges_framed(t.activity_seq());
            assert(named_df_edges(t.activity_seq()) =~= df_edges(t.activity_seq(), start_name(), end_name()));
        }
        assert(edges_of_cases_where(traces, p) == edges_of_cases_where(rest, p) + piece);
        lemma_framed_concat(edges_of_cases_where(rest, p), piece);
    }
}

/// Where no activity is named like a sentinel, every edge counted in the joint
/// log is framed: none leaves `end`, none enters `start`, and none joins
/// `start` to `end`.
pub proof fn lemma_joint_framed(log_a: EventLog, log_b: EventLog, use_psi: bool, names: Seq<String>, u: Seq<char>, w: Seq<char>)
    requires
        no_sentinel_activity(log_a.traces@),
        no_sentinel_activity(log_b.traces@),
        joint_count(log_a, log_b, use_psi, names, u, w) > 0,
    ensures
        framed_edge((u, w)),
{
    broadcast use group_to_multiset_ensures;
    let sh = a_shared_cases(log_a, log_b, use_psi);
    lemma_selected_where_member(log_a.traces@, shared_pick(log_b, use_psi));
    assert(no_sentinel_activity(sh)) by {
        assert forall|k: int, m: int| 0 <= k < sh.len() && 0 <= m < sh[k].events.len() implies #[trigger] sh[k].events@[m].activity@
            != start_name() && sh[k].events@[m].activity@ != end_name() by {
            let i = choose|i: int| 0 <= i < log_a.traces@.len() && log_a.traces@[i] == #[trigger] sh[k];
            assert(log_a.traces@[i].events@[m] == sh[k].events@[m]);
        }
    }
    let w1 = named_window_edges(sh, log_b.traces@, names);
    let pe = a_private_edges(log_a, log_b, use_psi);
    lemma_window_framed(sh, log_b.traces@, names);
    lemma_private_framed(log_a.traces@, hash_absent(log_b));
    if w1.to_multiset().count((u, w)) > 0 {
        assert(w1.contains((u, w)));
        let k = choose|k: int| 0 <= k < w1.len() && w1[k] == (u, w);
        assert(framed_edge(w1[k]));
    } else {
        assert(pe.to_multiset().count((u, w)) > 0);
        assert(pe.contains((u, w)));
        let k = choose|k: int| 0 <= k < pe.len() && pe[k] == (u, w);
        if use_psi {
            assert(framed_edge(pe[k]));
        } else {
            assert(pe.len() == 0);
        }
    }
}

} // verus!
