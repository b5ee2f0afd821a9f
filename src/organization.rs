//! The two parties: organization A, which holds the private key, and
//! organization B, which holds the evaluation key and runs the merge engine.
use vstd::prelude::*;
use crate::codec::{
    canonical_order, vocabulary, MAX_CODES, build_code_table, code_in, code_of, decode, encoded, end_name, end_string, is_code_table, start_name,
    start_string, ProtocolError, END_CODE, START_CODE,
};
use crate::dfg::{
    positive, edge_freq, in_sum, max_int, out_sum, recalculate_activity_counts, total_freq, DirectlyFollowsGraph,
};
use vstd::multiset::*;
use vstd::seq_lib::*;
use crate::log::{activities_in_order, first_appearances, add_name, views, distinct_names, find_activities, has_name, EventLog, Trace};
use crate::merge::{merge_selections, case_edges, find_secrets_for_case, lemma_relabel_case_edges, sorted, Edge};
use crate::facade::{bumped, lemma_bumped_twice, OperationCounts};
use crate::psi::has_matching_case_id;
use crate::shuffle::shuffle;
use crate::psi::{hash_all_case_ids, hashes_of, marked_ids};

verus! {

/// A case as it travels between the parties: case identifier, encrypted
/// activity codes and encrypted timestamps.
pub type EncodedCase = (String, Vec<u16>, Vec<u64>);

/// `c` is trace `t` encoded under `table`.
pub open spec fn encodes_case(table: Seq<String>, t: Trace, c: EncodedCase) -> bool {
    &&& c.0@ == t.case_id@
    &&& encoded(table, t.activity_seq(), c.1@)
    &&& c.2@ == t.timestamp_seq()
}

/// Directly-follows edges between names of trace `s`, framed by the sentinels.
pub open spec fn named_df_edges(s: Seq<Seq<char>>) -> Seq<(Seq<char>, Seq<char>)> {
    let full = seq![start_name()] + s + seq![end_name()];
    Seq::new(s.len() + 1, |k: int| (full[k], full[k + 1]))
}

/// A case of A that is not shared and takes part in the graph.
pub open spec fn is_private_case(t: Trace, own: Seq<String>, shared: Seq<String>) -> bool {
    has_name(own, t.case_id@) && !has_name(shared, t.case_id@) && t.events.len() > 0
}

/// Edges of the private cases among `traces`, in order.
pub open spec fn private_edges(traces: Seq<Trace>, own: Seq<String>, shared: Seq<String>) -> Seq<(Seq<char>, Seq<char>)>
    decreases traces.len(),
{
    if traces.len() == 0 {
        Seq::empty()
    } else {
        let t = traces.last();
        private_edges(traces.drop_last(), own, shared) + if is_private_case(t, own, shared) {
            named_df_edges(t.activity_seq())
        } else {
            Seq::empty()
        }
    }
}

proof fn lemma_private_edges_prefix(traces: Seq<Trace>, own: Seq<String>, shared: Seq<String>, i: int)
    requires
        0 <= i <= traces.len(),
    ensures
        private_edges(traces.take(i), own, shared).len() <= private_edges(traces, own, shared).len(),
    decreases traces.len() - i,
{
    if i < traces.len() {
        lemma_private_edges_prefix(traces, own, shared, i + 1);
        assert(traces.take(i + 1).drop_last() =~= traces.take(i));
    } else {
        assert(traces.take(i) =~= traces);
    }
}

/// The private cases add at most one edge more than each trace has events.
pub proof fn lemma_private_edges_bound(traces: Seq<Trace>, own: Seq<String>, shared: Seq<String>)
    ensures
        private_edges(traces, own, shared).len() <= traces.len() * (usize::MAX + 1),
    decreases traces.len(),
{
    if traces.len() > 0 {
        lemma_private_edges_bound(traces.drop_last(), own, shared);
        let n = traces.len() as int;
        let m = usize::MAX + 1;
        let t = traces.last();
        assert(t.activity_seq().len() == t.events.len());
        assert(t.events.len() <= usize::MAX);
        assert((n - 1) * m + m == n * m) by (nonlinear_arith);
    }
}

/// Number of the decrypted edges that decode to `x -> y`: edges leaving the
/// `end` sentinel and edges with a code outside the table are left out.
pub open spec fn decoded_count(table: Seq<String>, edges: Seq<Edge>, x: Seq<char>, y: Seq<char>) -> int
    decreases edges.len(),
{
    if edges.len() == 0 {
        0
    } else {
        let e = edges.last();
        decoded_count(table, edges.drop_last(), x, y) + if e.0 != END_CODE && code_in(table, x, e.0 as int)
            && code_in(table, y, e.1 as int) {
            1int
        } else {
            0
        }
    }
}

/// The names that the code table of A, over its log and the foreign
/// activities, must cover.
pub open spec fn joint_vocabulary(log: EventLog, foreign: Seq<String>) -> Set<Seq<char>> {
    Set::new(|x: Seq<char>| x == start_name() || x == end_name() || log.has_activity(x) || has_name(foreign, x))
}

/// Every activity of trace `t` has a code in `table`.
pub open spec fn all_known(table: Seq<String>, t: Trace) -> bool {
    forall|m: int| 0 <= m < t.events.len() ==> has_name(table, #[trigger] t.events@[m].activity@)
}

/// The traces among `traces` whose case identifier is in `shared`, in order.
pub open spec fn selected(traces: Seq<Trace>, shared: Seq<String>) -> Seq<Trace>
    decreases traces.len(),
{
    if traces.len() == 0 {
        Seq::empty()
    } else if has_name(shared, traces.last().case_id@) {
        selected(traces.drop_last(), shared).push(traces.last())
    } else {
        selected(traces.drop_last(), shared)
    }
}

/// Number of the edges of `edges` that go from `x` to `y`.
pub open spec fn pair_count(edges: Seq<(String, String)>, x: Seq<char>, y: Seq<char>) -> int
    decreases edges.len(),
{
    if edges.len() == 0 {
        0
    } else {
        pair_count(edges.drop_last(), x, y) + if edges.last().0@ == x && edges.last().1@ == y {
            1int
        } else {
            0
        }
    }
}

/// Whether some string of `names` has the view of `x`.
pub fn contains_name(names: &Vec<String>, x: &String) -> (r: bool)
    ensures
        r == has_name(names@, x@),
{
    let mut i: usize = 0;
    while i < names.len()
        invariant
            0 <= i <= names.len(),
            forall|k: int| 0 <= k < i ==> names@[k]@ != x@,
        decreases names.len() - i,
    {
        if names[i] == *x {
            return true;
        }
        i = i + 1;
    }
    false
}

/// The organization with the private key.
pub struct PrivateKeyOrganization {
    pub event_log: EventLog,
    pub activity_to_pos: Vec<String>,
    pub debug: bool,
}

impl PrivateKeyOrganization {
    /// A party over `event_log`, with no code table yet.
    pub fn new(event_log: EventLog, debug: bool) -> (r: Self)
        ensures
            r.event_log == event_log,
            r.activity_to_pos@.len() == 0,
            r.debug == debug,
    {
        PrivateKeyOrganization { event_log, activity_to_pos: Vec::new(), debug }
    }

    /// Encrypts a timestamp.
    pub fn encrypt_timestamp(&self, value: u64) -> (r: u64)
        ensures
            r == value,
    {
        value
    }

    /// Encrypts an activity code.
    pub fn encrypt_activity(&self, value: u16) -> (r: u16)
        ensures
            r == value,
    {
        value
    }

    /// An encryption of `true`, handed to B for its oblivious tests.
    pub fn encrypt_true(&self) -> (r: bool)
        ensures
            r,
    {
        true
    }

    /// Decrypts an encrypted activity code.
    pub fn decrypt_activity(&self, value: u16) -> (r: u16)
        ensures
            r == value,
    {
        value
    }

    /// The case identifiers of the log, in its order.
    pub fn get_all_case_ids(&self) -> (r: Vec<String>)
        ensures
            views(r@) == self.event_log.case_ids(),
    {
        self.event_log.case_id_list()
    }

    /// The case identifiers and their encrypted hashes, position by position.
    pub fn encrypt_all_case_ids(&self) -> (r: (Vec<String>, Vec<u64>))
        ensures
            views(r.0@) == self.event_log.case_ids(),
            r.1@ == hashes_of(r.0@),
    {
        let case_ids = self.get_all_case_ids();
        let hashes = hash_all_case_ids(&case_ids);
        (case_ids, hashes)
    }

    /// Decrypts B's answers and collects the identifiers of the shared cases.
    pub fn decrypt_and_identify_shared_case_ids(
        &self,
        own_case_ids: &Vec<String>,
        case_id_check_result: &Vec<(usize, bool)>,
    ) -> (r: Vec<String>)
        requires
            forall|k: int|
                0 <= k < case_id_check_result.len() && (#[trigger] case_id_check_result@[k]).1 ==> case_id_check_result@[k].0
                    < own_case_ids.len(),
        ensures
            distinct_names(r@),
            forall|x: Seq<char>| #[trigger] has_name(r@, x) <==> marked_ids(own_case_ids@, case_id_check_result@, x),
    {
        let mut r: Vec<String> = Vec::new();
        let mut i: usize = 0;
        while i < case_id_check_result.len()
            invariant
                0 <= i <= case_id_check_result.len(),
                forall|k: int|
                    0 <= k < case_id_check_result.len() && (#[trigger] case_id_check_result@[k]).1
                        ==> case_id_check_result@[k].0 < own_case_ids.len(),
                distinct_names(r@),
                forall|x: Seq<char>|
                    #[trigger] has_name(r@, x) <==> marked_ids(own_case_ids@, case_id_check_result@.take(i as int), x),
            decreases case_id_check_result.len() - i,
        {
            let (id, matched) = case_id_check_result[i];
            let ghost before = r@;
            if matched {
                crate::log::add_name(&mut r, &own_case_ids[id]);
            }
            proof {
                let c = case_id_check_result@;
                assert(c.take(i + 1) =~= c.take(i as int).push(c[i as int]));
                assert forall|x: Seq<char>| #[trigger] has_name(r@, x) <==> marked_ids(own_case_ids@, c.take(i + 1), x) by {
                    if marked_ids(own_case_ids@, c.take(i + 1), x) {
                        let k = choose|k: int|
                            0 <= k < c.take(i + 1).len() && c.take(i + 1)[k].1 && #[trigger] own_case_ids@[c.take(
                                i + 1,
                            )[k].0 as int]@ == x;
                        if k < i {
                            assert(c.take(i as int)[k] == c[k]);
                            assert(c.take(i + 1)[k] == c[k]);
                            assert(c.take(i as int)[k].1 && own_case_ids@[c.take(i as int)[k].0 as int]@ == x);
                            assert(marked_ids(own_case_ids@, c.take(i as int), x));
                        }
                    }
                    if marked_ids(own_case_ids@, c.take(i as int), x) {
                        let k = choose|k: int|
                            0 <= k < c.take(i as int).len() && c.take(i as int)[k].1 && #[trigger] own_case_ids@[c.take(
                                i as int,
                            )[k].0 as int]@ == x;
                        assert(c.take(i + 1)[k] == c[k]);
                    }
                    if matched && x == own_case_ids@[id as int]@ {
                        assert(c.take(i + 1)[i as int] == c[i as int]);
                    }
                }
            }
            i = i + 1;
        }
        assert(case_id_check_result@.take(i as int) =~= case_id_check_result@);
        r
    }

    /// Agrees on the encoding: builds the code table over the union of its own
    /// activities and `foreign_activities`, keeps it, and hands it out.
    pub fn update_with_foreign_activities(&mut self, foreign_activities: Vec<String>) -> (r: Result<
        Vec<String>,
        ProtocolError,
    >)
        ensures
            final(self).event_log == old(self).event_log,
            final(self).debug == old(self).debug,
            match r {
                Ok(t) => {
                    &&& is_code_table(t@)
                    &&& t@.len() == joint_vocabulary(old(self).event_log, foreign_activities@).len()
                    &&& canonical_order(t@)
                    &&& final(self).activity_to_pos@ == t@
                    &&& forall|x: Seq<char>|
                        #[trigger] has_name(t@, x) <==> (x == start_name() || x == end_name()
                            || old(self).event_log.has_activity(x) || has_name(foreign_activities@, x))
                },
                Err(e) => e == ProtocolError::TooManyActivities && final(self).activity_to_pos
                    == old(self).activity_to_pos && joint_vocabulary(old(self).event_log, foreign_activities@).len()
                    > MAX_CODES,
            },
    {
        let own = find_activities(&self.event_log);
        let table = build_code_table(&own, &foreign_activities);
        proof {
            assert(vocabulary(own@, foreign_activities@) =~= joint_vocabulary(self.event_log, foreign_activities@));
        }
        match table {
            Ok(t) => {
                self.activity_to_pos = t.clone();
                Ok(t)
            },
            Err(e) => Err(e),
        }
    }

    /// One encryption of every code of the table, as `(code, ciphertext)` pairs.
    pub fn provide_sample_encryptions(&self) -> (r: Vec<(u16, u16)>)
        requires
            is_code_table(self.activity_to_pos@),
        ensures
            r.len() == self.activity_to_pos.len(),
            forall|c: int| 0 <= c < r.len() ==> #[trigger] r@[c] == (c as u16, c as u16),
    {
        let mut r: Vec<(u16, u16)> = Vec::new();
        let mut c: usize = 0;
        while c < self.activity_to_pos.len()
            invariant
                is_code_table(self.activity_to_pos@),
                0 <= c <= self.activity_to_pos.len(),
                r.len() == c,
                forall|k: int| 0 <= k < c ==> #[trigger] r@[k] == (k as u16, k as u16),
            decreases self.activity_to_pos.len() - c,
        {
            let code = c as u16;
            r.push((code, self.encrypt_activity(code)));
            c = c + 1;
        }
        r
    }

    /// Encodes and encrypts a trace's activities and timestamps.
    pub fn preprocess_trace_private_with_encryption(&self, activity_to_pos: &Vec<String>, trace: &Trace) -> (r:
        Result<(Vec<u16>, Vec<u64>), ProtocolError>)
        requires
            is_code_table(activity_to_pos@),
        ensures
            r is Ok <==> all_known(activity_to_pos@, *trace),
            r is Ok ==> encoded(activity_to_pos@, trace.activity_seq(), r->Ok_0.0@) && r->Ok_0.1@
                == trace.timestamp_seq(),
            r is Err ==> r->Err_0 == ProtocolError::UnknownActivity,
    {
        let mut activities: Vec<u16> = Vec::new();
        let mut timestamps: Vec<u64> = Vec::new();
        let mut k: usize = 0;
        while k < trace.events.len()
            invariant
                is_code_table(activity_to_pos@),
                0 <= k <= trace.events.len(),
                activities.len() == k,
                timestamps@ == trace.timestamp_seq().take(k as int),
                forall|m: int| 0 <= m < k ==> code_in(activity_to_pos@, trace.events@[m].activity@, #[trigger] activities@[m] as int),
            decreases trace.events.len() - k,
        {
            match code_of(activity_to_pos, &trace.events[k].activity) {
                Some(c) => {
                    activities.push(self.encrypt_activity(c));
                    timestamps.push(self.encrypt_timestamp(trace.events[k].timestamp));
                    proof {
                        assert(timestamps@ =~= trace.timestamp_seq().take(k + 1));
                    }
                },
                None => {
                    return Err(ProtocolError::UnknownActivity);
                },
            }
            k = k + 1;
        }
        proof {
            assert(timestamps@ =~= trace.timestamp_seq());
            assert forall|m: int| 0 <= m < trace.events.len() implies has_name(activity_to_pos@, #[trigger] trace.events@[m].activity@) by {
                assert(code_in(activity_to_pos@, trace.events@[m].activity@, activities@[m] as int));
            }
        }
        Ok((activities, timestamps))
    }

    /// Encodes and encrypts each case of `event_log` whose identifier is shared.
    pub fn compute_case_to_trace_with_encryption(
        &self,
        activity_to_pos: &Vec<String>,
        event_log: &EventLog,
        shared_case_ids: &Vec<String>,
    ) -> (r: Result<Vec<EncodedCase>, ProtocolError>)
        requires
            is_code_table(activity_to_pos@),
        ensures
            r is Ok <==> forall|k: int|
                0 <= k < selected(event_log.traces@, shared_case_ids@).len() ==> all_known(
                    activity_to_pos@,
                    #[trigger] selected(event_log.traces@, shared_case_ids@)[k],
                ),
            r is Ok ==> r->Ok_0.len() == selected(event_log.traces@, shared_case_ids@).len() && forall|k: int|
                0 <= k < r->Ok_0.len() ==> encodes_case(
                    activity_to_pos@,
                    selected(event_log.traces@, shared_case_ids@)[k],
                    #[trigger] r->Ok_0@[k],
                ),
            r is Err ==> r->Err_0 == ProtocolError::UnknownActivity,
    {
        let ghost traces = event_log.traces@;
        let mut result: Vec<EncodedCase> = Vec::new();
        let mut i: usize = 0;
        assert(traces.take(0) =~= Seq::<Trace>::empty());
        while i < event_log.traces.len()
            invariant
                is_code_table(activity_to_pos@),
                traces == event_log.traces@,
                0 <= i <= traces.len(),
                result.len() == selected(traces.take(i as int), shared_case_ids@).len(),
                forall|k: int|
                    0 <= k < result.len() ==> encodes_case(
                        activity_to_pos@,
                        selected(traces.take(i as int), shared_case_ids@)[k],
                        #[trigger] result@[k],
                    ),
                forall|k: int|
                    0 <= k < selected(traces.take(i as int), shared_case_ids@).len() ==> all_known(
                        activity_to_pos@,
                        #[trigger] selected(traces.take(i as int), shared_case_ids@)[k],
                    ),
            decreases traces.len() - i,
        {
            let trace = &event_log.traces[i];
            proof {
                assert(traces.take(i + 1).drop_last() =~= traces.take(i as int));
                assert(traces.take(i + 1).last() == traces[i as int]);
            }
            if contains_name(shared_case_ids, &trace.case_id) {
                match self.preprocess_trace_private_with_encryption(activity_to_pos, trace) {
                    Ok(p) => {
                        let (activities, timestamps) = p;
                        result.push((trace.case_id.clone(), activities, timestamps));
                    },
                    Err(e) => {
                        proof {
                            let sel = selected(traces.take(i + 1), shared_case_ids@);
                            assert(sel[sel.len() - 1] == traces[i as int]);
                            assert(!all_known(activity_to_pos@, sel[sel.len() - 1]));
                            lemma_selected_prefix(traces, shared_case_ids@, i + 1);
                            assert(selected(traces, shared_case_ids@)[sel.len() - 1] == sel[sel.len() - 1]);
                            assert(!all_known(activity_to_pos@, selected(traces, shared_case_ids@)[sel.len() - 1]));
                        }
                        return Err(e);
                    },
                }
            }
            i = i + 1;
        }
        assert(traces.take(i as int) =~= traces);
        Ok(result)
    }

    /// Encodes and encrypts the shared cases of its own log under its table.
    pub fn encrypt_all_data(&self, shared_case_ids: &Vec<String>) -> (r: Result<Vec<EncodedCase>, ProtocolError>)
        requires
            is_code_table(self.activity_to_pos@),
        ensures
            r is Ok <==> forall|k: int|
                0 <= k < selected(self.event_log.traces@, shared_case_ids@).len() ==> all_known(
                    self.activity_to_pos@,
                    #[trigger] selected(self.event_log.traces@, shared_case_ids@)[k],
                ),
            r is Ok ==> r->Ok_0.len() == selected(self.event_log.traces@, shared_case_ids@).len() && forall|k: int|
                0 <= k < r->Ok_0.len() ==> encodes_case(
                    self.activity_to_pos@,
                    selected(self.event_log.traces@, shared_case_ids@)[k],
                    #[trigger] r->Ok_0@[k],
                ),
            r is Err ==> r->Err_0 == ProtocolError::UnknownActivity,
    {
        self.compute_case_to_trace_with_encryption(&self.activity_to_pos, &self.event_log, shared_case_ids)
    }

    /// Builds a directly-follows graph from decrypted edges: every name of the
    /// table is an activity, and each edge counts once for the relation between
    /// the names of its codes, except those leaving the `end` sentinel.
    pub fn evaluate_decrypted_edges_to_dfg(&self, decrypted_edges: &Vec<Edge>) -> (r: DirectlyFollowsGraph)
        requires
            is_code_table(self.activity_to_pos@),
        ensures
            r.wf(),
            r.activities.len() == self.activity_to_pos.len(),
            forall|k: int|
                0 <= k < r.activities.len() ==> (#[trigger] r.activities@[k]).0@ == self.activity_to_pos@[k]@
                    && r.activities@[k].1 == 0,
            r.start_activities@.len() == 0,
            r.end_activities@.len() == 0,
            total_freq(r.relations()) <= decrypted_edges.len(),
            positive(r.relations()),
            forall|x: Seq<char>, y: Seq<char>|
                #[trigger] edge_freq(r.relations(), x, y) == decoded_count(self.activity_to_pos@, decrypted_edges@, x, y),
    {
        let table = &self.activity_to_pos;
        let ghost edges = decrypted_edges@;
        let mut result = DirectlyFollowsGraph::with_activities(table);
        let mut i: usize = 0;
        assert(edges.take(0) =~= Seq::<Edge>::empty());
        assert(usize::MAX <= u64::MAX);
        assert(edges.len() == decrypted_edges.len() as int);
        while i < decrypted_edges.len()
            invariant
                is_code_table(table@),
                *table == self.activity_to_pos,
                edges == decrypted_edges@,
                edges.len() <= u128::MAX,
                0 <= i <= edges.len(),
                result.wf(),
                result.activities.len() == table.len(),
                forall|k: int|
                    0 <= k < result.activities.len() ==> (#[trigger] result.activities@[k]).0@ == table@[k]@
                        && result.activities@[k].1 == 0,
                result.start_activities@.len() == 0,
                result.end_activities@.len() == 0,
                total_freq(result.relations()) <= i,
                positive(result.relations()),
                forall|x: Seq<char>, y: Seq<char>|
                    #[trigger] edge_freq(result.relations(), x, y) == decoded_count(table@, edges.take(i as int), x, y),
            decreases edges.len() - i,
        {
            let (from, to) = decrypted_edges[i];
            let ghost before = result.relations();
            proof {
                assert(edges.take(i + 1).drop_last() =~= edges.take(i as int));
                assert(edges.take(i + 1).last() == (from, to));
            }
            if from != END_CODE && (from as usize) < table.len() && (to as usize) < table.len() {
                let from_name = decode(table, from);
                let to_name = decode(table, to);
                result.add_df_relation(from_name, to_name, 1);
                proof {
                    assert forall|x: Seq<char>, y: Seq<char>|
                        #[trigger] edge_freq(result.relations(), x, y) == decoded_count(table@, edges.take(i + 1), x, y) by {
                        assert(edge_freq(result.relations(), x, y) == edge_freq(before, x, y) + if from_name@ == x
                            && to_name@ == y {
                            1int
                        } else {
                            0
                        });
                    }
                    assert(total_freq(result.relations()) == total_freq(before) + 1);
                }
            } else {
                proof {
                    assert forall|x: Seq<char>, y: Seq<char>|
                        #[trigger] edge_freq(result.relations(), x, y) == decoded_count(table@, edges.take(i + 1), x, y) by {
                        assert(edge_freq(result.relations(), x, y) == edge_freq(before, x, y));
                    }
                }
            }
            i = i + 1;
        }
        assert(edges.take(i as int) =~= edges);
        result
    }

    /// Builds a directly-follows graph from edges between names: every name of
    /// the table is an activity, each edge counts once for its relation, and
    /// the activity frequencies are then recounted from the relations.
    pub fn edges_to_dfg(&self, edges: &Vec<(String, String)>) -> (r: DirectlyFollowsGraph)
        requires
            is_code_table(self.activity_to_pos@),
        ensures
            r.wf(),
            r.activities.len() == self.activity_to_pos.len(),
            forall|k: int|
                0 <= k < r.activities.len() ==> (#[trigger] r.activities@[k]).0@ == self.activity_to_pos@[k]@
                    && r.activities@[k].1 == max_int(
                    in_sum(r.relations(), r.activities@[k].0@),
                    out_sum(r.relations(), r.activities@[k].0@),
                ),
            r.start_activities@.len() == 0,
            r.end_activities@.len() == 0,
            forall|x: Seq<char>, y: Seq<char>|
                #[trigger] edge_freq(r.relations(), x, y) == pair_count(edges@, x, y),
    {
        let ghost es = edges@;
        let mut result = DirectlyFollowsGraph::with_activities(&self.activity_to_pos);
        let mut i: usize = 0;
        assert(es.take(0) =~= Seq::<(String, String)>::empty());
        assert(usize::MAX <= u64::MAX);
        assert(es.len() == edges.len() as int);
        while i < edges.len()
            invariant
                es == edges@,
                es.len() <= u128::MAX,
                0 <= i <= es.len(),
                result.wf(),
                result.activities.len() == self.activity_to_pos.len(),
                forall|k: int|
                    0 <= k < result.activities.len() ==> (#[trigger] result.activities@[k]).0@
                        == self.activity_to_pos@[k]@,
                result.start_activities@.len() == 0,
                result.end_activities@.len() == 0,
                total_freq(result.relations()) == i,
                forall|x: Seq<char>, y: Seq<char>|
                    #[trigger] edge_freq(result.relations(), x, y) == pair_count(es.take(i as int), x, y),
            decreases es.len() - i,
        {
            let ghost before = result.relations();
            proof {
                assert(es.take(i + 1).drop_last() =~= es.take(i as int));
                assert(es.take(i + 1).last() == es[i as int]);
            }
            let from = edges[i].0.clone();
            let to = edges[i].1.clone();
            result.add_df_relation(from, to, 1);
            proof {
                assert forall|x: Seq<char>, y: Seq<char>|
                    #[trigger] edge_freq(result.relations(), x, y) == pair_count(es.take(i + 1), x, y) by {
                    assert(edge_freq(result.relations(), x, y) == edge_freq(before, x, y) + if es[i as int].0@ == x
                        && es[i as int].1@ == y {
                        1int
                    } else {
                        0
                    });
                }
                assert(total_freq(result.relations()) == total_freq(before) + 1);
            }
            i = i + 1;
        }
        assert(es.take(i as int) =~= es);
        recalculate_activity_counts(&mut result);
        result
    }

    /// Adds the edges of the private cases, those of its own cases that are not
    /// shared, at frequency one each, from `start` through every event to `end`.
    pub fn update_graph_with_private_cases(
        &self,
        dfg: &mut DirectlyFollowsGraph,
        own_case_ids: &Vec<String>,
        shared_case_ids: &Vec<String>,
    )
        requires
            old(dfg).wf(),
            total_freq(old(dfg).relations()) + private_edges(self.event_log.traces@, own_case_ids@, shared_case_ids@).len()
                <= u128::MAX,
        ensures
            final(dfg).wf(),
            final(dfg).activities == old(dfg).activities,
            final(dfg).start_activities == old(dfg).start_activities,
            final(dfg).end_activities == old(dfg).end_activities,
            positive(old(dfg).relations()) ==> positive(final(dfg).relations()),
            total_freq(final(dfg).relations()) == total_freq(old(dfg).relations()) + private_edges(
                self.event_log.traces@,
                own_case_ids@,
                shared_case_ids@,
            ).len(),
            forall|x: Seq<char>, y: Seq<char>|
                #[trigger] edge_freq(final(dfg).relations(), x, y) == edge_freq(old(dfg).relations(), x, y) + private_edges(
                    self.event_log.traces@,
                    own_case_ids@,
                    shared_case_ids@,
                ).to_multiset().count((x, y)),
    {
        broadcast use group_to_multiset_ensures, group_multiset_axioms;
        let ghost traces = self.event_log.traces@;
        let ghost own = own_case_ids@;
        let ghost shared = shared_case_ids@;
        let ghost base = old(dfg).relations();
        let mut i: usize = 0;
        assert(traces.take(0) =~= Seq::<Trace>::empty());
        while i < self.event_log.traces.len()
            invariant
                traces == self.event_log.traces@,
                own == own_case_ids@,
                shared == shared_case_ids@,
                base == old(dfg).relations(),
                0 <= i <= traces.len(),
                dfg.wf(),
                dfg.activities == old(dfg).activities,
                dfg.start_activities == old(dfg).start_activities,
                dfg.end_activities == old(dfg).end_activities,
                total_freq(base) + private_edges(traces, own, shared).len() <= u128::MAX,
                positive(base) ==> positive(dfg.relations()),
                total_freq(dfg.relations()) == total_freq(base) + private_edges(traces.take(i as int), own, shared).len(),
                forall|x: Seq<char>, y: Seq<char>|
                    #[trigger] edge_freq(dfg.relations(), x, y) == edge_freq(base, x, y) + private_edges(
                        traces.take(i as int),
                        own,
                        shared,
                    ).to_multiset().count((x, y)),
            decreases traces.len() - i,
        {
            let trace = &self.event_log.traces[i];
            let ghost prefix = private_edges(traces.take(i as int), own, shared);
            proof {
                assert(traces.take(i + 1).drop_last() =~= traces.take(i as int));
                assert(traces.take(i + 1).last() == traces[i as int]);
                lemma_private_edges_prefix(traces, own, shared, i + 1);
            }
            if contains_name(own_case_ids, &trace.case_id) && !contains_name(shared_case_ids, &trace.case_id)
                && trace.events.len() > 0 {
                let ghost s = trace.activity_seq();
                let ghost full = seq![start_name()] + s + seq![end_name()];
                let ghost whole = named_df_edges(s);
                let n = trace.events.len();
                let mut last = start_string();
                let mut k: usize = 0;
                assert(prefix + whole.take(0) =~= prefix);
                while k < n
                    invariant
                        traces == self.event_log.traces@,
                        base == old(dfg).relations(),
                        0 <= i < traces.len(),
                        *trace == traces[i as int],
                        s == trace.activity_seq(),
                        full == seq![start_name()] + s + seq![end_name()],
                        whole == named_df_edges(s),
                        n == trace.events.len(),
                        0 <= k <= n,
                        last@ == full[k as int],
                        dfg.wf(),
                        dfg.activities == old(dfg).activities,
                        dfg.start_activities == old(dfg).start_activities,
                        dfg.end_activities == old(dfg).end_activities,
                        total_freq(base) + prefix.len() + whole.len() <= u128::MAX,
                        positive(base) ==> positive(dfg.relations()),
                        total_freq(dfg.relations()) == total_freq(base) + prefix.len() + k,
                        forall|x: Seq<char>, y: Seq<char>|
                            #[trigger] edge_freq(dfg.relations(), x, y) == edge_freq(base, x, y) + (prefix
                                + whole.take(k as int)).to_multiset().count((x, y)),
                    decreases n - k,
                {
                    let next = trace.events[k].activity.clone();
                    let ghost before = dfg.relations();
                    let ghost e = (last@, next@);
                    assert(forall|x: Seq<char>, y: Seq<char>|
                        #[trigger] edge_freq(before, x, y) == edge_freq(base, x, y) + (prefix + whole.take(
                            k as int,
                        )).to_multiset().count((x, y)));
                    dfg.add_df_relation(last, next.clone(), 1);
                    proof {
                        assert(whole[k as int] == e);
                        assert(prefix + whole.take(k + 1) =~= (prefix + whole.take(k as int)).push(e));
                        assert forall|x: Seq<char>, y: Seq<char>|
                            #[trigger] edge_freq(dfg.relations(), x, y) == edge_freq(base, x, y) + (prefix + whole.take(
                                k + 1,
                            )).to_multiset().count((x, y)) by {
                            assert(edge_freq(dfg.relations(), x, y) == edge_freq(before, x, y) + if e.0 == x && e.1 == y {
                                1int
                            } else {
                                0
                            });
                            let a = prefix + whole.take(k as int);
                            assert(edge_freq(before, x, y) == edge_freq(base, x, y) + a.to_multiset().count((x, y)));
                            to_multiset_build(a, e);
                            assert(a.push(e).to_multiset().count((x, y)) == a.to_multiset().count((x, y)) + if e == (x, y) {
                                1int
                            } else {
                                0
                            });
                        }
                        assert(total_freq(dfg.relations()) == total_freq(before) + 1);
                    }
                    last = next;
                    k = k + 1;
                }
                let ghost before = dfg.relations();
                let ghost e = (last@, end_name());
                assert(forall|x: Seq<char>, y: Seq<char>|
                    #[trigger] edge_freq(before, x, y) == edge_freq(base, x, y) + (prefix + whole.take(
                        n as int,
                    )).to_multiset().count((x, y)));
                dfg.add_df_relation(last, end_string(), 1);
                proof {
                    assert(whole[n as int] == e);
                    assert(whole.take(n + 1) =~= whole);
                    assert(prefix + whole =~= (prefix + whole.take(n as int)).push(e));
                    assert(private_edges(traces.take(i + 1), own, shared) == prefix + whole);
                    assert forall|x: Seq<char>, y: Seq<char>|
                        #[trigger] edge_freq(dfg.relations(), x, y) == edge_freq(base, x, y) + (prefix
                            + whole).to_multiset().count((x, y)) by {
                        assert(edge_freq(dfg.relations(), x, y) == edge_freq(before, x, y) + if e.0 == x && e.1 == y {
                            1int
                        } else {
                            0
                        });
                        let a = prefix + whole.take(n as int);
                        assert(edge_freq(before, x, y) == edge_freq(base, x, y) + a.to_multiset().count((x, y)));
                        to_multiset_build(a, e);
                        assert(a.push(e).to_multiset().count((x, y)) == a.to_multiset().count((x, y)) + if e == (x, y) {
                            1int
                        } else {
                            0
                        });
                    }
                    assert(total_freq(dfg.relations()) == total_freq(before) + 1);
                }
            } else {
                proof {
                    assert(private_edges(traces.take(i + 1), own, shared) =~= prefix);
                }
            }
            i = i + 1;
        }
        assert(traces.take(i as int) =~= traces);
    }

    /// Decrypts the encrypted edges that the protocol computed.
    pub fn decrypt_edges(&self, secret_edges: &Vec<Edge>) -> (r: Vec<Edge>)
        ensures
            r@ == secret_edges@,
    {
        let mut r: Vec<Edge> = Vec::new();
        let mut i: usize = 0;
        while i < secret_edges.len()
            invariant
                0 <= i <= secret_edges.len(),
                r@ == secret_edges@.take(i as int),
            decreases secret_edges.len() - i,
        {
            let (from, to) = secret_edges[i];
            r.push((self.decrypt_activity(from), self.decrypt_activity(to)));
            proof {
                assert(r@ =~= secret_edges@.take(i + 1));
            }
            i = i + 1;
        }
        assert(secret_edges@.take(i as int) =~= secret_edges@);
        r
    }
}

/// Every selected trace is a trace of the log.
pub proof fn lemma_selected_member(traces: Seq<Trace>, shared: Seq<String>)
    ensures
        forall|k: int|
            0 <= k < selected(traces, shared).len() ==> exists|i: int|
                0 <= i < traces.len() && traces[i] == #[trigger] selected(traces, shared)[k],
    decreases traces.len(),
{
    if traces.len() > 0 {
        let rest = traces.drop_last();
        lemma_selected_member(rest, shared);
        assert forall|k: int| 0 <= k < selected(traces, shared).len() implies exists|i: int|
            0 <= i < traces.len() && traces[i] == #[trigger] selected(traces, shared)[k] by {
            if k < selected(rest, shared).len() {
                assert(selected(traces, shared)[k] == selected(rest, shared)[k]);
                let i = choose|i: int| 0 <= i < rest.len() && rest[i] == #[trigger] selected(rest, shared)[k];
                assert(traces[i] == rest[i]);
            } else {
                assert(selected(traces, shared)[k] == traces.last());
                assert(traces[traces.len() - 1] == traces.last());
            }
        }
    }
}

/// The selection of a prefix is a prefix of the selection.
proof fn lemma_selected_prefix(traces: Seq<Trace>, shared: Seq<String>, i: int)
    requires
        0 <= i <= traces.len(),
    ensures
        selected(traces.take(i), shared).len() <= selected(traces, shared).len(),
        forall|k: int|
            0 <= k < selected(traces.take(i), shared).len() ==> #[trigger] selected(traces.take(i), shared)[k]
                == selected(traces, shared)[k],
    decreases traces.len() - i,
{
    if i < traces.len() {
        lemma_selected_prefix(traces, shared, i + 1);
        assert(traces.take(i + 1).drop_last() =~= traces.take(i));
        let s0 = selected(traces.take(i), shared);
        let s1 = selected(traces.take(i + 1), shared);
        assert(s1 == if has_name(shared, traces.take(i + 1).last().case_id@) {
            s0.push(traces.take(i + 1).last())
        } else {
            s0
        });
        assert forall|k: int| 0 <= k < s0.len() implies #[trigger] s0[k] == selected(traces, shared)[k] by {
            assert(s1[k] == s0[k]);
        }
    } else {
        assert(traces.take(i) =~= traces);
    }
}


/// The case identifiers of a sequence of encoded cases.
pub open spec fn case_names(cases: Seq<EncodedCase>) -> Seq<Seq<char>> {
    cases.map_values(|c: EncodedCase| c.0@)
}

/// Number of edges that the merge hands back for the cases named in `names`.
pub open spec fn secret_edges_count(foreign: Seq<EncodedCase>, own: Seq<EncodedCase>, names: Seq<String>) -> int
    decreases names.len(),
{
    if names.len() == 0 {
        0
    } else {
        secret_edges_count(foreign, own, names.drop_last()) + case_from(foreign, names.last()@, 0).0.len()
            + case_from(own, names.last()@, 0).0.len() + 1
    }
}

/// Codes and timestamps of the first case named `name` in `cases` from position
/// `i` on; empty ones where there is none.
pub open spec fn case_from(cases: Seq<EncodedCase>, name: Seq<char>, i: int) -> (Seq<u16>, Seq<u64>)
    decreases cases.len() - i,
{
    if i < 0 || i >= cases.len() {
        (Seq::empty(), Seq::empty())
    } else if cases[i].0@ == name {
        (cases[i].1@, cases[i].2@)
    } else {
        case_from(cases, name, i + 1)
    }
}

/// The sample encryption of `code`: that of its first entry from position `i` on.
pub open spec fn sample_from(samples: Seq<(u16, u16)>, code: u16, i: int) -> Option<u16>
    decreases samples.len() - i,
{
    if i < 0 || i >= samples.len() {
        None
    } else if samples[i].0 == code {
        Some(samples[i].1)
    } else {
        sample_from(samples, code, i + 1)
    }
}

/// Each case carries as many timestamps as activities.
pub open spec fn cases_wf(cases: Seq<EncodedCase>) -> bool {
    forall|k: int| 0 <= k < cases.len() ==> (#[trigger] cases[k]).1@.len() == cases[k].2@.len()
}

/// Each case's timestamps are in order.
pub open spec fn cases_sorted(cases: Seq<EncodedCase>) -> bool {
    forall|k: int| 0 <= k < cases.len() ==> sorted((#[trigger] cases[k]).2@)
}

/// Edges of the cases named in `names`, one case after the other.
pub open spec fn window_edges(
    foreign: Seq<EncodedCase>,
    own: Seq<EncodedCase>,
    names: Seq<String>,
    start: u16,
    end: u16,
) -> Seq<Edge>
    decreases names.len(),
{
    if names.len() == 0 {
        Seq::empty()
    } else {
        let f = case_from(foreign, names.last()@, 0);
        let o = case_from(own, names.last()@, 0);
        window_edges(foreign, own, names.drop_last(), start, end) + case_edges(f.0, f.1, o.0, o.1, start, end)
    }
}

/// Timestamp comparisons that the merge spends on the cases named in `names`.
pub open spec fn window_timestamp_ops(foreign: Seq<EncodedCase>, own: Seq<EncodedCase>, names: Seq<String>) -> int
    decreases names.len(),
{
    if names.len() == 0 {
        0
    } else {
        let f = case_from(foreign, names.last()@, 0);
        let o = case_from(own, names.last()@, 0);
        window_timestamp_ops(foreign, own, names.drop_last()) + 2 * f.0.len() * o.0.len()
    }
}

/// Number of edges that the merge hands back for the cases named in
/// `names`: per case, its events on both sides plus one, or none if it has
/// no event.
pub open spec fn window_edge_count(foreign: Seq<EncodedCase>, own: Seq<EncodedCase>, names: Seq<String>) -> int
    decreases names.len(),
{
    if names.len() == 0 {
        0
    } else {
        let f = case_from(foreign, names.last()@, 0);
        let o = case_from(own, names.last()@, 0);
        window_edge_count(foreign, own, names.drop_last()) + if f.0.len() + o.0.len() == 0 {
            0
        } else {
            f.0.len() + o.0.len() + 1
        }
    }
}

/// Selections that the merge spends on the cases named in `names`.
pub open spec fn window_selections(foreign: Seq<EncodedCase>, own: Seq<EncodedCase>, names: Seq<String>) -> int
    decreases names.len(),
{
    if names.len() == 0 {
        0
    } else {
        let f = case_from(foreign, names.last()@, 0);
        let o = case_from(own, names.last()@, 0);
        window_selections(foreign, own, names.drop_last()) + merge_selections(f.0.len() as int, o.0.len() as int)
    }
}

/// The costs of a case are never negative.
pub proof fn lemma_case_ops_nonneg(p: int, q: int)
    requires
        p >= 0,
        q >= 0,
    ensures
        2 * p * q >= 0,
        merge_selections(p, q) >= 0,
{
    assert(2 * p * q >= 0) by (nonlinear_arith)
        requires
            p >= 0,
            q >= 0,
    ;
    if p > 0 && q > 0 {
        assert(2 * q * (p - 1) >= 0 && 2 * p * (q - 1) >= 0) by (nonlinear_arith)
            requires
                p > 0,
                q > 0,
        ;
    }
}

/// The merge's costs over the cases up to `hi` are those up to `lo` plus
/// those from `lo` to `hi`, and none is negative.
pub proof fn lemma_window_ops_concat(foreign: Seq<EncodedCase>, own: Seq<EncodedCase>, names: Seq<String>, lo: int, hi: int)
    requires
        0 <= lo <= hi <= names.len(),
    ensures
        window_timestamp_ops(foreign, own, names.subrange(0, hi)) == window_timestamp_ops(
            foreign,
            own,
            names.subrange(0, lo),
        ) + window_timestamp_ops(foreign, own, names.subrange(lo, hi)),
        window_selections(foreign, own, names.subrange(0, hi)) == window_selections(
            foreign,
            own,
            names.subrange(0, lo),
        ) + window_selections(foreign, own, names.subrange(lo, hi)),
        window_timestamp_ops(foreign, own, names.subrange(lo, hi)) >= 0,
        window_selections(foreign, own, names.subrange(lo, hi)) >= 0,
    decreases hi - lo,
{
    if hi == lo {
        assert(names.subrange(lo, hi) =~= Seq::<String>::empty());
    } else {
        lemma_window_ops_concat(foreign, own, names, lo, hi - 1);
        assert(names.subrange(0, hi).drop_last() =~= names.subrange(0, hi - 1));
        assert(names.subrange(lo, hi).drop_last() =~= names.subrange(lo, hi - 1));
        assert(names.subrange(0, hi).last() == names[hi - 1]);
        assert(names.subrange(lo, hi).last() == names[hi - 1]);
        let f = case_from(foreign, names[hi - 1]@, 0);
        let o = case_from(own, names[hi - 1]@, 0);
        lemma_case_ops_nonneg(f.0.len() as int, o.0.len() as int);
    }
}

/// A code clamped into the table: codes from `k` on become the `end` code.
pub open spec fn clamped(code: u16, k: int) -> u16 {
    if code < k {
        code
    } else {
        END_CODE
    }
}

/// `c` is trace `t` encoded through the sample encryptions.
pub open spec fn encodes_with_samples(table: Seq<String>, samples: Seq<(u16, u16)>, t: Trace, c: (Seq<u16>, Seq<u64>)) -> bool {
    &&& c.0.len() == t.events.len()
    &&& c.1 == t.timestamp_seq()
    &&& forall|m: int|
        0 <= m < t.events.len() ==> has_name(table, t.events@[m].activity@) && sample_from(
            samples,
            code_for(table, t.events@[m].activity@) as u16,
            0,
        ) == Some(#[trigger] c.0[m])
}

proof fn lemma_case_from_wf(cases: Seq<EncodedCase>, name: Seq<char>, i: int)
    requires
        cases_wf(cases),
        0 <= i,
    ensures
        case_from(cases, name, i).0.len() == case_from(cases, name, i).1.len(),
        cases_sorted(cases) ==> sorted(case_from(cases, name, i).1),
    decreases cases.len() - i,
{
    if i < cases.len() && cases[i].0@ != name {
        lemma_case_from_wf(cases, name, i + 1);
    }
}

/// Position of the first case named `name`.
pub fn find_case(cases: &Vec<EncodedCase>, name: &String) -> (r: Option<usize>)
    ensures
        match r {
            Some(i) => i < cases.len() && case_from(cases@, name@, 0) == (cases@[i as int].1@, cases@[i as int].2@),
            None => case_from(cases@, name@, 0) == (Seq::<u16>::empty(), Seq::<u64>::empty()),
        },
{
    let mut i: usize = 0;
    while i < cases.len()
        invariant
            0 <= i <= cases.len(),
            case_from(cases@, name@, 0) == case_from(cases@, name@, i as int),
        decreases cases.len() - i,
    {
        if cases[i].0 == *name {
            return Some(i);
        }
        i = i + 1;
    }
    None
}

/// The sample encryption of `code`, if the samples hold one.
pub fn sample_for(samples: &Vec<(u16, u16)>, code: u16) -> (r: Option<u16>)
    ensures
        r == sample_from(samples@, code, 0),
{
    let mut i: usize = 0;
    while i < samples.len()
        invariant
            0 <= i <= samples.len(),
            sample_from(samples@, code, 0) == sample_from(samples@, code, i as int),
        decreases samples.len() - i,
    {
        if samples[i].0 == code {
            return Some(samples[i].1);
        }
        i = i + 1;
    }
    None
}

fn copy_timestamps(ts: &Vec<u64>) -> (r: Vec<u64>)
    ensures
        r@ == ts@,
{
    let mut r: Vec<u64> = Vec::new();
    let mut i: usize = 0;
    while i < ts.len()
        invariant
            0 <= i <= ts.len(),
            r@ == ts@.take(i as int),
        decreases ts.len() - i,
    {
        r.push(ts[i]);
        proof {
            assert(r@ =~= ts@.take(i + 1));
        }
        i = i + 1;
    }
    assert(ts@.take(i as int) =~= ts@);
    r
}

/// Organization B, which holds the evaluation key.
pub struct PublicKeyOrganization {
    pub event_log: EventLog,
    pub activity_to_pos: Vec<String>,
    pub own_case_to_trace: Vec<EncodedCase>,
    pub foreign_case_to_trace: Vec<EncodedCase>,
    pub start: Option<u16>,
    pub end: Option<u16>,
    pub all_case_names: Vec<String>,
    pub true_val: bool,
}

impl PublicKeyOrganization {
    /// A party over `event_log`, given A's encryption of `true`.
    pub fn new(event_log: EventLog, true_val: bool) -> (r: Self)
        ensures
            r.event_log == event_log,
            r.true_val == true_val,
            r.activity_to_pos@.len() == 0,
            r.own_case_to_trace@.len() == 0,
            r.foreign_case_to_trace@.len() == 0,
            r.start is None,
            r.end is None,
            r.all_case_names@.len() == 0,
    {
        PublicKeyOrganization {
            event_log,
            activity_to_pos: Vec::new(),
            own_case_to_trace: Vec::new(),
            foreign_case_to_trace: Vec::new(),
            start: None,
            end: None,
            all_case_names: Vec::new(),
            true_val,
        }
    }

    /// Number of cases that the merge visits.
    pub fn get_cases_len(&self) -> (r: usize)
        ensures
            r == self.all_case_names.len(),
    {
        self.all_case_names.len()
    }

    /// The activities of its own log, each once.
    pub fn find_activities(&self) -> (r: Vec<String>)
        ensures
            distinct_names(r@),
            forall|x: Seq<char>| #[trigger] has_name(r@, x) <==> self.event_log.has_activity(x),
            views(r@) == first_appearances(activities_in_order(self.event_log.traces@)),
    {
        find_activities(&self.event_log)
    }

    /// The case identifiers of its own log, in its order.
    pub fn get_all_case_ids(&self) -> (r: Vec<String>)
        ensures
            views(r@) == self.event_log.case_ids(),
    {
        self.event_log.case_id_list()
    }

    /// Keeps the agreed code table and takes the sentinels' encryptions from the
    /// samples; fails where the samples lack the code of either sentinel.
    pub fn set_activity_to_pos(&mut self, activity_to_pos: Vec<String>, sample_encryptions: &Vec<(u16, u16)>) -> (r:
        Result<(), ProtocolError>)
        ensures
            r is Ok <==> (sample_from(sample_encryptions@, START_CODE, 0) is Some && sample_from(
                sample_encryptions@,
                END_CODE,
                0,
            ) is Some),
            r is Ok ==> final(self).activity_to_pos == activity_to_pos && final(self).start == sample_from(
                sample_encryptions@,
                START_CODE,
                0,
            ) && final(self).end == sample_from(sample_encryptions@, END_CODE, 0),
            r is Err ==> r->Err_0 == ProtocolError::MalformedSamples && *final(self) == *old(self),
            final(self).event_log == old(self).event_log,
            final(self).own_case_to_trace == old(self).own_case_to_trace,
            final(self).foreign_case_to_trace == old(self).foreign_case_to_trace,
            final(self).all_case_names == old(self).all_case_names,
            final(self).true_val == old(self).true_val,
    {
        let start = sample_for(sample_encryptions, START_CODE);
        let end = sample_for(sample_encryptions, END_CODE);
        if start.is_none() || end.is_none() {
            return Err(ProtocolError::MalformedSamples);
        }
        self.activity_to_pos = activity_to_pos;
        self.start = start;
        self.end = end;
        Ok(())
    }

    /// Checks A's sample encryptions: with `K` entries, their codes must be
    /// distinct and below `K`. Then every ciphertext that does not decrypt to
    /// its own code is replaced by zero.
    pub fn sanitize_sample_encryptions(&self, sample_encryptions: &mut Vec<(u16, u16)>) -> (r: Result<(), ProtocolError>)
        ensures
            r is Ok <==> (forall|k: int|
                0 <= k < old(sample_encryptions).len() ==> ((#[trigger] old(sample_encryptions)@[k]).0 as int) < old(
                    sample_encryptions,
                ).len()) && (forall|k: int, m: int|
                0 <= k < m < old(sample_encryptions).len() ==> old(sample_encryptions)@[k].0 != old(
                    sample_encryptions,
                )@[m].0),
            r is Err ==> r->Err_0 == ProtocolError::MalformedSamples && final(sample_encryptions)@ == old(
                sample_encryptions,
            )@,
            r is Ok ==> final(sample_encryptions).len() == old(sample_encryptions).len() && forall|k: int|
                0 <= k < old(sample_encryptions).len() ==> #[trigger] final(sample_encryptions)@[k] == (
                    old(sample_encryptions)@[k].0,
                    if old(sample_encryptions)@[k].1 == old(sample_encryptions)@[k].0 {
                        old(sample_encryptions)@[k].1
                    } else {
                        0
                    },
                ),
    {
        let n = sample_encryptions.len();
        let mut i: usize = 0;
        while i < n
            invariant
                n == sample_encryptions.len(),
                *sample_encryptions == *old(sample_encryptions),
                0 <= i <= n,
                forall|k: int| 0 <= k < i ==> ((#[trigger] sample_encryptions@[k]).0 as int) < n,
                forall|k: int, m: int| 0 <= k < m < n && k < i ==> sample_encryptions@[k].0 != sample_encryptions@[m].0,
            decreases n - i,
        {
            if sample_encryptions[i].0 as usize >= n {
                return Err(ProtocolError::MalformedSamples);
            }
            let mut j: usize = i + 1;
            while j < n
                invariant
                    n == sample_encryptions.len(),
                    *sample_encryptions == *old(sample_encryptions),
                    0 <= i < j <= n,
                    forall|m: int| i < m < j ==> sample_encryptions@[i as int].0 != #[trigger] sample_encryptions@[m].0,
                decreases n - j,
            {
                if sample_encryptions[i].0 == sample_encryptions[j].0 {
                    return Err(ProtocolError::MalformedSamples);
                }
                j = j + 1;
            }
            i = i + 1;
        }
        let mut k: usize = 0;
        while k < n
            invariant
                n == sample_encryptions.len(),
                n == old(sample_encryptions).len(),
                0 <= k <= n,
                forall|m: int| k <= m < n ==> #[trigger] sample_encryptions@[m] == old(sample_encryptions)@[m],
                forall|m: int|
                    0 <= m < k ==> #[trigger] sample_encryptions@[m] == (
                        old(sample_encryptions)@[m].0,
                        if old(sample_encryptions)@[m].1 == old(sample_encryptions)@[m].0 {
                            old(sample_encryptions)@[m].1
                        } else {
                            0
                        },
                    ),
            decreases n - k,
        {
            let (code, ciphertext) = sample_encryptions[k];
            if ciphertext != code {
                sample_encryptions.set(k, (code, 0));
            }
            k = k + 1;
        }
        Ok(())
    }

    /// For each of A's encrypted case-identifier hashes, in A's order, its
    /// position and an encrypted flag telling whether B holds that case.
    pub fn find_shared_case_ids(&self, foreign_case_ids: &Vec<u64>, counts: &mut OperationCounts) -> (r: Vec<(usize, bool)>)
        ensures
            r.len() == foreign_case_ids.len(),
            forall|i: int|
                0 <= i < r.len() ==> #[trigger] r@[i] == (i as usize, if hashes_of(
                    self.event_log.case_id_list_spec(),
                ).contains(foreign_case_ids@[i]) {
                    self.true_val
                } else {
                    !self.true_val
                }),
            final(counts).timestamp_comparisons == old(counts).timestamp_comparisons,
            final(counts).case_id_comparisons == bumped(
                old(counts).case_id_comparisons,
                foreign_case_ids.len() * self.event_log.traces.len(),
            ),
            final(counts).selections == bumped(
                old(counts).selections,
                foreign_case_ids.len() * (self.event_log.traces.len() + 1),
            ),
    {
        let own_ids = self.get_all_case_ids();
        let own_hashes = hash_all_case_ids(&own_ids);
        proof {
            assert(views(own_ids@).len() == own_ids@.len());
            assert(own_ids@.len() == self.event_log.traces@.len());
            assert forall|k: int| 0 <= k < own_ids@.len() implies hashes_of(own_ids@)[k] == hashes_of(
                self.event_log.case_id_list_spec(),
            )[k] by {
                assert(views(own_ids@)[k] == self.event_log.case_ids()[k]);
                assert(views(own_ids@)[k] == own_ids@[k]@);
                assert(self.event_log.case_ids()[k] == self.event_log.traces@[k].case_id@);
                assert(self.event_log.case_id_list_spec()[k] == self.event_log.traces@[k].case_id);
            }
            assert(hashes_of(own_ids@) =~= hashes_of(self.event_log.case_id_list_spec()));
        }
        let mut r: Vec<(usize, bool)> = Vec::new();
        let mut i: usize = 0;
        assert(own_hashes@.len() == own_ids@.len());
        while i < foreign_case_ids.len()
            invariant
                0 <= i <= foreign_case_ids.len(),
                own_hashes@ == hashes_of(self.event_log.case_id_list_spec()),
                r.len() == i,
                forall|k: int|
                    0 <= k < i ==> #[trigger] r@[k] == (k as usize, if own_hashes@.contains(foreign_case_ids@[k]) {
                        self.true_val
                    } else {
                        !self.true_val
                    }),
                own_hashes.len() == self.event_log.traces.len(),
                counts.timestamp_comparisons == old(counts).timestamp_comparisons,
                counts.case_id_comparisons == bumped(old(counts).case_id_comparisons, i * own_hashes.len()),
                counts.selections == bumped(old(counts).selections, i * (own_hashes.len() + 1)),
            decreases foreign_case_ids.len() - i,
        {
            let matched = has_matching_case_id(foreign_case_ids[i], &own_hashes, self.true_val, counts);
            proof {
                let m = own_hashes.len() as int;
                lemma_bumped_twice(old(counts).case_id_comparisons, i * m, m);
                lemma_bumped_twice(old(counts).selections, i * (m + 1), m + 1);
                assert((i + 1) * m == i * m + m) by (nonlinear_arith);
                assert((i + 1) * (m + 1) == i * (m + 1) + (m + 1)) by (nonlinear_arith);
                assert(i * m >= 0) by (nonlinear_arith)
                    requires
                        m >= 0,
                ;
                assert(i * (m + 1) >= 0) by (nonlinear_arith)
                    requires
                        m >= 0,
                ;
            }
            r.push((i, matched));
            i = i + 1;
        }
        r
    }

    /// Encodes its own trace through A's sample encryptions; timestamps stay
    /// in the clear.
    pub fn preprocess_trace_using_sample_encryption(
        &self,
        activity_to_pos: &Vec<String>,
        trace: &Trace,
        sample_encryptions: &Vec<(u16, u16)>,
    ) -> (r: Result<(Vec<u16>, Vec<u64>), ProtocolError>)
        requires
            is_code_table(activity_to_pos@),
        ensures
            r is Ok <==> sampled_trace(activity_to_pos@, sample_encryptions@, *trace),
            r is Ok ==> encodes_with_samples(activity_to_pos@, sample_encryptions@, *trace, (r->Ok_0.0@, r->Ok_0.1@)),
            r matches Err(ProtocolError::UnknownActivity) ==> exists|m: int|
                0 <= m < trace.events.len() && !has_name(activity_to_pos@, #[trigger] trace.events@[m].activity@),
            r matches Err(ProtocolError::MalformedSamples) ==> exists|m: int, c: int|
                0 <= m < trace.events.len() && #[trigger] code_in(activity_to_pos@, trace.events@[m].activity@, c)
                    && sample_from(sample_encryptions@, c as u16, 0) is None,
            r is Err ==> r->Err_0 != ProtocolError::TooManyActivities,
    {
        let mut activities: Vec<u16> = Vec::new();
        let mut timestamps: Vec<u64> = Vec::new();
        let mut k: usize = 0;
        let ghost mut codes: Seq<int> = Seq::empty();
        while k < trace.events.len()
            invariant
                is_code_table(activity_to_pos@),
                0 <= k <= trace.events.len(),
                activities.len() == k,
                timestamps@ == trace.timestamp_seq().take(k as int),
                codes.len() == k,
                forall|m: int|
                    0 <= m < k ==> code_in(activity_to_pos@, trace.events@[m].activity@, #[trigger] codes[m])
                        && sample_from(sample_encryptions@, codes[m] as u16, 0) == Some(activities@[m]),
            decreases trace.events.len() - k,
        {
            match code_of(activity_to_pos, &trace.events[k].activity) {
                Some(c) => {
                    let ghost before = activities@;
                    match sample_for(sample_encryptions, c) {
                        Some(e) => {
                            activities.push(e);
                            timestamps.push(trace.events[k].timestamp);
                            proof {
                                assert(timestamps@ =~= trace.timestamp_seq().take(k + 1));
                                codes = codes.push(c as int);
                                assert forall|m: int| 0 <= m < k + 1 implies code_in(activity_to_pos@, trace.events@[m].activity@, #[trigger] codes[m])
                                    && sample_from(sample_encryptions@, codes[m] as u16, 0) == Some(activities@[m]) by {
                                    if m < k {
                                        assert(activities@[m] == before[m]);
                                    }
                                }
                            }
                        },
                        None => {
                            proof {
                                assert(code_in(activity_to_pos@, trace.events@[k as int].activity@, c as int));
                                lemma_code_unique(activity_to_pos@, trace.events@[k as int].activity@, c as int);
                                assert(code_for(activity_to_pos@, trace.events@[k as int].activity@) == c as int);
                            }
                            return Err(ProtocolError::MalformedSamples);
                        },
                    }
                },
                None => {
                    return Err(ProtocolError::UnknownActivity);
                },
            }
            k = k + 1;
        }
        assert(timestamps@ =~= trace.timestamp_seq());
        proof {
            assert forall|m: int| 0 <= m < trace.events.len() implies code_for(activity_to_pos@, trace.events@[m].activity@)
                == #[trigger] codes[m] by {
                lemma_code_unique(activity_to_pos@, trace.events@[m].activity@, codes[m]);
            }
            assert forall|m: int| 0 <= m < trace.events.len() implies has_name(activity_to_pos@, #[trigger] trace.events@[m].activity@)
                && sample_from(sample_encryptions@, code_for(activity_to_pos@, trace.events@[m].activity@) as u16, 0)
                == Some(activities@[m]) by {
                assert(code_in(activity_to_pos@, trace.events@[m].activity@, codes[m]));
                assert(activity_to_pos@[codes[m]]@ == trace.events@[m].activity@);
                assert(code_for(activity_to_pos@, trace.events@[m].activity@) == codes[m]);
            }
            assert(sampled_trace(activity_to_pos@, sample_encryptions@, *trace));
        }
        Ok((activities, timestamps))
    }

    /// Encodes each case of `event_log` through the sample encryptions.
    pub fn compute_case_to_trace_using_sample_encryption(
        &self,
        activity_to_pos: &Vec<String>,
        event_log: &EventLog,
        sample_encryptions: &Vec<(u16, u16)>,
    ) -> (r: Result<Vec<EncodedCase>, ProtocolError>)
        requires
            is_code_table(activity_to_pos@),
        ensures
            r is Ok <==> forall|i: int|
                0 <= i < event_log.traces.len() ==> sampled_trace(
                    activity_to_pos@,
                    sample_encryptions@,
                    #[trigger] event_log.traces@[i],
                ),
            r is Ok ==> r->Ok_0.len() == event_log.traces.len() && forall|k: int|
                0 <= k < r->Ok_0.len() ==> (#[trigger] r->Ok_0@[k]).0@ == event_log.traces@[k].case_id@
                    && encodes_with_samples(
                    activity_to_pos@,
                    sample_encryptions@,
                    event_log.traces@[k],
                    (r->Ok_0@[k].1@, r->Ok_0@[k].2@),
                ),
            r is Err ==> r->Err_0 != ProtocolError::TooManyActivities,
    {
        let mut result: Vec<EncodedCase> = Vec::new();
        let mut i: usize = 0;
        while i < event_log.traces.len()
            invariant
                is_code_table(activity_to_pos@),
                0 <= i <= event_log.traces.len(),
                result.len() == i,
                forall|k: int|
                    0 <= k < i ==> (#[trigger] result@[k]).0@ == event_log.traces@[k].case_id@ && encodes_with_samples(
                        activity_to_pos@,
                        sample_encryptions@,
                        event_log.traces@[k],
                        (result@[k].1@, result@[k].2@),
                    ),
                forall|k: int|
                    0 <= k < i ==> sampled_trace(activity_to_pos@, sample_encryptions@, #[trigger] event_log.traces@[k]),
            decreases event_log.traces.len() - i,
        {
            let trace = &event_log.traces[i];
            match self.preprocess_trace_using_sample_encryption(activity_to_pos, trace, sample_encryptions) {
                Ok(p) => {
                    let (activities, timestamps) = p;
                    result.push((trace.case_id.clone(), activities, timestamps));
                },
                Err(e) => {
                    return Err(e);
                },
            }
            i = i + 1;
        }
        Ok(result)
    }

    /// Encodes its whole log through the sample encryptions and keeps it.
    pub fn encrypt_all_data(&mut self, sample_encryptions: &Vec<(u16, u16)>) -> (r: Result<(), ProtocolError>)
        requires
            is_code_table(old(self).activity_to_pos@),
        ensures
            r is Ok <==> forall|i: int|
                0 <= i < old(self).event_log.traces.len() ==> sampled_trace(
                    old(self).activity_to_pos@,
                    sample_encryptions@,
                    #[trigger] old(self).event_log.traces@[i],
                ),
            r is Ok ==> final(self).own_case_to_trace.len() == old(self).event_log.traces.len() && forall|k: int|
                0 <= k < final(self).own_case_to_trace.len() ==> (#[trigger] final(self).own_case_to_trace@[k]).0@
                    == old(self).event_log.traces@[k].case_id@ && encodes_with_samples(
                    old(self).activity_to_pos@,
                    sample_encryptions@,
                    old(self).event_log.traces@[k],
                    (final(self).own_case_to_trace@[k].1@, final(self).own_case_to_trace@[k].2@),
                ),
            r is Err ==> r->Err_0 != ProtocolError::TooManyActivities && final(self).own_case_to_trace
                == old(self).own_case_to_trace,
            final(self).event_log == old(self).event_log,
            final(self).activity_to_pos == old(self).activity_to_pos,
            final(self).foreign_case_to_trace == old(self).foreign_case_to_trace,
            final(self).start == old(self).start,
            final(self).end == old(self).end,
            final(self).all_case_names == old(self).all_case_names,
            final(self).true_val == old(self).true_val,
    {
        let own = self.compute_case_to_trace_using_sample_encryption(
            &self.activity_to_pos,
            &self.event_log,
            sample_encryptions,
        );
        match own {
            Ok(cases) => {
                self.own_case_to_trace = cases;
                Ok(())
            },
            Err(e) => Err(e),
        }
    }

    /// Keeps A's encrypted cases, with every activity code outside the table
    /// clamped to the `end` code.
    pub fn set_foreign_case_to_trace(&mut self, foreign_case_to_trace: Vec<EncodedCase>)
        ensures
            final(self).foreign_case_to_trace.len() == foreign_case_to_trace.len(),
            forall|k: int|
                0 <= k < foreign_case_to_trace.len() ==> {
                    let c = #[trigger] final(self).foreign_case_to_trace@[k];
                    &&& c.0@ == foreign_case_to_trace@[k].0@
                    &&& c.2@ == foreign_case_to_trace@[k].2@
                    &&& c.1@.len() == foreign_case_to_trace@[k].1@.len()
                    &&& forall|m: int|
                        0 <= m < c.1@.len() ==> #[trigger] c.1@[m] == clamped(
                            foreign_case_to_trace@[k].1@[m],
                            old(self).activity_to_pos.len() as int,
                        )
                },
            final(self).event_log == old(self).event_log,
            final(self).activity_to_pos == old(self).activity_to_pos,
            final(self).own_case_to_trace == old(self).own_case_to_trace,
            final(self).start == old(self).start,
            final(self).end == old(self).end,
            final(self).all_case_names == old(self).all_case_names,
            final(self).true_val == old(self).true_val,
    {
        let k_codes = self.activity_to_pos.len();
        let mut result: Vec<EncodedCase> = Vec::new();
        let mut i: usize = 0;
        while i < foreign_case_to_trace.len()
            invariant
                k_codes == self.activity_to_pos.len(),
                *self == *old(self),
                0 <= i <= foreign_case_to_trace.len(),
                result.len() == i,
                forall|k: int|
                    0 <= k < i ==> {
                        let c = #[trigger] result@[k];
                        &&& c.0@ == foreign_case_to_trace@[k].0@
                        &&& c.2@ == foreign_case_to_trace@[k].2@
                        &&& c.1@.len() == foreign_case_to_trace@[k].1@.len()
                        &&& forall|m: int|
                            0 <= m < c.1@.len() ==> #[trigger] c.1@[m] == clamped(
                                foreign_case_to_trace@[k].1@[m],
                                k_codes as int,
                            )
                    },
            decreases foreign_case_to_trace.len() - i,
        {
            let case = &foreign_case_to_trace[i];
            let mut codes: Vec<u16> = Vec::new();
            let mut m: usize = 0;
            while m < case.1.len()
                invariant
                    0 <= m <= case.1.len(),
                    codes.len() == m,
                    forall|x: int| 0 <= x < m ==> #[trigger] codes@[x] == clamped(case.1@[x], k_codes as int),
                decreases case.1.len() - m,
            {
                let c = case.1[m];
                if (c as usize) < k_codes {
                    codes.push(c);
                } else {
                    codes.push(END_CODE);
                }
                m = m + 1;
            }
            result.push((case.0.clone(), codes, copy_timestamps(&case.2)));
            i = i + 1;
        }
        self.foreign_case_to_trace = result;
    }

    /// Gathers the names of all cases, its own and A's, each once, in a random
    /// order.
    pub fn compute_all_case_names(&mut self)
        ensures
            distinct_names(final(self).all_case_names@),
            forall|x: Seq<char>|
                #[trigger] has_name(final(self).all_case_names@, x) <==> (old(self).event_log.case_ids().contains(x)
                    || case_names(old(self).foreign_case_to_trace@).contains(x)),
            final(self).event_log == old(self).event_log,
            final(self).activity_to_pos == old(self).activity_to_pos,
            final(self).own_case_to_trace == old(self).own_case_to_trace,
            final(self).foreign_case_to_trace == old(self).foreign_case_to_trace,
            final(self).start == old(self).start,
            final(self).end == old(self).end,
            final(self).true_val == old(self).true_val,
    {
        broadcast use group_to_multiset_ensures, group_multiset_axioms;
        let mut names: Vec<String> = Vec::new();
        let mut i: usize = 0;
        while i < self.event_log.traces.len()
            invariant
                0 <= i <= self.event_log.traces.len(),
                distinct_names(names@),
                forall|x: Seq<char>|
                    #[trigger] has_name(names@, x) <==> self.event_log.case_ids().take(i as int).contains(x),
            decreases self.event_log.traces.len() - i,
        {
            add_name(&mut names, &self.event_log.traces[i].case_id);
            proof {
                let ids = self.event_log.case_ids();
                assert(ids.take(i + 1) =~= ids.take(i as int).push(ids[i as int]));
                assert forall|x: Seq<char>| #[trigger] ids.take(i + 1).contains(x) <==> (ids.take(i as int).contains(x) || x
                    == ids[i as int]) by {
                    if ids.take(i + 1).contains(x) {
                        let p = choose|p: int| 0 <= p < i + 1 && #[trigger] ids.take(i + 1)[p] == x;
                        if p < i {
                            assert(ids.take(i as int)[p] == x);
                        }
                    }
                    if ids.take(i as int).contains(x) {
                        let p = choose|p: int| 0 <= p < i && #[trigger] ids.take(i as int)[p] == x;
                        assert(ids.take(i + 1)[p] == x);
                    }
                    if x == ids[i as int] {
                        assert(ids.take(i + 1)[i as int] == x);
                    }
                }
            }
            i = i + 1;
        }
        assert(self.event_log.case_ids().take(i as int) =~= self.event_log.case_ids());
        let mut j: usize = 0;
        while j < self.foreign_case_to_trace.len()
            invariant
                0 <= j <= self.foreign_case_to_trace.len(),
                distinct_names(names@),
                forall|x: Seq<char>|
                    #[trigger] has_name(names@, x) <==> (self.event_log.case_ids().contains(x) || case_names(
                        self.foreign_case_to_trace@,
                    ).take(j as int).contains(x)),
            decreases self.foreign_case_to_trace.len() - j,
        {
            add_name(&mut names, &self.foreign_case_to_trace[j].0);
            proof {
                let ns = case_names(self.foreign_case_to_trace@);
                assert(ns.take(j + 1) =~= ns.take(j as int).push(ns[j as int]));
                assert forall|x: Seq<char>| #[trigger] ns.take(j + 1).contains(x) <==> (ns.take(j as int).contains(x) || x
                    == ns[j as int]) by {
                    if ns.take(j + 1).contains(x) {
                        let p = choose|p: int| 0 <= p < j + 1 && #[trigger] ns.take(j + 1)[p] == x;
                        if p < j {
                            assert(ns.take(j as int)[p] == x);
                        }
                    }
                    if ns.take(j as int).contains(x) {
                        let p = choose|p: int| 0 <= p < j && #[trigger] ns.take(j as int)[p] == x;
                        assert(ns.take(j + 1)[p] == x);
                    }
                    if x == ns[j as int] {
                        assert(ns.take(j + 1)[j as int] == x);
                    }
                }
            }
            j = j + 1;
        }
        assert(case_names(self.foreign_case_to_trace@).take(j as int) =~= case_names(self.foreign_case_to_trace@));
        let n = names.len();
        let mut order: Vec<usize> = Vec::new();
        let mut k: usize = 0;
        while k < n
            invariant
                n == names.len(),
                0 <= k <= n,
                order@ == Seq::new(k as nat, |x: int| x as usize),
            decreases n - k,
        {
            order.push(k);
            proof {
                assert(order@ =~= Seq::new((k + 1) as nat, |x: int| x as usize));
            }
            k = k + 1;
        }
        let ghost identity = order@;
        proof {
            identity.lemma_multiset_has_no_duplicates();
        }
        shuffle(&mut order);
        proof {
            assert(order@.len() == order@.to_multiset().len());
            assert(identity.len() == identity.to_multiset().len());
            assert forall|x: usize| order@.to_multiset().contains(x) implies order@.to_multiset().count(x) == 1 by {}
            order@.lemma_multiset_has_no_duplicates_conv();
            assert forall|m: int| 0 <= m < order.len() implies (#[trigger] order@[m] as int) < n by {
                assert(order@.to_multiset().contains(order@[m]));
                assert(identity.contains(order@[m]));
            }
        }
        let mut shuffled: Vec<String> = Vec::new();
        let mut m: usize = 0;
        while m < order.len()
            invariant
                n == names.len(),
                order.len() == n,
                forall|a: int| 0 <= a < order.len() ==> (#[trigger] order@[a] as int) < n,
                0 <= m <= n,
                shuffled.len() == m,
                forall|a: int| 0 <= a < m ==> (#[trigger] shuffled@[a])@ == names@[order@[a] as int]@,
            decreases n - m,
        {
            shuffled.push(names[order[m]].clone());
            m = m + 1;
        }
        proof {
            assert forall|a: int, b: int| 0 <= a < b < shuffled.len() implies shuffled@[a]@ != shuffled@[b]@ by {
                assert(order@[a] != order@[b]);
            }
            assert forall|x: Seq<char>| #[trigger] has_name(shuffled@, x) <==> has_name(names@, x) by {
                if has_name(names@, x) {
                    let p = choose|p: int| 0 <= p < names@.len() && names@[p]@ == x;
                    assert(identity[p] == p as usize);
                    assert(identity.to_multiset().contains(p as usize));
                    assert(order@.contains(p as usize));
                    let a = choose|a: int| 0 <= a < order@.len() && order@[a] == p as usize;
                    assert(shuffled@[a]@ == x);
                }
            }
        }
        self.all_case_names = shuffled;
    }

    /// Number of encrypted edges that the merge of every case hands back:
    /// per case, its events on both sides plus one, held at `usize::MAX`.
    pub fn get_secret_edges_len(&self) -> (r: usize)
        ensures
            r as int == if secret_edges_count(self.foreign_case_to_trace@, self.own_case_to_trace@, self.all_case_names@)
                > usize::MAX {
                usize::MAX as int
            } else {
                secret_edges_count(self.foreign_case_to_trace@, self.own_case_to_trace@, self.all_case_names@)
            },
    {
        let ghost names = self.all_case_names@;
        let mut result: usize = 0;
        let mut i: usize = 0;
        assert(names.take(0) =~= Seq::<String>::empty());
        while i < self.all_case_names.len()
            invariant
                names == self.all_case_names@,
                0 <= i <= names.len(),
                result as int == if secret_edges_count(self.foreign_case_to_trace@, self.own_case_to_trace@, names.take(i as int))
                    > usize::MAX {
                    usize::MAX as int
                } else {
                    secret_edges_count(self.foreign_case_to_trace@, self.own_case_to_trace@, names.take(i as int))
                },
            decreases names.len() - i,
        {
            let name = &self.all_case_names[i];
            let f = match find_case(&self.foreign_case_to_trace, name) {
                Some(x) => self.foreign_case_to_trace[x].1.len(),
                None => 0,
            };
            let o = match find_case(&self.own_case_to_trace, name) {
                Some(x) => self.own_case_to_trace[x].1.len(),
                None => 0,
            };
            proof {
                assert(names.take(i + 1).drop_last() =~= names.take(i as int));
                assert(names.take(i + 1).last() == names[i as int]);
            }
            result = result.saturating_add(f).saturating_add(o).saturating_add(1);
            i = i + 1;
        }
        assert(names.take(i as int) =~= names);
        result
    }

    /// The encrypted edges of the cases named at positions `start_case` up to
    /// `upper_bound` of the visiting order, shuffled. Where the timestamps of
    /// every stored case are in order, their multiset is that of the
    /// directly-follows edges of the chronological merge of each case.
    pub fn find_all_secrets(&self, start_case: usize, upper_bound: usize, counts: &mut OperationCounts) -> (r: Vec<Edge>)
        requires
            start_case <= upper_bound <= self.all_case_names.len(),
            self.start is Some,
            self.end is Some,
            cases_wf(self.foreign_case_to_trace@),
            cases_wf(self.own_case_to_trace@),
        ensures
            cases_sorted(self.foreign_case_to_trace@) && cases_sorted(self.own_case_to_trace@) ==> r@.to_multiset()
                == window_edges(
                self.foreign_case_to_trace@,
                self.own_case_to_trace@,
                self.all_case_names@.subrange(start_case as int, upper_bound as int),
                self.start->Some_0,
                self.end->Some_0,
            ).to_multiset(),
            r@.len() == window_edge_count(
                self.foreign_case_to_trace@,
                self.own_case_to_trace@,
                self.all_case_names@.subrange(start_case as int, upper_bound as int),
            ),
            final(counts).case_id_comparisons == old(counts).case_id_comparisons,
            final(counts).timestamp_comparisons == bumped(
                old(counts).timestamp_comparisons,
                window_timestamp_ops(
                    self.foreign_case_to_trace@,
                    self.own_case_to_trace@,
                    self.all_case_names@.subrange(start_case as int, upper_bound as int),
                ),
            ),
            final(counts).selections == bumped(
                old(counts).selections,
                window_selections(
                    self.foreign_case_to_trace@,
                    self.own_case_to_trace@,
                    self.all_case_names@.subrange(start_case as int, upper_bound as int),
                ),
            ),
    {
        broadcast use group_multiset_axioms;
        let start = match self.start {
            Some(c) => c,
            None => 0,
        };
        let end = match self.end {
            Some(c) => c,
            None => 1,
        };
        let ghost foreign = self.foreign_case_to_trace@;
        let ghost own = self.own_case_to_trace@;
        let ghost names = self.all_case_names@;
        let ghost ok = cases_sorted(foreign) && cases_sorted(own);
        let no_activities: Vec<u16> = Vec::new();
        let no_timestamps: Vec<u64> = Vec::new();
        let mut result: Vec<Edge> = Vec::new();
        let mut k: usize = start_case;
        assert(names.subrange(start_case as int, k as int) =~= Seq::<String>::empty());
        while k < upper_bound
            invariant
                foreign == self.foreign_case_to_trace@,
                own == self.own_case_to_trace@,
                names == self.all_case_names@,
                start_case <= k <= upper_bound <= names.len(),
                cases_wf(foreign),
                cases_wf(own),
                no_activities@.len() == 0,
                no_timestamps@.len() == 0,
                ok == (cases_sorted(foreign) && cases_sorted(own)),
                ok ==> result@.to_multiset() == window_edges(foreign, own, names.subrange(start_case as int, k as int), start, end).to_multiset(),
                result@.len() == window_edge_count(foreign, own, names.subrange(start_case as int, k as int)),
                counts.case_id_comparisons == old(counts).case_id_comparisons,
                counts.timestamp_comparisons == bumped(
                    old(counts).timestamp_comparisons,
                    window_timestamp_ops(foreign, own, names.subrange(start_case as int, k as int)),
                ),
                counts.selections == bumped(
                    old(counts).selections,
                    window_selections(foreign, own, names.subrange(start_case as int, k as int)),
                ),
            decreases upper_bound - k,
        {
            let name = &self.all_case_names[k];
            let fi = find_case(&self.foreign_case_to_trace, name);
            let oi = find_case(&self.own_case_to_trace, name);
            let (fa, ft) = match fi {
                Some(x) => (&self.foreign_case_to_trace[x].1, &self.foreign_case_to_trace[x].2),
                None => (&no_activities, &no_timestamps),
            };
            let (oa, ot) = match oi {
                Some(x) => (&self.own_case_to_trace[x].1, &self.own_case_to_trace[x].2),
                None => (&no_activities, &no_timestamps),
            };
            proof {
                lemma_case_from_wf(foreign, name@, 0);
                lemma_case_from_wf(own, name@, 0);
                assert(fa@ == case_from(foreign, name@, 0).0 && ft@ == case_from(foreign, name@, 0).1);
                assert(oa@ == case_from(own, name@, 0).0 && ot@ == case_from(own, name@, 0).1);
            }
            let ghost ts0 = counts.timestamp_comparisons;
            let ghost sel0 = counts.selections;
            let mut edges = find_secrets_for_case(fa, ft, oa, ot, start, end, counts);
            proof {
                let w0 = names.subrange(start_case as int, k as int);
                let w1 = names.subrange(start_case as int, k + 1);
                assert(w1.drop_last() =~= w0);
                assert(w1.last() == names[k as int]);
                lemma_window_ops_concat(foreign, own, names, start_case as int, k as int);
                lemma_case_ops_nonneg(fa@.len() as int, oa@.len() as int);
                lemma_bumped_twice(
                    old(counts).timestamp_comparisons,
                    window_timestamp_ops(foreign, own, w0),
                    2 * fa@.len() as int * oa@.len() as int,
                );
                lemma_bumped_twice(
                    old(counts).selections,
                    window_selections(foreign, own, w0),
                    merge_selections(fa@.len() as int, oa@.len() as int),
                );
            }
            let ghost before = result@;
            let ghost e = edges@;
            result.append(&mut edges);
            proof {
                let w0 = names.subrange(start_case as int, k as int);
                let w1 = names.subrange(start_case as int, k + 1);
                assert(w1.drop_last() =~= w0);
                assert(w1.last() == names[k as int]);
                assert(result@ == before + e);
                lemma_multiset_commutative(before, e);
                let ce = case_edges(fa@, ft@, oa@, ot@, start, end);
                assert(window_edges(foreign, own, w1, start, end) == window_edges(foreign, own, w0, start, end) + ce);
                lemma_multiset_commutative(window_edges(foreign, own, w0, start, end), ce);
                if ok {
                    assert(sorted(ft@) && sorted(ot@));
                    assert(e.to_multiset() =~= ce.to_multiset());
                }
            }
            k = k + 1;
        }
        let ghost unshuffled = result@;
        shuffle(&mut result);
        proof {
            broadcast use group_to_multiset_ensures;
            assert(result@.len() == result@.to_multiset().len());
            assert(unshuffled.len() == unshuffled.to_multiset().len());
        }
        result
    }
}

/// Codes are unique: a name has at most one code in a table.
proof fn lemma_code_unique(table: Seq<String>, x: Seq<char>, c: int)
    requires
        is_code_table(table),
        code_in(table, x, c),
    ensures
        forall|d: int| code_in(table, x, d) ==> d == c,
{
}

/// Every activity of trace `t` has a code in `table` with a sample encryption.
pub open spec fn sampled_trace(table: Seq<String>, samples: Seq<(u16, u16)>, t: Trace) -> bool {
    forall|m: int|
        0 <= m < t.events.len() ==> has_name(table, #[trigger] t.events@[m].activity@) && sample_from(
            samples,
            code_for(table, t.events@[m].activity@) as u16,
            0,
        ) is Some
}

/// The code of `x` in `table`.
pub open spec fn code_for(table: Seq<String>, x: Seq<char>) -> int {
    choose|c: int| code_in(table, x, c)
}

proof fn lemma_window_remove(
    foreign: Seq<EncodedCase>,
    own: Seq<EncodedCase>,
    names: Seq<String>,
    p: int,
    start: u16,
    end: u16,
)
    requires
        0 <= p < names.len(),
    ensures
        window_edges(foreign, own, names, start, end).to_multiset() =~= window_edges(
            foreign,
            own,
            names.remove(p),
            start,
            end,
        ).to_multiset().add(
            {
                let f = case_from(foreign, names[p]@, 0);
                let o = case_from(own, names[p]@, 0);
                case_edges(f.0, f.1, o.0, o.1, start, end)
            }.to_multiset(),
        ),
    decreases names.len(),
{
    broadcast use group_multiset_axioms;
    let last = names.last();
    let fl = case_from(foreign, last@, 0);
    let ol = case_from(own, last@, 0);
    let cl = case_edges(fl.0, fl.1, ol.0, ol.1, start, end);
    lemma_multiset_commutative(window_edges(foreign, own, names.drop_last(), start, end), cl);
    if p == names.len() - 1 {
        assert(names.remove(p) =~= names.drop_last());
    } else {
        lemma_window_remove(foreign, own, names.drop_last(), p, start, end);
        let rest = names.remove(p);
        assert(rest.drop_last() =~= names.drop_last().remove(p));
        assert(rest.last() == last);
        assert(names.drop_last()[p] == names[p]);
        lemma_multiset_commutative(window_edges(foreign, own, rest.drop_last(), start, end), cl);
    }
}

/// Ordering independence: the multiset of edges that the merge hands back for
/// a set of cases does not depend on the order in which the cases are visited.
pub proof fn lemma_window_order(
    foreign: Seq<EncodedCase>,
    own: Seq<EncodedCase>,
    names1: Seq<String>,
    names2: Seq<String>,
    start: u16,
    end: u16,
)
    requires
        names1.to_multiset() == names2.to_multiset(),
    ensures
        window_edges(foreign, own, names1, start, end).to_multiset() == window_edges(
            foreign,
            own,
            names2,
            start,
            end,
        ).to_multiset(),
    decreases names1.len(),
{
    broadcast use group_to_multiset_ensures, group_multiset_axioms;
    if names1.len() == 0 {
        assert(names2.to_multiset().len() == 0);
        assert(names2.len() == 0);
        assert(names1 =~= names2);
    } else {
        let x = names1.last();
        assert(names1 =~= names1.drop_last().push(x));
        assert(names1.to_multiset().contains(x));
        assert(names2.contains(x));
        let p = choose|p: int| 0 <= p < names2.len() && names2[p] == x;
        assert(names2.remove(p).to_multiset() =~= names2.to_multiset().remove(x));
        assert(names1.drop_last().to_multiset() =~= names1.to_multiset().remove(x));
        lemma_window_order(foreign, own, names1.drop_last(), names2.remove(p), start, end);
        lemma_window_remove(foreign, own, names2, p, start, end);
        let f = case_from(foreign, x@, 0);
        let o = case_from(own, x@, 0);
        lemma_multiset_commutative(
            window_edges(foreign, own, names1.drop_last(), start, end),
            case_edges(f.0, f.1, o.0, o.1, start, end),
        );
    }
}

/// The edges of the cases up to `hi` are those up to `lo` followed by those
/// from `lo` to `hi`.
pub proof fn lemma_window_concat(
    foreign: Seq<EncodedCase>,
    own: Seq<EncodedCase>,
    names: Seq<String>,
    lo: int,
    hi: int,
    start: u16,
    end: u16,
)
    requires
        0 <= lo <= hi <= names.len(),
    ensures
        window_edges(foreign, own, names.subrange(0, hi), start, end) =~= window_edges(
            foreign,
            own,
            names.subrange(0, lo),
            start,
            end,
        ) + window_edges(foreign, own, names.subrange(lo, hi), start, end),
    decreases hi - lo,
{
    if hi == lo {
        assert(names.subrange(lo, hi) =~= Seq::<String>::empty());
    } else {
        lemma_window_concat(foreign, own, names, lo, hi - 1, start, end);
        assert(names.subrange(0, hi).drop_last() =~= names.subrange(0, hi - 1));
        assert(names.subrange(lo, hi).drop_last() =~= names.subrange(lo, hi - 1));
        assert(names.subrange(0, hi).last() == names[hi - 1]);
        assert(names.subrange(lo, hi).last() == names[hi - 1]);
    }
}

/// Edges of the non-empty traces among `traces` that satisfy `p`, in order.
pub open spec fn edges_of_cases_where(traces: Seq<Trace>, p: spec_fn(Trace) -> bool) -> Seq<(Seq<char>, Seq<char>)>
    decreases traces.len(),
{
    if traces.len() == 0 {
        Seq::empty()
    } else {
        let t = traces.last();
        edges_of_cases_where(traces.drop_last(), p) + if p(t) && t.events.len() > 0 {
            named_df_edges(t.activity_seq())
        } else {
            Seq::empty()
        }
    }
}

/// The private cases are those that `p` picks, where `p` agrees with the
/// test on the identifiers on every trace.
pub proof fn lemma_private_edges_where(traces: Seq<Trace>, own: Seq<String>, shared: Seq<String>, p: spec_fn(Trace) -> bool)
    requires
        forall|i: int|
            0 <= i < traces.len() ==> (has_name(own, (#[trigger] traces[i]).case_id@) && !has_name(
                shared,
                traces[i].case_id@,
            )) == p(traces[i]),
    ensures
        private_edges(traces, own, shared) == edges_of_cases_where(traces, p),
    decreases traces.len(),
{
    if traces.len() > 0 {
        let rest = traces.drop_last();
        assert forall|i: int| 0 <= i < rest.len() implies (has_name(own, (#[trigger] rest[i]).case_id@) && !has_name(
            shared,
            rest[i].case_id@,
        )) == p(rest[i]) by {
            assert(rest[i] == traces[i]);
        }
        lemma_private_edges_where(rest, own, shared, p);
        assert(traces.last() == traces[traces.len() - 1]);
    }
}

/// The traces among `traces` that satisfy `p`, in order.
pub open spec fn selected_where(traces: Seq<Trace>, p: spec_fn(Trace) -> bool) -> Seq<Trace>
    decreases traces.len(),
{
    if traces.len() == 0 {
        Seq::empty()
    } else if p(traces.last()) {
        selected_where(traces.drop_last(), p).push(traces.last())
    } else {
        selected_where(traces.drop_last(), p)
    }
}

/// Selecting by the shared identifiers is selecting by `p`, where `p` agrees
/// with the test on every trace.
pub proof fn lemma_selected_where(traces: Seq<Trace>, shared: Seq<String>, p: spec_fn(Trace) -> bool)
    requires
        forall|i: int| 0 <= i < traces.len() ==> has_name(shared, (#[trigger] traces[i]).case_id@) == p(traces[i]),
    ensures
        selected(traces, shared) == selected_where(traces, p),
    decreases traces.len(),
{
    if traces.len() > 0 {
        let rest = traces.drop_last();
        assert forall|i: int| 0 <= i < rest.len() implies has_name(shared, (#[trigger] rest[i]).case_id@) == p(rest[i]) by {
            assert(rest[i] == traces[i]);
        }
        lemma_selected_where(rest, shared, p);
        assert(traces.last() == traces[traces.len() - 1]);
    }
}

/// Name of code `c` in `table`.
pub open spec fn name_of(table: Seq<String>, c: u16) -> Seq<char> {
    table[c as int]@
}

/// The merge of one case, decoded: when both sides of a case are encoded
/// under a code table, reading the codes of the merge's directly-follows edges
/// back through the table gives exactly the directly-follows edges between
/// activity names of the chronological merge of the two plaintext traces,
/// framed by `start` and `end`.
pub proof fn lemma_decoded_case_edges(table: Seq<String>, trace_a: Trace, trace_b: Trace, case_a: EncodedCase, case_b: EncodedCase)
    requires
        is_code_table(table),
        encodes_case(table, trace_a, case_a),
        encodes_case(table, trace_b, case_b),
    ensures
        case_edges(case_a.1@, case_a.2@, case_b.1@, case_b.2@, START_CODE, END_CODE).map_values(
            |e: Edge| (name_of(table, e.0), name_of(table, e.1)),
        ) == case_edges(
            trace_a.activity_seq(),
            trace_a.timestamp_seq(),
            trace_b.activity_seq(),
            trace_b.timestamp_seq(),
            start_name(),
            end_name(),
        ),
{
    let f = |c: u16| name_of(table, c);
    lemma_relabel_case_edges(case_a.1@, case_a.2@, case_b.1@, case_b.2@, START_CODE, END_CODE, f);
    assert(case_a.1@.map_values(f) =~= trace_a.activity_seq()) by {
        assert forall|m: int| 0 <= m < case_a.1@.len() implies #[trigger] case_a.1@.map_values(f)[m] == trace_a.activity_seq()[m] by {
            assert(code_in(table, trace_a.activity_seq()[m], case_a.1@[m] as int));
        }
    }
    assert(case_b.1@.map_values(f) =~= trace_b.activity_seq()) by {
        assert forall|m: int| 0 <= m < case_b.1@.len() implies #[trigger] case_b.1@.map_values(f)[m] == trace_b.activity_seq()[m] by {
            assert(code_in(table, trace_b.activity_seq()[m], case_b.1@[m] as int));
        }
    }
    assert(f(START_CODE) == start_name());
    assert(f(END_CODE) == end_name());
    let ce = case_edges(case_a.1@, case_a.2@, case_b.1@, case_b.2@, START_CODE, END_CODE);
    assert(ce.map_values(|e: Edge| (name_of(table, e.0), name_of(table, e.1))) =~= ce.map_values(
        |e: Edge| (f(e.0), f(e.1)),
    ));
}

} // verus!
