//! Event logs as the protocol reads them: cases of timestamped activities.
use vstd::prelude::*;
use crate::merge::sorted;

verus! {

/// One event: an activity name and its timestamp in milliseconds.
pub struct Event {
    pub activity: String,
    pub timestamp: u64,
}

/// The events of one case, in timestamp order.
pub struct Trace {
    pub case_id: String,
    pub events: Vec<Event>,
}

/// An event log: its cases, each with a distinct case identifier.
pub struct EventLog {
    pub traces: Vec<Trace>,
}

/// Whether some string of `names` has the view `x`.
pub open spec fn has_name(names: Seq<String>, x: Seq<char>) -> bool {
    exists|i: int| 0 <= i < names.len() && names[i]@ == x
}

/// The views of a sequence of strings.
pub open spec fn views(names: Seq<String>) -> Seq<Seq<char>> {
    names.map_values(|s: String| s@)
}

/// The distinct elements of `s`, in order of first appearance.
pub open spec fn first_appearances(s: Seq<Seq<char>>) -> Seq<Seq<char>>
    decreases s.len(),
{
    if s.len() == 0 {
        Seq::empty()
    } else {
        let d = first_appearances(s.drop_last());
        if d.contains(s.last()) {
            d
        } else {
            d.push(s.last())
        }
    }
}

/// The activities of the events of `traces`, trace after trace.
pub open spec fn activities_in_order(traces: Seq<Trace>) -> Seq<Seq<char>>
    decreases traces.len(),
{
    if traces.len() == 0 {
        Seq::empty()
    } else {
        activities_in_order(traces.drop_last()) + traces.last().activity_seq()
    }
}

/// A string of `names` has view `x` exactly when `x` is among their views.
pub proof fn lemma_views_contains(names: Seq<String>, x: Seq<char>)
    ensures
        views(names).contains(x) <==> has_name(names, x),
{
    if has_name(names, x) {
        let i = choose|i: int| 0 <= i < names.len() && names[i]@ == x;
        assert(views(names)[i] == x);
    }
}

/// Adding a name keeps the order of first appearance.
pub proof fn lemma_first_appearances_push(s: Seq<Seq<char>>, x: Seq<char>)
    ensures
        first_appearances(s.push(x)) == if first_appearances(s).contains(x) {
            first_appearances(s)
        } else {
            first_appearances(s).push(x)
        },
{
    assert(s.push(x).drop_last() =~= s);
}

/// No two strings of `names` have the same view.
pub open spec fn distinct_names(names: Seq<String>) -> bool {
    forall|i: int, j: int| 0 <= i < j < names.len() ==> names[i]@ != names[j]@
}

impl Trace {
    /// The activity names of the trace's events.
    pub open spec fn activity_seq(&self) -> Seq<Seq<char>> {
        self.events@.map_values(|e: Event| e.activity@)
    }

    /// The timestamps of the trace's events.
    pub open spec fn timestamp_seq(&self) -> Seq<u64> {
        self.events@.map_values(|e: Event| e.timestamp)
    }
}

impl EventLog {
    /// Case identifiers are distinct and each case's events are in timestamp order.
    pub open spec fn wf(&self) -> bool {
        &&& forall|i: int, j: int|
            0 <= i < j < self.traces.len() ==> self.traces@[i].case_id@ != self.traces@[j].case_id@
        &&& forall|i: int| 0 <= i < self.traces.len() ==> sorted((#[trigger] self.traces@[i]).timestamp_seq())
    }

    /// Whether an event of the log has activity `x`.
    pub open spec fn has_activity(&self, x: Seq<char>) -> bool {
        exists|i: int, k: int|
            0 <= i < self.traces.len() && 0 <= k < self.traces@[i].events.len()
                && #[trigger] self.traces@[i].events@[k].activity@ == x
    }

    /// The case identifier strings, in the log's order.
    pub open spec fn case_id_list_spec(&self) -> Seq<String> {
        self.traces@.map_values(|t: Trace| t.case_id)
    }

    /// The case identifiers, in the log's order.
    pub open spec fn case_ids(&self) -> Seq<Seq<char>> {
        self.traces@.map_values(|t: Trace| t.case_id@)
    }

    /// The case identifiers, in the log's order.
    pub fn case_id_list(&self) -> (r: Vec<String>)
        ensures
            views(r@) == self.case_ids(),
    {
        let mut r: Vec<String> = Vec::new();
        let mut i: usize = 0;
        while i < self.traces.len()
            invariant
                0 <= i <= self.traces.len(),
                r.len() == i,
                views(r@) == self.case_ids().take(i as int),
            decreases self.traces.len() - i,
        {
            let ghost before = r@;
            let c = self.traces[i].case_id.clone();
            r.push(c);
            proof {
                assert(c@ == self.traces@[i as int].case_id@);
                assert forall|k: int| 0 <= k < i + 1 implies #[trigger] views(r@)[k]
                    == self.case_ids().take(i + 1)[k] by {
                    if k < i {
                        assert(r@[k] == before[k]);
                        assert(views(before)[k] == self.case_ids().take(i as int)[k]);
                    }
                }
                assert(views(r@) =~= self.case_ids().take(i + 1));
            }
            i = i + 1;
        }
        assert(self.case_ids().take(i as int) =~= self.case_ids());
        r
    }
}

/// Appends `name` unless a string with its view is already there.
pub fn add_name(names: &mut Vec<String>, name: &String)
    requires
        distinct_names(old(names)@),
    ensures
        distinct_names(final(names)@),
        has_name(old(names)@, name@) ==> final(names)@ == old(names)@,
        !has_name(old(names)@, name@) ==> final(names)@.len() == old(names)@.len() + 1 && final(names)@.drop_last() == old(names)@ && final(names)@.last()@ == name@,
        forall|x: Seq<char>| #[trigger] has_name(final(names)@, x) <==> (has_name(old(names)@, x) || x == name@),
        views(final(names)@) == if has_name(old(names)@, name@) {
            views(old(names)@)
        } else {
            views(old(names)@).push(name@)
        },
{
    let n = names.len();
    let mut i: usize = 0;
    while i < n
        invariant
            n == names.len(),
            *names == *old(names),
            distinct_names(old(names)@),
            0 <= i <= n,
            forall|k: int| 0 <= k < i ==> names@[k]@ != name@,
        decreases n - i,
    {
        if names[i] == *name {
            return;
        }
        i = i + 1;
    }
    let ghost before = names@;
    let copy = name.clone();
    names.push(copy);
    proof {
        assert forall|x: Seq<char>| #[trigger] has_name(names@, x) <==> (has_name(before, x) || x == name@) by {
            if has_name(names@, x) {
                let k = choose|k: int| 0 <= k < names@.len() && names@[k]@ == x;
                if k < before.len() {
                    assert(names@[k] == before[k]);
                }
            }
            if has_name(before, x) {
                let k = choose|k: int| 0 <= k < before.len() && before[k]@ == x;
                assert(names@[k] == before[k]);
            }
            if x == name@ {
                assert(names@[n as int]@ == x);
            }
        }
    }
}

/// Computes the activities present in an event log, each once.
pub fn find_activities(event_log: &EventLog) -> (r: Vec<String>)
    ensures
        distinct_names(r@),
        forall|x: Seq<char>| has_name(r@, x) <==> event_log.has_activity(x),
        views(r@) == first_appearances(activities_in_order(event_log.traces@)),
{
    let mut result: Vec<String> = Vec::new();
    let mut i: usize = 0;
    assert(event_log.traces@.take(0) =~= Seq::<Trace>::empty());
    assert(views(result@) =~= Seq::<Seq<char>>::empty());
    while i < event_log.traces.len()
        invariant
            0 <= i <= event_log.traces.len(),
            distinct_names(result@),
            forall|x: Seq<char>|
                #[trigger] has_name(result@, x) <==> exists|t: int, k: int|
                    0 <= t < i && 0 <= k < event_log.traces@[t].events.len()
                        && #[trigger] event_log.traces@[t].events@[k].activity@ == x,
            views(result@) == first_appearances(activities_in_order(event_log.traces@.take(i as int))),
        decreases event_log.traces.len() - i,
    {
        let trace = &event_log.traces[i];
        let ghost done = activities_in_order(event_log.traces@.take(i as int));
        proof {
            assert(done + trace.activity_seq().take(0) =~= done);
        }
        let mut k: usize = 0;
        while k < trace.events.len()
            invariant
                0 <= i < event_log.traces.len(),
                *trace == event_log.traces@[i as int],
                0 <= k <= trace.events.len(),
                distinct_names(result@),
                forall|x: Seq<char>|
                    #[trigger] has_name(result@, x) <==> (exists|t: int, m: int|
                        0 <= t < i && 0 <= m < event_log.traces@[t].events.len()
                            && #[trigger] event_log.traces@[t].events@[m].activity@ == x) || (exists|m: int|
                        0 <= m < k && #[trigger] trace.events@[m].activity@ == x),
                done == activities_in_order(event_log.traces@.take(i as int)),
                views(result@) == first_appearances(done + trace.activity_seq().take(k as int)),
            decreases trace.events.len() - k,
        {
            let ghost before = result@;
            add_name(&mut result, &trace.events[k].activity);
            proof {
                let acts = trace.activity_seq();
                assert(done + acts.take(k + 1) =~= (done + acts.take(k as int)).push(acts[k as int]));
                lemma_first_appearances_push(done + acts.take(k as int), acts[k as int]);
                lemma_views_contains(before, acts[k as int]);
                assert forall|x: Seq<char>| #[trigger] has_name(result@, x) implies (exists|t: int, m: int|
                    0 <= t < i && 0 <= m < event_log.traces@[t].events.len()
                        && #[trigger] event_log.traces@[t].events@[m].activity@ == x) || (exists|m: int|
                    0 <= m < k + 1 && #[trigger] trace.events@[m].activity@ == x) by {
                    if x == trace.events@[k as int].activity@ {
                        assert(trace.events@[k as int].activity@ == x);
                    }
                }
            }
            k = k + 1;
        }
        proof {
            let tr = event_log.traces@;
            assert(tr.take(i + 1).drop_last() =~= tr.take(i as int));
            assert(tr.take(i + 1).last() == tr[i as int]);
            assert(trace.activity_seq().take(trace.events.len() as int) =~= trace.activity_seq());
            assert forall|x: Seq<char>|
                #[trigger] has_name(result@, x) <==> exists|t: int, m: int|
                    0 <= t < i + 1 && 0 <= m < event_log.traces@[t].events.len()
                        && #[trigger] event_log.traces@[t].events@[m].activity@ == x by {
                if exists|m: int| 0 <= m < trace.events.len() && #[trigger] trace.events@[m].activity@ == x {
                    let m = choose|m: int| 0 <= m < trace.events.len() && #[trigger] trace.events@[m].activity@ == x;
                    assert(event_log.traces@[i as int].events@[m].activity@ == x);
                }
                if exists|t: int, m: int|
                    0 <= t < i + 1 && 0 <= m < event_log.traces@[t].events.len()
                        && #[trigger] event_log.traces@[t].events@[m].activity@ == x {
                    let (t, m) = choose|t: int, m: int|
                        0 <= t < i + 1 && 0 <= m < event_log.traces@[t].events.len()
                            && #[trigger] event_log.traces@[t].events@[m].activity@ == x;
                    if t == i {
                        assert(trace.events@[m].activity@ == x);
                    }
                }
            }
        }
        i = i + 1;
    }
    assert(event_log.traces@.take(i as int) =~= event_log.traces@);
    result
}

} // verus!
