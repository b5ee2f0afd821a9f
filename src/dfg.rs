//! The directly-follows graph that the protocol produces, and its normalisation.
use vstd::prelude::*;
use crate::codec::{end_name, end_string, start_name, start_string};
use crate::log::{add_name, distinct_names, has_name};

verus! {

/// A directly-follows relation `from -> to` with its frequency.
pub type Relation = (String, String, u128);

/// Sum of the frequencies of the relations whose endpoints satisfy `f`.
pub open spec fn freq_where(s: Seq<Relation>, f: spec_fn(Seq<char>, Seq<char>) -> bool) -> int
    decreases s.len(),
{
    if s.len() == 0 {
        0
    } else {
        let e = s.last();
        freq_where(s.drop_last(), f) + if f(e.0@, e.1@) {
            e.2 as int
        } else {
            0
        }
    }
}

/// Frequency of the relation `x -> y`.
pub open spec fn edge_freq(s: Seq<Relation>, x: Seq<char>, y: Seq<char>) -> int {
    freq_where(s, |u: Seq<char>, w: Seq<char>| u == x && w == y)
}

/// Sum of the frequencies of the relations entering `v`.
pub open spec fn in_sum(s: Seq<Relation>, v: Seq<char>) -> int {
    freq_where(s, |u: Seq<char>, w: Seq<char>| w == v)
}

/// Sum of the frequencies of the relations leaving `v`.
pub open spec fn out_sum(s: Seq<Relation>, v: Seq<char>) -> int {
    freq_where(s, |u: Seq<char>, w: Seq<char>| u == v)
}

/// Sum of all frequencies.
pub open spec fn total_freq(s: Seq<Relation>) -> int {
    freq_where(s, |u: Seq<char>, w: Seq<char>| true)
}

/// The frequency that relation `e` adds to a sum selected by `f`.
pub open spec fn term(e: Relation, f: spec_fn(Seq<char>, Seq<char>) -> bool) -> int {
    if f(e.0@, e.1@) {
        e.2 as int
    } else {
        0
    }
}

pub proof fn lemma_freq_push(s: Seq<Relation>, e: Relation)
    ensures
        forall|f: spec_fn(Seq<char>, Seq<char>) -> bool|
            #[trigger] freq_where(s.push(e), f) == freq_where(s, f) + term(e, f),
{
    assert(s.push(e).drop_last() =~= s);
}

pub proof fn lemma_freq_update(s: Seq<Relation>, i: int, e: Relation, f: spec_fn(Seq<char>, Seq<char>) -> bool)
    requires
        0 <= i < s.len(),
    ensures
        freq_where(s.update(i, e), f) == freq_where(s, f) - term(s[i], f) + term(e, f),
    decreases s.len(),
{
    if i < s.len() - 1 {
        lemma_freq_update(s.drop_last(), i, e, f);
        assert(s.update(i, e).drop_last() =~= s.drop_last().update(i, e));
    } else {
        assert(s.update(i, e).drop_last() =~= s.drop_last());
    }
}

pub proof fn lemma_freq_take(s: Seq<Relation>, k: int)
    requires
        0 <= k < s.len(),
    ensures
        forall|f: spec_fn(Seq<char>, Seq<char>) -> bool|
            #[trigger] freq_where(s.take(k + 1), f) == freq_where(s.take(k), f) + term(s[k], f),
{
    assert(s.take(k + 1).drop_last() =~= s.take(k));
}

/// A selected sum lies between zero and the total, and so does any prefix's.
pub proof fn lemma_freq_bounds(s: Seq<Relation>, f: spec_fn(Seq<char>, Seq<char>) -> bool)
    ensures
        0 <= freq_where(s, f) <= total_freq(s),
        forall|k: int| 0 <= k <= s.len() ==> #[trigger] total_freq(s.take(k)) <= total_freq(s),
    decreases s.len(),
{
    if s.len() > 0 {
        lemma_freq_bounds(s.drop_last(), f);
        assert forall|k: int| 0 <= k <= s.len() implies #[trigger] total_freq(s.take(k)) <= total_freq(s) by {
            if k < s.len() {
                assert(s.take(k) =~= s.drop_last().take(k));
                assert(s.drop_last().take(k) == s.take(k));
            } else {
                assert(s.take(k) =~= s);
            }
        }
    }
}

/// No selected sum is negative.
pub proof fn lemma_freq_nonneg(s: Seq<Relation>)
    ensures
        forall|f: spec_fn(Seq<char>, Seq<char>) -> bool| #[trigger] freq_where(s, f) >= 0,
    decreases s.len(),
{
    if s.len() > 0 {
        lemma_freq_nonneg(s.drop_last());
        assert forall|f: spec_fn(Seq<char>, Seq<char>) -> bool| #[trigger] freq_where(s, f) >= 0 by {
            assert(freq_where(s, f) == freq_where(s.drop_last(), f) + term(s.last(), f));
        }
    }
}

/// Every relation has a positive frequency.
pub open spec fn positive(s: Seq<Relation>) -> bool {
    forall|k: int| 0 <= k < s.len() ==> (#[trigger] s[k]).2 > 0
}

/// With positive frequencies, a relation is present exactly when its
/// frequency is positive.
pub proof fn lemma_positive_freq(s: Seq<Relation>, x: Seq<char>, y: Seq<char>)
    requires
        positive(s),
    ensures
        edge_freq(s, x, y) > 0 <==> exists|k: int| 0 <= k < s.len() && (#[trigger] s[k]).0@ == x && s[k].1@ == y,
    decreases s.len(),
{
    if s.len() > 0 {
        let rest = s.drop_last();
        lemma_freq_nonneg(rest);
        assert(edge_freq(s, x, y) == edge_freq(rest, x, y) + if s.last().0@ == x && s.last().1@ == y {
            s.last().2 as int
        } else {
            0
        });
        assert(s[s.len() - 1].2 > 0);
        assert forall|k: int| 0 <= k < rest.len() implies (#[trigger] rest[k]).2 > 0 by {
            assert(rest[k] == s[k]);
        }
        lemma_positive_freq(rest, x, y);
        if exists|k: int| 0 <= k < rest.len() && (#[trigger] rest[k]).0@ == x && rest[k].1@ == y {
            let k = choose|k: int| 0 <= k < rest.len() && (#[trigger] rest[k]).0@ == x && rest[k].1@ == y;
            assert(s[k] == rest[k]);
        }
        if exists|k: int| 0 <= k < s.len() && (#[trigger] s[k]).0@ == x && s[k].1@ == y {
            let k = choose|k: int| 0 <= k < s.len() && (#[trigger] s[k]).0@ == x && s[k].1@ == y;
            if k < rest.len() {
                assert(rest[k] == s[k]);
            } else {
                assert(s[k] == s.last());
            }
        }
        assert(s[s.len() - 1] == s.last());
    }
}

/// A directly-follows graph: activities with frequencies, relations with
/// frequencies, and the sets of start and end activities.
pub struct DirectlyFollowsGraph {
    pub activities: Vec<(String, u128)>,
    pub directly_follows_relations: Vec<Relation>,
    pub start_activities: Vec<String>,
    pub end_activities: Vec<String>,
}

impl DirectlyFollowsGraph {
    /// The relations; each pair of endpoints appears at most once.
    pub open spec fn relations(&self) -> Seq<Relation> {
        self.directly_follows_relations@
    }

    /// Activity names are distinct, relation endpoint pairs are distinct, and
    /// all frequencies together fit in a `u128`.
    pub open spec fn wf(&self) -> bool {
        &&& forall|i: int, j: int|
            0 <= i < j < self.activities.len() ==> self.activities@[i].0@ != self.activities@[j].0@
        &&& forall|i: int, j: int|
            0 <= i < j < self.relations().len() ==> (self.relations()[i].0@, self.relations()[i].1@) != (
            self.relations()[j].0@,
            self.relations()[j].1@,
        )
        &&& total_freq(self.relations()) <= u128::MAX
    }

    /// An empty graph.
    pub fn new() -> (r: DirectlyFollowsGraph)
        ensures
            r.wf(),
            r.activities@.len() == 0,
            r.relations().len() == 0,
            r.start_activities@.len() == 0,
            r.end_activities@.len() == 0,
    {
        DirectlyFollowsGraph {
            activities: Vec::new(),
            directly_follows_relations: Vec::new(),
            start_activities: Vec::new(),
            end_activities: Vec::new(),
        }
    }

    /// A graph with each of `names` as an activity of frequency zero, and nothing else.
    pub fn with_activities(names: &Vec<String>) -> (r: DirectlyFollowsGraph)
        requires
            forall|i: int, j: int| 0 <= i < j < names.len() ==> names@[i]@ != names@[j]@,
        ensures
            r.wf(),
            r.activities.len() == names.len(),
            forall|k: int| 0 <= k < names.len() ==> (#[trigger] r.activities@[k]).0@ == names@[k]@ && r.activities@[k].1 == 0,
            r.relations().len() == 0,
            r.start_activities@.len() == 0,
            r.end_activities@.len() == 0,
    {
        let mut r = DirectlyFollowsGraph::new();
        let mut i: usize = 0;
        while i < names.len()
            invariant
                0 <= i <= names.len(),
                forall|a: int, b: int| 0 <= a < b < names.len() ==> names@[a]@ != names@[b]@,
                r.activities.len() == i,
                forall|k: int| 0 <= k < i ==> (#[trigger] r.activities@[k]).0@ == names@[k]@ && r.activities@[k].1 == 0,
                r.relations().len() == 0,
                r.start_activities@.len() == 0,
                r.end_activities@.len() == 0,
            decreases names.len() - i,
        {
            r.activities.push((names[i].clone(), 0));
            i = i + 1;
        }
        r
    }

    /// Adds `frequency` to the relation `from -> to`, creating it if absent.
    pub fn add_df_relation(&mut self, from: String, to: String, frequency: u128)
        requires
            old(self).wf(),
            total_freq(old(self).relations()) + frequency <= u128::MAX,
        ensures
            final(self).wf(),
            final(self).activities == old(self).activities,
            final(self).start_activities == old(self).start_activities,
            final(self).end_activities == old(self).end_activities,
            positive(old(self).relations()) && frequency > 0 ==> positive(final(self).relations()),
            forall|f: spec_fn(Seq<char>, Seq<char>) -> bool|
                #[trigger] freq_where(final(self).relations(), f) == freq_where(old(self).relations(), f) + (if f(
                    from@,
                    to@,
                ) {
                    frequency as int
                } else {
                    0
                }),
    {
        let n = self.directly_follows_relations.len();
        let mut i: usize = 0;
        while i < n
            invariant
                n == self.directly_follows_relations.len(),
                *self == *old(self),
                old(self).wf(),
                total_freq(old(self).relations()) + frequency <= u128::MAX,
                0 <= i <= n,
                forall|k: int|
                    0 <= k < i ==> (#[trigger] self.relations()[k].0@, self.relations()[k].1@) != (from@, to@),
            decreases n - i,
        {
            if self.directly_follows_relations[i].0 == from && self.directly_follows_relations[i].1 == to {
                let ghost s = self.relations();
                let c = self.directly_follows_relations[i].2;
                proof {
                    lemma_freq_bounds(s, |u: Seq<char>, w: Seq<char>| u == from@ && w == to@);
                    lemma_freq_update(s, i as int, (from, to, 0), |u: Seq<char>, w: Seq<char>| true);
                    // the entry's own frequency is at most the total
                    let g = |u: Seq<char>, w: Seq<char>| u == from@ && w == to@;
                    lemma_freq_update(s, i as int, (from, to, 0), g);
                    lemma_freq_bounds(s.update(i as int, (from, to, 0)), |u: Seq<char>, w: Seq<char>| true);
                    assert(total_freq(s) == total_freq(s.update(i as int, (from, to, 0))) + c);
                }
                self.directly_follows_relations.set(i, (from, to, c + frequency));
                proof {
                    assert forall|f: spec_fn(Seq<char>, Seq<char>) -> bool|
                        #[trigger] freq_where(self.relations(), f) == freq_where(s, f) + (if f(from@, to@) {
                            frequency as int
                        } else {
                            0
                        }) by {
                        lemma_freq_update(s, i as int, self.relations()[i as int], f);
                        assert(self.relations() == s.update(i as int, self.relations()[i as int]));
                    }
                    let t = |u: Seq<char>, w: Seq<char>| true;
                    assert(freq_where(self.relations(), t) == freq_where(s, t) + frequency);
                    assert(s[i as int].0@ == from@ && s[i as int].1@ == to@);
                    assert forall|k: int| 0 <= k < s.len() implies (#[trigger] self.relations()[k].0@,
                    self.relations()[k].1@) == (s[k].0@, s[k].1@) by {}
                    assert forall|k: int, m: int| 0 <= k < m < self.relations().len() implies (
                    self.relations()[k].0@, self.relations()[k].1@) != (self.relations()[m].0@, self.relations()[m].1@) by {
                        assert(s[i as int].0@ == from@ && s[i as int].1@ == to@);
                    }
                }
                return;
            }
            i = i + 1;
        }
        let ghost s = self.relations();
        self.directly_follows_relations.push((from, to, frequency));
        proof {
            assert(self.relations() == s.push(self.relations().last()));
            assert forall|f: spec_fn(Seq<char>, Seq<char>) -> bool|
                #[trigger] freq_where(self.relations(), f) == freq_where(s, f) + (if f(from@, to@) {
                    frequency as int
                } else {
                    0
                }) by {
                lemma_freq_push(s, self.relations().last());
            }
            let t = |u: Seq<char>, w: Seq<char>| true;
            assert(freq_where(self.relations(), t) == freq_where(s, t) + frequency);
        }
    }

    /// Sum of the frequencies of the relations entering `v`.
    pub fn ingoing_frequency(&self, v: &String) -> (r: u128)
        requires
            self.wf(),
        ensures
            r == in_sum(self.relations(), v@),
    {
        let ghost s = self.relations();
        let ghost f = |u: Seq<char>, w: Seq<char>| w == v@;
        let mut sum: u128 = 0;
        let mut i: usize = 0;
        proof {
            lemma_freq_bounds(s, |u: Seq<char>, w: Seq<char>| true);
            assert(s.take(0) =~= Seq::<Relation>::empty());
        }
        while i < self.directly_follows_relations.len()
            invariant
                s == self.relations(),
                self.wf(),
                0 <= i <= s.len(),
                sum == freq_where(s.take(i as int), f),
                f == (|u: Seq<char>, w: Seq<char>| w == v@),
                forall|k: int| 0 <= k <= s.len() ==> #[trigger] total_freq(s.take(k)) <= total_freq(s),
            decreases s.len() - i,
        {
            proof {
                lemma_freq_take(s, i as int);
                lemma_freq_bounds(s.take(i + 1), f);
                assert(total_freq(s.take(i + 1)) <= total_freq(s));
                assert(term(s[i as int], f) == if s[i as int].1@ == v@ { s[i as int].2 as int } else { 0 });
            }
            if self.directly_follows_relations[i].1 == *v {
                sum = sum + self.directly_follows_relations[i].2;
            }
            i = i + 1;
        }
        assert(s.take(s.len() as int) =~= s);
        sum
    }

    /// Sum of the frequencies of the relations leaving `v`.
    pub fn outgoing_frequency(&self, v: &String) -> (r: u128)
        requires
            self.wf(),
        ensures
            r == out_sum(self.relations(), v@),
    {
        let ghost s = self.relations();
        let ghost f = |u: Seq<char>, w: Seq<char>| u == v@;
        let mut sum: u128 = 0;
        let mut i: usize = 0;
        proof {
            lemma_freq_bounds(s, |u: Seq<char>, w: Seq<char>| true);
            assert(s.take(0) =~= Seq::<Relation>::empty());
        }
        while i < self.directly_follows_relations.len()
            invariant
                s == self.relations(),
                self.wf(),
                0 <= i <= s.len(),
                sum == freq_where(s.take(i as int), f),
                f == (|u: Seq<char>, w: Seq<char>| u == v@),
                forall|k: int| 0 <= k <= s.len() ==> #[trigger] total_freq(s.take(k)) <= total_freq(s),
            decreases s.len() - i,
        {
            proof {
                lemma_freq_take(s, i as int);
                lemma_freq_bounds(s.take(i + 1), f);
                assert(total_freq(s.take(i + 1)) <= total_freq(s));
                assert(term(s[i as int], f) == if s[i as int].0@ == v@ { s[i as int].2 as int } else { 0 });
            }
            if self.directly_follows_relations[i].0 == *v {
                sum = sum + self.directly_follows_relations[i].2;
            }
            i = i + 1;
        }
        assert(s.take(s.len() as int) =~= s);
        sum
    }
}

/// The larger of two integers.
pub open spec fn max_int(x: int, y: int) -> int {
    if x >= y {
        x
    } else {
        y
    }
}

/// Sets the frequency of every activity to the larger of the sums of the
/// frequencies of the relations entering and leaving it.
pub fn recalculate_activity_counts(dfg: &mut DirectlyFollowsGraph)
    requires
        old(dfg).wf(),
    ensures
        final(dfg).wf(),
        final(dfg).directly_follows_relations == old(dfg).directly_follows_relations,
        final(dfg).start_activities == old(dfg).start_activities,
        final(dfg).end_activities == old(dfg).end_activities,
        final(dfg).activities.len() == old(dfg).activities.len(),
        forall|k: int|
            0 <= k < final(dfg).activities.len() ==> (#[trigger] final(dfg).activities@[k]).0@
                == old(dfg).activities@[k].0@ && final(dfg).activities@[k].1 == max_int(
                in_sum(final(dfg).relations(), final(dfg).activities@[k].0@),
                out_sum(final(dfg).relations(), final(dfg).activities@[k].0@),
            ),
{
    let mut updated: Vec<(String, u128)> = Vec::new();
    let n = dfg.activities.len();
    let mut i: usize = 0;
    while i < n
        invariant
            n == dfg.activities.len(),
            dfg.wf(),
            *dfg == *old(dfg),
            0 <= i <= n,
            updated.len() == i,
            forall|k: int|
                0 <= k < i ==> (#[trigger] updated@[k]).0@ == dfg.activities@[k].0@ && updated@[k].1 == max_int(
                    in_sum(dfg.relations(), dfg.activities@[k].0@),
                    out_sum(dfg.relations(), dfg.activities@[k].0@),
                ),
        decreases n - i,
    {
        let name = &dfg.activities[i].0;
        let ins = dfg.ingoing_frequency(name);
        let outs = dfg.outgoing_frequency(name);
        let count = if ins >= outs {
            ins
        } else {
            outs
        };
        updated.push((name.clone(), count));
        i = i + 1;
    }
    dfg.activities = updated;
}


/// A relation that touches neither sentinel.
pub open spec fn is_inner(u: Seq<char>, w: Seq<char>) -> bool {
    u != start_name() && w != end_name()
}

/// Turns the sentinels into the start and end activity sets: each relation
/// `start -> x` adds `x` to the start activities, each other relation `x -> end`
/// adds `x` to the end activities, and the vertices `start` and `end` go.
pub fn strip_sentinels(dfg: &mut DirectlyFollowsGraph)
    requires
        old(dfg).wf(),
        distinct_names(old(dfg).start_activities@),
        distinct_names(old(dfg).end_activities@),
    ensures
        final(dfg).wf(),
        positive(old(dfg).relations()) ==> positive(final(dfg).relations()),
        distinct_names(final(dfg).start_activities@),
        distinct_names(final(dfg).end_activities@),
        forall|x: Seq<char>, y: Seq<char>|
            #[trigger] edge_freq(final(dfg).relations(), x, y) == if is_inner(x, y) {
                edge_freq(old(dfg).relations(), x, y)
            } else {
                0
            },
        forall|k: int|
            0 <= k < final(dfg).relations().len() ==> is_inner(
                (#[trigger] final(dfg).relations()[k]).0@,
                final(dfg).relations()[k].1@,
            ),
        forall|x: Seq<char>|
            #[trigger] has_name(final(dfg).start_activities@, x) <==> (has_name(old(dfg).start_activities@, x)
                || exists|k: int|
                0 <= k < old(dfg).relations().len() && (#[trigger] old(dfg).relations()[k]).0@ == start_name()
                    && old(dfg).relations()[k].1@ == x),
        forall|x: Seq<char>|
            #[trigger] has_name(final(dfg).end_activities@, x) <==> (has_name(old(dfg).end_activities@, x)
                || exists|k: int|
                0 <= k < old(dfg).relations().len() && (#[trigger] old(dfg).relations()[k]).0@ != start_name()
                    && old(dfg).relations()[k].1@ == end_name() && old(dfg).relations()[k].0@ == x),
        forall|k: int|
            0 <= k < final(dfg).activities.len() ==> (#[trigger] final(dfg).activities@[k]).0@ != start_name()
                && final(dfg).activities@[k].0@ != end_name() && exists|j: int|
                0 <= j < old(dfg).activities.len() && final(dfg).activities@[k] == old(dfg).activities@[j],
        forall|j: int|
            0 <= j < old(dfg).activities.len() && (#[trigger] old(dfg).activities@[j]).0@ != start_name()
                && old(dfg).activities@[j].0@ != end_name() ==> exists|k: int|
                0 <= k < final(dfg).activities.len() && final(dfg).activities@[k] == old(dfg).activities@[j],
{
    let ghost rels = old(dfg).relations();
    let start = start_string();
    let end = end_string();
    let mut kept: Vec<Relation> = Vec::new();
    let mut i: usize = 0;
    assert(rels.take(0) =~= Seq::<Relation>::empty());
    while i < dfg.directly_follows_relations.len()
        invariant
            rels == dfg.relations(),
            dfg.activities == old(dfg).activities,
            old(dfg).wf(),
            rels == old(dfg).relations(),
            start@ == start_name(),
            end@ == end_name(),
            0 <= i <= rels.len(),
            distinct_names(dfg.start_activities@),
            distinct_names(dfg.end_activities@),
            forall|x: Seq<char>, y: Seq<char>|
                #[trigger] edge_freq(kept@, x, y) == if is_inner(x, y) {
                    edge_freq(rels.take(i as int), x, y)
                } else {
                    0
                },
            total_freq(kept@) <= total_freq(rels.take(i as int)),
            forall|k: int| 0 <= k < kept.len() ==> is_inner((#[trigger] kept@[k]).0@, kept@[k].1@),
            forall|k: int| #![trigger kept@[k]] 0 <= k < kept.len() ==> exists|j: int| 0 <= j < i && #[trigger] rels[j] == kept@[k],
            forall|a: int, b: int| 0 <= a < b < kept.len() ==> (#[trigger] kept@[a].0@, kept@[a].1@) != (#[trigger] kept@[b].0@, kept@[b].1@),
            forall|x: Seq<char>|
                #[trigger] has_name(dfg.start_activities@, x) <==> (has_name(old(dfg).start_activities@, x)
                    || exists|k: int|
                    0 <= k < i && (#[trigger] rels[k]).0@ == start_name() && rels[k].1@ == x),
            forall|x: Seq<char>|
                #[trigger] has_name(dfg.end_activities@, x) <==> (has_name(old(dfg).end_activities@, x)
                    || exists|k: int|
                    0 <= k < i && (#[trigger] rels[k]).0@ != start_name() && rels[k].1@ == end_name()
                        && rels[k].0@ == x),
        decreases rels.len() - i,
    {
        let ghost before_kept = kept@;
        let (from, to, freq) = (
            &dfg.directly_follows_relations[i].0,
            &dfg.directly_follows_relations[i].1,
            dfg.directly_follows_relations[i].2,
        );
        proof {
            assert(rels.take(i + 1).drop_last() =~= rels.take(i as int));
            assert(rels.take(i + 1).last() == rels[i as int]);
            crate::dfg::lemma_freq_bounds(rels, |u: Seq<char>, w: Seq<char>| true);
        }
        if *from == start {
            let x = to.clone();
            add_name(&mut dfg.start_activities, &x);
            proof {
                assert forall|y: Seq<char>| #[trigger] has_name(dfg.start_activities@, y) <==> (has_name(old(dfg).start_activities@, y)
                    || exists|k: int| 0 <= k < i + 1 && (#[trigger] rels[k]).0@ == start_name() && rels[k].1@ == y) by {
                    if y == x@ {
                        assert(rels[i as int].0@ == start_name() && rels[i as int].1@ == y);
                    }
                }
            }
        } else if *to == end {
            let x = from.clone();
            add_name(&mut dfg.end_activities, &x);
            proof {
                assert forall|y: Seq<char>| #[trigger] has_name(dfg.end_activities@, y) <==> (has_name(old(dfg).end_activities@, y)
                    || exists|k: int| 0 <= k < i + 1 && (#[trigger] rels[k]).0@ != start_name() && rels[k].1@ == end_name()
                        && rels[k].0@ == y) by {
                    if y == x@ {
                        assert(rels[i as int].0@ != start_name() && rels[i as int].1@ == end_name() && rels[i as int].0@ == y);
                    }
                }
            }
        } else {
            let e = (from.clone(), to.clone(), freq);
            proof {
                lemma_freq_push(kept@, e);
                lemma_freq_take(rels, i as int);
                assert forall|a: int| 0 <= a < kept.len() implies (kept@[a].0@, kept@[a].1@) != (e.0@, e.1@) by {
                    assert(exists|j: int| 0 <= j < i && #[trigger] rels[j] == kept@[a]);
                    let j = choose|j: int| 0 <= j < i && #[trigger] rels[j] == kept@[a];
                    assert(kept@[a].0@ == rels[j].0@ && kept@[a].1@ == rels[j].1@);
                    assert(e.0@ == rels[i as int].0@ && e.1@ == rels[i as int].1@);
                    assert((rels[j].0@, rels[j].1@) != (rels[i as int].0@, rels[i as int].1@));
                }
            }
            kept.push(e);
            proof {
                assert forall|x: Seq<char>, y: Seq<char>| #[trigger] edge_freq(kept@, x, y) == if is_inner(x, y) {
                    edge_freq(rels.take(i + 1), x, y)
                } else {
                    0
                } by {
                    lemma_freq_push(before_kept, e);
                    lemma_freq_take(rels, i as int);
                    assert(kept@ == before_kept.push(e));
                    assert(edge_freq(kept@, x, y) == edge_freq(before_kept, x, y) + (if e.0@ == x && e.1@ == y {
                        e.2 as int
                    } else {
                        0
                    }));
                    assert(edge_freq(rels.take(i + 1), x, y) == edge_freq(rels.take(i as int), x, y) + (if rels[i as int].0@
                        == x && rels[i as int].1@ == y {
                        rels[i as int].2 as int
                    } else {
                        0
                    }));
                    assert(e.0@ == rels[i as int].0@ && e.1@ == rels[i as int].1@ && e.2 == rels[i as int].2);
                }
                assert forall|k: int| #![trigger kept@[k]] 0 <= k < kept.len() implies exists|j: int| 0 <= j < i + 1 && #[trigger] rels[j] == kept@[k] by {
                    if k < before_kept.len() {
                        assert(kept@[k] == before_kept[k]);
                    } else {
                        assert(rels[i as int].0@ == e.0@);
                    }
                }
            }
        }
        i = i + 1;
    }
    assert(rels.take(i as int) =~= rels);
    proof {
        if positive(rels) {
            assert forall|k: int| 0 <= k < kept.len() implies (#[trigger] kept@[k]).2 > 0 by {
                let j = choose|j: int| 0 <= j < i && #[trigger] rels[j] == kept@[k];
            }
        }
    }
    dfg.directly_follows_relations = kept;
    let mut acts: Vec<(String, u128)> = Vec::new();
    let ghost mut idx: Seq<int> = Seq::empty();
    let mut j: usize = 0;
    while j < dfg.activities.len()
        invariant
            dfg.activities == old(dfg).activities,
            start@ == start_name(),
            end@ == end_name(),
            old(dfg).wf(),
            0 <= j <= dfg.activities.len(),
            idx.len() == acts.len(),
            forall|k: int| 0 <= k < acts.len() ==> 0 <= #[trigger] idx[k] < j && acts@[k] == dfg.activities@[idx[k]],
            forall|a: int, b: int| 0 <= a < b < acts.len() ==> idx[a] < idx[b],
            forall|k: int| 0 <= k < acts.len() ==> (#[trigger] acts@[k]).0@ != start_name() && acts@[k].0@ != end_name(),
            forall|m: int|
                0 <= m < j && (#[trigger] dfg.activities@[m]).0@ != start_name() && dfg.activities@[m].0@ != end_name()
                    ==> exists|k: int| 0 <= k < acts.len() && acts@[k] == dfg.activities@[m],
        decreases dfg.activities.len() - j,
    {
        let ghost before = acts@;
        if dfg.activities[j].0 != start && dfg.activities[j].0 != end {
            let name = dfg.activities[j].0.clone();
            acts.push((name, dfg.activities[j].1));
            proof {
                idx = idx.push(j as int);
                assert(acts@[acts.len() - 1] == dfg.activities@[j as int]);
                assert forall|m: int|
                    0 <= m < j + 1 && (#[trigger] dfg.activities@[m]).0@ != start_name() && dfg.activities@[m].0@
                        != end_name() implies exists|k: int| 0 <= k < acts.len() && acts@[k] == dfg.activities@[m] by {
                    if m < j {
                        let k = choose|k: int| 0 <= k < before.len() && before[k] == dfg.activities@[m];
                        assert(acts@[k] == before[k]);
                    } else {
                        assert(acts@[acts.len() - 1] == dfg.activities@[m]);
                    }
                }
            }
        }
        j = j + 1;
    }
    proof {
        assert forall|a: int, b: int| 0 <= a < b < acts.len() implies acts@[a].0@ != acts@[b].0@ by {
            assert(idx[a] < idx[b]);
        }
        assert forall|k: int| #![trigger acts@[k]] 0 <= k < acts.len() implies exists|j: int|
            0 <= j < old(dfg).activities.len() && acts@[k] == old(dfg).activities@[j] by {
            assert(acts@[k] == old(dfg).activities@[idx[k]]);
        }
    }
    dfg.activities = acts;
}

} // verus!
