//! The merge engine: directly-follows edges of one shared case, obtained by an
//! oblivious interleave of the two sides' events.
use vstd::prelude::*;
use vstd::multiset::*;
use vstd::seq_lib::*;
use crate::facade::{bumped, lemma_bumped_twice, not, le, select, OperationCounts};

verus! {

/// A directly-follows edge between two activity codes.
pub type Edge = (u16, u16);

/// Timestamps in non-decreasing order.
pub open spec fn sorted(t: Seq<u64>) -> bool {
    forall|i: int, j: int| 0 <= i <= j < t.len() ==> t[i] <= t[j]
}

/// Events of both sides from positions `i` of `a` and `j` of `b` on, in
/// chronological order; on equal timestamps the event of `a` comes first.
pub open spec fn merge_from<T>(a: Seq<T>, ta: Seq<u64>, b: Seq<T>, tb: Seq<u64>, i: int, j: int) -> Seq<T>
    decreases (a.len() - i) + (b.len() - j),
{
    if i < 0 || j < 0 || i > a.len() || j > b.len() {
        Seq::empty()
    } else if i < a.len() && (j >= b.len() || ta[i] <= tb[j]) {
        seq![a[i]] + merge_from(a, ta, b, tb, i + 1, j)
    } else if j < b.len() {
        seq![b[j]] + merge_from(a, ta, b, tb, i, j + 1)
    } else {
        Seq::empty()
    }
}

/// The chronological interleave of the two sides of a case.
pub open spec fn merged_trace<T>(a: Seq<T>, ta: Seq<u64>, b: Seq<T>, tb: Seq<u64>) -> Seq<T> {
    merge_from(a, ta, b, tb, 0, 0)
}

/// Directly-follows edges of trace `s` framed by the `start` and `end` sentinels.
pub open spec fn df_edges<T>(s: Seq<T>, start: T, end: T) -> Seq<(T, T)> {
    let full = seq![start] + s + seq![end];
    Seq::new(s.len() + 1, |k: int| (full[k], full[k + 1]))
}

/// Directly-follows edges of one case: none when both sides are empty.
pub open spec fn case_edges<T>(a: Seq<T>, ta: Seq<u64>, b: Seq<T>, tb: Seq<u64>, start: T, end: T) -> Seq<(T, T)> {
    if a.len() == 0 && b.len() == 0 {
        Seq::empty()
    } else {
        df_edges(merged_trace(a, ta, b, tb), start, end)
    }
}

/// Smallest index from `k` on at which `row` holds, or `row.len()` if none.
pub open spec fn first_true(row: Seq<bool>, k: int) -> int
    decreases row.len() - k,
{
    if k < 0 || k >= row.len() {
        row.len() as int
    } else if row[k] {
        k
    } else {
        first_true(row, k + 1)
    }
}

/// The index that `first_true` finds lies between `k` and the row's length.
pub proof fn lemma_first_true_bounds(row: Seq<bool>, k: int)
    requires
        0 <= k <= row.len(),
    ensures
        k <= first_true(row, k) <= row.len(),
        first_true(row, k) < row.len() ==> row[first_true(row, k)],
    decreases row.len() - k,
{
    if k < row.len() && !row[k] {
        lemma_first_true_bounds(row, k + 1);
    }
}

/// The activity that follows event `pos` of one side: the first event `k` of the
/// other side that does not precede it, when that event also precedes event
/// `pos + 1`; else `next`, the side's own following event.
pub open spec fn following(pos: int, next: u16, other: Seq<u16>, this_to_other: Seq<Vec<bool>>, other_to_this: Seq<Vec<bool>>) -> u16 {
    let k = first_true(this_to_other[pos]@, 0);
    if k < other.len() && other_to_this[k]@[pos + 1] {
        other[k]
    } else {
        next
    }
}

/// The activity that follows the last event `pos` of one side: the first event
/// of the other side that does not precede it, else `end`.
pub open spec fn last_following(pos: int, other: Seq<u16>, this_to_other: Seq<Vec<bool>>, end: u16) -> u16 {
    let k = first_true(this_to_other[pos]@, 0);
    if k < other.len() {
        other[k]
    } else {
        end
    }
}

/// Finds the encrypted activity that follows event `pos` of one side, given the
/// comparison tables between the two sides.
pub fn find_following_activity(
    pos: usize,
    next_activity: u16,
    other_activities: &Vec<u16>,
    this_to_other: &Vec<Vec<bool>>,
    other_to_this: &Vec<Vec<bool>>,
    counts: &mut OperationCounts,
) -> (r: u16)
    requires
        pos < this_to_other.len(),
        this_to_other[pos as int]@.len() == other_activities.len(),
        other_to_this.len() == other_activities.len(),
        forall|k: int| 0 <= k < other_to_this.len() ==> pos + 1 < #[trigger] other_to_this[k]@.len(),
    ensures
        r == following(pos as int, next_activity, other_activities@, this_to_other@, other_to_this@),
        final(counts).selections == bumped(old(counts).selections, 2 * other_activities.len()),
        final(counts).timestamp_comparisons == old(counts).timestamp_comparisons,
        final(counts).case_id_comparisons == old(counts).case_id_comparisons,
{
    let ghost row = this_to_other[pos as int]@;
    let ghost n = other_activities.len() as int;
    let mut result: u16 = next_activity;
    let mut k: usize = other_activities.len();
    while k > 0
        invariant
            0 <= k <= n,
            n == other_activities.len(),
            pos < this_to_other.len(),
            row == this_to_other[pos as int]@,
            row.len() == n,
            other_to_this.len() == n,
            forall|m: int| 0 <= m < other_to_this.len() ==> pos + 1 < #[trigger] other_to_this[m]@.len(),
            result == (if first_true(row, k as int) < n && other_to_this[first_true(row, k as int)]@[pos + 1] {
                other_activities@[first_true(row, k as int)]
            } else {
                next_activity
            }),
            counts.selections == bumped(old(counts).selections, 2 * (n - k)),
            counts.timestamp_comparisons == old(counts).timestamp_comparisons,
            counts.case_id_comparisons == old(counts).case_id_comparisons,
        decreases k,
    {
        k = k - 1;
        proof {
            lemma_first_true_bounds(row, k as int + 1);
        }
        let candidate = select(other_to_this[k][pos + 1], other_activities[k], next_activity);
        result = select(this_to_other[pos][k], candidate, result);
        proof {
            lemma_bumped_twice(old(counts).selections, 2 * (n - k - 1), 2);
        }
        counts.add_selections(2);
    }
    result
}

/// Finds the encrypted activity that follows the last event `pos` of one side.
pub fn handle_last(pos: usize, other_activities: &Vec<u16>, this_to_other: &Vec<Vec<bool>>, end: u16) -> (r: u16)
    requires
        pos < this_to_other.len(),
        this_to_other[pos as int]@.len() == other_activities.len(),
    ensures
        r == last_following(pos as int, other_activities@, this_to_other@, end),
{
    let ghost row = this_to_other[pos as int]@;
    let ghost n = other_activities.len() as int;
    let mut result: u16 = end;
    let mut k: usize = other_activities.len();
    while k > 0
        invariant
            0 <= k <= n,
            n == other_activities.len(),
            pos < this_to_other.len(),
            row == this_to_other[pos as int]@,
            row.len() == n,
            result == (if first_true(row, k as int) < n { other_activities@[first_true(row, k as int)] } else { end }),
        decreases k,
    {
        k = k - 1;
        proof {
            lemma_first_true_bounds(row, k as int + 1);
        }
        result = select(this_to_other[pos][k], other_activities[k], result);
    }
    result
}


/// `t[i][j]` tells whether `ta[i] <= tb[j]`.
pub open spec fn is_le_table(ta: Seq<u64>, tb: Seq<u64>, t: Seq<Vec<bool>>) -> bool {
    &&& t.len() == ta.len()
    &&& forall|i: int| 0 <= i < ta.len() ==> (#[trigger] t[i])@.len() == tb.len()
    &&& forall|i: int, j: int| 0 <= i < ta.len() && 0 <= j < tb.len() ==> t[i]@[j] == (ta[i] <= tb[j])
}

/// `t[j][i]` tells whether `tb[j] < ta[i]`, the negation of `ta[i] <= tb[j]`.
pub open spec fn is_lt_table(tb: Seq<u64>, ta: Seq<u64>, t: Seq<Vec<bool>>) -> bool {
    &&& t.len() == tb.len()
    &&& forall|j: int| 0 <= j < tb.len() ==> (#[trigger] t[j])@.len() == ta.len()
    &&& forall|j: int, i: int| 0 <= j < tb.len() && 0 <= i < ta.len() ==> t[j]@[i] == !(ta[i] <= tb[j])
}

/// Selections that the interleave of a case with `p` and `q` events spends.
pub open spec fn merge_selections(p: int, q: int) -> int {
    if p == 0 || q == 0 {
        0
    } else {
        1 + 2 * q * (p - 1) + 2 * p * (q - 1) + 2
    }
}

/// The source of each edge, in order.
pub open spec fn sources(s: Seq<Edge>) -> Seq<u16> {
    s.map_values(|e: Edge| e.0)
}

/// Edges of a whole trace when the other side of its case is empty.
pub open spec fn full_trace_edges(s: Seq<u16>, start: u16, end: u16) -> Seq<Edge> {
    if s.len() == 0 {
        Seq::empty()
    } else {
        seq![(start, s[0]), (s[s.len() - 1], end)] + Seq::new((s.len() - 1) as nat, |k: int| (s[k], s[k + 1]))
    }
}

/// Builds the cached comparison tables `ta[i] <= tb[j]` and its negation.
pub fn comparison_tables(ta: &Vec<u64>, tb: &Vec<u64>, counts: &mut OperationCounts) -> (r: (Vec<Vec<bool>>, Vec<Vec<bool>>))
    ensures
        is_le_table(ta@, tb@, r.0@),
        is_lt_table(tb@, ta@, r.1@),
        final(counts).timestamp_comparisons == bumped(old(counts).timestamp_comparisons, 2 * ta.len() * tb.len()),
        final(counts).selections == old(counts).selections,
        final(counts).case_id_comparisons == old(counts).case_id_comparisons,
{
    let p = ta.len();
    let q = tb.len();
    let ghost c0 = old(counts).timestamp_comparisons;
    let mut le_ab: Vec<Vec<bool>> = Vec::new();
    let mut i: usize = 0;
    while i < p
        invariant
            p == ta.len(),
            q == tb.len(),
            0 <= i <= p,
            le_ab.len() == i,
            forall|k: int| 0 <= k < i ==> (#[trigger] le_ab@[k])@.len() == q,
            forall|k: int, j: int| 0 <= k < i && 0 <= j < q ==> le_ab@[k]@[j] == (ta@[k] <= tb@[j]),
            counts.timestamp_comparisons == bumped(c0, i * q),
            counts.selections == old(counts).selections,
            counts.case_id_comparisons == old(counts).case_id_comparisons,
        decreases p - i,
    {
        let mut row: Vec<bool> = Vec::new();
        let mut j: usize = 0;
        while j < q
            invariant
                p == ta.len(),
                q == tb.len(),
                0 <= i < p,
                0 <= j <= q,
                row.len() == j,
                forall|m: int| 0 <= m < j ==> row@[m] == (ta@[i as int] <= tb@[m]),
                counts.timestamp_comparisons == bumped(c0, i * q + j),
                counts.selections == old(counts).selections,
                counts.case_id_comparisons == old(counts).case_id_comparisons,
            decreases q - j,
        {
            row.push(le(ta[i], tb[j]));
            proof {
                lemma_bumped_twice(c0, i * q + j, 1);
            }
            counts.add_timestamp_comparisons(1);
            j = j + 1;
        }
        le_ab.push(row);
        proof {
            assert((i + 1) * q == i * q + q) by (nonlinear_arith);
        }
        i = i + 1;
    }
    let mut lt_ba: Vec<Vec<bool>> = Vec::new();
    let mut j: usize = 0;
    while j < q
        invariant
            p == ta.len(),
            q == tb.len(),
            0 <= j <= q,
            is_le_table(ta@, tb@, le_ab@),
            lt_ba.len() == j,
            forall|k: int| 0 <= k < j ==> (#[trigger] lt_ba@[k])@.len() == p,
            forall|k: int, m: int| 0 <= k < j && 0 <= m < p ==> lt_ba@[k]@[m] == !(ta@[m] <= tb@[k]),
            counts.timestamp_comparisons == bumped(c0, p * q + j * p),
            counts.selections == old(counts).selections,
            counts.case_id_comparisons == old(counts).case_id_comparisons,
        decreases q - j,
    {
        let mut row: Vec<bool> = Vec::new();
        let mut m: usize = 0;
        while m < p
            invariant
                p == ta.len(),
                q == tb.len(),
                0 <= j < q,
                0 <= m <= p,
                is_le_table(ta@, tb@, le_ab@),
                row.len() == m,
                forall|x: int| 0 <= x < m ==> row@[x] == !(ta@[x] <= tb@[j as int]),
                counts.timestamp_comparisons == bumped(c0, p * q + j * p + m),
                counts.selections == old(counts).selections,
                counts.case_id_comparisons == old(counts).case_id_comparisons,
            decreases p - m,
        {
            row.push(not(le_ab[m][j]));
            proof {
                lemma_bumped_twice(c0, p * q + j * p + m, 1);
            }
            counts.add_timestamp_comparisons(1);
            m = m + 1;
        }
        lt_ba.push(row);
        proof {
            assert((j + 1) * p == j * p + p) by (nonlinear_arith);
        }
        j = j + 1;
    }
    proof {
        assert(p * q + q * p == 2 * p * q) by (nonlinear_arith);
    }
    (le_ab, lt_ba)
}

/// Adds the edges of a whole trace, framed by the sentinels, when the other side
/// of its case is empty; no homomorphic work is needed.
pub fn add_full_trace(activities: &Vec<u16>, result: &mut Vec<Edge>, start: u16, end: u16)
    ensures
        final(result)@ == old(result)@ + full_trace_edges(activities@, start, end),
{
    let n = activities.len();
    if n == 0 {
        assert(full_trace_edges(activities@, start, end) =~= Seq::<Edge>::empty());
        assert(old(result)@ + Seq::<Edge>::empty() =~= old(result)@);
        return;
    }
    result.push((start, activities[0]));
    result.push((activities[n - 1], end));
    let ghost base = result@;
    let mut i: usize = 0;
    while i + 1 < n
        invariant
            n == activities.len(),
            n > 0,
            0 <= i <= n - 1,
            result@ == base + Seq::new(i as nat, |k: int| (activities@[k], activities@[k + 1])),
        decreases n - i,
    {
        result.push((activities[i], activities[i + 1]));
        proof {
            assert(base + Seq::new((i + 1) as nat, |k: int| (activities@[k], activities@[k + 1])) =~= base
                + Seq::new(i as nat, |k: int| (activities@[k], activities@[k + 1])) + seq![(activities@[i as int], activities@[i + 1])]);
        }
        i = i + 1;
    }
    assert(result@ =~= old(result)@ + full_trace_edges(activities@, start, end));
}


/// Edges from `x` along `s` and on to `end`.
pub open spec fn follow_edges(x: u16, s: Seq<u16>, end: u16) -> Seq<Edge> {
    Seq::new(s.len() + 1, |k: int| ((seq![x] + s)[k], (s + seq![end])[k]))
}

/// What the interleave emits for event `i` of side `a`.
pub open spec fn successor_a(i: int, a: Seq<u16>, b: Seq<u16>, le_ab: Seq<Vec<bool>>, lt_ba: Seq<Vec<bool>>, end: u16) -> u16 {
    if i < a.len() - 1 {
        following(i, a[i + 1], b, le_ab, lt_ba)
    } else {
        last_following(i, b, le_ab, end)
    }
}

/// What the interleave emits for event `j` of side `b`.
pub open spec fn successor_b(j: int, a: Seq<u16>, b: Seq<u16>, le_ab: Seq<Vec<bool>>, lt_ba: Seq<Vec<bool>>, end: u16) -> u16 {
    if j < b.len() - 1 {
        following(j, b[j + 1], a, lt_ba, le_ab)
    } else {
        last_following(j, a, lt_ba, end)
    }
}

/// The interleave's edges out of the events of side `a` from `i` on.
pub open spec fn side_a_edges(i: int, a: Seq<u16>, b: Seq<u16>, le_ab: Seq<Vec<bool>>, lt_ba: Seq<Vec<bool>>, end: u16) -> Seq<Edge> {
    Seq::new((a.len() - i) as nat, |k: int| (a[i + k], successor_a(i + k, a, b, le_ab, lt_ba, end)))
}

/// The interleave's edges out of the events of side `b` from `j` on.
pub open spec fn side_b_edges(j: int, a: Seq<u16>, b: Seq<u16>, le_ab: Seq<Vec<bool>>, lt_ba: Seq<Vec<bool>>, end: u16) -> Seq<Edge> {
    Seq::new((b.len() - j) as nat, |k: int| (b[j + k], successor_b(j + k, a, b, le_ab, lt_ba, end)))
}

proof fn lemma_first_true_is(row: Seq<bool>, k: int, j: int)
    requires
        0 <= k <= j <= row.len(),
        forall|m: int| 0 <= m < j ==> !row[m],
        j < row.len() ==> row[j],
    ensures
        first_true(row, k) == j,
    decreases j - k,
{
    if k < j {
        lemma_first_true_is(row, k + 1, j);
    }
}

proof fn lemma_follow_cons(x: u16, y: u16, s: Seq<u16>, end: u16)
    ensures
        follow_edges(x, seq![y] + s, end) =~= seq![(x, y)] + follow_edges(y, s, end),
{
    let l = follow_edges(x, seq![y] + s, end);
    let r = seq![(x, y)] + follow_edges(y, s, end);
    assert forall|k: int| 0 <= k < l.len() implies l[k] == r[k] by {
        if k > 0 {
            assert((seq![x] + (seq![y] + s))[k] == (seq![y] + s)[k - 1]);
            assert(((seq![y] + s) + seq![end])[k] == (s + seq![end])[k - 1]);
        }
    }
}

proof fn lemma_singleton_multiset(e: Edge)
    ensures
        seq![e].to_multiset() =~= Multiset::singleton(e),
{
    broadcast use group_to_multiset_ensures, group_multiset_axioms;
    assert(seq![e] =~= Seq::<Edge>::empty().push(e));
}

proof fn lemma_cons_multiset(e: Edge, s: Seq<Edge>)
    ensures
        (seq![e] + s).to_multiset() =~= Multiset::singleton(e).add(s.to_multiset()),
{
    lemma_multiset_commutative(seq![e], s);
    lemma_singleton_multiset(e);
}

/// From a state `(i, j)` that the chronological merge reaches, the edges from `x`
/// along the rest of the merge are the edge into the next merged event plus the
/// interleave's edges out of every remaining event.
proof fn lemma_merge_edges(
    a: Seq<u16>, ta: Seq<u64>, b: Seq<u16>, tb: Seq<u64>,
    le_ab: Seq<Vec<bool>>, lt_ba: Seq<Vec<bool>>, end: u16, i: int, j: int, x: u16,
)
    requires
        a.len() == ta.len(),
        b.len() == tb.len(),
        sorted(ta),
        sorted(tb),
        is_le_table(ta, tb, le_ab),
        is_lt_table(tb, ta, lt_ba),
        0 <= i <= a.len(),
        0 <= j <= b.len(),
        i < a.len() ==> forall|k: int| 0 <= k < j ==> tb[k] < ta[i],
        j < b.len() ==> forall|k: int| 0 <= k < i ==> ta[k] <= tb[j],
    ensures
        follow_edges(x, merge_from(a, ta, b, tb, i, j), end).to_multiset() =~= Multiset::singleton(
            (x, (merge_from(a, ta, b, tb, i, j) + seq![end])[0]),
        ).add(side_a_edges(i, a, b, le_ab, lt_ba, end).to_multiset()).add(
            side_b_edges(j, a, b, le_ab, lt_ba, end).to_multiset(),
        ),
    decreases (a.len() - i) + (b.len() - j),
{
    broadcast use group_multiset_axioms;
    let m = merge_from(a, ta, b, tb, i, j);
    let sa = side_a_edges(i, a, b, le_ab, lt_ba, end);
    let sb = side_b_edges(j, a, b, le_ab, lt_ba, end);
    if i < a.len() && (j >= b.len() || ta[i] <= tb[j]) {
        let rest = merge_from(a, ta, b, tb, i + 1, j);
        assert(m == seq![a[i]] + rest);
        lemma_follow_cons(x, a[i], rest, end);
        lemma_merge_edges(a, ta, b, tb, le_ab, lt_ba, end, i + 1, j, a[i]);
        lemma_cons_multiset((x, a[i]), follow_edges(a[i], rest, end));
        // the interleave's successor of a[i] is the next merged event
        let row = le_ab[i]@;
        assert forall|k: int| 0 <= k < j implies !row[k] by {
            assert(tb[k] < ta[i]);
        }
        lemma_first_true_is(row, 0, j);
        let nxt = (rest + seq![end])[0];
        if i + 1 < a.len() {
            if j < b.len() && !(ta[i + 1] <= tb[j]) {
                assert(rest == seq![b[j]] + merge_from(a, ta, b, tb, i + 1, j + 1));
            } else {
                assert(rest == seq![a[i + 1]] + merge_from(a, ta, b, tb, i + 2, j));
            }
        } else if j < b.len() {
            assert(rest == seq![b[j]] + merge_from(a, ta, b, tb, i + 1, j + 1));
        } else {
            assert(rest == Seq::<u16>::empty());
        }
        assert(successor_a(i, a, b, le_ab, lt_ba, end) == nxt);
        let sa1 = side_a_edges(i + 1, a, b, le_ab, lt_ba, end);
        assert(sa =~= seq![(a[i], nxt)] + sa1);
        lemma_cons_multiset((a[i], nxt), sa1);
        assert((m + seq![end])[0] == a[i]);
        assert forall|k: int| 0 <= k < j && i + 1 < a.len() implies tb[k] < ta[i + 1] by {
            assert(ta[i] <= ta[i + 1]);
        }
        assert(follow_edges(x, m, end).to_multiset() =~= Multiset::singleton((x, (m + seq![end])[0])).add(
            sa.to_multiset()).add(sb.to_multiset()));
    } else if j < b.len() {
        let rest = merge_from(a, ta, b, tb, i, j + 1);
        assert(m == seq![b[j]] + rest);
        lemma_follow_cons(x, b[j], rest, end);
        lemma_merge_edges(a, ta, b, tb, le_ab, lt_ba, end, i, j + 1, b[j]);
        lemma_cons_multiset((x, b[j]), follow_edges(b[j], rest, end));
        let row = lt_ba[j]@;
        assert forall|k: int| 0 <= k < i implies !row[k] by {
            assert(ta[k] <= tb[j]);
        }
        lemma_first_true_is(row, 0, i);
        let nxt = (rest + seq![end])[0];
        if j + 1 < b.len() {
            if i < a.len() && ta[i] <= tb[j + 1] {
                assert(rest == seq![a[i]] + merge_from(a, ta, b, tb, i + 1, j + 1));
            } else {
                assert(rest == seq![b[j + 1]] + merge_from(a, ta, b, tb, i, j + 2));
            }
        } else if i < a.len() {
            assert(rest == seq![a[i]] + merge_from(a, ta, b, tb, i + 1, j + 1));
        } else {
            assert(rest == Seq::<u16>::empty());
        }
        assert(successor_b(j, a, b, le_ab, lt_ba, end) == nxt);
        let sb1 = side_b_edges(j + 1, a, b, le_ab, lt_ba, end);
        assert(sb =~= seq![(b[j], nxt)] + sb1);
        lemma_cons_multiset((b[j], nxt), sb1);
        assert((m + seq![end])[0] == b[j]);
        assert forall|k: int| 0 <= k < i && j + 1 < b.len() implies ta[k] <= tb[j + 1] by {
            assert(tb[j] <= tb[j + 1]);
        }
        assert(follow_edges(x, m, end).to_multiset() =~= Multiset::singleton((x, (m + seq![end])[0])).add(
            sa.to_multiset()).add(sb.to_multiset()));
    } else {
        assert(m == Seq::<u16>::empty());
        assert(sa =~= Seq::<Edge>::empty());
        assert(sb =~= Seq::<Edge>::empty());
        assert(follow_edges(x, m, end) =~= seq![(x, end)]);
        lemma_singleton_multiset((x, end));
        broadcast use group_to_multiset_ensures;
        assert(sa.to_multiset().len() == 0);
        assert(sb.to_multiset().len() == 0);
        assert((m + seq![end])[0] == end);
        assert(follow_edges(x, m, end).to_multiset() =~= Multiset::singleton((x, (m + seq![end])[0])).add(
            sa.to_multiset()).add(sb.to_multiset()));
    }
}


/// With one side empty, the merge is the other side from its position on.
pub proof fn lemma_merge_one_side<T>(a: Seq<T>, ta: Seq<u64>, b: Seq<T>, tb: Seq<u64>, i: int, j: int)
    requires
        0 <= i <= a.len(),
        0 <= j <= b.len(),
        a.len() == 0 || b.len() == 0,
    ensures
        b.len() == 0 ==> merge_from(a, ta, b, tb, i, j) =~= a.subrange(i, a.len() as int),
        a.len() == 0 ==> merge_from(a, ta, b, tb, i, j) =~= b.subrange(j, b.len() as int),
    decreases (a.len() - i) + (b.len() - j),
{
    if i < a.len() {
        lemma_merge_one_side(a, ta, b, tb, i + 1, j);
    } else if j < b.len() {
        lemma_merge_one_side(a, ta, b, tb, i, j + 1);
    }
}

proof fn lemma_full_trace_edges(s: Seq<u16>, start: u16, end: u16)
    requires
        s.len() > 0,
    ensures
        full_trace_edges(s, start, end).to_multiset() =~= df_edges(s, start, end).to_multiset(),
{
    broadcast use group_multiset_axioms;
    let mid = Seq::new((s.len() - 1) as nat, |k: int| (s[k], s[k + 1]));
    let e0 = (start, s[0]);
    let e1 = (s[s.len() - 1], end);
    let d = df_edges(s, start, end);
    assert(d =~= seq![e0] + mid + seq![e1]) by {
        let full = seq![start] + s + seq![end];
        assert forall|k: int| 0 <= k < d.len() implies d[k] == (seq![e0] + mid + seq![e1])[k] by {
            if 0 < k < s.len() {
                assert(full[k] == s[k - 1]);
                assert(full[k + 1] == s[k]);
            }
        }
    }
    assert(seq![e0, e1] =~= seq![e0] + seq![e1]);
    lemma_multiset_commutative(seq![e0], seq![e1]);
    lemma_multiset_commutative(seq![e0] + seq![e1], mid);
    lemma_multiset_commutative(seq![e0], mid);
    lemma_multiset_commutative(seq![e0] + mid, seq![e1]);
}

proof fn lemma_full_trace_sources(s: Seq<u16>, start: u16, end: u16)
    requires
        s.len() > 0,
    ensures
        sources(full_trace_edges(s, start, end)).to_multiset() == (seq![start] + s).to_multiset(),
{
    broadcast use group_multiset_axioms;
    let n = s.len() as int;
    let src = sources(full_trace_edges(s, start, end));
    assert(src =~= seq![start, s[n - 1]] + s.take(n - 1));
    assert(seq![start] + s =~= seq![start] + s.take(n - 1) + seq![s[n - 1]]);
    assert(seq![start, s[n - 1]] =~= seq![start] + seq![s[n - 1]]);
    lemma_multiset_commutative(seq![start] + seq![s[n - 1]], s.take(n - 1));
    lemma_multiset_commutative(seq![start], seq![s[n - 1]]);
    lemma_multiset_commutative(seq![start] + s.take(n - 1), seq![s[n - 1]]);
    lemma_multiset_commutative(seq![start], s.take(n - 1));
}

proof fn lemma_sources_shuffle(start: u16, a: Seq<u16>, b: Seq<u16>)
    requires
        a.len() > 0,
        b.len() > 0,
    ensures
        (seq![start] + a.take(a.len() - 1) + b.take(b.len() - 1) + seq![a[a.len() - 1]] + seq![
            b[b.len() - 1],
        ]).to_multiset() == (seq![start] + a + b).to_multiset(),
{
    broadcast use group_multiset_axioms;
    let a0 = a.take(a.len() - 1);
    let b0 = b.take(b.len() - 1);
    let x = seq![a[a.len() - 1]];
    let y = seq![b[b.len() - 1]];
    let st = seq![start];
    assert(a =~= a0 + x);
    assert(b =~= b0 + y);
    lemma_multiset_commutative(st + a0 + b0 + x, y);
    lemma_multiset_commutative(st + a0 + b0, x);
    lemma_multiset_commutative(st + a0, b0);
    lemma_multiset_commutative(st, a0);
    lemma_multiset_commutative(st + a, b);
    lemma_multiset_commutative(st, a);
    lemma_multiset_commutative(a0, x);
    lemma_multiset_commutative(b0, y);
}

proof fn lemma_df_is_follow(s: Seq<u16>, start: u16, end: u16)
    ensures
        df_edges(s, start, end) =~= follow_edges(start, s, end),
{
    let full = seq![start] + s + seq![end];
    assert forall|k: int| 0 <= k < s.len() + 1 implies full[k] == (seq![start] + s)[k] && full[k + 1] == (s
        + seq![end])[k] by {}
}

/// Computes the encrypted directly-follows edges of one case from the two sides'
/// encrypted activities and timestamps. The edges leave in no particular order:
/// what is fixed is their multiset, that of the chronological merge of both sides.
pub fn find_secrets_for_case(
    foreign_activities: &Vec<u16>,
    foreign_timestamps: &Vec<u64>,
    own_activities: &Vec<u16>,
    own_timestamps: &Vec<u64>,
    start: u16,
    end: u16,
    counts: &mut OperationCounts,
) -> (r: Vec<Edge>)
    requires
        foreign_activities.len() == foreign_timestamps.len(),
        own_activities.len() == own_timestamps.len(),
    ensures
        r@.len() == if foreign_activities.len() + own_activities.len() == 0 {
            0
        } else {
            foreign_activities.len() + own_activities.len() + 1
        },
        foreign_activities.len() + own_activities.len() > 0 ==> sources(r@).to_multiset() == (seq![start]
            + foreign_activities@ + own_activities@).to_multiset(),
        (sorted(foreign_timestamps@) && sorted(own_timestamps@)) || foreign_activities.len() == 0
            || own_activities.len() == 0 ==> r@.to_multiset() =~= case_edges(
            foreign_activities@,
            foreign_timestamps@,
            own_activities@,
            own_timestamps@,
            start,
            end,
        ).to_multiset(),
        final(counts).timestamp_comparisons == bumped(
            old(counts).timestamp_comparisons,
            2 * foreign_activities.len() * own_activities.len(),
        ),
        final(counts).selections == bumped(
            old(counts).selections,
            merge_selections(foreign_activities.len() as int, own_activities.len() as int),
        ),
        final(counts).case_id_comparisons == old(counts).case_id_comparisons,
{
    let ghost a = foreign_activities@;
    let ghost ta = foreign_timestamps@;
    let ghost b = own_activities@;
    let ghost tb = own_timestamps@;
    let p = foreign_activities.len();
    let q = own_activities.len();
    let mut result: Vec<Edge> = Vec::new();
    if q == 0 || p == 0 {
        if q == 0 {
            add_full_trace(foreign_activities, &mut result, start, end);
        } else {
            add_full_trace(own_activities, &mut result, start, end);
        }
        proof {
            assert(p * q == 0) by (nonlinear_arith)
                requires
                    q == 0 || p == 0,
            ;
            lemma_merge_one_side(a, ta, b, tb, 0, 0);
            assert(a.subrange(0, p as int) =~= a);
            assert(b.subrange(0, q as int) =~= b);
            if p + q > 0 {
                if q == 0 {
                    lemma_full_trace_edges(a, start, end);
                    lemma_full_trace_sources(a, start, end);
                    assert(seq![start] + a + b =~= seq![start] + a);
                } else {
                    lemma_full_trace_edges(b, start, end);
                    lemma_full_trace_sources(b, start, end);
                    assert(seq![start] + a + b =~= seq![start] + b);
                }
                assert(result@ =~= Seq::<Edge>::empty() + result@);
            } else {
                assert(result@ =~= Seq::<Edge>::empty());
            }
        }
        return result;
    }
    let ghost s0 = old(counts).selections;
    let tables = comparison_tables(foreign_timestamps, own_timestamps, counts);
    let le_ab = tables.0;
    let lt_ba = tables.1;
    let first = select(le_ab[0][0], foreign_activities[0], own_activities[0]);
    result.push((start, first));
    counts.add_selections(1);
    let ghost sa = side_a_edges(0, a, b, le_ab@, lt_ba@, end);
    let ghost sb = side_b_edges(0, a, b, le_ab@, lt_ba@, end);
    let mut i: usize = 0;
    while i + 1 < p
        invariant
            p == foreign_activities.len(),
            q == own_activities.len(),
            a == foreign_activities@,
            b == own_activities@,
            ta.len() == p,
            tb.len() == q,
            p > 0,
            q > 0,
            0 <= i <= p - 1,
            is_le_table(ta, tb, le_ab@),
            is_lt_table(tb, ta, lt_ba@),
            sa == side_a_edges(0, a, b, le_ab@, lt_ba@, end),
            result@ == seq![(start, first)] + sa.subrange(0, i as int),
            counts.selections == bumped(s0, 1 + 2 * q * i),
            counts.timestamp_comparisons == bumped(old(counts).timestamp_comparisons, 2 * p * q),
            counts.case_id_comparisons == old(counts).case_id_comparisons,
        decreases p - i,
    {
        assert(forall|k: int| 0 <= k < lt_ba.len() ==> i + 1 < #[trigger] lt_ba@[k]@.len());
        let nxt = find_following_activity(i, foreign_activities[i + 1], own_activities, &le_ab, &lt_ba, counts);
        result.push((foreign_activities[i], nxt));
        proof {
            assert(sa.subrange(0, i + 1) =~= sa.subrange(0, i as int).push(sa[i as int]));
            lemma_bumped_twice(s0, 1 + 2 * q * i, 2 * q);
            assert(2 * q * (i + 1) == 2 * q * i + 2 * q) by (nonlinear_arith);
        }
        i = i + 1;
    }
    let mut j: usize = 0;
    while j + 1 < q
        invariant
            p == foreign_activities.len(),
            q == own_activities.len(),
            a == foreign_activities@,
            b == own_activities@,
            ta.len() == p,
            tb.len() == q,
            p > 0,
            q > 0,
            0 <= j <= q - 1,
            is_le_table(ta, tb, le_ab@),
            is_lt_table(tb, ta, lt_ba@),
            sa == side_a_edges(0, a, b, le_ab@, lt_ba@, end),
            sb == side_b_edges(0, a, b, le_ab@, lt_ba@, end),
            result@ == seq![(start, first)] + sa.subrange(0, p - 1) + sb.subrange(0, j as int),
            counts.selections == bumped(s0, 1 + 2 * q * (p - 1) + 2 * p * j),
            counts.timestamp_comparisons == bumped(old(counts).timestamp_comparisons, 2 * p * q),
            counts.case_id_comparisons == old(counts).case_id_comparisons,
        decreases q - j,
    {
        assert(forall|k: int| 0 <= k < le_ab.len() ==> j + 1 < #[trigger] le_ab@[k]@.len());
        let nxt = find_following_activity(j, own_activities[j + 1], foreign_activities, &lt_ba, &le_ab, counts);
        result.push((own_activities[j], nxt));
        proof {
            assert(sb.subrange(0, j + 1) =~= sb.subrange(0, j as int).push(sb[j as int]));
            lemma_bumped_twice(s0, 1 + 2 * q * (p - 1) + 2 * p * j, 2 * p);
            assert(2 * p * (j + 1) == 2 * p * j + 2 * p) by (nonlinear_arith);
        }
        j = j + 1;
    }
    let last_a = handle_last(p - 1, own_activities, &le_ab, end);
    result.push((foreign_activities[p - 1], last_a));
    counts.add_selections(1);
    let last_b = handle_last(q - 1, foreign_activities, &lt_ba, end);
    result.push((own_activities[q - 1], last_b));
    counts.add_selections(1);
    proof {
        lemma_bumped_twice(s0, 1 + 2 * q * (p - 1) + 2 * p * (q - 1), 1);
        lemma_bumped_twice(s0, 1 + 2 * q * (p - 1) + 2 * p * (q - 1) + 1, 1);
        broadcast use group_multiset_axioms;
        let e0 = (start, first);
        let ea = sa.subrange(0, p - 1);
        let eb = sb.subrange(0, q - 1);
        let la = sa[p - 1];
        let lb = sb[q - 1];
        assert(result@ =~= seq![e0] + ea + eb + seq![la] + seq![lb]);
        assert(sa =~= ea + seq![la]);
        assert(sb =~= eb + seq![lb]);
        assert(sources(result@) =~= seq![start] + a.take(p - 1) + b.take(q - 1) + seq![a[p - 1]] + seq![b[q - 1]]) by {
            assert(sources(result@) =~= sources(seq![e0]) + sources(ea) + sources(eb) + sources(seq![la]) + sources(
                seq![lb],
            ));
            assert(sources(ea) =~= a.take(p - 1));
            assert(sources(eb) =~= b.take(q - 1));
        }
        lemma_sources_shuffle(start, a, b);
        lemma_multiset_commutative(seq![e0] + ea + eb + seq![la], seq![lb]);
        lemma_multiset_commutative(seq![e0] + ea + eb, seq![la]);
        lemma_multiset_commutative(seq![e0] + ea, eb);
        lemma_multiset_commutative(seq![e0], ea);
        lemma_multiset_commutative(ea, seq![la]);
        lemma_multiset_commutative(eb, seq![lb]);
        lemma_singleton_multiset(e0);
        if sorted(ta) && sorted(tb) {
            // the whole merge, seen from the start sentinel
            lemma_merge_edges(a, ta, b, tb, le_ab@, lt_ba@, end, 0, 0, start);
            lemma_df_is_follow(merged_trace(a, ta, b, tb), start, end);
            let m = merge_from(a, ta, b, tb, 0, 0);
            if ta[0] <= tb[0] {
                assert(m == seq![a[0]] + merge_from(a, ta, b, tb, 1, 0));
            } else {
                assert(m == seq![b[0]] + merge_from(a, ta, b, tb, 0, 1));
            }
            assert((m + seq![end])[0] == first);
        }
    }
    result
}

proof fn lemma_relabel_merge<T, U>(a: Seq<T>, ta: Seq<u64>, b: Seq<T>, tb: Seq<u64>, i: int, j: int, f: spec_fn(T) -> U)
    ensures
        merge_from(a.map_values(f), ta, b.map_values(f), tb, i, j) =~= merge_from(a, ta, b, tb, i, j).map_values(f),
    decreases (a.len() - i) + (b.len() - j),
{
    let fa = a.map_values(f);
    let fb = b.map_values(f);
    if i < 0 || j < 0 || i > a.len() || j > b.len() {
    } else if i < a.len() && (j >= b.len() || ta[i] <= tb[j]) {
        lemma_relabel_merge(a, ta, b, tb, i + 1, j, f);
        let rest = merge_from(a, ta, b, tb, i + 1, j);
        assert((seq![a[i]] + rest).map_values(f) =~= seq![f(a[i])] + rest.map_values(f));
    } else if j < b.len() {
        lemma_relabel_merge(a, ta, b, tb, i, j + 1, f);
        let rest = merge_from(a, ta, b, tb, i, j + 1);
        assert((seq![b[j]] + rest).map_values(f) =~= seq![f(b[j])] + rest.map_values(f));
    }
}

/// Relabelling: renaming the activity codes of both sides of a case by `f`
/// (sentinels included) renames the endpoints of every directly-follows edge
/// by `f` and changes nothing else.
pub proof fn lemma_relabel_case_edges<T, U>(
    a: Seq<T>,
    ta: Seq<u64>,
    b: Seq<T>,
    tb: Seq<u64>,
    start: T,
    end: T,
    f: spec_fn(T) -> U,
)
    ensures
        case_edges(a.map_values(f), ta, b.map_values(f), tb, f(start), f(end)) =~= case_edges(
            a,
            ta,
            b,
            tb,
            start,
            end,
        ).map_values(|e: (T, T)| (f(e.0), f(e.1))),
{
    lemma_relabel_merge(a, ta, b, tb, 0, 0, f);
    let m = merged_trace(a, ta, b, tb);
    let fm = m.map_values(f);
    let full = seq![start] + m + seq![end];
    let ffull = seq![f(start)] + fm + seq![f(end)];
    assert(ffull =~= full.map_values(f));
    let l = df_edges(fm, f(start), f(end));
    let r = df_edges(m, start, end).map_values(|e: (T, T)| (f(e.0), f(e.1)));
    assert forall|k: int| 0 <= k < l.len() implies l[k] == r[k] by {
        assert(ffull[k] == f(full[k]));
        assert(ffull[k + 1] == f(full[k + 1]));
    }
}

} // verus!
