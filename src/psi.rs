//! Private set intersection of case identifiers: B tests each of A's hashed case
//! identifiers against its own, and A learns which of its cases are shared.
use vstd::prelude::*;
use crate::facade::{bumped, eq, lemma_bumped_twice, OperationCounts};
use crate::log::has_name;

verus! {

/// The 64-bit SipHash, with both keys zero, of a case identifier.
pub uninterp spec fn case_id_hash(s: Seq<char>) -> u64;

/// Relies on `std::hash::SipHasher` (keys zero) fed through `Hash for String`:
/// the result depends on the identifier's characters alone.
#[verifier::external_body]
#[allow(deprecated)]
pub(crate) fn hash_case_id(case_id: &String) -> (r: u64)
    ensures
        r == case_id_hash(case_id@),
{
    let mut hasher = std::hash::SipHasher::new();
    std::hash::Hash::hash(case_id, &mut hasher);
    std::hash::Hasher::finish(&hasher)
}

/// Hashes of a sequence of case identifiers.
pub open spec fn hashes_of(ids: Seq<String>) -> Seq<u64> {
    ids.map_values(|s: String| case_id_hash(s@))
}

/// Hashes each case identifier.
pub fn hash_all_case_ids(ids: &Vec<String>) -> (r: Vec<u64>)
    ensures
        r@ == hashes_of(ids@),
{
    let mut r: Vec<u64> = Vec::new();
    let mut i: usize = 0;
    while i < ids.len()
        invariant
            0 <= i <= ids.len(),
            r@ == hashes_of(ids@).take(i as int),
        decreases ids.len() - i,
    {
        let h = hash_case_id(&ids[i]);
        r.push(h);
        proof {
            assert(hashes_of(ids@).take(i + 1) =~= hashes_of(ids@).take(i as int).push(h));
        }
        i = i + 1;
    }
    assert(hashes_of(ids@).take(ids.len() as int) =~= hashes_of(ids@));
    r
}

/// Obliviously tests whether `foreign_case_id` is among `own_case_ids`: the
/// result is `true_val` when it is, its negation when it is not.
pub fn has_matching_case_id(
    foreign_case_id: u64,
    own_case_ids: &Vec<u64>,
    true_val: bool,
    counts: &mut OperationCounts,
) -> (r: bool)
    ensures
        r == (if own_case_ids@.contains(foreign_case_id) {
            true_val
        } else {
            !true_val
        }),
        final(counts).case_id_comparisons == bumped(old(counts).case_id_comparisons, own_case_ids.len() as int),
        final(counts).selections == bumped(old(counts).selections, own_case_ids.len() + 1),
        final(counts).timestamp_comparisons == old(counts).timestamp_comparisons,
{
    let mut result = !true_val;
    counts.add_selections(1);
    let mut i: usize = 0;
    while i < own_case_ids.len()
        invariant
            0 <= i <= own_case_ids.len(),
            result == (if own_case_ids@.take(i as int).contains(foreign_case_id) {
                true_val
            } else {
                !true_val
            }),
            counts.case_id_comparisons == bumped(old(counts).case_id_comparisons, i as int),
            counts.selections == bumped(old(counts).selections, i + 1),
            counts.timestamp_comparisons == old(counts).timestamp_comparisons,
        decreases own_case_ids.len() - i,
    {
        let same = eq(foreign_case_id, own_case_ids[i]);
        if same {
            result = true_val;
        }
        proof {
            assert(own_case_ids@.take(i + 1) =~= own_case_ids@.take(i as int).push(own_case_ids@[i as int]));
            if own_case_ids@.take(i as int).contains(foreign_case_id) {
                let k = choose|k: int| 0 <= k < i && own_case_ids@.take(i as int)[k] == foreign_case_id;
                assert(own_case_ids@.take(i + 1)[k] == foreign_case_id);
            }
            if same {
                assert(own_case_ids@.take(i + 1)[i as int] == foreign_case_id);
            }
            lemma_bumped_twice(old(counts).case_id_comparisons, i as int, 1);
            lemma_bumped_twice(old(counts).selections, i + 1, 1);
        }
        counts.add_case_id_comparisons(1);
        counts.add_selections(1);
        i = i + 1;
    }
    assert(own_case_ids@.take(own_case_ids.len() as int) =~= own_case_ids@);
    result
}

/// The case identifiers at the positions that the masks mark as matching.
pub open spec fn marked_ids(own_case_ids: Seq<String>, check: Seq<(usize, bool)>, x: Seq<char>) -> bool {
    exists|k: int| 0 <= k < check.len() && check[k].1 && #[trigger] own_case_ids[check[k].0 as int]@ == x
}

/// PSI is sound: when no identifier of A shares its hash with a different
/// identifier of B, the identifiers that A collects from B's answers (with
/// `true` as the encrypted truth) are exactly those that both logs hold.
pub proof fn lemma_psi_soundness(
    ids_a: Seq<String>,
    ids_b: Seq<String>,
    check: Seq<(usize, bool)>,
    shared: Seq<String>,
)
    requires
        check.len() == ids_a.len(),
        ids_a.len() <= usize::MAX,
        forall|i: int|
            0 <= i < check.len() ==> #[trigger] check[i] == (i as usize, hashes_of(ids_b).contains(
                hashes_of(ids_a)[i],
            )),
        forall|x: Seq<char>| #[trigger] has_name(shared, x) <==> marked_ids(ids_a, check, x),
        forall|p: int, q: int|
            0 <= p < ids_a.len() && 0 <= q < ids_b.len() && case_id_hash(ids_a[p]@) == case_id_hash(ids_b[q]@)
                ==> ids_a[p]@ == ids_b[q]@,
    ensures
        forall|x: Seq<char>| #[trigger] has_name(shared, x) <==> (has_name(ids_a, x) && has_name(ids_b, x)),
{
    assert forall|x: Seq<char>| #[trigger] has_name(shared, x) <==> (has_name(ids_a, x) && has_name(ids_b, x)) by {
        if has_name(shared, x) {
            let k = choose|k: int| 0 <= k < check.len() && check[k].1 && #[trigger] ids_a[check[k].0 as int]@ == x;
            assert(check[k] == (k as usize, hashes_of(ids_b).contains(hashes_of(ids_a)[k])));
            assert(check[k].0 as int == k);
            let q = choose|q: int| 0 <= q < hashes_of(ids_b).len() && hashes_of(ids_b)[q] == hashes_of(ids_a)[k];
            assert(hashes_of(ids_b)[q] == case_id_hash(ids_b[q]@));
            assert(hashes_of(ids_a)[k] == case_id_hash(ids_a[k]@));
            assert(ids_a[k]@ == ids_b[q]@);
            assert(ids_b[q]@ == x);
        }
        if has_name(ids_a, x) && has_name(ids_b, x) {
            let p = choose|p: int| 0 <= p < ids_a.len() && ids_a[p]@ == x;
            let q = choose|q: int| 0 <= q < ids_b.len() && ids_b[q]@ == x;
            assert(hashes_of(ids_b)[q] == case_id_hash(ids_b[q]@));
            assert(hashes_of(ids_a)[p] == case_id_hash(ids_a[p]@));
            assert(hashes_of(ids_b)[q] == hashes_of(ids_a)[p]);
            assert(hashes_of(ids_b).contains(hashes_of(ids_a)[p]));
            assert(check[p] == (p as usize, true));
            assert(ids_a[check[p].0 as int]@ == x);
            assert(marked_ids(ids_a, check, x));
        }
    }
}

} // verus!
