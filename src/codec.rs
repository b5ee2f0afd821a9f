//! The activity encoding: a bijection between activity names and small codes,
//! with the codes `0` and `1` reserved for the `start` and `end` sentinels.
use vstd::prelude::*;
use vstd::string::*;
use crate::log::{distinct_names, has_name};

verus! {

/// Code of the synthetic `start` sentinel.
pub const START_CODE: u16 = 0;

/// Code of the synthetic `end` sentinel.
pub const END_CODE: u16 = 1;

/// Largest number of codes that a table may hold.
pub const MAX_CODES: usize = 65536;

/// Why a run of the protocol cannot go on.
#[derive(Clone, Copy, Debug, PartialEq, Eq, Structural)]
pub enum ProtocolError {
    /// An activity has no code in the table.
    UnknownActivity,
    /// A sample encryption's code lies outside the table, or a code lacks one.
    MalformedSamples,
    /// The two vocabularies together need more than 2^16 codes.
    TooManyActivities,
}

/// Name of the `start` sentinel.
pub open spec fn start_name() -> Seq<char> {
    seq!['s', 't', 'a', 'r', 't']
}

/// Name of the `end` sentinel.
pub open spec fn end_name() -> Seq<char> {
    seq!['e', 'n', 'd']
}

/// The names that a code table must cover: the sentinels and both vocabularies.
pub open spec fn vocabulary(own: Seq<String>, foreign: Seq<String>) -> Set<Seq<char>> {
    Set::new(|x: Seq<char>| x == start_name() || x == end_name() || has_name(own, x) || has_name(foreign, x))
}

/// A code table: `table[c]` is the name with code `c`.
pub open spec fn is_code_table(table: Seq<String>) -> bool {
    &&& 2 <= table.len() <= MAX_CODES
    &&& table[0]@ == start_name()
    &&& table[1]@ == end_name()
    &&& distinct_names(table)
}

/// The code of `x` in `table`, if it has one.
pub open spec fn code_in(table: Seq<String>, x: Seq<char>, c: int) -> bool {
    0 <= c < table.len() && table[c]@ == x
}

/// The name of the `start` sentinel.
pub fn start_string() -> (r: String)
    ensures
        r@ == start_name(),
{
    let r = String::from_str("start");
    proof {
        reveal_strlit("start");
        assert(r@ =~= start_name());
    }
    r
}

/// The name of the `end` sentinel.
pub fn end_string() -> (r: String)
    ensures
        r@ == end_name(),
{
    let r = String::from_str("end");
    proof {
        reveal_strlit("end");
        assert(r@ =~= end_name());
    }
    r
}

fn sentinel_names() -> (r: Vec<String>)
    ensures
        r@.len() == 2,
        r@[0]@ == start_name(),
        r@[1]@ == end_name(),
{
    let mut r: Vec<String> = Vec::new();
    r.push(start_string());
    r.push(end_string());
    r
}

/// `a` comes before `b` in the lexicographic order of character codes,
/// comparing from position `i` on.
pub open spec fn lex_less_from(a: Seq<char>, b: Seq<char>, i: int) -> bool
    decreases a.len() - i,
{
    if i < 0 || i >= b.len() {
        false
    } else if i >= a.len() {
        true
    } else if a[i] != b[i] {
        (a[i] as u32) < (b[i] as u32)
    } else {
        lex_less_from(a, b, i + 1)
    }
}

/// `a` comes before `b` in the lexicographic order of character codes.
pub open spec fn lex_less(a: Seq<char>, b: Seq<char>) -> bool {
    lex_less_from(a, b, 0)
}

/// Each name comes before every later one.
pub open spec fn sorted_names(names: Seq<String>) -> bool {
    forall|i: int, j: int| 0 <= i < j < names.len() ==> lex_less(#[trigger] names[i]@, #[trigger] names[j]@)
}

/// No name comes before itself.
pub proof fn lemma_lex_irreflexive(a: Seq<char>, i: int)
    requires
        0 <= i,
    ensures
        !lex_less_from(a, a, i),
    decreases a.len() - i,
{
    if i < a.len() {
        lemma_lex_irreflexive(a, i + 1);
    }
}

/// The order is transitive.
pub proof fn lemma_lex_transitive(a: Seq<char>, b: Seq<char>, c: Seq<char>, i: int)
    requires
        0 <= i,
        lex_less_from(a, b, i),
        lex_less_from(b, c, i),
    ensures
        lex_less_from(a, c, i),
    decreases a.len() - i,
{
    if i < a.len() && i < b.len() && i < c.len() {
        if a[i] == b[i] && b[i] == c[i] {
            lemma_lex_transitive(a, b, c, i + 1);
        } else {
            vstd::utf8::char_u32_cast(a[i], a[i] as u32);
            vstd::utf8::char_u32_cast(c[i], c[i] as u32);
        }
    }
}

/// The order is total: of two different names, one comes first.
pub proof fn lemma_lex_total(a: Seq<char>, b: Seq<char>, i: int)
    requires
        0 <= i <= a.len(),
        i <= b.len(),
        forall|k: int| 0 <= k < i ==> a[k] == b[k],
        a != b,
    ensures
        lex_less_from(a, b, i) || lex_less_from(b, a, i),
    decreases a.len() - i,
{
    if i == a.len() && i == b.len() {
        assert(a =~= b);
    } else if i < a.len() && i < b.len() {
        if a[i] == b[i] {
            lemma_lex_total(a, b, i + 1);
        } else {
            vstd::utf8::char_u32_cast(a[i], a[i] as u32);
            vstd::utf8::char_u32_cast(b[i], b[i] as u32);
        }
    }
}

/// Whether `a` comes before `b` in the lexicographic order of character codes.
pub fn less_than(a: &String, b: &String) -> (r: bool)
    ensures
        r == lex_less(a@, b@),
{
    let sa = a.as_str();
    let sb = b.as_str();
    let la = sa.unicode_len();
    let lb = sb.unicode_len();
    let mut i: usize = 0;
    while i < la && i < lb
        invariant
            sa@ == a@,
            sb@ == b@,
            la == a@.len(),
            lb == b@.len(),
            0 <= i <= la,
            i <= lb,
            lex_less_from(a@, b@, 0) == lex_less_from(a@, b@, i as int),
        decreases la - i,
    {
        let ca = sa.get_char(i);
        let cb = sb.get_char(i);
        if ca != cb {
            return (ca as u32) < (cb as u32);
        }
        i = i + 1;
    }
    i < lb
}

/// Inserts `x` at its place among the sorted `names`, unless a string with
/// its view is already there.
pub fn insert_sorted(names: &mut Vec<String>, x: &String)
    requires
        distinct_names(old(names)@),
        sorted_names(old(names)@),
    ensures
        distinct_names(final(names)@),
        sorted_names(final(names)@),
        forall|y: Seq<char>| #[trigger] has_name(final(names)@, y) <==> (has_name(old(names)@, y) || y == x@),
{
    let n = names.len();
    let mut lo: usize = 0;
    let mut hi: usize = n;
    while lo < hi
        invariant
            n == names.len(),
            *names == *old(names),
            distinct_names(old(names)@),
            sorted_names(old(names)@),
            0 <= lo <= hi <= n,
            forall|j: int| 0 <= j < lo ==> lex_less(#[trigger] names@[j]@, x@),
            forall|j: int| hi <= j < n ==> lex_less(x@, #[trigger] names@[j]@),
        decreases hi - lo,
    {
        let mid = lo + (hi - lo) / 2;
        if names[mid] == *x {
            assert(has_name(names@, x@));
            return;
        }
        if less_than(&names[mid], x) {
            proof {
                assert forall|j: int| 0 <= j < mid + 1 implies lex_less(#[trigger] names@[j]@, x@) by {
                    if j < mid {
                        lemma_lex_transitive(names@[j]@, names@[mid as int]@, x@, 0);
                    }
                }
            }
            lo = mid + 1;
        } else {
            proof {
                lemma_lex_total(names@[mid as int]@, x@, 0);
                assert forall|j: int| mid <= j < n implies lex_less(x@, #[trigger] names@[j]@) by {
                    if j > mid {
                        lemma_lex_transitive(x@, names@[mid as int]@, names@[j]@, 0);
                    }
                }
            }
            hi = mid;
        }
    }
    let pos = lo;
    let ghost before = names@;
    let copy = x.clone();
    names.insert(pos, copy);
    proof {
        lemma_lex_irreflexive(x@, 0);
        assert forall|m: int| 0 <= m < before.len() implies before[m]@ != x@ by {}
        assert(!has_name(before, x@));
        assert forall|m: int| 0 <= m < names@.len() implies #[trigger] names@[m] == if m < pos {
            before[m]
        } else if m == pos {
            copy
        } else {
            before[m - 1]
        } by {}
        assert forall|i: int, j: int| 0 <= i < j < names@.len() implies lex_less(
            #[trigger] names@[i]@,
            #[trigger] names@[j]@,
        ) by {
            if j < pos {
                assert(lex_less(before[i]@, before[j]@));
            } else if j == pos {
                assert(lex_less(before[i]@, x@));
            } else if i < pos {
                assert(lex_less(before[i]@, before[j - 1]@));
            } else if i == pos {
                assert(lex_less(x@, before[j - 1]@));
            } else {
                assert(lex_less(before[i - 1]@, before[j - 1]@));
            }
        }
        assert forall|a: int, b: int| 0 <= a < b < names@.len() implies names@[a]@ != names@[b]@ by {
            assert(lex_less(names@[a]@, names@[b]@));
            lemma_lex_irreflexive(names@[a]@, 0);
        }
        assert forall|y: Seq<char>| #[trigger] has_name(names@, y) <==> (has_name(before, y) || y == x@) by {
            if has_name(names@, y) {
                let m = choose|m: int| 0 <= m < names@.len() && names@[m]@ == y;
                if m < pos {
                    assert(before[m]@ == y);
                } else if m > pos {
                    assert(before[m - 1]@ == y);
                }
            }
            if has_name(before, y) {
                let m = choose|m: int| 0 <= m < before.len() && before[m]@ == y;
                if m < pos {
                    assert(names@[m]@ == y);
                } else {
                    assert(names@[m + 1]@ == y);
                }
            }
            if y == x@ {
                assert(names@[pos as int]@ == y);
            }
        }
    }
}

/// The codes from 2 on follow the lexicographic order of the names, so the
/// table depends on the set of names alone.
pub open spec fn canonical_order(table: Seq<String>) -> bool {
    sorted_names(table.skip(2))
}

/// Builds the canonical code table over the union of the two vocabularies:
/// `start` gets 0, `end` gets 1, and the other names follow in lexicographic
/// order of their character codes.
pub fn build_code_table(own: &Vec<String>, foreign: &Vec<String>) -> (r: Result<Vec<String>, ProtocolError>)
    ensures
        match r {
            Ok(t) => is_code_table(t@) && t@.len() == vocabulary(own@, foreign@).len() && (forall|x: Seq<char>|
                #[trigger] has_name(t@, x) <==> vocabulary(own@, foreign@).contains(x)) && canonical_order(t@),
            Err(e) => e == ProtocolError::TooManyActivities && vocabulary(own@, foreign@).len() > MAX_CODES,
        },
{
    let start = start_string();
    let end = end_string();
    let mut names: Vec<String> = Vec::new();
    let mut i: usize = 0;
    while i < own.len()
        invariant
            start@ == start_name(),
            end@ == end_name(),
            0 <= i <= own.len(),
            distinct_names(names@),
            sorted_names(names@),
            forall|x: Seq<char>|
                #[trigger] has_name(names@, x) <==> (x != start_name() && x != end_name() && exists|k: int|
                    0 <= k < i && own@[k]@ == x),
        decreases own.len() - i,
    {
        if own[i] != start && own[i] != end {
            insert_sorted(&mut names, &own[i]);
        }
        proof {
            assert forall|x: Seq<char>| #[trigger] has_name(names@, x) <==> (x != start_name() && x != end_name()
                && exists|k: int| 0 <= k < i + 1 && own@[k]@ == x) by {
                if x == own@[i as int]@ {
                    assert(own@[i as int]@ == x);
                }
                if exists|k: int| 0 <= k < i + 1 && own@[k]@ == x {
                    let k = choose|k: int| 0 <= k < i + 1 && own@[k]@ == x;
                    if k < i {
                        assert(exists|k: int| 0 <= k < i && own@[k]@ == x);
                    }
                }
            }
        }
        i = i + 1;
    }
    let mut j: usize = 0;
    while j < foreign.len()
        invariant
            start@ == start_name(),
            end@ == end_name(),
            0 <= j <= foreign.len(),
            distinct_names(names@),
            sorted_names(names@),
            forall|x: Seq<char>|
                #[trigger] has_name(names@, x) <==> (x != start_name() && x != end_name() && (has_name(own@, x)
                    || exists|k: int| 0 <= k < j && foreign@[k]@ == x)),
        decreases foreign.len() - j,
    {
        if foreign[j] != start && foreign[j] != end {
            insert_sorted(&mut names, &foreign[j]);
        }
        proof {
            assert forall|x: Seq<char>| #[trigger] has_name(names@, x) <==> (x != start_name() && x != end_name() && (
            has_name(own@, x) || exists|k: int| 0 <= k < j + 1 && foreign@[k]@ == x)) by {
                if x == foreign@[j as int]@ {
                    assert(foreign@[j as int]@ == x);
                }
                if exists|k: int| 0 <= k < j + 1 && foreign@[k]@ == x {
                    let k = choose|k: int| 0 <= k < j + 1 && foreign@[k]@ == x;
                    if k < j {
                        assert(exists|k: int| 0 <= k < j && foreign@[k]@ == x);
                    }
                }
            }
        }
        j = j + 1;
    }
    let mut table = sentinel_names();
    let mut q: usize = 0;
    while q < names.len()
        invariant
            0 <= q <= names.len(),
            table@.len() == 2 + q,
            table@[0]@ == start_name(),
            table@[1]@ == end_name(),
            forall|m: int| 0 <= m < q ==> (#[trigger] table@[2 + m])@ == names@[m]@,
        decreases names.len() - q,
    {
        table.push(names[q].clone());
        q = q + 1;
    }
    proof {
        assert(start_name()[0] != end_name()[0]);
        assert forall|m: int| 2 <= m < table@.len() implies table@[m]@ == names@[m - 2]@ by {
            assert(table@[2 + (m - 2)]@ == names@[m - 2]@);
        }
        assert forall|a: int, b: int| 0 <= a < b < table@.len() implies table@[a]@ != table@[b]@ by {
            if b >= 2 {
                assert(has_name(names@, names@[b - 2]@));
            }
            if a >= 2 {
                assert(has_name(names@, names@[a - 2]@));
            }
        }
        assert forall|x: Seq<char>| #[trigger] has_name(table@, x) <==> vocabulary(own@, foreign@).contains(x) by {
            if has_name(table@, x) {
                let m = choose|m: int| 0 <= m < table@.len() && table@[m]@ == x;
                if m >= 2 {
                    assert(has_name(names@, names@[m - 2]@));
                }
            }
            if vocabulary(own@, foreign@).contains(x) {
                if x == start_name() {
                    assert(table@[0]@ == x);
                } else if x == end_name() {
                    assert(table@[1]@ == x);
                } else {
                    if has_name(foreign@, x) {
                        let k = choose|k: int| 0 <= k < foreign@.len() && foreign@[k]@ == x;
                        assert(exists|k: int| 0 <= k < foreign.len() && foreign@[k]@ == x);
                    }
                    assert(has_name(names@, x));
                    let m = choose|m: int| 0 <= m < names@.len() && names@[m]@ == x;
                    assert(table@[m + 2]@ == x);
                }
            }
        }
        assert forall|k: int, l: int| 0 <= k < l < table@.skip(2).len() implies lex_less(
            #[trigger] table@.skip(2)[k]@,
            #[trigger] table@.skip(2)[l]@,
        ) by {
            assert(table@.skip(2)[k] == table@[k + 2]);
            assert(table@.skip(2)[l] == table@[l + 2]);
            assert(lex_less(names@[k]@, names@[l]@));
        }
    }
    proof {
        let views = table@.map_values(|s: String| s@);
        assert(views.no_duplicates());
        views.unique_seq_to_set();
        assert(views.to_set() =~= vocabulary(own@, foreign@)) by {
            assert forall|x: Seq<char>| views.to_set().contains(x) implies vocabulary(own@, foreign@).contains(x) by {
                let k = choose|k: int| 0 <= k < views.len() && views[k] == x;
                assert(has_name(table@, x));
            }
            assert forall|x: Seq<char>| vocabulary(own@, foreign@).contains(x) implies views.to_set().contains(x) by {
                assert(has_name(table@, x));
                let k = choose|k: int| 0 <= k < table@.len() && table@[k]@ == x;
                assert(views[k] == x);
            }
        }
    }
    if table.len() > MAX_CODES {
        return Err(ProtocolError::TooManyActivities);
    }
    Ok(table)
}

/// Looks up the code of `name`.
pub fn code_of(table: &Vec<String>, name: &String) -> (r: Option<u16>)
    requires
        is_code_table(table@),
    ensures
        match r {
            Some(c) => code_in(table@, name@, c as int),
            None => !has_name(table@, name@),
        },
{
    let mut i: usize = 0;
    while i < table.len()
        invariant
            is_code_table(table@),
            0 <= i <= table.len(),
            forall|k: int| 0 <= k < i ==> table@[k]@ != name@,
        decreases table.len() - i,
    {
        if table[i] == *name {
            return Some(i as u16);
        }
        i = i + 1;
    }
    None
}

/// The codes of `names` under `table`, if every name has one.
pub open spec fn encoded(table: Seq<String>, names: Seq<Seq<char>>, codes: Seq<u16>) -> bool {
    codes.len() == names.len() && forall|k: int| 0 <= k < names.len() ==> code_in(table, names[k], #[trigger] codes[k] as int)
}

/// Maps each activity name to its code.
pub fn encode_trace(names: &Vec<String>, table: &Vec<String>) -> (r: Result<Vec<u16>, ProtocolError>)
    requires
        is_code_table(table@),
    ensures
        match r {
            Ok(codes) => encoded(table@, names@.map_values(|s: String| s@), codes@),
            Err(e) => e == ProtocolError::UnknownActivity && exists|k: int|
                0 <= k < names.len() && !has_name(table@, #[trigger] names@[k]@),
        },
{
    let mut codes: Vec<u16> = Vec::new();
    let mut i: usize = 0;
    while i < names.len()
        invariant
            is_code_table(table@),
            0 <= i <= names.len(),
            codes.len() == i,
            forall|k: int| 0 <= k < i ==> code_in(table@, names@[k]@, #[trigger] codes@[k] as int),
        decreases names.len() - i,
    {
        match code_of(table, &names[i]) {
            Some(c) => codes.push(c),
            None => {
                return Err(ProtocolError::UnknownActivity);
            },
        }
        i = i + 1;
    }
    Ok(codes)
}

/// Name of the activity with code `code`.
pub fn decode(table: &Vec<String>, code: u16) -> (r: String)
    requires
        (code as int) < table.len(),
    ensures
        r@ == table@[code as int]@,
{
    table[code as usize].clone()
}

/// The code table is total and canonical: `start` has code 0, `end` code 1,
/// and every other activity of either vocabulary exactly one code in `[2, K)`.
pub proof fn lemma_code_table_totality(own: Seq<String>, foreign: Seq<String>, table: Seq<String>)
    requires
        is_code_table(table),
        forall|x: Seq<char>| #[trigger] has_name(table, x) <==> vocabulary(own, foreign).contains(x),
    ensures
        code_in(table, start_name(), 0),
        code_in(table, end_name(), 1),
        forall|x: Seq<char>|
            #![trigger has_name(own, x)]
            #![trigger has_name(foreign, x)]
            (has_name(own, x) || has_name(foreign, x)) && x != start_name() && x != end_name() ==> exists|c: int|
                2 <= c < table.len() && code_in(table, x, c) && forall|d: int| #[trigger] code_in(table, x, d) ==> d == c,
{
    assert forall|x: Seq<char>|
        (has_name(own, x) || has_name(foreign, x)) && x != start_name() && x != end_name() implies exists|c: int|
        2 <= c < table.len() && code_in(table, x, c) && forall|d: int| #[trigger] code_in(table, x, d) ==> d == c by {
        assert(vocabulary(own, foreign).contains(x));
        assert(has_name(table, x));
        let c = choose|c: int| 0 <= c < table.len() && table[c]@ == x;
        assert(c != 0 && c != 1);
        assert(code_in(table, x, c));
    }
}

} // verus!
