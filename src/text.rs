//! Substring search and first-occurrence replacement on strings.

use vstd::prelude::*;

verus! {

/// `p` occurs in `s` starting at position `i`.
pub open spec fn occurs_at(s: Seq<char>, p: Seq<char>, i: int) -> bool {
    0 <= i && i + p.len() <= s.len() && s.subrange(i, i + p.len()) == p
}

/// `p` occurs somewhere in `s`.
pub open spec fn contains(s: Seq<char>, p: Seq<char>) -> bool {
    exists|i: int| occurs_at(s, p, i)
}

/// The first position at or after `i` where `p` occurs in `s`.
pub open spec fn first_occurrence_from(s: Seq<char>, p: Seq<char>, i: int) -> Option<int>
    decreases s.len() + 1 - i,
{
    if i < 0 || i + p.len() > s.len() {
        None
    } else if occurs_at(s, p, i) {
        Some(i)
    } else {
        first_occurrence_from(s, p, i + 1)
    }
}

/// The first position where `p` occurs in `s`.
pub open spec fn first_occurrence(s: Seq<char>, p: Seq<char>) -> Option<int> {
    first_occurrence_from(s, p, 0)
}

/// `s` with the first occurrence of `p` replaced by `t`; `s` itself where `p`
/// does not occur.
pub open spec fn replace_first(s: Seq<char>, p: Seq<char>, t: Seq<char>) -> Seq<char> {
    match first_occurrence(s, p) {
        Some(i) => s.subrange(0, i) + t + s.subrange(i + p.len(), s.len() as int),
        None => s,
    }
}

/// What `first_occurrence_from` returns is the least position at or after `i`.
pub proof fn lemma_first_occurrence_from(s: Seq<char>, p: Seq<char>, i: int)
    requires
        0 <= i,
    ensures
        match first_occurrence_from(s, p, i) {
            Some(k) => i <= k && occurs_at(s, p, k) && forall|j: int|
                i <= j < k ==> !occurs_at(s, p, j),
            None => forall|j: int| i <= j ==> !occurs_at(s, p, j),
        },
    decreases s.len() + 1 - i,
{
    if i + p.len() > s.len() {
    } else if occurs_at(s, p, i) {
    } else {
        lemma_first_occurrence_from(s, p, i + 1);
    }
}

/// `first_occurrence` finds a position exactly when `p` occurs in `s`.
pub proof fn lemma_first_occurrence(s: Seq<char>, p: Seq<char>)
    ensures
        first_occurrence(s, p) is Some <==> contains(s, p),
        match first_occurrence(s, p) {
            Some(k) => occurs_at(s, p, k) && forall|j: int| 0 <= j < k ==> !occurs_at(s, p, j),
            None => forall|j: int| !occurs_at(s, p, j),
        },
{
    lemma_first_occurrence_from(s, p, 0);
}

/// The characters of `s`, in order.
pub fn chars_of(s: &str) -> (r: Vec<char>)
    ensures
        r@ == s@,
{
    let n = s.unicode_len();
    let mut r: Vec<char> = Vec::new();
    let mut i: usize = 0;
    while i < n
        invariant
            n == s@.len(),
            i <= n,
            r@ == s@.subrange(0, i as int),
        decreases n - i,
    {
        r.push(s.get_char(i));
        i = i + 1;
    }
    assert(r@ =~= s@);
    r
}

/// Does `p` occur in `s` at position `i`?
fn occurs_at_exec(s: &Vec<char>, p: &Vec<char>, i: usize) -> (r: bool)
    ensures
        r == occurs_at(s@, p@, i as int),
{
    if i > s.len() || p.len() > s.len() - i {
        return false;
    }
    let mut j: usize = 0;
    while j < p.len()
        invariant
            i + p@.len() <= s@.len(),
            s@.len() == s.len(),
            p@.len() == p.len(),
            j <= p@.len(),
            s@.subrange(i as int, i + j) == p@.subrange(0, j as int),
        decreases p@.len() - j,
    {
        if s[i + j] != p[j] {
            assert(s@.subrange(i as int, i + p@.len())[j as int] != p@[j as int]);
            return false;
        }
        assert(s@.subrange(i as int, i + j + 1) =~= s@.subrange(i as int, i + j).push(s@[i + j]));
        assert(p@.subrange(0, j + 1) =~= p@.subrange(0, j as int).push(p@[j as int]));
        j = j + 1;
    }
    assert(p@.subrange(0, p@.len() as int) =~= p@);
    true
}

/// The first position where `pattern` occurs in `s`, counted in characters.
pub fn find_first(s: &str, pattern: &str) -> (r: Option<usize>)
    ensures
        r matches Some(i) ==> first_occurrence(s@, pattern@) == Some(i as int),
        r is None ==> first_occurrence(s@, pattern@) is None,
{
    let sc = chars_of(s);
    let pc = chars_of(pattern);
    proof {
        lemma_first_occurrence(s@, pattern@);
    }
    if pc.len() == 0 {
        assert(occurs_at(s@, pattern@, 0)) by {
            assert(s@.subrange(0, 0) =~= pattern@);
        }
        return Some(0);
    }
    let mut i: usize = 0;
    while i <= sc.len() && pc.len() <= sc.len() - i
        invariant
            sc@ == s@,
            pc@ == pattern@,
            pattern@.len() >= 1,
            i <= s@.len(),
            forall|j: int| 0 <= j < i ==> !occurs_at(s@, pattern@, j),
        decreases s@.len() - i,
    {
        if occurs_at_exec(&sc, &pc, i) {
            proof {
                lemma_first_occurrence(s@, pattern@);
            }
            return Some(i);
        }
        i = i + 1;
    }
    assert forall|j: int| !occurs_at(s@, pattern@, j) by {}
    None
}

/// `s` with the first occurrence of `pattern` replaced by `replacement`;
/// a copy of `s` where `pattern` does not occur.
pub fn replace_first_occurrence(s: &str, pattern: &str, replacement: &str) -> (r: String)
    ensures
        r@ == replace_first(s@, pattern@, replacement@),
{
    match find_first(s, pattern) {
        Some(i) => {
            proof {
                lemma_first_occurrence(s@, pattern@);
            }
            let n = s.unicode_len();
            let plen = pattern.unicode_len();
            let mut r = String::from_str(s.substring_char(0, i));
            r.append(replacement);
            r.append(s.substring_char(i + plen, n));
            r
        },
        None => s.to_owned(),
    }
}

} // verus!
