//! Matching a directory's file names against the rule table, checking that
//! the set is complete, and planning the renames.
//!
//! A listing is modelled as the sequence of its names. Its matches are the
//! pairs `(n, r)` such that name `n` contains the source suffix of rule `r`,
//! ordered by name and, within a name, by rule.

use vstd::prelude::*;
use crate::rules::{extension_rule, source_suffix, target_suffix, RULE_COUNT};
use crate::text::{contains, find_first, lemma_first_occurrence, replace_first, replace_first_occurrence};

verus! {

/// A file of the listing that one rule recognised.
pub struct MatchedFile {
    pub file_name: String,
    pub rule: usize,
}

/// Two files that the same rule recognised; the scan stops at the first such pair.
pub struct DuplicateMatch {
    pub rule: usize,
    pub first: String,
    pub second: String,
}

/// One rename of the plan: the file named `from` is to be named `to`.
pub struct Rename {
    pub from: String,
    pub to: String,
}

/// Why a listing yields no renames.
pub enum PlanError {
    /// One rule recognised two files.
    DuplicateMatch(DuplicateMatch),
    /// These rules, in table order, recognised no file.
    IncompleteSet(Vec<usize>),
}

/// The views of a listing's names.
pub open spec fn names_view(names: Seq<String>) -> Seq<Seq<char>> {
    names.map_values(|s: String| s@)
}

/// Name `n` of `names` is recognised by rule `r`.
pub open spec fn recognises(names: Seq<Seq<char>>, n: int, r: int) -> bool {
    0 <= n < names.len() && 0 <= r < RULE_COUNT && contains(names[n], source_suffix(r))
}

/// Some name of the listing is recognised by rule `r`.
pub open spec fn is_recognised(names: Seq<Seq<char>>, r: int) -> bool {
    exists|n: int| recognises(names, n, r)
}

/// The matches of name number `n` against the first `k` rules, in table order.
pub open spec fn name_matches(n: int, name: Seq<char>, k: int) -> Seq<(int, int)>
    decreases k,
{
    if k <= 0 {
        seq![]
    } else if contains(name, source_suffix(k - 1)) {
        name_matches(n, name, k - 1).push((n, k - 1))
    } else {
        name_matches(n, name, k - 1)
    }
}

/// All matches of a listing, in the order of the names and then of the rules.
pub open spec fn all_matches(names: Seq<Seq<char>>) -> Seq<(int, int)>
    decreases names.len(),
{
    if names.len() == 0 {
        seq![]
    } else {
        all_matches(names.drop_last()) + name_matches(
            names.len() - 1,
            names.last(),
            RULE_COUNT as int,
        )
    }
}

/// The rule of each match.
pub open spec fn rule_column(m: Seq<(int, int)>) -> Seq<int> {
    m.map_values(|e: (int, int)| e.1)
}

/// The rule of each matched file.
pub open spec fn rules_of(v: Seq<MatchedFile>) -> Seq<int> {
    v.map_values(|f: MatchedFile| f.rule as int)
}

/// `v` holds, in order, the file names and rules of the matches `m`.
pub open spec fn describes(v: Seq<MatchedFile>, names: Seq<Seq<char>>, m: Seq<(int, int)>) -> bool {
    v.len() == m.len() && forall|i: int|
        0 <= i < v.len() ==> {
            &&& 0 <= m[i].0 < names.len()
            &&& v[i].file_name@ == names[m[i].0]
            &&& v[i].rule as int == m[i].1
        }
}

/// Position `j` repeats the value at position `i`, `i` is the first position
/// holding it, and no earlier pair of positions repeats a value.
pub open spec fn is_first_duplicate(rules: Seq<int>, i: int, j: int) -> bool {
    &&& 0 <= i < j < rules.len()
    &&& rules[i] == rules[j]
    &&& forall|k: int| 0 <= k < i ==> rules[k] != rules[j]
    &&& rules.subrange(0, j).no_duplicates()
}

/// What scanning `names` yields: every match, where no rule recognises two
/// files; otherwise the first repeated rule with the two files involved.
pub open spec fn scan_result(names: Seq<Seq<char>>, r: Result<Vec<MatchedFile>, DuplicateMatch>) -> bool {
    let m = all_matches(names);
    match r {
        Ok(v) => rule_column(m).no_duplicates() && describes(v@, names, m),
        Err(d) => exists|i: int, j: int|
            {
                &&& is_first_duplicate(rule_column(m), i, j)
                &&& d.rule as int == m[j].1
                &&& d.first@ == names[m[i].0]
                &&& d.second@ == names[m[j].0]
            },
    }
}

proof fn lemma_name_matches_prefix(n: int, name: Seq<char>, a: int, b: int)
    requires
        0 <= a <= b,
    ensures
        name_matches(n, name, a).is_prefix_of(name_matches(n, name, b)),
    decreases b - a,
{
    if a < b {
        lemma_name_matches_prefix(n, name, a, b - 1);
        let p = name_matches(n, name, a);
        let q = name_matches(n, name, b - 1);
        assert(name_matches(n, name, b).subrange(0, q.len() as int) =~= q);
        assert(q.subrange(0, p.len() as int) =~= p);
        assert(name_matches(n, name, b).subrange(0, p.len() as int) =~= p);
    }
}

pub proof fn lemma_name_matches_range(n: int, name: Seq<char>, k: int)
    requires
        0 <= k <= RULE_COUNT,
    ensures
        forall|i: int|
            0 <= i < name_matches(n, name, k).len() ==> {
                &&& name_matches(n, name, k)[i].0 == n
                &&& 0 <= name_matches(n, name, k)[i].1 < k
                &&& contains(name, source_suffix(name_matches(n, name, k)[i].1))
            },
    decreases k,
{
    if k > 0 {
        lemma_name_matches_range(n, name, k - 1);
        let p = name_matches(n, name, k - 1);
        let q = name_matches(n, name, k);
        assert forall|i: int| 0 <= i < q.len() implies {
            &&& q[i].0 == n
            &&& 0 <= q[i].1 < k
            &&& contains(name, source_suffix(q[i].1))
        } by {
            if i < p.len() {
                assert(q[i] == p[i]);
            }
        }
    }
}

pub proof fn lemma_all_matches_range(names: Seq<Seq<char>>)
    ensures
        forall|i: int|
            0 <= i < all_matches(names).len() ==> recognises(
                names,
                all_matches(names)[i].0,
                all_matches(names)[i].1,
            ),
    decreases names.len(),
{
    if names.len() > 0 {
        let init = names.drop_last();
        lemma_all_matches_range(init);
        lemma_name_matches_range(names.len() - 1, names.last(), RULE_COUNT as int);
        let a = all_matches(init);
        let b = name_matches(names.len() - 1, names.last(), RULE_COUNT as int);
        assert forall|i: int| 0 <= i < all_matches(names).len() implies recognises(
            names,
            all_matches(names)[i].0,
            all_matches(names)[i].1,
        ) by {
            if i < a.len() {
                assert(all_matches(names)[i] == a[i]);
                assert(recognises(init, a[i].0, a[i].1));
                assert(names[a[i].0] == init[a[i].0]);
            } else {
                assert(all_matches(names)[i] == b[i - a.len()]);
            }
        }
    }
}

/// The matches of the first `n` names, followed by those of name `n` against
/// the first `r` rules, begin the matches of the whole listing.
proof fn lemma_scan_prefix(names: Seq<Seq<char>>, n: int, r: int)
    requires
        0 <= n < names.len(),
        0 <= r <= RULE_COUNT,
    ensures
        (all_matches(names.take(n)) + name_matches(n, names[n], r)).is_prefix_of(
            all_matches(names),
        ),
    decreases names.len() - n,
{
    let p = all_matches(names.take(n));
    let q = name_matches(n, names[n], r);
    let full = name_matches(n, names[n], RULE_COUNT as int);
    lemma_name_matches_prefix(n, names[n], r, RULE_COUNT as int);
    assert(names.take(n + 1).drop_last() =~= names.take(n));
    assert(all_matches(names.take(n + 1)) == p + full);
    assert((p + full).subrange(0, (p + q).len() as int) =~= p + q);
    lemma_take_prefix(names, n + 1);
}

/// The matches of the first `k` names begin the matches of the whole listing.
proof fn lemma_take_prefix(names: Seq<Seq<char>>, k: int)
    requires
        0 <= k <= names.len(),
    ensures
        all_matches(names.take(k)).is_prefix_of(all_matches(names)),
    decreases names.len() - k,
{
    if k == names.len() {
        assert(names.take(k) =~= names);
    } else {
        lemma_take_prefix(names, k + 1);
        let p = all_matches(names.take(k));
        let q = all_matches(names.take(k + 1));
        assert(names.take(k + 1).drop_last() =~= names.take(k));
        assert(q.subrange(0, p.len() as int) =~= p);
        assert(all_matches(names).subrange(0, p.len() as int) =~= p);
    }
}

/// The position of the first file in `file_data` that rule `rule` recognised.
pub fn find_by_extention(file_data: &Vec<MatchedFile>, rule: usize) -> (r: Option<usize>)
    ensures
        r matches Some(i) ==> i < file_data@.len() && file_data@[i as int].rule == rule
            && forall|k: int| 0 <= k < i ==> file_data@[k].rule != rule,
        r is None ==> forall|k: int| 0 <= k < file_data@.len() ==> file_data@[k].rule != rule,
{
    let mut i: usize = 0;
    while i < file_data.len()
        invariant
            i <= file_data@.len(),
            forall|k: int| 0 <= k < i ==> file_data@[k].rule != rule,
        decreases file_data@.len() - i,
    {
        if file_data[i].rule == rule {
            return Some(i);
        }
        i = i + 1;
    }
    None
}

/// Matches every name against every rule, in order, and stops at the first
/// rule that recognises a second file.
pub fn scan_names(names: &Vec<String>) -> (r: Result<Vec<MatchedFile>, DuplicateMatch>)
    ensures
        scan_result(names_view(names@), r),
{
    let ghost nv = names_view(names@);
    let ghost m = all_matches(nv);
    let mut found: Vec<MatchedFile> = Vec::new();
    let mut n: usize = 0;
    while n < names.len()
        invariant
            nv == names_view(names@),
            m == all_matches(nv),
            n <= names@.len(),
            describes(found@, nv, all_matches(nv.take(n as int))),
            rules_of(found@).no_duplicates(),
        decreases names@.len() - n,
    {
        let name = &names[n];
        let mut r: usize = 0;
        assert(all_matches(nv.take(n as int)) + name_matches(n as int, nv[n as int], 0)
            =~= all_matches(nv.take(n as int)));
        while r < RULE_COUNT
            invariant
                nv == names_view(names@),
                m == all_matches(nv),
                n < names@.len(),
                name@ == nv[n as int],
                r <= RULE_COUNT,
                describes(
                    found@,
                    nv,
                    all_matches(nv.take(n as int)) + name_matches(n as int, nv[n as int], r as int),
                ),
                rules_of(found@).no_duplicates(),
            decreases RULE_COUNT - r,
        {
            let rule = extension_rule(r);
            let hit = find_first(name.as_str(), rule.source);
            proof {
                lemma_first_occurrence(nv[n as int], source_suffix(r as int));
            }
            if hit.is_some() {
                let ghost p = all_matches(nv.take(n as int)) + name_matches(
                    n as int,
                    nv[n as int],
                    r as int,
                );
                let ghost q = all_matches(nv.take(n as int)) + name_matches(
                    n as int,
                    nv[n as int],
                    r + 1,
                );
                assert(q =~= p.push((n as int, r as int)));
                match find_by_extention(&found, r) {
                    Some(pos) => {
                        proof {
                            lemma_scan_prefix(nv, n as int, r + 1);
                            let j = p.len() as int;
                            assert forall|i: int| 0 <= i < q.len() implies m[i] == q[i] by {
                                assert(m.subrange(0, q.len() as int)[i] == q[i]);
                            }
                            assert forall|i: int| 0 <= i < j implies p[i] == q[i] by {}
                            assert(rule_column(m).subrange(0, j) =~= rules_of(found@));
                            assert(is_first_duplicate(rule_column(m), pos as int, j));
                        }
                        return Err(
                            DuplicateMatch {
                                rule: r,
                                first: found[pos].file_name.clone(),
                                second: name.clone(),
                            },
                        );
                    },
                    None => {
                        let ghost before = found@;
                        found.push(MatchedFile { file_name: name.clone(), rule: r });
                        assert(rules_of(found@) =~= rules_of(before).push(r as int));
                    },
                }
            }
            r = r + 1;
        }
        assert(nv.take(n + 1).drop_last() =~= nv.take(n as int));
        n = n + 1;
    }
    proof {
        assert(nv.take(n as int) =~= nv);
        assert(rule_column(m) =~= rules_of(found@));
    }
    Ok(found)
}

/// The rules among the first `k` of the table that no entry of `rules` names,
/// in table order.
pub open spec fn missing_upto(rules: Seq<int>, k: int) -> Seq<usize>
    decreases k,
{
    if k <= 0 {
        seq![]
    } else if rules.contains(k - 1) {
        missing_upto(rules, k - 1)
    } else {
        missing_upto(rules, k - 1).push((k - 1) as usize)
    }
}

/// The rules of the table that no entry of `rules` names, in table order.
pub open spec fn missing(rules: Seq<int>) -> Seq<usize> {
    missing_upto(rules, RULE_COUNT as int)
}

/// The rules, in table order, that recognised none of `matches`.
pub fn missing_rules(matches: &Vec<MatchedFile>) -> (r: Vec<usize>)
    ensures
        r@ == missing(rules_of(matches@)),
{
    let ghost rules = rules_of(matches@);
    let mut out: Vec<usize> = Vec::new();
    let mut r: usize = 0;
    while r < RULE_COUNT
        invariant
            rules == rules_of(matches@),
            r <= RULE_COUNT,
            out@ == missing_upto(rules, r as int),
        decreases RULE_COUNT - r,
    {
        match find_by_extention(matches, r) {
            Some(i) => {
                assert(rules[i as int] == r as int);
            },
            None => {
                assert(!rules.contains(r as int));
                out.push(r);
            },
        }
        r = r + 1;
    }
    out
}

/// The name that file `file_name` takes under rule `rule`: the first
/// occurrence of the rule's source suffix becomes its target suffix.
pub fn new_file_name(file_name: &str, rule: usize) -> (r: String)
    requires
        rule < RULE_COUNT,
    ensures
        r@ == replace_first(file_name@, source_suffix(rule as int), target_suffix(rule as int)),
{
    let ext = extension_rule(rule);
    replace_first_occurrence(file_name, ext.source, ext.target)
}

/// What planning the renames of `names` yields. Where no rule recognises two
/// files and every rule recognises one: one rename per match, in the order of
/// the matches. Otherwise no rename: the first duplicate the scan meets, or
/// else every rule that recognised nothing.
pub open spec fn plan_result(names: Seq<Seq<char>>, r: Result<Vec<Rename>, PlanError>) -> bool {
    let m = all_matches(names);
    let rules = rule_column(m);
    match r {
        Ok(v) => {
            &&& rules.no_duplicates()
            &&& missing(rules).len() == 0
            &&& v@.len() == m.len()
            &&& forall|i: int|
                0 <= i < m.len() ==> {
                    &&& v@[i].from@ == names[m[i].0]
                    &&& v@[i].to@ == replace_first(
                        names[m[i].0],
                        source_suffix(m[i].1),
                        target_suffix(m[i].1),
                    )
                }
        },
        Err(PlanError::DuplicateMatch(d)) => exists|i: int, j: int|
            {
                &&& is_first_duplicate(rules, i, j)
                &&& d.rule as int == m[j].1
                &&& d.first@ == names[m[i].0]
                &&& d.second@ == names[m[j].0]
            },
        Err(PlanError::IncompleteSet(missing_list)) => {
            &&& rules.no_duplicates()
            &&& missing_list@ == missing(rules)
            &&& missing_list@.len() > 0
        },
    }
}

/// Scans `names`, checks that every rule recognised a file, and only then
/// lists the renames; nothing is renamed here.
pub fn plan_renames(names: &Vec<String>) -> (r: Result<Vec<Rename>, PlanError>)
    ensures
        plan_result(names_view(names@), r),
{
    let ghost nv = names_view(names@);
    let ghost m = all_matches(nv);
    match scan_names(names) {
        Err(d) => Err(PlanError::DuplicateMatch(d)),
        Ok(found) => {
            let missing_list = missing_rules(&found);
            proof {
                assert(rules_of(found@) =~= rule_column(m));
                lemma_all_matches_range(nv);
            }
            if missing_list.len() > 0 {
                return Err(PlanError::IncompleteSet(missing_list));
            }
            let mut out: Vec<Rename> = Vec::new();
            let mut i: usize = 0;
            while i < found.len()
                invariant
                    m == all_matches(nv),
                    describes(found@, nv, m),
                    forall|k: int| 0 <= k < m.len() ==> recognises(nv, m[k].0, m[k].1),
                    i <= found@.len(),
                    out@.len() == i,
                    forall|k: int|
                        0 <= k < i ==> {
                            &&& out@[k].from@ == nv[m[k].0]
                            &&& out@[k].to@ == replace_first(
                                nv[m[k].0],
                                source_suffix(m[k].1),
                                target_suffix(m[k].1),
                            )
                        },
                decreases found@.len() - i,
            {
                let f = &found[i];
                let to = new_file_name(f.file_name.as_str(), f.rule);
                out.push(Rename { from: f.file_name.clone(), to });
                i = i + 1;
            }
            Ok(out)
        },
    }
}

} // verus!
