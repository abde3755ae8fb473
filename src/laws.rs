//! Laws of the plan over whole listings.

use vstd::prelude::*;
use vstd::set_lib::{lemma_int_range, set_int_range};
use crate::matcher::{
    all_matches, is_recognised, lemma_all_matches_range, lemma_name_matches_range, missing, missing_upto,
    name_matches, plan_result, recognises, rule_column, PlanError, Rename,
};
use crate::rules::{lemma_renames, source_suffix, target_suffix, RULE_COUNT};
use crate::text::replace_first;

verus! {

/// Ordered by name, then by rule, each pair strictly after the one before.
spec fn strictly_ordered(m: Seq<(int, int)>) -> bool {
    forall|a: int, b: int|
        0 <= a < b < m.len() ==> m[a].0 < m[b].0 || (m[a].0 == m[b].0 && m[a].1 < m[b].1)
}

proof fn lemma_name_matches_member(n: int, name: Seq<char>, k: int)
    requires
        0 <= k <= RULE_COUNT,
    ensures
        forall|r: int|
            0 <= r < k && crate::text::contains(name, source_suffix(r)) ==> name_matches(
                n,
                name,
                k,
            ).contains((n, r)),
        strictly_ordered(name_matches(n, name, k)),
    decreases k,
{
    if k > 0 {
        lemma_name_matches_member(n, name, k - 1);
        lemma_name_matches_range(n, name, k - 1);
        let p = name_matches(n, name, k - 1);
        let q = name_matches(n, name, k);
        assert forall|r: int|
            0 <= r < k && crate::text::contains(name, source_suffix(r)) implies q.contains(
            (n, r),
        ) by {
            if r < k - 1 {
                let i = choose|i: int| 0 <= i < p.len() && p[i] == (n, r);
                assert(q[i] == p[i]);
            } else {
                assert(q[p.len() as int] == (n, r));
            }
        }
        assert forall|a: int, b: int| 0 <= a < b < q.len() implies q[a].0 < q[b].0 || (q[a].0
            == q[b].0 && q[a].1 < q[b].1) by {
            if b < p.len() {
                assert(q[a] == p[a] && q[b] == p[b]);
            } else {
                assert(q[a] == p[a]);
            }
        }
    }
}

/// Every pair of a name and a rule that recognises it is a match, and the
/// matches are strictly ordered, so none repeats.
proof fn lemma_all_matches_member(names: Seq<Seq<char>>)
    ensures
        forall|n: int, r: int| recognises(names, n, r) ==> all_matches(names).contains((n, r)),
        all_matches(names).no_duplicates(),
    decreases names.len(),
{
    lemma_all_matches_ordered(names);
    if names.len() > 0 {
        let init = names.drop_last();
        let last = names.len() - 1;
        lemma_all_matches_member(init);
        lemma_name_matches_member(last, names.last(), RULE_COUNT as int);
        let a = all_matches(init);
        let b = name_matches(last, names.last(), RULE_COUNT as int);
        assert forall|n: int, r: int| recognises(names, n, r) implies all_matches(
            names,
        ).contains((n, r)) by {
            if n < last {
                assert(init[n] == names[n]);
                assert(recognises(init, n, r));
                let i = choose|i: int| 0 <= i < a.len() && a[i] == (n, r);
                assert(all_matches(names)[i] == a[i]);
            } else {
                let i = choose|i: int| 0 <= i < b.len() && b[i] == (n, r);
                assert(all_matches(names)[a.len() + i] == b[i]);
            }
        }
    }
}

proof fn lemma_all_matches_ordered(names: Seq<Seq<char>>)
    ensures
        strictly_ordered(all_matches(names)),
        all_matches(names).no_duplicates(),
    decreases names.len(),
{
    if names.len() > 0 {
        let init = names.drop_last();
        let last = names.len() - 1;
        lemma_all_matches_ordered(init);
        lemma_all_matches_range(init);
        lemma_name_matches_member(last, names.last(), RULE_COUNT as int);
        lemma_name_matches_range(last, names.last(), RULE_COUNT as int);
        let a = all_matches(init);
        let b = name_matches(last, names.last(), RULE_COUNT as int);
        let m = all_matches(names);
        assert forall|x: int, y: int| 0 <= x < y < m.len() implies m[x].0 < m[y].0 || (m[x].0
            == m[y].0 && m[x].1 < m[y].1) by {
            if y < a.len() {
                assert(m[x] == a[x] && m[y] == a[y]);
            } else if x < a.len() {
                assert(m[x] == a[x] && m[y] == b[y - a.len()]);
                assert(recognises(init, a[x].0, a[x].1));
            } else {
                assert(m[x] == b[x - a.len()] && m[y] == b[y - a.len()]);
            }
        }
    }
    let m = all_matches(names);
    assert forall|x: int, y: int| 0 <= x < m.len() && 0 <= y < m.len() && x != y implies m[x]
        != m[y] by {
        if x < y {
            assert(m[x].0 < m[y].0 || m[x].1 < m[y].1);
        } else {
            assert(m[y].0 < m[x].0 || m[y].1 < m[x].1);
        }
    }
}

/// A rule is missing exactly when no entry of `rules` names it.
proof fn lemma_missing_upto(rules: Seq<int>, k: int)
    requires
        0 <= k <= RULE_COUNT,
    ensures
        forall|r: int|
            #![trigger rules.contains(r)]
            0 <= r < k ==> (missing_upto(rules, k).contains(r as usize) <==> !rules.contains(r)),
        forall|i: int|
            0 <= i < missing_upto(rules, k).len() ==> missing_upto(rules, k)[i] < k,
    decreases k,
{
    if k > 0 {
        lemma_missing_upto(rules, k - 1);
        let p = missing_upto(rules, k - 1);
        let q = missing_upto(rules, k);
        assert forall|r: int| 0 <= r < k implies (q.contains(r as usize) <==> !rules.contains(r)) by {
            if !rules.contains(k - 1) {
                if q.contains(r as usize) {
                    let i = choose|i: int| 0 <= i < q.len() && q[i] == r as usize;
                    if i < p.len() {
                        assert(p.contains(r as usize));
                    }
                }
                if r < k - 1 && p.contains(r as usize) {
                    let i = choose|i: int| 0 <= i < p.len() && p[i] == r as usize;
                    assert(q[i] == p[i]);
                }
                if r == k - 1 {
                    assert(q[p.len() as int] == r as usize);
                }
            }
        }
    }
}

/// The rules that occur among the matches are exactly those of the table
/// that recognise some name.
proof fn lemma_rule_column(names: Seq<Seq<char>>)
    ensures
        forall|x: int|
            #![trigger rule_column(all_matches(names)).contains(x)]
            rule_column(all_matches(names)).contains(x) ==> 0 <= x < RULE_COUNT && is_recognised(
                names,
                x,
            ),
        forall|x: int|
            #![trigger is_recognised(names, x)]
            0 <= x < RULE_COUNT && is_recognised(names, x) ==> rule_column(
                all_matches(names),
            ).contains(x),
{
    let m = all_matches(names);
    let rules = rule_column(m);
    lemma_all_matches_member(names);
    lemma_all_matches_range(names);
    assert forall|x: int| rules.contains(x) implies 0 <= x < RULE_COUNT && is_recognised(
        names,
        x,
    ) by {
        let i = choose|i: int| 0 <= i < rules.len() && rules[i] == x;
        assert(recognises(names, m[i].0, m[i].1));
    }
    assert forall|x: int| 0 <= x < RULE_COUNT && is_recognised(names, x) implies rules.contains(
        x,
    ) by {
        let n = choose|n: int| recognises(names, n, x);
        assert(m.contains((n, x)));
        let i = choose|i: int| 0 <= i < m.len() && m[i] == (n, x);
        assert(rules[i] == x);
    }
}

/// Where no rule recognises two names, no rule occurs twice among the matches.
proof fn lemma_rule_column_unique(names: Seq<Seq<char>>)
    requires
        forall|n1: int, n2: int, rule: int|
            recognises(names, n1, rule) && recognises(names, n2, rule) ==> n1 == n2,
    ensures
        rule_column(all_matches(names)).no_duplicates(),
{
    let m = all_matches(names);
    let rules = rule_column(m);
    lemma_all_matches_member(names);
    lemma_all_matches_range(names);
    assert forall|a: int, b: int| 0 <= a < rules.len() && 0 <= b < rules.len() && a != b implies rules[a]
        != rules[b] by {
        assert(recognises(names, m[a].0, m[a].1));
        assert(recognises(names, m[b].0, m[b].1));
    }
}

/// Where no rule recognises two files and every rule recognises one, the
/// plan succeeds.
proof fn lemma_plan_ok(names: Seq<Seq<char>>, r: Result<Vec<Rename>, PlanError>)
    requires
        plan_result(names, r),
        rule_column(all_matches(names)).no_duplicates(),
        missing(rule_column(all_matches(names))).len() == 0,
    ensures
        r is Ok,
{
    let rules = rule_column(all_matches(names));
    if let Err(PlanError::DuplicateMatch(d)) = r {
        let (i, j) = choose|i: int, j: int| crate::matcher::is_first_duplicate(rules, i, j);
        assert(rules[i] == rules[j]);
    }
}

/// Where each of the table's rules recognises exactly one file of the listing,
/// the plan renames all of them, one rename per rule: each such file gets the
/// name that replaces its rule's source suffix with the target suffix.
pub proof fn lemma_complete_listing_renames_each_file(
    names: Seq<Seq<char>>,
    r: Result<Vec<Rename>, PlanError>,
)
    requires
        plan_result(names, r),
        forall|rule: int| 0 <= rule < RULE_COUNT ==> is_recognised(names, rule),
        forall|n1: int, n2: int, rule: int|
            recognises(names, n1, rule) && recognises(names, n2, rule) ==> n1 == n2,
    ensures
        r is Ok,
        r->Ok_0@.len() == RULE_COUNT,
        forall|n: int, rule: int|
            recognises(names, n, rule) ==> exists|i: int|
                {
                    &&& 0 <= i < r->Ok_0@.len()
                    &&& r->Ok_0@[i].from@ == names[n]
                    &&& r->Ok_0@[i].to@ == replace_first(
                        names[n],
                        source_suffix(rule),
                        target_suffix(rule),
                    )
                },
{
    let m = all_matches(names);
    let rules = rule_column(m);
    lemma_all_matches_member(names);
    lemma_rule_column(names);
    lemma_rule_column_unique(names);
    lemma_missing_upto(rules, RULE_COUNT as int);
    assert forall|rule: int| 0 <= rule < RULE_COUNT implies rules.contains(rule) by {
        assert(is_recognised(names, rule));
    }
    if missing(rules).len() > 0 {
        let x = missing(rules)[0] as int;
        assert(missing(rules).contains(x as usize));
        assert(rules.contains(x));
    }
    assert forall|x: int| rules.to_set().contains(x) <==> set_int_range(
        0,
        RULE_COUNT as int,
    ).contains(x) by {
        assert(set_int_range(0, RULE_COUNT as int).contains(x) == (0 <= x < RULE_COUNT));
        assert(rules.to_set().contains(x) == rules.contains(x));
        if 0 <= x < RULE_COUNT {
            assert(is_recognised(names, x));
            assert(rules.contains(x));
        }
    }
    assert(rules.to_set() =~= set_int_range(0, RULE_COUNT as int));
    rules.unique_seq_to_set();
    lemma_int_range(0, RULE_COUNT as int);
    lemma_plan_ok(names, r);
    let v = r->Ok_0@;
    assert forall|n: int, rule: int| recognises(names, n, rule) implies exists|i: int|
        {
            &&& 0 <= i < v.len()
            &&& v[i].from@ == names[n]
            &&& v[i].to@ == replace_first(names[n], source_suffix(rule), target_suffix(rule))
        } by {
        let i = choose|i: int| 0 <= i < m.len() && m[i] == (n, rule);
        assert(v[i].from@ == names[m[i].0]);
    }
}

/// Where some rule of the table recognises no file of the listing, the plan
/// renames nothing. Where moreover no rule recognises two files, it reports
/// exactly the rules that recognise no file.
pub proof fn lemma_missing_file_renames_nothing(
    names: Seq<Seq<char>>,
    r: Result<Vec<Rename>, PlanError>,
)
    requires
        plan_result(names, r),
        exists|rule: int| 0 <= rule < RULE_COUNT && !is_recognised(names, rule),
    ensures
        r is Err,
        (forall|n1: int, n2: int, rule: int|
            recognises(names, n1, rule) && recognises(names, n2, rule) ==> n1 == n2) ==> (r matches Err(
            PlanError::IncompleteSet(l),
        ) && (forall|i: int| 0 <= i < l@.len() ==> l@[i] < RULE_COUNT) && forall|rule: int|
            #![trigger is_recognised(names, rule)]
            0 <= rule < RULE_COUNT ==> (l@.contains(rule as usize) <==> !is_recognised(
                names,
                rule,
            ))),
{
    let rules = rule_column(all_matches(names));
    lemma_rule_column(names);
    lemma_missing_upto(rules, RULE_COUNT as int);
    let absent = choose|rule: int| 0 <= rule < RULE_COUNT && !is_recognised(names, rule);
    assert(!rules.contains(absent));
    assert(missing(rules).contains(absent as usize));
    if (forall|n1: int, n2: int, rule: int|
        recognises(names, n1, rule) && recognises(names, n2, rule) ==> n1 == n2) {
        lemma_rule_column_unique(names);
        assert forall|rule: int| 0 <= rule < RULE_COUNT implies (missing(rules).contains(
            rule as usize,
        ) <==> !is_recognised(names, rule)) by {
            if is_recognised(names, rule) {
                assert(rules.contains(rule));
            } else {
                assert(!rules.contains(rule));
            }
        }
        if let Err(PlanError::DuplicateMatch(d)) = r {
            let (i, j) = choose|i: int, j: int| crate::matcher::is_first_duplicate(rules, i, j);
            assert(rules[i] == rules[j]);
        }
    }
}

/// Where two files of the listing are recognised by one rule, the plan renames
/// nothing and reports a rule together with two distinct files, in listing
/// order, that it recognises.
pub proof fn lemma_duplicate_renames_nothing(names: Seq<Seq<char>>, r: Result<Vec<Rename>, PlanError>)
    requires
        plan_result(names, r),
        exists|n1: int, n2: int, rule: int|
            n1 != n2 && recognises(names, n1, rule) && recognises(names, n2, rule),
    ensures
        r matches Err(PlanError::DuplicateMatch(d)) && exists|a: int, b: int|
            {
                &&& a < b
                &&& recognises(names, a, d.rule as int)
                &&& recognises(names, b, d.rule as int)
                &&& d.first@ == names[a]
                &&& d.second@ == names[b]
            },
{
    let m = all_matches(names);
    let rules = rule_column(m);
    lemma_all_matches_member(names);
    lemma_all_matches_ordered(names);
    lemma_all_matches_range(names);
    let (n1, n2, rule) = choose|n1: int, n2: int, rule: int|
        n1 != n2 && recognises(names, n1, rule) && recognises(names, n2, rule);
    let x = choose|x: int| 0 <= x < m.len() && m[x] == (n1, rule);
    let y = choose|y: int| 0 <= y < m.len() && m[y] == (n2, rule);
    assert(rules[x] == rules[y]);
    assert(!rules.no_duplicates());
    if let Err(PlanError::DuplicateMatch(d)) = r {
        let (i, j) = choose|i: int, j: int|
            {
                &&& crate::matcher::is_first_duplicate(rules, i, j)
                &&& d.rule as int == m[j].1
                &&& d.first@ == names[m[i].0]
                &&& d.second@ == names[m[j].0]
            };
        assert(m[i] != m[j]);
        assert(recognises(names, m[i].0, m[i].1));
        assert(recognises(names, m[j].0, m[j].1));
    }
}

/// A listing whose files were renamed already, so that no name holds the
/// source suffix of a rule that changes names, yields no renames, and each of
/// those rules is reported missing unless a duplicate stops the scan first.
/// Where no name holds any source suffix, every rule of the table is reported
/// missing, in table order.
pub proof fn lemma_renamed_listing_renames_nothing(
    names: Seq<Seq<char>>,
    r: Result<Vec<Rename>, PlanError>,
)
    requires
        plan_result(names, r),
        forall|n: int, rule: int|
            recognises(names, n, rule) ==> source_suffix(rule) == target_suffix(rule),
    ensures
        r is Err,
        r matches Err(PlanError::IncompleteSet(l)) ==> forall|rule: int|
            0 <= rule < RULE_COUNT && source_suffix(rule) != target_suffix(rule) ==> l@.contains(
                rule as usize,
            ),
        (forall|n: int, rule: int| !recognises(names, n, rule)) ==> (r matches Err(
            PlanError::IncompleteSet(l),
        ) && l@ == seq![0usize, 1, 2, 3, 4, 5, 6, 7, 8]),
{
    let m = all_matches(names);
    let rules = rule_column(m);
    lemma_rule_column(names);
    lemma_missing_upto(rules, RULE_COUNT as int);
    lemma_renames(0);
    assert(!is_recognised(names, 0));
    lemma_missing_file_renames_nothing(names, r);
    assert forall|rule: int|
        0 <= rule < RULE_COUNT && source_suffix(rule) != target_suffix(rule) implies missing(
        rules,
    ).contains(rule as usize) by {
        assert(!is_recognised(names, rule));
        assert(!rules.contains(rule));
    }
    if forall|n: int, rule: int| !recognises(names, n, rule) {
        lemma_all_matches_range(names);
        if m.len() > 0 {
            assert(recognises(names, m[0].0, m[0].1));
        }
        assert(rules =~= Seq::<int>::empty());
        reveal_with_fuel(missing_upto, 10);
        assert(missing(rules) =~= seq![0usize, 1, 2, 3, 4, 5, 6, 7, 8]);
    }
}

} // verus!
