use gerber_rename::matcher::{
    find_by_extention, missing_rules, new_file_name, plan_renames, scan_names, MatchedFile,
    PlanError, Rename,
};
use gerber_rename::rules::{extension_rule, RULE_COUNT};
use gerber_rename::text::{find_first, replace_first_occurrence};

const SUFFIXES: [&str; 9] = [
    "-B.SilkS.gbr",
    "-B.Mask.gbr",
    "-B.Cu.gbr",
    "-F.Cu.gbr",
    "-F.Mask.gbr",
    "-F.SilkS.gbr",
    "-Edge.Cuts.gbr",
    "-NPTH.TXT",
    "-PTH.TXT",
];

fn full_set(stem: &str) -> Vec<String> {
    SUFFIXES.iter().map(|s| format!("{}{}", stem, s)).collect()
}

fn pairs(v: &[Rename]) -> Vec<(String, String)> {
    v.iter().map(|r| (r.from.clone(), r.to.clone())).collect()
}

fn expect_missing(names: &Vec<String>) -> Vec<usize> {
    match plan_renames(names) {
        Err(PlanError::IncompleteSet(m)) => m,
        Err(PlanError::DuplicateMatch(d)) => panic!("unexpected duplicate of rule {}", d.rule),
        Ok(v) => panic!("unexpected plan of {} renames", v.len()),
    }
}

#[test]
fn rule_table_holds_the_nine_layers() {
    let expected = [
        ("-B.SilkS.gbr", ".GBO"),
        ("-B.Mask.gbr", ".GBS"),
        ("-B.Cu.gbr", ".GBL"),
        ("-F.Cu.gbr", ".GTL"),
        ("-F.Mask.gbr", ".GTS"),
        ("-F.SilkS.gbr", ".GTO"),
        ("-Edge.Cuts.gbr", ".GKO"),
        ("-NPTH.TXT", "-NPTH.TXT"),
        ("-PTH.TXT", "-PTH.TXT"),
    ];
    assert_eq!(RULE_COUNT, 9);
    for (i, (source, target)) in expected.iter().enumerate() {
        let rule = extension_rule(i);
        assert_eq!(rule.source, *source);
        assert_eq!(rule.target, *target);
    }
}

#[test]
fn renames_top_copper_and_keeps_drill_name() {
    assert_eq!(new_file_name("foo-F.Cu.gbr", 3), "foo.GTL");
    assert_eq!(new_file_name("foo-NPTH.TXT", 7), "foo-NPTH.TXT");
    assert_eq!(new_file_name("foo-PTH.TXT", 8), "foo-PTH.TXT");
    assert_eq!(new_file_name("board-Edge.Cuts.gbr", 6), "board.GKO");
}

#[test]
fn rename_replaces_only_the_first_occurrence() {
    assert_eq!(new_file_name("x-B.Cu.gbr-B.Cu.gbr", 2), "x.GBL-B.Cu.gbr");
    assert_eq!(new_file_name("a-F.Cu.gbr.bak", 3), "a.GTL.bak");
}

#[test]
fn complete_set_renames_all_nine() {
    let names = full_set("foo");
    let plan = match plan_renames(&names) {
        Ok(v) => pairs(&v),
        Err(_) => panic!("a complete set must be planned"),
    };
    let expected: Vec<(String, String)> = vec![
        ("foo-B.SilkS.gbr", "foo.GBO"),
        ("foo-B.Mask.gbr", "foo.GBS"),
        ("foo-B.Cu.gbr", "foo.GBL"),
        ("foo-F.Cu.gbr", "foo.GTL"),
        ("foo-F.Mask.gbr", "foo.GTS"),
        ("foo-F.SilkS.gbr", "foo.GTO"),
        ("foo-Edge.Cuts.gbr", "foo.GKO"),
        ("foo-NPTH.TXT", "foo-NPTH.TXT"),
        ("foo-PTH.TXT", "foo-PTH.TXT"),
    ]
    .into_iter()
    .map(|(a, b)| (a.to_string(), b.to_string()))
    .collect();
    assert_eq!(plan, expected);
}

#[test]
fn plan_follows_listing_order() {
    let mut names = full_set("pcb");
    names.reverse();
    let plan = match plan_renames(&names) {
        Ok(v) => pairs(&v),
        Err(_) => panic!("a complete set must be planned"),
    };
    assert_eq!(plan.len(), 9);
    assert_eq!(plan[0], ("pcb-PTH.TXT".to_string(), "pcb-PTH.TXT".to_string()));
    assert_eq!(plan[8], ("pcb-B.SilkS.gbr".to_string(), "pcb.GBO".to_string()));
}

#[test]
fn unrelated_file_is_left_alone() {
    let mut names = full_set("foo");
    names.insert(4, "readme.txt".to_string());
    let plan = match plan_renames(&names) {
        Ok(v) => pairs(&v),
        Err(_) => panic!("a complete set must be planned"),
    };
    assert_eq!(plan.len(), 9);
    assert!(plan.iter().all(|(from, to)| from != "readme.txt" && to != "readme.txt"));
    assert!(plan.contains(&("foo-F.Cu.gbr".to_string(), "foo.GTL".to_string())));
}

#[test]
fn missing_one_file_reports_it() {
    let mut names = full_set("foo");
    names.remove(3);
    assert_eq!(expect_missing(&names), vec![3]);
}

#[test]
fn missing_several_files_reports_each_in_table_order() {
    let mut names = full_set("foo");
    names.remove(8);
    names.remove(6);
    names.remove(0);
    assert_eq!(expect_missing(&names), vec![0, 6, 8]);
}

#[test]
fn empty_listing_reports_all_rules_missing() {
    let names: Vec<String> = Vec::new();
    assert_eq!(expect_missing(&names), vec![0, 1, 2, 3, 4, 5, 6, 7, 8]);
}

#[test]
fn duplicate_reports_both_files() {
    let mut names = full_set("foo");
    names.push("bar-B.Cu.gbr".to_string());
    match plan_renames(&names) {
        Err(PlanError::DuplicateMatch(d)) => {
            assert_eq!(d.rule, 2);
            assert_eq!(d.first, "foo-B.Cu.gbr");
            assert_eq!(d.second, "bar-B.Cu.gbr");
        },
        _ => panic!("a duplicate must stop the plan"),
    }
}

#[test]
fn duplicate_wins_over_missing_files() {
    let names = vec!["a-B.Cu.gbr".to_string(), "b-B.Cu.gbr".to_string()];
    match plan_renames(&names) {
        Err(PlanError::DuplicateMatch(d)) => {
            assert_eq!(d.rule, 2);
            assert_eq!(d.first, "a-B.Cu.gbr");
            assert_eq!(d.second, "b-B.Cu.gbr");
        },
        _ => panic!("a duplicate must stop the plan"),
    }
}

#[test]
fn first_duplicate_in_scan_order_is_reported() {
    let names = vec![
        "a-F.Cu.gbr".to_string(),
        "a-B.Cu.gbr".to_string(),
        "b-B.Cu.gbr".to_string(),
        "b-F.Cu.gbr".to_string(),
    ];
    match plan_renames(&names) {
        Err(PlanError::DuplicateMatch(d)) => {
            assert_eq!(d.rule, 2);
            assert_eq!(d.first, "a-B.Cu.gbr");
            assert_eq!(d.second, "b-B.Cu.gbr");
        },
        _ => panic!("a duplicate must stop the plan"),
    }
}

#[test]
fn second_run_on_renamed_listing_renames_nothing() {
    let names = full_set("foo");
    let first = match plan_renames(&names) {
        Ok(v) => v,
        Err(_) => panic!("a complete set must be planned"),
    };
    let renamed: Vec<String> = first.iter().map(|r| r.to.clone()).collect();
    assert_eq!(expect_missing(&renamed), vec![0, 1, 2, 3, 4, 5, 6]);
}

#[test]
fn renamed_layers_without_drill_files_report_all_missing() {
    let names: Vec<String> = ["foo.GBO", "foo.GBS", "foo.GBL", "foo.GTL", "foo.GTS", "foo.GTO", "foo.GKO"]
        .iter()
        .map(|s| s.to_string())
        .collect();
    assert_eq!(expect_missing(&names), vec![0, 1, 2, 3, 4, 5, 6, 7, 8]);
}

#[test]
fn name_holding_two_suffixes_matches_both_rules() {
    let names = vec!["x-B.Cu.gbr-F.Cu.gbr".to_string(), "readme.txt".to_string()];
    let found = match scan_names(&names) {
        Ok(v) => v,
        Err(_) => panic!("no rule recognises two files"),
    };
    let got: Vec<(String, usize)> = found.iter().map(|f| (f.file_name.clone(), f.rule)).collect();
    assert_eq!(
        got,
        vec![("x-B.Cu.gbr-F.Cu.gbr".to_string(), 2), ("x-B.Cu.gbr-F.Cu.gbr".to_string(), 3)]
    );
}

#[test]
fn suffix_matches_anywhere_in_the_name() {
    let mut names = full_set("foo");
    names[3] = "foo-F.Cu.gbr.old".to_string();
    let plan = match plan_renames(&names) {
        Ok(v) => pairs(&v),
        Err(_) => panic!("a complete set must be planned"),
    };
    assert_eq!(plan[3], ("foo-F.Cu.gbr.old".to_string(), "foo.GTL.old".to_string()));
}

#[test]
fn drill_suffixes_do_not_overlap() {
    let names = vec!["d-NPTH.TXT".to_string()];
    let found = match scan_names(&names) {
        Ok(v) => v,
        Err(_) => panic!("no rule recognises two files"),
    };
    assert_eq!(found.len(), 1);
    assert_eq!(found[0].rule, 7);
}

#[test]
fn find_by_extention_finds_first_file_of_rule() {
    let files = vec![
        MatchedFile { file_name: "a".to_string(), rule: 4 },
        MatchedFile { file_name: "b".to_string(), rule: 2 },
        MatchedFile { file_name: "c".to_string(), rule: 2 },
    ];
    assert_eq!(find_by_extention(&files, 2), Some(1));
    assert_eq!(find_by_extention(&files, 4), Some(0));
    assert_eq!(find_by_extention(&files, 7), None);
    assert_eq!(find_by_extention(&Vec::new(), 0), None);
}

#[test]
fn missing_rules_lists_unmatched_rules() {
    let files = vec![
        MatchedFile { file_name: "a".to_string(), rule: 8 },
        MatchedFile { file_name: "b".to_string(), rule: 0 },
        MatchedFile { file_name: "c".to_string(), rule: 5 },
    ];
    assert_eq!(missing_rules(&files), vec![1, 2, 3, 4, 6, 7]);
    assert_eq!(missing_rules(&Vec::new()), vec![0, 1, 2, 3, 4, 5, 6, 7, 8]);
}

#[test]
fn find_first_counts_characters() {
    assert_eq!(find_first("abcabc", "ca"), Some(2));
    assert_eq!(find_first("abc", ""), Some(0));
    assert_eq!(find_first("abc", "abcd"), None);
    assert_eq!(find_first("ab", "x"), None);
    assert_eq!(find_first("äö-B.Cu.gbr", "-B.Cu"), Some(2));
}

#[test]
fn replace_first_occurrence_leaves_other_text() {
    assert_eq!(replace_first_occurrence("aXbXc", "X", "--"), "a--bXc");
    assert_eq!(replace_first_occurrence("abc", "X", "--"), "abc");
    assert_eq!(replace_first_occurrence("äö-B.Cu.gbr", "-B.Cu.gbr", ".GBL"), "äö.GBL");
}
