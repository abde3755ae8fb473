//! The fixed table of layer rules: which filename suffix a layer file carries
//! when exported, and which one the fabrication house expects.

use vstd::prelude::*;

verus! {

/// Number of layer files that make up a complete set.
pub const RULE_COUNT: usize = 9;

/// One row of the table: a file whose name contains `source` is renamed so
/// that `source` becomes `target`.
pub struct ExtensionRule {
    pub source: &'static str,
    pub target: &'static str,
}

/// The suffix by which the file of rule `r` is recognised.
pub open spec fn source_suffix(r: int) -> Seq<char> {
    if r == 0 {
        "-B.SilkS.gbr"@
    } else if r == 1 {
        "-B.Mask.gbr"@
    } else if r == 2 {
        "-B.Cu.gbr"@
    } else if r == 3 {
        "-F.Cu.gbr"@
    } else if r == 4 {
        "-F.Mask.gbr"@
    } else if r == 5 {
        "-F.SilkS.gbr"@
    } else if r == 6 {
        "-Edge.Cuts.gbr"@
    } else if r == 7 {
        "-NPTH.TXT"@
    } else {
        "-PTH.TXT"@
    }
}

/// The suffix that replaces `source_suffix(r)`. The two drill files keep
/// their names.
pub open spec fn target_suffix(r: int) -> Seq<char> {
    if r == 0 {
        ".GBO"@
    } else if r == 1 {
        ".GBS"@
    } else if r == 2 {
        ".GBL"@
    } else if r == 3 {
        ".GTL"@
    } else if r == 4 {
        ".GTS"@
    } else if r == 5 {
        ".GTO"@
    } else if r == 6 {
        ".GKO"@
    } else if r == 7 {
        "-NPTH.TXT"@
    } else {
        "-PTH.TXT"@
    }
}

/// Rule `r` actually changes a name: every rule but the two drill files.
pub open spec fn renames(r: int) -> bool {
    0 <= r < 7
}

/// Rule number `index` of the table.
pub fn extension_rule(index: usize) -> (r: ExtensionRule)
    requires
        index < RULE_COUNT,
    ensures
        r.source@ == source_suffix(index as int),
        r.target@ == target_suffix(index as int),
{
    if index == 0 {
        ExtensionRule { source: "-B.SilkS.gbr", target: ".GBO" }
    } else if index == 1 {
        ExtensionRule { source: "-B.Mask.gbr", target: ".GBS" }
    } else if index == 2 {
        ExtensionRule { source: "-B.Cu.gbr", target: ".GBL" }
    } else if index == 3 {
        ExtensionRule { source: "-F.Cu.gbr", target: ".GTL" }
    } else if index == 4 {
        ExtensionRule { source: "-F.Mask.gbr", target: ".GTS" }
    } else if index == 5 {
        ExtensionRule { source: "-F.SilkS.gbr", target: ".GTO" }
    } else if index == 6 {
        ExtensionRule { source: "-Edge.Cuts.gbr", target: ".GKO" }
    } else if index == 7 {
        ExtensionRule { source: "-NPTH.TXT", target: "-NPTH.TXT" }
    } else {
        ExtensionRule { source: "-PTH.TXT", target: "-PTH.TXT" }
    }
}

/// A rule changes a name exactly when its target differs from its source.
pub proof fn lemma_renames(r: int)
    requires
        0 <= r < RULE_COUNT,
    ensures
        renames(r) <==> source_suffix(r) != target_suffix(r),
{
    reveal_strlit("-B.SilkS.gbr");
    reveal_strlit("-B.Mask.gbr");
    reveal_strlit("-B.Cu.gbr");
    reveal_strlit("-F.Cu.gbr");
    reveal_strlit("-F.Mask.gbr");
    reveal_strlit("-F.SilkS.gbr");
    reveal_strlit("-Edge.Cuts.gbr");
    reveal_strlit(".GBO");
    reveal_strlit(".GBS");
    reveal_strlit(".GBL");
    reveal_strlit(".GTL");
    reveal_strlit(".GTS");
    reveal_strlit(".GTO");
    reveal_strlit(".GKO");
    if renames(r) {
        assert(source_suffix(r).len() != target_suffix(r).len());
    }
}

} // verus!
