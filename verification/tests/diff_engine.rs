use synapcmd::diff::{
    emit_unified_hunks, hunk_header, merge_hunks, render_file_patch, render_hunk_body,
    render_unified_diff, ChangeKind, UnifiedEdit,
};

fn lines(texts: &[&str]) -> Vec<String> {
    texts.iter().map(|t| t.to_string()).collect()
}

fn edit(os: usize, oe: usize, ns: usize, ne: usize) -> UnifiedEdit {
    UnifiedEdit { old_start: os, old_end: oe, new_start: ns, new_end: ne }
}

#[test]
fn single_replacement_scenario() {
    let old = lines(&["a", "b", "c", "d", "e"]);
    let new = lines(&["a", "X", "c", "d", "e"]);
    let edits = vec![edit(1, 2, 1, 2)];
    let mut out: Vec<String> = Vec::new();
    emit_unified_hunks(&mut out, &old, &new, &edits, 1);
    assert_eq!(out, lines(&["@@ -1,3 +1,3 @@", " a", "-b", "+X", " c"]));
}

#[test]
fn no_edits_no_hunks() {
    let old = lines(&["a", "b"]);
    let new = lines(&["a", "b"]);
    let edits: Vec<UnifiedEdit> = Vec::new();
    let mut out: Vec<String> = vec!["kept".to_string()];
    emit_unified_hunks(&mut out, &old, &new, &edits, 3);
    assert_eq!(out, lines(&["kept"]));
}

#[test]
fn overlapping_windows_merge_into_one_hunk() {
    // six shared lines between the two edits; with three lines of
    // context the windows touch, so one hunk must hold both edits
    let old = lines(&["0", "x", "2", "3", "4", "5", "6", "7", "y", "9"]);
    let new = lines(&["0", "X", "2", "3", "4", "5", "6", "7", "Y", "9"]);
    let edits = vec![edit(1, 2, 1, 2), edit(8, 9, 8, 9)];
    let hunks = merge_hunks(&edits, 3, old.len(), new.len());
    assert_eq!(hunks.len(), 1);
    assert_eq!(hunks[0].edits.len(), 2);

    // with one line of context the windows are far apart: two hunks
    let apart = merge_hunks(&edits, 1, old.len(), new.len());
    assert_eq!(apart.len(), 2);
    assert!(apart[0].old_end < apart[1].old_start);
}

#[test]
fn hunk_body_counts_match_header() {
    let old = lines(&["keep1", "gone", "keep2", "keep3"]);
    let new = lines(&["keep1", "here", "also", "keep2", "keep3"]);
    let edits = vec![edit(1, 2, 1, 3)];
    let hunks = merge_hunks(&edits, 1, old.len(), new.len());
    assert_eq!(hunks.len(), 1);
    let h = &hunks[0];
    let body = render_hunk_body(h, &old, &new);
    let old_side = body.iter().filter(|l| l.starts_with(' ') || l.starts_with('-')).count();
    let new_side = body.iter().filter(|l| l.starts_with(' ') || l.starts_with('+')).count();
    assert_eq!(old_side, h.old_end - h.old_start);
    assert_eq!(new_side, h.new_end - h.new_start);
    assert_eq!(hunk_header(h), "@@ -1,3 +1,4 @@");
}

#[test]
fn three_context_lines_around_a_change() {
    let old = lines(&["l1", "l2", "l3", "l4", "l5", "l6", "l7"]);
    let new = lines(&["l1", "l2", "l3", "l4_changed", "l5", "l6", "l7"]);
    let mut out: Vec<String> = Vec::new();
    render_unified_diff(&mut out, &old, &new, 3);
    assert!(out.iter().any(|l| l.starts_with("@@ -")));
    let body: Vec<&String> = out.iter().skip(1).collect();
    assert!(body.iter().any(|l| l.starts_with(" l1")));
    assert!(body.iter().any(|l| l.starts_with(" l3")));
    assert!(body.iter().any(|l| l.starts_with("-l4")));
    assert!(body.iter().any(|l| l.starts_with("+l4_changed")));
    assert!(body.iter().any(|l| l.starts_with(" l7")));
}

#[test]
fn file_patch_headers() {
    let old = lines(&[]);
    let new = lines(&["hello"]);
    let mut out: Vec<String> = Vec::new();
    render_file_patch(&mut out, "dir/a.txt", ChangeKind::Added, &old, &new, 3);
    assert_eq!(out[0], "diff --git a/dir/a.txt b/dir/a.txt");
    assert_eq!(out[1], "--- /dev/null");
    assert_eq!(out[2], "+++ b/dir/a.txt");
    assert_eq!(out[3], "@@ -0,0 +1,1 @@");
    assert_eq!(out[4], "+hello");
}

#[test]
fn pure_insertion_uses_insertion_point_position() {
    let old = lines(&["a", "b"]);
    let new = lines(&["a", "n1", "n2", "b"]);
    let edits = vec![edit(1, 1, 1, 3)];
    let mut out: Vec<String> = Vec::new();
    emit_unified_hunks(&mut out, &old, &new, &edits, 0);
    assert_eq!(out, lines(&["@@ -1,0 +2,2 @@", "+n1", "+n2"]));
}
