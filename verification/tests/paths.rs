use git_trans::ops::{cover_plan, diff_artifact_name, diff_revs};
use git_trans::records::{Records, TransError};
use git_trans::utils::{
    absolute_to_relative, get_path_rel_to_root, get_records_toml, get_trans_dir,
    pathbuf_to_unix_style, pathbuf_to_win_style, strip_trailing_newline,
};

#[test]
fn unix_style_replaces_backslashes() {
    assert_eq!(pathbuf_to_unix_style("a\\b\\c.md"), "a/b/c.md");
    assert_eq!(pathbuf_to_unix_style("a/b"), "a/b");
    assert_eq!(pathbuf_to_unix_style(""), "");
}

#[test]
fn win_style_replaces_forward_slashes() {
    assert_eq!(pathbuf_to_win_style("a/b/c.md"), "a\\b\\c.md");
    assert_eq!(pathbuf_to_win_style("a\\b"), "a\\b");
}

#[test]
fn strip_trailing_newline_handles_both_endings() {
    assert_eq!(strip_trailing_newline("abc\r\n"), "abc");
    assert_eq!(strip_trailing_newline("abc\n"), "abc");
    assert_eq!(strip_trailing_newline("abc"), "abc");
    assert_eq!(strip_trailing_newline(""), "");
    assert_eq!(strip_trailing_newline("abc\n\n"), "abc\n");
}

#[test]
fn absolute_to_relative_needs_component_boundary() {
    assert_eq!(
        absolute_to_relative("/repo", "/repo/docs/a.md").unwrap(),
        "docs/a.md"
    );
    assert_eq!(absolute_to_relative("/repo", "/repo").unwrap(), "");
    assert_eq!(
        absolute_to_relative("/repo", "/repository/a.md").unwrap_err(),
        TransError::IoFailure
    );
    assert_eq!(
        absolute_to_relative("/repo", "/elsewhere/a.md").unwrap_err(),
        TransError::IoFailure
    );
}

#[test]
fn rel_to_root_normalizes_separators_first() {
    assert_eq!(
        get_path_rel_to_root("C:\\repo", "C:\\repo\\docs\\a.md").unwrap(),
        "docs/a.md"
    );
    assert_eq!(
        get_path_rel_to_root("/repo", "/repo/docs/a.md").unwrap(),
        "docs/a.md"
    );
}

#[test]
fn side_channel_paths_hang_off_the_root() {
    assert_eq!(get_trans_dir("/repo"), "/repo/.trans");
    assert_eq!(get_records_toml("/repo"), "/repo/.trans/records.toml");
}

#[test]
fn diff_artifact_is_named_after_the_file() {
    assert_eq!(diff_artifact_name("docs/readme.md"), "readme.md.diff");
    assert_eq!(diff_artifact_name("readme.md"), "readme.md.diff");
}

#[test]
fn diff_revs_spans_anchor_to_latest() {
    let mut r = Records::init_at(
        String::from("proj"),
        String::from("en-US"),
        String::from("HEAD"),
        Some(String::from("abc123")),
        String::from("2024-01-01T00:00:00+00:00"),
    )
    .unwrap();
    r.add(String::from("a.md"), false, String::from("rev1")).unwrap();
    let (old, new) = diff_revs(&r, "a.md", String::from("rev9")).unwrap();
    assert_eq!(old, "rev1");
    assert_eq!(new, "rev9");
    assert_eq!(
        diff_revs(&r, "nope.md", String::from("rev9")).unwrap_err(),
        TransError::NotTracked
    );
}

#[test]
fn cover_skips_only_the_ledger_document() {
    let entries = vec![
        String::from("a/b.txt"),
        String::from(".trans/records.toml"),
    ];
    let plan = cover_plan(&entries, ".trans/records.toml");
    assert_eq!(plan.len(), 1);
    assert_eq!(plan[0], "a/b.txt");
}

#[test]
fn cover_keeps_order_and_overwrites_everything_else() {
    let entries = vec![
        String::from("x.md"),
        String::from("docs/y.md"),
        String::from(".trans/records.toml"),
        String::from("z.md"),
    ];
    let plan = cover_plan(&entries, ".trans/records.toml");
    assert_eq!(plan, vec![
        String::from("x.md"),
        String::from("docs/y.md"),
        String::from("z.md"),
    ]);
}
