use git_trans::codec::{emit, parse};
use git_trans::records::{Lock, Progress, Records, TransError};

fn sample() -> Records {
    Records::init_at(
        String::from("proj"),
        String::from("en-US"),
        String::from("HEAD"),
        Some(String::from("abc123")),
        String::from("2024-01-01T00:00:00+00:00"),
    )
    .unwrap()
}

#[test]
fn empty_ledger_emits_exact_document() {
    let doc = emit(&sample());
    assert_eq!(
        doc,
        "[meta]\n\
         project_name = \"proj\"\n\
         lang = \"en-US\"\n\
         track_rev = \"abc123\"\n\
         datetime = 2024-01-01T00:00:00+00:00\n"
    );
}

#[test]
fn one_entry_emits_exact_document() {
    let mut r = sample();
    r.add(String::from("docs/readme.md"), true, String::from("rev1"))
        .unwrap();
    r.mark_progress(Progress::Review, "docs/readme.md").unwrap();
    let doc = emit(&r);
    assert_eq!(
        doc,
        "[meta]\n\
         project_name = \"proj\"\n\
         lang = \"en-US\"\n\
         track_rev = \"abc123\"\n\
         datetime = 2024-01-01T00:00:00+00:00\n\
         \n\
         [[files]]\n\
         path = \"docs/readme.md\"\n\
         track_rev = \"rev1\"\n\
         progress = \"Review\"\n\
         synced = true\n\
         locked = true\n"
    );
}

#[test]
fn round_trip_preserves_entries_and_meta() {
    let mut r = sample();
    r.add(String::from("docs/readme.md"), false, String::from("rev1"))
        .unwrap();
    r.add(String::from("src/lib.md"), true, String::from("rev2"))
        .unwrap();
    r.mark_progress(Progress::Done, "src/lib.md").unwrap();
    r.set_synced("docs/readme.md", String::from("rev3")).unwrap();

    let doc = emit(&r);
    let back = parse(doc.as_str()).unwrap();

    assert_eq!(back.meta.project_name, r.meta.project_name);
    assert_eq!(back.meta.lang, r.meta.lang);
    assert_eq!(back.meta.track_rev, r.meta.track_rev);
    assert_eq!(back.meta.datetime, r.meta.datetime);
    assert_eq!(back.files.len(), r.files.len());
    for (a, b) in back.files.iter().zip(r.files.iter()) {
        assert_eq!(a.path, b.path);
        assert_eq!(a.track_rev, b.track_rev);
        assert_eq!(a.progress, b.progress);
        assert_eq!(a.synced, b.synced);
        assert_eq!(a.locked, b.locked);
    }
}

#[test]
fn parse_reads_a_hand_written_document() {
    let doc = "[meta]\n\
               project_name = \"demo\"\n\
               lang = \"zh-CN\"\n\
               track_rev = \"deadbeef\"\n\
               datetime = 2023-05-01T12:00:00+00:00\n\
               \n\
               [[files]]\n\
               path = \"a.md\"\n\
               track_rev = \"r1\"\n\
               progress = \"Todo\"\n\
               synced = false\n";
    let r = parse(doc).unwrap();
    assert_eq!(r.meta.project_name, "demo");
    assert_eq!(r.files.len(), 1);
    assert_eq!(r.files[0].path, "a.md");
    assert!(!r.files[0].synced);
    assert_eq!(r.files[0].locked, Lock::Unlocked);
}

#[test]
fn parse_accepts_document_without_trailing_newline() {
    let doc = "[meta]\n\
               project_name = \"demo\"\n\
               lang = \"zh-CN\"\n\
               track_rev = \"deadbeef\"\n\
               datetime = 2023-05-01T12:00:00+00:00";
    let r = parse(doc).unwrap();
    assert_eq!(r.meta.track_rev, "deadbeef");
    assert!(r.files.is_empty());
}

#[test]
fn parse_rejects_malformed_text() {
    assert_eq!(parse("").unwrap_err(), TransError::DocumentUnreadable);
    assert_eq!(parse("garbage").unwrap_err(), TransError::DocumentUnreadable);
    let missing_quote = "[meta]\n\
                         project_name = \"demo\n\
                         lang = \"zh-CN\"\n\
                         track_rev = \"d\"\n\
                         datetime = now\n";
    assert_eq!(parse(missing_quote).unwrap_err(), TransError::DocumentUnreadable);
}

#[test]
fn parse_rejects_duplicate_paths() {
    let doc = "[meta]\n\
               project_name = \"demo\"\n\
               lang = \"zh-CN\"\n\
               track_rev = \"d\"\n\
               datetime = now\n\
               \n\
               [[files]]\n\
               path = \"a.md\"\n\
               track_rev = \"r1\"\n\
               progress = \"Todo\"\n\
               synced = true\n\
               \n\
               [[files]]\n\
               path = \"a.md\"\n\
               track_rev = \"r2\"\n\
               progress = \"Done\"\n\
               synced = false\n";
    assert_eq!(parse(doc).unwrap_err(), TransError::DocumentUnreadable);
}

#[test]
fn parse_rejects_bad_progress_value() {
    let doc = "[meta]\n\
               project_name = \"demo\"\n\
               lang = \"zh-CN\"\n\
               track_rev = \"d\"\n\
               datetime = now\n\
               \n\
               [[files]]\n\
               path = \"a.md\"\n\
               track_rev = \"r1\"\n\
               progress = \"Doing\"\n\
               synced = true\n";
    assert_eq!(parse(doc).unwrap_err(), TransError::DocumentUnreadable);
}
