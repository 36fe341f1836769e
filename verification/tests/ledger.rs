use git_trans::records::{Lock, Progress, Records, TransError};

fn sample() -> Records {
    Records::init_at(
        String::from("proj"),
        String::from("en-US"),
        String::from("HEAD"),
        Some(String::from("abc123")),
        String::from("2024-01-01T00:00:00+00:00"),
    )
    .unwrap()
}

#[test]
fn init_resolves_head_to_concrete_revision() {
    let r = sample();
    assert_eq!(r.meta.project_name, "proj");
    assert_eq!(r.meta.lang, "en-US");
    assert_eq!(r.meta.track_rev, "abc123");
    assert!(r.files.is_empty());
}

#[test]
fn init_keeps_explicit_tag_verbatim() {
    let r = Records::init_at(
        String::from("proj"),
        String::from("en-US"),
        String::from("v1.0"),
        Some(String::from("abc123")),
        String::from("2024-01-01T00:00:00+00:00"),
    )
    .unwrap();
    assert_eq!(r.meta.track_rev, "v1.0");
}

#[test]
fn init_fails_on_unresolved_revision() {
    let r = Records::init_at(
        String::from("proj"),
        String::from("en-US"),
        String::from("HEAD"),
        None,
        String::from("2024-01-01T00:00:00+00:00"),
    );
    assert_eq!(r.unwrap_err(), TransError::InvalidRevision);
}

#[test]
fn init_timestamp_stays_on_one_line() {
    let r = Records::init(
        String::from("proj"),
        String::from("en-US"),
        String::from("HEAD"),
        Some(String::from("abc123")),
    )
    .unwrap();
    assert!(!r.meta.datetime.contains('\n'));
}

#[test]
fn add_then_contains_and_second_add_fails() {
    let mut r = sample();
    assert!(!r.contains("docs/readme.md"));
    r.add(String::from("docs/readme.md"), false, String::from("rev1"))
        .unwrap();
    assert!(r.contains("docs/readme.md"));
    let again = r.add(String::from("docs/readme.md"), false, String::from("rev1"));
    assert_eq!(again.unwrap_err(), TransError::AlreadyTracked);
}

#[test]
fn add_yields_fresh_synced_todo_entry() {
    let mut r = sample();
    let f = r
        .add(String::from("docs/readme.md"), false, String::from("rev1"))
        .unwrap();
    assert_eq!(f.path, "docs/readme.md");
    assert_eq!(f.track_rev, "rev1");
    assert_eq!(f.progress, Progress::Todo);
    assert!(f.synced);
    assert_eq!(f.locked, Lock::Unlocked);
}

#[test]
fn add_with_lock_starts_locked() {
    let mut r = sample();
    let f = r
        .add(String::from("a.md"), true, String::from("rev1"))
        .unwrap();
    assert_eq!(f.locked, Lock::Locked);
}

#[test]
fn rm_then_contains_is_false_and_second_rm_fails() {
    let mut r = sample();
    r.add(String::from("a.md"), false, String::from("rev1")).unwrap();
    let gone = r.rm("a.md").unwrap();
    assert_eq!(gone.path, "a.md");
    assert!(!r.contains("a.md"));
    assert_eq!(r.rm("a.md").unwrap_err(), TransError::NotTracked);
}

#[test]
fn rm_keeps_order_of_other_entries() {
    let mut r = sample();
    r.add(String::from("a.md"), false, String::from("r1")).unwrap();
    r.add(String::from("b.md"), false, String::from("r2")).unwrap();
    r.add(String::from("c.md"), false, String::from("r3")).unwrap();
    r.rm("b.md").unwrap();
    let rest = r.show_all();
    assert_eq!(rest.len(), 2);
    assert_eq!(rest[0].path, "a.md");
    assert_eq!(rest[1].path, "c.md");
}

#[test]
fn mark_progress_is_idempotent() {
    let mut r = sample();
    r.add(String::from("a.md"), false, String::from("r1")).unwrap();
    let once = r.mark_progress(Progress::Review, "a.md").unwrap();
    let twice = r.mark_progress(Progress::Review, "a.md").unwrap();
    assert_eq!(once.path, twice.path);
    assert_eq!(once.track_rev, twice.track_rev);
    assert_eq!(once.progress, twice.progress);
    assert_eq!(once.synced, twice.synced);
    assert_eq!(once.locked, twice.locked);
    assert_eq!(twice.progress, Progress::Review);
}

#[test]
fn mark_progress_allows_any_transition() {
    let mut r = sample();
    r.add(String::from("a.md"), false, String::from("r1")).unwrap();
    assert_eq!(
        r.mark_progress(Progress::Done, "a.md").unwrap().progress,
        Progress::Done
    );
    assert_eq!(
        r.mark_progress(Progress::Todo, "a.md").unwrap().progress,
        Progress::Todo
    );
}

#[test]
fn mark_progress_on_untracked_path_fails() {
    let mut r = sample();
    let res = r.mark_progress(Progress::Done, "nope.md");
    assert_eq!(res.unwrap_err(), TransError::NotTracked);
}

#[test]
fn lock_then_unlock_returns_to_plain_unlocked() {
    let mut r = sample();
    r.add(String::from("a.md"), false, String::from("r1")).unwrap();
    let locked = r.set_lock(true, "a.md").unwrap();
    assert_eq!(locked.locked, Lock::Locked);
    let unlocked = r.set_lock(false, "a.md").unwrap();
    assert_eq!(unlocked.locked, Lock::Unlocked);
    let doc = git_trans::codec::emit(&r);
    assert!(!doc.contains("locked"));
}

#[test]
fn set_lock_on_untracked_path_fails() {
    let mut r = sample();
    assert_eq!(r.set_lock(true, "nope.md").unwrap_err(), TransError::NotTracked);
}

#[test]
fn set_synced_overwrites_anchor_and_sets_flag() {
    let mut r = sample();
    r.add(String::from("a.md"), false, String::from("rev1")).unwrap();
    r.mark_progress(Progress::Done, "a.md").unwrap();
    let f = r.set_synced("a.md", String::from("rev2")).unwrap();
    assert_eq!(f.track_rev, "rev2");
    assert!(f.synced);
    assert_eq!(f.progress, Progress::Done);
}

#[test]
fn set_synced_on_untracked_path_fails() {
    let mut r = sample();
    assert_eq!(
        r.set_synced("nope.md", String::from("rev2")).unwrap_err(),
        TransError::NotTracked
    );
}

#[test]
fn staleness_check_reads_without_writing() {
    let mut r = sample();
    r.add(String::from("a.md"), false, String::from("rev1")).unwrap();
    assert_eq!(r.check_synced("a.md", "rev1").unwrap(), true);
    assert_eq!(r.check_synced("a.md", "rev2").unwrap(), false);
    let f = r.get("a.md").unwrap();
    assert_eq!(f.track_rev, "rev1");
    let f2 = r.set_synced("a.md", String::from("rev2")).unwrap();
    assert_eq!(f2.track_rev, "rev2");
}

#[test]
fn check_synced_on_untracked_path_fails() {
    let r = sample();
    assert_eq!(
        r.check_synced("nope.md", "rev1").unwrap_err(),
        TransError::NotTracked
    );
}

#[test]
fn show_filters_project_in_insertion_order() {
    let mut r = sample();
    r.add(String::from("a.md"), false, String::from("r1")).unwrap();
    r.add(String::from("b.md"), true, String::from("r2")).unwrap();
    r.add(String::from("c.md"), false, String::from("r3")).unwrap();
    r.mark_progress(Progress::Done, "b.md").unwrap();
    r.mark_progress(Progress::Done, "c.md").unwrap();

    let all = r.show_all();
    assert_eq!(all.len(), 3);
    assert_eq!(all[0].path, "a.md");
    assert_eq!(all[2].path, "c.md");

    let done = r.show_by_progress(Progress::Done);
    assert_eq!(done.len(), 2);
    assert_eq!(done[0].path, "b.md");
    assert_eq!(done[1].path, "c.md");

    let todo = r.show_by_progress(Progress::Todo);
    assert_eq!(todo.len(), 1);
    assert_eq!(todo[0].path, "a.md");

    let none = r.show_by_progress(Progress::Review);
    assert!(none.is_empty());

    let synced = r.show_by_synced(true);
    assert_eq!(synced.len(), 3);

    let locked = r.show_by_locked(Lock::Locked);
    assert_eq!(locked.len(), 1);
    assert_eq!(locked[0].path, "b.md");
}

#[test]
fn show_never_mutates_the_ledger() {
    let mut r = sample();
    r.add(String::from("a.md"), true, String::from("r1")).unwrap();
    r.add(String::from("b.md"), false, String::from("r2")).unwrap();
    let before = git_trans::codec::emit(&r);
    r.show_all();
    r.show_by_progress(Progress::Todo);
    r.show_by_synced(false);
    r.show_by_locked(Lock::Locked);
    r.check_synced("a.md", "r9").unwrap();
    let after = git_trans::codec::emit(&r);
    assert_eq!(before, after);
}
