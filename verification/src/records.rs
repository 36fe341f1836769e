//! The ledger core: record schema, per-file state machine and the
//! consistency rules that govern how entries are read and mutated.

use vstd::prelude::*;

use crate::clock;
use crate::utils::str_eq;

verus! {

/// Translation workflow state of a tracked file.
#[derive(Clone, Copy, Debug, PartialEq, Eq, Structural)]
pub enum Progress {
    Todo,
    Review,
    Done,
}

/// Advisory lock state of a tracked file. `Unlocked` is the default; the
/// persisted document carries a `locked` key only for `Locked` entries.
#[derive(Clone, Copy, Debug, PartialEq, Eq, Structural)]
pub enum Lock {
    Locked,
    Unlocked,
}

/// Every failure the ledger core can report.
#[derive(Clone, Copy, Debug, PartialEq, Eq, Structural)]
pub enum TransError {
    /// The working directory is not inside a repository.
    NotARepository,
    /// A tag or ref did not resolve to a concrete revision.
    InvalidRevision,
    /// `add` on a path that already has an entry.
    AlreadyTracked,
    /// A mutation or query on a path without an entry.
    NotTracked,
    /// The backing document is missing or malformed.
    DocumentUnreadable,
    /// An underlying filesystem or process failure, passed through.
    IoFailure,
}

/// One ledger entry: a canonical repo-relative path, the upstream revision
/// the translation is anchored to, workflow progress, a cached sync flag
/// and the advisory lock.
#[derive(Clone, Debug)]
pub struct TrackedFile {
    pub path: String,
    pub track_rev: String,
    pub progress: Progress,
    pub synced: bool,
    pub locked: Lock,
}

/// Project-wide metadata of the ledger.
#[derive(Clone, Debug)]
pub struct Meta {
    pub project_name: String,
    pub lang: String,
    pub track_rev: String,
    pub datetime: String,
}

/// The whole persisted state for one project: metadata plus an ordered
/// collection of tracked files, unique by canonical path.
#[derive(Clone, Debug)]
pub struct Records {
    pub meta: Meta,
    pub files: Vec<TrackedFile>,
}

/// Mathematical model of one entry.
#[verifier::ext_equal]
pub struct TrackedFileView {
    pub path: Seq<char>,
    pub track_rev: Seq<char>,
    pub progress: Progress,
    pub synced: bool,
    pub locked: Lock,
}

/// Mathematical model of the metadata.
#[verifier::ext_equal]
pub struct MetaView {
    pub project_name: Seq<char>,
    pub lang: Seq<char>,
    pub track_rev: Seq<char>,
    pub datetime: Seq<char>,
}

/// Mathematical model of the whole ledger.
#[verifier::ext_equal]
pub struct RecordsView {
    pub meta: MetaView,
    pub files: Seq<TrackedFileView>,
}

impl View for TrackedFile {
    type V = TrackedFileView;

    open spec fn view(&self) -> TrackedFileView {
        TrackedFileView {
            path: self.path@,
            track_rev: self.track_rev@,
            progress: self.progress,
            synced: self.synced,
            locked: self.locked,
        }
    }
}

impl View for Meta {
    type V = MetaView;

    open spec fn view(&self) -> MetaView {
        MetaView {
            project_name: self.project_name@,
            lang: self.lang@,
            track_rev: self.track_rev@,
            datetime: self.datetime@,
        }
    }
}

impl View for Records {
    type V = RecordsView;

    open spec fn view(&self) -> RecordsView {
        RecordsView { meta: self.meta@, files: Seq::new(self.files@.len(), |i: int| self.files@[i]@) }
    }
}

/// Index of the first entry with the given canonical path, or -1.
pub open spec fn find_idx(files: Seq<TrackedFileView>, key: Seq<char>) -> int
    decreases files.len(),
{
    if files.len() == 0 {
        -1
    } else if files[0].path == key {
        0
    } else {
        let rest = find_idx(files.drop_first(), key);
        if rest < 0 {
            -1
        } else {
            rest + 1
        }
    }
}

/// Whether some entry carries the given canonical path.
pub open spec fn tracks(v: RecordsView, key: Seq<char>) -> bool {
    find_idx(v.files, key) >= 0
}

/// Path uniqueness: no two entries share a canonical path.
pub open spec fn wf(v: RecordsView) -> bool {
    forall|i: int, j: int|
        0 <= i < j < v.files.len() ==> v.files[i].path != v.files[j].path
}

/// `find_idx` returns -1 exactly when no entry has the key, and otherwise
/// the first index carrying it.
pub proof fn lemma_find_idx(files: Seq<TrackedFileView>, key: Seq<char>)
    ensures
        find_idx(files, key) == -1 <==> (forall|i: int| 0 <= i < files.len() ==> files[i].path != key),
        find_idx(files, key) != -1 ==> {
            &&& 0 <= find_idx(files, key) < files.len()
            &&& files[find_idx(files, key)].path == key
            &&& forall|i: int| 0 <= i < find_idx(files, key) ==> files[i].path != key
        },
    decreases files.len(),
{
    if files.len() > 0 {
        let rest = files.drop_first();
        lemma_find_idx(rest, key);
        if files[0].path != key {
            let r = find_idx(rest, key);
            if r < 0 {
                assert forall|i: int| 0 <= i < files.len() implies files[i].path != key by {
                    if i > 0 {
                        assert(rest[i - 1] == files[i]);
                    }
                }
            } else {
                assert(rest[r] == files[r + 1]);
                assert forall|i: int| 0 <= i < r + 1 implies files[i].path != key by {
                    if i > 0 {
                        assert(rest[i - 1] == files[i]);
                    }
                }
            }
        }
    }
}

/// The one tagged description of a single-field mutation; every in-place
/// change of an entry is funnelled through [`Records::update`] with one of
/// these.
#[derive(Clone, Debug)]
pub enum Mutation {
    SetProgress(Progress),
    SetSynced(String),
    SetLock(Lock),
}

/// Mathematical model of a mutation description.
pub enum MutationView {
    SetProgress(Progress),
    SetSynced(Seq<char>),
    SetLock(Lock),
}

impl View for Mutation {
    type V = MutationView;

    open spec fn view(&self) -> MutationView {
        match self {
            Mutation::SetProgress(p) => MutationView::SetProgress(*p),
            Mutation::SetSynced(rev) => MutationView::SetSynced(rev@),
            Mutation::SetLock(l) => MutationView::SetLock(*l),
        }
    }
}

/// The entry produced by a fresh `add`: anchored to the given revision,
/// `Todo`, synced by definition, locked only on request.
pub open spec fn new_file_view(path: Seq<char>, rev: Seq<char>, locked: bool) -> TrackedFileView {
    TrackedFileView {
        path: path,
        track_rev: rev,
        progress: Progress::Todo,
        synced: true,
        locked: if locked {
            Lock::Locked
        } else {
            Lock::Unlocked
        },
    }
}

/// Model of a successful `add`: the new entry appended, metadata untouched.
pub open spec fn spec_add(
    v: RecordsView,
    path: Seq<char>,
    locked: bool,
    rev: Seq<char>,
) -> RecordsView {
    RecordsView { meta: v.meta, files: v.files.push(new_file_view(path, rev, locked)) }
}

/// Model of a successful `rm`: the matching entry detached, order kept.
pub open spec fn spec_rm(v: RecordsView, key: Seq<char>) -> RecordsView {
    RecordsView { meta: v.meta, files: v.files.remove(find_idx(v.files, key)) }
}

/// Exactly one field-level change of one entry.
pub open spec fn apply_mutation(f: TrackedFileView, m: MutationView) -> TrackedFileView {
    match m {
        MutationView::SetProgress(p) => TrackedFileView { progress: p, ..f },
        MutationView::SetSynced(rev) => TrackedFileView { track_rev: rev, synced: true, ..f },
        MutationView::SetLock(l) => TrackedFileView { locked: l, ..f },
    }
}

/// Model of a successful `update`: the matching entry rewritten in place.
pub open spec fn spec_update(v: RecordsView, key: Seq<char>, m: MutationView) -> RecordsView {
    let i = find_idx(v.files, key);
    RecordsView { meta: v.meta, files: v.files.update(i, apply_mutation(v.files[i], m)) }
}

impl TrackedFile {
    /// A field-for-field copy with a known relation to the original.
    pub fn duplicate(&self) -> (r: TrackedFile)
        ensures
            r@ == self@,
    {
        TrackedFile {
            path: self.path.clone(),
            track_rev: self.track_rev.clone(),
            progress: self.progress,
            synced: self.synced,
            locked: self.locked,
        }
    }
}

impl Meta {
    /// A field-for-field copy with a known relation to the original.
    pub fn duplicate(&self) -> (r: Meta)
        ensures
            r@ == self@,
    {
        Meta {
            project_name: self.project_name.clone(),
            lang: self.lang.clone(),
            track_rev: self.track_rev.clone(),
            datetime: self.datetime.clone(),
        }
    }
}

impl Records {
    /// Existence check by canonical path.
    pub fn contains(&self, path: &str) -> (b: bool)
        ensures
            b == tracks(self@, path@),
    {
        self.find(path).is_some()
    }

    /// Position of the entry with the given canonical path, if any.
    fn find(&self, path: &str) -> (r: Option<usize>)
        ensures
            match r {
                Some(i) => tracks(self@, path@) && i == find_idx(self@.files, path@) && i
                    < self.files.len(),
                None => !tracks(self@, path@),
            },
    {
        let n = self.files.len();
        let mut i: usize = 0;
        while i < n
            invariant
                n == self.files.len(),
                i <= n,
                forall|j: int| 0 <= j < i ==> self@.files[j].path != path@,
            decreases n - i,
        {
            if str_eq(self.files[i].path.as_str(), path) {
                proof {
                    assert(self@.files[i as int].path == path@);
                    lemma_find_idx(self@.files, path@);
                }
                return Some(i);
            }
            proof {
                assert(self@.files[i as int].path == self.files@[i as int]@.path);
            }
            i += 1;
        }
        proof {
            lemma_find_idx(self@.files, path@);
        }
        None
    }

    /// Insert a fresh entry for a path not yet tracked. The entry is
    /// anchored to `latest_rev` (the latest upstream revision touching the
    /// path, as the caller resolved it), starts at `Todo`, and is synced by
    /// definition. Fails with `AlreadyTracked` when the path has an entry.
    pub fn add(&mut self, path: String, locked: bool, latest_rev: String) -> (r: Result<
        TrackedFile,
        TransError,
    >)
        requires
            wf(old(self)@),
        ensures
            tracks(old(self)@, path@) ==> {
                &&& r is Err
                &&& r->Err_0 == TransError::AlreadyTracked
                &&& final(self)@ == old(self)@
            },
            !tracks(old(self)@, path@) ==> {
                &&& r is Ok
                &&& r->Ok_0@ == new_file_view(path@, latest_rev@, locked)
                &&& final(self)@ == spec_add(old(self)@, path@, locked, latest_rev@)
                &&& wf(final(self)@)
            },
    {
        if self.contains(path.as_str()) {
            return Err(TransError::AlreadyTracked);
        }
        let file = TrackedFile {
            path,
            track_rev: latest_rev,
            progress: Progress::Todo,
            synced: true,
            locked: if locked {
                Lock::Locked
            } else {
                Lock::Unlocked
            },
        };
        let out = file.duplicate();
        let ghost fv = file@;
        self.files.push(file);
        proof {
            let ghost key = fv.path;
            assert forall|i: int|
                0 <= i < final(self)@.files.len() implies final(self)@.files[i] == old(
                    self,
                )@.files.push(fv)[i] by {
                if i < old(self)@.files.len() {
                    assert(self.files@[i] == old(self).files@[i]);
                }
            }
            assert(final(self)@.files =~= old(self)@.files.push(fv));
            assert(final(self)@ =~= spec_add(old(self)@, key, locked, fv.track_rev));
            lemma_find_idx(old(self)@.files, key);
            assert forall|i: int, j: int|
                0 <= i < j < final(self)@.files.len() implies final(self)@.files[i].path
                != final(self)@.files[j].path by {
                if j == final(self)@.files.len() - 1 {
                    assert(old(self)@.files[i].path != key);
                }
            }
        }
        Ok(out)
    }

    /// Detach and return the entry for a tracked path, keeping the order of
    /// the others. Fails with `NotTracked` when the path has no entry.
    pub fn rm(&mut self, path: &str) -> (r: Result<TrackedFile, TransError>)
        requires
            wf(old(self)@),
        ensures
            !tracks(old(self)@, path@) ==> {
                &&& r is Err
                &&& r->Err_0 == TransError::NotTracked
                &&& final(self)@ == old(self)@
            },
            tracks(old(self)@, path@) ==> {
                &&& r is Ok
                &&& r->Ok_0@ == old(self)@.files[find_idx(old(self)@.files, path@)]
                &&& final(self)@ == spec_rm(old(self)@, path@)
                &&& wf(final(self)@)
            },
    {
        match self.find(path) {
            None => Err(TransError::NotTracked),
            Some(i) => {
                let file = self.files.remove(i);
                proof {
                    let ghost fi = i as int;
                    assert(file@ == old(self).files@[fi]@);
                    assert forall|a: int|
                        0 <= a < final(self)@.files.len() implies final(self)@.files[a] == old(
                            self,
                        )@.files.remove(fi)[a] by {
                        if a < fi {
                            assert(self.files@[a] == old(self).files@[a]);
                        } else {
                            assert(self.files@[a] == old(self).files@[a + 1]);
                        }
                    }
                    assert(final(self)@.files =~= old(self)@.files.remove(fi));
                    assert(final(self)@ =~= spec_rm(old(self)@, path@));
                    assert forall|a: int, b: int|
                        0 <= a < b < final(self)@.files.len() implies final(self)@.files[a].path
                        != final(self)@.files[b].path by {
                        let va = if a < fi {
                            a
                        } else {
                            a + 1
                        };
                        let vb = if b < fi {
                            b
                        } else {
                            b + 1
                        };
                        assert(final(self)@.files[a] == old(self)@.files[va]);
                        assert(final(self)@.files[b] == old(self)@.files[vb]);
                    }
                }
                Ok(file)
            },
        }
    }

    /// The single choke point for every in-place mutation: locate the entry
    /// by canonical path, apply exactly one field-level change, and return a
    /// copy of the entry as it now stands. Fails with `NotTracked` when the
    /// path has no entry.
    fn update(&mut self, path: &str, m: Mutation) -> (r: Result<TrackedFile, TransError>)
        requires
            wf(old(self)@),
        ensures
            !tracks(old(self)@, path@) ==> {
                &&& r is Err
                &&& r->Err_0 == TransError::NotTracked
                &&& final(self)@ == old(self)@
            },
            tracks(old(self)@, path@) ==> {
                &&& r is Ok
                &&& r->Ok_0@ == apply_mutation(
                    old(self)@.files[find_idx(old(self)@.files, path@)],
                    m@,
                )
                &&& final(self)@ == spec_update(old(self)@, path@, m@)
                &&& wf(final(self)@)
            },
    {
        match self.find(path) {
            None => Err(TransError::NotTracked),
            Some(i) => {
                let ghost mv = m@;
                let ghost before = self@.files[i as int];
                let mut file = self.files[i].duplicate();
                proof {
                    assert(file@ == before);
                }
                match m {
                    Mutation::SetProgress(p) => {
                        file.progress = p;
                        proof {
                            assert(file@ == apply_mutation(before, mv));
                        }
                    },
                    Mutation::SetSynced(rev) => {
                        let ghost rv = rev@;
                        file.track_rev = rev;
                        file.synced = true;
                        proof {
                            assert(mv == MutationView::SetSynced(rv));
                            assert(file@ == apply_mutation(before, mv));
                        }
                    },
                    Mutation::SetLock(l) => {
                        file.locked = l;
                        proof {
                            assert(file@ == apply_mutation(before, mv));
                        }
                    },
                }
                let out = file.duplicate();
                let ghost fv = file@;
                self.files[i] = file;
                proof {
                    let ghost fi = i as int;
                    assert forall|a: int|
                        0 <= a < final(self)@.files.len() implies final(self)@.files[a] == old(
                            self,
                        )@.files.update(fi, apply_mutation(before, mv))[a] by {
                        if a != fi {
                            assert(self.files@[a] == old(self).files@[a]);
                        } else {
                            assert(self.files@[a]@ == fv);
                        }
                    }
                    assert(final(self)@.files =~= old(self)@.files.update(
                        fi,
                        apply_mutation(old(self)@.files[fi], m@),
                    ));
                    assert(final(self)@ =~= spec_update(old(self)@, path@, m@));
                    assert forall|a: int, b: int|
                        0 <= a < b < final(self)@.files.len() implies final(self)@.files[a].path
                        != final(self)@.files[b].path by {
                        assert(old(self)@.files[a].path != old(self)@.files[b].path);
                        assert(final(self)@.files[a].path == old(self)@.files[a].path);
                        assert(final(self)@.files[b].path == old(self)@.files[b].path);
                    }
                }
                Ok(out)
            },
        }
    }

    /// Set the workflow progress of a tracked entry, unconditionally: any
    /// state may follow any other.
    pub fn mark_progress(&mut self, progress: Progress, path: &str) -> (r: Result<
        TrackedFile,
        TransError,
    >)
        requires
            wf(old(self)@),
        ensures
            !tracks(old(self)@, path@) ==> {
                &&& r is Err
                &&& r->Err_0 == TransError::NotTracked
                &&& final(self)@ == old(self)@
            },
            tracks(old(self)@, path@) ==> {
                &&& r is Ok
                &&& final(self)@ == spec_update(old(self)@, path@, MutationView::SetProgress(progress))
                &&& r->Ok_0@ == final(self)@.files[find_idx(old(self)@.files, path@)]
                &&& wf(final(self)@)
            },
    {
        proof {
            lemma_find_idx(self@.files, path@);
        }
        self.update(path, Mutation::SetProgress(progress))
    }

    /// Overwrite the entry's anchor with the latest upstream revision, as
    /// the caller just queried it, and set `synced`. This is the only
    /// operation that advances `track_rev`.
    pub fn set_synced(&mut self, path: &str, latest_rev: String) -> (r: Result<
        TrackedFile,
        TransError,
    >)
        requires
            wf(old(self)@),
        ensures
            !tracks(old(self)@, path@) ==> {
                &&& r is Err
                &&& r->Err_0 == TransError::NotTracked
                &&& final(self)@ == old(self)@
            },
            tracks(old(self)@, path@) ==> {
                &&& r is Ok
                &&& final(self)@ == spec_update(old(self)@, path@, MutationView::SetSynced(latest_rev@))
                &&& final(self)@.files[find_idx(old(self)@.files, path@)].track_rev == latest_rev@
                &&& final(self)@.files[find_idx(old(self)@.files, path@)].synced == true
                &&& r->Ok_0@ == final(self)@.files[find_idx(old(self)@.files, path@)]
                &&& wf(final(self)@)
            },
    {
        proof {
            lemma_find_idx(self@.files, path@);
        }
        self.update(path, Mutation::SetSynced(latest_rev))
    }

    /// Set or clear the advisory lock. Clearing leaves the entry exactly
    /// `Unlocked`; the persisted document then carries no lock key at all.
    pub fn set_lock(&mut self, locked: bool, path: &str) -> (r: Result<TrackedFile, TransError>)
        requires
            wf(old(self)@),
        ensures
            !tracks(old(self)@, path@) ==> {
                &&& r is Err
                &&& r->Err_0 == TransError::NotTracked
                &&& final(self)@ == old(self)@
            },
            tracks(old(self)@, path@) ==> {
                &&& r is Ok
                &&& final(self)@ == spec_update(
                    old(self)@,
                    path@,
                    MutationView::SetLock(
                        if locked {
                            Lock::Locked
                        } else {
                            Lock::Unlocked
                        },
                    ),
                )
                &&& final(self)@.files[find_idx(old(self)@.files, path@)].locked == (if locked {
                    Lock::Locked
                } else {
                    Lock::Unlocked
                })
                &&& r->Ok_0@ == final(self)@.files[find_idx(old(self)@.files, path@)]
                &&& wf(final(self)@)
            },
    {
        proof {
            lemma_find_idx(self@.files, path@);
        }
        self.update(
            path,
            Mutation::SetLock(
                if locked {
                    Lock::Locked
                } else {
                    Lock::Unlocked
                },
            ),
        )
    }

    /// Read-only staleness check: does the stored anchor still equal the
    /// latest upstream revision the caller just queried? Mutates nothing;
    /// displaying sync state never writes it back.
    pub fn check_synced(&self, path: &str, latest_rev: &str) -> (r: Result<bool, TransError>)
        ensures
            !tracks(self@, path@) ==> r is Err && r->Err_0 == TransError::NotTracked,
            tracks(self@, path@) ==> r is Ok && r->Ok_0 == (self@.files[find_idx(
                self@.files,
                path@,
            )].track_rev == latest_rev@),
    {
        match self.find(path) {
            None => Err(TransError::NotTracked),
            Some(i) => Ok(str_eq(self.files[i].track_rev.as_str(), latest_rev)),
        }
    }

    /// The entry for a tracked path, if any.
    pub fn get(&self, path: &str) -> (r: Option<&TrackedFile>)
        ensures
            match r {
                Some(f) => tracks(self@, path@) && f@ == self@.files[find_idx(
                    self@.files,
                    path@,
                )],
                None => !tracks(self@, path@),
            },
    {
        match self.find(path) {
            None => None,
            Some(i) => Some(&self.files[i]),
        }
    }

    /// Build a fresh ledger around a resolved anchor revision, with an
    /// explicit creation timestamp. An explicit tag is stored as given; the
    /// symbolic current-revision marker is stored as its resolved value.
    /// Fails with `InvalidRevision` when the anchor did not resolve.
    pub fn init_at(
        project_name: String,
        lang: String,
        tag: String,
        resolved: Option<String>,
        datetime: String,
    ) -> (r: Result<Records, TransError>)
        ensures
            resolved is None ==> r is Err && r->Err_0 == TransError::InvalidRevision,
            resolved is Some ==> {
                &&& r is Ok
                &&& r->Ok_0@.meta.project_name == project_name@
                &&& r->Ok_0@.meta.lang == lang@
                &&& r->Ok_0@.meta.track_rev == (if tag@ == "HEAD"@ {
                    resolved->0@
                } else {
                    tag@
                })
                &&& r->Ok_0@.meta.datetime == datetime@
                &&& r->Ok_0@.files =~= Seq::<TrackedFileView>::empty()
                &&& wf(r->Ok_0@)
            },
    {
        match resolved {
            None => Err(TransError::InvalidRevision),
            Some(rev) => {
                let track_rev = if str_eq(tag.as_str(), "HEAD") {
                    rev
                } else {
                    tag
                };
                Ok(
                    Records {
                        meta: Meta { project_name, lang, track_rev, datetime },
                        files: Vec::new(),
                    },
                )
            },
        }
    }

    /// Build a fresh ledger around a resolved anchor revision, stamped with
    /// the current time. The timestamp comes from the clock, so its value
    /// is not pinned here; everything else is as in [`Records::init_at`].
    pub fn init(project_name: String, lang: String, tag: String, resolved: Option<String>) -> (r:
        Result<Records, TransError>)
        ensures
            resolved is None ==> r is Err && r->Err_0 == TransError::InvalidRevision,
            resolved is Some ==> {
                &&& r is Ok
                &&& r->Ok_0@.meta.project_name == project_name@
                &&& r->Ok_0@.meta.lang == lang@
                &&& r->Ok_0@.meta.track_rev == (if tag@ == "HEAD"@ {
                    resolved->0@
                } else {
                    tag@
                })
                &&& forall|i: int|
                    0 <= i < r->Ok_0@.meta.datetime.len() ==> r->Ok_0@.meta.datetime[i] != '\n'
                &&& r->Ok_0@.files =~= Seq::<TrackedFileView>::empty()
                &&& wf(r->Ok_0@)
            },
    {
        let now = clock::now_rfc3339();
        Records::init_at(project_name, lang, tag, resolved, now)
    }
}

/// The models of a sequence of entries, in order.
pub open spec fn entry_views(s: Seq<TrackedFile>) -> Seq<TrackedFileView> {
    Seq::new(s.len(), |i: int| s[i]@)
}

/// The subsequence of entries in the given workflow state, order kept.
pub open spec fn filter_progress(s: Seq<TrackedFileView>, p: Progress) -> Seq<TrackedFileView>
    decreases s.len(),
{
    if s.len() == 0 {
        Seq::empty()
    } else {
        let rest = filter_progress(s.drop_last(), p);
        if s.last().progress == p {
            rest.push(s.last())
        } else {
            rest
        }
    }
}

/// The subsequence of entries whose cached sync flag has the given value,
/// order kept.
pub open spec fn filter_synced(s: Seq<TrackedFileView>, synced: bool) -> Seq<TrackedFileView>
    decreases s.len(),
{
    if s.len() == 0 {
        Seq::empty()
    } else {
        let rest = filter_synced(s.drop_last(), synced);
        if s.last().synced == synced {
            rest.push(s.last())
        } else {
            rest
        }
    }
}

/// The subsequence of entries whose lock state has the given value, order
/// kept.
pub open spec fn filter_locked(s: Seq<TrackedFileView>, locked: Lock) -> Seq<TrackedFileView>
    decreases s.len(),
{
    if s.len() == 0 {
        Seq::empty()
    } else {
        let rest = filter_locked(s.drop_last(), locked);
        if s.last().locked == locked {
            rest.push(s.last())
        } else {
            rest
        }
    }
}

impl Records {
    /// All entries, in insertion order. A read-only projection: the ledger
    /// is only borrowed, so no `show` can change what is persisted.
    pub fn show_all(&self) -> (r: Vec<TrackedFile>)
        ensures
            entry_views(r@) == self@.files,
    {
        let n = self.files.len();
        let mut out: Vec<TrackedFile> = Vec::new();
        let mut i: usize = 0;
        while i < n
            invariant
                n == self.files.len(),
                i <= n,
                out@.len() == i,
                entry_views(out@) =~= self@.files.subrange(0, i as int),
            decreases n - i,
        {
            let ghost pre = out@;
            out.push(self.files[i].duplicate());
            proof {
                assert(out@.len() == i + 1);
                assert forall|j: int|
                    0 <= j < out@.len() implies entry_views(out@)[j] == self@.files.subrange(
                    0,
                    (i + 1) as int,
                )[j] by {
                    if j < pre.len() {
                        assert(out@[j] == pre[j]);
                        assert(entry_views(pre)[j] == pre[j]@);
                    } else {
                        assert(out@[j] == out@.last());
                        assert(self@.files[i as int] == self.files@[i as int]@);
                    }
                }
                assert(entry_views(out@) =~= self@.files.subrange(0, (i + 1) as int));
            }
            i += 1;
        }
        proof {
            assert(self@.files.subrange(0, n as int) =~= self@.files);
        }
        out
    }

    /// The entries in the given workflow state, in insertion order. An
    /// empty result is a reportable outcome, not an error.
    pub fn show_by_progress(&self, progress: Progress) -> (r: Vec<TrackedFile>)
        ensures
            entry_views(r@) == filter_progress(self@.files, progress),
    {
        let n = self.files.len();
        let mut out: Vec<TrackedFile> = Vec::new();
        let mut i: usize = 0;
        while i < n
            invariant
                n == self.files.len(),
                i <= n,
                entry_views(out@) =~= filter_progress(self@.files.subrange(0, i as int), progress),
            decreases n - i,
        {
            let ghost pre = out@;
            let ghost curseq = self@.files.subrange(0, (i + 1) as int);
            proof {
                assert(curseq.drop_last() =~= self@.files.subrange(0, i as int));
                assert(curseq.last() == self@.files[i as int]);
                assert(self@.files[i as int] == self.files@[i as int]@);
            }
            if self.files[i].progress == progress {
                out.push(self.files[i].duplicate());
                proof {
                    assert forall|j: int|
                        0 <= j < out@.len() implies entry_views(out@)[j] == filter_progress(
                        curseq,
                        progress,
                    )[j] by {
                        if j < pre.len() {
                            assert(out@[j] == pre[j]);
                            assert(entry_views(pre)[j] == pre[j]@);
                        } else {
                            assert(out@[j] == out@.last());
                        }
                    }
                    assert(entry_views(out@).len() == filter_progress(curseq, progress).len());
                    assert(entry_views(out@) =~= filter_progress(curseq, progress));
                }
            } else {
                proof {
                    assert(entry_views(out@) =~= filter_progress(curseq, progress));
                }
            }
            i += 1;
        }
        proof {
            assert(self@.files.subrange(0, n as int) =~= self@.files);
        }
        out
    }

    /// The entries whose cached sync flag has the given value, in
    /// insertion order.
    pub fn show_by_synced(&self, synced: bool) -> (r: Vec<TrackedFile>)
        ensures
            entry_views(r@) == filter_synced(self@.files, synced),
    {
        let n = self.files.len();
        let mut out: Vec<TrackedFile> = Vec::new();
        let mut i: usize = 0;
        while i < n
            invariant
                n == self.files.len(),
                i <= n,
                entry_views(out@) =~= filter_synced(self@.files.subrange(0, i as int), synced),
            decreases n - i,
        {
            let ghost pre = out@;
            let ghost curseq = self@.files.subrange(0, (i + 1) as int);
            proof {
                assert(curseq.drop_last() =~= self@.files.subrange(0, i as int));
                assert(curseq.last() == self@.files[i as int]);
                assert(self@.files[i as int] == self.files@[i as int]@);
            }
            if self.files[i].synced == synced {
                out.push(self.files[i].duplicate());
                proof {
                    assert forall|j: int|
                        0 <= j < out@.len() implies entry_views(out@)[j] == filter_synced(
                        curseq,
                        synced,
                    )[j] by {
                        if j < pre.len() {
                            assert(out@[j] == pre[j]);
                            assert(entry_views(pre)[j] == pre[j]@);
                        } else {
                            assert(out@[j] == out@.last());
                        }
                    }
                    assert(entry_views(out@).len() == filter_synced(curseq, synced).len());
                    assert(entry_views(out@) =~= filter_synced(curseq, synced));
                }
            } else {
                proof {
                    assert(entry_views(out@) =~= filter_synced(curseq, synced));
                }
            }
            i += 1;
        }
        proof {
            assert(self@.files.subrange(0, n as int) =~= self@.files);
        }
        out
    }

    /// The entries whose lock state has the given value, in insertion
    /// order.
    pub fn show_by_locked(&self, locked: Lock) -> (r: Vec<TrackedFile>)
        ensures
            entry_views(r@) == filter_locked(self@.files, locked),
    {
        let n = self.files.len();
        let mut out: Vec<TrackedFile> = Vec::new();
        let mut i: usize = 0;
        while i < n
            invariant
                n == self.files.len(),
                i <= n,
                entry_views(out@) =~= filter_locked(self@.files.subrange(0, i as int), locked),
            decreases n - i,
        {
            let ghost pre = out@;
            let ghost curseq = self@.files.subrange(0, (i + 1) as int);
            proof {
                assert(curseq.drop_last() =~= self@.files.subrange(0, i as int));
                assert(curseq.last() == self@.files[i as int]);
                assert(self@.files[i as int] == self.files@[i as int]@);
            }
            if self.files[i].locked == locked {
                out.push(self.files[i].duplicate());
                proof {
                    assert forall|j: int|
                        0 <= j < out@.len() implies entry_views(out@)[j] == filter_locked(
                        curseq,
                        locked,
                    )[j] by {
                        if j < pre.len() {
                            assert(out@[j] == pre[j]);
                            assert(entry_views(pre)[j] == pre[j]@);
                        } else {
                            assert(out@[j] == out@.last());
                        }
                    }
                    assert(entry_views(out@).len() == filter_locked(curseq, locked).len());
                    assert(entry_views(out@) =~= filter_locked(curseq, locked));
                }
            } else {
                proof {
                    assert(entry_views(out@) =~= filter_locked(curseq, locked));
                }
            }
            i += 1;
        }
        proof {
            assert(self@.files.subrange(0, n as int) =~= self@.files);
        }
        out
    }
}


/// `find_idx` looks only at paths: two entry sequences with the same paths
/// at the same positions locate every key at the same index.
proof fn lemma_find_idx_same_paths(
    f1: Seq<TrackedFileView>,
    f2: Seq<TrackedFileView>,
    key: Seq<char>,
)
    requires
        f1.len() == f2.len(),
        forall|i: int| 0 <= i < f1.len() ==> f1[i].path == f2[i].path,
    ensures
        find_idx(f1, key) == find_idx(f2, key),
    decreases f1.len(),
{
    if f1.len() > 0 {
        assert forall|i: int|
            0 <= i < f1.drop_first().len() implies f1.drop_first()[i].path == f2.drop_first()[i].path by {
            assert(f1.drop_first()[i] == f1[i + 1]);
            assert(f2.drop_first()[i] == f2[i + 1]);
        }
        lemma_find_idx_same_paths(f1.drop_first(), f2.drop_first(), key);
    }
}

/// A mutation never changes an entry's identity.
proof fn lemma_apply_mutation_keeps_path(f: TrackedFileView, m: MutationView)
    ensures
        apply_mutation(f, m).path == f.path,
{
}

/// Law: a path not yet tracked is tracked right after `add`. A second
/// `add` of the same path then fails with `AlreadyTracked`, by `add`'s
/// contract, since the path is now tracked.
pub proof fn lemma_add_then_tracked(v: RecordsView, path: Seq<char>, locked: bool, rev: Seq<char>)
    requires
        !tracks(v, path),
    ensures
        tracks(spec_add(v, path, locked, rev), path),
{
    let v2 = spec_add(v, path, locked, rev);
    lemma_find_idx(v2.files, path);
    assert(v2.files[v2.files.len() - 1].path == path);
}

/// Law: a tracked path is no longer tracked right after `rm`. A second
/// `rm` of the same path then fails with `NotTracked`, by `rm`'s contract.
pub proof fn lemma_rm_then_untracked(v: RecordsView, path: Seq<char>)
    requires
        wf(v),
        tracks(v, path),
    ensures
        !tracks(spec_rm(v, path), path),
{
    let i = find_idx(v.files, path);
    lemma_find_idx(v.files, path);
    let v2 = spec_rm(v, path);
    assert forall|a: int| 0 <= a < v2.files.len() implies v2.files[a].path != path by {
        if a < i {
            assert(v2.files[a] == v.files[a]);
        } else {
            assert(v2.files[a] == v.files[a + 1]);
        }
    }
    lemma_find_idx(v2.files, path);
}

/// Law: every single-field mutation is idempotent. Applying the same
/// mutation description twice to the same path leaves exactly the state
/// one application leaves.
pub proof fn lemma_update_idempotent(v: RecordsView, key: Seq<char>, m: MutationView)
    requires
        wf(v),
        tracks(v, key),
    ensures
        spec_update(spec_update(v, key, m), key, m) == spec_update(v, key, m),
{
    let i = find_idx(v.files, key);
    lemma_find_idx(v.files, key);
    let v1 = spec_update(v, key, m);
    assert forall|a: int| 0 <= a < v1.files.len() implies v.files[a].path == v1.files[a].path by {
        lemma_apply_mutation_keeps_path(v.files[i], m);
    }
    lemma_find_idx_same_paths(v.files, v1.files, key);
    let v2 = spec_update(v1, key, m);
    assert(v1.files[i] == apply_mutation(v.files[i], m));
    assert(apply_mutation(apply_mutation(v.files[i], m), m) == apply_mutation(v.files[i], m));
    assert(v2.files =~= v1.files);
    assert(v2 =~= v1);
}

/// Law: marking progress is idempotent — the instance of
/// [`lemma_update_idempotent`] that `mark_progress` funnels through.
pub proof fn lemma_mark_progress_idempotent(v: RecordsView, key: Seq<char>, progress: Progress)
    requires
        wf(v),
        tracks(v, key),
    ensures
        spec_update(
            spec_update(v, key, MutationView::SetProgress(progress)),
            key,
            MutationView::SetProgress(progress),
        ) == spec_update(v, key, MutationView::SetProgress(progress)),
{
    lemma_update_idempotent(v, key, MutationView::SetProgress(progress));
}

/// Law: locking and then unlocking a path leaves its entry exactly
/// `Unlocked` — the same state a never-locked entry carries, not a third
/// "explicitly unlocked" state.
pub proof fn lemma_lock_then_unlock(v: RecordsView, key: Seq<char>)
    requires
        wf(v),
        tracks(v, key),
    ensures
        ({
            let v1 = spec_update(v, key, MutationView::SetLock(Lock::Locked));
            let v2 = spec_update(v1, key, MutationView::SetLock(Lock::Unlocked));
            &&& v2.files[find_idx(v.files, key)].locked == Lock::Unlocked
            &&& v2 == spec_update(v, key, MutationView::SetLock(Lock::Unlocked))
        }),
{
    let i = find_idx(v.files, key);
    lemma_find_idx(v.files, key);
    let v1 = spec_update(v, key, MutationView::SetLock(Lock::Locked));
    assert forall|a: int| 0 <= a < v1.files.len() implies v.files[a].path == v1.files[a].path by {
        lemma_apply_mutation_keeps_path(v.files[i], MutationView::SetLock(Lock::Locked));
    }
    lemma_find_idx_same_paths(v.files, v1.files, key);
    let v2 = spec_update(v1, key, MutationView::SetLock(Lock::Unlocked));
    assert(v2.files =~= spec_update(v, key, MutationView::SetLock(Lock::Unlocked)).files);
    assert(v2 =~= spec_update(v, key, MutationView::SetLock(Lock::Unlocked)));
}

} // verus!
