//! The persisted document: a fixed, human-editable layout with one
//! `[meta]` section followed by one `[[files]]` block per entry. The
//! emitter and the parser are proved exact inverses on well-formed
//! ledgers whose fields sit on one line each.

use vstd::prelude::*;

use crate::records::{
    Lock, Meta, MetaView, Progress, Records, RecordsView, TrackedFile, TrackedFileView, TransError,
    entry_views, wf,
};
use crate::utils::{str_eq, str_starts_with};

verus! {

/// No newline anywhere: the value sits on one line of the document.
pub open spec fn line_safe(s: Seq<char>) -> bool {
    forall|i: int| 0 <= i < s.len() ==> s[i] != '\n'
}

/// Every string field of the ledger sits on one line of the document.
pub open spec fn clean(v: RecordsView) -> bool {
    &&& line_safe(v.meta.project_name)
    &&& line_safe(v.meta.lang)
    &&& line_safe(v.meta.track_rev)
    &&& line_safe(v.meta.datetime)
    &&& forall|i: int|
        0 <= i < v.files.len() ==> line_safe(#[trigger] v.files[i].path) && line_safe(
            v.files[i].track_rev,
        )
}

/// The five lines of the `[meta]` section.
pub open spec fn meta_lines(m: MetaView) -> Seq<Seq<char>> {
    seq![
        "[meta]"@,
        "project_name = \""@ + m.project_name + "\""@,
        "lang = \""@ + m.lang + "\""@,
        "track_rev = \""@ + m.track_rev + "\""@,
        "datetime = "@ + m.datetime,
    ]
}

/// The one line recording a workflow state.
pub open spec fn progress_line(p: Progress) -> Seq<char> {
    match p {
        Progress::Todo => "progress = \"Todo\""@,
        Progress::Review => "progress = \"Review\""@,
        Progress::Done => "progress = \"Done\""@,
    }
}

/// The one line recording the cached sync flag.
pub open spec fn synced_line(b: bool) -> Seq<char> {
    if b {
        "synced = true"@
    } else {
        "synced = false"@
    }
}

/// The lines of one `[[files]]` block: a separating empty line, the block
/// header, the entry's fields — and a `locked` line only when the entry is
/// locked.
pub open spec fn file_lines(f: TrackedFileView) -> Seq<Seq<char>> {
    let base = seq![
        Seq::<char>::empty(),
        "[[files]]"@,
        "path = \""@ + f.path + "\""@,
        "track_rev = \""@ + f.track_rev + "\""@,
        progress_line(f.progress),
        synced_line(f.synced),
    ];
    if f.locked == Lock::Locked {
        base.push("locked = true"@)
    } else {
        base
    }
}

/// The blocks of all entries, in ledger order.
pub open spec fn files_lines(fs: Seq<TrackedFileView>) -> Seq<Seq<char>>
    decreases fs.len(),
{
    if fs.len() == 0 {
        Seq::empty()
    } else {
        file_lines(fs[0]) + files_lines(fs.drop_first())
    }
}

/// Every line of the persisted document, in order.
pub open spec fn doc_lines(v: RecordsView) -> Seq<Seq<char>> {
    meta_lines(v.meta) + files_lines(v.files)
}

/// Lines joined into one text, every line terminated by a line feed.
pub open spec fn join_lines(ls: Seq<Seq<char>>) -> Seq<char>
    decreases ls.len(),
{
    if ls.len() == 0 {
        Seq::empty()
    } else {
        ls[0] + seq!['\n'] + join_lines(ls.drop_first())
    }
}

/// The whole persisted document of a ledger.
pub open spec fn doc_of(v: RecordsView) -> Seq<char> {
    join_lines(doc_lines(v))
}

/// Joining is compatible with appending one line at the end.
proof fn lemma_join_snoc(ls: Seq<Seq<char>>, l: Seq<char>)
    ensures
        join_lines(ls.push(l)) == join_lines(ls) + l + seq!['\n'],
    decreases ls.len(),
{
    if ls.len() == 0 {
        assert(ls.push(l)[0] == l);
        assert(ls.push(l).drop_first() =~= Seq::<Seq<char>>::empty());
        assert(ls =~= Seq::<Seq<char>>::empty());
        assert(join_lines(Seq::<Seq<char>>::empty()) == Seq::<char>::empty());
        assert(join_lines(ls.push(l)) == ls.push(l)[0] + seq!['\n'] + join_lines(
            ls.push(l).drop_first(),
        ));
        assert(join_lines(ls.push(l)) =~= join_lines(ls) + l + seq!['\n']);
    } else {
        assert(ls.push(l)[0] == ls[0]);
        assert(ls.push(l).drop_first() =~= ls.drop_first().push(l));
        lemma_join_snoc(ls.drop_first(), l);
        assert(join_lines(ls.push(l)) =~= join_lines(ls) + l + seq!['\n']);
    }
}

/// The blocks of `fs` with one more entry are the blocks of `fs` followed
/// by the new entry's block.
proof fn lemma_files_lines_push(fs: Seq<TrackedFileView>, f: TrackedFileView)
    ensures
        files_lines(fs.push(f)) == files_lines(fs) + file_lines(f),
    decreases fs.len(),
{
    if fs.len() == 0 {
        assert(fs.push(f)[0] == f);
        assert(fs.push(f).drop_first() =~= Seq::<TrackedFileView>::empty());
        assert(fs =~= Seq::<TrackedFileView>::empty());
        assert(files_lines(Seq::<TrackedFileView>::empty()) == Seq::<Seq<char>>::empty());
        assert(files_lines(fs.push(f)) == file_lines(fs.push(f)[0]) + files_lines(
            fs.push(f).drop_first(),
        ));
        assert(files_lines(fs.push(f)) =~= files_lines(fs) + file_lines(f));
    } else {
        assert(fs.push(f)[0] == fs[0]);
        assert(fs.push(f).drop_first() =~= fs.drop_first().push(f));
        lemma_files_lines_push(fs.drop_first(), f);
        assert(files_lines(fs.push(f)) =~= files_lines(fs) + file_lines(f));
    }
}

/// Index of the first line feed in `s`, or `s.len()` when there is none.
pub open spec fn first_nl(s: Seq<char>) -> int
    decreases s.len(),
{
    if s.len() == 0 {
        0
    } else if s[0] == '\n' {
        0
    } else {
        1 + first_nl(s.drop_first())
    }
}

/// Text split at every line feed; a text without a final line feed still
/// yields its last fragment as a line.
pub open spec fn split_lines(s: Seq<char>) -> Seq<Seq<char>>
    decreases s.len(),
{
    if s.len() == 0 {
        Seq::empty()
    } else {
        let i = first_nl(s);
        if 0 <= i < s.len() {
            seq![s.subrange(0, i)] + split_lines(s.subrange(i + 1, s.len() as int))
        } else {
            seq![s]
        }
    }
}

/// What is behind a fixed leading text on a line, if the line carries it.
pub open spec fn unprefix(l: Seq<char>, p: Seq<char>) -> Option<Seq<char>> {
    if p.len() <= l.len() && l.subrange(0, p.len() as int) == p {
        Some(l.subrange(p.len() as int, l.len() as int))
    } else {
        None
    }
}

/// The value of a quoted key line: what stands between the fixed leading
/// text (which ends with the opening quote) and the closing quote.
pub open spec fn unquote(l: Seq<char>, p: Seq<char>) -> Option<Seq<char>> {
    if p.len() + 1 <= l.len() && l.subrange(0, p.len() as int) == p && l[l.len() - 1] == '"' {
        Some(l.subrange(p.len() as int, l.len() - 1))
    } else {
        None
    }
}

/// The workflow state a progress line records, if the line is one.
pub open spec fn parse_progress(l: Seq<char>) -> Option<Progress> {
    if l == progress_line(Progress::Todo) {
        Some(Progress::Todo)
    } else if l == progress_line(Progress::Review) {
        Some(Progress::Review)
    } else if l == progress_line(Progress::Done) {
        Some(Progress::Done)
    } else {
        None
    }
}

/// The flag a synced line records, if the line is one.
pub open spec fn parse_synced(l: Seq<char>) -> Option<bool> {
    if l == synced_line(true) {
        Some(true)
    } else if l == synced_line(false) {
        Some(false)
    } else {
        None
    }
}

/// The entries recorded by a run of `[[files]]` blocks, or nothing when
/// the lines do not have that shape.
pub open spec fn parse_blocks(ls: Seq<Seq<char>>) -> Option<Seq<TrackedFileView>>
    decreases ls.len(),
{
    if ls.len() == 0 {
        Some(Seq::empty())
    } else if ls.len() < 6 {
        None
    } else if ls[0].len() != 0 {
        None
    } else if ls[1] != "[[files]]"@ {
        None
    } else {
        let path = unquote(ls[2], "path = \""@);
        let rev = unquote(ls[3], "track_rev = \""@);
        let prog = parse_progress(ls[4]);
        let syn = parse_synced(ls[5]);
        if path is None || rev is None || prog is None || syn is None {
            None
        } else {
            let has_lock = ls.len() >= 7 && ls[6] == "locked = true"@;
            let k: int = if has_lock {
                7
            } else {
                6
            };
            let entry = TrackedFileView {
                path: path->0,
                track_rev: rev->0,
                progress: prog->0,
                synced: syn->0,
                locked: if has_lock {
                    Lock::Locked
                } else {
                    Lock::Unlocked
                },
            };
            match parse_blocks(ls.skip(k)) {
                Some(rest) => Some(seq![entry] + rest),
                None => None,
            }
        }
    }
}

/// The ledger recorded by the document's lines: a `[meta]` section, then
/// `[[files]]` blocks, with no two entries sharing a path.
pub open spec fn parse_lines(ls: Seq<Seq<char>>) -> Option<RecordsView> {
    if ls.len() < 5 {
        None
    } else if ls[0] != "[meta]"@ {
        None
    } else {
        let pn = unquote(ls[1], "project_name = \""@);
        let lang = unquote(ls[2], "lang = \""@);
        let tr = unquote(ls[3], "track_rev = \""@);
        let dt = unprefix(ls[4], "datetime = "@);
        if pn is None || lang is None || tr is None || dt is None {
            None
        } else {
            match parse_blocks(ls.skip(5)) {
                Some(files) => {
                    let v = RecordsView {
                        meta: MetaView {
                            project_name: pn->0,
                            lang: lang->0,
                            track_rev: tr->0,
                            datetime: dt->0,
                        },
                        files,
                    };
                    if wf(v) {
                        Some(v)
                    } else {
                        None
                    }
                },
                None => None,
            }
        }
    }
}

/// The ledger recorded by a document text.
pub open spec fn parse_doc(s: Seq<char>) -> Option<RecordsView> {
    parse_lines(split_lines(s))
}

/// Where the first line feed sits: never negative, never past the end,
/// nothing before it is a line feed, and it is one unless there is none.
proof fn lemma_first_nl(s: Seq<char>)
    ensures
        0 <= first_nl(s) <= s.len(),
        first_nl(s) < s.len() ==> s[first_nl(s)] == '\n',
        forall|j: int| 0 <= j < first_nl(s) ==> s[j] != '\n',
        line_safe(s) ==> first_nl(s) == s.len(),
    decreases s.len(),
{
    if s.len() > 0 && s[0] != '\n' {
        let rest = s.drop_first();
        lemma_first_nl(rest);
        assert forall|j: int| 0 <= j < first_nl(s) implies s[j] != '\n' by {
            if j > 0 {
                assert(rest[j - 1] == s[j]);
            }
        }
        if line_safe(s) {
            assert forall|j: int| 0 <= j < rest.len() implies rest[j] != '\n' by {
                assert(rest[j] == s[j + 1]);
            }
        }
    }
}

/// Splitting takes the first line off a text that starts with one.
proof fn lemma_split_cons(line: Seq<char>, rest: Seq<char>)
    requires
        line_safe(line),
    ensures
        split_lines(line + seq!['\n'] + rest) == seq![line] + split_lines(rest),
{
    let s = line + seq!['\n'] + rest;
    lemma_first_nl(s);
    assert forall|j: int| 0 <= j < line.len() implies s[j] != '\n' by {
        assert(s[j] == line[j]);
    }
    assert(s[line.len() as int] == '\n');
    if first_nl(s) < line.len() {
        assert(s[first_nl(s)] == '\n');
        assert(false);
    }
    if first_nl(s) > line.len() {
        assert(false);
    }
    assert(first_nl(s) == line.len());
    assert(s.subrange(0, line.len() as int) =~= line);
    assert(s.subrange(line.len() as int + 1, s.len() as int) =~= rest);
    assert(split_lines(s) =~= seq![line] + split_lines(rest));
}

/// A line-safe text splits into itself alone.
proof fn lemma_split_single(s: Seq<char>)
    requires
        line_safe(s),
        s.len() > 0,
    ensures
        split_lines(s) == seq![s],
{
    lemma_first_nl(s);
}

/// Splitting inverts joining, for lines that carry no line feed.
proof fn lemma_split_join(ls: Seq<Seq<char>>)
    requires
        forall|i: int| 0 <= i < ls.len() ==> line_safe(#[trigger] ls[i]),
    ensures
        split_lines(join_lines(ls)) == ls,
    decreases ls.len(),
{
    if ls.len() == 0 {
        assert(split_lines(join_lines(ls)) =~= ls);
    } else {
        let rest = ls.drop_first();
        assert forall|i: int| 0 <= i < rest.len() implies line_safe(#[trigger] rest[i]) by {
            assert(rest[i] == ls[i + 1]);
        }
        lemma_split_join(rest);
        assert(join_lines(ls) == ls[0] + seq!['\n'] + join_lines(rest));
        lemma_split_cons(ls[0], join_lines(rest));
        assert(seq![ls[0]] + rest =~= ls);
    }
}

/// Two texts without a line feed concatenate to a text without one.
proof fn lemma_line_safe_concat(a: Seq<char>, b: Seq<char>)
    requires
        line_safe(a),
        line_safe(b),
    ensures
        line_safe(a + b),
{
    assert forall|i: int| 0 <= i < (a + b).len() implies (a + b)[i] != '\n' by {
        if i < a.len() {
            assert((a + b)[i] == a[i]);
        } else {
            assert((a + b)[i] == b[i - a.len()]);
        }
    }
}

/// Taking the quoted value back off a line the emitter built returns the
/// value exactly, whatever it holds.
proof fn lemma_unquote(p: Seq<char>, v: Seq<char>)
    ensures
        unquote(p + v + "\""@, p) == Some(v),
{
    reveal_strlit("\"");
    let l = p + v + "\""@;
    assert(l.len() == p.len() + v.len() + 1);
    assert(l.subrange(0, p.len() as int) =~= p);
    assert(l[l.len() - 1] == '"');
    assert(l.subrange(p.len() as int, l.len() - 1) =~= v);
}

/// Taking the fixed leading text back off a line the emitter built
/// returns the rest exactly.
proof fn lemma_unprefix(p: Seq<char>, v: Seq<char>)
    ensures
        unprefix(p + v, p) == Some(v),
{
    let l = p + v;
    assert(l.subrange(0, p.len() as int) =~= p);
    assert(l.subrange(p.len() as int, l.len() as int) =~= v);
}

/// Reading a progress line back gives the state it was written from.
proof fn lemma_parse_progress(p: Progress)
    ensures
        parse_progress(progress_line(p)) == Some(p),
{
    reveal_strlit("progress = \"Todo\"");
    reveal_strlit("progress = \"Review\"");
    reveal_strlit("progress = \"Done\"");
    assert("progress = \"Todo\""@[12] == 'T');
    assert("progress = \"Done\""@[12] == 'D');
    assert("progress = \"Todo\""@.len() == 17);
    assert("progress = \"Review\""@.len() == 19);
}

/// Reading a synced line back gives the flag it was written from.
proof fn lemma_parse_synced(b: bool)
    ensures
        parse_synced(synced_line(b)) == Some(b),
{
    reveal_strlit("synced = true");
    reveal_strlit("synced = false");
    assert("synced = true"@.len() == 13);
    assert("synced = false"@.len() == 14);
}

/// Reading a run of blocks back gives the entries they were written from,
/// whatever their fields hold.
proof fn lemma_parse_blocks_round(fs: Seq<TrackedFileView>)
    ensures
        parse_blocks(files_lines(fs)) == Some(fs),
    decreases fs.len(),
{
    reveal_strlit("[[files]]");
    reveal_strlit("path = \"");
    reveal_strlit("track_rev = \"");
    reveal_strlit("locked = true");
    if fs.len() == 0 {
        assert(parse_blocks(files_lines(fs)) =~= Some(fs));
    } else {
        let f = fs[0];
        let rest = fs.drop_first();
        let fl = file_lines(f);
        let ls = files_lines(fs);
        assert(ls == fl + files_lines(rest));
        assert(fl[0] == Seq::<char>::empty());
        assert(fl[1] == "[[files]]"@);
        assert(fl[2] == "path = \""@ + f.path + "\""@);
        assert(fl[3] == "track_rev = \""@ + f.track_rev + "\""@);
        assert(fl[4] == progress_line(f.progress));
        assert(fl[5] == synced_line(f.synced));
        assert(ls[0].len() == 0);
        assert(ls[1] == "[[files]]"@);
        lemma_unquote("path = \""@, f.path);
        lemma_unquote("track_rev = \""@, f.track_rev);
        assert(unquote(ls[2], "path = \""@) == Some(f.path));
        assert(unquote(ls[3], "track_rev = \""@) == Some(f.track_rev));
        lemma_parse_progress(f.progress);
        lemma_parse_synced(f.synced);
        assert(parse_progress(ls[4]) == Some(f.progress));
        assert(parse_synced(ls[5]) == Some(f.synced));
        lemma_parse_blocks_round(rest);
        if f.locked == Lock::Locked {
            assert(fl.len() == 7);
            assert(ls[6] == fl[6]);
            assert(fl[6] == "locked = true"@);
            assert(ls.len() >= 7);
            assert(ls.skip(7) =~= files_lines(rest));
            assert(seq![f] + rest =~= fs);
            assert(parse_blocks(ls) == Some(fs));
        } else {
            assert(f.locked == Lock::Unlocked);
            assert(fl.len() == 6);
            if ls.len() >= 7 {
                assert(files_lines(rest).len() > 0);
                assert(rest.len() > 0);
                assert(files_lines(rest) == file_lines(rest[0]) + files_lines(rest.drop_first()));
                assert(file_lines(rest[0])[0] == Seq::<char>::empty());
                assert(files_lines(rest)[0] == file_lines(rest[0])[0]);
                assert(ls[6] == files_lines(rest)[0]);
                assert(ls[6].len() == 0);
                assert("locked = true"@.len() == 13);
                assert(ls[6] != "locked = true"@);
            }
            assert(ls.skip(6) =~= files_lines(rest));
            assert(seq![f] + rest =~= fs);
            assert(parse_blocks(ls) == Some(fs));
        }
    }
}

/// Reading the document's lines back gives the ledger they were written
/// from, for a ledger whose paths are unique.
proof fn lemma_parse_lines_round(v: RecordsView)
    requires
        wf(v),
    ensures
        parse_lines(doc_lines(v)) == Some(v),
{
    reveal_strlit("[meta]");
    reveal_strlit("project_name = \"");
    reveal_strlit("lang = \"");
    reveal_strlit("track_rev = \"");
    reveal_strlit("datetime = ");
    let ml = meta_lines(v.meta);
    let ls = doc_lines(v);
    assert(ml.len() == 5);
    assert(ls[0] == ml[0]);
    assert(ls[1] == ml[1]);
    assert(ls[2] == ml[2]);
    assert(ls[3] == ml[3]);
    assert(ls[4] == ml[4]);
    assert(ls[0] == "[meta]"@);
    lemma_unquote("project_name = \""@, v.meta.project_name);
    lemma_unquote("lang = \""@, v.meta.lang);
    lemma_unquote("track_rev = \""@, v.meta.track_rev);
    lemma_unprefix("datetime = "@, v.meta.datetime);
    assert(unquote(ls[1], "project_name = \""@) == Some(v.meta.project_name));
    assert(unquote(ls[2], "lang = \""@) == Some(v.meta.lang));
    assert(unquote(ls[3], "track_rev = \""@) == Some(v.meta.track_rev));
    assert(unprefix(ls[4], "datetime = "@) == Some(v.meta.datetime));
    assert(ls.skip(5) =~= files_lines(v.files));
    lemma_parse_blocks_round(v.files);
    assert(parse_blocks(ls.skip(5)) == Some(v.files));
    assert(MetaView {
        project_name: v.meta.project_name,
        lang: v.meta.lang,
        track_rev: v.meta.track_rev,
        datetime: v.meta.datetime,
    } == v.meta);
    assert(parse_lines(ls) == Some(v));
}

/// Every line the emitter writes for a clean ledger is free of line
/// feeds.
proof fn lemma_doc_lines_safe(v: RecordsView)
    requires
        clean(v),
    ensures
        forall|i: int| 0 <= i < doc_lines(v).len() ==> line_safe(#[trigger] doc_lines(v)[i]),
{
    reveal_strlit("[meta]");
    reveal_strlit("project_name = \"");
    reveal_strlit("lang = \"");
    reveal_strlit("track_rev = \"");
    reveal_strlit("datetime = ");
    reveal_strlit("\"");
    assert(line_safe("[meta]"@));
    assert(line_safe("project_name = \""@));
    assert(line_safe("lang = \""@));
    assert(line_safe("track_rev = \""@));
    assert(line_safe("datetime = "@));
    assert(line_safe("\""@));
    lemma_line_safe_concat("project_name = \""@, v.meta.project_name);
    lemma_line_safe_concat("project_name = \""@ + v.meta.project_name, "\""@);
    lemma_line_safe_concat("lang = \""@, v.meta.lang);
    lemma_line_safe_concat("lang = \""@ + v.meta.lang, "\""@);
    lemma_line_safe_concat("track_rev = \""@, v.meta.track_rev);
    lemma_line_safe_concat("track_rev = \""@ + v.meta.track_rev, "\""@);
    lemma_line_safe_concat("datetime = "@, v.meta.datetime);
    lemma_files_lines_safe(v.files);
    let ml = meta_lines(v.meta);
    assert forall|i: int| 0 <= i < doc_lines(v).len() implies line_safe(
        #[trigger] doc_lines(v)[i],
    ) by {
        if i < 5 {
            assert(doc_lines(v)[i] == ml[i]);
        } else {
            assert(doc_lines(v)[i] == files_lines(v.files)[i - 5]);
        }
    }
}

/// Every line of every block of entries with line-safe fields is free of
/// line feeds.
proof fn lemma_files_lines_safe(fs: Seq<TrackedFileView>)
    requires
        forall|i: int|
            0 <= i < fs.len() ==> line_safe(#[trigger] fs[i].path) && line_safe(fs[i].track_rev),
    ensures
        forall|i: int| 0 <= i < files_lines(fs).len() ==> line_safe(#[trigger] files_lines(fs)[i]),
    decreases fs.len(),
{
    reveal_strlit("[[files]]");
    reveal_strlit("path = \"");
    reveal_strlit("track_rev = \"");
    reveal_strlit("locked = true");
    reveal_strlit("\"");
    reveal_strlit("progress = \"Todo\"");
    reveal_strlit("progress = \"Review\"");
    reveal_strlit("progress = \"Done\"");
    reveal_strlit("synced = true");
    reveal_strlit("synced = false");
    if fs.len() > 0 {
        let f = fs[0];
        let rest = fs.drop_first();
        let fl = file_lines(f);
        assert(line_safe(Seq::<char>::empty()));
        assert(line_safe("[[files]]"@));
        assert(line_safe("path = \""@));
        assert(line_safe("track_rev = \""@));
        assert(line_safe("locked = true"@));
        assert(line_safe("\""@));
        assert(line_safe(progress_line(f.progress)));
        assert(line_safe(synced_line(f.synced)));
        lemma_line_safe_concat("path = \""@, f.path);
        lemma_line_safe_concat("path = \""@ + f.path, "\""@);
        lemma_line_safe_concat("track_rev = \""@, f.track_rev);
        lemma_line_safe_concat("track_rev = \""@ + f.track_rev, "\""@);
        assert forall|i: int| 0 <= i < rest.len() implies line_safe(#[trigger] rest[i].path)
            && line_safe(rest[i].track_rev) by {
            assert(rest[i] == fs[i + 1]);
            assert(line_safe(fs[i + 1].path));
            assert(line_safe(fs[i + 1].track_rev));
        }
        lemma_files_lines_safe(rest);
        assert forall|i: int| 0 <= i < files_lines(fs).len() implies line_safe(
            #[trigger] files_lines(fs)[i],
        ) by {
            if i < fl.len() {
                assert(files_lines(fs)[i] == fl[i]);
                assert(line_safe(fl[0]));
                assert(line_safe(fl[1]));
                assert(line_safe(fl[2]));
                assert(line_safe(fl[3]));
                assert(line_safe(fl[4]));
                assert(line_safe(fl[5]));
                if fl.len() == 7 {
                    assert(fl[6] == "locked = true"@);
                }
            } else {
                assert(files_lines(fs)[i] == files_lines(rest)[i - fl.len()]);
            }
        }
    }
}

/// The round trip: the document the emitter writes for a well-formed,
/// clean ledger parses back to exactly that ledger — entries in the same
/// order, metadata identical.
pub proof fn lemma_round_trip(v: RecordsView)
    requires
        wf(v),
        clean(v),
    ensures
        parse_doc(doc_of(v)) == Some(v),
{
    lemma_doc_lines_safe(v);
    lemma_split_join(doc_lines(v));
    lemma_parse_lines_round(v);
}

/// The models of a sequence of lines.
pub open spec fn line_views(s: Seq<String>) -> Seq<Seq<char>> {
    Seq::new(s.len(), |i: int| s[i]@)
}

/// Split a document text at every line feed.
fn split_exec(s: &str) -> (r: Vec<String>)
    ensures
        line_views(r@) == split_lines(s@),
{
    let n = s.unicode_len();
    let mut out: Vec<String> = Vec::new();
    let mut start: usize = 0;
    let mut i: usize = 0;
    proof {
        assert(s@.subrange(0, n as int) =~= s@);
        assert(line_views(out@) + split_lines(s@.subrange(0, n as int)) =~= split_lines(s@));
    }
    while i < n
        invariant
            n == s@.len(),
            start <= i <= n,
            forall|j: int| start <= j < i ==> s@[j] != '\n',
            split_lines(s@) == line_views(out@) + split_lines(s@.subrange(start as int, n as int)),
        decreases n - i,
    {
        if s.get_char(i) == '\n' {
            let ghost pre = out@;
            let line = s.substring_char(start, i).to_owned();
            out.push(line);
            proof {
                let lv = s@.subrange(start as int, i as int);
                assert forall|j: int| 0 <= j < lv.len() implies lv[j] != '\n' by {
                    assert(lv[j] == s@[start + j]);
                }
                let restv = s@.subrange(i as int + 1, n as int);
                assert(s@.subrange(start as int, n as int) =~= lv + seq!['\n'] + restv);
                lemma_split_cons(lv, restv);
                assert(line_views(out@) =~= line_views(pre).push(lv));
                assert(line_views(pre) + (seq![lv] + split_lines(restv)) =~= line_views(pre).push(
                    lv,
                ) + split_lines(restv));
                assert(split_lines(s@) == line_views(out@) + split_lines(restv));
            }
            start = i + 1;
        }
        i += 1;
    }
    let ghost tail = s@.subrange(start as int, n as int);
    proof {
        assert forall|j: int| 0 <= j < tail.len() implies tail[j] != '\n' by {
            assert(tail[j] == s@[start + j]);
        }
    }
    if start < n {
        let ghost pre = out@;
        let line = s.substring_char(start, n).to_owned();
        out.push(line);
        proof {
            lemma_split_single(tail);
            assert(line_views(out@) =~= line_views(pre).push(tail));
            assert(line_views(pre) + seq![tail] =~= line_views(out@));
            assert(split_lines(s@) == line_views(out@));
        }
    } else {
        proof {
            assert(tail.len() == 0);
            assert(split_lines(tail) =~= Seq::<Seq<char>>::empty());
            assert(line_views(out@) + split_lines(tail) =~= line_views(out@));
        }
    }
    out
}

/// Read the value of a quoted key line, if the line has that shape.
fn unquote_exec(l: &str, p: &str) -> (r: Option<String>)
    ensures
        match unquote(l@, p@) {
            Some(v) => r is Some && r->0@ == v,
            None => r is None,
        },
{
    let ln = l.unicode_len();
    let pn = p.unicode_len();
    if !(pn < ln) {
        return None;
    }
    if !str_starts_with(l, p) {
        return None;
    }
    if l.get_char(ln - 1) != '"' {
        return None;
    }
    Some(l.substring_char(pn, ln - 1).to_owned())
}

/// Read what stands behind a fixed leading text, if the line carries it.
fn unprefix_exec(l: &str, p: &str) -> (r: Option<String>)
    ensures
        match unprefix(l@, p@) {
            Some(v) => r is Some && r->0@ == v,
            None => r is None,
        },
{
    let ln = l.unicode_len();
    let pn = p.unicode_len();
    if pn > ln {
        return None;
    }
    if !str_starts_with(l, p) {
        return None;
    }
    Some(l.substring_char(pn, ln).to_owned())
}

/// Read a progress line.
fn parse_progress_exec(l: &str) -> (r: Option<Progress>)
    ensures
        r == parse_progress(l@),
{
    if str_eq(l, "progress = \"Todo\"") {
        Some(Progress::Todo)
    } else if str_eq(l, "progress = \"Review\"") {
        Some(Progress::Review)
    } else if str_eq(l, "progress = \"Done\"") {
        Some(Progress::Done)
    } else {
        None
    }
}

/// Read a synced line.
fn parse_synced_exec(l: &str) -> (r: Option<bool>)
    ensures
        r == parse_synced(l@),
{
    if str_eq(l, "synced = true") {
        Some(true)
    } else if str_eq(l, "synced = false") {
        Some(false)
    } else {
        None
    }
}

/// Whether no two entries share a path.
fn check_unique(files: &Vec<TrackedFile>) -> (r: bool)
    ensures
        r == (forall|a: int, b: int|
            0 <= a < b < files@.len() ==> files@[a]@.path != files@[b]@.path),
{
    let n = files.len();
    let mut i: usize = 0;
    while i < n
        invariant
            i <= n == files@.len(),
            forall|a: int, b: int|
                0 <= a < b < files@.len() && a < i ==> files@[a]@.path != files@[b]@.path,
        decreases n - i,
    {
        let mut j = i + 1;
        while j < n
            invariant
                i < j <= n == files@.len(),
                forall|b: int| i < b < j ==> files@[i as int]@.path != files@[b]@.path,
            decreases n - j,
        {
            if str_eq(files[i].path.as_str(), files[j].path.as_str()) {
                return false;
            }
            j += 1;
        }
        i += 1;
    }
    true
}

/// Deserialize a persisted document back into a ledger. Fails with
/// `DocumentUnreadable` exactly when the text does not have the document
/// shape — including when two entries share a path.
pub fn parse(s: &str) -> (r: Result<Records, TransError>)
    ensures
        match parse_doc(s@) {
            Some(v) => r is Ok && r->Ok_0@ == v && wf(r->Ok_0@),
            None => r is Err && r->Err_0 == TransError::DocumentUnreadable,
        },
{
    let lines = split_exec(s);
    let ghost ls = line_views(lines@);
    let n = lines.len();
    if n < 5 {
        return Err(TransError::DocumentUnreadable);
    }
    proof {
        assert(ls[0] == lines@[0]@);
        assert(ls[1] == lines@[1]@);
        assert(ls[2] == lines@[2]@);
        assert(ls[3] == lines@[3]@);
        assert(ls[4] == lines@[4]@);
    }
    if !str_eq(lines[0].as_str(), "[meta]") {
        return Err(TransError::DocumentUnreadable);
    }
    let pn = match unquote_exec(lines[1].as_str(), "project_name = \"") {
        Some(v) => v,
        None => {
            return Err(TransError::DocumentUnreadable);
        },
    };
    let lang = match unquote_exec(lines[2].as_str(), "lang = \"") {
        Some(v) => v,
        None => {
            return Err(TransError::DocumentUnreadable);
        },
    };
    let tr = match unquote_exec(lines[3].as_str(), "track_rev = \"") {
        Some(v) => v,
        None => {
            return Err(TransError::DocumentUnreadable);
        },
    };
    let dt = match unprefix_exec(lines[4].as_str(), "datetime = ") {
        Some(v) => v,
        None => {
            return Err(TransError::DocumentUnreadable);
        },
    };
    let mut files: Vec<TrackedFile> = Vec::new();
    let mut k: usize = 5;
    proof {
        if parse_blocks(ls.skip(5)) is Some {
            assert(entry_views(files@) + parse_blocks(ls.skip(5))->0 =~= parse_blocks(
                ls.skip(5),
            )->0);
        }
    }
    while k < n
        invariant
            5 <= k <= n,
            n == lines@.len(),
            ls == line_views(lines@),
            ls == split_lines(s@),
            ls.len() == n,
            ls[0] == "[meta]"@,
            unquote(ls[1], "project_name = \""@) is Some,
            unquote(ls[2], "lang = \""@) is Some,
            unquote(ls[3], "track_rev = \""@) is Some,
            unprefix(ls[4], "datetime = "@) is Some,
            parse_blocks(ls.skip(k as int)) is Some ==> parse_blocks(ls.skip(5)) == Some(
                entry_views(files@) + parse_blocks(ls.skip(k as int))->0,
            ),
            parse_blocks(ls.skip(k as int)) is None ==> parse_blocks(ls.skip(5)) is None,
        decreases n - k,
    {
        let ghost sub = ls.skip(k as int);
        proof {
            assert(sub.len() == n - k);
            assert(sub[0] == ls[k as int]);
            assert(ls[k as int] == lines@[k as int]@);
        }
        let rem = n - k;
        if rem < 6 {
            proof {
                assert(parse_blocks(sub) is None);
                assert(parse_lines(ls) is None);
            }
            return Err(TransError::DocumentUnreadable);
        }
        proof {
            assert(sub[1] == lines@[k + 1]@);
            assert(sub[2] == lines@[k + 2]@);
            assert(sub[3] == lines@[k + 3]@);
            assert(sub[4] == lines@[k + 4]@);
            assert(sub[5] == lines@[k + 5]@);
        }
        if lines[k].as_str().unicode_len() != 0 {
            proof {
                assert(parse_blocks(sub) is None);
                assert(parse_lines(ls) is None);
            }
            return Err(TransError::DocumentUnreadable);
        }
        if !str_eq(lines[k + 1].as_str(), "[[files]]") {
            proof {
                assert(parse_blocks(sub) is None);
                assert(parse_lines(ls) is None);
            }
            return Err(TransError::DocumentUnreadable);
        }
        let path = match unquote_exec(lines[k + 2].as_str(), "path = \"") {
            Some(v) => v,
            None => {
                proof {
                    assert(parse_blocks(sub) is None);
                    assert(parse_lines(ls) is None);
                }
                return Err(TransError::DocumentUnreadable);
            },
        };
        let rev = match unquote_exec(lines[k + 3].as_str(), "track_rev = \"") {
            Some(v) => v,
            None => {
                proof {
                    assert(parse_blocks(sub) is None);
                    assert(parse_lines(ls) is None);
                }
                return Err(TransError::DocumentUnreadable);
            },
        };
        let prog = match parse_progress_exec(lines[k + 4].as_str()) {
            Some(v) => v,
            None => {
                proof {
                    assert(parse_blocks(sub) is None);
                    assert(parse_lines(ls) is None);
                }
                return Err(TransError::DocumentUnreadable);
            },
        };
        let syn = match parse_synced_exec(lines[k + 5].as_str()) {
            Some(v) => v,
            None => {
                proof {
                    assert(parse_blocks(sub) is None);
                    assert(parse_lines(ls) is None);
                }
                return Err(TransError::DocumentUnreadable);
            },
        };
        let has_lock = rem >= 7 && str_eq(lines[k + 6].as_str(), "locked = true");
        proof {
            if rem >= 7 {
                assert(sub[6] == lines@[k + 6]@);
            }
            assert(has_lock == (sub.len() >= 7 && sub[6] == "locked = true"@));
        }
        let entry = TrackedFile {
            path,
            track_rev: rev,
            progress: prog,
            synced: syn,
            locked: if has_lock {
                Lock::Locked
            } else {
                Lock::Unlocked
            },
        };
        let ghost ev = entry@;
        let ghost pre = files@;
        files.push(entry);
        let step: usize = if has_lock {
            7
        } else {
            6
        };
        proof {
            let ghost spec_entry = TrackedFileView {
                path: unquote(sub[2], "path = \""@)->0,
                track_rev: unquote(sub[3], "track_rev = \""@)->0,
                progress: parse_progress(sub[4])->0,
                synced: parse_synced(sub[5])->0,
                locked: if sub.len() >= 7 && sub[6] == "locked = true"@ {
                    Lock::Locked
                } else {
                    Lock::Unlocked
                },
            };
            assert(ev =~= spec_entry);
            assert(sub.skip(step as int) =~= ls.skip((k + step) as int));
            if parse_blocks(sub.skip(step as int)) is Some {
                let rest2 = parse_blocks(sub.skip(step as int))->0;
                assert(parse_blocks(sub) == Some(seq![spec_entry] + rest2));
                assert(entry_views(files@) =~= entry_views(pre).push(ev));
                assert(entry_views(pre) + (seq![ev] + rest2) =~= entry_views(files@) + rest2);
                assert(parse_blocks(ls.skip(5)) == Some(entry_views(files@) + rest2));
            } else {
                assert(parse_blocks(sub) is None);
            }
        }
        k += step;
    }
    proof {
        assert(ls.skip(n as int) =~= Seq::<Seq<char>>::empty());
        assert(parse_blocks(ls.skip(n as int)) == Some(Seq::<TrackedFileView>::empty()));
        assert(entry_views(files@) + Seq::<TrackedFileView>::empty() =~= entry_views(files@));
        assert(parse_blocks(ls.skip(5)) == Some(entry_views(files@)));
    }
    if !check_unique(&files) {
        proof {
            let fv = entry_views(files@);
            assert(parse_lines(ls) is None) by {
                assert(exists|a: int, b: int|
                    0 <= a < b < files@.len() && files@[a]@.path == files@[b]@.path);
                let (a, b) = choose|a: int, b: int|
                    0 <= a < b < files@.len() && files@[a]@.path == files@[b]@.path;
                assert(fv[a].path == fv[b].path);
            }
        }
        return Err(TransError::DocumentUnreadable);
    }
    let rec = Records {
        meta: Meta { project_name: pn, lang: lang, track_rev: tr, datetime: dt },
        files,
    };
    proof {
        let v = parse_lines(ls)->0;
        assert(rec@.files =~= entry_views(rec.files@));
        assert(rec@.meta =~= MetaView {
            project_name: unquote(ls[1], "project_name = \""@)->0,
            lang: unquote(ls[2], "lang = \""@)->0,
            track_rev: unquote(ls[3], "track_rev = \""@)->0,
            datetime: unprefix(ls[4], "datetime = "@)->0,
        });
        assert(wf(rec@));
        assert(parse_lines(ls) == Some(rec@));
    }
    Ok(rec)
}

/// Serialize a ledger into its persisted document.
pub fn emit(r: &Records) -> (out: String)
    ensures
        out@ == doc_of(r@),
{
    let mut out = String::new();
    let ghost mut done: Seq<Seq<char>> = Seq::empty();
    out.append("[meta]\n");
    proof {
        reveal_strlit("[meta]\n");
        reveal_strlit("[meta]");
        assert("[meta]\n"@ =~= "[meta]"@ + seq!['\n']);
        lemma_join_snoc(done, "[meta]"@);
        done = done.push("[meta]"@);
        assert(out@ =~= join_lines(done));
    }
    out.append("project_name = \"");
    out.append(r.meta.project_name.as_str());
    out.append("\"\n");
    proof {
        reveal_strlit("\"\n");
        reveal_strlit("\"");
        assert("\"\n"@ =~= "\""@ + seq!['\n']);
        let line = "project_name = \""@ + r@.meta.project_name + "\""@;
        lemma_join_snoc(done, line);
        done = done.push(line);
        assert(out@ =~= join_lines(done));
    }
    out.append("lang = \"");
    out.append(r.meta.lang.as_str());
    out.append("\"\n");
    proof {
        reveal_strlit("\"\n");
        reveal_strlit("\"");
        assert("\"\n"@ =~= "\""@ + seq!['\n']);
        let line = "lang = \""@ + r@.meta.lang + "\""@;
        lemma_join_snoc(done, line);
        done = done.push(line);
        assert(out@ =~= join_lines(done));
    }
    out.append("track_rev = \"");
    out.append(r.meta.track_rev.as_str());
    out.append("\"\n");
    proof {
        reveal_strlit("\"\n");
        reveal_strlit("\"");
        assert("\"\n"@ =~= "\""@ + seq!['\n']);
        let line = "track_rev = \""@ + r@.meta.track_rev + "\""@;
        lemma_join_snoc(done, line);
        done = done.push(line);
        assert(out@ =~= join_lines(done));
    }
    out.append("datetime = ");
    out.append(r.meta.datetime.as_str());
    out.append("\n");
    proof {
        reveal_strlit("\n");
        assert("\n"@ =~= seq!['\n']);
        let line = "datetime = "@ + r@.meta.datetime;
        lemma_join_snoc(done, line);
        done = done.push(line);
        assert(out@ =~= join_lines(done));
        assert(done =~= meta_lines(r@.meta));
        assert(files_lines(r@.files.subrange(0, 0)) =~= Seq::<Seq<char>>::empty());
        assert(done =~= meta_lines(r@.meta) + files_lines(r@.files.subrange(0, 0)));
    }
    let n = r.files.len();
    let mut i: usize = 0;
    while i < n
        invariant
            n == r.files.len(),
            i <= n,
            out@ == join_lines(done),
            done == meta_lines(r@.meta) + files_lines(r@.files.subrange(0, i as int)),
        decreases n - i,
    {
        let ghost f = r@.files[i as int];
        proof {
            assert(r@.files[i as int] == r.files@[i as int]@);
        }
        out.append("\n[[files]]\n");
        proof {
            reveal_strlit("\n[[files]]\n");
            reveal_strlit("[[files]]");
            assert("\n[[files]]\n"@ =~= (Seq::<char>::empty() + seq!['\n']) + ("[[files]]"@
                + seq!['\n']));
            lemma_join_snoc(done, Seq::<char>::empty());
            done = done.push(Seq::<char>::empty());
            lemma_join_snoc(done, "[[files]]"@);
            done = done.push("[[files]]"@);
            assert(out@ =~= join_lines(done));
        }
        out.append("path = \"");
        out.append(r.files[i].path.as_str());
        out.append("\"\n");
        proof {
            reveal_strlit("\"\n");
            reveal_strlit("\"");
            assert("\"\n"@ =~= "\""@ + seq!['\n']);
            let line = "path = \""@ + f.path + "\""@;
            lemma_join_snoc(done, line);
            done = done.push(line);
            assert(out@ =~= join_lines(done));
        }
        out.append("track_rev = \"");
        out.append(r.files[i].track_rev.as_str());
        out.append("\"\n");
        proof {
            reveal_strlit("\"\n");
            reveal_strlit("\"");
            assert("\"\n"@ =~= "\""@ + seq!['\n']);
            let line = "track_rev = \""@ + f.track_rev + "\""@;
            lemma_join_snoc(done, line);
            done = done.push(line);
            assert(out@ =~= join_lines(done));
        }
        match r.files[i].progress {
            Progress::Todo => out.append("progress = \"Todo\"\n"),
            Progress::Review => out.append("progress = \"Review\"\n"),
            Progress::Done => out.append("progress = \"Done\"\n"),
        }
        proof {
            reveal_strlit("progress = \"Todo\"\n");
            reveal_strlit("progress = \"Todo\"");
            reveal_strlit("progress = \"Review\"\n");
            reveal_strlit("progress = \"Review\"");
            reveal_strlit("progress = \"Done\"\n");
            reveal_strlit("progress = \"Done\"");
            assert("progress = \"Todo\"\n"@ =~= "progress = \"Todo\""@ + seq!['\n']);
            assert("progress = \"Review\"\n"@ =~= "progress = \"Review\""@ + seq!['\n']);
            assert("progress = \"Done\"\n"@ =~= "progress = \"Done\""@ + seq!['\n']);
            lemma_join_snoc(done, progress_line(f.progress));
            done = done.push(progress_line(f.progress));
            assert(out@ =~= join_lines(done));
        }
        if r.files[i].synced {
            out.append("synced = true\n");
        } else {
            out.append("synced = false\n");
        }
        proof {
            reveal_strlit("synced = true\n");
            reveal_strlit("synced = true");
            reveal_strlit("synced = false\n");
            reveal_strlit("synced = false");
            assert("synced = true\n"@ =~= "synced = true"@ + seq!['\n']);
            assert("synced = false\n"@ =~= "synced = false"@ + seq!['\n']);
            lemma_join_snoc(done, synced_line(f.synced));
            done = done.push(synced_line(f.synced));
            assert(out@ =~= join_lines(done));
        }
        if matches!(r.files[i].locked, Lock::Locked) {
            out.append("locked = true\n");
            proof {
                reveal_strlit("locked = true\n");
                reveal_strlit("locked = true");
                assert("locked = true\n"@ =~= "locked = true"@ + seq!['\n']);
                lemma_join_snoc(done, "locked = true"@);
                done = done.push("locked = true"@);
                assert(out@ =~= join_lines(done));
            }
        }
        proof {
            let pre = r@.files.subrange(0, i as int);
            assert(r@.files.subrange(0, (i + 1) as int) =~= pre.push(f));
            lemma_files_lines_push(pre, f);
            assert(done =~= meta_lines(r@.meta) + files_lines(pre) + file_lines(f));
            assert(meta_lines(r@.meta) + files_lines(pre) + file_lines(f) =~= meta_lines(r@.meta)
                + (files_lines(pre) + file_lines(f)));
            assert(done =~= meta_lines(r@.meta) + files_lines(r@.files.subrange(0, (i + 1) as int)));
        }
        i += 1;
    }
    proof {
        assert(r@.files.subrange(0, n as int) =~= r@.files);
    }
    out
}

} // verus!
