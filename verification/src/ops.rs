//! Diff and cover orchestration: the decisions behind generating a diff
//! artifact for a tracked file and copying the side-channel working area
//! back over the repository tree. The caller performs the file and
//! subprocess work; the decisions are verified here.

use vstd::prelude::*;

use crate::codec::line_views;
use crate::records::{Records, TransError, find_idx, tracks};

verus! {

/// The file name part of a forward-slash path: what stands after the
/// last slash, or the whole path when it has none.
pub open spec fn basename(s: Seq<char>) -> Seq<char>
    decreases s.len(),
{
    if s.len() == 0 {
        s
    } else if s[s.len() - 1] == '/' {
        Seq::empty()
    } else {
        basename(s.subrange(0, s.len() - 1)).push(s[s.len() - 1])
    }
}

/// Past a point with no slashes after it that sits on a component
/// boundary, the basename is exactly the remaining suffix.
proof fn lemma_basename(s: Seq<char>, cut: int)
    requires
        0 <= cut <= s.len(),
        cut == 0 || s[cut - 1] == '/',
        forall|j: int| cut <= j < s.len() ==> s[j] != '/',
    ensures
        basename(s) == s.subrange(cut, s.len() as int),
    decreases s.len(),
{
    if s.len() == cut {
        if cut == 0 {
            assert(basename(s) =~= s.subrange(cut, s.len() as int));
        } else {
            assert(s[s.len() - 1] == '/');
            assert(basename(s) =~= s.subrange(cut, s.len() as int));
        }
    } else {
        assert(s[s.len() - 1] != '/');
        let shorter = s.subrange(0, s.len() - 1);
        assert forall|j: int| cut <= j < shorter.len() implies shorter[j] != '/' by {
            assert(shorter[j] == s[j]);
        }
        if cut > 0 {
            assert(shorter[cut - 1] == s[cut - 1]);
        }
        lemma_basename(shorter, cut);
        assert(shorter.subrange(cut, shorter.len() as int).push(s[s.len() - 1]) =~= s.subrange(
            cut,
            s.len() as int,
        ));
    }
}

/// The pair of revisions a diff for a tracked path spans: the recorded
/// anchor and the latest upstream revision the caller just queried.
/// Fails with `NotTracked` when the path has no entry — there is no
/// anchor to diff against.
pub fn diff_revs(r: &Records, path: &str, latest_rev: String) -> (res: Result<
    (String, String),
    TransError,
>)
    ensures
        !tracks(r@, path@) ==> res is Err && res->Err_0 == TransError::NotTracked,
        tracks(r@, path@) ==> {
            &&& res is Ok
            &&& res->Ok_0.0@ == r@.files[find_idx(r@.files, path@)].track_rev
            &&& res->Ok_0.1@ == latest_rev@
        },
{
    match r.get(path) {
        None => Err(TransError::NotTracked),
        Some(f) => Ok((f.track_rev.clone(), latest_rev)),
    }
}

/// The name of the diff artifact written beside a tracked file: the
/// file's name with a `.diff` suffix.
pub fn diff_artifact_name(path: &str) -> (r: String)
    ensures
        r@ == basename(path@) + ".diff"@,
{
    let n = path.unicode_len();
    let mut cut: usize = n;
    while cut > 0 && path.get_char(cut - 1) != '/'
        invariant
            cut <= n == path@.len(),
            forall|j: int| cut <= j < n ==> path@[j] != '/',
        decreases cut,
    {
        cut -= 1;
    }
    proof {
        lemma_basename(path@, cut as int);
    }
    let mut out = path.substring_char(cut, n).to_owned();
    out.append(".diff");
    out
}

/// Which files of the side-channel working area `cover` copies back over
/// the repository tree, order kept.
pub open spec fn spec_cover(entries: Seq<Seq<char>>, ledger: Seq<char>) -> Seq<Seq<char>>
    decreases entries.len(),
{
    if entries.len() == 0 {
        Seq::empty()
    } else {
        let rest = spec_cover(entries.drop_last(), ledger);
        if entries.last() == ledger {
            rest
        } else {
            rest.push(entries.last())
        }
    }
}

/// Plan a `cover`: of the files found in the side-channel working area,
/// every one is copied except the ledger's own backing document. The
/// length of the result is the copied-count the operation reports.
pub fn cover_plan(entries: &Vec<String>, ledger_doc: &str) -> (r: Vec<String>)
    ensures
        line_views(r@) == spec_cover(line_views(entries@), ledger_doc@),
{
    let ghost evs = line_views(entries@);
    let n = entries.len();
    let mut out: Vec<String> = Vec::new();
    let mut i: usize = 0;
    while i < n
        invariant
            n == entries@.len(),
            i <= n,
            evs == line_views(entries@),
            line_views(out@) =~= spec_cover(evs.subrange(0, i as int), ledger_doc@),
        decreases n - i,
    {
        let ghost pre = out@;
        let ghost curseq = evs.subrange(0, (i + 1) as int);
        proof {
            assert(curseq.drop_last() =~= evs.subrange(0, i as int));
            assert(curseq.last() == evs[i as int]);
            assert(evs[i as int] == entries@[i as int]@);
        }
        if !crate::utils::str_eq(entries[i].as_str(), ledger_doc) {
            out.push(entries[i].clone());
            proof {
                assert forall|j: int|
                    0 <= j < out@.len() implies line_views(out@)[j] == spec_cover(
                    curseq,
                    ledger_doc@,
                )[j] by {
                    if j < pre.len() {
                        assert(out@[j] == pre[j]);
                        assert(line_views(pre)[j] == pre[j]@);
                    } else {
                        assert(out@[j] == out@.last());
                    }
                }
                assert(line_views(out@).len() == spec_cover(curseq, ledger_doc@).len());
                assert(line_views(out@) =~= spec_cover(curseq, ledger_doc@));
            }
        } else {
            proof {
                assert(line_views(out@) =~= spec_cover(curseq, ledger_doc@));
            }
        }
        i += 1;
    }
    proof {
        assert(evs.subrange(0, n as int) =~= evs);
    }
    out
}

} // verus!
