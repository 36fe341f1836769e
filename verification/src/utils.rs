//! Path and string handling. A canonical key is repository-root-relative
//! and forward-slash-normalized; every ledger lookup uses that form.

use vstd::prelude::*;

use crate::records::TransError;

verus! {

/// `s` with every occurrence of `from` replaced by `to`.
pub open spec fn replaced(s: Seq<char>, from: char, to: char) -> Seq<char> {
    Seq::new(
        s.len(),
        |i: int|
            if s[i] == from {
                to
            } else {
                s[i]
            },
    )
}

/// A path in unix style: every backslash turned into a forward slash.
pub open spec fn to_unix(s: Seq<char>) -> Seq<char> {
    replaced(s, '\\', '/')
}

/// A path in windows style: every forward slash turned into a backslash.
pub open spec fn to_win(s: Seq<char>) -> Seq<char> {
    replaced(s, '/', '\\')
}

/// `p` is a leading subrange of `s`.
pub open spec fn is_prefix(p: Seq<char>, s: Seq<char>) -> bool {
    p.len() <= s.len() && s.subrange(0, p.len() as int) == p
}

/// `s` with a trailing carriage-return/line-feed pair, or a trailing
/// line feed alone, taken off.
pub open spec fn spec_strip_newline(s: Seq<char>) -> Seq<char> {
    if s.len() >= 2 && s[s.len() - 2] == '\r' && s[s.len() - 1] == '\n' {
        s.subrange(0, s.len() - 2)
    } else if s.len() >= 1 && s[s.len() - 1] == '\n' {
        s.subrange(0, s.len() - 1)
    } else {
        s
    }
}

/// `path` re-rooted below `base`: the remainder after the base prefix and
/// the separator between them, or nothing when `path` does not lie below
/// `base` on a component boundary.
pub open spec fn spec_rel(base: Seq<char>, path: Seq<char>) -> Option<Seq<char>> {
    if !is_prefix(base, path) {
        None
    } else {
        let rest = path.subrange(base.len() as int, path.len() as int);
        if rest.len() == 0 {
            Some(rest)
        } else if rest[0] == '/' {
            Some(rest.subrange(1, rest.len() as int))
        } else {
            None
        }
    }
}

/// Character-for-character equality of two string slices.
pub fn str_eq(a: &str, b: &str) -> (r: bool)
    ensures
        r == (a@ == b@),
{
    let an = a.unicode_len();
    let bn = b.unicode_len();
    if an != bn {
        return false;
    }
    let mut i: usize = 0;
    while i < an
        invariant
            an == a@.len(),
            bn == b@.len(),
            an == bn,
            i <= an,
            forall|j: int| 0 <= j < i ==> a@[j] == b@[j],
        decreases an - i,
    {
        if a.get_char(i) != b.get_char(i) {
            return false;
        }
        i += 1;
    }
    proof {
        assert(a@ =~= b@);
    }
    true
}

/// Whether `s` begins with `p`.
pub fn str_starts_with(s: &str, p: &str) -> (r: bool)
    ensures
        r == is_prefix(p@, s@),
{
    let pn = p.unicode_len();
    if pn > s.unicode_len() {
        return false;
    }
    str_eq(s.substring_char(0, pn), p)
}

/// `s` with every occurrence of `from` replaced by the one character of
/// `to_s`.
fn replace_char(s: &str, from: char, to_s: &str) -> (r: String)
    requires
        to_s@.len() == 1,
    ensures
        r@ == replaced(s@, from, to_s@[0]),
{
    let n = s.unicode_len();
    let mut out = String::new();
    let mut i: usize = 0;
    while i < n
        invariant
            n == s@.len(),
            i <= n,
            to_s@.len() == 1,
            out@ =~= replaced(s@, from, to_s@[0]).subrange(0, i as int),
        decreases n - i,
    {
        if s.get_char(i) == from {
            out.append(to_s);
        } else {
            out.append(s.substring_char(i, i + 1));
        }
        proof {
            assert(out@ =~= replaced(s@, from, to_s@[0]).subrange(0, (i + 1) as int));
        }
        i += 1;
    }
    proof {
        assert(replaced(s@, from, to_s@[0]).subrange(0, n as int) =~= replaced(
            s@,
            from,
            to_s@[0],
        ));
    }
    out
}

/// Convert a path to a unix style path.
pub fn pathbuf_to_unix_style(path: &str) -> (r: String)
    ensures
        r@ == to_unix(path@),
{
    proof {
        reveal_strlit("/");
    }
    replace_char(path, '\\', "/")
}

/// Convert a path to a windows style path.
pub fn pathbuf_to_win_style(path: &str) -> (r: String)
    ensures
        r@ == to_win(path@),
{
    proof {
        reveal_strlit("\\");
    }
    replace_char(path, '/', "\\")
}

/// Strip one trailing newline — a carriage-return/line-feed pair or a
/// line feed alone — from a string, if it carries one.
pub fn strip_trailing_newline(input: &str) -> (r: &str)
    ensures
        r@ == spec_strip_newline(input@),
{
    let n = input.unicode_len();
    if n >= 2 && input.get_char(n - 2) == '\r' && input.get_char(n - 1) == '\n' {
        input.substring_char(0, n - 2)
    } else if n >= 1 && input.get_char(n - 1) == '\n' {
        input.substring_char(0, n - 1)
    } else {
        input
    }
}

/// Convert an absolute path to a path relative to `base`. Fails when
/// `path` does not lie below `base` on a component boundary.
pub fn absolute_to_relative(base: &str, path: &str) -> (r: Result<String, TransError>)
    ensures
        match spec_rel(base@, path@) {
            Some(v) => r is Ok && r->Ok_0@ == v,
            None => r is Err && r->Err_0 == TransError::IoFailure,
        },
{
    if !str_starts_with(path, base) {
        return Err(TransError::IoFailure);
    }
    let bn = base.unicode_len();
    let pn = path.unicode_len();
    let rest = path.substring_char(bn, pn);
    let rn = rest.unicode_len();
    if rn == 0 {
        Ok(rest.to_owned())
    } else if rest.get_char(0) == '/' {
        proof {
            assert(rest@.subrange(1, rn as int) =~= path@.subrange(
                base@.len() as int,
                path@.len() as int,
            ).subrange(1, rn as int));
        }
        Ok(rest.substring_char(1, rn).to_owned())
    } else {
        Err(TransError::IoFailure)
    }
}

/// The canonical key of an absolute path: both the repository root and the
/// path are slash-normalized, then the path is re-rooted below the root.
pub fn get_path_rel_to_root(root: &str, path: &str) -> (r: Result<String, TransError>)
    ensures
        match spec_rel(to_unix(root@), to_unix(path@)) {
            Some(v) => r is Ok && r->Ok_0@ == v,
            None => r is Err && r->Err_0 == TransError::IoFailure,
        },
{
    let root_u = pathbuf_to_unix_style(root);
    let path_u = pathbuf_to_unix_style(path);
    absolute_to_relative(root_u.as_str(), path_u.as_str())
}

/// The side-channel working directory below the repository root.
pub fn get_trans_dir(root: &str) -> (r: String)
    ensures
        r@ == root@ + "/.trans"@,
{
    let mut out = root.to_owned();
    out.append("/.trans");
    out
}

/// The backing document inside the side-channel working directory.
pub fn get_records_toml(root: &str) -> (r: String)
    ensures
        r@ == root@ + "/.trans/records.toml"@,
{
    let mut out = get_trans_dir(root);
    out.append("/records.toml");
    proof {
        reveal_strlit("/.trans");
        reveal_strlit("/records.toml");
        reveal_strlit("/.trans/records.toml");
        assert((root@ + "/.trans"@) + "/records.toml"@ =~= root@ + "/.trans/records.toml"@);
    }
    out
}

} // verus!
