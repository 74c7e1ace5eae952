//! The path resolver: turns a client-supplied relative path into a validated
//! path under the fixed repository root. A client path is split on `/`; a
//! path is accepted only when every segment is non-empty and is neither `.`
//! nor `..`, so no resolved path can escape the repository root.

use vstd::prelude::*;
use vstd::string::StrSliceExecFns;
use vstd::string::StringExecFns;

verus! {

/// The fixed repository root that every client path is resolved under.
pub open spec fn repo_root() -> Seq<char> {
    "data/repository/"@
}

/// Splits `s` at every occurrence of `sep`. The result always has at least
/// one piece; empty pieces are kept, as `str::split` keeps them.
pub open spec fn split_seq(s: Seq<char>, sep: char) -> Seq<Seq<char>>
    decreases s.len(),
{
    if s.len() == 0 {
        seq![Seq::<char>::empty()]
    } else if s[0] == sep {
        seq![Seq::<char>::empty()] + split_seq(s.skip(1), sep)
    } else {
        let rest = split_seq(s.skip(1), sep);
        seq![seq![s[0]] + rest[0]] + rest.skip(1)
    }
}

pub proof fn lemma_split_seq_len(s: Seq<char>, sep: char)
    ensures
        split_seq(s, sep).len() >= 1,
    decreases s.len(),
{
    if s.len() != 0 {
        lemma_split_seq_len(s.skip(1), sep);
    }
}

/// Joins pieces with `sep` between them: the inverse direction of `split_seq`.
pub open spec fn join_seq(p: Seq<Seq<char>>, sep: char) -> Seq<char>
    decreases p.len(),
{
    if p.len() == 0 {
        Seq::<char>::empty()
    } else if p.len() == 1 {
        p[0]
    } else {
        join_seq(p.drop_last(), sep) + seq![sep] + p.last()
    }
}

proof fn lemma_join_prepend(a: Seq<char>, rest: Seq<Seq<char>>, sep: char)
    requires
        rest.len() >= 1,
    ensures
        join_seq(seq![a] + rest, sep) == a + seq![sep] + join_seq(rest, sep),
    decreases rest.len(),
{
    let whole = seq![a] + rest;
    if rest.len() == 1 {
        assert(whole.len() == 2);
        assert(whole.drop_last() =~= seq![a]);
        assert(whole.last() == rest[0]);
        assert(join_seq(seq![a], sep) == a);
        assert(join_seq(whole, sep) == join_seq(whole.drop_last(), sep) + seq![sep]
            + whole.last());
        assert(join_seq(whole, sep) == a + seq![sep] + rest[0]);
        assert(join_seq(rest, sep) == rest[0]);
    } else {
        assert(whole.drop_last() =~= seq![a] + rest.drop_last());
        assert(whole.last() == rest.last());
        lemma_join_prepend(a, rest.drop_last(), sep);
        assert(join_seq(whole, sep) == a + seq![sep] + join_seq(rest.drop_last(), sep) + seq![sep]
            + rest.last());
        assert(join_seq(rest, sep) == join_seq(rest.drop_last(), sep) + seq![sep] + rest.last());
        assert(a + seq![sep] + join_seq(rest.drop_last(), sep) + seq![sep] + rest.last() =~= a
            + seq![sep] + join_seq(rest, sep));
    }
}

/// Joining what splitting produced gives the text back: `split_seq` and
/// `join_seq` are inverses.
pub proof fn lemma_join_split(s: Seq<char>, sep: char)
    ensures
        join_seq(split_seq(s, sep), sep) == s,
    decreases s.len(),
{
    if s.len() == 0 {
        assert(split_seq(s, sep) == seq![Seq::<char>::empty()]);
        assert(join_seq(split_seq(s, sep), sep) =~= s);
    } else {
        let rest = s.skip(1);
        lemma_join_split(rest, sep);
        lemma_split_seq_len(rest, sep);
        let r = split_seq(rest, sep);
        if s[0] == sep {
            assert(split_seq(s, sep) == seq![Seq::<char>::empty()] + r);
            lemma_join_prepend(Seq::<char>::empty(), r, sep);
            assert(join_seq(split_seq(s, sep), sep) == Seq::<char>::empty() + seq![sep]
                + join_seq(r, sep));
            assert(Seq::<char>::empty() + seq![sep] + rest =~= s);
        } else {
            let head = seq![s[0]] + r[0];
            assert(split_seq(s, sep) == seq![head] + r.skip(1));
            if r.len() == 1 {
                assert(r.skip(1) =~= Seq::<Seq<char>>::empty());
                assert(seq![head] + r.skip(1) =~= seq![head]);
                assert(join_seq(seq![head], sep) == head);
                assert(join_seq(r, sep) == r[0]);
                assert(head =~= seq![s[0]] + rest);
                assert(seq![s[0]] + rest =~= s);
            } else {
                assert(r.skip(1).len() >= 1);
                lemma_join_prepend(head, r.skip(1), sep);
                assert(join_seq(split_seq(s, sep), sep) == head + seq![sep] + join_seq(
                    r.skip(1),
                    sep,
                ));
                assert(r =~= seq![r[0]] + r.skip(1));
                lemma_join_prepend(r[0], r.skip(1), sep);
                assert(join_seq(r, sep) == r[0] + seq![sep] + join_seq(r.skip(1), sep));
                assert(head + seq![sep] + join_seq(r.skip(1), sep) =~= seq![s[0]] + (r[0]
                    + seq![sep] + join_seq(r.skip(1), sep)));
                assert(seq![s[0]] + join_seq(r, sep) =~= seq![s[0]] + rest);
                assert(seq![s[0]] + rest =~= s);
            }
        }
    }
}

/// A single path segment is acceptable when it is non-empty, is not a
/// traversal segment (`..`) or a no-op segment (`.`), and contains no `/`.
pub open spec fn valid_seg(s: Seq<char>) -> bool {
    &&& s.len() > 0
    &&& s != "."@
    &&& s != ".."@
    &&& !s.contains('/')
}

/// A repository-relative path is acceptable when every segment is.
pub open spec fn valid_rel_path(p: Seq<Seq<char>>) -> bool {
    forall|i: int| 0 <= i < p.len() ==> valid_seg(#[trigger] p[i])
}

/// Character-by-character string comparison.
pub fn str_eq(a: &str, b: &str) -> (r: bool)
    ensures
        r == (a@ == b@),
{
    let na = a.unicode_len();
    let nb = b.unicode_len();
    if na != nb {
        return false;
    }
    let mut i: usize = 0;
    while i < na
        invariant
            na == a@.len(),
            na == b@.len(),
            0 <= i <= na,
            forall|j: int| 0 <= j < i ==> a@[j] == b@[j],
        decreases na - i,
    {
        if a.get_char(i) != b.get_char(i) {
            return false;
        }
        i = i + 1;
    }
    proof {
        assert(a@ =~= b@);
    }
    true
}

/// Splits `s` on `sep`, keeping empty pieces, exactly as `split_seq` describes.
pub fn split_on(s: &str, sep: char) -> (r: Vec<String>)
    ensures
        r.deep_view() == split_seq(s@, sep),
{
    let n = s.unicode_len();
    let mut out: Vec<String> = Vec::new();
    let mut st: usize = 0;
    let mut i: usize = 0;
    proof {
        assert(s@.skip(0) =~= s@);
        lemma_split_seq_len(s@, sep);
        let whole = split_seq(s@, sep);
        assert(whole =~= seq![whole[0]] + whole.skip(1));
        assert(s@.subrange(0, 0) =~= Seq::<char>::empty());
        assert(s@.subrange(0, 0) + whole[0] =~= whole[0]);
        assert(out.deep_view() =~= Seq::<Seq<char>>::empty());
        assert(out.deep_view() + seq![s@.subrange(0, 0) + whole[0]] + whole.skip(1) =~= whole);
    }
    while i < n
        invariant
            n == s@.len(),
            0 <= st <= i <= n,
            split_seq(s@, sep) == out.deep_view() + seq![
                s@.subrange(st as int, i as int) + split_seq(s@.skip(i as int), sep)[0],
            ] + split_seq(s@.skip(i as int), sep).skip(1),
        decreases n - i,
    {
        let ghost pre = split_seq(s@.skip(i as int), sep);
        let ghost post = split_seq(s@.skip(i as int + 1), sep);
        proof {
            lemma_split_seq_len(s@.skip(i as int + 1), sep);
            assert(s@.skip(i as int).len() > 0);
            assert(s@.skip(i as int)[0] == s@[i as int]);
            assert(s@.skip(i as int).skip(1) =~= s@.skip(i as int + 1));
            assert(post =~= seq![post[0]] + post.skip(1));
        }
        let c = s.get_char(i);
        if c == sep {
            proof {
                assert(pre == seq![Seq::<char>::empty()] + post);
                assert(pre[0] =~= Seq::<char>::empty());
                assert(pre.skip(1) =~= post);
                assert(s@.subrange(st as int, i as int) + pre[0] =~= s@.subrange(
                    st as int,
                    i as int,
                ));
            }
            let piece = s.substring_char(st, i).to_owned();
            let ghost old_out = out.deep_view();
            out.push(piece);
            proof {
                assert(out.deep_view() =~= old_out.push(s@.subrange(st as int, i as int)));
                assert(s@.subrange(i as int + 1, i as int + 1) =~= Seq::<char>::empty());
                assert(out.deep_view() + seq![
                    s@.subrange(i as int + 1, i as int + 1) + post[0],
                ] + post.skip(1) =~= old_out + seq![s@.subrange(st as int, i as int)] + post);
                assert(old_out + seq![s@.subrange(st as int, i as int)] + post =~= old_out + seq![
                    s@.subrange(st as int, i as int) + pre[0],
                ] + pre.skip(1));
            }
            st = i + 1;
        } else {
            proof {
                assert(pre == seq![seq![s@[i as int]] + post[0]] + post.skip(1));
                assert(pre[0] == seq![s@[i as int]] + post[0]);
                assert(pre.skip(1) =~= post.skip(1));
                assert(s@.subrange(st as int, i as int + 1) =~= s@.subrange(st as int, i as int)
                    + seq![s@[i as int]]);
                assert(s@.subrange(st as int, i as int + 1) + post[0] =~= s@.subrange(
                    st as int,
                    i as int,
                ) + pre[0]);
                assert(out.deep_view() + seq![s@.subrange(st as int, i as int + 1) + post[0]]
                    + post.skip(1) =~= out.deep_view() + seq![
                    s@.subrange(st as int, i as int) + pre[0],
                ] + pre.skip(1));
            }
        }
        i = i + 1;
    }
    proof {
        assert(s@.skip(n as int) =~= Seq::<char>::empty());
    }
    let last = s.substring_char(st, n).to_owned();
    let ghost old_out = out.deep_view();
    out.push(last);
    proof {
        let tail = split_seq(s@.skip(n as int), sep);
        assert(tail == seq![Seq::<char>::empty()]);
        assert(tail[0] =~= Seq::<char>::empty());
        assert(tail.skip(1) =~= Seq::<Seq<char>>::empty());
        assert(s@.subrange(st as int, n as int) + tail[0] =~= s@.subrange(st as int, n as int));
        assert(out.deep_view() =~= old_out.push(s@.subrange(st as int, n as int)));
        assert(old_out + seq![s@.subrange(st as int, n as int) + tail[0]] + tail.skip(1)
            =~= out.deep_view());
    }
    out
}

/// Decides `valid_seg` for one segment.
pub fn seg_is_valid(s: &str) -> (r: bool)
    ensures
        r == valid_seg(s@),
{
    let n = s.unicode_len();
    if n == 0 {
        return false;
    }
    if str_eq(s, ".") || str_eq(s, "..") {
        return false;
    }
    let mut i: usize = 0;
    while i < n
        invariant
            n == s@.len(),
            0 <= i <= n,
            forall|j: int| 0 <= j < i ==> s@[j] != '/',
        decreases n - i,
    {
        if s.get_char(i) == '/' {
            return false;
        }
        i = i + 1;
    }
    true
}

/// Parses a client-supplied relative path into its segments. The empty path
/// names the repository root; any other path is accepted exactly when every
/// piece of its `/`-split form is a valid segment.
pub fn parse_rel_path(path: &str) -> (r: Option<Vec<String>>)
    ensures
        path@.len() == 0 ==> (r matches Some(v) && v.deep_view() == Seq::<Seq<char>>::empty()),
        path@.len() > 0 ==> match r {
            Some(v) => v.deep_view() == split_seq(path@, '/') && valid_rel_path(v.deep_view()),
            None => !valid_rel_path(split_seq(path@, '/')),
        },
{
    if path.unicode_len() == 0 {
        let empty: Vec<String> = Vec::new();
        proof {
            assert(empty.deep_view() =~= Seq::<Seq<char>>::empty());
        }
        return Some(empty);
    }
    let segs = split_on(path, '/');
    let mut i: usize = 0;
    while i < segs.len()
        invariant
            path@.len() > 0,
            segs.deep_view() == split_seq(path@, '/'),
            segs.deep_view().len() == segs.len(),
            0 <= i <= segs.len(),
            forall|j: int| 0 <= j < i ==> valid_seg(#[trigger] segs.deep_view()[j]),
        decreases segs.len() - i,
    {
        if !seg_is_valid(segs[i].as_str()) {
            proof {
                assert(!valid_seg(segs.deep_view()[i as int]));
            }
            return None;
        }
        i = i + 1;
    }
    Some(segs)
}

/// Concatenates the repository root and the raw client path, as the listing
/// and repository handlers address the filesystem.
pub fn get_path(path: Option<&str>) -> (r: String)
    ensures
        match path {
            Some(p) => r@ == repo_root() + p@,
            None => r@ == repo_root(),
        },
{
    let mut s = "data/repository/".to_owned();
    match path {
        Some(p) => {
            s.append(p);
        },
        None => {
            proof {
                assert(s@ =~= repo_root());
            }
        },
    }
    s
}

/// Joins validated segments under the repository root with `/` separators.
pub fn join_under_root(segs: &Vec<String>) -> (r: String)
    ensures
        r@ == repo_root() + join_seq(segs.deep_view(), '/'),
{
    let mut s = "data/repository/".to_owned();
    let mut i: usize = 0;
    proof {
        reveal_strlit("/");
        assert(join_seq(segs.deep_view().take(0), '/') =~= Seq::<char>::empty());
        assert(s@ =~= repo_root() + join_seq(segs.deep_view().take(0), '/'));
    }
    while i < segs.len()
        invariant
            segs.deep_view().len() == segs.len(),
            0 <= i <= segs.len(),
            "/"@ =~= seq!['/'],
            s@ == repo_root() + join_seq(segs.deep_view().take(i as int), '/'),
            forall|j: int| 0 <= j < segs.len() ==> segs.deep_view()[j] == segs@[j]@,
        decreases segs.len() - i,
    {
        let ghost before = segs.deep_view().take(i as int);
        let ghost after = segs.deep_view().take(i as int + 1);
        proof {
            assert(after.drop_last() =~= before);
            assert(after.last() == segs.deep_view()[i as int]);
        }
        if i > 0 {
            s.append("/");
            s.append(segs[i].as_str());
            proof {
                assert(join_seq(after, '/') == join_seq(before, '/') + seq!['/']
                    + segs.deep_view()[i as int]);
            }
        } else {
            s.append(segs[i].as_str());
            proof {
                assert(after.len() == 1);
                assert(join_seq(after, '/') == after[0]);
            }
        }
        i = i + 1;
    }
    proof {
        assert(segs.deep_view().take(segs.len() as int) =~= segs.deep_view());
    }
    s
}

/// Resolves a client path: parses and validates it, then places it under the
/// repository root. Rejection is `BadRequest`, as a path that tries to step
/// outside the root is a malformed request, not a missing file.
pub fn resolve_path(path: &str) -> (r: Result<String, crate::OpError>)
    ensures
        match r {
            Ok(s) => s@ == repo_root() + path@ && (path@.len() == 0 || valid_rel_path(
                split_seq(path@, '/'),
            )),
            Err(e) => e == crate::OpError::BadRequest && path@.len() > 0 && !valid_rel_path(
                split_seq(path@, '/'),
            ),
        },
{
    match parse_rel_path(path) {
        None => Err(crate::OpError::BadRequest),
        Some(segs) => {
            if path.unicode_len() == 0 {
                proof {
                    assert(segs.deep_view() =~= Seq::<Seq<char>>::empty());
                    assert(repo_root() + path@ =~= repo_root());
                }
                Ok(get_path(None))
            } else {
                proof {
                    lemma_join_split(path@, '/');
                }
                Ok(join_under_root(&segs))
            }
        },
    }
}

} // verus!
