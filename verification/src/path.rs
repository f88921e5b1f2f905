//! Directory paths as text, with `/` between their parts.

use vstd::prelude::*;
use crate::text::{chars_of, find_last, last_index, lemma_last_index};

verus! {

/// `path` seen from `base`: `path` itself where it begins at the root, else
/// `base`, a `/` unless `base` is empty or ends in one, and `path`.
pub open spec fn joined(base: Seq<char>, path: Seq<char>) -> Seq<char> {
    if path.len() > 0 && path[0] == '/' {
        path
    } else if base.len() > 0 && base.last() != '/' {
        base + seq!['/'] + path
    } else {
        base + path
    }
}

/// The directory that holds `path`: what stands before its last `/`, and the
/// root for a path directly below the root. The root, and a path without
/// any `/`, have none.
pub open spec fn parent(path: Seq<char>) -> Option<Seq<char>> {
    let cut = last_index(path, '/');
    if cut < 0 || path.len() == 1 {
        None
    } else if cut == 0 {
        Some(seq!['/'])
    } else {
        Some(path.take(cut))
    }
}

/// The directories from `path` upwards: `path`, its parent, and so on.
pub open spec fn ancestors(path: Seq<char>) -> Seq<Seq<char>>
    decreases path.len(),
    via ancestors_decreases
{
    match parent(path) {
        None => seq![path],
        Some(up) => seq![path] + ancestors(up),
    }
}

#[via_fn]
proof fn ancestors_decreases(path: Seq<char>) {
    lemma_parent_shorter(path);
}

/// A parent is shorter than its child.
pub proof fn lemma_parent_shorter(path: Seq<char>)
    ensures
        parent(path) matches Some(up) ==> up.len() < path.len(),
{
    lemma_last_index(path, '/');
}

/// `path` seen from `base`.
pub fn join_path(base: &str, path: &str) -> (r: String)
    ensures
        r@ == joined(base@, path@),
{
    proof {
        reveal_strlit("/");
    }
    if path.unicode_len() > 0 && path.get_char(0) == '/' {
        return path.to_owned();
    }
    let n = base.unicode_len();
    let r = base.to_owned();
    if n > 0 && base.get_char(n - 1) != '/' {
        let r = r.concat("/");
        assert("/"@ =~= seq!['/']);
        r.concat(path)
    } else {
        r.concat(path)
    }
}

/// The directory that holds `path`, if it has one.
pub fn parent_path(path: &str) -> (r: Option<String>)
    ensures
        match r {
            Some(up) => parent(path@) == Some(up@),
            None => parent(path@) is None,
        },
{
    let chars = chars_of(path);
    proof {
        lemma_last_index(chars@, '/');
        reveal_strlit("/");
    }
    match find_last(&chars, '/') {
        None => None,
        Some(cut) => {
            if chars.len() == 1 {
                None
            } else if cut == 0 {
                assert("/"@ =~= seq!['/']);
                Some("/".to_owned())
            } else {
                Some(path.substring_char(0, cut).to_owned())
            }
        },
    }
}

} // verus!
