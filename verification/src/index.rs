//! The package index: one `(name, path)` entry for every directory that lies
//! exactly two levels below the tree root, and its cache file.
//!
//! The index is kept on disk as JSON text: an array of two-element arrays of
//! strings, written and read by `serde_json`.

use vstd::prelude::*;
use crate::error::Failure;
use crate::json::{from_json, json_index, json_text, to_json};

verus! {

/// The depth below the tree root at which the package directories lie.
pub const PACKAGE_DEPTH: usize = 2;

/// One entry that a walk of the tree came across.
#[derive(Debug)]
pub struct WalkEntry {
    /// How many levels below the tree root the entry lies; the root is at 0.
    pub depth: usize,
    /// Whether the entry is a directory.
    pub is_dir: bool,
    /// The last part of its path, where that is valid text.
    pub name: Option<String>,
    /// Its path from the tree root, where that is valid text.
    pub path: Option<String>,
}

/// How the index is to be had, once the cache file has been looked at.
#[derive(Debug)]
pub enum Loaded {
    /// The cache file held this index.
    Index(Vec<(String, String)>),
    /// There is no cache file: the tree has to be scanned.
    Rebuild,
}

/// An index, and the text to keep it by.
#[derive(Debug)]
pub struct Built {
    /// The entries, in the order of the walk.
    pub index: Vec<(String, String)>,
    /// The text of the cache file.
    pub cache: String,
}

/// Whether a walked entry is a package directory.
pub open spec fn is_package(e: WalkEntry) -> bool {
    e.depth == PACKAGE_DEPTH && e.is_dir
}

/// Whether the name and the path of a walked entry are valid text.
pub open spec fn is_text(e: WalkEntry) -> bool {
    e.name is Some && e.path is Some
}

/// The index entry of a package directory.
pub open spec fn entry_of(e: WalkEntry) -> (Seq<char>, Seq<char>) {
    (e.name.unwrap()@, e.path.unwrap()@)
}

/// The index of a walk: the entries of its package directories, in the
/// order of the walk. Files, and directories at any other depth, add
/// nothing.
pub open spec fn packages(walk: Seq<WalkEntry>) -> Seq<(Seq<char>, Seq<char>)> {
    walk.filter(|e: WalkEntry| is_package(e)).map_values(|e: WalkEntry| entry_of(e))
}

/// Whether every package directory of the walk has a name and a path that
/// are valid text.
pub open spec fn all_text(walk: Seq<WalkEntry>) -> bool {
    forall|i: int| 0 <= i < walk.len() && is_package(#[trigger] walk[i]) ==> is_text(walk[i])
}

/// What building the index from a walk comes to.
pub open spec fn built(walk: Seq<WalkEntry>) -> Result<Seq<(Seq<char>, Seq<char>)>, Failure> {
    if !all_text(walk) {
        Err(Failure::PathEncoding)
    } else if json_text(packages(walk)) is None {
        Err(Failure::CacheEncoding)
    } else {
        Ok(packages(walk))
    }
}

/// What loading the index comes to: `cache` holds the bytes of the cache
/// file, or nothing where there is none, and `walk` is what a scan of the
/// tree would come across.
pub open spec fn loaded(cache: Option<Seq<u8>>, walk: Seq<WalkEntry>) -> Result<
    Seq<(Seq<char>, Seq<char>)>,
    Failure,
> {
    match cache {
        None => built(walk),
        Some(bytes) => match json_index(bytes) {
            Some(index) => Ok(index),
            None => Err(Failure::CorruptIndex),
        },
    }
}

/// The bytes of the cache file, if there is one.
pub open spec fn cache_bytes(cache: Option<Vec<u8>>) -> Option<Seq<u8>> {
    match cache {
        Some(bytes) => Some(bytes@),
        None => None,
    }
}

/// Without a cache file, loading the index is building it.
pub proof fn lemma_load_without_cache(walk: Seq<WalkEntry>)
    ensures
        loaded(None, walk) == built(walk),
{
}

/// Where the cache file reads back as the index that was built from the
/// tree, loading gives what building gave. Whether the text that was written
/// for an index reads back as that index is up to the JSON library.
pub proof fn lemma_load_of_kept_index(walk: Seq<WalkEntry>, bytes: Seq<u8>)
    requires
        built(walk) is Ok,
        json_index(bytes) == Some(packages(walk)),
    ensures
        loaded(Some(bytes), walk) == built(walk),
{
}

/// Whether `entry` is the index entry of a package directory of the walk.
pub open spec fn is_entry_of(walk: Seq<WalkEntry>, entry: (Seq<char>, Seq<char>)) -> bool {
    exists|i: int| 0 <= i < walk.len() && is_package(#[trigger] walk[i]) && entry == entry_of(walk[i])
}

/// Only package directories get into an index, each with its own name and
/// path, and every one of them does.
pub proof fn lemma_packages(walk: Seq<WalkEntry>)
    ensures
        forall|k: int|
            0 <= k < packages(walk).len() ==> is_entry_of(walk, #[trigger] packages(walk)[k]),
        forall|i: int|
            0 <= i < walk.len() && is_package(#[trigger] walk[i]) ==> packages(walk).contains(
                entry_of(walk[i]),
            ),
{
    let pred = |e: WalkEntry| is_package(e);
    let kept = walk.filter(pred);
    assert forall|k: int| 0 <= k < packages(walk).len() implies is_entry_of(
        walk,
        #[trigger] packages(walk)[k],
    ) by {
        walk.lemma_filter_pred(pred, k);
        assert(kept.contains(kept[k]));
        walk.lemma_filter_contains_rev(pred, kept[k]);
        let i = choose|i: int| 0 <= i < walk.len() && walk[i] == kept[k];
        assert(is_package(walk[i]));
    }
    assert forall|i: int| 0 <= i < walk.len() && is_package(#[trigger] walk[i]) implies packages(
        walk,
    ).contains(entry_of(walk[i])) by {
        assert(pred(walk[i]));
        walk.lemma_filter_contains(pred, i);
        let k = choose|k: int| 0 <= k < kept.len() && kept[k] == walk[i];
        assert(packages(walk)[k] == entry_of(walk[i]));
    }
}

/// Makes the index of a tree from a walk of it: one entry, in the order of
/// the walk, for every directory at depth two. Fails where such a directory
/// has a name or a path that is not valid text.
pub fn gen_abbs_index(walk: Vec<WalkEntry>) -> (r: Result<Vec<(String, String)>, Failure>)
    ensures
        match r {
            Ok(index) => all_text(walk@) && index.deep_view() == packages(walk@),
            Err(e) => e == Failure::PathEncoding && !all_text(walk@),
        },
{
    let mut index: Vec<(String, String)> = Vec::new();
    let mut i: usize = 0;
    proof {
        reveal(Seq::filter);
        assert(walk@.take(0) == Seq::<WalkEntry>::empty());
        assert(index.deep_view() =~= packages(walk@.take(0)));
    }
    while i < walk.len()
        invariant
            i <= walk.len(),
            all_text(walk@.take(i as int)),
            index.deep_view() == packages(walk@.take(i as int)),
        decreases walk.len() - i,
    {
        let ghost before = walk@.take(i as int);
        let ghost after = walk@.take(i + 1);
        let ghost old_index = index.deep_view();
        proof {
            reveal(Seq::filter);
            assert(after.drop_last() == before);
            assert(after.last() == walk@[i as int]);
        }
        let e = &walk[i];
        if e.depth == PACKAGE_DEPTH && e.is_dir {
            match (&e.name, &e.path) {
                (Some(name), Some(path)) => {
                    index.push((name.clone(), path.clone()));
                    assert(index.deep_view() =~= old_index.push(entry_of(walk@[i as int])));
                    assert(packages(after) =~= packages(before).push(entry_of(walk@[i as int])));
                },
                _ => {
                    assert(is_package(walk@[i as int]) && !is_text(walk@[i as int]));
                    return Err(Failure::PathEncoding);
                },
            }
        } else {
            assert(packages(after) =~= packages(before));
        }
        assert forall|j: int| 0 <= j < after.len() && is_package(#[trigger] after[j]) implies is_text(
            after[j],
        ) by {
            if j < i {
                assert(after[j] == before[j]);
            }
        }
        i += 1;
    }
    assert(walk@.take(walk@.len() as int) == walk@);
    Ok(index)
}

/// The text of the cache file for an index.
pub fn cache_text(index: &Vec<(String, String)>) -> (r: Result<String, Failure>)
    ensures
        match r {
            Ok(text) => json_text(index.deep_view()) == Some(text@),
            Err(e) => e == Failure::CacheEncoding && json_text(index.deep_view()) is None,
        },
{
    match to_json(index) {
        Ok(text) => Ok(text),
        Err(_) => Err(Failure::CacheEncoding),
    }
}

/// Builds the index of a tree from a walk of it, with the text to write to
/// the cache file.
pub fn build_index(walk: Vec<WalkEntry>) -> (r: Result<Built, Failure>)
    ensures
        match r {
            Ok(b) => built(walk@) == Ok::<Seq<(Seq<char>, Seq<char>)>, Failure>(b.index.deep_view())
                && json_text(b.index.deep_view()) == Some(b.cache@),
            Err(e) => built(walk@) == Err::<Seq<(Seq<char>, Seq<char>)>, Failure>(e),
        },
{
    let index = gen_abbs_index(walk)?;
    let cache = cache_text(&index)?;
    Ok(Built { index, cache })
}

/// Loads the index as far as the cache file decides it: `cache` holds the
/// bytes of that file, or nothing where there is none. A missing file asks
/// for a rebuild. A file that holds no index is an error: it is not
/// repaired.
pub fn read_index(cache: Option<Vec<u8>>) -> (r: Result<Loaded, Failure>)
    ensures
        match r {
            Ok(Loaded::Index(index)) => (cache matches Some(bytes) && json_index(bytes@) == Some(
                index.deep_view(),
            )),
            Ok(Loaded::Rebuild) => cache is None,
            Err(e) => e == Failure::CorruptIndex && (cache matches Some(bytes) && json_index(bytes@)
                is None),
        },
        forall|walk: Seq<WalkEntry>|
            match r {
                Ok(Loaded::Index(index)) => #[trigger] loaded(cache_bytes(cache), walk)
                    == Ok::<Seq<(Seq<char>, Seq<char>)>, Failure>(index.deep_view()),
                Ok(Loaded::Rebuild) => loaded(cache_bytes(cache), walk) == built(walk),
                Err(e) => loaded(cache_bytes(cache), walk) == Err::<
                    Seq<(Seq<char>, Seq<char>)>,
                    Failure,
                >(e),
            },
{
    match cache {
        None => Ok(Loaded::Rebuild),
        Some(bytes) => match from_json(bytes.as_slice()) {
            Ok(index) => Ok(Loaded::Index(index)),
            Err(_) => Err(Failure::CorruptIndex),
        },
    }
}

} // verus!
