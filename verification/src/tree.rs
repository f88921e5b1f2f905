//! Finding the tree root, and resolving a package name to its directory.
//!
//! A query is ranked against every indexed name by Jaro-Winkler similarity.
//! A similarity is carried as the bit pattern of the `f64` that measures it:
//! between 0.0 and 1.0 the patterns, read as integers, stand in the order of
//! the numbers, 0 is 0.0 and `ONE` is 1.0.

use vstd::prelude::*;
use crate::error::Failure;
use crate::order::{Ranked, is_stable_order, precedes, stable_order};
use crate::path::{join_path, joined, lemma_parent_shorter, parent, parent_path};
use crate::text::{chars_of, find_first, first_index, lemma_first_index};

verus! {

/// The most candidates that a ranking offers.
pub const LIMIT: usize = 10;

/// The similarity of a name to itself: the bit pattern of 1.0.
pub const ONE: u64 = 0x3FF0_0000_0000_0000;

/// The bit pattern of the `f64` that `strsim::jaro_winkler` returns for
/// `name` and `query`.
pub uninterp spec fn jaro_winkler_bits(name: Seq<char>, query: Seq<char>) -> u64;

/// Calls `strsim::jaro_winkler` on the two texts and hands back the bits of
/// its result. The contract only gives that result its name: the function
/// reads nothing but its two arguments.
#[verifier::external_body]
fn similarity(name: &str, query: &str) -> (bits: u64)
    ensures
        bits == jaro_winkler_bits(name@, query@),
{
    strsim::jaro_winkler(name, query).to_bits()
}

/// A similarity as a ranking key: the higher one stands first.
#[derive(Clone, Copy, Debug)]
pub struct Score(pub u64);

impl Ranked for Score {
    open spec fn le(&self, other: &Self) -> bool {
        self.0 >= other.0
    }

    proof fn lemma_total(a: &Self, b: &Self) {
    }

    proof fn lemma_transitive(a: &Self, b: &Self, c: &Self) {
    }

    fn no_later_than(&self, other: &Self) -> (r: bool) {
        self.0 >= other.0
    }
}

/// An index entry that a query may mean.
#[derive(Debug)]
pub struct Candidate {
    /// The place of the entry in the index.
    pub entry: usize,
    /// The package name.
    pub name: String,
    /// The package directory, as the index gives it.
    pub path: String,
    /// The similarity of the name to the query.
    pub score: u64,
}

/// What resolving a query came to.
#[derive(Debug)]
pub enum Selection {
    /// One candidate only: its directory is taken without asking.
    Accept(String),
    /// Several candidates, best first: the user picks one of them.
    Ask(Vec<Candidate>),
}

/// The next move of the search for the tree root.
#[derive(Debug)]
pub enum Search {
    /// The directory holds `groups`: it is the root.
    Found(String),
    /// The directory to look at next.
    Probe(String),
    /// The search reached the top without finding a root.
    NotFound,
}

/// Where a patch goes, and whether that directory is yet to be made.
#[derive(Debug)]
pub struct PatchPlan {
    /// Whether the patches directory has to be created first.
    pub create: bool,
    /// The patches directory of the package.
    pub to: String,
}

/// The package name in a query: what follows its first `/`, or all of it
/// where it holds none.
pub open spec fn bare(query: Seq<char>) -> Seq<char> {
    let cut = first_index(query, '/');
    if cut < query.len() {
        query.skip(cut + 1)
    } else {
        query
    }
}

/// The similarity of each indexed name to `query`.
pub open spec fn scores_of(index: Seq<(String, String)>, query: Seq<char>) -> Seq<u64> {
    Seq::new(index.len(), |i: int| jaro_winkler_bits(index[i].0@, query))
}

/// Whether the entry at `i` is offered before the one at `j`: it scores
/// higher, or as high and stands first in the index.
pub open spec fn outranks(scores: Seq<u64>, i: int, j: int) -> bool {
    scores[i] > scores[j] || (scores[i] == scores[j] && i < j)
}

/// Whether `picks` is the ranking of `scores`: the places of the scores above
/// zero, best first, cut after `LIMIT` places.
pub open spec fn is_ranking(scores: Seq<u64>, picks: Seq<usize>) -> bool {
    &&& picks.len() <= LIMIT
    &&& forall|k: int|
        0 <= k < picks.len() ==> (#[trigger] picks[k]) < scores.len() && scores[picks[k] as int]
            > 0
    &&& forall|a: int, b: int|
        0 <= a < b < picks.len() ==> outranks(
            scores,
            #[trigger] picks[a] as int,
            #[trigger] picks[b] as int,
        )
    &&& forall|i: usize|
        i < scores.len() && scores[i as int] > 0 ==> #[trigger] picks.contains(i) || (picks.len()
            == LIMIT && outranks(scores, picks.last() as int, i as int))
}

/// The places in the index that the candidates came from.
pub open spec fn entries(ranked: Seq<Candidate>) -> Seq<usize> {
    ranked.map_values(|c: Candidate| c.entry)
}

/// Whether `ranked` holds the entries of `index` that `scores` ranks, in that
/// order, each with its score.
pub open spec fn is_ranked(
    index: Seq<(String, String)>,
    scores: Seq<u64>,
    ranked: Seq<Candidate>,
) -> bool {
    &&& is_ranking(scores, entries(ranked))
    &&& forall|k: int|
        0 <= k < ranked.len() ==> {
            let c = #[trigger] ranked[k];
            &&& c.name@ == index[c.entry as int].0@
            &&& c.path@ == index[c.entry as int].1@
            &&& c.score == scores[c.entry as int]
        }
}

/// Whether no score is above zero.
pub open spec fn no_match(scores: Seq<u64>) -> bool {
    forall|i: int| 0 <= i < scores.len() ==> scores[i] == 0
}

/// Whether the score at `i` is the only one above zero.
pub open spec fn only_match(scores: Seq<u64>, i: int) -> bool {
    &&& 0 <= i < scores.len()
    &&& scores[i] > 0
    &&& forall|j: int| 0 <= j < scores.len() && j != i ==> scores[j] == 0
}

/// The place of the first entry named `name`, or the length of the index
/// where no entry has that name.
pub open spec fn place_of(index: Seq<(String, String)>, name: Seq<char>) -> int
    decreases index.len(),
{
    if index.len() == 0 || index[0].0@ == name {
        0
    } else {
        1 + place_of(index.drop_first(), name)
    }
}

/// The root that a search from `directory` upwards finds, where `groups`
/// tells of each directory whether it holds `groups`.
pub open spec fn located(directory: Seq<char>, groups: spec_fn(Seq<char>) -> bool) -> Option<
    Seq<char>,
>
    decreases directory.len(),
    via located_decreases
{
    if groups(directory) {
        Some(directory)
    } else {
        match parent(directory) {
            None => None,
            Some(up) => located(up, groups),
        }
    }
}

#[via_fn]
proof fn located_decreases(directory: Seq<char>, groups: spec_fn(Seq<char>) -> bool) {
    lemma_parent_shorter(directory);
}

/// `place_of` is the first place that holds the name.
pub proof fn lemma_place_of(index: Seq<(String, String)>, name: Seq<char>)
    ensures
        0 <= place_of(index, name) <= index.len(),
        place_of(index, name) < index.len() ==> index[place_of(index, name)].0@ == name,
        forall|j: int| 0 <= j < place_of(index, name) ==> (#[trigger] index[j]).0@ != name,
    decreases index.len(),
{
    if index.len() > 0 && index[0].0@ != name {
        let rest = index.drop_first();
        lemma_place_of(rest, name);
        assert forall|j: int| 0 <= j < place_of(index, name) implies (#[trigger] index[j]).0@
            != name by {
            if j > 0 {
                assert(index[j] == rest[j - 1]);
            }
        }
    }
}

/// A ranking holds no place twice.
pub proof fn lemma_ranking_distinct(scores: Seq<u64>, picks: Seq<usize>, a: int, b: int)
    requires
        is_ranking(scores, picks),
        0 <= a < b < picks.len(),
    ensures
        picks[a] != picks[b],
        scores[picks[a] as int] >= scores[picks[b] as int],
{
}

/// Two rankings of the same scores agree on their first `k` places.
proof fn lemma_ranking_agree(scores: Seq<u64>, x: Seq<usize>, y: Seq<usize>, k: int)
    requires
        is_ranking(scores, x),
        is_ranking(scores, y),
        0 <= k <= x.len(),
        k <= y.len(),
    ensures
        forall|m: int| 0 <= m < k ==> x[m] == y[m],
    decreases k,
{
    if k > 0 {
        lemma_ranking_agree(scores, x, y, k - 1);
        lemma_ranking_misses(scores, x, y, k - 1);
        lemma_ranking_misses(scores, y, x, k - 1);
    }
}

/// Where two rankings agree before place `j`, the entry that the first
/// holds there cannot outrank the one that the second holds there.
proof fn lemma_ranking_misses(scores: Seq<u64>, x: Seq<usize>, y: Seq<usize>, j: int)
    requires
        is_ranking(scores, x),
        is_ranking(scores, y),
        0 <= j < x.len(),
        j < y.len(),
        forall|m: int| 0 <= m < j ==> x[m] == y[m],
    ensures
        !outranks(scores, x[j] as int, y[j] as int),
{
    let p = x[j];
    if outranks(scores, p as int, y[j] as int) {
        if y.contains(p) {
            let m = choose|m: int| 0 <= m < y.len() && y[m] == p;
            if m < j {
                assert(x[m] == y[m]);
                lemma_ranking_distinct(scores, x, m, j);
            } else if m > j {
                assert(outranks(scores, y[j] as int, y[m] as int));
            }
        } else {
            assert(outranks(scores, y.last() as int, p as int));
            if j < y.len() - 1 {
                assert(outranks(scores, y[j] as int, y[y.len() - 1] as int));
            }
        }
    }
}

/// Scores have one ranking only.
pub proof fn lemma_ranking_unique(scores: Seq<u64>, x: Seq<usize>, y: Seq<usize>)
    requires
        is_ranking(scores, x),
        is_ranking(scores, y),
    ensures
        x == y,
{
    if x.len() <= y.len() {
        lemma_ranking_agree(scores, x, y, x.len() as int);
        lemma_ranking_longer(scores, x, y);
    } else {
        lemma_ranking_agree(scores, y, x, y.len() as int);
        lemma_ranking_longer(scores, y, x);
    }
    assert(x =~= y);
}

/// No ranking goes on where another of the same scores has ended.
proof fn lemma_ranking_longer(scores: Seq<u64>, x: Seq<usize>, y: Seq<usize>)
    requires
        is_ranking(scores, x),
        is_ranking(scores, y),
        x.len() <= y.len(),
        forall|m: int| 0 <= m < x.len() ==> x[m] == y[m],
    ensures
        x.len() == y.len(),
{
    if x.len() < y.len() {
        let p = y[x.len() as int];
        assert(x.contains(p));
        let m = choose|m: int| 0 <= m < x.len() && x[m] == p;
        assert(x[m] == y[m]);
        lemma_ranking_distinct(scores, y, m, x.len() as int);
    }
}

/// A ranking is empty where no score is above zero, and only there.
pub proof fn lemma_ranking_empty(scores: Seq<u64>, picks: Seq<usize>)
    requires
        is_ranking(scores, picks),
        scores.len() <= usize::MAX,
    ensures
        picks.len() == 0 <==> no_match(scores),
{
    if picks.len() == 0 {
        assert forall|i: int| 0 <= i < scores.len() implies scores[i] == 0 by {
            if scores[i] > 0 {
                assert(picks.contains(i as usize));
            }
        }
    } else {
        assert(scores[picks[0] as int] > 0);
    }
}

/// A ranking holds one place where one score only is above zero, and only
/// there; the place is that of the score.
pub proof fn lemma_ranking_single(scores: Seq<u64>, picks: Seq<usize>)
    requires
        is_ranking(scores, picks),
        scores.len() <= usize::MAX,
    ensures
        picks.len() == 1 ==> only_match(scores, picks[0] as int),
        forall|i: int| only_match(scores, i) ==> picks.len() == 1 && picks[0] == i,
{
    if picks.len() == 1 {
        let p = picks[0];
        assert forall|j: int| 0 <= j < scores.len() && j != p implies scores[j] == 0 by {
            if scores[j] > 0 {
                assert(picks.contains(j as usize));
            }
        }
    }
    assert forall|i: int| only_match(scores, i) implies picks.len() == 1 && picks[0] == i by {
        assert(picks.contains(i as usize));
        assert(scores[picks[0] as int] > 0);
        if picks.len() > 1 {
            assert(scores[picks[1] as int] > 0);
            lemma_ranking_distinct(scores, picks, 0, 1);
        }
    }
}

/// The package name in `package`: what follows its first `/`, or all of it.
pub fn bare_name(package: &str) -> (name: &str)
    ensures
        name@ == bare(package@),
{
    let chars = chars_of(package);
    let cut = find_first(&chars, '/');
    proof {
        lemma_first_index(chars@, '/');
    }
    if cut < chars.len() {
        package.substring_char(cut + 1, chars.len())
    } else {
        package
    }
}

/// Ranks scores: the places of those above zero, the highest first and equal
/// ones in their given order, `LIMIT` places at most.
pub fn rank_scored(scores: &Vec<u64>) -> (picks: Vec<usize>)
    ensures
        is_ranking(scores@, picks@),
{
    let mut keys: Vec<Score> = Vec::new();
    let mut i: usize = 0;
    while i < scores.len()
        invariant
            i <= scores.len(),
            keys.len() == i,
            forall|j: int| 0 <= j < i ==> (#[trigger] keys[j]).0 == scores[j],
        decreases scores.len() - i,
    {
        keys.push(Score(scores[i]));
        i += 1;
    }
    let order = stable_order(&keys);
    let mut picks: Vec<usize> = Vec::new();
    let mut k: usize = 0;
    while k < order.len() && k < LIMIT && scores[order[k]] > 0
        invariant
            k <= order.len() == scores.len(),
            keys.len() == scores.len(),
            k <= LIMIT,
            is_stable_order(keys@, order@),
            picks@ == order@.take(k as int),
            forall|j: int| 0 <= j < k ==> scores[#[trigger] order[j] as int] > 0,
        decreases order.len() - k,
    {
        picks.push(order[k]);
        k += 1;
        assert(order@.take(k as int) == order@.take(k - 1).push(order[k - 1]));
    }
    proof {
        assert forall|a: int, b: int| 0 <= a < b < picks.len() implies outranks(
            scores@,
            #[trigger] picks[a] as int,
            #[trigger] picks[b] as int,
        ) by {
            assert(precedes(keys@, order[a] as int, order[b] as int));
        }
        assert forall|i: usize| i < scores.len() && scores[i as int] > 0 implies #[trigger] picks@.contains(
            i,
        ) || (picks.len() == LIMIT && outranks(scores@, picks@.last() as int, i as int)) by {
            assert(order@.contains(i));
            let q = choose|q: int| 0 <= q < order.len() && order[q] == i;
            if q < k {
                assert(picks[q] == i);
            } else if k == LIMIT {
                assert(precedes(keys@, order[k - 1] as int, order[q] as int));
            } else if q > k {
                assert(precedes(keys@, order[k as int] as int, order[q] as int));
            }
        }
    }
    picks
}

/// One copy of the entry at each picked place, with its score.
fn candidates_at(index: &Vec<(String, String)>, scores: &Vec<u64>, picks: &Vec<usize>) -> (ranked:
    Vec<Candidate>)
    requires
        scores.len() == index.len(),
        forall|k: int| 0 <= k < picks.len() ==> (#[trigger] picks[k]) < index.len(),
    ensures
        entries(ranked@) == picks@,
        forall|k: int|
            0 <= k < ranked.len() ==> {
                let c = #[trigger] ranked[k];
                &&& c.name@ == index[c.entry as int].0@
                &&& c.path@ == index[c.entry as int].1@
                &&& c.score == scores[c.entry as int]
            },
{
    let mut ranked: Vec<Candidate> = Vec::new();
    let mut k: usize = 0;
    while k < picks.len()
        invariant
            k <= picks.len(),
            scores.len() == index.len(),
            forall|j: int| 0 <= j < picks.len() ==> (#[trigger] picks[j]) < index.len(),
            ranked.len() == k,
            forall|j: int| 0 <= j < k ==> (#[trigger] ranked[j]).entry == picks[j],
            forall|j: int|
                0 <= j < k ==> {
                    let c = #[trigger] ranked[j];
                    &&& c.name@ == index[c.entry as int].0@
                    &&& c.path@ == index[c.entry as int].1@
                    &&& c.score == scores[c.entry as int]
                },
        decreases picks.len() - k,
    {
        let at = picks[k];
        ranked.push(
            Candidate {
                entry: at,
                name: index[at].0.clone(),
                path: index[at].1.clone(),
                score: scores[at],
            },
        );
        k += 1;
    }
    assert(entries(ranked@) =~= picks@);
    ranked
}

/// Ranks the index against a query: scores every name against the package
/// name in `query`, drops the entries that score zero, and offers the ten
/// most similar, best first, equal ones in index order.
pub fn rank(index: &Vec<(String, String)>, query: &str) -> (ranked: Vec<Candidate>)
    ensures
        is_ranked(index@, scores_of(index@, bare(query@)), ranked@),
        ranked.len() <= LIMIT,
        forall|k: int| 0 <= k < ranked.len() ==> (#[trigger] ranked[k]).score > 0,
        forall|a: int, b: int|
            0 <= a < b < ranked.len() ==> (#[trigger] ranked[a]).score >= (#[trigger] ranked[b]).score,
{
    let name = bare_name(query);
    let mut scores: Vec<u64> = Vec::new();
    let mut i: usize = 0;
    while i < index.len()
        invariant
            i <= index.len(),
            name@ == bare(query@),
            scores@ == scores_of(index@, name@).take(i as int),
        decreases index.len() - i,
    {
        let bits = similarity(index[i].0.as_str(), name);
        scores.push(bits);
        i += 1;
        assert(scores@ =~= scores_of(index@, name@).take(i as int));
    }
    assert(scores@ =~= scores_of(index@, name@));
    let picks = rank_scored(&scores);
    let ranked = candidates_at(index, &scores, &picks);
    proof {
        assert forall|a: int, b: int| 0 <= a < b < ranked.len() implies (#[trigger] ranked[a]).score
            >= (#[trigger] ranked[b]).score by {
            assert(entries(ranked@)[a] == ranked[a].entry);
            assert(entries(ranked@)[b] == ranked[b].entry);
            lemma_ranking_distinct(scores@, picks@, a, b);
        }
        assert forall|k: int| 0 <= k < ranked.len() implies (#[trigger] ranked[k]).score > 0 by {
            assert(entries(ranked@)[k] == ranked[k].entry);
        }
    }
    ranked
}

/// Decides on a ranking: nothing to offer, one candidate to take, or several
/// to ask about.
pub fn select_ranked(ranked: Vec<Candidate>) -> (r: Result<Selection, Failure>)
    ensures
        ranked.len() == 0 ==> r == Err::<Selection, Failure>(Failure::NoMatch),
        ranked.len() == 1 ==> (r matches Ok(Selection::Accept(path)) && path == ranked[0].path),
        ranked.len() >= 2 ==> (r matches Ok(Selection::Ask(offered)) && offered == ranked),
{
    let mut ranked = ranked;
    if ranked.len() == 0 {
        Err(Failure::NoMatch)
    } else if ranked.len() == 1 {
        let only = ranked.remove(0);
        Ok(Selection::Accept(only.path))
    } else {
        Ok(Selection::Ask(ranked))
    }
}

/// Resolves a query to a package directory as far as that needs no user:
/// fails where no name is similar at all, takes the directory of a single
/// candidate, and otherwise hands back the candidates to choose from.
///
/// So a query that one name only is similar to, be it by matching it
/// exactly, gives the directory of that name without any question.
pub fn select_package_to_directory(index: Vec<(String, String)>, package: &str) -> (r: Result<
    Selection,
    Failure,
>)
    ensures
        ({
            let scores = scores_of(index@, bare(package@));
            &&& match r {
                Err(e) => e == Failure::NoMatch && no_match(scores),
                Ok(Selection::Accept(path)) => exists|i: int|
                    only_match(scores, i) && path@ == (#[trigger] index[i]).1@,
                Ok(Selection::Ask(offered)) => offered.len() >= 2 && is_ranked(
                    index@,
                    scores,
                    offered@,
                ),
            }
            &&& no_match(scores) ==> r is Err
            &&& forall|i: int| #[trigger]
                only_match(scores, i) ==> (r matches Ok(Selection::Accept(path)) && path@
                    == index[i].1@)
        }),
{
    let ranked = rank(&index, package);
    proof {
        let scores = scores_of(index@, bare(package@));
        assert(scores.len() == index.len());
        lemma_ranking_empty(scores, entries(ranked@));
        lemma_ranking_single(scores, entries(ranked@));
        if ranked.len() == 1 {
            assert(entries(ranked@)[0] == ranked[0].entry);
            assert(only_match(scores, ranked[0].entry as int));
            assert(ranked[0].path@ == index[ranked[0].entry as int].1@);
        }
        assert forall|i: int| #[trigger] only_match(scores, i) implies ranked.len() == 1
            && ranked[0].path@ == index[i].1@ by {
            assert(entries(ranked@)[0] == ranked[0].entry);
        }
    }
    select_ranked(ranked)
}

/// The names of the candidates, in their order: the lines of the prompt.
pub fn candidate_names(offered: &Vec<Candidate>) -> (names: Vec<String>)
    ensures
        names.len() == offered.len(),
        forall|k: int| 0 <= k < names.len() ==> (#[trigger] names[k])@ == offered[k].name@,
{
    let mut names: Vec<String> = Vec::new();
    let mut k: usize = 0;
    while k < offered.len()
        invariant
            k <= offered.len(),
            names.len() == k,
            forall|j: int| 0 <= j < k ==> (#[trigger] names[j])@ == offered[j].name@,
        decreases offered.len() - k,
    {
        names.push(offered[k].name.clone());
        k += 1;
    }
    names
}

/// The directory of the candidate that the user picked, if there is one at
/// that place.
pub fn chosen_path(offered: &Vec<Candidate>, choice: usize) -> (r: Option<String>)
    ensures
        match r {
            Some(path) => choice < offered.len() && path@ == offered[choice as int].path@,
            None => choice >= offered.len(),
        },
{
    if choice < offered.len() {
        Some(offered[choice].path.clone())
    } else {
        None
    }
}

/// The directory of the first entry named exactly `package`, seen from the
/// tree root. No similarity is involved: a name that the index lacks is not
/// found, whatever else it holds.
pub fn get_package_path(index: Vec<(String, String)>, package: &str, abbs_tree_path: &str) -> (r:
    Result<String, Failure>)
    ensures
        match r {
            Ok(path) => place_of(index@, package@) < index.len() && path@ == joined(
                abbs_tree_path@,
                index[place_of(index@, package@)].1@,
            ),
            Err(e) => e == Failure::NotFound && place_of(index@, package@) == index.len(),
        },
        (forall|i: int| 0 <= i < index.len() ==> (#[trigger] index[i]).0@ != package@) ==> r
            == Err::<String, Failure>(Failure::NotFound),
{
    let wanted = package.to_owned();
    let mut i: usize = 0;
    assert(index@.skip(0) == index@);
    while i < index.len()
        invariant
            i <= index.len(),
            wanted@ == package@,
            place_of(index@, package@) == i + place_of(index@.skip(i as int), package@),
        decreases index.len() - i,
    {
        if index[i].0 == wanted {
            return Ok(join_path(abbs_tree_path, index[i].1.as_str()));
        }
        assert(index@.skip(i as int).drop_first() == index@.skip(i + 1));
        i += 1;
    }
    proof {
        lemma_place_of(index@, package@);
    }
    Err(Failure::NotFound)
}

/// The patches directory of the package named exactly `package`.
pub fn patches_path(index: Vec<(String, String)>, package: &str, abbs_tree_path: &str) -> (r:
    Result<String, Failure>)
    ensures
        match r {
            Ok(to) => place_of(index@, package@) < index.len() && to@ == joined(
                joined(abbs_tree_path@, index[place_of(index@, package@)].1@),
                "autobuild/patches"@,
            ),
            Err(e) => e == Failure::NotFound && place_of(index@, package@) == index.len(),
        },
{
    match get_package_path(index, package, abbs_tree_path) {
        Ok(path) => Ok(join_path(path.as_str(), "autobuild/patches")),
        Err(e) => Err(e),
    }
}

/// Plans the copy of a patch into a package: `present` and `is_dir` tell what
/// stands at the package's patches directory now. The directory is created
/// where nothing stands there; something else than a directory there is an
/// error.
pub fn add_patch(
    package: &str,
    index: Vec<(String, String)>,
    abbs_tree_path: &str,
    present: bool,
    is_dir: bool,
) -> (r: Result<PatchPlan, Failure>)
    ensures
        match r {
            Ok(plan) => {
                &&& place_of(index@, package@) < index.len()
                &&& !present || is_dir
                &&& plan.create == !present
                &&& plan.to@ == joined(
                    joined(abbs_tree_path@, index[place_of(index@, package@)].1@),
                    "autobuild/patches"@,
                )
            },
            Err(e) => if place_of(index@, package@) == index.len() {
                e == Failure::NotFound
            } else {
                e == Failure::NotADirectory && present && !is_dir
            },
        },
{
    proof {
        lemma_place_of(index@, package@);
    }
    match patches_path(index, package, abbs_tree_path) {
        Err(e) => Err(e),
        Ok(to) => {
            if !present {
                Ok(PatchPlan { create: true, to })
            } else if !is_dir {
                Err(Failure::NotADirectory)
            } else {
                Ok(PatchPlan { create: false, to })
            }
        },
    }
}

/// The place to look at to learn whether `directory` is the tree root: its
/// `groups` entry.
pub fn groups_path(directory: &str) -> (r: String)
    ensures
        r@ == directory@ + "/groups"@,
{
    directory.to_owned().concat("/groups")
}

/// One step of the search for the tree root, which goes from a directory
/// upwards: `has_groups` tells whether `directory` holds a `groups`
/// directory. The search ends there if it does, fails at the top, and else
/// goes on with the parent.
pub fn get_tree(directory: &str, has_groups: bool) -> (next: Search)
    ensures
        match next {
            Search::Found(root) => has_groups && root@ == directory@,
            Search::Probe(up) => !has_groups && parent(directory@) == Some(up@),
            Search::NotFound => !has_groups && parent(directory@) is None,
        },
{
    if has_groups {
        Search::Found(directory.to_owned())
    } else {
        match parent_path(directory) {
            Some(up) => Search::Probe(up),
            None => Search::NotFound,
        }
    }
}

/// Following the steps of `get_tree` finds the nearest directory, from the
/// start upwards, that holds `groups`: a step that ends the search gives the
/// result of the whole search, and a step that goes on leaves it unchanged
/// and comes nearer to the top.
pub proof fn lemma_search_step(directory: Seq<char>, groups: spec_fn(Seq<char>) -> bool)
    ensures
        groups(directory) ==> located(directory, groups) == Some(directory),
        !groups(directory) && parent(directory) is None ==> located(directory, groups) is None,
        !groups(directory) ==> (parent(directory) matches Some(up) ==> located(directory, groups)
            == located(up, groups) && up.len() < directory.len()),
{
    lemma_parent_shorter(directory);
}

/// A search finds the first of the directories from the start upwards that
/// holds `groups`, and fails where none of them does.
pub proof fn lemma_located(directory: Seq<char>, groups: spec_fn(Seq<char>) -> bool)
    ensures
        match located(directory, groups) {
            Some(root) => exists|k: int|
                0 <= k < crate::path::ancestors(directory).len() && #[trigger] crate::path::ancestors(
                    directory,
                )[k] == root && groups(root) && forall|j: int|
                    0 <= j < k ==> !groups(#[trigger] crate::path::ancestors(directory)[j]),
            None => forall|j: int|
                0 <= j < crate::path::ancestors(directory).len() ==> !groups(
                    #[trigger] crate::path::ancestors(directory)[j],
                ),
        },
    decreases directory.len(),
{
    let line = crate::path::ancestors(directory);
    lemma_parent_shorter(directory);
    if groups(directory) {
        assert(line[0] == directory);
    } else {
        match parent(directory) {
            None => {},
            Some(up) => {
                lemma_located(up, groups);
                let rest = crate::path::ancestors(up);
                assert(line =~= seq![directory] + rest);
                match located(up, groups) {
                    Some(root) => {
                        let k = choose|k: int|
                            0 <= k < rest.len() && #[trigger] rest[k] == root && groups(root)
                                && forall|j: int| 0 <= j < k ==> !groups(#[trigger] rest[j]);
                        assert(line[k + 1] == root);
                        assert forall|j: int| 0 <= j < k + 1 implies !groups(
                            #[trigger] line[j],
                        ) by {
                            if j > 0 {
                                assert(line[j] == rest[j - 1]);
                            }
                        }
                    },
                    None => {
                        assert forall|j: int| 0 <= j < line.len() implies !groups(
                            #[trigger] line[j],
                        ) by {
                            if j > 0 {
                                assert(line[j] == rest[j - 1]);
                            }
                        }
                    },
                }
            },
        }
    }
}

} // verus!
