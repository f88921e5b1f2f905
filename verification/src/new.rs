//! Starting a new package: the categories to choose from, and the place of
//! the package.

use vstd::prelude::*;
use crate::error::Failure;
use crate::index::WalkEntry;
use crate::order::{arranged, is_stable_order, is_stable_sort, stable_order};
use crate::path::{join_path, joined};
use crate::text::chars_of;

verus! {

/// The depth below the tree root at which the categories lie.
pub const CATEGORY_DEPTH: usize = 1;

/// Whether a directory directly below the tree root is a category by its
/// name: hidden directories, `assets` and `groups` are none.
pub open spec fn is_category_name(name: Seq<char>) -> bool {
    &&& !(name.len() > 0 && name[0] == '.')
    &&& name != "assets"@
    &&& name != "groups"@
}

/// Whether a walked entry is a directory directly below the tree root.
pub open spec fn is_top_directory(e: WalkEntry) -> bool {
    e.depth == CATEGORY_DEPTH && e.is_dir
}

/// Whether a walked entry is a category.
pub open spec fn is_category(e: WalkEntry) -> bool {
    is_top_directory(e) && e.name is Some && is_category_name(e.name.unwrap()@)
}

/// The names of the categories of a walk, in its order.
pub open spec fn category_names(walk: Seq<WalkEntry>) -> Seq<String> {
    walk.filter(|e: WalkEntry| is_category(e)).map_values(|e: WalkEntry| e.name.unwrap())
}

/// Whether every directory directly below the tree root has a name that is
/// valid text.
pub open spec fn all_named(walk: Seq<WalkEntry>) -> bool {
    forall|i: int| 0 <= i < walk.len() && is_top_directory(#[trigger] walk[i]) ==> walk[i].name is Some
}

/// Whether `name` may name a category.
pub fn category_name(name: &str) -> (r: bool)
    ensures
        r == is_category_name(name@),
{
    let chars = chars_of(name);
    if chars.len() > 0 && chars[0] == '.' {
        return false;
    }
    let given = name.to_owned();
    proof {
        assert(given@ == name@);
    }
    !(given == "assets".to_owned() || given == "groups".to_owned())
}

/// The categories of a tree, from a walk of it: the directories directly
/// below the root, but for hidden ones, `assets` and `groups`, by name.
/// Fails where such a directory has a name that is not valid text.
pub fn get_all_category_in_tree(walk: Vec<WalkEntry>) -> (r: Result<Vec<String>, Failure>)
    ensures
        match r {
            Ok(sorted) => all_named(walk@) && is_stable_sort(category_names(walk@), sorted@),
            Err(e) => e == Failure::PathEncoding && !all_named(walk@),
        },
{
    let mut names: Vec<String> = Vec::new();
    let mut i: usize = 0;
    proof {
        reveal(Seq::filter);
        assert(walk@.take(0) == Seq::<WalkEntry>::empty());
        assert(names@ =~= category_names(walk@.take(0)));
    }
    while i < walk.len()
        invariant
            i <= walk.len(),
            all_named(walk@.take(i as int)),
            names@ == category_names(walk@.take(i as int)),
        decreases walk.len() - i,
    {
        let ghost before = walk@.take(i as int);
        let ghost after = walk@.take(i + 1);
        proof {
            reveal(Seq::filter);
            assert(after.drop_last() == before);
            assert(after.last() == walk@[i as int]);
        }
        let e = &walk[i];
        if e.depth == CATEGORY_DEPTH && e.is_dir {
            match &e.name {
                None => {
                    assert(is_top_directory(walk@[i as int]));
                    return Err(Failure::PathEncoding);
                },
                Some(name) => {
                    if category_name(name.as_str()) {
                        names.push(name.clone());
                        assert(names@ =~= category_names(after));
                    } else {
                        assert(category_names(after) =~= category_names(before));
                    }
                },
            }
        } else {
            assert(category_names(after) =~= category_names(before));
        }
        assert forall|j: int| 0 <= j < after.len() && is_top_directory(#[trigger] after[j]) implies after[j].name is Some by {
            if j < i {
                assert(after[j] == before[j]);
            }
        }
        i += 1;
    }
    assert(walk@.take(walk@.len() as int) == walk@);
    let order = stable_order(&names);
    let mut sorted: Vec<String> = Vec::new();
    let mut k: usize = 0;
    while k < order.len()
        invariant
            k <= order.len(),
            is_stable_order(names@, order@),
            sorted@ == arranged(names@, order@).take(k as int),
        decreases order.len() - k,
    {
        sorted.push(names[order[k]].clone());
        k += 1;
        assert(sorted@ =~= arranged(names@, order@).take(k as int));
    }
    assert(sorted@ =~= arranged(names@, order@));
    Ok(sorted)
}

/// The directory of a new package: `package` in the category chosen from
/// `category`, seen from the tree root. There is none where `selected` is
/// not the place of a category.
pub fn new_package(package: &str, tree: &str, category: &Vec<String>, selected: usize) -> (r:
    Option<String>)
    ensures
        match r {
            Some(to) => selected < category.len() && to@ == joined(
                joined(tree@, category[selected as int]@),
                package@,
            ),
            None => selected >= category.len(),
        },
{
    if selected < category.len() {
        let within = join_path(tree, category[selected].as_str());
        Some(join_path(within.as_str(), package))
    } else {
        None
    }
}

} // verus!
