use bakka::error::Failure;
use bakka::tree::{
    add_patch, bare_name, candidate_names, chosen_path, get_package_path, get_tree, groups_path,
    patches_path, rank, rank_scored, select_package_to_directory, select_ranked, Candidate,
    Search, Selection, LIMIT, ONE,
};

fn index_of(pairs: &[(&str, &str)]) -> Vec<(String, String)> {
    pairs.iter().map(|(n, p)| (n.to_string(), p.to_string())).collect()
}

fn browsers() -> Vec<(String, String)> {
    index_of(&[("firefox", "web/firefox"), ("firefoxy", "web/firefoxy"), ("vim", "editors/vim")])
}

fn candidate(entry: usize, name: &str, path: &str, score: u64) -> Candidate {
    Candidate { entry, name: name.to_string(), path: path.to_string(), score }
}

/// Walks upwards from `start` as long as the search asks to.
fn search(start: &str, roots: &[&str]) -> Option<String> {
    let mut at: String = start.to_string();
    let mut steps: u32 = 0;
    loop {
        steps += 1;
        assert!(steps < 100);
        match get_tree(&at, roots.contains(&at.as_str())) {
            Search::Found(root) => return Some(root),
            Search::NotFound => return None,
            Search::Probe(up) => {
                assert!(up.len() < at.len());
                at = up;
            }
        }
    }
}

#[test]
fn one_is_the_pattern_of_a_full_match() {
    assert_eq!(ONE, 1.0f64.to_bits());
    assert_eq!(LIMIT, 10);
}

#[test]
fn scores_are_those_of_jaro_winkler() {
    let ranked = rank(&browsers(), "firefoxx");
    assert!(!ranked.is_empty());
    for c in &ranked {
        assert_eq!(c.score, strsim::jaro_winkler(&c.name, "firefoxx").to_bits());
        assert_ne!(f64::from_bits(c.score), 0.0);
    }
    let ranked = rank(&index_of(&[("dwayne", "a/dwayne")]), "duane");
    assert_eq!(ranked.len(), 1);
    assert!((f64::from_bits(ranked[0].score) - 0.84).abs() < 0.001);
}

#[test]
fn exact_name_ranks_first_with_full_score() {
    let ranked = rank(&browsers(), "firefox");
    assert!(ranked.len() >= 2);
    assert_eq!(ranked[0].name, "firefox");
    assert_eq!(ranked[0].path, "web/firefox");
    assert_eq!(ranked[0].entry, 0);
    assert_eq!(f64::from_bits(ranked[0].score), 1.0);
    assert_eq!(ranked[0].score, ONE);
    assert_eq!(ranked[1].name, "firefoxy");
    assert!(f64::from_bits(ranked[1].score) < 1.0);
    assert!(f64::from_bits(ranked[1].score) > 0.0);
    let vim_scores: bool = strsim::jaro_winkler("vim", "firefox") > 0.0;
    assert_eq!(ranked.iter().any(|c| c.name == "vim"), vim_scores);
    assert_eq!(ranked.len(), if vim_scores { 3 } else { 2 });
}

#[test]
fn names_without_anything_in_common_are_left_out() {
    let index = index_of(&[("firefox", "web/firefox"), ("zzz", "x/zzz"), ("", "x/empty")]);
    let ranked = rank(&index, "firefox");
    assert_eq!(ranked.len(), 1);
    assert_eq!(ranked[0].name, "firefox");
}

#[test]
fn ranked_scores_never_rise_and_are_above_zero() {
    let index = index_of(&[
        ("gtk", "x/gtk"),
        ("gtk3", "x/gtk3"),
        ("gtkmm", "x/gtkmm"),
        ("qt", "x/qt"),
        ("glib", "x/glib"),
        ("gtk4", "x/gtk4"),
    ]);
    let ranked = rank(&index, "gtk");
    assert!(ranked.len() <= LIMIT);
    assert_eq!(ranked[0].name, "gtk");
    for pair in ranked.windows(2) {
        assert!(pair[0].score >= pair[1].score);
        assert!(f64::from_bits(pair[0].score) >= f64::from_bits(pair[1].score));
    }
    for c in &ranked {
        assert!(c.score > 0);
        assert_eq!(c.name, index[c.entry].0);
        assert_eq!(c.path, index[c.entry].1);
    }
}

#[test]
fn equal_names_keep_index_order() {
    let index = index_of(&[("zlib", "a/zlib"), ("vim", "b/vim"), ("zlib", "c/zlib")]);
    let ranked = rank(&index, "zlib");
    assert_eq!(ranked[0].path, "a/zlib");
    assert_eq!(ranked[1].path, "c/zlib");
    assert_eq!(ranked[0].score, ranked[1].score);
}

#[test]
fn at_most_ten_are_offered() {
    let mut index: Vec<(String, String)> = Vec::new();
    for i in 0u32..12u32 {
        index.push(("pkg".to_string(), format!("c{}/pkg", i)));
    }
    let ranked = rank(&index, "pkg");
    assert_eq!(ranked.len(), 10);
    for (k, c) in ranked.iter().enumerate() {
        assert_eq!(c.entry, k);
        assert_eq!(c.path, format!("c{}/pkg", k));
    }
}

#[test]
fn rank_scored_orders_places() {
    assert_eq!(rank_scored(&vec![5, 0, 7]), vec![2, 0]);
    assert_eq!(rank_scored(&vec![]), Vec::<usize>::new());
    assert_eq!(rank_scored(&vec![0, 0]), Vec::<usize>::new());
    assert_eq!(rank_scored(&vec![3, 3, 9, 3]), vec![2, 0, 1, 3]);
    assert_eq!(rank_scored(&vec![1, u64::MAX]), vec![1, 0]);
    let many: Vec<u64> = (1u64..=15u64).collect();
    assert_eq!(rank_scored(&many), vec![14, 13, 12, 11, 10, 9, 8, 7, 6, 5]);
    let ties: Vec<u64> = vec![4; 13];
    assert_eq!(rank_scored(&ties), vec![0, 1, 2, 3, 4, 5, 6, 7, 8, 9]);
}

#[test]
fn category_prefix_is_dropped() {
    assert_eq!(bare_name("firefox"), "firefox");
    assert_eq!(bare_name("web/firefox"), "firefox");
    assert_eq!(bare_name("a/b/c"), "b/c");
    assert_eq!(bare_name("web/"), "");
    assert_eq!(bare_name("/x"), "x");
    assert_eq!(bare_name(""), "");
    assert_eq!(bare_name("é/ü"), "ü");
    let plain = rank(&browsers(), "firefox");
    let prefixed = rank(&browsers(), "web/firefox");
    assert_eq!(plain.len(), prefixed.len());
    for (a, b) in plain.iter().zip(prefixed.iter()) {
        assert_eq!(a.entry, b.entry);
        assert_eq!(a.score, b.score);
    }
}

#[test]
fn single_candidate_is_accepted_without_asking() {
    let index = index_of(&[("zzz", "x/zzz"), ("firefox", "web/firefox")]);
    match select_package_to_directory(index, "firefox") {
        Ok(Selection::Accept(path)) => assert_eq!(path, "web/firefox"),
        other => panic!("{:?}", other),
    }
}

#[test]
fn several_candidates_are_offered_best_first() {
    match select_package_to_directory(browsers(), "firefox") {
        Ok(Selection::Ask(offered)) => {
            assert!(offered.len() >= 2);
            let names = candidate_names(&offered);
            assert_eq!(names[0], "firefox");
            assert_eq!(names[1], "firefoxy");
            assert_eq!(names.len(), offered.len());
            assert_eq!(chosen_path(&offered, 0), Some("web/firefox".to_string()));
            assert_eq!(chosen_path(&offered, 1), Some("web/firefoxy".to_string()));
            assert_eq!(chosen_path(&offered, offered.len()), None);
        }
        other => panic!("{:?}", other),
    }
}

#[test]
fn nothing_similar_is_no_match() {
    let index = index_of(&[("zzz", "x/zzz")]);
    assert!(matches!(select_package_to_directory(index, "firefox"), Err(Failure::NoMatch)));
    assert!(matches!(select_package_to_directory(Vec::new(), "firefox"), Err(Failure::NoMatch)));
}

#[test]
fn select_ranked_decides_by_count() {
    assert!(matches!(select_ranked(Vec::new()), Err(Failure::NoMatch)));
    match select_ranked(vec![candidate(3, "vim", "editors/vim", ONE)]) {
        Ok(Selection::Accept(path)) => assert_eq!(path, "editors/vim"),
        other => panic!("{:?}", other),
    }
    let two = vec![candidate(1, "vim", "editors/vim", ONE), candidate(0, "vi", "editors/vi", 7)];
    match select_ranked(two) {
        Ok(Selection::Ask(offered)) => {
            assert_eq!(offered.len(), 2);
            assert_eq!(offered[0].name, "vim");
            assert_eq!(offered[0].entry, 1);
            assert_eq!(offered[1].path, "editors/vi");
            assert_eq!(offered[1].score, 7);
        }
        other => panic!("{:?}", other),
    }
}

#[test]
fn exact_lookup_joins_the_tree_root() {
    assert_eq!(get_package_path(browsers(), "vim", "/tree"), Ok("/tree/editors/vim".to_string()));
    assert_eq!(get_package_path(browsers(), "vim", "/tree/"), Ok("/tree/editors/vim".to_string()));
    assert_eq!(get_package_path(browsers(), "vim", ""), Ok("editors/vim".to_string()));
    let dotted = index_of(&[("vim", "./editors/vim")]);
    assert_eq!(get_package_path(dotted, "vim", "/tree"), Ok("/tree/./editors/vim".to_string()));
    let rooted = index_of(&[("vim", "/abs/vim")]);
    assert_eq!(get_package_path(rooted, "vim", "/tree"), Ok("/abs/vim".to_string()));
}

#[test]
fn exact_lookup_takes_the_first_entry_of_the_name() {
    let index = index_of(&[("zlib", "a/zlib"), ("zlib", "b/zlib")]);
    assert_eq!(get_package_path(index, "zlib", "/t"), Ok("/t/a/zlib".to_string()));
}

#[test]
fn exact_lookup_ignores_similar_names() {
    assert_eq!(get_package_path(browsers(), "firefo", "/tree"), Err(Failure::NotFound));
    assert_eq!(get_package_path(browsers(), "firefoxyz", "/tree"), Err(Failure::NotFound));
    assert_eq!(get_package_path(browsers(), "Firefox", "/tree"), Err(Failure::NotFound));
    assert_eq!(get_package_path(browsers(), "web/firefox", "/tree"), Err(Failure::NotFound));
    assert_eq!(get_package_path(browsers(), "", "/tree"), Err(Failure::NotFound));
    assert_eq!(get_package_path(Vec::new(), "vim", "/tree"), Err(Failure::NotFound));
}

#[test]
fn patches_go_below_the_package() {
    assert_eq!(
        patches_path(browsers(), "vim", "/tree"),
        Ok("/tree/editors/vim/autobuild/patches".to_string())
    );
    assert_eq!(patches_path(browsers(), "emacs", "/tree"), Err(Failure::NotFound));
}

#[test]
fn patch_plan_follows_what_stands_there() {
    let plan = add_patch("vim", browsers(), "/tree", false, false).unwrap();
    assert!(plan.create);
    assert_eq!(plan.to, "/tree/editors/vim/autobuild/patches");
    let plan = add_patch("vim", browsers(), "/tree", true, true).unwrap();
    assert!(!plan.create);
    assert_eq!(plan.to, "/tree/editors/vim/autobuild/patches");
    assert_eq!(
        add_patch("vim", browsers(), "/tree", true, false).unwrap_err(),
        Failure::NotADirectory
    );
    assert_eq!(
        add_patch("emacs", browsers(), "/tree", true, false).unwrap_err(),
        Failure::NotFound
    );
    assert_eq!(
        add_patch("emacs", browsers(), "/tree", false, false).unwrap_err(),
        Failure::NotFound
    );
}

#[test]
fn failures_have_messages() {
    assert_eq!(Failure::NotFound.message(), "Cannot find ABBS tree or package!");
    assert_eq!(Failure::PathEncoding.message(), "Cannot convert path to str!");
    assert_eq!(Failure::CacheEncoding.message(), "Cannot write the index as text!");
    assert_eq!(Failure::CorruptIndex.message(), "The index file is corrupt!");
    assert_eq!(Failure::NoMatch.message(), "No package matches!");
    assert_eq!(Failure::NotADirectory.message(), "Package patches directory not a dir!");
    assert_eq!(Failure::ProcessSpawn.message(), "Cannot start the editor!");
}

#[test]
fn search_steps() {
    assert!(matches!(get_tree("/a/b", true), Search::Found(root) if root == "/a/b"));
    assert!(matches!(get_tree("/", true), Search::Found(root) if root == "/"));
    assert!(matches!(get_tree("/a/b", false), Search::Probe(up) if up == "/a"));
    assert!(matches!(get_tree("/a", false), Search::Probe(up) if up == "/"));
    assert!(matches!(get_tree("/é/ü", false), Search::Probe(up) if up == "/é"));
    assert!(matches!(get_tree("/", false), Search::NotFound));
    assert!(matches!(get_tree("", false), Search::NotFound));
    assert!(matches!(get_tree("plain", false), Search::NotFound));
    assert_eq!(groups_path("/a/b"), "/a/b/groups");
    assert_eq!(groups_path("/"), "//groups");
}

#[test]
fn search_finds_the_nearest_root_above() {
    assert_eq!(search("/home/u/tree/cat/pkg", &["/home/u/tree"]), Some("/home/u/tree".to_string()));
    assert_eq!(search("/home/u/tree", &["/home/u/tree"]), Some("/home/u/tree".to_string()));
    assert_eq!(search("/home/u/tree/cat", &["/home", "/home/u/tree"]), Some("/home/u/tree".to_string()));
    assert_eq!(search("/home/u", &["/"]), Some("/".to_string()));
    assert_eq!(search("/home/u/other", &["/home/u/tree"]), None);
    assert_eq!(search("/", &[]), None);
}
