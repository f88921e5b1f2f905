use bakka::error::Failure;
use bakka::index::{build_index, cache_text, gen_abbs_index, read_index, Loaded, WalkEntry};

fn entry(depth: usize, is_dir: bool, name: &str, path: &str) -> WalkEntry {
    WalkEntry { depth, is_dir, name: Some(name.to_string()), path: Some(path.to_string()) }
}

fn pairs(list: &[(&str, &str)]) -> Vec<(String, String)> {
    list.iter().map(|(n, p)| (n.to_string(), p.to_string())).collect()
}

fn small_tree() -> Vec<WalkEntry> {
    vec![
        entry(0, true, "tree", ""),
        entry(1, true, "web", "web"),
        entry(2, true, "firefox", "web/firefox"),
        entry(3, true, "autobuild", "web/firefox/autobuild"),
        entry(4, false, "defines", "web/firefox/autobuild/defines"),
        entry(2, false, "README", "web/README"),
        entry(1, false, "LICENSE", "LICENSE"),
        entry(1, true, "editors", "editors"),
        entry(2, true, "vim", "editors/vim"),
        entry(2, true, "emacs", "editors/emacs"),
        entry(1, true, "groups", "groups"),
        entry(2, false, "base", "groups/base"),
    ]
}

#[test]
fn index_holds_the_directories_at_depth_two() {
    assert_eq!(
        gen_abbs_index(small_tree()),
        Ok(pairs(&[
            ("firefox", "web/firefox"),
            ("vim", "editors/vim"),
            ("emacs", "editors/emacs"),
        ]))
    );
}

#[test]
fn index_of_nothing_is_empty() {
    assert_eq!(gen_abbs_index(Vec::new()), Ok(Vec::new()));
    assert_eq!(gen_abbs_index(vec![entry(0, true, "tree", "")]), Ok(Vec::new()));
    assert_eq!(
        gen_abbs_index(vec![entry(1, true, "a", "a"), entry(3, true, "c", "a/b/c")]),
        Ok(Vec::new())
    );
    assert_eq!(gen_abbs_index(vec![entry(2, false, "f", "a/f")]), Ok(Vec::new()));
}

#[test]
fn names_may_repeat_across_categories() {
    let walk = vec![entry(2, true, "zlib", "a/zlib"), entry(2, true, "zlib", "b/zlib")];
    assert_eq!(gen_abbs_index(walk), Ok(pairs(&[("zlib", "a/zlib"), ("zlib", "b/zlib")])));
}

#[test]
fn package_without_text_name_is_an_error() {
    let mut walk = small_tree();
    walk.push(WalkEntry { depth: 2, is_dir: true, name: None, path: Some("x/y".to_string()) });
    assert_eq!(gen_abbs_index(walk), Err(Failure::PathEncoding));
    let mut walk = small_tree();
    walk.insert(0, WalkEntry { depth: 2, is_dir: true, name: Some("y".to_string()), path: None });
    assert_eq!(gen_abbs_index(walk), Err(Failure::PathEncoding));
    assert!(matches!(build_index(vec![WalkEntry {
        depth: 2,
        is_dir: true,
        name: None,
        path: None
    }]), Err(Failure::PathEncoding)));
}

#[test]
fn other_entries_need_no_text_name() {
    let walk = vec![
        WalkEntry { depth: 1, is_dir: true, name: None, path: None },
        WalkEntry { depth: 2, is_dir: false, name: None, path: None },
        WalkEntry { depth: 3, is_dir: true, name: None, path: None },
        entry(2, true, "vim", "editors/vim"),
    ];
    assert_eq!(gen_abbs_index(walk), Ok(pairs(&[("vim", "editors/vim")])));
}

#[test]
fn cache_text_is_json() {
    assert_eq!(cache_text(&Vec::new()), Ok("[]".to_string()));
    assert_eq!(
        cache_text(&pairs(&[("vim", "editors/vim"), ("a\"b", "x/a\"b")])),
        Ok("[[\"vim\",\"editors/vim\"],[\"a\\\"b\",\"x/a\\\"b\"]]".to_string())
    );
}

#[test]
fn cache_is_read_as_json() {
    let bytes: Vec<u8> = b" [ [\"vim\", \"editors/vim\"],\n [\"gcc\", \"devel/gcc\"] ] ".to_vec();
    match read_index(Some(bytes)) {
        Ok(Loaded::Index(index)) => {
            assert_eq!(index, pairs(&[("vim", "editors/vim"), ("gcc", "devel/gcc")]))
        }
        other => panic!("{:?}", other),
    }
    match read_index(Some(b"[]".to_vec())) {
        Ok(Loaded::Index(index)) => assert!(index.is_empty()),
        other => panic!("{:?}", other),
    }
}

#[test]
fn missing_cache_asks_for_a_rebuild() {
    assert!(matches!(read_index(None), Ok(Loaded::Rebuild)));
}

#[test]
fn corrupt_cache_is_an_error() {
    let broken: Vec<&[u8]> = vec![
        b"",
        b"{",
        b"[[\"vim\"]]",
        b"[[\"vim\",\"a\",\"b\"]]",
        b"[[\"vim\",1]]",
        b"{\"vim\":\"editors/vim\"}",
        b"[[\"vim\",\"editors/vim\"]",
        b"[[\"vim\",\"editors/vim\"]] x",
        b"\xff\xfe",
        b"null",
    ];
    for bytes in broken {
        assert!(matches!(read_index(Some(bytes.to_vec())), Err(Failure::CorruptIndex)));
    }
}

#[test]
fn load_after_build_gives_the_same_index() {
    let built = build_index(small_tree()).unwrap();
    assert_eq!(built.index, gen_abbs_index(small_tree()).unwrap());
    assert_eq!(Ok(built.cache.clone()), cache_text(&built.index));
    match read_index(Some(built.cache.into_bytes())) {
        Ok(Loaded::Index(index)) => assert_eq!(index, built.index),
        other => panic!("{:?}", other),
    }
}

#[test]
fn odd_names_survive_the_cache() {
    let index = pairs(&[
        ("", ""),
        ("a b", "x/a b"),
        ("q\"uote", "x/q\"uote"),
        ("back\\slash", "x/back\\slash"),
        ("new\nline", "x/new\nline"),
        ("tab\t", "x/tab\t"),
        ("\u{0}\u{1f}", "x/ctl"),
        ("über", "x/über"),
        ("名前", "x/名前"),
        ("😀", "x/😀"),
    ]);
    let text = cache_text(&index).unwrap();
    match read_index(Some(text.into_bytes())) {
        Ok(Loaded::Index(read)) => assert_eq!(read, index),
        other => panic!("{:?}", other),
    }
}

#[test]
fn load_without_cache_is_a_build() {
    let loaded = match read_index(None) {
        Ok(Loaded::Index(index)) => index,
        Ok(Loaded::Rebuild) => build_index(small_tree()).unwrap().index,
        Err(e) => panic!("{:?}", e),
    };
    assert_eq!(loaded, build_index(small_tree()).unwrap().index);
}
