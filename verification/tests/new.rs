use bakka::error::Failure;
use bakka::index::WalkEntry;
use bakka::new::{category_name, get_all_category_in_tree, new_package};

fn entry(depth: usize, is_dir: bool, name: &str) -> WalkEntry {
    WalkEntry { depth, is_dir, name: Some(name.to_string()), path: Some(name.to_string()) }
}

#[test]
fn categories_are_the_plain_top_directories_by_name() {
    let walk = vec![
        entry(0, true, "tree"),
        entry(1, true, "web"),
        entry(1, true, ".git"),
        entry(1, true, "groups"),
        entry(1, true, "assets"),
        entry(1, false, "README"),
        entry(1, true, "editors"),
        entry(2, true, "vim"),
        entry(1, true, "Xorg"),
        entry(1, true, "assets2"),
    ];
    assert_eq!(
        get_all_category_in_tree(walk),
        Ok(vec!["Xorg".to_string(), "assets2".to_string(), "editors".to_string(), "web".to_string()])
    );
    assert_eq!(get_all_category_in_tree(Vec::new()), Ok(Vec::new()));
}

#[test]
fn top_directory_without_text_name_is_an_error() {
    let walk = vec![
        entry(1, true, "web"),
        WalkEntry { depth: 1, is_dir: true, name: None, path: None },
    ];
    assert_eq!(get_all_category_in_tree(walk), Err(Failure::PathEncoding));
    let walk = vec![
        entry(1, true, "web"),
        WalkEntry { depth: 1, is_dir: false, name: None, path: None },
        WalkEntry { depth: 2, is_dir: true, name: None, path: None },
    ];
    assert_eq!(get_all_category_in_tree(walk), Ok(vec!["web".to_string()]));
}

#[test]
fn category_names() {
    assert!(category_name("web"));
    assert!(category_name(""));
    assert!(category_name("group"));
    assert!(category_name("groupss"));
    assert!(category_name("a.b"));
    assert!(!category_name(".git"));
    assert!(!category_name("."));
    assert!(!category_name("assets"));
    assert!(!category_name("groups"));
}

#[test]
fn new_package_goes_into_the_chosen_category() {
    let category = vec!["editors".to_string(), "web".to_string()];
    assert_eq!(new_package("vim", "/tree", &category, 0), Some("/tree/editors/vim".to_string()));
    assert_eq!(new_package("curl", "/tree/", &category, 1), Some("/tree/web/curl".to_string()));
    assert_eq!(new_package("curl", "/tree", &category, 2), None);
    assert_eq!(new_package("curl", "/tree", &Vec::new(), 0), None);
}
