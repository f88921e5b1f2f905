use bakka::order::{stable_order, Ranked};
use bakka::path::{join_path, parent_path};
use bakka::text::{chars_of, find_first, find_last, text_le};
use bakka::tree::Score;

fn strings(list: &[&str]) -> Vec<String> {
    list.iter().map(|s| s.to_string()).collect()
}

#[test]
fn chars_are_those_of_the_text() {
    assert_eq!(chars_of(""), Vec::<char>::new());
    assert_eq!(chars_of("a/ü😀"), vec!['a', '/', 'ü', '😀']);
}

#[test]
fn first_and_last_places() {
    let chars: Vec<char> = "a/b/c".chars().collect();
    assert_eq!(find_first(&chars, '/'), 1);
    assert_eq!(find_last(&chars, '/'), Some(3));
    assert_eq!(find_first(&chars, 'a'), 0);
    assert_eq!(find_last(&chars, 'c'), Some(4));
    assert_eq!(find_first(&chars, 'x'), 5);
    assert_eq!(find_last(&chars, 'x'), None);
    assert_eq!(find_first(&Vec::new(), 'x'), 0);
    assert_eq!(find_last(&Vec::new(), 'x'), None);
}

#[test]
fn dictionary_order_is_that_of_strings() {
    let words = ["", "a", "A", "ab", "abc", "b", "ä", "z", "é", "😀", "a😀", "a\u{0}", "aa", " "];
    for a in words {
        for b in words {
            assert_eq!(text_le(a, b), a <= b, "{:?} {:?}", a, b);
            assert_eq!(a.to_string().no_later_than(&b.to_string()), a <= b);
        }
    }
}

#[test]
fn stable_order_sorts_and_keeps_ties() {
    assert_eq!(stable_order(&strings(&["b", "a", "c", "a"])), vec![1, 3, 0, 2]);
    assert_eq!(stable_order(&Vec::<String>::new()), Vec::<usize>::new());
    assert_eq!(stable_order(&strings(&["x"])), vec![0]);
    assert_eq!(stable_order(&strings(&["c", "b", "a"])), vec![2, 1, 0]);
    assert_eq!(stable_order(&strings(&["a", "b", "c"])), vec![0, 1, 2]);
    let scores: Vec<Score> = vec![Score(1), Score(3), Score(3), Score(0), Score(9)];
    assert_eq!(stable_order(&scores), vec![4, 1, 2, 0, 3]);
}

#[test]
fn stable_order_agrees_with_a_stable_sort() {
    let mut seed: u32 = 12345;
    for round in 0u32..200u32 {
        let len: usize = (round % 17) as usize;
        let mut items: Vec<String> = Vec::new();
        for _ in 0usize..len {
            seed = seed.wrapping_mul(1664525).wrapping_add(1013904223);
            items.push(format!("{}", (seed >> 24) % 5));
        }
        let mut expected: Vec<usize> = (0usize..len).collect();
        expected.sort_by(|a, b| items[*a].cmp(&items[*b]));
        assert_eq!(stable_order(&items), expected);
    }
}

#[test]
fn joining_paths() {
    assert_eq!(join_path("/tree", "web/firefox"), "/tree/web/firefox");
    assert_eq!(join_path("/tree/", "web"), "/tree/web");
    assert_eq!(join_path("/tree", "/abs"), "/abs");
    assert_eq!(join_path("", "rel"), "rel");
    assert_eq!(join_path("/tree", ""), "/tree/");
    assert_eq!(join_path("/", "a"), "/a");
    assert_eq!(join_path("/trée", "ü"), "/trée/ü");
    let cases = [("/tree", "a/b"), ("/tree/", "a"), ("/t", "/x"), ("", "r"), ("/t", ""), ("/", "a")];
    for (base, path) in cases {
        let by_std = std::path::Path::new(base).join(path);
        assert_eq!(join_path(base, path), by_std.to_str().unwrap());
    }
}

#[test]
fn parents_of_paths() {
    assert_eq!(parent_path("/a/b/c"), Some("/a/b".to_string()));
    assert_eq!(parent_path("/a"), Some("/".to_string()));
    assert_eq!(parent_path("/"), None);
    assert_eq!(parent_path(""), None);
    assert_eq!(parent_path("name"), None);
    assert_eq!(parent_path("/ü/é"), Some("/ü".to_string()));
    for path in ["/a/b/c", "/a", "/", "/usr/share/x y", "/ü/é"] {
        let by_std = std::path::Path::new(path).parent().map(|p| p.to_str().unwrap().to_string());
        assert_eq!(parent_path(path), by_std);
    }
}
