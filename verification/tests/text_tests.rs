use embassy_devtool::text::{
    chars_of, contains, copy_texts, ends_with, holds_text, join, less_than, matches_at, replace, same_text,
    starts_with, unique_texts,
};
use embassy_devtool::windows_safe_path;

fn strings(items: &[&str]) -> Vec<String> {
    items.iter().map(|s| s.to_string()).collect()
}

#[test]
fn chars_of_lists_unicode_scalars() {
    assert_eq!(chars_of(""), Vec::<char>::new());
    assert_eq!(chars_of("aé✓"), vec!['a', 'é', '✓']);
}

#[test]
fn matches_at_checks_one_position() {
    let s = chars_of("embassy-net");
    let p = chars_of("net");
    assert!(matches_at(&s, &p, 8));
    assert!(!matches_at(&s, &p, 7));
    assert!(!matches_at(&s, &p, 9));
    assert!(!matches_at(&s, &p, 100));
    assert!(matches_at(&s, &chars_of(""), 11));
    assert!(!matches_at(&s, &chars_of(""), 12));
}

#[test]
fn starts_with_agrees_with_std() {
    for (s, p) in [("embassy-net", "embassy-"), ("embassy", "embassy-"), ("", ""), ("a", ""), ("", "a"), ("cyw43-pio", "cyw43")] {
        assert_eq!(starts_with(s, p), s.starts_with(p), "{:?} {:?}", s, p);
    }
}

#[test]
fn ends_with_agrees_with_std() {
    for (s, p) in [("a/.DS_Store", "/.DS_Store"), (".DS_Store", "/.DS_Store"), ("", ""), ("abc", "bc"), ("abc", "abcd"), ("abc", "")] {
        assert_eq!(ends_with(s, p), s.ends_with(p), "{:?} {:?}", s, p);
    }
}

#[test]
fn contains_agrees_with_std() {
    for (s, p) in [
        ("a/target/b", "/target/"),
        ("a/target", "/target/"),
        ("/target/", "/target/"),
        ("", ""),
        ("abc", ""),
        ("", "a"),
        ("aab", "ab"),
        ("ababab", "bab"),
        ("abc", "abcd"),
    ] {
        assert_eq!(contains(s, p), s.contains(p), "{:?} {:?}", s, p);
    }
}

#[test]
fn replace_agrees_with_std() {
    for (s, from, to) in [
        ("embassy-net-driver", "-", "_"),
        ("", "-", "_"),
        ("---", "-", ""),
        ("aaa", "aa", "b"),
        ("abcabc", "bc", "xyz"),
        ("no match", "zz", "y"),
        ("é-ü", "-", "—"),
    ] {
        assert!(!from.is_empty());
        assert_eq!(replace(s, from, to), s.replace(from, to), "{:?} {:?} {:?}", s, from, to);
    }
}

#[test]
fn join_agrees_with_std() {
    assert_eq!(join(&strings(&[]), ","), "");
    assert_eq!(join(&strings(&["a"]), ","), "a");
    assert_eq!(join(&strings(&["a", "b", "c"]), ","), "a,b,c");
    assert_eq!(join(&strings(&["", ""]), " "), " ");
    assert_eq!(join(&strings(&["x", "y"]), "--"), "x--y");
}

#[test]
fn less_than_is_the_order_of_strings() {
    let samples = ["", "a", "ab", "b", "embassy-net", "embassy-net-driver", "embassy", "Z", "é", "z"];
    for a in samples {
        for b in samples {
            assert_eq!(less_than(a, b), a < b, "{:?} {:?}", a, b);
        }
    }
}

#[test]
fn same_text_and_holds_text() {
    assert!(same_text("abc", "abc"));
    assert!(!same_text("abc", "abd"));
    assert!(!same_text("abc", "ab"));
    let list = strings(&["one", "two"]);
    assert!(holds_text(&list, "two"));
    assert!(!holds_text(&list, "three"));
    assert_eq!(copy_texts(&list), list);
}

#[test]
fn windows_safe_path_strips_the_verbatim_marker() {
    assert_eq!(windows_safe_path(r"\\?\C:\work\embassy"), r"C:\work\embassy");
    assert_eq!(windows_safe_path("/home/user/embassy"), "/home/user/embassy");
    assert_eq!(windows_safe_path(r"\\?\"), "");
    assert_eq!(windows_safe_path(r"a\\?\b\\?\c"), "abc");
    assert_eq!(windows_safe_path(r"\\\?\x"), r"\x");
}

#[test]
fn unique_texts_keeps_first_occurrences() {
    assert_eq!(unique_texts(&strings(&["b", "a", "b", "c", "a"])), strings(&["b", "a", "c"]));
    assert_eq!(unique_texts(&strings(&[])), Vec::<String>::new());
}

#[test]
fn replace_with_an_empty_pattern_changes_nothing() {
    assert_eq!(replace("abc", "", "x"), "abc");
    assert_eq!(replace("", "", "x"), "");
}
