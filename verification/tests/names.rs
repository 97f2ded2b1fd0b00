use std::path::Path;

use file_snapshots::paths::{
    file_name, join, names_below, parent, parts, path_key, relative_to, starts_with,
};
use file_snapshots::table::{NameSet, Table};
use file_snapshots::text::{decimal_of, rank, same, Rank};

#[test]
fn components_are_compared_and_not_text() {
    assert!(starts_with("/work/a", "/work"));
    assert!(starts_with("/work", "/work/"));
    assert!(starts_with("/work/./a//b", "/work/a"));
    assert!(!starts_with("/workshop", "/work"));
    assert!(!starts_with("work/a", "/work"));
    assert!(starts_with("/a", ""));
    assert!(starts_with("/a", "/"));
}

#[test]
fn paths_agree_with_the_standard_library() {
    let all = [
        "", "/", "a", "a/", "/a", "/a/", "a/b", "/a/b", "./a", ".", "..", "../a", "a/..", "a/.", "/.",
        "/..", "//a//b//", "a/./b", "a/../b", "/a/b/c.txt", "./", "a.b",
    ];
    for a in all {
        let p = Path::new(a);
        assert_eq!(parent(a).map(|q| parts(&q)), p.parent().map(|q| parts(q.to_str().unwrap())), "parent of {a:?}");
        assert_eq!(file_name(a), p.file_name().map(|n| n.to_str().unwrap().to_string()), "name of {a:?}");
        let std_parts: Vec<String> =
            p.components().map(|c| c.as_os_str().to_str().unwrap().to_string()).collect();
        assert_eq!(parts(a), std_parts, "components of {a:?}");
        for b in all {
            let q = Path::new(b);
            assert_eq!(starts_with(a, b), p.starts_with(q), "{a:?} {b:?}");
            assert_eq!(Path::new(&join(a, b)), p.join(q).as_path(), "{a:?} {b:?}");
            assert_eq!(join(a, b), p.join(q).to_str().unwrap(), "{a:?} {b:?}");
            assert_eq!(path_key(a).cmp(&path_key(b)), p.cmp(q), "order of {a:?} {b:?}");
        }
    }
}

#[test]
fn a_path_is_spelled_from_its_base() {
    assert_eq!(relative_to("/ws/a//b", "/ws/"), Some("a/b".to_string()));
    assert_eq!(relative_to("/ws", "/ws"), Some(String::new()));
    assert_eq!(relative_to("/x/y", ""), Some("x/y".to_string()));
    assert_eq!(relative_to("/wsx", "/ws"), None);
    assert_eq!(names_below("/ws/a/b", "/ws"), Some(vec!["a".to_string(), "b".to_string()]));
}

#[test]
fn strings_rank_by_their_characters() {
    assert_eq!(rank("a", "b"), Rank::Before);
    assert_eq!(rank("b", "a"), Rank::After);
    assert_eq!(rank("a", "a"), Rank::Same);
    assert_eq!(rank("a", "ab"), Rank::Before);
    assert_eq!(rank("\u{e9}", "z"), Rank::After);
    assert!(same("", ""));
    assert_eq!(decimal_of(0), "0");
    assert_eq!(decimal_of(u64::MAX), u64::MAX.to_string());
}

#[test]
fn a_table_keeps_its_names_in_order() {
    let mut t: Table<String> = Table::new();
    assert!(t.is_empty());
    for k in ["b", "a", "c", "a"] {
        t.insert(k.to_string(), format!("v{k}"));
    }
    assert_eq!(t.len(), 3);
    assert_eq!((t.key_at(0).as_str(), t.value_at(0).as_str()), ("a", "va"));
    assert_eq!(t.key_at(2), "c");
    assert_eq!(t.insert("b".to_string(), "new".to_string()), Some("vb".to_string()));
    assert_eq!(t.get("b"), Some(&"new".to_string()));
    assert_eq!(t.remove("b"), Some("new".to_string()));
    assert_eq!(t.remove("b"), None);
    assert!(!t.contains_key("b"));
    assert_eq!(t.keys().len(), 2);
    assert_eq!(t.clone(), t);
}

#[test]
fn a_set_holds_each_name_once() {
    let mut s = NameSet::new();
    assert!(s.insert("x".to_string()));
    assert!(!s.insert("x".to_string()));
    assert!(s.contains("x"));
    assert_eq!((s.len(), s.at(0).as_str()), (1, "x"));
    assert!(s.remove("x"));
    assert!(!s.remove("x"));
    assert!(s.is_empty());
}
