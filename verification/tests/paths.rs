use tar_entry::path::{
    components, has_root, join, normalize, parent, render, same_component, starts_with, Component,
};
use tar_entry::unpack_in::destination;

fn shown(path: &[u8]) -> Vec<String> {
    components(path)
        .iter()
        .map(|c| match c {
            Component::RootDir => "/".to_string(),
            Component::CurDir => ".".to_string(),
            Component::ParentDir => "..".to_string(),
            Component::Normal(name) => String::from_utf8_lossy(name).to_string(),
        })
        .collect()
}

#[test]
fn components_of_paths() {
    assert!(shown(b"").is_empty());
    assert_eq!(shown(b"/"), ["/"]);
    assert_eq!(shown(b"."), ["."]);
    assert_eq!(shown(b"./a/./b//c/"), [".", "a", "b", "c"]);
    assert_eq!(shown(b"//a/../.b/..c/..."), ["/", "a", "..", ".b", "..c", "..."]);
    assert_eq!(shown(b"../x"), ["..", "x"]);
    assert_eq!(shown(b"a\\b"), ["a\\b"]);
}

#[test]
fn components_are_written_and_read() {
    for path in ["", "/", ".", "a", "/a/b", "./a", "../../a", "a/../b"] {
        let list = components(path.as_bytes());
        assert_eq!(render(&list), path.as_bytes());
        let again = components(&render(&list));
        assert!(list.iter().zip(&again).all(|(a, b)| same_component(a, b)));
    }
    assert_eq!(render(&components(b"//a//./b/")), b"/a/b");
    assert!(!same_component(&Component::CurDir, &Component::ParentDir));
}

#[test]
fn prefixes_are_whole_components() {
    assert!(starts_with(b"/dst/a", b"/dst"));
    assert!(starts_with(b"/dst", b"/dst/"));
    assert!(!starts_with(b"/dstx/a", b"/dst"));
    assert!(!starts_with(b"/", b"/dst"));
    assert!(!starts_with(b"dst/a", b"/dst"));
    assert!(starts_with(b"anything", b""));
}

#[test]
fn joined_paths() {
    assert_eq!(join(b"/dst", b"a/b"), b"/dst/a/b");
    assert_eq!(join(b"/dst/", b"a"), b"/dst/a");
    assert_eq!(join(b"", b"a"), b"a");
    assert_eq!(join(b"/dst", b"/a"), b"/a");
    assert_eq!(join(b"/dst", b""), b"/dst/");
    assert!(has_root(b"/a") && !has_root(b"a") && !has_root(b""));
}

#[test]
fn parents() {
    assert_eq!(parent(b"/a/b").unwrap(), b"/a");
    assert_eq!(parent(b"/a//b/./").unwrap(), b"/a");
    assert_eq!(parent(b"/a").unwrap(), b"/");
    assert_eq!(parent(b"a").unwrap(), b"");
    assert_eq!(parent(b"../..").unwrap(), b"..");
    assert_eq!(parent(b"/"), None);
    assert_eq!(parent(b""), None);
}

#[test]
fn normal_forms() {
    assert_eq!(normalize(b"a/b/../c").unwrap(), b"a/c");
    assert_eq!(normalize(b"./a/.").unwrap(), b"a");
    assert_eq!(normalize(b"a/..").unwrap(), b"");
    assert_eq!(normalize(b"../a/../..").unwrap(), b"../..");
    assert_eq!(normalize(b"/a/../b").unwrap(), b"/b");
    assert_eq!(normalize(b"/.."), None);
    assert_eq!(normalize(b"/a/../../b/c"), None);
    for path in ["a/b/../c", "../a/../..", "/a/./b", ""] {
        let once = normalize(path.as_bytes()).unwrap();
        assert_eq!(normalize(&once).unwrap(), once);
    }
}

#[test]
fn destinations() {
    let at = |path: &[u8]| destination(path, b"/dst");
    assert_eq!(at(b"a/b").unwrap(), b"/dst/a/b");
    assert_eq!(at(b"/a//./b/").unwrap(), b"/dst/a/b");
    assert_eq!(at(b"./a").unwrap(), b"/dst/a");
    assert_eq!(at(b"a/../b"), None);
    assert_eq!(at(b".."), None);
    assert_eq!(at(b""), None);
    assert_eq!(at(b"./"), None);
    assert_eq!(at(b"///"), None);
    assert_eq!(destination(b"a", b"").unwrap(), b"a");
    assert_eq!(destination(b"a", b"/").unwrap(), b"/a");
}
