use mdlive::order::sort;
use mdlive::path::{
    has_component, path_at_most, path_extension, path_file_name, path_join, path_key_below,
    path_parent, path_strip_prefix, same_bytes,
};
use std::path::Path;

const PATHS: [&str; 24] = [
    "", "/", ".", "..", "a", "/a", "a/", "a/b", "/a/b", "a//b", "./a", "a/.", "a/./b", "a/..",
    "../a", "//a", "a/b/", "a/b/.", ".a", "a.b", ".a.b", "a.", "..a", "a/b.c/",
];

fn std_path(s: &str) -> &Path {
    Path::new(s)
}

fn bytes(path: &Path) -> &[u8] {
    path.to_str().unwrap().as_bytes()
}

#[test]
fn file_names_are_those_of_std() {
    for p in PATHS {
        assert_eq!(
            path_file_name(p.as_bytes()),
            std_path(p).file_name().map(|n| bytes(Path::new(n))),
            "{p:?}"
        );
    }
}

#[test]
fn extensions_are_those_of_std() {
    for p in PATHS {
        assert_eq!(
            path_extension(p.as_bytes()),
            std_path(p).extension().map(|n| bytes(Path::new(n))),
            "{p:?}"
        );
    }
}

#[test]
fn parents_are_those_of_std() {
    for p in PATHS {
        assert_eq!(
            path_parent(p.as_bytes()),
            std_path(p).parent().map(bytes),
            "{p:?}"
        );
    }
}

#[test]
fn prefixes_are_stripped_as_by_std() {
    for p in PATHS {
        for base in PATHS {
            assert_eq!(
                path_strip_prefix(p.as_bytes(), base.as_bytes()),
                std_path(p).strip_prefix(base).ok().map(bytes),
                "{p:?} {base:?}"
            );
        }
    }
}

#[test]
fn paths_are_joined_as_by_std() {
    for p in PATHS {
        for base in PATHS {
            assert_eq!(
                path_join(base.as_bytes(), p.as_bytes()),
                bytes(&std_path(base).join(p)),
                "{base:?} {p:?}"
            );
        }
    }
}

#[test]
fn paths_are_ordered_as_by_std() {
    for p in PATHS {
        for q in PATHS {
            assert_eq!(
                path_at_most(p.as_bytes(), q.as_bytes()),
                std_path(p) <= std_path(q),
                "{p:?} {q:?}"
            );
        }
    }
}

#[test]
fn sorting_is_stable_and_by_order() {
    let sorted = sort(vec!["b".to_string(), "a".to_string(), "ab".to_string(), "a".to_string()]);
    assert_eq!(sorted, vec!["a", "a", "ab", "b"]);
    let level = vec![b"b".to_vec(), b"a//b".to_vec(), b"a/b".to_vec(), b"a/./b".to_vec()];
    assert_eq!(
        sort(level),
        vec![b"a//b".to_vec(), b"a/b".to_vec(), b"a/./b".to_vec(), b"b".to_vec()]
    );
    let empty: Vec<String> = sort(vec![]);
    assert!(empty.is_empty());
}

#[test]
fn keys_are_paths_below_the_base() {
    assert_eq!(path_key_below(b"/base", b"/base/sub/a.md"), "sub/a.md");
    assert_eq!(path_key_below(b"/base/", b"/base//a.md"), "a.md");
    assert_eq!(path_key_below(b"/base", b"/elsewhere/a.md"), "/elsewhere/a.md");
    assert_eq!(path_key_below(b"/base", b"/base"), "");
    assert_eq!(path_key_below(b"/base", b"/base/\xff.md"), "\u{fffd}.md");
}

#[test]
fn a_joined_tidy_path_is_stripped_again() {
    for base in ["", "/", "/a", "a/b/", "."] {
        for key in ["x", "x/y.md", "x//y", "x/./y", "..", "./.."] {
            if base.is_empty() || !key.starts_with("./") {
                let joined = path_join(base.as_bytes(), key.as_bytes());
                assert_eq!(
                    path_strip_prefix(&joined, base.as_bytes()),
                    Some(key.as_bytes()),
                    "{base:?} {key:?}"
                );
            }
        }
    }
}

#[test]
fn components_are_found_whole() {
    assert!(has_component(b"/a/.mdlive/b", b".mdlive"));
    assert!(!has_component(b"/a/.mdlivex/b", b".mdlive"));
    assert!(has_component(b"/a", b"/"));
    assert!(same_bytes(b"ab", b"ab"));
    assert!(!same_bytes(b"ab", b"abc"));
}

#[test]
fn what_is_left_of_a_path_leads_back_to_it() {
    let mut met: usize = 0;
    for p in PATHS {
        for base in PATHS {
            if let Some(rest) = path_strip_prefix(p.as_bytes(), base.as_bytes()) {
                let back = String::from_utf8(path_join(base.as_bytes(), rest)).unwrap();
                let parts: Vec<_> = std_path(&back).components().collect();
                assert_eq!(parts, std_path(p).components().collect::<Vec<_>>(), "{p:?} {base:?}");
                met += 1;
            }
        }
    }
    assert!(met > PATHS.len());
    let rest = path_strip_prefix(b"/a//b/./c/", b"/a/").unwrap();
    assert_eq!(rest, b"b/./c");
    assert_eq!(path_join(b"/a/", rest), b"/a/b/./c");
}
