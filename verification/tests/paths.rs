use slipspace::path::{
    is_rooted, join_path, parent_path, path_components, path_file_name, path_lead_len, path_spans,
    same_path, strip_prefix,
};
use std::path::Path;

const TEXTS: [&str; 34] = [
    "", "/", "//", ".", "./", "..", "../", "/.", "/..", "a", "a/", "/a", "/a/", "//a//b//", "a/b",
    "./a", "./a/b", "a/./b", "a/../b", "/a/b/c", "/a/b/c/", "/a/./b", "a/.", "a/..", ".a", "..a",
    "a.b", "a.b.c", "/srv/data", "/srv/data/x y", "/srv/data/ü", "./.", "/./a", ".//a",
];

fn text_of(p: &Path) -> Vec<u8> {
    p.to_str().unwrap().as_bytes().to_vec()
}

fn std_components(t: &str) -> Vec<Vec<u8>> {
    Path::new(t)
        .components()
        .map(|c| c.as_os_str().to_str().unwrap().as_bytes().to_vec())
        .collect()
}

#[test]
fn components_are_those_of_std() {
    for t in TEXTS {
        assert_eq!(path_components(t.as_bytes()), std_components(t), "{:?}", t);
    }
}

#[test]
fn sameness_is_that_of_std() {
    for t in TEXTS {
        for u in TEXTS {
            assert_eq!(
                same_path(t.as_bytes(), u.as_bytes()),
                Path::new(t) == Path::new(u),
                "{:?} {:?}",
                t,
                u
            );
        }
    }
}

#[test]
fn joining_is_that_of_std() {
    for t in TEXTS {
        for u in TEXTS {
            assert_eq!(
                join_path(t.as_bytes(), u.as_bytes()),
                text_of(&Path::new(t).join(u)),
                "{:?} {:?}",
                t,
                u
            );
        }
    }
}

#[test]
fn parents_are_those_of_std() {
    for t in TEXTS {
        assert_eq!(
            parent_path(t.as_bytes()),
            Path::new(t).parent().map(text_of),
            "{:?}",
            t
        );
    }
}

#[test]
fn file_names_are_those_of_std() {
    for t in TEXTS {
        assert_eq!(
            path_file_name(t.as_bytes()),
            Path::new(t).file_name().map(|n| n.to_str().unwrap().as_bytes().to_vec()),
            "{:?}",
            t
        );
    }
}

#[test]
fn stripping_is_that_of_std() {
    for t in TEXTS {
        for u in TEXTS {
            assert_eq!(
                strip_prefix(t.as_bytes(), u.as_bytes()),
                Path::new(t).strip_prefix(u).ok().map(text_of),
                "{:?} {:?}",
                t,
                u
            );
        }
    }
}

#[test]
fn roots_are_those_of_std() {
    for t in TEXTS {
        assert_eq!(is_rooted(t.as_bytes()), Path::new(t).is_absolute(), "{:?}", t);
    }
    assert_eq!(path_lead_len(b"/a"), 1);
    assert_eq!(path_lead_len(b"./a"), 1);
    assert_eq!(path_lead_len(b"a"), 0);
}

#[test]
fn names_have_places() {
    assert_eq!(path_spans(b"/ab//c/"), vec![(1, 3), (5, 6)]);
    assert_eq!(path_spans(b"/"), Vec::<(usize, usize)>::new());
}

#[test]
fn joining_adds_names() {
    // What is joined behind a path adds its names to the components.
    let joined = join_path(b"/srv/data/", b"a//b");
    assert_eq!(
        path_components(&joined),
        vec![b"/".to_vec(), b"srv".to_vec(), b"data".to_vec(), b"a".to_vec(), b"b".to_vec()]
    );
}

#[test]
fn stripping_and_joining_gives_the_path_back() {
    let rest = strip_prefix(b"/srv//data/a/b", b"/srv/data").unwrap();
    assert_eq!(rest, b"a/b".to_vec());
    assert!(same_path(&join_path(b"/srv/data", &rest), b"/srv/data/a/b"));
    // With no base nothing is taken away.
    assert_eq!(strip_prefix(b"/a/b/", b"").unwrap(), b"/a/b".to_vec());
}

#[test]
fn a_parent_lacks_the_last_component() {
    let p = b"/srv/data/a";
    let up = parent_path(p).unwrap();
    let mut cs = path_components(p);
    cs.pop();
    assert_eq!(path_components(&up), cs);
    assert_eq!(parent_path(b"/"), None);
    assert_eq!(parent_path(b""), None);
}
