use slipspace::handles::Handles;
use slipspace::pathset::{InodeTable, PathSet, Versions};

#[test]
fn a_set_holds_each_path_once() {
    let mut s = PathSet::new();
    assert!(s.insert(b"/a/b"));
    assert!(!s.insert(b"/a//b/"));
    assert!(s.insert(b"a/b"));
    assert_eq!(s.len(), 2);
    assert_eq!(s.text(0), &b"/a/b".to_vec());
    assert!(s.contains(b"/a/./b"));
    assert!(!s.contains(b"/a"));
    assert!(s.remove(b"/a/b/"));
    assert!(!s.remove(b"/a/b"));
    assert!(!s.contains(b"/a/b"));
    assert!(s.contains(b"a/b"));
}

#[test]
fn a_set_is_taken_from_a_set() {
    let mut s = PathSet::new();
    let mut t = PathSet::new();
    for p in ["/a", "/b", "/c"] {
        s.insert(p.as_bytes());
    }
    for p in ["/b/", "/d"] {
        t.insert(p.as_bytes());
    }
    s.remove_all(&t);
    assert_eq!(s.len(), 2);
    assert!(s.contains(b"/a") && !s.contains(b"/b") && s.contains(b"/c"));
    assert_eq!((s.text(0), s.text(1)), (&b"/a".to_vec(), &b"/c".to_vec()));
}

#[test]
fn versions_count_writes() {
    let mut v = Versions::new();
    assert_eq!(v.get(b"/a"), 0);
    v.bump(b"/a");
    v.bump(b"/a/");
    v.bump(b"/b");
    assert_eq!(v.get(b"/a"), 2);
    assert_eq!(v.get(b"/b"), 1);
    assert_eq!(v.get(b"/c"), 0);
}

#[test]
fn numbers_are_given_in_order_and_kept() {
    let mut t = InodeTable::new(b"/");
    assert_eq!(t.path(1), Some(b"/".to_vec()));
    assert_eq!(t.get_inode(b"//"), 1);
    assert_eq!(t.get_inode(b"/a"), 2);
    assert_eq!(t.get_inode(b"/b"), 3);
    assert_eq!(t.get_inode(b"/a/"), 2);
    assert_eq!(t.path(2), Some(b"/a".to_vec()));
    assert_eq!(t.path(3), Some(b"/b".to_vec()));
    assert_eq!(t.path(0), None);
    assert_eq!(t.path(4), None);
    assert_eq!(t.path_or_empty(4), Vec::<u8>::new());
    assert_eq!(t.path_or_empty(3), b"/b".to_vec());
}

#[test]
fn handles_are_never_given_twice() {
    let mut h: Handles<u8> = Handles::new();
    assert_eq!(h.open(b'a'), 1);
    assert_eq!(h.open(b'b'), 2);
    assert_eq!(h.get(1), Some(&b'a'));
    assert_eq!(h.close(2), Some(b'b'));
    assert_eq!(h.close(2), None);
    assert_eq!(h.get(2), None);
    assert_eq!(h.open(b'c'), 3);
    assert!(h.has_next());
}
