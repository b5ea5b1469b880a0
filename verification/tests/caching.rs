use slipspace::cache::{to_base_path, to_local_path, FileCache, Removal, MAX_CACHE_SIZE};
use slipspace::digest::cache_file_name;
use slipspace::pathset::PathSet;
use std::path::Path;

const MIB: u64 = 1024 * 1024;

fn cache() -> FileCache {
    FileCache::new(b"/tmp/cache".to_vec(), b"/srv".to_vec())
}

fn set(paths: &[&str]) -> PathSet {
    let mut s = PathSet::new();
    for p in paths {
        s.insert(p.as_bytes());
    }
    s
}

fn locals(gone: &[Removal]) -> Vec<Vec<u8>> {
    gone.iter().map(|r| r.local.clone()).collect()
}

fn local(path: &str) -> Vec<u8> {
    to_local_path(b"/tmp/cache", path.as_bytes())
}

#[test]
fn cached_files_lie_under_their_digest() {
    let c = cache();
    let mut want = b"/tmp/cache/".to_vec();
    want.extend(cache_file_name(b"/srv/a"));
    assert_eq!(c.get_local_path(b"/srv/a"), want);
    assert_eq!(c.changed_dir(), &b"/tmp/cache/.changed".to_vec());
    assert_eq!(c.root(), &b"/srv".to_vec());
}

#[test]
fn base_paths_are_those_of_std() {
    for t in [
        "/c/abc", "/c/a.b", "/c/a.b.c", "/c/.a", "/c/a.", "/c/..", "/c/a/", "a", "a.b", "", "/",
        ".", "/c/.a.b", "x/...a", "/c/a./", "/c/a.b/", "x/..a", "x/..a/", "..ab",
        "..ab/", "/..abc//", "x/....", "x/.../", "a.b.ccc/", "..a.b", "..a.b/",
    ] {
        let p = Path::new(t);
        let ext = p.extension().unwrap_or_default().to_string_lossy().into_owned();
        let want = p.with_extension(format!("{}.base", ext));
        assert_eq!(
            to_base_path(t.as_bytes()),
            want.to_str().unwrap().as_bytes().to_vec(),
            "{:?}",
            t
        );
    }
}

#[test]
fn a_base_lies_beside_its_file() {
    let l = local("/srv/a");
    let mut want = l.clone();
    want.extend(b"..base");
    assert_eq!(to_base_path(&l), want);
    assert_ne!(to_base_path(&l), local("/srv/b"));
}

#[test]
fn within_the_limit_nothing_goes() {
    let mut c = cache();
    assert_eq!(MAX_CACHE_SIZE, 1024 * MIB);
    assert!(c.add_file(b"/srv/a", 512 * MIB, &set(&[])).is_empty());
    assert!(c.add_file(b"/srv/b", 512 * MIB, &set(&[])).is_empty());
}

#[test]
fn the_least_recently_used_goes_first() {
    let mut c = cache();
    c.add_file(b"/srv/a", 400 * MIB, &set(&[]));
    c.add_file(b"/srv/b", 400 * MIB, &set(&[]));
    c.touch(b"/srv/a");
    let gone = c.add_file(b"/srv/c", 400 * MIB, &set(&[]));
    assert_eq!(locals(&gone), vec![local("/srv/b")]);
    assert_eq!(gone[0].base, to_base_path(&local("/srv/b")));
}

#[test]
fn no_more_goes_than_must() {
    let mut c = cache();
    for p in ["/srv/a", "/srv/b", "/srv/c", "/srv/d"] {
        c.add_file(p.as_bytes(), 250 * MIB, &set(&[]));
    }
    let gone = c.add_file(b"/srv/e", 300 * MIB, &set(&[]));
    assert_eq!(locals(&gone), vec![local("/srv/a"), local("/srv/b")]);
}

#[test]
fn dirty_files_stay_and_count_as_used() {
    let mut c = cache();
    c.add_file(b"/srv/a", 400 * MIB, &set(&[]));
    c.add_file(b"/srv/b", 400 * MIB, &set(&[]));
    let dirty = set(&["/srv//a/"]);
    let gone = c.add_file(b"/srv/c", 400 * MIB, &dirty);
    assert_eq!(locals(&gone), vec![local("/srv/b")]);
    // The dirty file now stands behind the one that came last.
    let gone = c.add_file(b"/srv/d", 400 * MIB, &set(&[]));
    assert_eq!(locals(&gone), vec![local("/srv/c")]);
}

#[test]
fn a_cache_of_dirty_files_may_be_over_its_limit() {
    let mut c = cache();
    let dirty = set(&["/srv/a", "/srv/b"]);
    c.add_file(b"/srv/a", 800 * MIB, &dirty);
    assert!(c.add_file(b"/srv/b", 800 * MIB, &dirty).is_empty());
    let gone = c.add_file(b"/srv/c", 1, &dirty);
    assert_eq!(locals(&gone), vec![local("/srv/c")]);
}

#[test]
fn a_file_that_is_too_large_goes_at_once() {
    let mut c = cache();
    let gone = c.add_file(b"/srv/a", 1025 * MIB, &set(&[]));
    assert_eq!(locals(&gone), vec![local("/srv/a")]);
}

#[test]
fn a_cache_within_its_limit_drops_nothing() {
    let mut c = cache();
    c.add_file(b"/srv/a", 800 * MIB, &set(&["/srv/a"]));
    c.add_file(b"/srv/b", 800 * MIB, &set(&["/srv/a", "/srv/b"]));
    assert!(c.evict_if_needed(&set(&["/srv/a", "/srv/b"])).is_empty());
    let gone = c.evict_if_needed(&set(&["/srv/b"]));
    assert_eq!(locals(&gone), vec![local("/srv/a")]);
    assert!(c.evict_if_needed(&set(&[])).is_empty());
}

#[test]
fn a_file_that_comes_again_counts_once() {
    let mut c = cache();
    c.add_file(b"/srv/a", 600 * MIB, &set(&[]));
    assert!(c.add_file(b"/srv/a", 700 * MIB, &set(&[])).is_empty());
    // Another text of the same path is the same file.
    assert!(c.add_file(b"/srv//a", 800 * MIB, &set(&[])).is_empty());
    let gone = c.add_file(b"/srv/b", 225 * MIB, &set(&[]));
    assert_eq!(locals(&gone), vec![local("/srv/a")]);
}

#[test]
fn a_size_that_changes_drives_others_out() {
    let mut c = cache();
    c.add_file(b"/srv/a", 500 * MIB, &set(&[]));
    c.add_file(b"/srv/b", 500 * MIB, &set(&[]));
    assert!(c.update_size(b"/srv/a", 510 * MIB, &set(&["/srv/a"])).is_empty());
    let gone = c.update_size(b"/srv/a", 530 * MIB, &set(&["/srv/a"]));
    assert_eq!(locals(&gone), vec![local("/srv/b")]);
    // A file that was not there is taken in.
    let gone = c.update_size(b"/srv/c", 500 * MIB, &set(&[]));
    assert_eq!(locals(&gone), vec![local("/srv/a")]);
}

#[test]
fn a_file_that_went_may_come_again_under_another_text() {
    let mut c = cache();
    c.add_file(b"/srv/a", 1025 * MIB, &set(&[]));
    assert!(c.add_file(b"/srv/./a", 600 * MIB, &set(&[])).is_empty());
    let gone = c.add_file(b"/srv/b", 600 * MIB, &set(&[]));
    assert_eq!(locals(&gone), vec![local("/srv/./a")]);
}

#[test]
fn what_cannot_be_counted_does_not_fit() {
    let mut c = cache();
    assert!(c.fits(u64::MAX));
    c.add_file(b"/srv/a", 10, &set(&[]));
    assert!(c.fits(u64::MAX - 10));
    assert!(!c.fits(u64::MAX - 9));
}

#[test]
fn a_change_is_announced_once() {
    let c = cache();
    let mut dirty = set(&[]);
    let m = c.mark_dirty(b"/srv/a", &mut dirty);
    assert_eq!(m.announce, Some(b"DIRTY /a\n".to_vec()));
    let mut want = b"/tmp/cache/.changed/".to_vec();
    want.extend(cache_file_name(b"/srv/a"));
    assert_eq!(m.changed_file, want);
    assert!(dirty.contains(b"/srv/a"));
    let m = c.mark_dirty(b"/srv/a", &mut dirty);
    assert_eq!(m.announce, None);
    assert_eq!(m.changed_file, want);
    assert_eq!(dirty.len(), 1);
}

#[test]
fn a_new_connection_hears_of_all_changes() {
    let c = cache();
    let dirty = set(&["/srv/a", "/srv/b/c", "/elsewhere"]);
    assert_eq!(
        c.resend_lines(&dirty),
        vec![b"DIRTY /a\n".to_vec(), b"DIRTY /b/c\n".to_vec(), b"DIRTY /elsewhere\n".to_vec()]
    );
    assert!(c.resend_lines(&set(&[])).is_empty());
}
