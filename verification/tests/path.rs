//! Object paths.
use std::collections::hash_map::DefaultHasher;
use std::hash::{Hash, Hasher};
use std::path::Path;

use async_rustbus::rustbus_core::path::{InvalidObjectPath, ObjectPath, ObjectPathBuf};

fn test_objpaths() -> Vec<ObjectPath<'static>> {
    vec![
        ObjectPath::new("/org/freedesktop/NetworkManager").unwrap(),
        ObjectPath::new("/org/freedesktop/NetworkManager/ActiveConnection").unwrap(),
    ]
}

fn test_objpathbufs() -> Vec<ObjectPathBuf> {
    test_objpaths()
        .into_iter()
        .map(|op| op.to_object_path_buf())
        .collect()
}

fn hash_of<T: Hash + ?Sized>(t: &T) -> u64 {
    let mut hasher = DefaultHasher::new();
    t.hash(&mut hasher);
    hasher.finish()
}

// A borrowed value has to be ordered as the value that it is borrowed from.
fn compare_ord_borrow<T, U, F>(pre: &[T], borrow: F) -> Option<(usize, usize)>
where
    T: Ord,
    U: Ord,
    F: Fn(usize) -> U,
{
    for (i, pre_i) in pre.iter().enumerate() {
        for (j, pre_j) in pre.iter().enumerate().skip(i) {
            let pre_ord = pre_i.cmp(pre_j);
            let post_ord = borrow(i).cmp(&borrow(j));
            if pre_ord != post_ord {
                return Some((i, j));
            }
        }
    }
    None
}

// A borrowed value has to have the hash of the value that it is borrowed from.
fn compare_hasher_borrow<T, U, F>(pre: &[T], borrow: F) -> Option<usize>
where
    T: Hash,
    U: Hash,
    F: Fn(usize) -> U,
{
    for (i, pre) in pre.iter().enumerate() {
        if hash_of(pre) != hash_of(&borrow(i)) {
            return Some(i);
        }
    }
    None
}

#[test]
fn test_objectpathbuf_borrow_objectpath() {
    let objpathbufs = test_objpathbufs();
    if let Some(i) = compare_hasher_borrow(&objpathbufs[..], |i| objpathbufs[i].as_object_path()) {
        panic!("Hash didn't match: {}", i);
    }
    if let Some((i, j)) =
        compare_ord_borrow(&objpathbufs[..], |i| objpathbufs[i].as_object_path())
    {
        panic!("Ord didn't match for: {} {}", i, j);
    }
}

#[test]
fn test_objectpath_borrow_path() {
    let objpaths = test_objpaths();
    if let Some(i) = compare_hasher_borrow(&objpaths[..], |i| Path::new(objpaths[i].as_str())) {
        panic!("Hash didn't match: {}", i);
    }
    if let Some((i, j)) = compare_ord_borrow(&objpaths[..], |i| Path::new(objpaths[i].as_str())) {
        panic!("Ord didn't match for: {} {}", i, j);
    }
}

#[test]
fn test_push() {
    let objpath = ObjectPath::new("/dbus/test").unwrap();
    let objpath2 = ObjectPath::new("/freedesktop/more").unwrap();
    let mut objpathbuf = ObjectPathBuf::new();
    objpathbuf.push(objpath);
    assert_eq!(objpathbuf, objpath);
    objpathbuf.push(objpath2);
    assert_eq!(
        objpathbuf,
        ObjectPath::new("/dbus/test/freedesktop/more").unwrap()
    );
    assert!(objpathbuf.as_object_path().starts_with(objpath.as_str()));
    assert!(!objpathbuf.as_object_path().starts_with(objpath2.as_str()));
    assert_eq!(
        objpathbuf
            .as_object_path()
            .strip_prefix(objpath.as_str())
            .unwrap(),
        objpath2
    );
}

#[test]
fn order_is_that_of_file_system_paths() {
    let names = ["/", "/a", "/a/b", "/a0", "/aB", "/a_", "/b", "/a/b/c", "/A/b", "/0/z"];
    for a in names {
        for b in names {
            let own = ObjectPath::new(a).unwrap().cmp(&ObjectPath::new(b).unwrap());
            assert_eq!(own, Path::new(a).cmp(Path::new(b)), "{} {}", a, b);
            let bufs = ObjectPathBuf::try_from(a)
                .unwrap()
                .cmp(&ObjectPathBuf::try_from(b).unwrap());
            assert_eq!(bufs, own, "{} {}", a, b);
        }
        assert_eq!(
            hash_of(&ObjectPath::new(a).unwrap()),
            hash_of(&ObjectPathBuf::try_from(a).unwrap())
        );
    }
}

#[test]
fn validity() {
    for good in ["/", "/a", "/a_1/B", "/0"] {
        assert_eq!(ObjectPath::new(good).unwrap().as_str(), good);
        assert_eq!(ObjectPath::new(good).unwrap().as_bytes(), good.as_bytes());
    }
    assert!(matches!(ObjectPath::new(""), Err(InvalidObjectPath::NoRoot)));
    assert!(matches!(ObjectPath::new("a/b"), Err(InvalidObjectPath::NoRoot)));
    assert!(matches!(
        ObjectPath::new("/a/"),
        Err(InvalidObjectPath::TrailingSlash)
    ));
    assert!(matches!(
        ObjectPath::new("/a//b"),
        Err(InvalidObjectPath::ConsecutiveSlashes)
    ));
    assert!(matches!(
        ObjectPath::new("/a-b"),
        Err(InvalidObjectPath::ContainsInvalidCharacters)
    ));
    assert!(matches!(
        ObjectPath::new("/\u{e4}"),
        Err(InvalidObjectPath::ContainsInvalidCharacters)
    ));
}

#[test]
fn parts_of_a_path() {
    let path = ObjectPath::new("/a/bc/d").unwrap();
    assert_eq!(path.components(), vec!["a", "bc", "d"]);
    assert_eq!(path.file_name(), Some("d"));
    assert_eq!(path.parent().unwrap().as_str(), "/a/bc");
    let one = ObjectPath::new("/a").unwrap();
    assert_eq!(one.parent().unwrap().as_str(), "/");
    let root = ObjectPath::root_path();
    assert_eq!(root.as_str(), "/");
    assert!(root.parent().is_none());
    assert!(root.file_name().is_none());
    assert!(root.components().is_empty());
}

#[test]
fn stripping() {
    let path = ObjectPath::new("/a/bc/d").unwrap();
    assert_eq!(path.strip_prefix("/").unwrap().as_str(), "/a/bc/d");
    assert_eq!(path.strip_prefix("/a").unwrap().as_str(), "/bc/d");
    assert_eq!(path.strip_prefix("/a/").unwrap().as_str(), "/bc/d");
    assert_eq!(path.strip_prefix("//a/./bc").unwrap().as_str(), "/d");
    assert_eq!(path.strip_prefix("/a/bc/d").unwrap().as_str(), "/");
    assert!(path.strip_prefix("/a/b").is_err());
    assert!(path.strip_prefix("a").is_err());
    assert!(path.strip_prefix("/a/bc/d/e").is_err());
    assert!(path.starts_with("/a/bc"));
    assert!(path.starts_with(""));
    assert!(!path.starts_with("./a"));
}

#[test]
fn starts_with_agrees_with_file_system_paths() {
    let path = "/a/bc/d";
    for base in ["", "/", "//", "/a", "a", ".", "./a", "/.", "/a/b", "/a/bc/", "/a/../a", ".."] {
        assert_eq!(
            ObjectPath::new(path).unwrap().starts_with(base),
            Path::new(path).starts_with(base),
            "{:?}",
            base
        );
    }
}

#[test]
fn pushing_text() {
    let mut buf = ObjectPathBuf::new();
    assert_eq!(buf.as_object_path().as_str(), "/");
    buf.push_path("/a");
    buf.push_path("b/c");
    assert_eq!(buf.as_object_path().as_str(), "/a/b/c");
    buf.push_path("/");
    assert_eq!(buf.as_object_path().as_str(), "/a/b/c");
    assert!(buf.push_path_checked("/d e").is_err());
    assert!(matches!(
        buf.push_path_checked("/d/"),
        Err(InvalidObjectPath::TrailingSlash)
    ));
    assert!(buf.push_path_checked("d").is_ok());
    assert_eq!(buf.clone().into_string(), "/a/b/c/d");
    assert!(buf.pop());
    assert!(buf.pop());
    assert_eq!(buf.as_object_path().as_str(), "/a/b");
    buf.clear();
    assert_eq!(buf.as_object_path().as_str(), "/");
    assert!(!buf.pop());
}

#[test]
fn capacity() {
    let mut buf = ObjectPathBuf::with_capacity(64);
    assert!(buf.capacity() >= 64);
    buf.push_path("/a");
    buf.reserve(200);
    assert!(buf.capacity() >= 202);
    buf.reserve_exact(400);
    assert!(buf.capacity() >= 402);
    assert_eq!(buf.as_object_path().as_str(), "/a");
    assert_eq!(ObjectPathBuf::default().into_string(), "/");
    assert_eq!(ObjectPathBuf::new().capacity(), 0);
    assert_eq!(ObjectPathBuf::default().capacity(), 0);
    assert_eq!(ObjectPathBuf::with_capacity(0).capacity(), 0);
    let copy = ObjectPath::new("/").unwrap().to_object_path_buf();
    assert_eq!(copy.capacity(), 0);
    assert_eq!(copy.clone().capacity(), 0);
    let mut kept = ObjectPathBuf::with_capacity(64);
    assert_eq!(kept, copy);
    assert_eq!(kept.cmp(&copy), std::cmp::Ordering::Equal);
    kept.push_path("/a");
    assert_ne!(kept, copy);
    kept.clear();
    assert!(kept.capacity() >= 64);
    assert_eq!(kept, copy);
    let mut root = ObjectPathBuf::new();
    root.reserve_exact(0);
    root.reserve(0);
    assert_eq!(root.capacity(), 0);
    root.reserve_exact(8);
    let capacity = root.capacity();
    assert!(capacity >= 9);
    root.push_path("/usr/bin");
    assert_eq!(root.capacity(), capacity);
    let buf = ObjectPathBuf::from_string("/usr/local".to_string()).unwrap();
    assert!(buf.capacity() >= 10);
}

#[test]
fn owned_paths_from_text() {
    assert_eq!(
        ObjectPathBuf::from_string("/a/b".to_string())
            .unwrap()
            .into_string(),
        "/a/b"
    );
    assert_eq!(
        ObjectPathBuf::from_string("/".to_string())
            .unwrap()
            .into_string(),
        "/"
    );
    assert!(matches!(
        ObjectPathBuf::from_string("a".to_string()),
        Err(InvalidObjectPath::NoRoot)
    ));
    assert!(ObjectPathBuf::try_from("/a//b").is_err());
}
