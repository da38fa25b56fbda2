use routing::route::{is_slash, Route, RouteIter};

#[test]
fn slash_detection() {
    assert!(is_slash(&b'/'));
    assert!(!is_slash(&b'a'));
}

#[test]
fn root_and_empty_paths_have_no_segments() {
    let root: Vec<&[u8]> = "/".segments();
    assert!(root.is_empty());
    let empty: Vec<&[u8]> = "".segments();
    assert!(empty.is_empty());
}

#[test]
fn plain_path_segments_in_order() {
    let segs: Vec<&[u8]> = "/path/to/somewhere/".segments();
    assert_eq!(segs, vec![b"path".as_slice(), b"to".as_slice(), b"somewhere".as_slice()]);
}

#[test]
fn nested_container_flattens_in_order() {
    let path = ["/a", "b/", "/", "c/d/"];
    let segs: Vec<&[u8]> = path.as_slice().segments();
    assert_eq!(
        segs,
        vec![b"a".as_slice(), b"b".as_slice(), b"c".as_slice(), b"d".as_slice()]
    );
}

#[test]
fn vec_of_fragments_flattens() {
    let path: Vec<&str> = vec!["/path", "to/somewhere/", "/", "/else/"];
    let segs: Vec<&[u8]> = path.segments();
    assert_eq!(
        segs,
        vec![
            b"path".as_slice(),
            b"to".as_slice(),
            b"somewhere".as_slice(),
            b"else".as_slice()
        ]
    );
}

#[test]
fn deeply_nested_containers_flatten() {
    let path: Vec<Vec<&str>> = vec![vec!["/a/b"], vec![], vec!["c/", "/d"]];
    let segs: Vec<&[u8]> = path.segments();
    assert_eq!(
        segs,
        vec![b"a".as_slice(), b"b".as_slice(), b"c".as_slice(), b"d".as_slice()]
    );
}

#[test]
fn owned_strings_in_containers_flatten() {
    let path: Vec<String> = vec!["/one".to_string(), "two/three/".to_string()];
    let segs: Vec<&[u8]> = path.segments();
    assert_eq!(
        segs,
        vec![b"one".as_slice(), b"two".as_slice(), b"three".as_slice()]
    );
}

#[test]
fn double_separator_yields_empty_segment() {
    let segs: Vec<&[u8]> = "a//b".segments();
    assert_eq!(segs, vec![b"a".as_slice(), b"".as_slice(), b"b".as_slice()]);
}

#[test]
fn only_separators_strip_to_root_or_empty_runs() {
    let segs: Vec<&[u8]> = "//".segments();
    assert!(segs.is_empty());
    let segs: Vec<&[u8]> = "///".segments();
    assert_eq!(segs, vec![b"".as_slice(), b"".as_slice()]);
}

#[test]
fn byte_paths_segment_like_text() {
    let raw: &[u8] = b"/raw/\xff/bytes";
    let segs: Vec<&[u8]> = raw.segments();
    assert_eq!(segs, vec![b"raw".as_slice(), b"\xff".as_slice(), b"bytes".as_slice()]);
}

#[test]
fn route_iter_root_yields_nothing() {
    let mut it = RouteIter::Root;
    assert_eq!(it.next(), None);
    assert!(RouteIter::Root.into_vec().is_empty());
}

#[test]
fn route_iter_path_yields_segments_in_order() {
    let a: &[u8] = b"a";
    let b: &[u8] = b"b";
    let mut it = RouteIter::Path(vec![a, b]);
    assert_eq!(it.next(), Some(a));
    assert_eq!(it.next(), Some(b));
    assert_eq!(it.next(), None);
    assert_eq!(RouteIter::Path(vec![a, b]).into_vec(), vec![a, b]);
}
