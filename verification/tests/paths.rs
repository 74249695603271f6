use myfs::path::{
    absolute_path, find_last_separator, is_root_path, path_components, split_path,
    to_absolute_path,
};

fn parts(path: &str) -> Vec<String> {
    path_components(path.as_bytes())
        .into_iter()
        .map(|p| String::from_utf8(p).unwrap())
        .collect()
}

#[test]
fn components_skip_empty_segments() {
    assert_eq!(parts("/"), Vec::<String>::new());
    assert_eq!(parts(""), Vec::<String>::new());
    assert_eq!(parts("///"), Vec::<String>::new());
    assert_eq!(parts("/a"), vec!["a"]);
    assert_eq!(parts("/a/b/c"), vec!["a", "b", "c"]);
    assert_eq!(parts("a//b/"), vec!["a", "b"]);
    assert_eq!(parts("/./../x"), vec![".", "..", "x"]);
}

#[test]
fn last_separator() {
    assert_eq!(find_last_separator(b""), None);
    assert_eq!(find_last_separator(b"abc"), None);
    assert_eq!(find_last_separator(b"/"), Some(0));
    assert_eq!(find_last_separator(b"/a/b"), Some(2));
    assert_eq!(find_last_separator(b"/a/b/"), Some(4));
}

#[test]
fn split_at_the_last_separator() {
    assert_eq!(split_path(b"/a"), Some((&b"/"[..], &b"a"[..])));
    assert_eq!(split_path(b"/a/b"), Some((&b"/a"[..], &b"b"[..])));
    assert_eq!(split_path(b"/a/b/"), Some((&b"/a/b"[..], &b""[..])));
    assert_eq!(split_path(b"/"), Some((&b"/"[..], &b""[..])));
    assert_eq!(split_path(b"a/b"), Some((&b"a"[..], &b"b"[..])));
    assert_eq!(split_path(b"name"), None);
    assert_eq!(split_path(b""), None);
}

#[test]
fn root_path_is_one_separator() {
    assert!(is_root_path(b"/"));
    assert!(!is_root_path(b""));
    assert!(!is_root_path(b"//"));
    assert!(!is_root_path(b"a"));
}

#[test]
fn absolute_paths_from_the_root() {
    assert_eq!(to_absolute_path("/", "a"), "/a");
    assert_eq!(to_absolute_path("/", "/"), "/");
    assert_eq!(to_absolute_path("/", "."), "/");
    assert_eq!(to_absolute_path("/", ".."), "/");
    assert_eq!(to_absolute_path("/", ""), "/");
    assert_eq!(to_absolute_path("/", "a/b/../c"), "/a/c");
}

#[test]
fn absolute_paths_from_a_directory() {
    assert_eq!(to_absolute_path("/a/b", "c"), "/a/b/c");
    assert_eq!(to_absolute_path("/a/b/", "c"), "/a/b/c");
    assert_eq!(to_absolute_path("/a/b", ".."), "/a");
    assert_eq!(to_absolute_path("/a/b", "../.."), "/");
    assert_eq!(to_absolute_path("/a/b", "../../.."), "/");
    assert_eq!(to_absolute_path("/a/b", "./x/./y/"), "/a/b/x/y");
    assert_eq!(to_absolute_path("/a/b", "/x//y"), "/x/y");
    assert_eq!(to_absolute_path("/a/b", "/x/../../y"), "/y");
    assert_eq!(to_absolute_path("/a", "..."), "/a/...");
    assert_eq!(to_absolute_path("/a", "ü/é"), "/a/ü/é");
}

#[test]
fn absolute_path_on_bytes() {
    assert_eq!(absolute_path(b"/a", b"b"), b"/a/b".to_vec());
    assert_eq!(absolute_path(b"", b"b"), b"/b".to_vec());
    assert_eq!(absolute_path(b"/a", b"\xff/.."), b"/a".to_vec());
    assert_eq!(absolute_path(b"/a", b"\xff"), b"/a/\xff".to_vec());
}
