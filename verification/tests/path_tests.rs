use zarr_checksum_gallery::errors::{EntryPathError, RelativePathError};
use zarr_checksum_gallery::zarr::{excluded_dotfiles, is_excluded_dotfile, relative_to, EntryPath};

#[test]
fn test_excluded_dotfiles_is_sorted() {
    let names = excluded_dotfiles();
    assert!(names.windows(2).all(|ab| {
        assert!(ab.len() >= 2);
        ab[0] < ab[1]
    }));
}

#[test]
fn test_is_excluded_dotfile_basenames() {
    for name in [".dandi", ".datalad", ".git", ".gitattributes", ".gitmodules"] {
        assert!(is_excluded_dotfile(name), "{name}");
        let nested = format!("foo/bar/{name}");
        assert!(is_excluded_dotfile(&nested), "{nested}");
        let inside = format!("{name}/foo/bar");
        assert!(!is_excluded_dotfile(&inside), "{inside}");
    }
    assert!(!is_excluded_dotfile("foo"));
    assert!(!is_excluded_dotfile(".gitignore"));
}

#[test]
fn test_parents() {
    let path = EntryPath::parse("foo/bar/baz").unwrap();
    let mut parents = path.parents();
    assert_eq!(parents.next().unwrap().to_display(), "foo");
    assert_eq!(parents.next().unwrap().to_display(), "foo/bar");
    assert_eq!(parents.next(), None);
}

#[test]
fn test_parents_len_1() {
    let path = EntryPath::parse("foo").unwrap();
    let mut parents = path.parents();
    assert_eq!(parents.next(), None);
}

#[test]
fn test_entrypath_parse() {
    for (input, displayed) in [
        ("foo", "foo"),
        ("foo/bar", "foo/bar"),
        ("foo/.", "foo"),
        ("./foo", "foo"),
        ("foo/./bar", "foo/bar"),
        ("foo/", "foo"),
        ("foo//bar", "foo/bar"),
    ] {
        assert_eq!(EntryPath::parse(input).unwrap().to_display(), displayed, "{input}");
    }
}

#[test]
fn test_entrypath_parse_err() {
    for input in ["", ".", "..", "/", "/foo", "foo/..", "../foo", "foo/../bar", "foo/bar/.."] {
        assert_eq!(
            EntryPath::parse(input),
            Err(EntryPathError(input.to_string())),
            "{input}"
        );
    }
}

#[test]
fn test_relative_to() {
    for (path, basepath, relpath) in [
        ("foo/bar/baz", "foo/bar", "baz"),
        ("foo/bar/./baz", "foo/bar", "baz"),
        ("foo/bar//baz", "foo/bar", "baz"),
        ("foo/bar/baz/", "foo/bar", "baz"),
        ("foo/bar/baz//", "foo/bar", "baz"),
        ("foo/bar/baz/.", "foo/bar", "baz"),
        ("foo/bar/baz/./quux", "foo/bar", "baz/quux"),
        ("foo/bar/baz/quux/gnusto", "foo/bar", "baz/quux/gnusto"),
        ("foo/bar/baz//quux/gnusto", "foo/bar", "baz/quux/gnusto"),
    ] {
        assert_eq!(
            relative_to(path, basepath).unwrap().to_display(),
            relpath,
            "{path} rel {basepath}"
        );
    }
}

#[test]
fn test_relative_to_invalid() {
    for (path, basepath) in [
        ("baz", "foo/bar"),
        ("/foo/bar/baz", "foo/bar"),
        ("foo/bar/baz", "/foo/bar"),
        ("foo/bar", "foo/bar"),
        ("foo/bar/", "foo/bar"),
        ("foo/bar/.", "foo/bar"),
        ("foo/bar/..", "foo/bar"),
        ("foo/bar/baz/..", "foo/bar"),
        ("foo/bar/../baz", "foo/bar"),
    ] {
        assert_eq!(
            relative_to(path, basepath),
            Err(RelativePathError {
                path: path.to_string(),
                basepath: basepath.to_string(),
            }),
            "{path} rel {basepath}"
        );
    }
}

#[test]
fn test_join1() {
    let path = EntryPath::parse("foo").unwrap();
    assert_eq!(path.join1("bar").unwrap().to_display(), "foo/bar");
    assert!(path.join1("").is_err());
    assert!(path.join1(".").is_err());
    assert!(path.join1("..").is_err());
    assert!(path.join1("a/b").is_err());
}

#[test]
fn test_file_name() {
    assert_eq!(EntryPath::parse("foo/bar/baz").unwrap().file_name(), "baz");
    assert_eq!(EntryPath::parse("foo").unwrap().file_name(), "foo");
}
