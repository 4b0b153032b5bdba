use zarr_checksum_gallery::checksum::nodes::{DirChecksum, Dirsummer, EntryChecksum, FileChecksum};
use zarr_checksum_gallery::zarr::EntryPath;

fn path(s: &str) -> EntryPath {
    EntryPath::parse(s).unwrap()
}

#[test]
fn test_dirsummer_nothing() {
    let ds = Dirsummer::new(path("foo"));
    assert_eq!(ds.checksum().checksum, "481a2f77ab786a0f45aafd5db0971caa-0--0");
}

#[test]
fn test_dirsummer_one_file() {
    let mut ds = Dirsummer::new(path("foo"));
    ds.push(EntryChecksum::File(FileChecksum {
        relpath: path("bar"),
        checksum: "aaaaaaaaaaaaaaaaaaaaaaaaaaaaaaaa".into(),
        size: 1,
    }));
    assert_eq!(ds.checksum().checksum, "f21b9b4bf53d7ce1167bcfae76371e59-1--1");
}

#[test]
fn test_dirsummer_one_directory() {
    let mut ds = Dirsummer::new(path("foo"));
    ds.push(EntryChecksum::Directory(DirChecksum {
        relpath: path("bar"),
        checksum: "aaaaaaaaaaaaaaaaaaaaaaaaaaaaaaaa-1--1".into(),
        size: 1,
        file_count: 1,
    }));
    assert_eq!(ds.checksum().checksum, "ea8b8290b69b96422a3ed1cca0390f21-1--1");
}

#[test]
fn test_dirsummer_two_files() {
    let mut ds = Dirsummer::new(path("foo"));
    ds.push(EntryChecksum::File(FileChecksum {
        relpath: path("bar"),
        checksum: "aaaaaaaaaaaaaaaaaaaaaaaaaaaaaaaa".into(),
        size: 1,
    }));
    ds.push(EntryChecksum::File(FileChecksum {
        relpath: path("baz"),
        checksum: "bbbbbbbbbbbbbbbbbbbbbbbbbbbbbbbb".into(),
        size: 1,
    }));
    assert_eq!(ds.checksum().checksum, "8e50add2b46d3a6389e2d9d0924227fb-2--2");
}

#[test]
fn test_dirsummer_two_directories() {
    let mut ds = Dirsummer::new(path("foo"));
    ds.push(EntryChecksum::Directory(DirChecksum {
        relpath: path("bar"),
        checksum: "aaaaaaaaaaaaaaaaaaaaaaaaaaaaaaaa-1--1".into(),
        size: 1,
        file_count: 1,
    }));
    ds.push(EntryChecksum::Directory(DirChecksum {
        relpath: path("baz"),
        checksum: "bbbbbbbbbbbbbbbbbbbbbbbbbbbbbbbb-1--1".into(),
        size: 1,
        file_count: 1,
    }));
    assert_eq!(ds.checksum().checksum, "4c21a113688f925240549b14136d61ff-2--2");
}

#[test]
fn test_dirsummer_one_of_each() {
    let mut ds = Dirsummer::new(path("foo"));
    ds.push(EntryChecksum::File(FileChecksum {
        relpath: path("baz"),
        checksum: "aaaaaaaaaaaaaaaaaaaaaaaaaaaaaaaa".into(),
        size: 1,
    }));
    ds.push(EntryChecksum::Directory(DirChecksum {
        relpath: path("bar"),
        checksum: "bbbbbbbbbbbbbbbbbbbbbbbbbbbbbbbb-1--1".into(),
        size: 1,
        file_count: 1,
    }));
    assert_eq!(ds.checksum().checksum, "d5e4eb5dc8efdb54ff089db1eef34119-2--2");
}

#[test]
fn test_dirsummer_push_order_irrelevant() {
    let a = FileChecksum {
        relpath: path("bar"),
        checksum: "aaaaaaaaaaaaaaaaaaaaaaaaaaaaaaaa".into(),
        size: 1,
    };
    let b = FileChecksum {
        relpath: path("baz"),
        checksum: "bbbbbbbbbbbbbbbbbbbbbbbbbbbbbbbb".into(),
        size: 1,
    };
    let mut ds1 = Dirsummer::new(path("foo"));
    ds1.push(EntryChecksum::File(a.clone()));
    ds1.push(EntryChecksum::File(b.clone()));
    let mut ds2 = Dirsummer::new(path("foo"));
    ds2.push(EntryChecksum::File(b));
    ds2.push(EntryChecksum::File(a));
    assert_eq!(ds1.checksum().checksum, ds2.checksum().checksum);
}
