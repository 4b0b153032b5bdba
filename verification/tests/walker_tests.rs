use md5::Digest;
use zarr_checksum_gallery::checksum::nodes::FileChecksum;
use zarr_checksum_gallery::checksum::tree::ChecksumTree;
use zarr_checksum_gallery::errors::{ChecksumError, FSError};
use zarr_checksum_gallery::text::u64_to_string;
use zarr_checksum_gallery::walkers::{JobStack, PopOutcome};
use zarr_checksum_gallery::zarr::{EntryPath, Zarr};
use zarr_checksum_gallery::{breadth_first_checksum, depth_first_checksum, recursive_checksum};

fn write_file(dir: &str, rel: &str, contents: &str) {
    let full = format!("{dir}/{rel}");
    if let Some(pos) = full.rfind('/') {
        fs_err::create_dir_all(&full[..pos]).unwrap();
    }
    fs_err::write(&full, contents).unwrap();
}

fn expected_checksum(files: &[(&str, &str)]) -> String {
    let mut tree = ChecksumTree::new();
    for (rel, contents) in files {
        tree.add_file(FileChecksum {
            relpath: EntryPath::parse(rel).unwrap(),
            checksum: hex::encode(md5::Md5::digest(contents.as_bytes())),
            size: contents.len() as u64,
        })
        .unwrap();
    }
    tree.checksum()
}

fn sample() -> Vec<(&'static str, &'static str)> {
    vec![
        ("grp/.zgroup", "{\"zarr_format\":2}"),
        ("grp/arr/.zarray", "{\"shape\":[4]}"),
        ("grp/arr/0", "rawchunkdata"),
        ("top.txt", "hello world"),
    ]
}

#[test]
fn test_empty_directory_checksum() {
    let tmp = tempfile::tempdir().unwrap();
    let zarr = Zarr::new(tmp.path().to_str().unwrap());
    let expected = "481a2f77ab786a0f45aafd5db0971caa-0--0";
    assert_eq!(recursive_checksum(&zarr).unwrap(), expected);
    assert_eq!(depth_first_checksum(&zarr).unwrap(), expected);
    assert_eq!(breadth_first_checksum(&zarr).unwrap(), expected);
}

#[test]
fn test_walkers_agree_with_tree() {
    let tmp = tempfile::tempdir().unwrap();
    let root = tmp.path().to_str().unwrap();
    for (rel, contents) in sample() {
        write_file(root, rel, contents);
    }
    let expected = expected_checksum(&sample());
    let zarr = Zarr::new(root);
    assert_eq!(recursive_checksum(&zarr).unwrap(), expected);
    assert_eq!(depth_first_checksum(&zarr).unwrap(), expected);
    assert_eq!(breadth_first_checksum(&zarr).unwrap(), expected);
}

#[test]
fn test_walker_deterministic() {
    let tmp = tempfile::tempdir().unwrap();
    let root = tmp.path().to_str().unwrap();
    for (rel, contents) in sample() {
        write_file(root, rel, contents);
    }
    let zarr = Zarr::new(root);
    let first = recursive_checksum(&zarr).unwrap();
    let second = recursive_checksum(&zarr).unwrap();
    assert_eq!(first, second);
}

#[test]
fn test_empty_directory_absorption() {
    let tmp = tempfile::tempdir().unwrap();
    let root = tmp.path().to_str().unwrap();
    for (rel, contents) in sample() {
        write_file(root, rel, contents);
    }
    let zarr = Zarr::new(root);
    let before = recursive_checksum(&zarr).unwrap();
    fs_err::create_dir_all(format!("{root}/arr_2")).unwrap();
    fs_err::create_dir_all(format!("{root}/arr_3/foo")).unwrap();
    assert_eq!(recursive_checksum(&zarr).unwrap(), before);
    assert_eq!(depth_first_checksum(&zarr).unwrap(), before);
    assert_eq!(breadth_first_checksum(&zarr).unwrap(), before);
}

#[test]
fn test_excluded_dotfiles_flag() {
    let tmp = tempfile::tempdir().unwrap();
    let root = tmp.path().to_str().unwrap();
    for (rel, contents) in sample() {
        write_file(root, rel, contents);
    }
    let plain = recursive_checksum(&Zarr::new(root)).unwrap();
    write_file(root, ".git", "gitdir: foo/bar\n");
    write_file(root, ".dandi/somefile.txt", "Hello world!\n");
    write_file(root, ".gitattributes", "* eol=lf\n");
    write_file(root, "grp/.gitmodules", "# Empty\n");
    write_file(root, "grp/arr/.datalad/config", "# Empty\n");
    let excluding = Zarr::new(root).exclude_dotfiles(true);
    assert_eq!(recursive_checksum(&excluding).unwrap(), plain);
    assert_eq!(depth_first_checksum(&excluding).unwrap(), plain);
    assert_eq!(breadth_first_checksum(&excluding).unwrap(), plain);
    let including = Zarr::new(root).exclude_dotfiles(false);
    assert_ne!(recursive_checksum(&including).unwrap(), plain);
}

#[test]
fn test_not_a_directory_root() {
    let tmp = tempfile::tempdir().unwrap();
    let root = tmp.path().to_str().unwrap();
    let file = format!("{root}/plain.txt");
    fs_err::write(&file, "not a directory").unwrap();
    let zarr = Zarr::new(&file);
    match recursive_checksum(&zarr) {
        Err(ChecksumError::FSError(FSError::NotDirRootError { path })) => {
            assert_eq!(path, file);
        }
        r => panic!("expected a root complaint, got {r:?}"),
    }
    assert!(matches!(
        depth_first_checksum(&zarr),
        Err(ChecksumError::FSError(FSError::NotDirRootError { .. }))
    ));
    assert!(matches!(
        breadth_first_checksum(&zarr),
        Err(ChecksumError::FSError(FSError::NotDirRootError { .. }))
    ));
}

#[test]
fn test_missing_root() {
    let zarr = Zarr::new("/no/such/path/anywhere");
    assert!(matches!(
        recursive_checksum(&zarr),
        Err(ChecksumError::FSError(FSError::NotDirRootError { .. }))
    ));
}

#[test]
fn test_jobstack_accounting() {
    let mut stack: JobStack<u32> = JobStack::new(vec![1, 2]);
    assert!(!stack.is_shutdown());
    match stack.pop() {
        PopOutcome::Item(x) => assert_eq!(x, 2),
        _ => panic!("expected an item"),
    }
    stack.extend(vec![7]);
    stack.job_done();
    match stack.pop() {
        PopOutcome::Item(x) => assert_eq!(x, 7),
        _ => panic!("expected an item"),
    }
    stack.job_done();
    match stack.pop() {
        PopOutcome::Item(x) => assert_eq!(x, 1),
        _ => panic!("expected an item"),
    }
    stack.job_done();
    assert!(matches!(stack.pop(), PopOutcome::Done));
}

#[test]
fn test_jobstack_wait_and_shutdown() {
    let mut stack: JobStack<u32> = JobStack::new(vec![5]);
    match stack.pop() {
        PopOutcome::Item(x) => assert_eq!(x, 5),
        _ => panic!("expected an item"),
    }
    // The item is popped but not done: an empty queue means wait.
    assert!(matches!(stack.pop(), PopOutcome::Wait));
    stack.shutdown();
    assert!(stack.is_shutdown());
    assert!(matches!(stack.pop(), PopOutcome::Done));
    // New work is refused after shutdown.
    stack.extend(vec![9]);
    assert!(matches!(stack.pop(), PopOutcome::Done));
}

#[test]
fn test_u64_to_string() {
    assert_eq!(u64_to_string(0), "0");
    assert_eq!(u64_to_string(42), "42");
    assert_eq!(u64_to_string(65537), "65537");
    assert_eq!(u64_to_string(u64::MAX), "18446744073709551615");
}
