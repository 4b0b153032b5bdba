use md5::Digest;
use zarr_checksum_gallery::checksum::json::{get_checksum_json, write_json_str};
use zarr_checksum_gallery::checksum::nodes::{DirChecksum, FileChecksum};
use zarr_checksum_gallery::checksum_json::{get_checksum_json as get_named_checksum_json, ZarrDigest};
use zarr_checksum_gallery::zarr::EntryPath;

fn path(s: &str) -> EntryPath {
    EntryPath::parse(s).unwrap()
}

#[test]
fn test_checksum_json() {
    let files = vec![
        (
            "foo".to_string(),
            ZarrDigest {
                digest: "0123456789abcdef0123456789abcdef".to_string(),
                size: 69105,
                file_count: 1,
            },
        ),
        (
            "bar".to_string(),
            ZarrDigest {
                digest: "abcdef0123456789abcdef0123456789".to_string(),
                size: 42,
                file_count: 1,
            },
        ),
    ];
    let directories = vec![(
        "quux".to_string(),
        ZarrDigest {
            digest: "0987654321fedcba0987654321fedcba".to_string(),
            size: 65537,
            file_count: 23,
        },
    )];
    let json = get_named_checksum_json(&files, &directories);
    assert_eq!(
        json,
        r#"{"directories":[{"digest":"0987654321fedcba0987654321fedcba","name":"quux","size":65537}],"files":[{"digest":"abcdef0123456789abcdef0123456789","name":"bar","size":42},{"digest":"0123456789abcdef0123456789abcdef","name":"foo","size":69105}]}"#
    );
}

#[test]
fn test_get_checksum_json() {
    let files = vec![
        FileChecksum {
            relpath: path("foo"),
            checksum: "0123456789abcdef0123456789abcdef".into(),
            size: 69105,
        },
        FileChecksum {
            relpath: path("bar"),
            checksum: "abcdef0123456789abcdef0123456789".into(),
            size: 42,
        },
    ];
    let directories = vec![DirChecksum {
        relpath: path("quux"),
        checksum: "0987654321fedcba0987654321fedcba-23--65537".into(),
        size: 65537,
        file_count: 23,
    }];
    let json = get_checksum_json(&files, &directories);
    assert_eq!(
        json,
        r#"{"directories":[{"digest":"0987654321fedcba0987654321fedcba-23--65537","name":"quux","size":65537}],"files":[{"digest":"abcdef0123456789abcdef0123456789","name":"bar","size":42},{"digest":"0123456789abcdef0123456789abcdef","name":"foo","size":69105}]}"#
    );
}

#[test]
fn test_get_checksum_json_empty_dir() {
    let files: Vec<FileChecksum> = Vec::new();
    let directories = vec![DirChecksum {
        relpath: path("quux"),
        checksum: "481a2f77ab786a0f45aafd5db0971caa-0--0".into(),
        size: 0,
        file_count: 0,
    }];
    let json = get_checksum_json(&files, &directories);
    assert_eq!(json, r#"{"directories":[],"files":[]}"#);
}

fn escaped(s: &str) -> String {
    let mut buf = String::new();
    write_json_str(s, &mut buf);
    buf
}

#[test]
fn test_write_json_str_plain() {
    assert_eq!(escaped("foobar"), r#""foobar""#);
    assert_eq!(escaped("foo / bar"), r#""foo / bar""#);
}

#[test]
fn test_write_json_str_quotes_and_backslash() {
    assert_eq!(escaped("foo\"bar"), r#""foo\"bar""#);
    assert_eq!(escaped("foo\\bar"), r#""foo\\bar""#);
}

#[test]
fn test_write_json_str_named_escapes() {
    assert_eq!(escaped("foo\x08\x0C\n\r\tbar"), r#""foo\b\f\n\r\tbar""#);
}

#[test]
fn test_write_json_str_controls() {
    assert_eq!(escaped("foo\x0B\x1B\x7Fbar"), r#""foo\u000b\u001b\u007fbar""#);
}

#[test]
fn test_write_json_str_bmp() {
    assert_eq!(escaped("foo\u{2014}bar"), r#""foo\u2014bar""#);
}

#[test]
fn test_write_json_str_surrogate_pair() {
    assert_eq!(escaped("foo\u{1F410}bar"), r#""foo\ud83d\udc10bar""#);
}

#[test]
fn test_json_matches_independent_md5() {
    // The md5 of the canonical JSON of an empty listing seeds the whole
    // digest algebra.
    let json = get_checksum_json(&Vec::new(), &Vec::new());
    assert_eq!(json, r#"{"directories":[],"files":[]}"#);
    let digest = hex::encode(md5::Md5::digest(json.as_bytes()));
    assert_eq!(digest, "481a2f77ab786a0f45aafd5db0971caa");
}
