use zarr_checksum_gallery::checksum::compile_checksum;
use zarr_checksum_gallery::checksum::nodes::FileChecksum;
use zarr_checksum_gallery::checksum::tree::{draw_files, ChecksumTree};
use zarr_checksum_gallery::errors::ChecksumTreeError;
use zarr_checksum_gallery::zarr::EntryPath;

fn path(s: &str) -> EntryPath {
    EntryPath::parse(s).unwrap()
}

fn sample_files() -> Vec<FileChecksum> {
    vec![
        FileChecksum {
            relpath: path("arr_0/.zarray"),
            checksum: "9e30a0a1a465e24220d4132fdd544634".into(),
            size: 315,
        },
        FileChecksum {
            relpath: path("arr_0/0"),
            checksum: "ed4e934a474f1d2096846c6248f18c00".into(),
            size: 431,
        },
        FileChecksum {
            relpath: path("arr_1/.zarray"),
            checksum: "9e30a0a1a465e24220d4132fdd544634".into(),
            size: 315,
        },
        FileChecksum {
            relpath: path("arr_1/0"),
            checksum: "fba4dee03a51bde314e9713b00284a93".into(),
            size: 431,
        },
        FileChecksum {
            relpath: path(".zgroup"),
            checksum: "e20297935e73dd0154104d4ea53040ab".into(),
            size: 24,
        },
    ]
}

#[test]
fn test_checksum_tree() {
    let mut sample = ChecksumTree::new();
    for f in sample_files() {
        sample.add_file(f).unwrap();
    }
    assert_eq!(sample.checksum(), "4313ab36412db2981c3ed391b38604d6-5--1516");
}

#[test]
fn test_from_files() {
    let mut sample = ChecksumTree::from_files(sample_files()).unwrap();
    assert_eq!(sample.checksum(), "4313ab36412db2981c3ed391b38604d6-5--1516");
    sample
        .add_file(FileChecksum {
            relpath: path("arr_0/1"),
            checksum: "d41d8cd98f00b204e9800998ecf8427e".into(),
            size: 0,
        })
        .unwrap();
    assert_eq!(sample.checksum(), "46bf6cacf13e20cd09eda687e367af3a-6--1516");
}

#[test]
fn test_from_files_permuted() {
    let mut files = sample_files();
    files.reverse();
    let sample = ChecksumTree::from_files(files).unwrap();
    assert_eq!(sample.checksum(), "4313ab36412db2981c3ed391b38604d6-5--1516");
}

#[test]
fn test_empty_tree_checksum() {
    assert_eq!(ChecksumTree::new().checksum(), "481a2f77ab786a0f45aafd5db0971caa-0--0");
}

#[test]
fn test_compile_checksum() {
    assert_eq!(
        compile_checksum(sample_files()).unwrap(),
        "4313ab36412db2981c3ed391b38604d6-5--1516"
    );
}

#[test]
fn test_double_add() {
    let mut tree = ChecksumTree::new();
    let f = FileChecksum {
        relpath: path("foo/bar"),
        checksum: "9e30a0a1a465e24220d4132fdd544634".into(),
        size: 1,
    };
    tree.add_file(f.clone()).unwrap();
    match tree.add_file(f) {
        Err(ChecksumTreeError::DoubleAdd { path: p }) => {
            assert_eq!(p, path("foo/bar"));
        }
        r => panic!("expected a double add, got {r:?}"),
    }
}

#[test]
fn test_file_over_directory_is_double_add() {
    let mut tree = ChecksumTree::new();
    tree.add_file(FileChecksum {
        relpath: path("foo/bar"),
        checksum: "9e30a0a1a465e24220d4132fdd544634".into(),
        size: 1,
    })
    .unwrap();
    match tree.add_file(FileChecksum {
        relpath: path("foo"),
        checksum: "d41d8cd98f00b204e9800998ecf8427e".into(),
        size: 0,
    }) {
        Err(ChecksumTreeError::DoubleAdd { path: p }) => {
            assert_eq!(p, path("foo"));
        }
        r => panic!("expected a double add, got {r:?}"),
    }
}

#[test]
fn test_path_type_conflict() {
    let mut tree = ChecksumTree::new();
    tree.add_file(FileChecksum {
        relpath: path("foo"),
        checksum: "9e30a0a1a465e24220d4132fdd544634".into(),
        size: 1,
    })
    .unwrap();
    match tree.add_file(FileChecksum {
        relpath: path("foo/bar/baz"),
        checksum: "d41d8cd98f00b204e9800998ecf8427e".into(),
        size: 0,
    }) {
        Err(ChecksumTreeError::PathTypeConflict { path: p }) => {
            assert_eq!(p, path("foo"));
        }
        r => panic!("expected a path type conflict, got {r:?}"),
    }
}

#[test]
fn test_draw_tree() {
    let sample = ChecksumTree::from_files(sample_files()).unwrap();
    let drawing = sample.draw();
    let lines = [
        "4313ab36412db2981c3ed391b38604d6-5--1516",
        "├── .zgroup = e20297935e73dd0154104d4ea53040ab",
        "├── arr_0/ = 51c74ec257069ce3a555bdddeb50230a-2--746",
        "│   ├── .zarray = 9e30a0a1a465e24220d4132fdd544634",
        "│   └── 0 = ed4e934a474f1d2096846c6248f18c00",
        "└── arr_1/ = 7b99a0ad9bd8bb3331657e54755b1a31-2--746",
        "    ├── .zarray = 9e30a0a1a465e24220d4132fdd544634",
        "    └── 0 = fba4dee03a51bde314e9713b00284a93",
    ];
    let expected = format!("{}\n", lines.join("\n"));
    assert_eq!(drawing, expected);
}

#[test]
fn test_draw_files_matches_tree_draw() {
    let direct = ChecksumTree::from_files(sample_files()).unwrap().draw();
    let combined = draw_files(sample_files()).unwrap();
    assert_eq!(direct, combined);
}

#[test]
fn test_draw_deeper_tree() {
    let files = vec![FileChecksum {
        relpath: path("foo/bar/baz/quux.dat"),
        checksum: "9e30a0a1a465e24220d4132fdd544634".into(),
        size: 315,
    }];
    let sample = ChecksumTree::from_files(files).unwrap();
    let drawing = sample.draw();
    let lines = [
        "2dc73d60f44b42c168b0e0dc81aa44b8-1--315",
        "└── foo/ = 348db3d80ccdd9a74e792593760b0070-1--315",
        "    └── bar/ = 6b59406727cc70a04ae099b4fa4b8fea-1--315",
        "        └── baz/ = 8c5ad66123476879b63bc830f36c6baa-1--315",
        "            └── quux.dat = 9e30a0a1a465e24220d4132fdd544634",
    ];
    let expected = format!("{}\n", lines.join("\n"));
    assert_eq!(drawing, expected);
}
