use archive_engine::browser::{
    activate, archive_rows, drive_rows, entered, fs_rows, parent_inner, rows_for, up, Activated, BrowseRow, DirEntry,
    Disk, Location, RowKind,
};
use archive_engine::codec::Codec;
use archive_engine::format::{Container, Format};
use archive_engine::listing::{Entry, Listing};
use std::sync::Arc;

fn sample() -> Listing {
    let entry = |name: &str, size: Option<u64>, is_dir: bool| Entry { name: name.to_string(), size, is_dir };
    Listing {
        format: Format::new(Container::Tar, Codec::Zstd),
        entries: vec![
            entry("project/", Some(0), true),
            entry("project/src/", Some(0), true),
            entry("project/src/main.rs", Some(13), false),
            entry("project/README", Some(100), false),
            entry("notes.txt", Some(5), false),
        ],
        single_stream: false,
    }
}

fn names(rows: &[BrowseRow]) -> Vec<(&str, RowKind)> {
    rows.iter().map(|r| (r.name.as_str(), r.kind)).collect()
}

#[test]
fn archive_root_shows_top_level_only() {
    let listing = sample();
    let rows = archive_rows(&listing, "");
    assert_eq!(
        names(&rows),
        vec![("..", RowKind::Parent), ("project", RowKind::Dir), ("notes.txt", RowKind::File),]
    );
}

#[test]
fn archive_subdir_projects_children() {
    let listing = sample();
    let rows = archive_rows(&listing, "project/");
    assert_eq!(names(&rows), vec![("..", RowKind::Parent), ("src", RowKind::Dir), ("README", RowKind::File),]);
}

#[test]
fn parent_inner_steps_up_one_level() {
    assert_eq!(parent_inner("project/src/"), "project/");
    assert_eq!(parent_inner("project/"), "");
    assert_eq!(parent_inner(""), "");
}

fn archive_at(inner: &str) -> Location {
    Location::Archive {
        path: "/data/bundle.tar.zst".to_string(),
        format: Format::new(Container::Tar, Codec::Zstd),
        listing: Arc::new(sample()),
        inner: inner.to_string(),
    }
}

#[test]
fn archive_rows_dedup_and_sort_folders_and_files() {
    let entry = |name: &str, is_dir: bool| Entry { name: name.to_string(), size: Some(1), is_dir };
    let listing = Listing {
        format: Format::new(Container::Zip, Codec::Store),
        entries: vec![
            entry("b/x", false),
            entry("a/y", false),
            entry("b/", true),
            entry("Zed.txt", false),
            entry("apple.txt", false),
            entry("Apple.txt", false),
        ],
        single_stream: false,
    };
    let rows = archive_rows(&listing, "");
    assert_eq!(
        names(&rows),
        vec![
            ("..", RowKind::Parent),
            ("a", RowKind::Dir),
            ("b", RowKind::Dir),
            ("apple.txt", RowKind::File),
            ("Apple.txt", RowKind::File),
            ("Zed.txt", RowKind::File),
        ]
    );
    assert_eq!(rows[3].size, Some(1));
    assert_eq!(rows[1].size, None);
}

#[test]
fn fs_rows_group_folders_then_files() {
    let e = |name: &str, is_dir: bool, size: Option<u64>| DirEntry { name: name.to_string(), is_dir, size };
    let rows = fs_rows(&[e("zeta", true, None), e("b.tar.gz", false, Some(9)), e("Alpha", true, None), e("a.txt", false, Some(3))]);
    assert_eq!(
        names(&rows),
        vec![
            ("..", RowKind::Parent),
            ("Alpha", RowKind::Dir),
            ("zeta", RowKind::Dir),
            ("a.txt", RowKind::File),
            ("b.tar.gz", RowKind::Archive),
        ]
    );
    assert_eq!(rows[4].size, Some(9));
}

#[test]
fn drive_rows_list_present_roots_else_unix_root() {
    let mut present = vec![false; 26];
    present[2] = true;
    present[3] = true;
    let rows = drive_rows(&present, true);
    assert_eq!(names(&rows), vec![("C:\\", RowKind::Drive), ("D:\\", RowKind::Drive)]);
    let rows = drive_rows(&vec![false; 26], true);
    assert_eq!(names(&rows), vec![("/", RowKind::Drive)]);
    assert!(drive_rows(&vec![false; 26], false).is_empty());
}

#[test]
fn rows_for_archive_location_projects_listing() {
    let disk = Disk { drives: vec![false; 26], unix_root: false, entries: Vec::new() };
    let rows = rows_for(&archive_at("project/src/"), &disk);
    assert_eq!(names(&rows), vec![("..", RowKind::Parent), ("main.rs", RowKind::File)]);
    assert_eq!(rows[1].size, Some(13));
}

#[test]
fn labels_read_as_breadcrumbs() {
    assert_eq!(Location::Drives.label(), "This PC");
    assert_eq!(Location::Fs("/home/user".to_string()).label(), "/home/user");
    assert_eq!(archive_at("").label(), "bundle.tar.zst  ›");
    assert_eq!(archive_at("project/src/").label(), "bundle.tar.zst  ›  project  ›  src");
    assert!(archive_at("").in_archive());
    assert!(!Location::Drives.can_up());
    assert!(Location::Fs("/".to_string()).can_up());
}

#[test]
fn up_climbs_archive_then_folder_then_drives() {
    match up(&archive_at("project/src/")) {
        Some(Location::Archive { inner, .. }) => assert_eq!(inner, "project/"),
        _ => panic!("expected a step up inside the archive"),
    }
    match up(&archive_at("")) {
        Some(Location::Fs(dir)) => assert_eq!(dir, "/data"),
        _ => panic!("expected the containing folder"),
    }
    assert!(matches!(up(&Location::Fs("/".to_string())), Some(Location::Drives)));
    assert!(up(&Location::Drives).is_none());
}

#[test]
fn activating_rows_navigates() {
    let dir_row = BrowseRow { name: "src".to_string(), kind: RowKind::Dir, size: None };
    match activate(&archive_at("project/"), &dir_row) {
        Activated::Go(Location::Archive { inner, .. }) => assert_eq!(inner, "project/src/"),
        _ => panic!("expected to step into the folder"),
    }
    let here = Location::Fs("/data".to_string());
    match activate(&here, &dir_row) {
        Activated::Go(Location::Fs(d)) => assert_eq!(d, "/data/src"),
        _ => panic!("expected to step into the directory"),
    }
    let arch = BrowseRow { name: "x.tar.gz".to_string(), kind: RowKind::Archive, size: Some(1) };
    match activate(&here, &arch) {
        Activated::Open { path, format } => {
            assert_eq!(path, "/data/x.tar.gz");
            assert_eq!(format, Format::new(Container::Tar, Codec::Gzip));
        }
        _ => panic!("expected an archive to open"),
    }
    let file = BrowseRow { name: "f".to_string(), kind: RowKind::File, size: None };
    assert!(matches!(activate(&here, &file), Activated::Stay));
    let drive = BrowseRow { name: "C:\\".to_string(), kind: RowKind::Drive, size: None };
    assert!(matches!(activate(&Location::Drives, &drive), Activated::Go(Location::Fs(_))));
}

#[test]
fn entering_an_archive_reports_failures() {
    match entered("/a.zip".to_string(), Format::new(Container::Zip, Codec::Store), Err("boom".to_string())) {
        Activated::Error(m) => assert_eq!(m, "could not read archive: boom"),
        _ => panic!("expected an error"),
    }
    match entered("/a.zip".to_string(), Format::new(Container::Zip, Codec::Store), Ok(sample())) {
        Activated::Go(Location::Archive { inner, path, .. }) => {
            assert_eq!(inner, "");
            assert_eq!(path, "/a.zip");
        }
        _ => panic!("expected the archive root"),
    }
}

#[test]
fn entering_then_going_up_returns() {
    let dir_row = BrowseRow { name: "src".to_string(), kind: RowKind::Dir, size: None };
    let start = archive_at("project/");
    let inside = match activate(&start, &dir_row) {
        Activated::Go(l) => l,
        _ => panic!("expected to step in"),
    };
    match up(&inside) {
        Some(Location::Archive { inner, .. }) => assert_eq!(inner, "project/"),
        _ => panic!("expected to step back out"),
    }
}
