use archive_engine::archive_kind::ArchiveKind;
use archive_engine::browser::{BrowseRow, DirEntry, Disk, Location, RowKind};
use archive_engine::codec::Codec;
use archive_engine::format::{Container, Format};
use archive_engine::gui::{Abyss, Action, BrowseStatus, Message, Mode, Status};
use archive_engine::launch::Launch;
use archive_engine::listing::{Entry, Listing};
use archive_engine::update::UpdateInfo;

fn no_disk() -> Disk {
    Disk { drives: vec![false; 26], unix_root: true, entries: Vec::new() }
}

fn home_disk() -> Disk {
    let e = |name: &str, is_dir: bool, size: Option<u64>| DirEntry { name: name.to_string(), is_dir, size };
    Disk {
        drives: Vec::new(),
        unix_root: false,
        entries: vec![e("notes.txt", false, Some(12)), e("docs", true, None), e("bundle.tar.zst", false, Some(900))],
    }
}

fn window() -> Abyss {
    Abyss::new(Location::Drives, &no_disk())
}

fn commander() -> Abyss {
    let mut app = Abyss::new(Location::Fs("/home".to_string()), &home_disk());
    app.update(Message::ModeSelected(Mode::Browse));
    app
}

fn names(rows: &[BrowseRow]) -> Vec<(&str, RowKind)> {
    rows.iter().map(|r| (r.name.as_str(), r.kind)).collect()
}

fn strings(v: &[&str]) -> Vec<String> {
    v.iter().map(|s| s.to_string()).collect()
}

fn sample_listing() -> Listing {
    Listing {
        format: Format::new(Container::Tar, Codec::Zstd),
        entries: vec![
            Entry { name: "src/".to_string(), size: Some(0), is_dir: true },
            Entry { name: "src/main.rs".to_string(), size: Some(10), is_dir: false },
            Entry { name: "README".to_string(), size: Some(3), is_dir: false },
        ],
        single_stream: false,
    }
}

#[test]
fn fresh_window_starts_on_compress_with_zstd() {
    let app = window();
    assert_eq!(app.mode, Mode::Compress);
    assert_eq!(app.kind, ArchiveKind::Zstd);
    assert_eq!(app.level, 3);
    assert_eq!(app.threads, 0);
    assert!(app.inputs.is_empty());
    assert!(app.output.is_none());
    assert!(app.output_is_auto);
    assert!(matches!(app.status, Status::Idle));
    assert_eq!(names(&app.rows), vec![("/", RowKind::Drive)]);
    assert_eq!(app.idle_hint(), "Add sources to begin.");
}

#[test]
fn picked_files_are_added_once_and_name_the_output() {
    let mut app = window();
    let a = app.update(Message::FilesPicked(strings(&["/data/report.txt", "/data/report.txt", "/data/b.txt"])));
    assert!(matches!(a, Action::Nothing));
    assert_eq!(app.inputs, strings(&["/data/report.txt", "/data/b.txt"]));
    assert_eq!(app.output.as_deref(), Some("/data/report.tar.zst"));
    app.update(Message::FolderPicked(Some("/data/b.txt".to_string())));
    assert_eq!(app.inputs.len(), 2);
    assert_eq!(app.idle_hint(), "Ready to fold.");
}

#[test]
fn kind_change_resuggests_the_output_and_resets_the_level() {
    let mut app = window();
    app.update(Message::FilesPicked(strings(&["/data/report.txt"])));
    app.update(Message::LevelChanged(19));
    app.update(Message::KindSelected(ArchiveKind::Zip));
    assert_eq!(app.level, 6);
    assert_eq!(app.output.as_deref(), Some("/data/report.zip"));
    app.update(Message::KindSelected(ArchiveKind::Lz4));
    assert_eq!(app.level, 0);
    assert_eq!(app.output.as_deref(), Some("/data/report.tar.lz4"));
}

#[test]
fn a_typed_output_is_resuffixed_not_replaced() {
    let mut app = window();
    app.update(Message::FilesPicked(strings(&["/data/report.txt"])));
    app.update(Message::OutputEdited("/out/x.tar.gz".to_string()));
    assert!(!app.output_is_auto);
    app.update(Message::KindSelected(ArchiveKind::Xz));
    assert_eq!(app.output.as_deref(), Some("/out/x.tar.xz"));
    app.update(Message::ClearInputs);
    assert_eq!(app.output.as_deref(), Some("/out/x.tar.xz"));
    app.update(Message::OutputEdited("   ".to_string()));
    assert!(app.output.is_none());
}

#[test]
fn removing_sources_follows_the_first_one() {
    let mut app = window();
    app.update(Message::FilesPicked(strings(&["/a/one.txt", "/b/two.txt"])));
    app.update(Message::RemoveInput(5));
    assert_eq!(app.inputs.len(), 2);
    app.update(Message::RemoveInput(0));
    assert_eq!(app.inputs, strings(&["/b/two.txt"]));
    assert_eq!(app.output.as_deref(), Some("/b/two.tar.zst"));
    app.update(Message::RemoveInput(0));
    assert!(app.output.is_none());
}

#[test]
fn negative_thread_counts_mean_every_core() {
    let mut app = window();
    app.update(Message::ThreadsChanged(-4));
    assert_eq!(app.threads, 0);
    app.update(Message::ThreadsChanged(6));
    assert_eq!(app.threads, 6);
}

#[test]
fn start_sends_the_compress_job_and_locks_the_panels() {
    let mut app = window();
    app.update(Message::FilesPicked(strings(&["/data/report.txt"])));
    app.update(Message::OutputEdited("backup".to_string()));
    app.update(Message::ThreadsChanged(2));
    match app.update(Message::Start) {
        Action::Compress { inputs, dest, format, options, label } => {
            assert_eq!(inputs, strings(&["/data/report.txt"]));
            assert_eq!(dest, "/data/backup.tar.zst");
            assert_eq!(format, Format::new(Container::Tar, Codec::Zstd));
            assert_eq!(options.level, Some(3));
            assert_eq!(options.threads, 2);
            assert_eq!(label, "Zstandard   (.tar.zst)");
        },
        _ => panic!("expected a compress job"),
    }
    assert_eq!(app.output.as_deref(), Some("/data/backup.tar.zst"));
    assert!(app.busy());
    assert!(!app.ready());
    assert!(matches!(app.update(Message::Start), Action::Nothing));
    app.update(Message::ModeSelected(Mode::Extract));
    assert_eq!(app.mode, Mode::Compress);
    app.update(Message::JobFinished(Ok("folded".to_string())));
    assert!(matches!(&app.status, Status::Done(m) if m == "folded"));
    app.update(Message::ModeSelected(Mode::Extract));
    assert_eq!(app.mode, Mode::Extract);
    assert!(matches!(app.status, Status::Idle));
}

#[test]
fn store_kinds_send_no_level() {
    let mut app = window();
    app.update(Message::KindSelected(ArchiveKind::TarStore));
    app.update(Message::FilesPicked(strings(&["/data/report.txt"])));
    match app.update(Message::Start) {
        Action::Compress { dest, options, .. } => {
            assert_eq!(dest, "/data/report.tar");
            assert_eq!(options.level, None);
        },
        _ => panic!("expected a compress job"),
    }
}

#[test]
fn start_without_sources_does_nothing() {
    let mut app = window();
    assert!(!app.ready());
    assert!(matches!(app.update(Message::Start), Action::Nothing));
    assert!(matches!(app.status, Status::Idle));
    app.update(Message::JobFinished(Err("late".to_string())));
    assert!(matches!(app.status, Status::Idle));
}

#[test]
fn a_dropped_archive_opens_for_extraction_and_lists() {
    let mut app = window();
    app.update(Message::ModeSelected(Mode::Extract));
    assert_eq!(app.idle_hint(), "Open an archive to begin.");
    match app.update(Message::FileDropped { path: "/data/Bundle.TAR.ZST".to_string(), is_dir: false }) {
        Action::List { path, format } => {
            assert_eq!(path, "/data/Bundle.TAR.ZST");
            assert_eq!(format, Format::new(Container::Tar, Codec::Zstd));
        },
        _ => panic!("expected a listing"),
    }
    assert_eq!(app.dest.as_deref(), Some("/data"));
    assert_eq!(app.idle_hint(), "Ready to unfold.");
    app.update(Message::Listed { path: "/elsewhere.zip".to_string(), listing: Some(sample_listing()) });
    assert!(app.listing.is_none());
    app.update(Message::Listed { path: "/data/Bundle.TAR.ZST".to_string(), listing: Some(sample_listing()) });
    assert_eq!(app.listing.as_ref().map(|l| l.entries.len()), Some(3));
    match app.update(Message::Start) {
        Action::Extract { src, dest, format } => {
            assert_eq!(src, "/data/Bundle.TAR.ZST");
            assert_eq!(dest, "/data");
            assert_eq!(format, Format::new(Container::Tar, Codec::Zstd));
        },
        _ => panic!("expected an extract job"),
    }
}

#[test]
fn an_unknown_archive_is_refused() {
    let mut app = window();
    app.update(Message::ModeSelected(Mode::Extract));
    let a = app.update(Message::ArchivePicked(Some("/data/photo.png".to_string())));
    assert!(matches!(a, Action::Nothing));
    assert!(matches!(&app.status,
        Status::Failed(m) if m == "Unknown extension \u{2014} the Abyss does not recognize this form."));
    assert!(!app.ready());
}

#[test]
fn dialogs_open_beside_the_sources() {
    let mut app = window();
    app.update(Message::FilesPicked(strings(&["/data/report.txt"])));
    match app.update(Message::BrowseOutput) {
        Action::SaveAs { name, dir } => {
            assert_eq!(name, "report.tar.zst");
            assert_eq!(dir.as_deref(), Some("/data"));
        },
        _ => panic!("expected the save dialog"),
    }
    app.update(Message::OutputChosen(Some("/x/y.tar.zst".to_string())));
    assert!(!app.output_is_auto);
    app.update(Message::ArchivePicked(Some("/arch/a.zip".to_string())));
    match app.update(Message::ChooseDest) {
        Action::PickDest { dir } => assert_eq!(dir.as_deref(), Some("/arch")),
        _ => panic!("expected the folder dialog"),
    }
    app.update(Message::DestPicked(Some("/out".to_string())));
    assert_eq!(app.dest.as_deref(), Some("/out"));
}

#[test]
fn commander_steps_into_folders_and_opens_files_on_double_click() {
    let mut app = commander();
    assert_eq!(
        names(&app.rows),
        vec![("..", RowKind::Parent), ("docs", RowKind::Dir), ("bundle.tar.zst", RowKind::Archive), ("notes.txt", RowKind::File)]
    );
    match app.update(Message::BrowseActivate { index: 1, at_ms: 1000 }) {
        Action::Visit(Location::Fs(d)) => assert_eq!(d, "/home/docs"),
        _ => panic!("expected a visit"),
    }
    assert!(matches!(app.update(Message::BrowseActivate { index: 3, at_ms: 5000 }), Action::Nothing));
    assert_eq!(app.selected, Some(3));
    match app.update(Message::BrowseActivate { index: 3, at_ms: 5300 }) {
        Action::OpenPath(p) => assert_eq!(p, "/home/notes.txt"),
        _ => panic!("expected the file to open"),
    }
    assert!(matches!(app.update(Message::BrowseActivate { index: 3, at_ms: 9000 }), Action::Nothing));
    assert!(matches!(app.update(Message::BrowseActivate { index: 42, at_ms: 9100 }), Action::Nothing));
}

#[test]
fn commander_enters_an_archive_and_climbs_back_out() {
    let mut app = commander();
    let (path, format) = match app.update(Message::BrowseActivate { index: 2, at_ms: 0 }) {
        Action::Enter { path, format, quiet } => {
            assert!(!quiet);
            (path, format)
        },
        _ => panic!("expected to enter the archive"),
    };
    assert_eq!(path, "/home/bundle.tar.zst");
    let a = app.update(Message::Entered { path, format, listing: Ok(sample_listing()), quiet: false });
    assert!(matches!(a, Action::Nothing));
    assert!(app.location.in_archive());
    assert_eq!(names(&app.rows), vec![("..", RowKind::Parent), ("src", RowKind::Dir), ("README", RowKind::File)]);
    assert!(matches!(app.update(Message::BrowseActivate { index: 1, at_ms: 10 }), Action::Nothing));
    assert_eq!(names(&app.rows), vec![("..", RowKind::Parent), ("main.rs", RowKind::File)]);
    match app.update(Message::BrowseActivate { index: 1, at_ms: 2000 }) {
        Action::Nothing => {},
        _ => panic!("a single click only selects"),
    }
    match app.update(Message::BrowseActivate { index: 1, at_ms: 2100 }) {
        Action::OpenMember { src, member, name, .. } => {
            assert_eq!(src, "/home/bundle.tar.zst");
            assert_eq!(member, "src/main.rs");
            assert_eq!(name, "main.rs");
        },
        _ => panic!("expected the member to open"),
    }
    assert!(matches!(app.browse_status(), BrowseStatus::Opening(n) if n == "main.rs"));
    app.update(Message::FileOpened(Err("no viewer".to_string())));
    assert!(app.opening.is_none());
    assert!(matches!(app.browse_status(), BrowseStatus::Error(e) if e == "no viewer"));
    assert!(matches!(app.update(Message::BrowseUp), Action::Nothing));
    assert_eq!(names(&app.rows), vec![("..", RowKind::Parent), ("src", RowKind::Dir), ("README", RowKind::File)]);
    match app.update(Message::BrowseUp) {
        Action::Visit(Location::Fs(d)) => assert_eq!(d, "/home"),
        _ => panic!("expected to climb out to the folder"),
    }
}

#[test]
fn a_failed_listing_is_shown_unless_quiet() {
    let mut app = commander();
    let f = Format::new(Container::Tar, Codec::Zstd);
    app.update(Message::Entered { path: "/home/x.tar.zst".to_string(), format: f, listing: Err("bad".to_string()), quiet: true });
    assert!(app.browse_error.is_none());
    app.update(Message::Entered { path: "/home/x.tar.zst".to_string(), format: f, listing: Err("bad".to_string()), quiet: false });
    assert_eq!(app.browse_error.as_deref(), Some("could not read archive: bad"));
}

#[test]
fn an_archive_dropped_on_the_commander_is_entered_from_its_folder() {
    let mut app = commander();
    match app.update(Message::FileDropped { path: "/home/bundle.tar.zst".to_string(), is_dir: false }) {
        Action::Visit(Location::Fs(d)) => assert_eq!(d, "/home"),
        _ => panic!("expected a visit"),
    }
    match app.update(Message::Arrived { location: Location::Fs("/home".to_string()), disk: home_disk() }) {
        Action::Enter { path, quiet, .. } => {
            assert_eq!(path, "/home/bundle.tar.zst");
            assert!(quiet);
        },
        _ => panic!("expected to enter the dropped archive"),
    }
    assert!(app.pending_archive.is_none());
    match app.update(Message::FileDropped { path: "/srv".to_string(), is_dir: true }) {
        Action::Visit(Location::Fs(d)) => assert_eq!(d, "/srv"),
        _ => panic!("expected a visit"),
    }
    let a = app.update(Message::Arrived { location: Location::Fs("/srv".to_string()), disk: home_disk() });
    assert!(matches!(a, Action::Nothing));
}

#[test]
fn commander_sends_the_selection_to_compress() {
    let mut app = commander();
    app.update(Message::BrowseActivate { index: 3, at_ms: 0 });
    assert!(matches!(app.browse_status(), BrowseStatus::Selected(p) if p == "/home/notes.txt"));
    app.update(Message::BrowseToCompress);
    assert_eq!(app.mode, Mode::Compress);
    assert_eq!(app.inputs, strings(&["/home/notes.txt"]));
    assert_eq!(app.output.as_deref(), Some("/home/notes.tar.zst"));
}

#[test]
fn commander_summary_counts_items() {
    let app = commander();
    assert!(matches!(app.browse_status(), BrowseStatus::Summary { count: 3, in_archive: false }));
    let mut app = commander();
    assert!(matches!(app.update(Message::BrowseHome), Action::Visit(Location::Drives)));
    assert!(matches!(app.update(Message::BrowseRefresh), Action::Visit(Location::Fs(_))));
}

#[test]
fn extract_here_opens_the_archive_being_browsed() {
    let mut app = commander();
    app.update(Message::Entered {
        path: "/home/bundle.tar.zst".to_string(),
        format: Format::new(Container::Tar, Codec::Zstd),
        listing: Ok(sample_listing()),
        quiet: false,
    });
    assert!(matches!(app.update(Message::BrowseExtractHere), Action::List { .. }));
    assert_eq!(app.mode, Mode::Extract);
    assert_eq!(app.archive.as_deref(), Some("/home/bundle.tar.zst"));
    assert_eq!(app.dest.as_deref(), Some("/home"));
}

#[test]
fn forwarded_paths_join_the_sources_unless_busy() {
    let mut app = commander();
    app.update(Message::PollExternal(Vec::new()));
    assert_eq!(app.mode, Mode::Browse);
    app.update(Message::PollExternal(strings(&["/x/a.txt", "/x/b.txt"])));
    assert_eq!(app.mode, Mode::Compress);
    assert_eq!(app.inputs.len(), 2);
    app.update(Message::Start);
    app.update(Message::PollExternal(strings(&["/x/c.txt"])));
    assert_eq!(app.inputs.len(), 2);
}

#[test]
fn the_update_prompt_opens_the_release_page_once() {
    let mut app = window();
    app.update(Message::UpdateChecked(Some(UpdateInfo {
        version: "0.4.0".to_string(),
        url: "https://example.invalid/release".to_string(),
    })));
    match app.update(Message::OpenRelease) {
        Action::OpenUrl(u) => assert_eq!(u, "https://example.invalid/release"),
        _ => panic!("expected the release page"),
    }
    assert!(app.update.is_none());
    assert!(matches!(app.update(Message::OpenRelease), Action::Nothing));
    app.update(Message::UpdateChecked(None));
    app.update(Message::DismissUpdate);
    assert!(app.update.is_none());
}

#[test]
fn boot_applies_the_launch() {
    let (app, a) = Abyss::boot(Launch::Extract("/d/a.tar.gz".to_string()), true, Location::Drives, &no_disk(), false);
    assert_eq!(app.mode, Mode::Extract);
    assert!(app.ipc_enabled);
    assert!(matches!(a, Action::List { .. }));
    let (app, a) = Abyss::boot(Launch::Compress("/d/report.txt".to_string()), false, Location::Drives, &no_disk(), false);
    assert_eq!(app.mode, Mode::Compress);
    assert_eq!(app.output.as_deref(), Some("/d/report.tar.zst"));
    assert!(matches!(a, Action::Nothing));
    let (app, a) = Abyss::boot(Launch::Browse("/d".to_string()), false, Location::Drives, &no_disk(), true);
    assert_eq!(app.mode, Mode::Browse);
    assert!(matches!(a, Action::Visit(Location::Fs(d)) if d == "/d"));
    let (app, a) = Abyss::boot(Launch::Normal, false, Location::Drives, &no_disk(), false);
    assert_eq!(app.mode, Mode::Compress);
    assert!(matches!(a, Action::Nothing));
}
