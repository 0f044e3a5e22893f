use archive_engine::abyss::{payload_password, read_header, write_header, AbyssError};
use archive_engine::codec::Codec;
use archive_engine::compress::{check_inputs, InputError, InputState};
use archive_engine::format::{Container, Format};
use archive_engine::launch::{launch_from, reext, Launch};
use archive_engine::listing::{list, raw_output_name, Entry};
use archive_engine::members::{clean, enclosed, normalize_member};
use archive_engine::progress::Progress;
use archive_engine::util::total_size;

#[test]
fn members_normalize_for_comparison() {
    assert_eq!(normalize_member("dir\\sub\\file.txt"), "dir/sub/file.txt");
    assert_eq!(normalize_member("dir/sub//"), "dir/sub");
    assert_eq!(normalize_member("///"), "");
}

#[test]
fn iso_names_lose_version_suffix() {
    assert_eq!(clean("README.TXT;1"), "README.TXT");
    assert_eq!(clean("A;B;12"), "A;B");
    assert_eq!(clean("NOTE;"), "NOTE;");
    assert_eq!(clean("NOTE;1a"), "NOTE;1a");
    assert_eq!(clean("PLAIN"), "PLAIN");
}

#[test]
fn enclosed_refuses_escapes() {
    assert_eq!(enclosed("/out", "a/b.txt"), Some("/out/a/b.txt".to_string()));
    assert_eq!(enclosed("/out", "a\\.\\b.txt"), Some("/out/a/b.txt".to_string()));
    assert_eq!(enclosed("/out", "../etc/passwd"), None);
    assert_eq!(enclosed("/out", "a/../../b"), None);
    assert_eq!(enclosed("/out", "./"), None);
    assert_eq!(enclosed("/out", ""), None);
}

#[test]
fn enclosed_refuses_absolute_members() {
    assert_eq!(enclosed("/out", "/etc/passwd"), None);
    assert_eq!(enclosed("/out", "\\Windows\\system.ini"), None);
    assert_eq!(enclosed("/out", "\\\\server\\share\\x"), None);
    assert_eq!(enclosed("/out", "C:\\boot.ini"), None);
    assert_eq!(enclosed("/out", "d:/x"), None);
    assert_eq!(enclosed("/out", "dir:name/x"), Some("/out/dir:name/x".to_string()));
}

#[test]
fn raw_names_strip_codec_suffix() {
    assert_eq!(raw_output_name("/d/archive.txt.zst", Codec::Zstd), "archive.txt");
    assert_eq!(raw_output_name("/d/archive.bin", Codec::Zstd), "archive");
    assert_eq!(raw_output_name("/d/.zst", Codec::Zstd), ".zst");
    assert_eq!(raw_output_name("/", Codec::Gzip), "output");
}

#[test]
fn raw_listing_has_one_sizeless_member() {
    let l = list("/d/data.csv.gz", Format::new(Container::Raw, Codec::Gzip), Vec::new());
    assert!(l.single_stream);
    assert_eq!(l.entries.len(), 1);
    assert_eq!(l.entries[0].name, "data.csv");
    assert_eq!(l.entries[0].size, None);
    let members = vec![Entry { name: "a".to_string(), size: Some(1), is_dir: false }];
    let l = list("/d/x.zip", Format::new(Container::Zip, Codec::Store), members);
    assert!(!l.single_stream);
    assert_eq!(l.entries[0].name, "a");
}

#[test]
fn abyss_header_roundtrips_and_rejects() {
    let mut out = Vec::new();
    write_header(&mut out, true);
    assert_eq!(out, b"ABYSSC\x01\x01".to_vec());
    assert_eq!(read_header(&out), Ok(true));
    let mut plain = Vec::new();
    write_header(&mut plain, false);
    assert_eq!(read_header(&plain), Ok(false));
    assert_eq!(read_header(b"ABYSS"), Err(AbyssError::Truncated));
    assert_eq!(read_header(b"ABYSSX\x01\x00"), Err(AbyssError::BadMagic));
    assert_eq!(read_header(b"ABYSSC\x01"), Err(AbyssError::Truncated));
    assert_eq!(read_header(b"ABYSSC\x02\x00"), Err(AbyssError::UnsupportedVersion(2)));
    assert_eq!(payload_password(true, None), Err(AbyssError::PasswordRequired));
    assert_eq!(payload_password(true, Some("pw")), Ok(Some("pw")));
    assert_eq!(payload_password(false, Some("pw")), Ok(None));
}

#[test]
fn compression_inputs_are_checked() {
    let file = InputState { exists: true, is_dir: false };
    let dir = InputState { exists: true, is_dir: true };
    let gone = InputState { exists: false, is_dir: false };
    let raw = Format::new(Container::Raw, Codec::Zstd);
    let tar = Format::new(Container::Tar, Codec::Zstd);
    assert_eq!(check_inputs(tar, &[]), Err(InputError::NoInputs));
    assert_eq!(check_inputs(tar, &[file, gone]), Err(InputError::NotFound(1)));
    assert_eq!(check_inputs(raw, &[dir]), Err(InputError::SingleStreamTakesOneFile));
    assert_eq!(check_inputs(raw, &[file, file]), Err(InputError::SingleStreamTakesOneFile));
    assert_eq!(check_inputs(raw, &[file]), Ok(()));
    assert_eq!(check_inputs(tar, &[dir, file]), Ok(()));
    assert_eq!(check_inputs(Format::new(Container::Rar, Codec::Store), &[file]), Err(InputError::ReadOnly));
}

#[test]
fn sizes_add_up() {
    assert_eq!(total_size(&[1, 2, 3]), 6);
    assert_eq!(total_size(&[]), 0);
}

#[test]
fn progress_counts() {
    let p = Progress::new();
    assert_eq!((p.processed(), p.total()), (0, 0));
    p.set_total(10);
    p.add(4);
    p.add(3);
    assert_eq!((p.processed(), p.total()), (7, 10));
}

#[test]
fn output_names_take_the_new_suffix() {
    assert_eq!(reext("/tmp/backup.tar.gz", ".zip"), "/tmp/backup.zip");
    assert_eq!(reext("/tmp/Backup.TGZ", ".tar.xz"), "/tmp/Backup.tar.xz");
    assert_eq!(reext("notes", ".tar"), "notes.tar");
    assert_eq!(reext("/tmp/a.txt", ".zip"), "/tmp/a.txt.zip");
}

#[test]
fn launch_arguments_pick_a_mode() {
    assert!(matches!(launch_from(None, None, false, false), Launch::Normal));
    assert!(matches!(launch_from(Some("-c"), Some("/x"), false, false), Launch::Compress(p) if p == "/x"));
    assert!(matches!(launch_from(Some("--extract"), None, false, false), Launch::Normal));
    assert!(matches!(launch_from(Some("-b"), Some("/d"), false, false), Launch::Browse(p) if p == "/d"));
    assert!(matches!(launch_from(Some("/a.zip"), None, true, false), Launch::Extract(p) if p == "/a.zip"));
    assert!(matches!(launch_from(Some("/dir.zip"), None, true, true), Launch::Compress(_)));
    assert!(matches!(launch_from(Some("/missing"), None, false, false), Launch::Normal));
    let l = launch_from(Some("/a.txt"), None, true, false);
    assert_eq!(l.forward_paths(), vec!["/a.txt".to_string()]);
    assert!(Launch::Normal.forward_paths().is_empty());
}
