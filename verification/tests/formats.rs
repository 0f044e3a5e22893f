use archive_engine::archive_kind::ArchiveKind;
use archive_engine::codec::{Codec, CodecOptions};
use archive_engine::format::{Container, Format};

#[test]
fn detects_formats_from_file_names() {
    assert_eq!(Format::from_filename("a.tar.gz"), Some(Format::new(Container::Tar, Codec::Gzip)));
    assert_eq!(Format::from_filename("A.TGZ"), Some(Format::new(Container::Tar, Codec::Gzip)));
    assert_eq!(Format::from_filename("x.gz"), Some(Format::new(Container::Raw, Codec::Gzip)));
    assert_eq!(Format::from_filename("x.abyss"), Some(Format::new(Container::Abyss, Codec::Ans)));
    assert_eq!(Format::from_filename("x.tar.ans"), Some(Format::new(Container::Tar, Codec::Ans)));
    assert_eq!(Format::from_filename("game.APK"), Some(Format::new(Container::Zip, Codec::Store)));
    assert_eq!(Format::from_filename("disc.iso"), Some(Format::new(Container::Iso, Codec::Store)));
    assert_eq!(Format::from_filename("notes.txt"), None);
    assert_eq!(Format::from_filename(""), None);
}

#[test]
fn detects_formats_from_paths() {
    assert_eq!(Format::from_path("/srv/backup.TAR.ZST"), Some(Format::new(Container::Tar, Codec::Zstd)));
    assert_eq!(Format::from_path("dir/data.7z"), Some(Format::new(Container::SevenZip, Codec::Store)));
    assert_eq!(Format::from_path("/srv/.."), None);
    assert_eq!(Format::from_path("/srv/file"), None);
}

#[test]
fn parses_format_names() {
    assert_eq!(Format::from_name(" Zstd "), Some(Format::new(Container::Raw, Codec::Zstd)));
    assert_eq!(Format::from_name("tar.bz2"), Some(Format::new(Container::Tar, Codec::Bzip2)));
    assert_eq!(Format::from_name("TBZ"), Some(Format::new(Container::Tar, Codec::Bzip2)));
    assert_eq!(Format::from_name("lzma"), Some(Format::new(Container::Raw, Codec::Xz)));
    assert_eq!(Format::from_name("sevenzip"), Some(Format::new(Container::SevenZip, Codec::Store)));
    assert_eq!(Format::from_name("\tabyss\n"), Some(Format::new(Container::Abyss, Codec::Ans)));
    assert_eq!(Format::from_name("rar5"), None);
}

#[test]
fn labels_formats() {
    assert_eq!(Format::new(Container::Tar, Codec::Zstd).label(), "tar.zstd");
    assert_eq!(Format::new(Container::Tar, Codec::Store).label(), "tar");
    assert_eq!(Format::new(Container::Raw, Codec::Brotli).label(), "brotli");
    assert_eq!(Format::new(Container::Zip, Codec::Gzip).label(), "zip");
    assert_eq!(Format::new(Container::SevenZip, Codec::Store).label(), "7z");
    assert_eq!(Format::new(Container::Abyss, Codec::Ans).label(), "abyss");
}

#[test]
fn containers_know_if_writable() {
    assert!(Container::Tar.writable());
    assert!(Container::Abyss.writable());
    assert!(!Container::Rar.writable());
    assert!(!Container::Iso.writable());
    assert!(!Container::SevenZip.writable());
}

#[test]
fn codec_names_and_extensions() {
    assert_eq!(Codec::Zstd.name(), "zstd");
    assert_eq!(Codec::Ans.name(), "ans");
    assert_eq!(Codec::Bzip2.extensions(), &[".bz2"]);
    assert!(Codec::Store.extensions().is_empty());
}

#[test]
fn codec_levels_are_clamped() {
    assert_eq!(Codec::Gzip.level(None), Some(6));
    assert_eq!(Codec::Gzip.level(Some(42)), Some(9));
    assert_eq!(Codec::Bzip2.level(Some(0)), Some(1));
    assert_eq!(Codec::Brotli.level(Some(11)), Some(11));
    assert_eq!(Codec::Brotli.level(Some(-3)), Some(0));
    assert_eq!(Codec::Zstd.level(Some(-5)), Some(1));
    assert_eq!(Codec::Zstd.level(Some(30)), Some(22));
    assert_eq!(Codec::Zstd.level(Some(19)), Some(19));
    assert_eq!(Codec::Zstd.level(None), Some(3));
    assert_eq!(Codec::Lz4.level(Some(5)), None);
    let opts = CodecOptions::new(Some(19), 0);
    assert_eq!(opts.workers(8), 8);
    assert_eq!(CodecOptions::new(None, 3).workers(8), 3);
    let d = CodecOptions::default();
    assert_eq!((d.level, d.threads), (None, 0));
}

#[test]
fn archive_kinds_describe_themselves() {
    assert_eq!(ArchiveKind::all()[3], ArchiveKind::Brotli);
    assert_eq!(ArchiveKind::Zstd.format(), Format::new(Container::Tar, Codec::Zstd));
    assert_eq!(ArchiveKind::Zip.format(), Format::new(Container::Zip, Codec::Store));
    assert_eq!(ArchiveKind::Xz.extension(), ".tar.xz");
    assert_eq!(ArchiveKind::Zstd.level_range(), Some((1, 22, 3)));
    assert_eq!(ArchiveKind::Lz4.level_range(), None);
    assert_eq!(ArchiveKind::Bzip2.default_level(), 9);
    assert_eq!(ArchiveKind::TarStore.default_level(), 0);
    assert!(ArchiveKind::Zstd.uses_threads());
    assert!(!ArchiveKind::Gzip.uses_threads());
    assert_eq!(ArchiveKind::Lz4.tagline(), "Raw velocity. The fastest blade.");
    assert_eq!(ArchiveKind::Xz.display_name(), "XZ / LZMA   (.tar.xz)");
}

#[test]
fn format_names_agree_with_suffix_detection() {
    for n in [
        "tar", "tgz", "tar.gz", "tzst", "tar.zst", "txz", "tar.xz", "tbz", "tbz2", "tar.bz2", "tar.lz4", "tar.br",
        "tar.ans", "gz", "zst", "lz4", "xz", "bz2", "br", "ans", "abyss", "zip", "jar", "war", "ear", "apk", "zipx",
        "7z", "rar", "iso",
    ] {
        let by_name = Format::from_name(n);
        assert!(by_name.is_some(), "{n}");
        assert_eq!(by_name, Format::from_path(&format!("archive.{n}")), "{n}");
    }
}

#[test]
fn raw_codec_suffixes_are_detected_back() {
    for c in [Codec::Gzip, Codec::Zstd, Codec::Lz4, Codec::Xz, Codec::Bzip2, Codec::Brotli, Codec::Ans] {
        assert_eq!(c.extensions().len(), 1);
        let e = c.extensions()[0];
        assert_eq!(Format::from_path(&format!("data{e}")), Some(Format::new(Container::Raw, c)));
    }
    assert!(Codec::Store.extensions().is_empty());
}

#[test]
fn kind_extensions_are_detected_back() {
    for k in ArchiveKind::all() {
        assert_eq!(Format::from_path(&format!("archive{}", k.extension())), Some(k.format()));
    }
}
