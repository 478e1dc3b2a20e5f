use rutree2::classify::classify;
use rutree2::classify::classify_extension;
use rutree2::classify::classify_name;
use rutree2::classify::classify_posix;
use rutree2::classify::ColorClass;
use rutree2::classify::EntryFacts;
use rutree2::classify::Metadata;
use rutree2::classify::PosixAttrs;
use rutree2::classify::SpecialKind;
use rutree2::classify::MODE_EXECUTABLE;
use rutree2::classify::MODE_SETGID;
use rutree2::classify::MODE_SETUID;
use rutree2::classify::MODE_STICKY_BIT;
use rutree2::classify::MODE_WORLD_WRITABLE;

fn file_with(mode: u32, special: SpecialKind) -> EntryFacts {
    EntryFacts {
        is_symlink: false,
        metadata: Some(Metadata { is_dir: false, posix: Some(PosixAttrs { mode, special }) }),
    }
}

fn file(mode: u32) -> EntryFacts {
    file_with(mode, SpecialKind::Ordinary)
}

fn dir(mode: u32) -> EntryFacts {
    EntryFacts {
        is_symlink: false,
        metadata: Some(Metadata {
            is_dir: true,
            posix: Some(PosixAttrs { mode, special: SpecialKind::Ordinary }),
        }),
    }
}

#[test]
fn test_permission_constants() {
    assert_eq!(MODE_STICKY_BIT, 0o1000);
    assert_eq!(MODE_SETUID, 0o4000);
    assert_eq!(MODE_SETGID, 0o2000);
    assert_eq!(MODE_EXECUTABLE, 0o111);
    assert_eq!(MODE_WORLD_WRITABLE, 0o002);
}

#[test]
fn symlink_comes_first() {
    let link_to_executable = EntryFacts { is_symlink: true, ..file(0o755) };
    assert_eq!(classify(&link_to_executable, "run.sh"), ColorClass::Symlink);
    let link_to_directory = EntryFacts { is_symlink: true, ..dir(0o1777) };
    assert_eq!(classify(&link_to_directory, "tmp"), ColorClass::Symlink);
    let broken = EntryFacts { is_symlink: true, metadata: None };
    assert_eq!(classify(&broken, "gone.zip"), ColorClass::Symlink);
}

#[test]
fn unreadable_metadata_is_plain() {
    let facts = EntryFacts { is_symlink: false, metadata: None };
    assert_eq!(classify(&facts, "photo.png"), ColorClass::Plain);
    assert_eq!(classify(&facts, "anything"), ColorClass::Plain);
}

#[test]
fn directories_and_the_sticky_bit() {
    assert_eq!(classify(&dir(0o755), "src"), ColorClass::Directory);
    assert_eq!(classify(&dir(0o1777), "tmp"), ColorClass::StickyDirectory);
    // Set-user-id and the extension say nothing of a directory.
    assert_eq!(classify(&dir(0o4755), "odd.zip"), ColorClass::Directory);
    let no_bits = EntryFacts {
        is_symlink: false,
        metadata: Some(Metadata { is_dir: true, posix: None }),
    };
    assert_eq!(classify(&no_bits, "tmp"), ColorClass::Directory);
}

#[test]
fn special_files_come_before_permission_bits() {
    assert_eq!(
        classify(&file_with(0o6777, SpecialKind::CharDevice), "tty"),
        ColorClass::SpecialDevice
    );
    assert_eq!(
        classify(&file_with(0o660, SpecialKind::BlockDevice), "sda"),
        ColorClass::SpecialDevice
    );
    assert_eq!(
        classify(&file_with(0o4777, SpecialKind::Socket), "ctl.sock"),
        ColorClass::SpecialSocket
    );
    assert_eq!(classify(&file_with(0o644, SpecialKind::Fifo), "pipe"), ColorClass::SpecialSocket);
}

#[test]
fn setuid_dominates_executable() {
    assert_eq!(classify(&file(0o4755), "sudo"), ColorClass::SetuidFile);
    assert_eq!(classify(&file(0o4001), "sudo"), ColorClass::SetuidFile);
    assert_eq!(classify(&file(0o6777), "both.tar"), ColorClass::SetuidFile);
}

#[test]
fn permission_bits_in_order() {
    assert_eq!(classify(&file(0o2755), "wall"), ColorClass::SetgidFile);
    assert_eq!(classify(&file(0o2002), "wall"), ColorClass::SetgidFile);
    assert_eq!(classify(&file(0o777), "open.sh"), ColorClass::WorldWritable);
    assert_eq!(classify(&file(0o666), "open.zip"), ColorClass::WorldWritable);
    assert_eq!(classify(&file(0o755), "run.png"), ColorClass::Executable);
    assert_eq!(classify(&file(0o100), "run"), ColorClass::Executable);
    assert_eq!(classify(&file(0o010), "run"), ColorClass::Executable);
    assert_eq!(classify(&file(0o001), "run"), ColorClass::Executable);
    assert_eq!(classify(&file(0o644), "notes"), ColorClass::Plain);
}

#[test]
fn classify_posix_tells_when_bits_decide() {
    let plain = PosixAttrs { mode: 0o644, special: SpecialKind::Ordinary };
    assert_eq!(classify_posix(&plain), None);
    let setuid = PosixAttrs { mode: 0o4644, special: SpecialKind::Ordinary };
    assert_eq!(classify_posix(&setuid), Some(ColorClass::SetuidFile));
    // The sticky bit says nothing of a file.
    let sticky = PosixAttrs { mode: 0o1644, special: SpecialKind::Ordinary };
    assert_eq!(classify_posix(&sticky), None);
}

#[test]
fn extensions_decide_last() {
    assert_eq!(classify(&file(0o644), "backup.tar"), ColorClass::Archive);
    assert_eq!(classify(&file(0o644), "photo.jpeg"), ColorClass::Image);
    assert_eq!(classify(&file(0o644), "song.flac"), ColorClass::Media);
    assert_eq!(classify(&file(0o644), "notes.txt"), ColorClass::Plain);
    assert_eq!(classify(&file(0o644), "backup.tar.gz"), ColorClass::Archive);
    assert_eq!(classify(&file(0o644), "archive.zip.txt"), ColorClass::Plain);
}

#[test]
fn a_platform_without_bits_goes_by_extension() {
    let facts = EntryFacts {
        is_symlink: false,
        metadata: Some(Metadata { is_dir: false, posix: None }),
    };
    assert_eq!(classify(&facts, "movie.mkv"), ColorClass::Media);
    assert_eq!(classify(&facts, "run"), ColorClass::Plain);
}

#[test]
fn extension_case_does_not_matter() {
    assert_eq!(classify_name("BACKUP.ZIP"), ColorClass::Archive);
    assert_eq!(classify_name("Photo.JpG"), ColorClass::Image);
    assert_eq!(classify_name("clip.WebM"), ColorClass::Media);
    assert_eq!(classify(&file(0o644), "A.TGZ"), ColorClass::Archive);
}

#[test]
fn names_without_an_extension_are_plain() {
    assert_eq!(classify_name("zip"), ColorClass::Plain);
    assert_eq!(classify_name(".zip"), ColorClass::Plain);
    assert_eq!(classify_name("archive."), ColorClass::Plain);
    assert_eq!(classify_name(".."), ColorClass::Plain);
    assert_eq!(classify_name(""), ColorClass::Plain);
    assert_eq!(classify_name(".hidden.png"), ColorClass::Image);
}

#[test]
fn every_archive_extension() {
    for ext in ["zip", "tar", "gz", "bz2", "xz", "7z", "rar", "tgz", "tbz2", "txz"] {
        assert_eq!(classify_extension(ext), ColorClass::Archive);
    }
}

#[test]
fn every_image_extension() {
    for ext in ["png", "jpg", "jpeg", "gif", "bmp", "svg", "ico", "webp", "tiff", "tif"] {
        assert_eq!(classify_extension(ext), ColorClass::Image);
    }
}

#[test]
fn every_media_extension() {
    for ext in ["mp3", "mp4", "avi", "mkv", "flac", "wav", "ogg", "mov", "wmv", "webm", "m4a"] {
        assert_eq!(classify_extension(ext), ColorClass::Media);
    }
}

#[test]
fn classify_extension_takes_lower_case_only() {
    assert_eq!(classify_extension("ZIP"), ColorClass::Plain);
    assert_eq!(classify_extension(""), ColorClass::Plain);
    assert_eq!(classify_extension("zipp"), ColorClass::Plain);
    assert_eq!(classify_extension("zi"), ColorClass::Plain);
    assert_eq!(classify_extension("rs"), ColorClass::Plain);
}
