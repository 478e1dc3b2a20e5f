use colored::Color;
use colored::Styles;
use rutree2::classify::ColorClass;
use rutree2::classify::EntryFacts;
use rutree2::classify::Metadata;
use rutree2::classify::PosixAttrs;
use rutree2::classify::SpecialKind;
use rutree2::paint::colorize_filename;
use rutree2::paint::paint;

fn file(mode: u32) -> EntryFacts {
    EntryFacts {
        is_symlink: false,
        metadata: Some(Metadata {
            is_dir: false,
            posix: Some(PosixAttrs { mode, special: SpecialKind::Ordinary }),
        }),
    }
}

fn directory(mode: u32) -> EntryFacts {
    EntryFacts {
        is_symlink: false,
        metadata: Some(Metadata {
            is_dir: true,
            posix: Some(PosixAttrs { mode, special: SpecialKind::Ordinary }),
        }),
    }
}

fn style_of(class: ColorClass) -> (Option<Color>, Option<Color>, bool) {
    let styled = paint("name", class);
    assert_eq!(styled.input, "name");
    (styled.fgcolor, styled.bgcolor, styled.style.contains(Styles::Bold))
}

#[test]
fn test_colorize_filename_basic() {
    colored::control::set_override(false);

    let result = colorize_filename("test.txt", ".tmpAbC123", &file(0o600));
    assert_eq!(result.to_string(), "test.txt");

    colored::control::unset_override();
}

#[test]
fn test_colorize_filename_archive_extensions() {
    let archives = vec!["test.zip", "test.tar", "test.gz", "test.7z"];

    for archive in archives {
        let result = colorize_filename(archive, archive, &file(0o644));
        assert_eq!(result.fgcolor, Some(Color::Red));
        assert_eq!(result.input, archive);
    }
}

#[test]
fn test_colorize_filename_image_extensions() {
    let images = vec!["test.png", "test.jpg", "test.jpeg", "test.gif"];

    for image in images {
        let result = colorize_filename(image, image, &file(0o644));
        assert_eq!(result.fgcolor, Some(Color::Magenta));
        assert_eq!(result.input, image);
    }
}

#[test]
fn test_colorize_filename_media_extensions() {
    let media = vec!["test.mp3", "test.mp4", "test.avi", "test.mkv"];

    for media_file in media {
        let result = colorize_filename(media_file, media_file, &file(0o644));
        assert_eq!(result.fgcolor, Some(Color::BrightMagenta));
        assert_eq!(result.input, media_file);
    }
}

#[test]
fn test_colorize_filename_directory() {
    let result = colorize_filename("testdir/", "testdir", &directory(0o755));
    assert_eq!(result.input, "testdir/");
    assert_eq!(result.fgcolor, Some(Color::Blue));
    assert!(result.style.contains(Styles::Bold));
}

#[test]
fn the_style_of_each_class() {
    assert_eq!(style_of(ColorClass::Symlink), (Some(Color::Cyan), None, false));
    assert_eq!(style_of(ColorClass::SetuidFile), (Some(Color::White), Some(Color::Red), false));
    assert_eq!(style_of(ColorClass::SetgidFile), (Some(Color::Black), Some(Color::Yellow), false));
    assert_eq!(
        style_of(ColorClass::StickyDirectory),
        (Some(Color::Green), Some(Color::Blue), false)
    );
    assert_eq!(style_of(ColorClass::Directory), (Some(Color::Blue), None, true));
    assert_eq!(style_of(ColorClass::SpecialDevice), (Some(Color::Yellow), None, true));
    assert_eq!(style_of(ColorClass::SpecialSocket), (Some(Color::Yellow), None, false));
    assert_eq!(style_of(ColorClass::WorldWritable), (Some(Color::Yellow), None, false));
    assert_eq!(style_of(ColorClass::Executable), (Some(Color::Green), None, false));
    assert_eq!(style_of(ColorClass::Archive), (Some(Color::Red), None, false));
    assert_eq!(style_of(ColorClass::Image), (Some(Color::Magenta), None, false));
    assert_eq!(style_of(ColorClass::Media), (Some(Color::BrightMagenta), None, false));
    assert_eq!(style_of(ColorClass::Plain), (None, None, false));
    assert!(paint("name", ColorClass::Plain).is_plain());
}

#[test]
fn colours_as_escape_codes() {
    colored::control::set_override(true);
    assert_eq!(paint("l", ColorClass::Symlink).to_string(), "\x1b[36ml\x1b[0m");
    assert_eq!(paint("d/", ColorClass::Directory).to_string(), "\x1b[1;34md/\x1b[0m");
    assert_eq!(paint("s", ColorClass::SetuidFile).to_string(), "\x1b[41;37ms\x1b[0m");
    assert_eq!(paint("p", ColorClass::Plain).to_string(), "p");
    colored::control::unset_override();
}

#[test]
fn colorize_goes_by_the_file_name_not_by_the_label() {
    let link = EntryFacts { is_symlink: true, metadata: None };
    let result = colorize_filename("l -> [broken link]", "l", &link);
    assert_eq!(result.input, "l -> [broken link]");
    assert_eq!(result.fgcolor, Some(Color::Cyan));
    let result = colorize_filename("shown.zip", "real.txt", &file(0o644));
    assert_eq!(result.fgcolor, None);
    let result = colorize_filename("sudo", "sudo", &file(0o4755));
    assert_eq!((result.fgcolor, result.bgcolor), (Some(Color::White), Some(Color::Red)));
}
