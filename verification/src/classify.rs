//! The colour class of an entry: one ordered table over link status, file
//! type, permission bits and extension, in which the first match wins.

use vstd::prelude::*;
use crate::text::extension;
use crate::text::extension_of;
use crate::text::str_eq;

verus! {

/// Sticky bit of a mode.
pub const MODE_STICKY_BIT: u32 = 0o1000;

/// Set-user-id bit of a mode.
pub const MODE_SETUID: u32 = 0o4000;

/// Set-group-id bit of a mode.
pub const MODE_SETGID: u32 = 0o2000;

/// The execute bits of user, group and others.
pub const MODE_EXECUTABLE: u32 = 0o111;

/// The write bit of others.
pub const MODE_WORLD_WRITABLE: u32 = 0o002;

/// What an entry is shown as. Exactly one class applies to an entry.
#[derive(Clone, Copy, Debug, PartialEq, Eq, Structural)]
pub enum ColorClass {
    Symlink,
    SetuidFile,
    SetgidFile,
    StickyDirectory,
    Directory,
    SpecialDevice,
    SpecialSocket,
    WorldWritable,
    Executable,
    Archive,
    Image,
    Media,
    Plain,
}

/// The special file types that only some platforms tell apart.
#[derive(Clone, Copy, Debug, PartialEq, Eq, Structural)]
pub enum SpecialKind {
    Ordinary,
    CharDevice,
    BlockDevice,
    Socket,
    Fifo,
}

/// What a platform with permission bits knows of a file.
#[derive(Clone, Copy, Debug, PartialEq, Eq, Structural)]
pub struct PosixAttrs {
    pub mode: u32,
    pub special: SpecialKind,
}

/// The metadata of a path after links are followed. `posix` is `None` on a
/// platform without permission bits.
#[derive(Clone, Copy, Debug, PartialEq, Eq, Structural)]
pub struct Metadata {
    pub is_dir: bool,
    pub posix: Option<PosixAttrs>,
}

/// What the two metadata queries said of an entry: whether the entry itself
/// is a link, and the metadata behind it, `None` where that could not be
/// read.
#[derive(Clone, Copy, Debug, PartialEq, Eq, Structural)]
pub struct EntryFacts {
    pub is_symlink: bool,
    pub metadata: Option<Metadata>,
}

/// Whether a mode has one of the bits of a mask.
pub open spec fn has_bits(mode: u32, mask: u32) -> bool {
    mode & mask != 0
}

/// The lower-case form of a text, as `str::to_lowercase` gives it.
pub uninterp spec fn lowercase_of(text: Seq<char>) -> Seq<char>;

/// `str::to_lowercase`: the lower-case form depends on the text alone.
#[verifier::external_body]
fn lowercase(s: &str) -> (r: String)
    ensures
        r@ == lowercase_of(s@),
{
    s.to_lowercase()
}

/// The extensions of archives, in lower case.
pub open spec fn is_archive_ext(e: Seq<char>) -> bool {
    e == "zip"@ || e == "tar"@ || e == "gz"@ || e == "bz2"@ || e == "xz"@ || e == "7z"@ || e
        == "rar"@ || e == "tgz"@ || e == "tbz2"@ || e == "txz"@
}

/// The extensions of images, in lower case.
pub open spec fn is_image_ext(e: Seq<char>) -> bool {
    e == "png"@ || e == "jpg"@ || e == "jpeg"@ || e == "gif"@ || e == "bmp"@ || e == "svg"@ || e
        == "ico"@ || e == "webp"@ || e == "tiff"@ || e == "tif"@
}

/// The extensions of sound and video, in lower case.
pub open spec fn is_media_ext(e: Seq<char>) -> bool {
    e == "mp3"@ || e == "mp4"@ || e == "avi"@ || e == "mkv"@ || e == "flac"@ || e == "wav"@ || e
        == "ogg"@ || e == "mov"@ || e == "wmv"@ || e == "webm"@ || e == "m4a"@
}

/// The class that a lower-case extension stands for.
pub open spec fn extension_class(lower: Seq<char>) -> ColorClass {
    if is_archive_ext(lower) {
        ColorClass::Archive
    } else if is_image_ext(lower) {
        ColorClass::Image
    } else if is_media_ext(lower) {
        ColorClass::Media
    } else {
        ColorClass::Plain
    }
}

/// The class that a file name alone gives: that of its extension, whatever
/// the case of its letters.
pub open spec fn name_class(name: Seq<char>) -> ColorClass {
    match extension_of(name) {
        Some(e) => extension_class(lowercase_of(e)),
        None => ColorClass::Plain,
    }
}

/// The class that file type and permission bits give to what is not a
/// directory, if any: devices, then sockets and pipes, then set-user-id,
/// set-group-id, writable by others, executable.
pub open spec fn posix_class(attrs: PosixAttrs) -> Option<ColorClass> {
    if attrs.special is CharDevice || attrs.special is BlockDevice {
        Some(ColorClass::SpecialDevice)
    } else if attrs.special is Socket || attrs.special is Fifo {
        Some(ColorClass::SpecialSocket)
    } else if has_bits(attrs.mode, MODE_SETUID) {
        Some(ColorClass::SetuidFile)
    } else if has_bits(attrs.mode, MODE_SETGID) {
        Some(ColorClass::SetgidFile)
    } else if has_bits(attrs.mode, MODE_WORLD_WRITABLE) {
        Some(ColorClass::WorldWritable)
    } else if has_bits(attrs.mode, MODE_EXECUTABLE) {
        Some(ColorClass::Executable)
    } else {
        None
    }
}

/// The class of a directory: sticky where the platform has the bit and it
/// is set.
pub open spec fn directory_class(posix: Option<PosixAttrs>) -> ColorClass {
    match posix {
        Some(attrs) => if has_bits(attrs.mode, MODE_STICKY_BIT) {
            ColorClass::StickyDirectory
        } else {
            ColorClass::Directory
        },
        None => ColorClass::Directory,
    }
}

/// The class of an entry. A link is a link whatever it points to; an entry
/// whose metadata could not be read is plain; then come directories, then
/// what type and permission bits say, then the extension.
pub open spec fn class_of(facts: EntryFacts, name: Seq<char>) -> ColorClass {
    if facts.is_symlink {
        ColorClass::Symlink
    } else {
        match facts.metadata {
            None => ColorClass::Plain,
            Some(meta) => if meta.is_dir {
                directory_class(meta.posix)
            } else {
                match meta.posix {
                    Some(attrs) => match posix_class(attrs) {
                        Some(class) => class,
                        None => name_class(name),
                    },
                    None => name_class(name),
                }
            },
        }
    }
}

/// The class of an extension that is already in lower case.
pub fn classify_extension(lower: &str) -> (r: ColorClass)
    ensures
        r == extension_class(lower@),
{
    if str_eq(lower, "zip") || str_eq(lower, "tar") || str_eq(lower, "gz") || str_eq(lower, "bz2")
        || str_eq(lower, "xz") || str_eq(lower, "7z") || str_eq(lower, "rar") || str_eq(
        lower,
        "tgz",
    ) || str_eq(lower, "tbz2") || str_eq(lower, "txz") {
        ColorClass::Archive
    } else if str_eq(lower, "png") || str_eq(lower, "jpg") || str_eq(lower, "jpeg") || str_eq(
        lower,
        "gif",
    ) || str_eq(lower, "bmp") || str_eq(lower, "svg") || str_eq(lower, "ico") || str_eq(
        lower,
        "webp",
    ) || str_eq(lower, "tiff") || str_eq(lower, "tif") {
        ColorClass::Image
    } else if str_eq(lower, "mp3") || str_eq(lower, "mp4") || str_eq(lower, "avi") || str_eq(
        lower,
        "mkv",
    ) || str_eq(lower, "flac") || str_eq(lower, "wav") || str_eq(lower, "ogg") || str_eq(
        lower,
        "mov",
    ) || str_eq(lower, "wmv") || str_eq(lower, "webm") || str_eq(lower, "m4a") {
        ColorClass::Media
    } else {
        ColorClass::Plain
    }
}

/// The class that a file name alone gives.
pub fn classify_name(name: &str) -> (r: ColorClass)
    ensures
        r == name_class(name@),
{
    match extension(name) {
        Some(ext) => {
            let lower = lowercase(ext);
            classify_extension(lower.as_str())
        },
        None => ColorClass::Plain,
    }
}

/// The class that type and permission bits give to what is not a directory.
pub fn classify_posix(attrs: &PosixAttrs) -> (r: Option<ColorClass>)
    ensures
        r == posix_class(*attrs),
{
    match attrs.special {
        SpecialKind::CharDevice | SpecialKind::BlockDevice => Some(ColorClass::SpecialDevice),
        SpecialKind::Socket | SpecialKind::Fifo => Some(ColorClass::SpecialSocket),
        SpecialKind::Ordinary => {
            if attrs.mode & MODE_SETUID != 0 {
                Some(ColorClass::SetuidFile)
            } else if attrs.mode & MODE_SETGID != 0 {
                Some(ColorClass::SetgidFile)
            } else if attrs.mode & MODE_WORLD_WRITABLE != 0 {
                Some(ColorClass::WorldWritable)
            } else if attrs.mode & MODE_EXECUTABLE != 0 {
                Some(ColorClass::Executable)
            } else {
                None
            }
        },
    }
}

/// The class of an entry, from what the metadata queries said of it and
/// from its file name.
pub fn classify(facts: &EntryFacts, name: &str) -> (r: ColorClass)
    ensures
        r == class_of(*facts, name@),
{
    if facts.is_symlink {
        return ColorClass::Symlink;
    }
    match facts.metadata {
        None => ColorClass::Plain,
        Some(meta) => {
            if meta.is_dir {
                match meta.posix {
                    Some(attrs) => if attrs.mode & MODE_STICKY_BIT != 0 {
                        ColorClass::StickyDirectory
                    } else {
                        ColorClass::Directory
                    },
                    None => ColorClass::Directory,
                }
            } else {
                match meta.posix {
                    Some(attrs) => match classify_posix(&attrs) {
                        Some(class) => class,
                        None => classify_name(name),
                    },
                    None => classify_name(name),
                }
            }
        },
    }
}

/// The security bits come before convenience: a file with the set-user-id
/// bit is a set-user-id file whatever its other bits say, unless it is a
/// link, a directory, or a special file.
pub proof fn lemma_setuid_dominates(facts: EntryFacts, name: Seq<char>)
    requires
        !facts.is_symlink,
        facts.metadata matches Some(meta) && !meta.is_dir && (meta.posix matches Some(attrs)
            && attrs.special is Ordinary && has_bits(attrs.mode, MODE_SETUID)),
    ensures
        class_of(facts, name) == ColorClass::SetuidFile,
{
}

/// A link is classed as a link, whatever it points to.
pub proof fn lemma_symlink_dominates(facts: EntryFacts, name: Seq<char>)
    requires
        facts.is_symlink,
    ensures
        class_of(facts, name) == ColorClass::Symlink,
{
}

} // verus!
