//! The decisions behind the search window: result filters by kind and
//! extension, visible results, column sorting, labels, and CSV fields.
use vstd::prelude::*;

use crate::model::{EntryKind, RootStatus, SearchResult, SearchResultView};
use crate::telemetry::{decimal, push_decimal, push_signed_decimal, signed_decimal, TelemetryEvent};
use crate::paths::{file_name, file_name_of};
use crate::text::{chars_of, contains_chars, is_substring, lossy_string, push_char, utf8_lossy};
use crate::text::{lex_le, lex_le_chars, lowercase, to_lowercase, to_uppercase, uppercase};
use crate::text::{trim_text, trimmed};
use crate::text::{lemma_lex_antisym, lemma_lex_refl, lemma_lex_total, lemma_lex_trans};
use vstd::utf8::encode_utf8;

verus! {

/// The result filters of the search window.
#[derive(Debug, Clone, Copy, PartialEq, Eq, Structural)]
pub enum ResultFilter {
    Everything,
    Audio,
    Archives,
    Documents,
    Executables,
    Folders,
    Images,
    Video,
}

pub open spec fn filter_text(f: ResultFilter) -> Seq<char> {
    match f {
        ResultFilter::Everything => "Everything"@,
        ResultFilter::Audio => "Audio"@,
        ResultFilter::Archives => "Compressed"@,
        ResultFilter::Documents => "Document"@,
        ResultFilter::Executables => "Executable"@,
        ResultFilter::Folders => "Folder"@,
        ResultFilter::Images => "Image"@,
        ResultFilter::Video => "Video"@,
    }
}

/// The lower-case extensions a filter admits.
pub open spec fn filter_extensions(f: ResultFilter) -> Seq<Seq<char>> {
    match f {
        ResultFilter::Audio => seq![
            "aac"@,
            "flac"@,
            "m4a"@,
            "mp3"@,
            "ogg"@,
            "opus"@,
            "wav"@,
            "wma"@,
        ],
        ResultFilter::Archives => seq![
            "7z"@,
            "bz2"@,
            "gz"@,
            "rar"@,
            "tar"@,
            "xz"@,
            "zip"@,
            "zst"@,
        ],
        ResultFilter::Documents => seq![
            "csv"@,
            "doc"@,
            "docx"@,
            "epub"@,
            "md"@,
            "odt"@,
            "pdf"@,
            "ppt"@,
            "pptx"@,
            "rtf"@,
            "txt"@,
            "xls"@,
            "xlsx"@,
        ],
        ResultFilter::Executables => seq!["appimage"@, "bin"@, "deb"@, "desktop"@, "run"@, "sh"@],
        ResultFilter::Images => seq![
            "avif"@,
            "bmp"@,
            "gif"@,
            "heic"@,
            "jpeg"@,
            "jpg"@,
            "png"@,
            "svg"@,
            "tif"@,
            "tiff"@,
            "webp"@,
        ],
        ResultFilter::Video => seq![
            "avi"@,
            "flv"@,
            "m4v"@,
            "mkv"@,
            "mov"@,
            "mp4"@,
            "mpeg"@,
            "webm"@,
            "wmv"@,
        ],
        _ => Seq::empty(),
    }
}

fn extensions_of(f: ResultFilter) -> (list: Vec<&'static str>)
    ensures
        list@.map_values(|s: &'static str| s@) == filter_extensions(f),
{
    let list: Vec<&'static str> = match f {
        ResultFilter::Audio => vec!["aac", "flac", "m4a", "mp3", "ogg", "opus", "wav", "wma"],
        ResultFilter::Archives => vec!["7z", "bz2", "gz", "rar", "tar", "xz", "zip", "zst"],
        ResultFilter::Documents => vec![
            "csv",
            "doc",
            "docx",
            "epub",
            "md",
            "odt",
            "pdf",
            "ppt",
            "pptx",
            "rtf",
            "txt",
            "xls",
            "xlsx",
        ],
        ResultFilter::Executables => vec!["appimage", "bin", "deb", "desktop", "run", "sh"],
        ResultFilter::Images => vec![
            "avif",
            "bmp",
            "gif",
            "heic",
            "jpeg",
            "jpg",
            "png",
            "svg",
            "tif",
            "tiff",
            "webp",
        ],
        ResultFilter::Video => vec!["avi", "flv", "m4v", "mkv", "mov", "mp4", "mpeg", "webm", "wmv"],
        _ => Vec::new(),
    };
    assert(list@.map_values(|s: &'static str| s@) =~= filter_extensions(f));
    list
}

/// The extensions on a filter's list, spelled out letter by letter.
spec fn extension_is(f: ResultFilter, x: Seq<char>) -> bool {
    match f {
        ResultFilter::Audio => {
            ||| (x.len() == 3 && x[0] == 'a' && x[1] == 'a' && x[2] == 'c')
            ||| (x.len() == 4 && x[0] == 'f' && x[1] == 'l' && x[2] == 'a' && x[3] == 'c')
            ||| (x.len() == 3 && x[0] == 'm' && x[1] == '4' && x[2] == 'a')
            ||| (x.len() == 3 && x[0] == 'm' && x[1] == 'p' && x[2] == '3')
            ||| (x.len() == 3 && x[0] == 'o' && x[1] == 'g' && x[2] == 'g')
            ||| (x.len() == 4 && x[0] == 'o' && x[1] == 'p' && x[2] == 'u' && x[3] == 's')
            ||| (x.len() == 3 && x[0] == 'w' && x[1] == 'a' && x[2] == 'v')
            ||| (x.len() == 3 && x[0] == 'w' && x[1] == 'm' && x[2] == 'a')
        },
        ResultFilter::Archives => {
            ||| (x.len() == 2 && x[0] == '7' && x[1] == 'z')
            ||| (x.len() == 3 && x[0] == 'b' && x[1] == 'z' && x[2] == '2')
            ||| (x.len() == 2 && x[0] == 'g' && x[1] == 'z')
            ||| (x.len() == 3 && x[0] == 'r' && x[1] == 'a' && x[2] == 'r')
            ||| (x.len() == 3 && x[0] == 't' && x[1] == 'a' && x[2] == 'r')
            ||| (x.len() == 2 && x[0] == 'x' && x[1] == 'z')
            ||| (x.len() == 3 && x[0] == 'z' && x[1] == 'i' && x[2] == 'p')
            ||| (x.len() == 3 && x[0] == 'z' && x[1] == 's' && x[2] == 't')
        },
        ResultFilter::Documents => {
            ||| (x.len() == 3 && x[0] == 'c' && x[1] == 's' && x[2] == 'v')
            ||| (x.len() == 3 && x[0] == 'd' && x[1] == 'o' && x[2] == 'c')
            ||| (x.len() == 4 && x[0] == 'd' && x[1] == 'o' && x[2] == 'c' && x[3] == 'x')
            ||| (x.len() == 4 && x[0] == 'e' && x[1] == 'p' && x[2] == 'u' && x[3] == 'b')
            ||| (x.len() == 2 && x[0] == 'm' && x[1] == 'd')
            ||| (x.len() == 3 && x[0] == 'o' && x[1] == 'd' && x[2] == 't')
            ||| (x.len() == 3 && x[0] == 'p' && x[1] == 'd' && x[2] == 'f')
            ||| (x.len() == 3 && x[0] == 'p' && x[1] == 'p' && x[2] == 't')
            ||| (x.len() == 4 && x[0] == 'p' && x[1] == 'p' && x[2] == 't' && x[3] == 'x')
            ||| (x.len() == 3 && x[0] == 'r' && x[1] == 't' && x[2] == 'f')
            ||| (x.len() == 3 && x[0] == 't' && x[1] == 'x' && x[2] == 't')
            ||| (x.len() == 3 && x[0] == 'x' && x[1] == 'l' && x[2] == 's')
            ||| (x.len() == 4 && x[0] == 'x' && x[1] == 'l' && x[2] == 's' && x[3] == 'x')
        },
        ResultFilter::Executables => {
            ||| (x.len() == 8 && x[0] == 'a' && x[1] == 'p' && x[2] == 'p' && x[3] == 'i' && x[4] == 'm' && x[5] == 'a' && x[6] == 'g' && x[7] == 'e')
            ||| (x.len() == 3 && x[0] == 'b' && x[1] == 'i' && x[2] == 'n')
            ||| (x.len() == 3 && x[0] == 'd' && x[1] == 'e' && x[2] == 'b')
            ||| (x.len() == 7 && x[0] == 'd' && x[1] == 'e' && x[2] == 's' && x[3] == 'k' && x[4] == 't' && x[5] == 'o' && x[6] == 'p')
            ||| (x.len() == 3 && x[0] == 'r' && x[1] == 'u' && x[2] == 'n')
            ||| (x.len() == 2 && x[0] == 's' && x[1] == 'h')
        },
        ResultFilter::Images => {
            ||| (x.len() == 4 && x[0] == 'a' && x[1] == 'v' && x[2] == 'i' && x[3] == 'f')
            ||| (x.len() == 3 && x[0] == 'b' && x[1] == 'm' && x[2] == 'p')
            ||| (x.len() == 3 && x[0] == 'g' && x[1] == 'i' && x[2] == 'f')
            ||| (x.len() == 4 && x[0] == 'h' && x[1] == 'e' && x[2] == 'i' && x[3] == 'c')
            ||| (x.len() == 4 && x[0] == 'j' && x[1] == 'p' && x[2] == 'e' && x[3] == 'g')
            ||| (x.len() == 3 && x[0] == 'j' && x[1] == 'p' && x[2] == 'g')
            ||| (x.len() == 3 && x[0] == 'p' && x[1] == 'n' && x[2] == 'g')
            ||| (x.len() == 3 && x[0] == 's' && x[1] == 'v' && x[2] == 'g')
            ||| (x.len() == 3 && x[0] == 't' && x[1] == 'i' && x[2] == 'f')
            ||| (x.len() == 4 && x[0] == 't' && x[1] == 'i' && x[2] == 'f' && x[3] == 'f')
            ||| (x.len() == 4 && x[0] == 'w' && x[1] == 'e' && x[2] == 'b' && x[3] == 'p')
        },
        ResultFilter::Video => {
            ||| (x.len() == 3 && x[0] == 'a' && x[1] == 'v' && x[2] == 'i')
            ||| (x.len() == 3 && x[0] == 'f' && x[1] == 'l' && x[2] == 'v')
            ||| (x.len() == 3 && x[0] == 'm' && x[1] == '4' && x[2] == 'v')
            ||| (x.len() == 3 && x[0] == 'm' && x[1] == 'k' && x[2] == 'v')
            ||| (x.len() == 3 && x[0] == 'm' && x[1] == 'o' && x[2] == 'v')
            ||| (x.len() == 3 && x[0] == 'm' && x[1] == 'p' && x[2] == '4')
            ||| (x.len() == 4 && x[0] == 'm' && x[1] == 'p' && x[2] == 'e' && x[3] == 'g')
            ||| (x.len() == 4 && x[0] == 'w' && x[1] == 'e' && x[2] == 'b' && x[3] == 'm')
            ||| (x.len() == 3 && x[0] == 'w' && x[1] == 'm' && x[2] == 'v')
        },
        _ => false,
    }
}

proof fn lemma_extension_members(f: ResultFilter, x: Seq<char>)
    ensures
        filter_extensions(f).contains(x) ==> extension_is(f, x),
{
    if filter_extensions(f).contains(x) {
        let i = choose|i: int| 0 <= i < filter_extensions(f).len() && filter_extensions(f)[i] == x;
        match f {
            ResultFilter::Audio => {
                reveal_strlit("aac");
                assert(filter_extensions(f)[0] =~= seq!['a', 'a', 'c']);
                reveal_strlit("flac");
                assert(filter_extensions(f)[1] =~= seq!['f', 'l', 'a', 'c']);
                reveal_strlit("m4a");
                assert(filter_extensions(f)[2] =~= seq!['m', '4', 'a']);
                reveal_strlit("mp3");
                assert(filter_extensions(f)[3] =~= seq!['m', 'p', '3']);
                reveal_strlit("ogg");
                assert(filter_extensions(f)[4] =~= seq!['o', 'g', 'g']);
                reveal_strlit("opus");
                assert(filter_extensions(f)[5] =~= seq!['o', 'p', 'u', 's']);
                reveal_strlit("wav");
                assert(filter_extensions(f)[6] =~= seq!['w', 'a', 'v']);
                reveal_strlit("wma");
                assert(filter_extensions(f)[7] =~= seq!['w', 'm', 'a']);
            },
            ResultFilter::Archives => {
                reveal_strlit("7z");
                assert(filter_extensions(f)[0] =~= seq!['7', 'z']);
                reveal_strlit("bz2");
                assert(filter_extensions(f)[1] =~= seq!['b', 'z', '2']);
                reveal_strlit("gz");
                assert(filter_extensions(f)[2] =~= seq!['g', 'z']);
                reveal_strlit("rar");
                assert(filter_extensions(f)[3] =~= seq!['r', 'a', 'r']);
                reveal_strlit("tar");
                assert(filter_extensions(f)[4] =~= seq!['t', 'a', 'r']);
                reveal_strlit("xz");
                assert(filter_extensions(f)[5] =~= seq!['x', 'z']);
                reveal_strlit("zip");
                assert(filter_extensions(f)[6] =~= seq!['z', 'i', 'p']);
                reveal_strlit("zst");
                assert(filter_extensions(f)[7] =~= seq!['z', 's', 't']);
            },
            ResultFilter::Documents => {
                reveal_strlit("csv");
                assert(filter_extensions(f)[0] =~= seq!['c', 's', 'v']);
                reveal_strlit("doc");
                assert(filter_extensions(f)[1] =~= seq!['d', 'o', 'c']);
                reveal_strlit("docx");
                assert(filter_extensions(f)[2] =~= seq!['d', 'o', 'c', 'x']);
                reveal_strlit("epub");
                assert(filter_extensions(f)[3] =~= seq!['e', 'p', 'u', 'b']);
                reveal_strlit("md");
                assert(filter_extensions(f)[4] =~= seq!['m', 'd']);
                reveal_strlit("odt");
                assert(filter_extensions(f)[5] =~= seq!['o', 'd', 't']);
                reveal_strlit("pdf");
                assert(filter_extensions(f)[6] =~= seq!['p', 'd', 'f']);
                reveal_strlit("ppt");
                assert(filter_extensions(f)[7] =~= seq!['p', 'p', 't']);
                reveal_strlit("pptx");
                assert(filter_extensions(f)[8] =~= seq!['p', 'p', 't', 'x']);
                reveal_strlit("rtf");
                assert(filter_extensions(f)[9] =~= seq!['r', 't', 'f']);
                reveal_strlit("txt");
                assert(filter_extensions(f)[10] =~= seq!['t', 'x', 't']);
                reveal_strlit("xls");
                assert(filter_extensions(f)[11] =~= seq!['x', 'l', 's']);
                reveal_strlit("xlsx");
                assert(filter_extensions(f)[12] =~= seq!['x', 'l', 's', 'x']);
            },
            ResultFilter::Executables => {
                reveal_strlit("appimage");
                assert(filter_extensions(f)[0] =~= seq!['a', 'p', 'p', 'i', 'm', 'a', 'g', 'e']);
                reveal_strlit("bin");
                assert(filter_extensions(f)[1] =~= seq!['b', 'i', 'n']);
                reveal_strlit("deb");
                assert(filter_extensions(f)[2] =~= seq!['d', 'e', 'b']);
                reveal_strlit("desktop");
                assert(filter_extensions(f)[3] =~= seq!['d', 'e', 's', 'k', 't', 'o', 'p']);
                reveal_strlit("run");
                assert(filter_extensions(f)[4] =~= seq!['r', 'u', 'n']);
                reveal_strlit("sh");
                assert(filter_extensions(f)[5] =~= seq!['s', 'h']);
            },
            ResultFilter::Images => {
                reveal_strlit("avif");
                assert(filter_extensions(f)[0] =~= seq!['a', 'v', 'i', 'f']);
                reveal_strlit("bmp");
                assert(filter_extensions(f)[1] =~= seq!['b', 'm', 'p']);
                reveal_strlit("gif");
                assert(filter_extensions(f)[2] =~= seq!['g', 'i', 'f']);
                reveal_strlit("heic");
                assert(filter_extensions(f)[3] =~= seq!['h', 'e', 'i', 'c']);
                reveal_strlit("jpeg");
                assert(filter_extensions(f)[4] =~= seq!['j', 'p', 'e', 'g']);
                reveal_strlit("jpg");
                assert(filter_extensions(f)[5] =~= seq!['j', 'p', 'g']);
                reveal_strlit("png");
                assert(filter_extensions(f)[6] =~= seq!['p', 'n', 'g']);
                reveal_strlit("svg");
                assert(filter_extensions(f)[7] =~= seq!['s', 'v', 'g']);
                reveal_strlit("tif");
                assert(filter_extensions(f)[8] =~= seq!['t', 'i', 'f']);
                reveal_strlit("tiff");
                assert(filter_extensions(f)[9] =~= seq!['t', 'i', 'f', 'f']);
                reveal_strlit("webp");
                assert(filter_extensions(f)[10] =~= seq!['w', 'e', 'b', 'p']);
            },
            ResultFilter::Video => {
                reveal_strlit("avi");
                assert(filter_extensions(f)[0] =~= seq!['a', 'v', 'i']);
                reveal_strlit("flv");
                assert(filter_extensions(f)[1] =~= seq!['f', 'l', 'v']);
                reveal_strlit("m4v");
                assert(filter_extensions(f)[2] =~= seq!['m', '4', 'v']);
                reveal_strlit("mkv");
                assert(filter_extensions(f)[3] =~= seq!['m', 'k', 'v']);
                reveal_strlit("mov");
                assert(filter_extensions(f)[4] =~= seq!['m', 'o', 'v']);
                reveal_strlit("mp4");
                assert(filter_extensions(f)[5] =~= seq!['m', 'p', '4']);
                reveal_strlit("mpeg");
                assert(filter_extensions(f)[6] =~= seq!['m', 'p', 'e', 'g']);
                reveal_strlit("webm");
                assert(filter_extensions(f)[7] =~= seq!['w', 'e', 'b', 'm']);
                reveal_strlit("wmv");
                assert(filter_extensions(f)[8] =~= seq!['w', 'm', 'v']);
            },
            _ => {},
        }
    }
}

/// No extension is on two filters' lists.
proof fn lemma_extension_lists_disjoint(f: ResultFilter, g: ResultFilter, x: Seq<char>)
    requires
        f != g,
    ensures
        !(filter_extensions(f).contains(x) && filter_extensions(g).contains(x)),
{
    lemma_extension_members(f, x);
    lemma_extension_members(g, x);
}

/// The result filters do not overlap: a result passes at most one filter
/// other than `Everything`. Folders pass only `Folders`, and no extension
/// is admitted by two filters.
pub proof fn lemma_filters_disjoint(f: ResultFilter, g: ResultFilter, r: SearchResultView)
    requires
        f != g,
        f != ResultFilter::Everything,
        g != ResultFilter::Everything,
        filter_admits(f, r),
    ensures
        !filter_admits(g, r),
{
    if filter_admits(g, r) && f != ResultFilter::Folders && g != ResultFilter::Folders {
        lemma_extension_lists_disjoint(f, g, ascii_lowercase(name_extension(r.name)));
    }
}

/// ASCII upper-case letters become lower-case; every other character stays.
pub open spec fn ascii_lower(c: char) -> char {
    if 'A' <= c <= 'Z' {
        ((c as u32) + 32) as char
    } else {
        c
    }
}

pub open spec fn ascii_lowercase(s: Seq<char>) -> Seq<char> {
    s.map_values(|c: char| ascii_lower(c))
}

fn ascii_lower_char(c: char) -> (r: char)
    ensures
        r == ascii_lower(c),
{
    if 'A' <= c && c <= 'Z' {
        let b = c as u8;
        assert(b == c as u32);
        (b + 32) as char
    } else {
        c
    }
}

/// The position of the last `.` in a name, if any.
pub open spec fn last_dot(name: Seq<u8>) -> Option<int>
    decreases name.len(),
{
    if name.len() == 0 {
        None
    } else if name.last() == 0x2eu8 {
        Some(name.len() - 1)
    } else {
        last_dot(name.drop_last())
    }
}

/// The extension of a path (`Path::extension`): the bytes after the last
/// `.` of the final name, unless that `.` starts the name; empty when there
/// is none.
pub open spec fn extension_bytes(path: Seq<u8>) -> Seq<u8> {
    match file_name_of(path) {
        Some(f) => match last_dot(f) {
            Some(i) => if i > 0 {
                f.skip(i + 1)
            } else {
                Seq::empty()
            },
            None => Seq::empty(),
        },
        None => Seq::empty(),
    }
}

/// The extension of a result's name, as text.
pub open spec fn name_extension(name: Seq<char>) -> Seq<char> {
    utf8_lossy(extension_bytes(encode_utf8(name)))
}

/// Whether a result passes a filter: everything passes `Everything`,
/// directories pass `Folders`, and files and symbolic links pass the other
/// filters when their lower-cased extension is one the filter admits.
pub open spec fn filter_admits(f: ResultFilter, r: SearchResultView) -> bool {
    if f == ResultFilter::Everything {
        true
    } else if f == ResultFilter::Folders {
        r.kind == EntryKind::Directory
    } else if !(r.kind == EntryKind::File || r.kind == EntryKind::Symlink) {
        false
    } else {
        filter_extensions(f).contains(ascii_lowercase(name_extension(r.name)))
    }
}

impl ResultFilter {
    /// Every filter, in menu order.
    pub fn all() -> (filters: Vec<ResultFilter>)
        ensures
            filters@ == seq![
                ResultFilter::Everything,
                ResultFilter::Audio,
                ResultFilter::Archives,
                ResultFilter::Documents,
                ResultFilter::Executables,
                ResultFilter::Folders,
                ResultFilter::Images,
                ResultFilter::Video,
            ],
    {
        let filters = vec![
            ResultFilter::Everything,
            ResultFilter::Audio,
            ResultFilter::Archives,
            ResultFilter::Documents,
            ResultFilter::Executables,
            ResultFilter::Folders,
            ResultFilter::Images,
            ResultFilter::Video,
        ];
        assert(filters@ =~= seq![
            ResultFilter::Everything,
            ResultFilter::Audio,
            ResultFilter::Archives,
            ResultFilter::Documents,
            ResultFilter::Executables,
            ResultFilter::Folders,
            ResultFilter::Images,
            ResultFilter::Video,
        ]);
        filters
    }

    /// The label shown for a filter.
    pub fn label(self) -> (text: &'static str)
        ensures
            text@ == filter_text(self),
    {
        match self {
            ResultFilter::Everything => "Everything",
            ResultFilter::Audio => "Audio",
            ResultFilter::Archives => "Compressed",
            ResultFilter::Documents => "Document",
            ResultFilter::Executables => "Executable",
            ResultFilter::Folders => "Folder",
            ResultFilter::Images => "Image",
            ResultFilter::Video => "Video",
        }
    }

    /// Whether a result passes this filter.
    #[verifier::loop_isolation(false)]
    pub fn matches(self, result: &SearchResult) -> (r: bool)
        ensures
            r == filter_admits(self, result@),
    {
        if self == ResultFilter::Everything {
            return true;
        }
        if self == ResultFilter::Folders {
            return result.kind == EntryKind::Directory;
        }
        if !(result.kind == EntryKind::File || result.kind == EntryKind::Symlink) {
            return false;
        }
        let ext = chars_of(extension_text(result.name.as_str()).as_str());
        let mut lowered: Vec<char> = Vec::new();
        let mut i: usize = 0;
        while i < ext.len()
            invariant
                i <= ext@.len(),
                lowered@ == ascii_lowercase(ext@.take(i as int)),
            decreases ext.len() - i,
        {
            lowered.push(ascii_lower_char(ext[i]));
            assert(ascii_lowercase(ext@.take(i + 1)) =~= ascii_lowercase(ext@.take(i as int)).push(ascii_lower(ext@[i as int])));
            i = i + 1;
        }
        assert(ext@.take(ext@.len() as int) =~= ext@);
        let list = extensions_of(self);
        let ghost lv = list@.map_values(|s: &'static str| s@);
        let ghost target = ascii_lowercase(name_extension(result.name@));
        let mut j: usize = 0;
        while j < list.len()
            invariant
                j <= list@.len(),
                lv == list@.map_values(|s: &'static str| s@),
                lv == filter_extensions(self),
                lowered@ == target,
                forall|k: int| 0 <= k < j ==> lv[k] != lowered@,
            decreases list.len() - j,
        {
            let candidate = chars_of(list[j]);
            if candidate.len() == lowered.len() && contains_chars(&candidate, &lowered) {
                proof {
                    let w = choose|w: int| crate::text::occurs_at(candidate@, lowered@, w);
                    assert(candidate@.subrange(w, w + lowered@.len()) =~= candidate@);
                    assert(lv[j as int] == candidate@);
                    assert(filter_extensions(self)[j as int] == target);
                    assert(filter_extensions(self).contains(target));
                }
                return true;
            }
            proof {
                if lv[j as int] == lowered@ {
                    assert(candidate@.subrange(0, candidate@.len() as int) =~= candidate@);
                    assert(crate::text::occurs_at(candidate@, lowered@, 0));
                }
            }
            j = j + 1;
        }
        false
    }
}

proof fn lemma_last_dot(name: Seq<u8>)
    ensures
        last_dot(name) matches Some(i) ==> 0 <= i < name.len() && name[i] == 0x2eu8,
    decreases name.len(),
{
    if name.len() > 0 && name.last() != 0x2eu8 {
        lemma_last_dot(name.drop_last());
    }
}

fn last_dot_index(name: &Vec<u8>) -> (r: Option<usize>)
    ensures
        match last_dot(name@) {
            Some(i) => r == Some(i as usize),
            None => r is None,
        },
{
    let mut k: usize = name.len();
    assert(name@.take(k as int) =~= name@);
    while k > 0
        invariant
            k <= name@.len(),
            last_dot(name@) == last_dot(name@.take(k as int)),
        decreases k,
    {
        assert(name@.take(k as int).drop_last() =~= name@.take(k - 1));
        if name[k - 1] == 0x2eu8 {
            return Some(k - 1);
        }
        k = k - 1;
    }
    None
}

/// The extension of a result's name, as text.
fn extension_text(name: &str) -> (ext: String)
    ensures
        ext@ == name_extension(name@),
{
    let bytes = name.as_bytes();
    assert(name@.len() >= 0);
    let mut ext: Vec<u8> = Vec::new();
    match file_name(bytes) {
        None => {},
        Some(f) => {
            assert(f@.take(f@.len() as int) =~= f@);
            match last_dot_index(&f) {
                None => {},
                Some(i) => {
                    proof {
                        lemma_last_dot(f@);
                    }
                    if i > 0 {
                        let mut k: usize = i + 1;
                        while k < f.len()
                            invariant
                                i < f@.len(),
                                i + 1 <= k <= f@.len(),
                                ext@ == f@.subrange(i + 1, k as int),
                            decreases f.len() - k,
                        {
                            ext.push(f[k]);
                            assert(f@.subrange(i + 1, k + 1) =~= f@.subrange(i + 1, k as int).push(f@[k as int]));
                            k = k + 1;
                        }
                        assert(f@.subrange(i + 1, f@.len() as int) =~= f@.skip(i + 1));
                    }
                },
            }
        },
    }
    assert(ext@ =~= extension_bytes(encode_utf8(name@)));
    lossy_string(ext.as_slice())
}

pub open spec fn kind_text(kind: EntryKind) -> Seq<char> {
    match kind {
        EntryKind::File => "File"@,
        EntryKind::Directory => "Folder"@,
        EntryKind::Symlink => "Symbolic link"@,
        EntryKind::Other => "Other"@,
    }
}

/// The type shown for a result's kind.
pub fn kind_label(kind: EntryKind) -> (text: &'static str)
    ensures
        text@ == kind_text(kind),
{
    match kind {
        EntryKind::File => "File",
        EntryKind::Directory => "Folder",
        EntryKind::Symlink => "Symbolic link",
        EntryKind::Other => "Other",
    }
}

/// A column header: the label, followed by an arrow giving the direction
/// when the column is the sort column.
pub open spec fn sort_title_text(label: Seq<char>, active: bool, descending: bool) -> Seq<char> {
    if active {
        label + seq![' ', if descending { '\u{25BC}' } else { '\u{25B2}' }]
    } else {
        label
    }
}

pub fn sort_title(label: &str, active: bool, descending: bool) -> (title: String)
    ensures
        title@ == sort_title_text(label@, active, descending),
{
    let mut title = String::from_str(label);
    if active {
        push_char(&mut title, ' ');
        push_char(&mut title, if descending { '\u{25BC}' } else { '\u{25B2}' });
        assert(title@ =~= sort_title_text(label@, active, descending));
    }
    title
}

/// A value quoted for CSV: wrapped in double quotes, with each double quote
/// inside doubled.
pub open spec fn csv_quoted(value: Seq<char>) -> Seq<char> {
    seq!['"'] + csv_escaped(value) + seq!['"']
}

pub open spec fn csv_escaped(value: Seq<char>) -> Seq<char>
    decreases value.len(),
{
    if value.len() == 0 {
        Seq::empty()
    } else if value.last() == '"' {
        csv_escaped(value.drop_last()) + seq!['"', '"']
    } else {
        csv_escaped(value.drop_last()).push(value.last())
    }
}

pub fn csv_field(value: &str) -> (field: String)
    ensures
        field@ == csv_quoted(value@),
{
    let chars = chars_of(value);
    let mut field = String::new();
    push_char(&mut field, '"');
    let mut i: usize = 0;
    while i < chars.len()
        invariant
            i <= chars@.len(),
            chars@ == value@,
            field@ == seq!['"'] + csv_escaped(value@.take(i as int)),
        decreases chars.len() - i,
    {
        let c = chars[i];
        assert(value@.take(i + 1).drop_last() =~= value@.take(i as int));
        assert(value@.take(i + 1).last() == c);
        if c == '"' {
            push_char(&mut field, '"');
        }
        push_char(&mut field, c);
        proof {
            if c == '"' {
                assert(field@ =~= seq!['"'] + csv_escaped(value@.take(i + 1)));
            } else {
                assert(field@ =~= seq!['"'] + csv_escaped(value@.take(i + 1)));
            }
        }
        i = i + 1;
    }
    push_char(&mut field, '"');
    assert(value@.take(chars@.len() as int) =~= value@);
    field
}

/// The header line of a CSV export.
pub fn csv_header() -> (line: &'static str)
    ensures
        line@ == "Name,Path,Size,Date Modified,Type"@,
{
    "Name,Path,Size,Date Modified,Type"
}

/// One CSV line for a result: quoted name and path, the size in bytes,
/// the quoted modification time as already formatted, and the quoted type.
pub open spec fn csv_row_text(r: SearchResultView, modified: Seq<char>) -> Seq<char> {
    csv_quoted(r.name) + seq![','] + csv_quoted(r.path) + seq![','] + decimal(r.size as nat) + seq![
        ',',
    ] + csv_quoted(modified) + seq![','] + csv_quoted(kind_text(r.kind))
}

pub fn csv_row(result: &SearchResult, modified: &str) -> (line: String)
    ensures
        line@ == csv_row_text(result@, modified@),
{
    let mut line = csv_field(result.name.as_str());
    push_char(&mut line, ',');
    line.append(csv_field(result.path.as_str()).as_str());
    push_char(&mut line, ',');
    push_decimal(&mut line, result.size);
    push_char(&mut line, ',');
    line.append(csv_field(modified).as_str());
    push_char(&mut line, ',');
    line.append(csv_field(kind_label(result.kind)).as_str());
    assert(line@ =~= csv_row_text(result@, modified@));
    line
}

/// A result is visible when it passes the filter and, for a case-sensitive
/// search with a non-empty query, its name contains the query as typed.
pub open spec fn is_visible(f: ResultFilter, case_sensitive: bool, query: Seq<char>, r: SearchResultView) -> bool {
    filter_admits(f, r) && (!case_sensitive || query.len() == 0 || is_substring(query, r.name))
}

pub open spec fn visible_spec(
    results: Seq<SearchResultView>,
    f: ResultFilter,
    case_sensitive: bool,
    query: Seq<char>,
) -> Seq<SearchResultView>
    decreases results.len(),
{
    if results.len() == 0 {
        Seq::empty()
    } else if is_visible(f, case_sensitive, query, results.last()) {
        visible_spec(results.drop_last(), f, case_sensitive, query).push(results.last())
    } else {
        visible_spec(results.drop_last(), f, case_sensitive, query)
    }
}

/// `query` occurs in `name` as typed, at some position.
pub open spec fn name_holds(name: Seq<char>, query: Seq<char>) -> bool {
    exists|k: int| 0 <= k && k + query.len() <= name.len() && #[trigger] name.subrange(k, k + query.len()) == query
}

proof fn lemma_name_holds_iff(name: Seq<char>, query: Seq<char>)
    ensures
        is_substring(query, name) <==> name_holds(name, query),
{
    if is_substring(query, name) {
        let k = choose|k: int| crate::text::occurs_at(name, query, k);
        assert(name.subrange(k, k + query.len()) == query);
    }
    if name_holds(name, query) {
        let k = choose|k: int| 0 <= k && k + query.len() <= name.len() && #[trigger] name.subrange(k, k + query.len()) == query;
        assert(crate::text::occurs_at(name, query, k));
    }
}

/// With Match Case on and a query typed, the window lists exactly the
/// results that pass the filter and whose name (not path) contains the
/// query as typed: every listed result does, and every such result is
/// listed.
pub proof fn lemma_match_case_lists_names_holding_the_query(
    results: Seq<SearchResultView>,
    f: ResultFilter,
    query: Seq<char>,
)
    requires
        query.len() > 0,
    ensures
        forall|i: int|
            0 <= i < visible_spec(results, f, true, query).len() ==> {
                let r = #[trigger] visible_spec(results, f, true, query)[i];
                &&& filter_admits(f, r)
                &&& name_holds(r.name, query)
                &&& results.contains(r)
            },
        forall|i: int|
            0 <= i < results.len() && filter_admits(f, #[trigger] results[i]) && name_holds(results[i].name, query)
                ==> visible_spec(results, f, true, query).contains(results[i]),
    decreases results.len(),
{
    if results.len() > 0 {
        let rest = results.drop_last();
        let last = results.last();
        lemma_match_case_lists_names_holding_the_query(rest, f, query);
        lemma_name_holds_iff(last.name, query);
        let prev = visible_spec(rest, f, true, query);
        let out = visible_spec(results, f, true, query);
        assert forall|i: int| 0 <= i < out.len() implies {
            let r = #[trigger] out[i];
            &&& filter_admits(f, r)
            &&& name_holds(r.name, query)
            &&& results.contains(r)
        } by {
            if i < prev.len() {
                assert(out[i] == prev[i]);
                let j = choose|j: int| 0 <= j < rest.len() && rest[j] == prev[i];
                assert(results[j] == rest[j]);
            } else {
                assert(out[i] == last);
                assert(results[results.len() - 1] == last);
            }
        }
        assert forall|i: int|
            0 <= i < results.len() && filter_admits(f, #[trigger] results[i]) && name_holds(results[i].name, query)
            implies out.contains(results[i]) by {
            if i < rest.len() {
                assert(rest[i] == results[i]);
                assert(prev.contains(rest[i]));
                let j = choose|j: int| 0 <= j < prev.len() && prev[j] == rest[i];
                assert(out[j] == prev[j]);
            } else {
                assert(out[out.len() - 1] == last);
            }
        }
    }
}

/// Without Match Case, or with no query, the window lists exactly the
/// results that pass the filter.
pub proof fn lemma_without_match_case_only_the_filter_applies(
    results: Seq<SearchResultView>,
    f: ResultFilter,
    case_sensitive: bool,
    query: Seq<char>,
)
    requires
        !case_sensitive || query.len() == 0,
    ensures
        forall|i: int|
            0 <= i < visible_spec(results, f, case_sensitive, query).len() ==> {
                let r = #[trigger] visible_spec(results, f, case_sensitive, query)[i];
                &&& filter_admits(f, r)
                &&& results.contains(r)
            },
        forall|i: int|
            0 <= i < results.len() && filter_admits(f, #[trigger] results[i])
                ==> visible_spec(results, f, case_sensitive, query).contains(results[i]),
    decreases results.len(),
{
    if results.len() > 0 {
        let rest = results.drop_last();
        let last = results.last();
        lemma_without_match_case_only_the_filter_applies(rest, f, case_sensitive, query);
        let prev = visible_spec(rest, f, case_sensitive, query);
        let out = visible_spec(results, f, case_sensitive, query);
        assert forall|i: int| 0 <= i < out.len() implies {
            let r = #[trigger] out[i];
            &&& filter_admits(f, r)
            &&& results.contains(r)
        } by {
            if i < prev.len() {
                assert(out[i] == prev[i]);
                let j = choose|j: int| 0 <= j < rest.len() && rest[j] == prev[i];
                assert(results[j] == rest[j]);
            } else {
                assert(out[i] == last);
                assert(results[results.len() - 1] == last);
            }
        }
        assert forall|i: int| 0 <= i < results.len() && filter_admits(f, #[trigger] results[i]) implies out.contains(
            results[i],
        ) by {
            if i < rest.len() {
                assert(rest[i] == results[i]);
                assert(prev.contains(rest[i]));
                let j = choose|j: int| 0 <= j < prev.len() && prev[j] == rest[i];
                assert(out[j] == prev[j]);
            } else {
                assert(out[out.len() - 1] == last);
            }
        }
    }
}

pub open spec fn views_of(results: Seq<SearchResult>) -> Seq<SearchResultView> {
    results.map_values(|r: SearchResult| r@)
}

/// The results the window lists, in their current order.
pub fn visible_results(results: &[SearchResult], filter: ResultFilter, case_sensitive: bool, query: &str) -> (out: Vec<SearchResult>)
    ensures
        views_of(out@) == visible_spec(views_of(results@), filter, case_sensitive, query@),
{
    let q = chars_of(query);
    let ghost rv = views_of(results@);
    let mut out: Vec<SearchResult> = Vec::new();
    let mut i: usize = 0;
    while i < results.len()
        invariant
            i <= results@.len(),
            q@ == query@,
            rv == views_of(results@),
            views_of(out@) == visible_spec(rv.take(i as int), filter, case_sensitive, query@),
        decreases results.len() - i,
    {
        let r = &results[i];
        assert(rv.take(i + 1).drop_last() =~= rv.take(i as int));
        assert(rv.take(i + 1).last() == r@);
        let shown = filter.matches(r) && (!case_sensitive || q.len() == 0 || contains_chars(
            &chars_of(r.name.as_str()),
            &q,
        ));
        let ghost before = views_of(out@);
        if shown {
            out.push(r.duplicate());
            assert(views_of(out@) =~= before.push(r@));
        }
        i = i + 1;
    }
    assert(rv.take(results@.len() as int) =~= rv);
    out
}

// ---------------------------------------------------------------------------
// Column sorting.
// ---------------------------------------------------------------------------

/// The columns results can be sorted by.
#[derive(Debug, Clone, Copy, PartialEq, Eq, Structural)]
pub enum SortColumn {
    Name,
    Path,
    Size,
    Modified,
    Type,
}

/// What a column compares: text in lexicographic order, or a number.
pub enum SortKey {
    Text(Seq<char>),
    Number(int),
}

/// Names and paths compare lower-cased; sizes and times as numbers; types
/// by their label.
pub open spec fn sort_key(column: SortColumn, r: SearchResultView) -> SortKey {
    match column {
        SortColumn::Name => SortKey::Text(lowercase(r.name)),
        SortColumn::Path => SortKey::Text(lowercase(r.path)),
        SortColumn::Size => SortKey::Number(r.size as int),
        SortColumn::Modified => SortKey::Number(r.modified_ns as int),
        SortColumn::Type => SortKey::Text(kind_text(r.kind)),
    }
}

pub open spec fn key_le(a: SortKey, b: SortKey) -> bool {
    match (a, b) {
        (SortKey::Text(x), SortKey::Text(y)) => lex_le(x, y),
        (SortKey::Number(x), SortKey::Number(y)) => x <= y,
        _ => true,
    }
}

/// `a` may come before `b` when sorting by `column`, ascending or
/// descending.
pub open spec fn in_order(column: SortColumn, descending: bool, a: SearchResultView, b: SearchResultView) -> bool {
    if descending {
        key_le(sort_key(column, b), sort_key(column, a))
    } else {
        key_le(sort_key(column, a), sort_key(column, b))
    }
}

proof fn lemma_in_order_total(column: SortColumn, descending: bool, a: SearchResultView, b: SearchResultView)
    ensures
        in_order(column, descending, a, b) || in_order(column, descending, b, a),
{
    match (sort_key(column, a), sort_key(column, b)) {
        (SortKey::Text(x), SortKey::Text(y)) => lemma_lex_total(x, y),
        _ => {},
    }
}

proof fn lemma_in_order_trans(column: SortColumn, descending: bool, a: SearchResultView, b: SearchResultView, c: SearchResultView)
    requires
        in_order(column, descending, a, b),
        in_order(column, descending, b, c),
    ensures
        in_order(column, descending, a, c),
{
    match (sort_key(column, a), sort_key(column, b), sort_key(column, c)) {
        (SortKey::Text(x), SortKey::Text(y), SortKey::Text(z)) => {
            if descending {
                lemma_lex_trans(z, y, x);
            } else {
                lemma_lex_trans(x, y, z);
            }
        },
        _ => {},
    }
}

/// `out` is `input` reordered by `column` (ascending or descending), with
/// results that compare equal kept in the order they came in.
pub open spec fn is_stable_sort(
    column: SortColumn,
    descending: bool,
    input: Seq<SearchResultView>,
    out: Seq<SearchResultView>,
) -> bool {
    exists|perm: Seq<int>|
        {
            &&& perm.len() == input.len()
            &&& out.len() == input.len()
            &&& forall|i: int| 0 <= i < perm.len() ==> 0 <= #[trigger] perm[i] < input.len()
            &&& forall|i: int, j: int| 0 <= i < j < perm.len() ==> perm[i] != perm[j]
            &&& forall|i: int| 0 <= i < out.len() ==> out[i] == input[#[trigger] perm[i]]
            &&& forall|i: int, j: int| 0 <= i < j < out.len() ==> in_order(column, descending, out[i], out[j])
            &&& forall|i: int, j: int|
                0 <= i < j < out.len() && in_order(column, descending, out[j], out[i]) ==> perm[i] < perm[j]
        }
}

/// Sorting by a column puts the results in that column's order: names and
/// paths by their lower-cased text, sizes and modification times as
/// numbers, types by their label; descending reverses it.
pub proof fn lemma_sorted_by_column(
    column: SortColumn,
    descending: bool,
    input: Seq<SearchResultView>,
    out: Seq<SearchResultView>,
    i: int,
    j: int,
)
    requires
        is_stable_sort(column, descending, input, out),
        0 <= i < j < out.len(),
    ensures
        column == SortColumn::Name ==> if descending {
            lex_le(lowercase(out[j].name), lowercase(out[i].name))
        } else {
            lex_le(lowercase(out[i].name), lowercase(out[j].name))
        },
        column == SortColumn::Path ==> if descending {
            lex_le(lowercase(out[j].path), lowercase(out[i].path))
        } else {
            lex_le(lowercase(out[i].path), lowercase(out[j].path))
        },
        column == SortColumn::Size ==> if descending {
            out[j].size <= out[i].size
        } else {
            out[i].size <= out[j].size
        },
        column == SortColumn::Modified ==> if descending {
            out[j].modified_ns <= out[i].modified_ns
        } else {
            out[i].modified_ns <= out[j].modified_ns
        },
        column == SortColumn::Type ==> if descending {
            lex_le(kind_text(out[j].kind), kind_text(out[i].kind))
        } else {
            lex_le(kind_text(out[i].kind), kind_text(out[j].kind))
        },
{
    let perm = choose|perm: Seq<int>|
        {
            &&& perm.len() == input.len()
            &&& out.len() == input.len()
            &&& forall|a: int| 0 <= a < perm.len() ==> 0 <= #[trigger] perm[a] < input.len()
            &&& forall|a: int, b: int| 0 <= a < b < perm.len() ==> perm[a] != perm[b]
            &&& forall|a: int| 0 <= a < out.len() ==> out[a] == input[#[trigger] perm[a]]
            &&& forall|a: int, b: int| 0 <= a < b < out.len() ==> in_order(column, descending, out[a], out[b])
            &&& forall|a: int, b: int|
                0 <= a < b < out.len() && in_order(column, descending, out[b], out[a]) ==> perm[a] < perm[b]
        };
    assert(in_order(column, descending, out[i], out[j]));
}

/// Sorting only reorders: as many results come out as went in, each one
/// of the input.
pub proof fn lemma_sort_reorders(
    column: SortColumn,
    descending: bool,
    input: Seq<SearchResultView>,
    out: Seq<SearchResultView>,
)
    requires
        is_stable_sort(column, descending, input, out),
    ensures
        out.len() == input.len(),
        forall|a: int| 0 <= a < out.len() ==> input.contains(#[trigger] out[a]),
{
    let perm = choose|perm: Seq<int>|
        {
            &&& perm.len() == input.len()
            &&& out.len() == input.len()
            &&& forall|a: int| 0 <= a < perm.len() ==> 0 <= #[trigger] perm[a] < input.len()
            &&& forall|a: int, b: int| 0 <= a < b < perm.len() ==> perm[a] != perm[b]
            &&& forall|a: int| 0 <= a < out.len() ==> out[a] == input[#[trigger] perm[a]]
            &&& forall|a: int, b: int| 0 <= a < b < out.len() ==> in_order(column, descending, out[a], out[b])
            &&& forall|a: int, b: int|
                0 <= a < b < out.len() && in_order(column, descending, out[b], out[a]) ==> perm[a] < perm[b]
        };
    assert forall|a: int| 0 <= a < out.len() implies input.contains(#[trigger] out[a]) by {
        assert(out[a] == input[perm[a]]);
    }
}

enum KeyValue {
    Text(Vec<char>),
    Number(i128),
}

spec fn key_view(k: KeyValue) -> SortKey {
    match k {
        KeyValue::Text(v) => SortKey::Text(v@),
        KeyValue::Number(n) => SortKey::Number(n as int),
    }
}

fn key_for(column: SortColumn, r: &SearchResult) -> (k: KeyValue)
    ensures
        key_view(k) == sort_key(column, r@),
{
    match column {
        SortColumn::Name => KeyValue::Text(chars_of(to_lowercase(r.name.as_str()).as_str())),
        SortColumn::Path => KeyValue::Text(chars_of(to_lowercase(r.path.as_str()).as_str())),
        SortColumn::Size => KeyValue::Number(r.size as i128),
        SortColumn::Modified => KeyValue::Number(r.modified_ns as i128),
        SortColumn::Type => KeyValue::Text(chars_of(kind_label(r.kind))),
    }
}

fn key_le_exec(a: &KeyValue, b: &KeyValue) -> (r: bool)
    ensures
        r == key_le(key_view(*a), key_view(*b)),
{
    match (a, b) {
        (KeyValue::Text(x), KeyValue::Text(y)) => lex_le_chars(x, y),
        (KeyValue::Number(x), KeyValue::Number(y)) => *x <= *y,
        _ => true,
    }
}

fn in_order_exec(descending: bool, a: &KeyValue, b: &KeyValue) -> (r: bool)
    ensures
        r == if descending {
            key_le(key_view(*b), key_view(*a))
        } else {
            key_le(key_view(*a), key_view(*b))
        },
{
    if descending {
        key_le_exec(b, a)
    } else {
        key_le_exec(a, b)
    }
}

/// Sorts results by a column, keeping equal results in their order.
#[verifier::spinoff_prover]
#[verifier::rlimit(40)]
pub fn sort_results(results: &mut Vec<SearchResult>, column: SortColumn, descending: bool)
    ensures
        is_stable_sort(column, descending, views_of(old(results)@), views_of(final(results)@)),
{
    let mut input: Vec<SearchResult> = Vec::new();
    std::mem::swap(&mut input, results);
    let ghost iv = views_of(input@);
    let mut out: Vec<SearchResult> = Vec::new();
    let mut keys: Vec<KeyValue> = Vec::new();
    let ghost mut perm: Seq<int> = Seq::empty();
    let n = input.len();
    let mut idx: usize = 0;
    for item in it: input.into_iter()
        invariant
            it.seq() == old(results)@,
            iv == views_of(old(results)@),
            n == iv.len(),
            idx == it.index(),
            idx <= n,
            out@.len() == idx,
            keys@.len() == idx,
            perm.len() == idx,
            forall|i: int| 0 <= i < idx ==> 0 <= #[trigger] perm[i] < idx,
            forall|i: int, j: int| 0 <= i < j < idx ==> perm[i] != perm[j],
            forall|i: int| 0 <= i < idx ==> out@[i]@ == iv[#[trigger] perm[i]],
            forall|i: int| 0 <= i < idx ==> key_view(#[trigger] keys@[i]) == sort_key(column, out@[i]@),
            forall|i: int, j: int| 0 <= i < j < idx ==> in_order(column, descending, out@[i]@, out@[j]@),
            forall|i: int, j: int|
                0 <= i < j < idx && in_order(column, descending, out@[j]@, out@[i]@) ==> perm[i] < perm[j],
    {
        let ghost x = item@;
        assert(x == iv[idx as int]);
        let key = key_for(column, &item);
        let mut p: usize = 0;
        while p < keys.len() && in_order_exec(descending, &keys[p], &key)
            invariant
                p <= keys@.len(),
                keys@.len() == out@.len(),
                key_view(key) == sort_key(column, x),
                forall|i: int| 0 <= i < keys@.len() ==> key_view(#[trigger] keys@[i]) == sort_key(column, out@[i]@),
                forall|q: int| 0 <= q < p ==> in_order(column, descending, out@[q]@, x),
            decreases keys.len() - p,
        {
            assert(key_view(keys@[p as int]) == sort_key(column, out@[p as int]@));
            p = p + 1;
        }
        proof {
            if p < keys@.len() {
                assert(key_view(keys@[p as int]) == sort_key(column, out@[p as int]@));
                assert(!in_order(column, descending, out@[p as int]@, x));
                lemma_in_order_total(column, descending, out@[p as int]@, x);
            }
        }
        let ghost old_out = out@;
        let ghost old_keys = keys@;
        let ghost old_perm = perm;
        out.insert(p, item);
        keys.insert(p, key);
        proof {
            perm = old_perm.insert(p as int, idx as int);
            old_perm.insert_ensures(p as int, idx as int);
            old_out.insert_ensures(p as int, item);
            old_keys.insert_ensures(p as int, key);
            let m = old_out.len();
            assert forall|i: int| 0 <= i < idx + 1 implies 0 <= #[trigger] perm[i] < idx + 1 by {
                if i < p {
                    assert(perm[i] == old_perm[i]);
                } else if i > p {
                    assert(perm[i] == old_perm[i - 1]);
                }
            }
            assert forall|i: int, j: int| 0 <= i < j < idx + 1 implies perm[i] != perm[j] by {
                if i != p && j != p {
                    let oi = if i < p { i } else { i - 1 };
                    let oj = if j < p { j } else { j - 1 };
                    assert(old_perm[oi] != old_perm[oj]);
                } else if i == p {
                    assert(perm[j] == old_perm[j - 1]);
                } else {
                    assert(perm[i] == old_perm[i]);
                }
            }
            assert forall|i: int| 0 <= i < idx + 1 implies out@[i]@ == iv[#[trigger] perm[i]] && key_view(keys@[i]) == sort_key(column, out@[i]@) by {
                if i < p {
                    assert(perm[i] == old_perm[i]);
                } else if i > p {
                    assert(perm[i] == old_perm[i - 1]);
                }
            }
            assert forall|i: int| 0 <= i < idx + 1 implies key_view(#[trigger] keys@[i]) == sort_key(column, out@[i]@) by {
                assert(out@[i]@ == iv[perm[i]]);
            }
            assert forall|i: int, j: int| 0 <= i < j < idx + 1 implies in_order(column, descending, out@[i]@, out@[j]@) by {
                if i < p && j < p {
                } else if i < p && j == p {
                } else if i < p {
                    assert(out@[j] == old_out[j - 1]);
                } else if i == p {
                    assert(out@[j] == old_out[j - 1]);
                    if j - 1 > p {
                        lemma_in_order_trans(column, descending, x, old_out[p as int]@, old_out[j - 1]@);
                    }
                } else {
                    assert(out@[i] == old_out[i - 1]);
                    assert(out@[j] == old_out[j - 1]);
                }
            }
            assert forall|i: int, j: int|
                0 <= i < j < idx + 1 && in_order(column, descending, out@[j]@, out@[i]@) implies perm[i] < perm[j] by {
                if i != p && j != p {
                    let oi = if i < p { i } else { i - 1 };
                    let oj = if j < p { j } else { j - 1 };
                    assert(out@[i] == old_out[oi]);
                    assert(out@[j] == old_out[oj]);
                    assert(perm[i] == old_perm[oi]);
                    assert(perm[j] == old_perm[oj]);
                } else if j == p {
                    assert(perm[i] == old_perm[i]);
                } else {
                    assert(out@[j] == old_out[j - 1]);
                    if j - 1 > p {
                        lemma_in_order_trans(column, descending, old_out[p as int]@, old_out[j - 1]@, x);
                    }
                }
            }
        }
        idx = idx + 1;
    }
    proof {
        let ov = views_of(out@);
        assert forall|i: int| 0 <= i < ov.len() implies ov[i] == iv[#[trigger] perm[i]] by {
            assert(ov[i] == out@[i]@);
        }
        assert forall|i: int, j: int| 0 <= i < j < ov.len() implies in_order(column, descending, ov[i], ov[j]) by {
            assert(ov[i] == out@[i]@);
            assert(ov[j] == out@[j]@);
        }
        assert forall|i: int, j: int|
            0 <= i < j < ov.len() && in_order(column, descending, ov[j], ov[i]) implies perm[i] < perm[j] by {
            assert(ov[i] == out@[i]@);
            assert(ov[j] == out@[j]@);
        }
    }
    *results = out;
}

/// The sort after a column header is clicked: the same column flips its
/// direction; another column becomes the sort column, descending for sizes
/// and dates and ascending otherwise.
pub open spec fn next_sort_spec(current: SortColumn, descending: bool, clicked: SortColumn) -> (SortColumn, bool) {
    if current == clicked {
        (current, !descending)
    } else {
        (clicked, clicked == SortColumn::Size || clicked == SortColumn::Modified)
    }
}

pub fn next_sort(current: SortColumn, descending: bool, clicked: SortColumn) -> (r: (SortColumn, bool))
    ensures
        r == next_sort_spec(current, descending, clicked),
{
    if current == clicked {
        (current, !descending)
    } else {
        (clicked, clicked == SortColumn::Size || clicked == SortColumn::Modified)
    }
}

// ---------------------------------------------------------------------------
// Window state.
// ---------------------------------------------------------------------------

/// What the background worker reports to the window.
pub enum WorkerEvent {
    /// The current status of every root.
    Ready(Vec<RootStatus>),
    /// The results of a search request.
    Results { request_id: u64, results: Vec<SearchResult>, elapsed_ms: u64 },
    /// A scan ended.
    ScanFinished,
    /// A live update changed this many entries.
    IndexChanged(u64),
    /// Live monitoring stopped working, for this reason.
    WatcherDegraded(String),
    /// An operation failed with this message.
    Error(String),
}

/// What the window asks of the background worker.
pub enum UiCommand {
    RefreshStatus,
    Search { request_id: u64, query: String, match_path: bool },
    Scan { path: String },
}

/// The state of the search window that does not concern drawing.
pub struct UiState {
    pub query: String,
    pub request_id: u64,
    pub results: Vec<SearchResult>,
    pub selected_id: Option<i64>,
    pub roots: Vec<RootStatus>,
    pub filter: ResultFilter,
    pub case_sensitive: bool,
    pub match_path: bool,
    pub sort_column: SortColumn,
    pub sort_descending: bool,
    pub health: String,
    pub detail: String,
    pub query_latency_ms: u64,
    pub scan_rate: u64,
    pub scan_seen: u64,
    pub scan_errors: u64,
    /// The folder path typed into the index dialog.
    pub root_input: String,
    /// Whether the index dialog is open.
    pub show_add_root: bool,
}

fn text(t: &str) -> (s: String)
    ensures
        s@ == t@,
{
    String::from_str(t)
}

/// The text with every `_` replaced by a space.
pub open spec fn underscores_to_spaces(t: Seq<char>) -> Seq<char> {
    t.map_values(|c: char| if c == '_' { ' ' } else { c })
}

fn replace_underscores(t: &str) -> (s: String)
    ensures
        s@ == underscores_to_spaces(t@),
{
    let chars = chars_of(t);
    let mut s = String::new();
    let mut i: usize = 0;
    while i < chars.len()
        invariant
            i <= chars@.len(),
            chars@ == t@,
            s@ == underscores_to_spaces(t@.take(i as int)),
        decreases chars.len() - i,
    {
        let c = chars[i];
        push_char(&mut s, if c == '_' { ' ' } else { c });
        assert(underscores_to_spaces(t@.take(i + 1)) =~= underscores_to_spaces(t@.take(i as int)).push(if c == '_' { ' ' } else { c }));
        i = i + 1;
    }
    assert(t@.take(chars@.len() as int) =~= t@);
    s
}

/// Some root is degraded.
pub open spec fn any_degraded(roots: Seq<RootStatus>) -> bool {
    exists|i: int| 0 <= i < roots.len() && roots[i].state@ == "degraded"@
}

fn has_degraded_root(roots: &Vec<RootStatus>) -> (r: bool)
    ensures
        r == any_degraded(roots@),
{
    let degraded = text("degraded");
    let mut i: usize = 0;
    while i < roots.len()
        invariant
            i <= roots@.len(),
            degraded@ == "degraded"@,
            forall|k: int| 0 <= k < i ==> roots@[k].state@ != "degraded"@,
        decreases roots.len() - i,
    {
        if roots[i].state == degraded {
            assert(roots@[i as int].state@ == "degraded"@);
            return true;
        }
        i = i + 1;
    }
    false
}

/// The request id after `id`, wrapping around.
pub open spec fn next_request_id(id: u64) -> u64 {
    if id == u64::MAX {
        0
    } else {
        (id + 1) as u64
    }
}

/// The search request for the current query.
pub open spec fn is_search_for(command: UiCommand, state: UiState) -> bool {
    command matches UiCommand::Search { request_id, query, match_path } && request_id
        == state.request_id && query@ == state.query@ && match_path == state.match_path
}

/// The results counted in the status bar: those that pass the filter.
pub open spec fn admitted_count(results: Seq<SearchResultView>, f: ResultFilter) -> nat
    decreases results.len(),
{
    if results.len() == 0 {
        0
    } else {
        admitted_count(results.drop_last(), f) + if filter_admits(f, results.last()) {
            1nat
        } else {
            0nat
        }
    }
}

/// The position of the first result with id `id`.
pub open spec fn first_with_id(results: Seq<SearchResult>, id: i64) -> Option<int> {
    if exists|i: int| 0 <= i < results.len() && results[i].id == id {
        Some(choose|i: int| 0 <= i < results.len() && results[i].id == id && forall|k: int| 0 <= k < i ==> results[k].id != id)
    } else {
        None
    }
}

/// The texts of the status bar.
pub struct StatusBar {
    /// How many results pass the filter, as `<n> objects`.
    pub objects: String,
    /// The current status line.
    pub detail: String,
    /// While scanning, the scan figures as `<seen> objects · <rate>/s`.
    pub scan: Option<String>,
    /// When the last scan met errors, `<n> errors`.
    pub errors: Option<String>,
    /// The latency of the last query, as `<ms> ms`.
    pub latency: String,
    /// Whether ordinary terms are matched against full paths (shown as
    /// `PATH`).
    pub path_mode: bool,
    /// The health, upper-cased.
    pub health: String,
}

/// The position of the first result with id `id`.
fn first_index_with_id(results: &Vec<SearchResult>, id: i64) -> (found: Option<usize>)
    ensures
        found matches Some(k) ==> k < results@.len() && first_with_id(results@, id) == Some(k as int),
        found is None ==> first_with_id(results@, id) is None,
{
    let mut i: usize = 0;
    while i < results.len()
        invariant
            i <= results@.len(),
            forall|k: int| 0 <= k < i ==> results@[k].id != id,
        decreases results.len() - i,
    {
        if results[i].id == id {
            proof {
                let w = i as int;
                assert(0 <= w < results@.len() && results@[w].id == id && forall|k: int| 0 <= k < w ==> results@[k].id != id);
                let j = choose|j: int| 0 <= j < results@.len() && results@[j].id == id && forall|k: int| 0 <= k < j ==> results@[k].id != id;
                if j > w {
                    assert(results@[w].id != id);
                }
            }
            return Some(i);
        }
        i = i + 1;
    }
    None
}

impl UiState {
    /// The state of a freshly opened window; the folder dialog starts out
    /// holding `home`, the user's home directory (empty when unknown).
    pub fn new(home: String) -> (state: Self)
        ensures
            state.query@ == Seq::<char>::empty(),
            state.request_id == 1,
            state.results@.len() == 0,
            state.selected_id is None,
            state.roots@.len() == 0,
            state.filter == ResultFilter::Everything,
            !state.case_sensitive,
            !state.match_path,
            state.sort_column == SortColumn::Name,
            !state.sort_descending,
            state.health@ == "initializing"@,
            state.detail@ == "Opening index\u{2026}"@,
            state.query_latency_ms == 0,
            state.scan_rate == 0,
            state.scan_seen == 0,
            state.scan_errors == 0,
            state.root_input@ == home@,
            !state.show_add_root,
    {
        UiState {
            query: String::new(),
            request_id: 1,
            results: Vec::new(),
            selected_id: None,
            roots: Vec::new(),
            filter: ResultFilter::Everything,
            case_sensitive: false,
            match_path: false,
            sort_column: SortColumn::Name,
            sort_descending: false,
            health: text("initializing"),
            detail: text("Opening index\u{2026}"),
            query_latency_ms: 0,
            scan_rate: 0,
            scan_seen: 0,
            scan_errors: 0,
            root_input: home,
            show_add_root: false,
        }
    }

    /// The search request for the current query and request id.
    pub fn current_search(&self) -> (command: UiCommand)
        ensures
            is_search_for(command, *self),
    {
        UiCommand::Search {
            request_id: self.request_id,
            query: self.query.clone(),
            match_path: self.match_path,
        }
    }

    /// Starts a new search request for the current query: the request id
    /// advances (wrapping) and the status shows that a search is running.
    pub fn search_command(&mut self) -> (command: UiCommand)
        ensures
            *final(self) == (UiState {
                request_id: next_request_id(old(self).request_id),
                detail: final(self).detail,
                ..*old(self)
            }),
            final(self).detail@ == "Searching\u{2026}"@,
            is_search_for(command, *final(self)),
    {
        self.request_id = if self.request_id == u64::MAX { 0 } else { self.request_id + 1 };
        self.detail = text("Searching\u{2026}");
        self.current_search()
    }

    /// Clears the query and searches again.
    pub fn clear_query(&mut self) -> (command: UiCommand)
        ensures
            *final(self) == (UiState {
                query: final(self).query,
                request_id: next_request_id(old(self).request_id),
                detail: final(self).detail,
                ..*old(self)
            }),
            final(self).query@ == Seq::<char>::empty(),
            final(self).detail@ == "Searching\u{2026}"@,
            is_search_for(command, *final(self)),
    {
        self.query = String::new();
        self.search_command()
    }

    /// Turns matching against full paths on or off; a change starts a new
    /// search.
    pub fn set_match_path(&mut self, on: bool) -> (command: Option<UiCommand>)
        ensures
            if on == old(self).match_path {
                &&& command is None
                &&& *final(self) == *old(self)
            } else {
                &&& *final(self) == (UiState {
                    match_path: on,
                    request_id: next_request_id(old(self).request_id),
                    detail: final(self).detail,
                    ..*old(self)
                })
                &&& final(self).detail@ == "Searching\u{2026}"@
                &&& command matches Some(c) && is_search_for(c, *final(self))
            },
    {
        if on == self.match_path {
            None
        } else {
            self.match_path = on;
            Some(self.search_command())
        }
    }

    /// Sorts the results by the current column and direction.
    pub fn sort(&mut self)
        ensures
            *final(self) == (UiState { results: final(self).results, ..*old(self) }),
            is_stable_sort(old(self).sort_column, old(self).sort_descending, views_of(old(self).results@), views_of(final(self).results@)),
    {
        let mut results: Vec<SearchResult> = Vec::new();
        std::mem::swap(&mut results, &mut self.results);
        sort_results(&mut results, self.sort_column, self.sort_descending);
        self.results = results;
    }

    /// A column header was clicked.
    pub fn set_sort(&mut self, column: SortColumn)
        ensures
            *final(self) == (UiState {
                results: final(self).results,
                sort_column: next_sort_spec(old(self).sort_column, old(self).sort_descending, column).0,
                sort_descending: next_sort_spec(old(self).sort_column, old(self).sort_descending, column).1,
                ..*old(self)
            }),
            is_stable_sort(final(self).sort_column, final(self).sort_descending, views_of(old(self).results@), views_of(final(self).results@)),
    {
        let (c, d) = next_sort(self.sort_column, self.sort_descending, column);
        self.sort_column = c;
        self.sort_descending = d;
        self.sort();
    }

    /// The results the window lists: those that pass the filter and, for a
    /// case-sensitive search, contain the query as typed.
    pub fn visible(&self) -> (out: Vec<SearchResult>)
        ensures
            views_of(out@) == visible_spec(views_of(self.results@), self.filter, self.case_sensitive, self.query@),
    {
        visible_results(self.results.as_slice(), self.filter, self.case_sensitive, self.query.as_str())
    }

    /// How many results pass the filter.
    pub fn visible_count(&self) -> (n: usize)
        ensures
            n == admitted_count(views_of(self.results@), self.filter),
    {
        let ghost rv = views_of(self.results@);
        let mut n: usize = 0;
        let mut i: usize = 0;
        while i < self.results.len()
            invariant
                i <= self.results@.len(),
                rv == views_of(self.results@),
                n == admitted_count(rv.take(i as int), self.filter),
                n <= i,
            decreases self.results.len() - i,
        {
            assert(rv.take(i + 1).drop_last() =~= rv.take(i as int));
            assert(rv.take(i + 1).last() == self.results@[i as int]@);
            if self.filter.matches(&self.results[i]) {
                n = n + 1;
            }
            i = i + 1;
        }
        assert(rv.take(self.results@.len() as int) =~= rv);
        n
    }

    /// The selected result: the first result carrying the selected id.
    pub fn selected(&self) -> (r: Option<&SearchResult>)
        ensures
            self.selected_id is None ==> r is None,
            self.selected_id matches Some(id) ==> match first_with_id(self.results@, id) {
                Some(i) => r matches Some(x) && *x == self.results@[i],
                None => r is None,
            },
    {
        match self.selected_id {
            None => None,
            Some(id) => match first_index_with_id(&self.results, id) {
                Some(i) => Some(&self.results[i]),
                None => None,
            },
        }
    }

    /// The texts of the status bar.
    pub fn status_bar(&self) -> (bar: StatusBar)
        ensures
            bar.objects@ == decimal(admitted_count(views_of(self.results@), self.filter)) + " objects"@,
            bar.detail == self.detail,
            bar.scan matches Some(t) ==> self.health@ == "scanning"@ && t@ == decimal(self.scan_seen as nat)
                + " objects \u{b7} "@ + decimal(self.scan_rate as nat) + "/s"@,
            bar.scan is None ==> self.health@ != "scanning"@,
            bar.errors matches Some(t) ==> self.scan_errors > 0 && t@ == decimal(self.scan_errors as nat) + " errors"@,
            bar.errors is None ==> self.scan_errors == 0,
            bar.latency@ == decimal(self.query_latency_ms as nat) + " ms"@,
            bar.path_mode == self.match_path,
            bar.health@ == uppercase(self.health@),
    {
        let mut objects = String::new();
        push_decimal(&mut objects, self.visible_count() as u64);
        objects.append(" objects");
        let scanning = text("scanning");
        let scan = if self.health == scanning {
            let mut t = String::new();
            push_decimal(&mut t, self.scan_seen);
            t.append(" objects \u{b7} ");
            push_decimal(&mut t, self.scan_rate);
            t.append("/s");
            Some(t)
        } else {
            None
        };
        let errors = if self.scan_errors > 0 {
            let mut t = String::new();
            push_decimal(&mut t, self.scan_errors);
            t.append(" errors");
            Some(t)
        } else {
            None
        };
        let mut latency = String::new();
        push_decimal(&mut latency, self.query_latency_ms);
        latency.append(" ms");
        StatusBar {
            objects,
            detail: self.detail.clone(),
            scan,
            errors,
            latency,
            path_mode: self.match_path,
            health: to_uppercase(self.health.as_str()),
        }
    }

    /// Requests a scan of every root, in the order listed.
    pub fn reindex_all(&self) -> (commands: Vec<UiCommand>)
        ensures
            commands@.len() == self.roots@.len(),
            forall|i: int| 0 <= i < commands@.len() ==> (#[trigger] commands@[i] matches UiCommand::Scan { path } && path@ == self.roots@[i].path@),
    {
        let mut commands: Vec<UiCommand> = Vec::new();
        let mut i: usize = 0;
        while i < self.roots.len()
            invariant
                i <= self.roots@.len(),
                commands@.len() == i,
                forall|k: int| 0 <= k < i ==> (#[trigger] commands@[k] matches UiCommand::Scan { path } && path@ == self.roots@[k].path@),
            decreases self.roots.len() - i,
        {
            commands.push(UiCommand::Scan { path: self.roots[i].path.clone() });
            i = i + 1;
        }
        commands
    }

    /// Opens the index dialog.
    pub fn open_index_folder(&mut self)
        ensures
            *final(self) == (UiState { show_add_root: true, ..*old(self) }),
    {
        self.show_add_root = true;
    }

    /// Closes the index dialog without indexing.
    pub fn cancel_index_folder(&mut self)
        ensures
            *final(self) == (UiState { show_add_root: false, ..*old(self) }),
    {
        self.show_add_root = false;
    }

    /// The folder the index dialog names: the typed text without leading
    /// and trailing white space.
    pub fn index_folder_path(&self) -> (path: String)
        ensures
            path@ == trimmed(self.root_input@),
    {
        trim_text(self.root_input.as_str())
    }

    /// The index dialog's Index button; `is_dir` says whether the folder it
    /// names (`index_folder_path`) is a directory. A directory is scanned,
    /// the window shows that a scan is running and the dialog closes;
    /// anything else is refused with a message and the dialog stays as it
    /// was.
    pub fn submit_index_folder(&mut self, is_dir: bool) -> (command: Option<UiCommand>)
        ensures
            if is_dir {
                &&& *final(self) == (UiState { health: final(self).health, show_add_root: false, ..*old(self) })
                &&& final(self).health@ == "scanning"@
                &&& command matches Some(UiCommand::Scan { path }) && path@ == trimmed(old(self).root_input@)
            } else {
                &&& *final(self) == (UiState { detail: final(self).detail, ..*old(self) })
                &&& final(self).detail@ == "That directory does not exist"@
                &&& command is None
            },
    {
        if is_dir {
            let path = self.index_folder_path();
            self.health = text("scanning");
            self.show_add_root = false;
            Some(UiCommand::Scan { path })
        } else {
            self.detail = text("That directory does not exist");
            None
        }
    }

    /// Takes in one report of the worker and returns what to ask it next.
    /// Statuses update the root list and the health (degraded when any root
    /// is); results of the latest request replace the results, sorted, and
    /// report their count; a finished scan asks for statuses and a new
    /// search; a live update marks the index live and searches again;
    /// degradations and errors set the health and show their message.
    pub fn on_worker_event(&mut self, event: WorkerEvent) -> (commands: Vec<UiCommand>)
        ensures
            event matches WorkerEvent::Ready(statuses) ==> {
                &&& *final(self) == (UiState { roots: statuses, health: final(self).health, ..*old(self) })
                &&& final(self).health@ == (if any_degraded(statuses@) { "degraded"@ } else { "live"@ })
                &&& commands@.len() == 0
            },
            event matches WorkerEvent::Results { request_id, results, elapsed_ms } ==> if request_id == old(self).request_id {
                &&& *final(self) == (UiState {
                    results: final(self).results,
                    query_latency_ms: elapsed_ms,
                    detail: final(self).detail,
                    ..*old(self)
                })
                &&& is_stable_sort(old(self).sort_column, old(self).sort_descending, views_of(results@), views_of(final(self).results@))
                &&& final(self).detail@ == decimal(results@.len()) + " indexed matches"@
                &&& commands@.len() == 0
            } else {
                &&& *final(self) == *old(self)
                &&& commands@.len() == 0
            },
            event is ScanFinished ==> {
                &&& *final(self) == (UiState {
                    request_id: next_request_id(old(self).request_id),
                    detail: final(self).detail,
                    ..*old(self)
                })
                &&& final(self).detail@ == "Searching\u{2026}"@
                &&& commands@.len() == 2
                &&& commands@[0] is RefreshStatus
                &&& is_search_for(commands@[1], *final(self))
            },
            event is IndexChanged ==> {
                &&& *final(self) == (UiState {
                    request_id: next_request_id(old(self).request_id),
                    health: final(self).health,
                    detail: final(self).detail,
                    ..*old(self)
                })
                &&& final(self).health@ == "live"@
                &&& final(self).detail@ == "Searching\u{2026}"@
                &&& commands@.len() == 1
                &&& is_search_for(commands@[0], *final(self))
            },
            event matches WorkerEvent::WatcherDegraded(reason) ==> {
                &&& *final(self) == (UiState { health: final(self).health, detail: reason, ..*old(self) })
                &&& final(self).health@ == "degraded"@
                &&& commands@.len() == 0
            },
            event matches WorkerEvent::Error(message) ==> {
                &&& *final(self) == (UiState { health: final(self).health, detail: message, ..*old(self) })
                &&& final(self).health@ == "error"@
                &&& commands@.len() == 0
            },
    {
        let mut commands: Vec<UiCommand> = Vec::new();
        match event {
            WorkerEvent::Ready(statuses) => {
                self.health = if has_degraded_root(&statuses) {
                    text("degraded")
                } else {
                    text("live")
                };
                self.roots = statuses;
            },
            WorkerEvent::Results { request_id, results, elapsed_ms } => {
                if request_id == self.request_id {
                    let count = results.len();
                    self.results = results;
                    self.query_latency_ms = elapsed_ms;
                    self.sort();
                    let mut detail = String::new();
                    push_decimal(&mut detail, count as u64);
                    detail.append(" indexed matches");
                    self.detail = detail;
                }
            },
            WorkerEvent::ScanFinished => {
                self.detail = text("Index synchronized; live monitoring active");
                commands.push(UiCommand::RefreshStatus);
                let search = self.search_command();
                commands.push(search);
            },
            WorkerEvent::IndexChanged(changed) => {
                self.health = text("live");
                let mut detail = text("Live index update: ");
                push_decimal(&mut detail, changed);
                detail.append(" changed entries");
                self.detail = detail;
                let search = self.search_command();
                commands.push(search);
            },
            WorkerEvent::WatcherDegraded(reason) => {
                self.health = text("degraded");
                self.detail = reason;
            },
            WorkerEvent::Error(message) => {
                self.health = text("error");
                self.detail = message;
            },
        }
        commands
    }

    /// Takes in one telemetry event: health changes set the health (and
    /// show the reason with spaces for underscores); scan events update the
    /// scan figures and the status line; query events update the latency.
    pub fn on_telemetry(&mut self, event: &TelemetryEvent)
        ensures
            match *event {
                TelemetryEvent::HealthChanged { state, reason, .. } => {
                    &&& final(self).health@ == state@
                    &&& match reason {
                        Some(r) => {
                            &&& *final(self) == (UiState { health: final(self).health, detail: final(self).detail, ..*old(self) })
                            &&& final(self).detail@ == underscores_to_spaces(r@)
                        },
                        None => *final(self) == (UiState { health: final(self).health, ..*old(self) }),
                    }
                },
                TelemetryEvent::ScanStarted { root_id, .. } => {
                    &&& *final(self) == (UiState { detail: final(self).detail, ..*old(self) })
                    &&& final(self).detail@ == "Indexing root "@ + signed_decimal(root_id as int)
                },
                TelemetryEvent::ScanProgress { entries_seen, errors, entries_per_second, .. } => {
                    &&& *final(self) == (UiState {
                        scan_seen: entries_seen,
                        scan_errors: errors,
                        scan_rate: entries_per_second,
                        detail: final(self).detail,
                        ..*old(self)
                    })
                    &&& final(self).detail@ == "Indexing "@ + decimal(entries_seen as nat) + " objects"@
                },
                TelemetryEvent::ScanCompleted { entries_seen, errors, synchronized, .. } => {
                    &&& *final(self) == (UiState {
                        scan_seen: entries_seen,
                        scan_errors: errors,
                        detail: final(self).detail,
                        ..*old(self)
                    })
                    &&& final(self).detail@ == (if synchronized {
                        "Indexed "@ + decimal(entries_seen as nat) + " objects"@
                    } else {
                        "Indexed with "@ + decimal(errors as nat) + " errors; reconciliation required"@
                    })
                },
                TelemetryEvent::QueryCompleted { elapsed_ms, .. } => {
                    *final(self) == (UiState { query_latency_ms: elapsed_ms, ..*old(self) })
                },
            },
    {
        match event {
            TelemetryEvent::HealthChanged { state, reason, .. } => {
                self.health = text(state);
                match reason {
                    Some(r) => {
                        self.detail = replace_underscores(r);
                    },
                    None => {},
                }
            },
            TelemetryEvent::ScanStarted { root_id, .. } => {
                let mut detail = text("Indexing root ");
                push_signed_decimal(&mut detail, *root_id);
                self.detail = detail;
            },
            TelemetryEvent::ScanProgress { entries_seen, errors, entries_per_second, .. } => {
                self.scan_seen = *entries_seen;
                self.scan_errors = *errors;
                self.scan_rate = *entries_per_second;
                let mut detail = text("Indexing ");
                push_decimal(&mut detail, *entries_seen);
                detail.append(" objects");
                self.detail = detail;
            },
            TelemetryEvent::ScanCompleted { entries_seen, errors, synchronized, .. } => {
                self.scan_seen = *entries_seen;
                self.scan_errors = *errors;
                if *synchronized {
                    let mut detail = text("Indexed ");
                    push_decimal(&mut detail, *entries_seen);
                    detail.append(" objects");
                    self.detail = detail;
                } else {
                    let mut detail = text("Indexed with ");
                    push_decimal(&mut detail, *errors);
                    detail.append(" errors; reconciliation required");
                    self.detail = detail;
                }
            },
            TelemetryEvent::QueryCompleted { elapsed_ms, .. } => {
                self.query_latency_ms = *elapsed_ms;
            },
        }
    }
}

} // verus!
