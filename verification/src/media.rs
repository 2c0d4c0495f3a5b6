//! Media files: recognising them by extension, and clustering probed media
//! files whose durations lie close together into likely-duplicate groups.

use vstd::prelude::*;
use vstd::hash_map::StringHashMap;
use vstd::hash_set::StringHashSet;
use crate::grouping::{arrange, arrangement_of, ascending, distinct_items, key_le, lemma_arrangement_distinct, Key};
use crate::model::{
    entries_size, files_size, reclaimable, reclaimable_of, DuplicateFile, DuplicateGroup, FileEntry, MediaInfo, MediaKind,
};
use crate::sums::{lemma_picked_sum, picked, sum_of};
use crate::text::{chars_of, find_last, last_index_of, lemma_last_index_of, string_of};

verus! {

/// A character that separates path components on some platform (`/`
/// everywhere, `\` on Windows).
pub open spec fn is_separator_anywhere(c: char) -> bool {
    c == '/' || c == '\\'
}

/// A character that can end the piece of a path before a file name: a
/// separator, or the colon of a Windows drive prefix such as `C:`.
pub open spec fn ends_piece(c: char) -> bool {
    is_separator_anywhere(c) || c == ':'
}

/// A path that is a single name on every platform: not empty, not `.` or
/// `..`, and without separators or colons.
pub open spec fn is_bare_name(path: Seq<char>) -> bool {
    &&& path.len() > 0
    &&& path != seq!['.']
    &&& path != seq!['.', '.']
    &&& forall|k: int| 0 <= k < path.len() ==> !ends_piece(#[trigger] path[k])
}

/// A path that ends in a file name on every platform: it does not end in a
/// separator or a `.`, holds no colon (so no Windows drive prefix), and does
/// not start with two separators (so no Windows UNC, verbatim or device
/// prefix).
pub open spec fn ends_in_name(path: Seq<char>) -> bool {
    &&& path.len() > 0
    &&& !is_separator_anywhere(path.last())
    &&& path.last() != '.'
    &&& forall|k: int| 0 <= k < path.len() ==> #[trigger] path[k] != ':'
    &&& !(path.len() >= 2 && is_separator_anywhere(path[0]) && is_separator_anywhere(path[1]))
}

/// A Windows verbatim path, which starts with `\\?\`; in such a path only `\`
/// separates components.
pub open spec fn is_verbatim(path: Seq<char>) -> bool {
    path.len() >= 4 && path[0] == '\\' && path[1] == '\\' && path[2] == '?' && path[3] == '\\'
}

/// `name` can be the final component of `path` at position `i`: it is not
/// empty, it starts the path or follows a separator or a drive colon, only
/// separators and `.` follow it, and it holds no `/` unless the path is a
/// Windows verbatim path.
pub open spec fn final_piece_at(path: Seq<char>, name: Seq<char>, i: int) -> bool {
    &&& name.len() > 0
    &&& 0 <= i
    &&& i + name.len() <= path.len()
    &&& path.subrange(i, i + name.len()) == name
    &&& (i == 0 || ends_piece(path[i - 1]))
    &&& forall|k: int| i + name.len() <= k < path.len() ==> is_separator_anywhere(#[trigger] path[k]) || path[k] == '.'
    &&& !is_verbatim(path) ==> forall|k: int| 0 <= k < name.len() ==> #[trigger] name[k] != '/'
}

/// What holds of the file name `std::path::Path` gives a path on every
/// platform: a bare name is its own file name, a path that ends in a name has
/// one, and a file name is a final component of the path.
pub open spec fn file_name_fits(path: Seq<char>, name: Option<Seq<char>>) -> bool {
    &&& is_bare_name(path) ==> name == Some(path)
    &&& ends_in_name(path) ==> name is Some
    &&& name matches Some(n) ==> exists|i: int| #[trigger] final_piece_at(path, n, i)
}

/// `std::path::Path::file_name` of the path, as text: its final component,
/// if there is one. Components are separated by `/`, and on Windows also by
/// `\`, after an optional Windows prefix (`C:`, or one that starts with two
/// separators); `.` components are skipped, and a final `..` gives no file
/// name. The contract claims what holds on every platform (`file_name_fits`):
/// a path without separators, colons, `.` or `..` is its own file name; a
/// path that ends in a name, has no colon and does not start with two
/// separators has a file name; and a file name is a nonempty piece of the
/// path that starts it or follows a separator or drive colon, is followed
/// only by separators and dots, and holds no `/` outside verbatim paths.
#[verifier::external_body]
fn path_file_name(path: &str) -> (r: Option<String>)
    ensures
        file_name_fits(
            path@,
            match r {
                Some(n) => Some(n@),
                None => None,
            },
        ),
{
    std::path::Path::new(path).file_name().map(|n| n.to_string_lossy().into_owned())
}

/// The extension of a file name, as `std::path::Path::extension` documents
/// it: none when the name has no `.` or its only `.` starts it, otherwise
/// what follows the last `.`.
pub open spec fn extension_of(name: Seq<char>) -> Option<Seq<char>> {
    let d = last_index_of(name, '.');
    if d <= 0 {
        None
    } else {
        Some(name.subrange(d + 1, name.len() as int))
    }
}

/// The lower-case form of a string, as `str::to_lowercase` computes it.
pub uninterp spec fn lowercase(s: Seq<char>) -> Seq<char>;

/// `str::to_lowercase`.
#[verifier::external_body]
fn to_lowercase(s: &str) -> (r: String)
    ensures
        r@ == lowercase(s@),
{
    s.to_lowercase()
}

/// Extensions of video files.
pub open spec fn is_video_extension(e: Seq<char>) -> bool {
    ||| e == "mp4"@
    ||| e == "mkv"@
    ||| e == "avi"@
    ||| e == "mov"@
    ||| e == "wmv"@
    ||| e == "flv"@
    ||| e == "webm"@
    ||| e == "m4v"@
    ||| e == "mpg"@
    ||| e == "mpeg"@
    ||| e == "3gp"@
    ||| e == "ts"@
    ||| e == "vob"@
}

/// Extensions of audio files.
pub open spec fn is_audio_extension(e: Seq<char>) -> bool {
    ||| e == "mp3"@
    ||| e == "wav"@
    ||| e == "flac"@
    ||| e == "aac"@
    ||| e == "ogg"@
    ||| e == "wma"@
    ||| e == "m4a"@
    ||| e == "opus"@
    ||| e == "aiff"@
    ||| e == "alac"@
}

/// The kind of media a lower-case extension names, if any.
pub open spec fn kind_of_extension(e: Seq<char>) -> Option<MediaKind> {
    if is_video_extension(e) {
        Some(MediaKind::Video)
    } else if is_audio_extension(e) {
        Some(MediaKind::Audio)
    } else {
        None
    }
}

/// The video extensions, one by one: mp4, mkv, avi, mov, wmv, flv, webm,
/// m4v, mpg, mpeg, 3gp, ts and vob name video.
pub proof fn lemma_video_extensions()
    ensures
        kind_of_extension("mp4"@) == Some(MediaKind::Video),
        kind_of_extension("mkv"@) == Some(MediaKind::Video),
        kind_of_extension("avi"@) == Some(MediaKind::Video),
        kind_of_extension("mov"@) == Some(MediaKind::Video),
        kind_of_extension("wmv"@) == Some(MediaKind::Video),
        kind_of_extension("flv"@) == Some(MediaKind::Video),
        kind_of_extension("webm"@) == Some(MediaKind::Video),
        kind_of_extension("m4v"@) == Some(MediaKind::Video),
        kind_of_extension("mpg"@) == Some(MediaKind::Video),
        kind_of_extension("mpeg"@) == Some(MediaKind::Video),
        kind_of_extension("3gp"@) == Some(MediaKind::Video),
        kind_of_extension("ts"@) == Some(MediaKind::Video),
        kind_of_extension("vob"@) == Some(MediaKind::Video),
{
    reveal_strlit("mp4");
    reveal_strlit("mkv");
    reveal_strlit("avi");
    reveal_strlit("mov");
    reveal_strlit("wmv");
    reveal_strlit("flv");
    reveal_strlit("webm");
    reveal_strlit("m4v");
    reveal_strlit("mpg");
    reveal_strlit("mpeg");
    reveal_strlit("3gp");
    reveal_strlit("ts");
    reveal_strlit("vob");
}

/// The audio extensions, one by one: mp3, wav, flac, aac, ogg, wma, m4a,
/// opus, aiff and alac name audio.
pub proof fn lemma_audio_extensions()
    ensures
        kind_of_extension("mp3"@) == Some(MediaKind::Audio),
        kind_of_extension("wav"@) == Some(MediaKind::Audio),
        kind_of_extension("flac"@) == Some(MediaKind::Audio),
        kind_of_extension("aac"@) == Some(MediaKind::Audio),
        kind_of_extension("ogg"@) == Some(MediaKind::Audio),
        kind_of_extension("wma"@) == Some(MediaKind::Audio),
        kind_of_extension("m4a"@) == Some(MediaKind::Audio),
        kind_of_extension("opus"@) == Some(MediaKind::Audio),
        kind_of_extension("aiff"@) == Some(MediaKind::Audio),
        kind_of_extension("alac"@) == Some(MediaKind::Audio),
{
    reveal_strlit("mp3");
    reveal_strlit("wav");
    reveal_strlit("flac");
    reveal_strlit("aac");
    reveal_strlit("ogg");
    reveal_strlit("wma");
    reveal_strlit("m4a");
    reveal_strlit("opus");
    reveal_strlit("aiff");
    reveal_strlit("alac");
    lemma_not_video_mp3();
    lemma_not_video_wav();
    lemma_not_video_flac();
    lemma_not_video_aac();
    lemma_not_video_ogg();
    lemma_not_video_wma();
    lemma_not_video_m4a();
    lemma_not_video_opus();
    lemma_not_video_aiff();
    lemma_not_video_alac();
}

/// Other texts name no media: among them an upper-case extension, a prefix
/// or an extension of a media extension, and the empty text.
pub proof fn lemma_other_extensions()
    ensures
        kind_of_extension("txt"@) is None,
        kind_of_extension("jpg"@) is None,
        kind_of_extension("mp"@) is None,
        kind_of_extension("mp44"@) is None,
        kind_of_extension("mkv."@) is None,
        kind_of_extension(""@) is None,
        kind_of_extension("MP4"@) is None,
        kind_of_extension("webp"@) is None,
        kind_of_extension("aif"@) is None,
{
    lemma_no_media_txt();
    lemma_no_media_jpg();
    lemma_no_media_mp();
    lemma_no_media_mp44();
    lemma_no_media_mkv_dot();
    lemma_no_media_empty();
    lemma_no_media_upper_mp4();
    lemma_no_media_webp();
    lemma_no_media_aif();
}

proof fn lemma_not_video_mp3()
    ensures
        !is_video_extension("mp3"@),
{
    reveal_strlit("mp3");
    reveal_strlit("mp4");
    reveal_strlit("mkv");
    reveal_strlit("avi");
    reveal_strlit("mov");
    reveal_strlit("wmv");
    reveal_strlit("flv");
    reveal_strlit("webm");
    reveal_strlit("m4v");
    reveal_strlit("mpg");
    reveal_strlit("mpeg");
    reveal_strlit("3gp");
    reveal_strlit("ts");
    reveal_strlit("vob");
    assert("mp3"@[2] != "mp4"@[2]);
    assert("mp3"@[1] != "mkv"@[1]);
    assert("mp3"@[0] != "avi"@[0]);
    assert("mp3"@[1] != "mov"@[1]);
    assert("mp3"@[0] != "wmv"@[0]);
    assert("mp3"@[0] != "flv"@[0]);
    assert("mp3"@.len() != "webm"@.len());
    assert("mp3"@[1] != "m4v"@[1]);
    assert("mp3"@[2] != "mpg"@[2]);
    assert("mp3"@.len() != "mpeg"@.len());
    assert("mp3"@[0] != "3gp"@[0]);
    assert("mp3"@.len() != "ts"@.len());
    assert("mp3"@[0] != "vob"@[0]);
}

proof fn lemma_not_video_wav()
    ensures
        !is_video_extension("wav"@),
{
    reveal_strlit("wav");
    reveal_strlit("mp4");
    reveal_strlit("mkv");
    reveal_strlit("avi");
    reveal_strlit("mov");
    reveal_strlit("wmv");
    reveal_strlit("flv");
    reveal_strlit("webm");
    reveal_strlit("m4v");
    reveal_strlit("mpg");
    reveal_strlit("mpeg");
    reveal_strlit("3gp");
    reveal_strlit("ts");
    reveal_strlit("vob");
    assert("wav"@[0] != "mp4"@[0]);
    assert("wav"@[0] != "mkv"@[0]);
    assert("wav"@[0] != "avi"@[0]);
    assert("wav"@[0] != "mov"@[0]);
    assert("wav"@[1] != "wmv"@[1]);
    assert("wav"@[0] != "flv"@[0]);
    assert("wav"@.len() != "webm"@.len());
    assert("wav"@[0] != "m4v"@[0]);
    assert("wav"@[0] != "mpg"@[0]);
    assert("wav"@.len() != "mpeg"@.len());
    assert("wav"@[0] != "3gp"@[0]);
    assert("wav"@.len() != "ts"@.len());
    assert("wav"@[0] != "vob"@[0]);
}

proof fn lemma_not_video_flac()
    ensures
        !is_video_extension("flac"@),
{
    reveal_strlit("flac");
    reveal_strlit("mp4");
    reveal_strlit("mkv");
    reveal_strlit("avi");
    reveal_strlit("mov");
    reveal_strlit("wmv");
    reveal_strlit("flv");
    reveal_strlit("webm");
    reveal_strlit("m4v");
    reveal_strlit("mpg");
    reveal_strlit("mpeg");
    reveal_strlit("3gp");
    reveal_strlit("ts");
    reveal_strlit("vob");
    assert("flac"@.len() != "mp4"@.len());
    assert("flac"@.len() != "mkv"@.len());
    assert("flac"@.len() != "avi"@.len());
    assert("flac"@.len() != "mov"@.len());
    assert("flac"@.len() != "wmv"@.len());
    assert("flac"@.len() != "flv"@.len());
    assert("flac"@[0] != "webm"@[0]);
    assert("flac"@.len() != "m4v"@.len());
    assert("flac"@.len() != "mpg"@.len());
    assert("flac"@[0] != "mpeg"@[0]);
    assert("flac"@.len() != "3gp"@.len());
    assert("flac"@.len() != "ts"@.len());
    assert("flac"@.len() != "vob"@.len());
}

proof fn lemma_not_video_aac()
    ensures
        !is_video_extension("aac"@),
{
    reveal_strlit("aac");
    reveal_strlit("mp4");
    reveal_strlit("mkv");
    reveal_strlit("avi");
    reveal_strlit("mov");
    reveal_strlit("wmv");
    reveal_strlit("flv");
    reveal_strlit("webm");
    reveal_strlit("m4v");
    reveal_strlit("mpg");
    reveal_strlit("mpeg");
    reveal_strlit("3gp");
    reveal_strlit("ts");
    reveal_strlit("vob");
    assert("aac"@[0] != "mp4"@[0]);
    assert("aac"@[0] != "mkv"@[0]);
    assert("aac"@[1] != "avi"@[1]);
    assert("aac"@[0] != "mov"@[0]);
    assert("aac"@[0] != "wmv"@[0]);
    assert("aac"@[0] != "flv"@[0]);
    assert("aac"@.len() != "webm"@.len());
    assert("aac"@[0] != "m4v"@[0]);
    assert("aac"@[0] != "mpg"@[0]);
    assert("aac"@.len() != "mpeg"@.len());
    assert("aac"@[0] != "3gp"@[0]);
    assert("aac"@.len() != "ts"@.len());
    assert("aac"@[0] != "vob"@[0]);
}

proof fn lemma_not_video_ogg()
    ensures
        !is_video_extension("ogg"@),
{
    reveal_strlit("ogg");
    reveal_strlit("mp4");
    reveal_strlit("mkv");
    reveal_strlit("avi");
    reveal_strlit("mov");
    reveal_strlit("wmv");
    reveal_strlit("flv");
    reveal_strlit("webm");
    reveal_strlit("m4v");
    reveal_strlit("mpg");
    reveal_strlit("mpeg");
    reveal_strlit("3gp");
    reveal_strlit("ts");
    reveal_strlit("vob");
    assert("ogg"@[0] != "mp4"@[0]);
    assert("ogg"@[0] != "mkv"@[0]);
    assert("ogg"@[0] != "avi"@[0]);
    assert("ogg"@[0] != "mov"@[0]);
    assert("ogg"@[0] != "wmv"@[0]);
    assert("ogg"@[0] != "flv"@[0]);
    assert("ogg"@.len() != "webm"@.len());
    assert("ogg"@[0] != "m4v"@[0]);
    assert("ogg"@[0] != "mpg"@[0]);
    assert("ogg"@.len() != "mpeg"@.len());
    assert("ogg"@[0] != "3gp"@[0]);
    assert("ogg"@.len() != "ts"@.len());
    assert("ogg"@[0] != "vob"@[0]);
}

proof fn lemma_not_video_wma()
    ensures
        !is_video_extension("wma"@),
{
    reveal_strlit("wma");
    reveal_strlit("mp4");
    reveal_strlit("mkv");
    reveal_strlit("avi");
    reveal_strlit("mov");
    reveal_strlit("wmv");
    reveal_strlit("flv");
    reveal_strlit("webm");
    reveal_strlit("m4v");
    reveal_strlit("mpg");
    reveal_strlit("mpeg");
    reveal_strlit("3gp");
    reveal_strlit("ts");
    reveal_strlit("vob");
    assert("wma"@[0] != "mp4"@[0]);
    assert("wma"@[0] != "mkv"@[0]);
    assert("wma"@[0] != "avi"@[0]);
    assert("wma"@[0] != "mov"@[0]);
    assert("wma"@[2] != "wmv"@[2]);
    assert("wma"@[0] != "flv"@[0]);
    assert("wma"@.len() != "webm"@.len());
    assert("wma"@[0] != "m4v"@[0]);
    assert("wma"@[0] != "mpg"@[0]);
    assert("wma"@.len() != "mpeg"@.len());
    assert("wma"@[0] != "3gp"@[0]);
    assert("wma"@.len() != "ts"@.len());
    assert("wma"@[0] != "vob"@[0]);
}

proof fn lemma_not_video_m4a()
    ensures
        !is_video_extension("m4a"@),
{
    reveal_strlit("m4a");
    reveal_strlit("mp4");
    reveal_strlit("mkv");
    reveal_strlit("avi");
    reveal_strlit("mov");
    reveal_strlit("wmv");
    reveal_strlit("flv");
    reveal_strlit("webm");
    reveal_strlit("m4v");
    reveal_strlit("mpg");
    reveal_strlit("mpeg");
    reveal_strlit("3gp");
    reveal_strlit("ts");
    reveal_strlit("vob");
    assert("m4a"@[1] != "mp4"@[1]);
    assert("m4a"@[1] != "mkv"@[1]);
    assert("m4a"@[0] != "avi"@[0]);
    assert("m4a"@[1] != "mov"@[1]);
    assert("m4a"@[0] != "wmv"@[0]);
    assert("m4a"@[0] != "flv"@[0]);
    assert("m4a"@.len() != "webm"@.len());
    assert("m4a"@[2] != "m4v"@[2]);
    assert("m4a"@[1] != "mpg"@[1]);
    assert("m4a"@.len() != "mpeg"@.len());
    assert("m4a"@[0] != "3gp"@[0]);
    assert("m4a"@.len() != "ts"@.len());
    assert("m4a"@[0] != "vob"@[0]);
}

proof fn lemma_not_video_opus()
    ensures
        !is_video_extension("opus"@),
{
    reveal_strlit("opus");
    reveal_strlit("mp4");
    reveal_strlit("mkv");
    reveal_strlit("avi");
    reveal_strlit("mov");
    reveal_strlit("wmv");
    reveal_strlit("flv");
    reveal_strlit("webm");
    reveal_strlit("m4v");
    reveal_strlit("mpg");
    reveal_strlit("mpeg");
    reveal_strlit("3gp");
    reveal_strlit("ts");
    reveal_strlit("vob");
    assert("opus"@.len() != "mp4"@.len());
    assert("opus"@.len() != "mkv"@.len());
    assert("opus"@.len() != "avi"@.len());
    assert("opus"@.len() != "mov"@.len());
    assert("opus"@.len() != "wmv"@.len());
    assert("opus"@.len() != "flv"@.len());
    assert("opus"@[0] != "webm"@[0]);
    assert("opus"@.len() != "m4v"@.len());
    assert("opus"@.len() != "mpg"@.len());
    assert("opus"@[0] != "mpeg"@[0]);
    assert("opus"@.len() != "3gp"@.len());
    assert("opus"@.len() != "ts"@.len());
    assert("opus"@.len() != "vob"@.len());
}

proof fn lemma_not_video_aiff()
    ensures
        !is_video_extension("aiff"@),
{
    reveal_strlit("aiff");
    reveal_strlit("mp4");
    reveal_strlit("mkv");
    reveal_strlit("avi");
    reveal_strlit("mov");
    reveal_strlit("wmv");
    reveal_strlit("flv");
    reveal_strlit("webm");
    reveal_strlit("m4v");
    reveal_strlit("mpg");
    reveal_strlit("mpeg");
    reveal_strlit("3gp");
    reveal_strlit("ts");
    reveal_strlit("vob");
    assert("aiff"@.len() != "mp4"@.len());
    assert("aiff"@.len() != "mkv"@.len());
    assert("aiff"@.len() != "avi"@.len());
    assert("aiff"@.len() != "mov"@.len());
    assert("aiff"@.len() != "wmv"@.len());
    assert("aiff"@.len() != "flv"@.len());
    assert("aiff"@[0] != "webm"@[0]);
    assert("aiff"@.len() != "m4v"@.len());
    assert("aiff"@.len() != "mpg"@.len());
    assert("aiff"@[0] != "mpeg"@[0]);
    assert("aiff"@.len() != "3gp"@.len());
    assert("aiff"@.len() != "ts"@.len());
    assert("aiff"@.len() != "vob"@.len());
}

proof fn lemma_not_video_alac()
    ensures
        !is_video_extension("alac"@),
{
    reveal_strlit("alac");
    reveal_strlit("mp4");
    reveal_strlit("mkv");
    reveal_strlit("avi");
    reveal_strlit("mov");
    reveal_strlit("wmv");
    reveal_strlit("flv");
    reveal_strlit("webm");
    reveal_strlit("m4v");
    reveal_strlit("mpg");
    reveal_strlit("mpeg");
    reveal_strlit("3gp");
    reveal_strlit("ts");
    reveal_strlit("vob");
    assert("alac"@.len() != "mp4"@.len());
    assert("alac"@.len() != "mkv"@.len());
    assert("alac"@.len() != "avi"@.len());
    assert("alac"@.len() != "mov"@.len());
    assert("alac"@.len() != "wmv"@.len());
    assert("alac"@.len() != "flv"@.len());
    assert("alac"@[0] != "webm"@[0]);
    assert("alac"@.len() != "m4v"@.len());
    assert("alac"@.len() != "mpg"@.len());
    assert("alac"@[0] != "mpeg"@[0]);
    assert("alac"@.len() != "3gp"@.len());
    assert("alac"@.len() != "ts"@.len());
    assert("alac"@.len() != "vob"@.len());
}

proof fn lemma_no_media_txt()
    ensures
        !is_video_extension("txt"@),
        !is_audio_extension("txt"@),
{
    reveal_strlit("txt");
    reveal_strlit("mp4");
    reveal_strlit("mkv");
    reveal_strlit("avi");
    reveal_strlit("mov");
    reveal_strlit("wmv");
    reveal_strlit("flv");
    reveal_strlit("webm");
    reveal_strlit("m4v");
    reveal_strlit("mpg");
    reveal_strlit("mpeg");
    reveal_strlit("3gp");
    reveal_strlit("ts");
    reveal_strlit("vob");
    reveal_strlit("mp3");
    reveal_strlit("wav");
    reveal_strlit("flac");
    reveal_strlit("aac");
    reveal_strlit("ogg");
    reveal_strlit("wma");
    reveal_strlit("m4a");
    reveal_strlit("opus");
    reveal_strlit("aiff");
    reveal_strlit("alac");
    assert("txt"@[0] != "mp4"@[0]);
    assert("txt"@[0] != "mkv"@[0]);
    assert("txt"@[0] != "avi"@[0]);
    assert("txt"@[0] != "mov"@[0]);
    assert("txt"@[0] != "wmv"@[0]);
    assert("txt"@[0] != "flv"@[0]);
    assert("txt"@.len() != "webm"@.len());
    assert("txt"@[0] != "m4v"@[0]);
    assert("txt"@[0] != "mpg"@[0]);
    assert("txt"@.len() != "mpeg"@.len());
    assert("txt"@[0] != "3gp"@[0]);
    assert("txt"@.len() != "ts"@.len());
    assert("txt"@[0] != "vob"@[0]);
    assert("txt"@[0] != "mp3"@[0]);
    assert("txt"@[0] != "wav"@[0]);
    assert("txt"@.len() != "flac"@.len());
    assert("txt"@[0] != "aac"@[0]);
    assert("txt"@[0] != "ogg"@[0]);
    assert("txt"@[0] != "wma"@[0]);
    assert("txt"@[0] != "m4a"@[0]);
    assert("txt"@.len() != "opus"@.len());
    assert("txt"@.len() != "aiff"@.len());
    assert("txt"@.len() != "alac"@.len());
}

proof fn lemma_no_media_jpg()
    ensures
        !is_video_extension("jpg"@),
        !is_audio_extension("jpg"@),
{
    reveal_strlit("jpg");
    reveal_strlit("mp4");
    reveal_strlit("mkv");
    reveal_strlit("avi");
    reveal_strlit("mov");
    reveal_strlit("wmv");
    reveal_strlit("flv");
    reveal_strlit("webm");
    reveal_strlit("m4v");
    reveal_strlit("mpg");
    reveal_strlit("mpeg");
    reveal_strlit("3gp");
    reveal_strlit("ts");
    reveal_strlit("vob");
    reveal_strlit("mp3");
    reveal_strlit("wav");
    reveal_strlit("flac");
    reveal_strlit("aac");
    reveal_strlit("ogg");
    reveal_strlit("wma");
    reveal_strlit("m4a");
    reveal_strlit("opus");
    reveal_strlit("aiff");
    reveal_strlit("alac");
    assert("jpg"@[0] != "mp4"@[0]);
    assert("jpg"@[0] != "mkv"@[0]);
    assert("jpg"@[0] != "avi"@[0]);
    assert("jpg"@[0] != "mov"@[0]);
    assert("jpg"@[0] != "wmv"@[0]);
    assert("jpg"@[0] != "flv"@[0]);
    assert("jpg"@.len() != "webm"@.len());
    assert("jpg"@[0] != "m4v"@[0]);
    assert("jpg"@[0] != "mpg"@[0]);
    assert("jpg"@.len() != "mpeg"@.len());
    assert("jpg"@[0] != "3gp"@[0]);
    assert("jpg"@.len() != "ts"@.len());
    assert("jpg"@[0] != "vob"@[0]);
    assert("jpg"@[0] != "mp3"@[0]);
    assert("jpg"@[0] != "wav"@[0]);
    assert("jpg"@.len() != "flac"@.len());
    assert("jpg"@[0] != "aac"@[0]);
    assert("jpg"@[0] != "ogg"@[0]);
    assert("jpg"@[0] != "wma"@[0]);
    assert("jpg"@[0] != "m4a"@[0]);
    assert("jpg"@.len() != "opus"@.len());
    assert("jpg"@.len() != "aiff"@.len());
    assert("jpg"@.len() != "alac"@.len());
}

proof fn lemma_no_media_mp()
    ensures
        !is_video_extension("mp"@),
        !is_audio_extension("mp"@),
{
    reveal_strlit("mp");
    reveal_strlit("mp4");
    reveal_strlit("mkv");
    reveal_strlit("avi");
    reveal_strlit("mov");
    reveal_strlit("wmv");
    reveal_strlit("flv");
    reveal_strlit("webm");
    reveal_strlit("m4v");
    reveal_strlit("mpg");
    reveal_strlit("mpeg");
    reveal_strlit("3gp");
    reveal_strlit("ts");
    reveal_strlit("vob");
    reveal_strlit("mp3");
    reveal_strlit("wav");
    reveal_strlit("flac");
    reveal_strlit("aac");
    reveal_strlit("ogg");
    reveal_strlit("wma");
    reveal_strlit("m4a");
    reveal_strlit("opus");
    reveal_strlit("aiff");
    reveal_strlit("alac");
    assert("mp"@.len() != "mp4"@.len());
    assert("mp"@.len() != "mkv"@.len());
    assert("mp"@.len() != "avi"@.len());
    assert("mp"@.len() != "mov"@.len());
    assert("mp"@.len() != "wmv"@.len());
    assert("mp"@.len() != "flv"@.len());
    assert("mp"@.len() != "webm"@.len());
    assert("mp"@.len() != "m4v"@.len());
    assert("mp"@.len() != "mpg"@.len());
    assert("mp"@.len() != "mpeg"@.len());
    assert("mp"@.len() != "3gp"@.len());
    assert("mp"@[0] != "ts"@[0]);
    assert("mp"@.len() != "vob"@.len());
    assert("mp"@.len() != "mp3"@.len());
    assert("mp"@.len() != "wav"@.len());
    assert("mp"@.len() != "flac"@.len());
    assert("mp"@.len() != "aac"@.len());
    assert("mp"@.len() != "ogg"@.len());
    assert("mp"@.len() != "wma"@.len());
    assert("mp"@.len() != "m4a"@.len());
    assert("mp"@.len() != "opus"@.len());
    assert("mp"@.len() != "aiff"@.len());
    assert("mp"@.len() != "alac"@.len());
}

proof fn lemma_no_media_mp44()
    ensures
        !is_video_extension("mp44"@),
        !is_audio_extension("mp44"@),
{
    reveal_strlit("mp44");
    reveal_strlit("mp4");
    reveal_strlit("mkv");
    reveal_strlit("avi");
    reveal_strlit("mov");
    reveal_strlit("wmv");
    reveal_strlit("flv");
    reveal_strlit("webm");
    reveal_strlit("m4v");
    reveal_strlit("mpg");
    reveal_strlit("mpeg");
    reveal_strlit("3gp");
    reveal_strlit("ts");
    reveal_strlit("vob");
    reveal_strlit("mp3");
    reveal_strlit("wav");
    reveal_strlit("flac");
    reveal_strlit("aac");
    reveal_strlit("ogg");
    reveal_strlit("wma");
    reveal_strlit("m4a");
    reveal_strlit("opus");
    reveal_strlit("aiff");
    reveal_strlit("alac");
    assert("mp44"@.len() != "mp4"@.len());
    assert("mp44"@.len() != "mkv"@.len());
    assert("mp44"@.len() != "avi"@.len());
    assert("mp44"@.len() != "mov"@.len());
    assert("mp44"@.len() != "wmv"@.len());
    assert("mp44"@.len() != "flv"@.len());
    assert("mp44"@[0] != "webm"@[0]);
    assert("mp44"@.len() != "m4v"@.len());
    assert("mp44"@.len() != "mpg"@.len());
    assert("mp44"@[2] != "mpeg"@[2]);
    assert("mp44"@.len() != "3gp"@.len());
    assert("mp44"@.len() != "ts"@.len());
    assert("mp44"@.len() != "vob"@.len());
    assert("mp44"@.len() != "mp3"@.len());
    assert("mp44"@.len() != "wav"@.len());
    assert("mp44"@[0] != "flac"@[0]);
    assert("mp44"@.len() != "aac"@.len());
    assert("mp44"@.len() != "ogg"@.len());
    assert("mp44"@.len() != "wma"@.len());
    assert("mp44"@.len() != "m4a"@.len());
    assert("mp44"@[0] != "opus"@[0]);
    assert("mp44"@[0] != "aiff"@[0]);
    assert("mp44"@[0] != "alac"@[0]);
}

proof fn lemma_no_media_mkv_dot()
    ensures
        !is_video_extension("mkv."@),
        !is_audio_extension("mkv."@),
{
    reveal_strlit("mkv.");
    reveal_strlit("mp4");
    reveal_strlit("mkv");
    reveal_strlit("avi");
    reveal_strlit("mov");
    reveal_strlit("wmv");
    reveal_strlit("flv");
    reveal_strlit("webm");
    reveal_strlit("m4v");
    reveal_strlit("mpg");
    reveal_strlit("mpeg");
    reveal_strlit("3gp");
    reveal_strlit("ts");
    reveal_strlit("vob");
    reveal_strlit("mp3");
    reveal_strlit("wav");
    reveal_strlit("flac");
    reveal_strlit("aac");
    reveal_strlit("ogg");
    reveal_strlit("wma");
    reveal_strlit("m4a");
    reveal_strlit("opus");
    reveal_strlit("aiff");
    reveal_strlit("alac");
    assert("mkv."@.len() != "mp4"@.len());
    assert("mkv."@.len() != "mkv"@.len());
    assert("mkv."@.len() != "avi"@.len());
    assert("mkv."@.len() != "mov"@.len());
    assert("mkv."@.len() != "wmv"@.len());
    assert("mkv."@.len() != "flv"@.len());
    assert("mkv."@[0] != "webm"@[0]);
    assert("mkv."@.len() != "m4v"@.len());
    assert("mkv."@.len() != "mpg"@.len());
    assert("mkv."@[1] != "mpeg"@[1]);
    assert("mkv."@.len() != "3gp"@.len());
    assert("mkv."@.len() != "ts"@.len());
    assert("mkv."@.len() != "vob"@.len());
    assert("mkv."@.len() != "mp3"@.len());
    assert("mkv."@.len() != "wav"@.len());
    assert("mkv."@[0] != "flac"@[0]);
    assert("mkv."@.len() != "aac"@.len());
    assert("mkv."@.len() != "ogg"@.len());
    assert("mkv."@.len() != "wma"@.len());
    assert("mkv."@.len() != "m4a"@.len());
    assert("mkv."@[0] != "opus"@[0]);
    assert("mkv."@[0] != "aiff"@[0]);
    assert("mkv."@[0] != "alac"@[0]);
}

proof fn lemma_no_media_empty()
    ensures
        !is_video_extension(""@),
        !is_audio_extension(""@),
{
    reveal_strlit("");
    reveal_strlit("mp4");
    reveal_strlit("mkv");
    reveal_strlit("avi");
    reveal_strlit("mov");
    reveal_strlit("wmv");
    reveal_strlit("flv");
    reveal_strlit("webm");
    reveal_strlit("m4v");
    reveal_strlit("mpg");
    reveal_strlit("mpeg");
    reveal_strlit("3gp");
    reveal_strlit("ts");
    reveal_strlit("vob");
    reveal_strlit("mp3");
    reveal_strlit("wav");
    reveal_strlit("flac");
    reveal_strlit("aac");
    reveal_strlit("ogg");
    reveal_strlit("wma");
    reveal_strlit("m4a");
    reveal_strlit("opus");
    reveal_strlit("aiff");
    reveal_strlit("alac");
    assert(""@.len() != "mp4"@.len());
    assert(""@.len() != "mkv"@.len());
    assert(""@.len() != "avi"@.len());
    assert(""@.len() != "mov"@.len());
    assert(""@.len() != "wmv"@.len());
    assert(""@.len() != "flv"@.len());
    assert(""@.len() != "webm"@.len());
    assert(""@.len() != "m4v"@.len());
    assert(""@.len() != "mpg"@.len());
    assert(""@.len() != "mpeg"@.len());
    assert(""@.len() != "3gp"@.len());
    assert(""@.len() != "ts"@.len());
    assert(""@.len() != "vob"@.len());
    assert(""@.len() != "mp3"@.len());
    assert(""@.len() != "wav"@.len());
    assert(""@.len() != "flac"@.len());
    assert(""@.len() != "aac"@.len());
    assert(""@.len() != "ogg"@.len());
    assert(""@.len() != "wma"@.len());
    assert(""@.len() != "m4a"@.len());
    assert(""@.len() != "opus"@.len());
    assert(""@.len() != "aiff"@.len());
    assert(""@.len() != "alac"@.len());
}

proof fn lemma_no_media_upper_mp4()
    ensures
        !is_video_extension("MP4"@),
        !is_audio_extension("MP4"@),
{
    reveal_strlit("MP4");
    reveal_strlit("mp4");
    reveal_strlit("mkv");
    reveal_strlit("avi");
    reveal_strlit("mov");
    reveal_strlit("wmv");
    reveal_strlit("flv");
    reveal_strlit("webm");
    reveal_strlit("m4v");
    reveal_strlit("mpg");
    reveal_strlit("mpeg");
    reveal_strlit("3gp");
    reveal_strlit("ts");
    reveal_strlit("vob");
    reveal_strlit("mp3");
    reveal_strlit("wav");
    reveal_strlit("flac");
    reveal_strlit("aac");
    reveal_strlit("ogg");
    reveal_strlit("wma");
    reveal_strlit("m4a");
    reveal_strlit("opus");
    reveal_strlit("aiff");
    reveal_strlit("alac");
    assert("MP4"@[0] != "mp4"@[0]);
    assert("MP4"@[0] != "mkv"@[0]);
    assert("MP4"@[0] != "avi"@[0]);
    assert("MP4"@[0] != "mov"@[0]);
    assert("MP4"@[0] != "wmv"@[0]);
    assert("MP4"@[0] != "flv"@[0]);
    assert("MP4"@.len() != "webm"@.len());
    assert("MP4"@[0] != "m4v"@[0]);
    assert("MP4"@[0] != "mpg"@[0]);
    assert("MP4"@.len() != "mpeg"@.len());
    assert("MP4"@[0] != "3gp"@[0]);
    assert("MP4"@.len() != "ts"@.len());
    assert("MP4"@[0] != "vob"@[0]);
    assert("MP4"@[0] != "mp3"@[0]);
    assert("MP4"@[0] != "wav"@[0]);
    assert("MP4"@.len() != "flac"@.len());
    assert("MP4"@[0] != "aac"@[0]);
    assert("MP4"@[0] != "ogg"@[0]);
    assert("MP4"@[0] != "wma"@[0]);
    assert("MP4"@[0] != "m4a"@[0]);
    assert("MP4"@.len() != "opus"@.len());
    assert("MP4"@.len() != "aiff"@.len());
    assert("MP4"@.len() != "alac"@.len());
}

proof fn lemma_no_media_webp()
    ensures
        !is_video_extension("webp"@),
        !is_audio_extension("webp"@),
{
    reveal_strlit("webp");
    reveal_strlit("mp4");
    reveal_strlit("mkv");
    reveal_strlit("avi");
    reveal_strlit("mov");
    reveal_strlit("wmv");
    reveal_strlit("flv");
    reveal_strlit("webm");
    reveal_strlit("m4v");
    reveal_strlit("mpg");
    reveal_strlit("mpeg");
    reveal_strlit("3gp");
    reveal_strlit("ts");
    reveal_strlit("vob");
    reveal_strlit("mp3");
    reveal_strlit("wav");
    reveal_strlit("flac");
    reveal_strlit("aac");
    reveal_strlit("ogg");
    reveal_strlit("wma");
    reveal_strlit("m4a");
    reveal_strlit("opus");
    reveal_strlit("aiff");
    reveal_strlit("alac");
    assert("webp"@.len() != "mp4"@.len());
    assert("webp"@.len() != "mkv"@.len());
    assert("webp"@.len() != "avi"@.len());
    assert("webp"@.len() != "mov"@.len());
    assert("webp"@.len() != "wmv"@.len());
    assert("webp"@.len() != "flv"@.len());
    assert("webp"@[3] != "webm"@[3]);
    assert("webp"@.len() != "m4v"@.len());
    assert("webp"@.len() != "mpg"@.len());
    assert("webp"@[0] != "mpeg"@[0]);
    assert("webp"@.len() != "3gp"@.len());
    assert("webp"@.len() != "ts"@.len());
    assert("webp"@.len() != "vob"@.len());
    assert("webp"@.len() != "mp3"@.len());
    assert("webp"@.len() != "wav"@.len());
    assert("webp"@[0] != "flac"@[0]);
    assert("webp"@.len() != "aac"@.len());
    assert("webp"@.len() != "ogg"@.len());
    assert("webp"@.len() != "wma"@.len());
    assert("webp"@.len() != "m4a"@.len());
    assert("webp"@[0] != "opus"@[0]);
    assert("webp"@[0] != "aiff"@[0]);
    assert("webp"@[0] != "alac"@[0]);
}

proof fn lemma_no_media_aif()
    ensures
        !is_video_extension("aif"@),
        !is_audio_extension("aif"@),
{
    reveal_strlit("aif");
    reveal_strlit("mp4");
    reveal_strlit("mkv");
    reveal_strlit("avi");
    reveal_strlit("mov");
    reveal_strlit("wmv");
    reveal_strlit("flv");
    reveal_strlit("webm");
    reveal_strlit("m4v");
    reveal_strlit("mpg");
    reveal_strlit("mpeg");
    reveal_strlit("3gp");
    reveal_strlit("ts");
    reveal_strlit("vob");
    reveal_strlit("mp3");
    reveal_strlit("wav");
    reveal_strlit("flac");
    reveal_strlit("aac");
    reveal_strlit("ogg");
    reveal_strlit("wma");
    reveal_strlit("m4a");
    reveal_strlit("opus");
    reveal_strlit("aiff");
    reveal_strlit("alac");
    assert("aif"@[0] != "mp4"@[0]);
    assert("aif"@[0] != "mkv"@[0]);
    assert("aif"@[1] != "avi"@[1]);
    assert("aif"@[0] != "mov"@[0]);
    assert("aif"@[0] != "wmv"@[0]);
    assert("aif"@[0] != "flv"@[0]);
    assert("aif"@.len() != "webm"@.len());
    assert("aif"@[0] != "m4v"@[0]);
    assert("aif"@[0] != "mpg"@[0]);
    assert("aif"@.len() != "mpeg"@.len());
    assert("aif"@[0] != "3gp"@[0]);
    assert("aif"@.len() != "ts"@.len());
    assert("aif"@[0] != "vob"@[0]);
    assert("aif"@[0] != "mp3"@[0]);
    assert("aif"@[0] != "wav"@[0]);
    assert("aif"@.len() != "flac"@.len());
    assert("aif"@[1] != "aac"@[1]);
    assert("aif"@[0] != "ogg"@[0]);
    assert("aif"@[0] != "wma"@[0]);
    assert("aif"@[0] != "m4a"@[0]);
    assert("aif"@.len() != "opus"@.len());
    assert("aif"@.len() != "aiff"@.len());
    assert("aif"@.len() != "alac"@.len());
}

/// The kind of media a file name names, judged by its lower-cased extension;
/// `None` without a file name.
pub open spec fn kind_for_name(name: Option<Seq<char>>) -> Option<MediaKind> {
    match name {
        None => None,
        Some(n) => match extension_of(n) {
            None => None,
            Some(ext) => kind_of_extension(lowercase(ext)),
        },
    }
}

/// Whether `s` holds exactly the text `lit`.
fn is_text(s: &String, lit: &str) -> (r: bool)
    ensures
        r == (s@ == lit@),
{
    *s == String::from_str(lit)
}

/// The kind of media a lower-case extension names: a known video extension
/// gives `Video`, a known audio extension `Audio`, anything else `None`.
pub fn kind_for_extension(lower: &str) -> (r: Option<MediaKind>)
    ensures
        r == kind_of_extension(lower@),
{
    let lower = String::from_str(lower);
    if is_text(&lower, "mp4") || is_text(&lower, "mkv") || is_text(&lower, "avi") || is_text(&lower, "mov")
        || is_text(&lower, "wmv") || is_text(&lower, "flv") || is_text(&lower, "webm") || is_text(&lower, "m4v")
        || is_text(&lower, "mpg") || is_text(&lower, "mpeg") || is_text(&lower, "3gp") || is_text(&lower, "ts")
        || is_text(&lower, "vob") {
        Some(MediaKind::Video)
    } else if is_text(&lower, "mp3") || is_text(&lower, "wav") || is_text(&lower, "flac") || is_text(&lower, "aac")
        || is_text(&lower, "ogg") || is_text(&lower, "wma") || is_text(&lower, "m4a") || is_text(&lower, "opus")
        || is_text(&lower, "aiff") || is_text(&lower, "alac") {
        Some(MediaKind::Audio)
    } else {
        None
    }
}

/// The kind of media a file name names (as `Path::file_name` gives it):
/// that of the lower-cased extension, if the name has one.
pub fn kind_for_file_name(name: Option<&str>) -> (r: Option<MediaKind>)
    ensures
        r == kind_for_name(match name {
            Some(n) => Some(n@),
            None => None,
        }),
{
    let name = match name {
        None => return None,
        Some(n) => chars_of(n),
    };
    proof {
        assert(name@.take(name.len() as int) == name@);
        lemma_last_index_of(name@, '.');
    }
    let dot = match find_last(&name, name.len(), '.') {
        None => return None,
        Some(d) => d,
    };
    if dot == 0 {
        return None;
    }
    let mut ext: Vec<char> = Vec::new();
    let mut j = dot + 1;
    while j < name.len()
        invariant
            dot + 1 <= j <= name.len(),
            ext@ == name@.subrange(dot + 1, j as int),
        decreases name.len() - j,
    {
        ext.push(name[j]);
        proof {
            assert(name@.subrange(dot + 1, j + 1) == name@.subrange(dot + 1, j as int).push(name@[j as int]));
        }
        j = j + 1;
    }
    let ext_text = string_of(&ext);
    let lower = to_lowercase(ext_text.as_str());
    kind_for_extension(lower.as_str())
}

/// The text after the last `/` of a path.
pub open spec fn after_last_slash(path: Seq<char>) -> Seq<char> {
    path.subrange(last_index_of(path, '/') + 1, path.len() as int)
}

proof fn lemma_name_of_plain_path(path: Seq<char>, n: Seq<char>, i: int)
    requires
        ends_in_name(path),
        forall|k: int| 0 <= k < path.len() ==> #[trigger] path[k] != '\\',
        final_piece_at(path, n, i),
    ensures
        n == after_last_slash(path),
{
    lemma_last_index_of(path, '/');
    let l = last_index_of(path, '/');
    let e = i + n.len();
    if e < path.len() {
        assert(is_separator_anywhere(path[path.len() - 1]) || path[path.len() - 1] == '.');
    }
    assert(!is_verbatim(path));
    if l >= i {
        assert(n[l - i] == path[l]);
    }
    if i > 0 {
        assert(path[i - 1] == '/');
    }
    assert(n == path.subrange(l + 1, path.len() as int));
}

/// The kind of media a path names: that of the lower-cased extension of the
/// file name `std::path::Path` gives it on this platform. Whatever the
/// platform, a bare name is read whole, and a path with neither `\` nor `:`
/// that ends in a name (and does not start with `//`) is read by its text
/// after the last `/`.
pub fn media_kind_for(path: &str) -> (r: Option<MediaKind>)
    ensures
        exists|name: Option<Seq<char>>| file_name_fits(path@, name) && r == #[trigger] kind_for_name(name),
        is_bare_name(path@) ==> r == kind_for_name(Some(path@)),
        ends_in_name(path@) && (forall|k: int| 0 <= k < path@.len() ==> #[trigger] path@[k] != '\\') ==> r
            == kind_for_name(Some(after_last_slash(path@))),
{
    let name = path_file_name(path);
    let r = match &name {
        Some(n) => kind_for_file_name(Some(n.as_str())),
        None => kind_for_file_name(None),
    };
    proof {
        let v = match name {
            Some(n) => Some(n@),
            None => None,
        };
        assert(r == kind_for_name(v));
        if ends_in_name(path@) && (forall|k: int| 0 <= k < path@.len() ==> #[trigger] path@[k] != '\\') {
            let n = v.unwrap();
            let i = choose|i: int| #[trigger] final_piece_at(path@, n, i);
            lemma_name_of_plain_path(path@, n, i);
        }
    }
    r
}

/// The stream that probing looks at for each kind of media.
pub fn stream_selector(kind: MediaKind) -> (r: &'static str)
    ensures
        r@ == (match kind {
            MediaKind::Video => "v:0"@,
            MediaKind::Audio => "a:0"@,
        }),
{
    match kind {
        MediaKind::Video => "v:0",
        MediaKind::Audio => "a:0",
    }
}

/// Entry `i` as a member of a likely-duplicate group, with its media details.
pub open spec fn media_file(entries: Seq<FileEntry>, lookup: Map<Seq<char>, MediaInfo>, i: int) -> DuplicateFile {
    DuplicateFile { entry: entries[i], media: Some(lookup[entries[i].path@]) }
}

/// The keys (duration, entry index) of the entries that were probed as media
/// of the given kind and are not excluded, in entry order.
pub open spec fn candidate_keys(
    entries: Seq<FileEntry>,
    lookup: Map<Seq<char>, MediaInfo>,
    exclude: Set<Seq<char>>,
    kind: MediaKind,
) -> Seq<Key>
    decreases entries.len(),
{
    if entries.len() == 0 {
        Seq::empty()
    } else {
        let rest = candidate_keys(entries.drop_last(), lookup, exclude, kind);
        let path = entries.last().path@;
        if !exclude.contains(path) && lookup.contains_key(path) && lookup[path].kind == kind {
            rest.push((lookup[path].duration_micros, 0, 0, 0, 0, 0, (entries.len() - 1) as usize))
        } else {
            rest
        }
    }
}

/// The maximal stretches of `s` in which each duration exceeds the one before
/// it by at most `tolerance`.
pub open spec fn stretches(s: Seq<Key>, tolerance: u64) -> Seq<Seq<Key>>
    decreases s.len(),
{
    if s.len() == 0 {
        Seq::empty()
    } else {
        let prev = stretches(s.drop_last(), tolerance);
        if s.len() >= 2 && s.last().0 - s[s.len() - 2].0 <= tolerance {
            prev.update(prev.len() - 1, prev.last().push(s.last()))
        } else {
            prev.push(seq![s.last()])
        }
    }
}

/// The runs that hold more than one key.
pub open spec fn multi(runs: Seq<Seq<Key>>) -> Seq<Seq<Key>>
    decreases runs.len(),
{
    if runs.len() == 0 {
        Seq::empty()
    } else {
        let rest = multi(runs.drop_last());
        if runs.last().len() > 1 {
            rest.push(runs.last())
        } else {
            rest
        }
    }
}

/// `groups` are the runs of keys, as groups of the entries the keys name.
pub open spec fn groups_of_runs(
    groups: Seq<DuplicateGroup>,
    runs: Seq<Seq<Key>>,
    entries: Seq<FileEntry>,
    lookup: Map<Seq<char>, MediaInfo>,
) -> bool {
    &&& groups.len() == runs.len()
    &&& forall|g: int|
        0 <= g < groups.len() ==> {
            &&& (#[trigger] groups[g]).files@.len() == runs[g].len()
            &&& forall|m: int|
                0 <= m < runs[g].len() ==> groups[g].files@[m] == media_file(
                    entries,
                    lookup,
                    (#[trigger] runs[g][m]).6 as int,
                )
            &&& groups[g].reclaimable_bytes == reclaimable(groups[g].files@)
        }
}

/// The sizes of the entries, by index.
pub open spec fn entry_sizes(entries: Seq<FileEntry>) -> Seq<nat> {
    Seq::new(entries.len(), |i: int| entries[i].size as nat)
}

proof fn lemma_entry_sizes_sum(entries: Seq<FileEntry>)
    ensures
        sum_of(entry_sizes(entries)) == entries_size(entries),
    decreases entries.len(),
{
    if entries.len() > 0 {
        lemma_entry_sizes_sum(entries.drop_last());
        assert(entry_sizes(entries).drop_last() == entry_sizes(entries.drop_last()));
    }
}

proof fn lemma_files_size_picked(files: Seq<DuplicateFile>, w: Seq<nat>, ps: Seq<int>)
    requires
        files.len() == ps.len(),
        forall|m: int| 0 <= m < ps.len() ==> 0 <= #[trigger] ps[m] < w.len() && files[m].entry.size == w[ps[m]],
    ensures
        files_size(files) == sum_of(picked(w, ps)),
    decreases files.len(),
{
    if files.len() > 0 {
        lemma_files_size_picked(files.drop_last(), w, ps.drop_last());
        assert(picked(w, ps).drop_last() == picked(w, ps.drop_last()));
    }
}

/// The keys name probed entries.
pub open spec fn keys_probed(keys: Seq<Key>, entries: Seq<FileEntry>, lookup: Map<Seq<char>, MediaInfo>) -> bool {
    forall|k: int|
        0 <= k < keys.len() ==> (#[trigger] keys[k]).6 < entries.len() && lookup.contains_key(
            entries[keys[k].6 as int].path@,
        )
}

/// The group of the entries a run of keys names.
fn media_group(entries: &Vec<FileEntry>, lookup: &StringHashMap<MediaInfo>, run: &Vec<Key>) -> (r: DuplicateGroup)
    requires
        keys_probed(run@, entries@, lookup@),
        distinct_items(run@),
        entries_size(entries@) <= u64::MAX,
    ensures
        r.files@.len() == run@.len(),
        forall|m: int| 0 <= m < run@.len() ==> r.files@[m] == media_file(entries@, lookup@, (#[trigger] run@[m]).6 as int),
        r.reclaimable_bytes == reclaimable(r.files@),
{
    let mut files: Vec<DuplicateFile> = Vec::new();
    let mut m: usize = 0;
    while m < run.len()
        invariant
            m <= run@.len(),
            keys_probed(run@, entries@, lookup@),
            files@.len() == m,
            forall|n: int| 0 <= n < m ==> files@[n] == media_file(entries@, lookup@, (#[trigger] run@[n]).6 as int),
        decreases run@.len() - m,
    {
        let entry = entries[run[m].6].duplicate();
        let media = match lookup.get(entry.path.as_str()) {
            Some(info) => Some(info.duplicate()),
            None => None,
        };
        files.push(DuplicateFile { entry, media });
        m = m + 1;
    }
    proof {
        let w = entry_sizes(entries@);
        let ps = run@.map_values(|k: Key| k.6 as int);
        assert(ps.no_duplicates()) by {
            assert forall|i: int, j: int| 0 <= i < ps.len() && 0 <= j < ps.len() && i != j implies ps[i] != ps[j] by {
                assert(run@[i].6 != run@[j].6);
            }
        }
        assert forall|i: int| 0 <= i < ps.len() implies 0 <= #[trigger] ps[i] < w.len() by {
            assert(run@[i].6 < entries@.len());
        }
        lemma_files_size_picked(files@, w, ps);
        lemma_picked_sum(w, ps);
        lemma_entry_sizes_sum(entries@);
    }
    let reclaimable_bytes = reclaimable_of(&files);
    DuplicateGroup { files, reclaimable_bytes }
}

proof fn lemma_stretches_nonempty(s: Seq<Key>, tolerance: u64)
    ensures
        s.len() > 0 ==> stretches(s, tolerance).len() > 0,
    decreases s.len(),
{
    if s.len() > 0 {
        lemma_stretches_nonempty(s.drop_last(), tolerance);
    }
}

/// In the stretches of keys ordered by duration, each duration is at least the
/// one before it and exceeds it by at most `tolerance`; the last stretch ends
/// with the last key.
proof fn lemma_stretch_steps(s: Seq<Key>, tolerance: u64)
    requires
        forall|i: int, j: int| 0 <= i < j < s.len() ==> (#[trigger] s[i]).0 <= (#[trigger] s[j]).0,
    ensures
        s.len() > 0 ==> stretches(s, tolerance).len() > 0 && stretches(s, tolerance).last().len() > 0
            && stretches(s, tolerance).last().last() == s.last(),
        forall|r: int, m: int|
            0 <= r < stretches(s, tolerance).len() && 1 <= m < stretches(s, tolerance)[r].len()
                ==> stretches(s, tolerance)[r][m - 1].0 <= (#[trigger] stretches(s, tolerance)[r][m]).0
                <= stretches(s, tolerance)[r][m - 1].0 + tolerance,
    decreases s.len(),
{
    if s.len() > 0 {
        let rest = s.drop_last();
        assert forall|i: int, j: int| 0 <= i < j < rest.len() implies (#[trigger] rest[i]).0 <= (#[trigger] rest[j]).0 by {
            assert(rest[i] == s[i] && rest[j] == s[j]);
        }
        lemma_stretch_steps(rest, tolerance);
        let prev = stretches(rest, tolerance);
        let st = stretches(s, tolerance);
        if s.len() >= 2 && s.last().0 - s[s.len() - 2].0 <= tolerance {
            let last = prev.last();
            assert(last.last() == s[s.len() - 2]);
            assert(s[s.len() - 2].0 <= s[s.len() - 1].0);
            assert forall|r: int, m: int| 0 <= r < st.len() && 1 <= m < st[r].len() implies st[r][m - 1].0 <= (#[trigger] st[r][m]).0
                <= st[r][m - 1].0 + tolerance by {
                if r < prev.len() - 1 {
                    assert(st[r] == prev[r]);
                } else if m < last.len() {
                    assert(st[r] == last.push(s.last()));
                    assert(st[r][m] == last[m] && st[r][m - 1] == last[m - 1]);
                    assert(prev[prev.len() - 1] == last);
                } else {
                    assert(st[r] == last.push(s.last()));
                    assert(st[r][m - 1] == last[last.len() - 1]);
                }
            }
        } else {
            assert forall|r: int, m: int| 0 <= r < st.len() && 1 <= m < st[r].len() implies st[r][m - 1].0 <= (#[trigger] st[r][m]).0
                <= st[r][m - 1].0 + tolerance by {
                assert(st[r] == prev[r]);
            }
        }
    }
}

/// The likely-duplicate groups of keys in ascending order: the stretches of
/// close durations that hold more than one file.
pub fn cluster_sorted(entries: &Vec<FileEntry>, lookup: &StringHashMap<MediaInfo>, sorted: &Vec<Key>, tolerance: u64) -> (r:
    Vec<DuplicateGroup>)
    requires
        ascending(sorted@),
        distinct_items(sorted@),
        keys_probed(sorted@, entries@, lookup@),
        entries_size(entries@) <= u64::MAX,
    ensures
        groups_of_runs(r@, multi(stretches(sorted@, tolerance)), entries@, lookup@),
{
    let n = sorted.len();
    let mut out: Vec<DuplicateGroup> = Vec::new();
    let mut cur: Vec<Key> = Vec::new();
    let ghost mut done: Seq<Seq<Key>> = Seq::empty();
    let mut start: usize = 0;
    let mut i: usize = 0;
    while i < n
        invariant
            n == sorted@.len(),
            ascending(sorted@),
            distinct_items(sorted@),
            keys_probed(sorted@, entries@, lookup@),
            entries_size(entries@) <= u64::MAX,
            start <= i <= n,
            i == 0 ==> start == 0 && done.len() == 0,
            i > 0 ==> start < i,
            cur@ == sorted@.subrange(start as int, i as int),
            i > 0 ==> stretches(sorted@.take(i as int), tolerance) == done.push(cur@),
            groups_of_runs(out@, multi(done), entries@, lookup@),
        decreases n - i,
    {
        let key = sorted[i];
        proof {
            assert(sorted@.take(i + 1).drop_last() == sorted@.take(i as int));
            assert(sorted@.take(i + 1).last() == key);
            if i > 0 {
                assert(sorted@.take(i + 1)[i - 1] == sorted@[i - 1]);
                assert(key_le(sorted@[i - 1], sorted@[i as int]));
            }
        }
        if i > 0 && key.0 - sorted[i - 1].0 <= tolerance {
            cur.push(key);
            proof {
                lemma_stretches_nonempty(sorted@.take(i as int), tolerance);
                assert(cur@ == sorted@.subrange(start as int, i + 1));
                assert(done.push(cur@.drop_last()).update(done.len() as int, cur@) == done.push(cur@));
            }
        } else {
            if i > 0 {
                let ghost before = out@;
                if cur.len() > 1 {
                    proof {
                        assert forall|k: int| 0 <= k < cur@.len() implies (#[trigger] cur@[k]).6 < entries@.len()
                            && lookup@.contains_key(entries@[cur@[k].6 as int].path@) by {
                            assert(cur@[k] == sorted@[start + k]);
                        }
                        assert forall|a: int, b: int| 0 <= a < cur@.len() && 0 <= b < cur@.len() && a != b implies (
                        #[trigger] cur@[a]).6 != (#[trigger] cur@[b]).6 by {
                            assert(cur@[a] == sorted@[start + a]);
                            assert(cur@[b] == sorted@[start + b]);
                        }
                    }
                    let group = media_group(entries, lookup, &cur);
                    out.push(group);
                }
                proof {
                    let nd = done.push(cur@);
                    assert(nd.drop_last() == done);
                    assert forall|g: int| 0 <= g < out@.len() implies {
                        &&& (#[trigger] out@[g]).files@.len() == multi(nd)[g].len()
                        &&& forall|m: int|
                            0 <= m < multi(nd)[g].len() ==> out@[g].files@[m] == media_file(
                                entries@,
                                lookup@,
                                (#[trigger] multi(nd)[g][m]).6 as int,
                            )
                        &&& out@[g].reclaimable_bytes == reclaimable(out@[g].files@)
                    } by {
                        if g < before.len() {
                            assert(out@[g] == before[g]);
                            assert(multi(nd)[g] == multi(done)[g]);
                        }
                    }
                    done = nd;
                }
            }
            cur = Vec::new();
            cur.push(key);
            start = i;
            proof {
                assert(cur@ == sorted@.subrange(start as int, i + 1));
                if i == 0 {
                    assert(stretches(sorted@.take(1).drop_last(), tolerance) == Seq::<Seq<Key>>::empty());
                }
            }
        }
        i = i + 1;
    }
    proof {
        assert(sorted@.take(n as int) == sorted@);
    }
    if n > 0 {
        let ghost before = out@;
        if cur.len() > 1 {
            proof {
                assert forall|k: int| 0 <= k < cur@.len() implies (#[trigger] cur@[k]).6 < entries@.len()
                    && lookup@.contains_key(entries@[cur@[k].6 as int].path@) by {
                    assert(cur@[k] == sorted@[start + k]);
                }
                assert forall|a: int, b: int| 0 <= a < cur@.len() && 0 <= b < cur@.len() && a != b implies (
                #[trigger] cur@[a]).6 != (#[trigger] cur@[b]).6 by {
                    assert(cur@[a] == sorted@[start + a]);
                    assert(cur@[b] == sorted@[start + b]);
                }
            }
            let group = media_group(entries, lookup, &cur);
            out.push(group);
        }
        proof {
            let nd = done.push(cur@);
            assert(nd.drop_last() == done);
            assert forall|g: int| 0 <= g < out@.len() implies {
                &&& (#[trigger] out@[g]).files@.len() == multi(nd)[g].len()
                &&& forall|m: int|
                    0 <= m < multi(nd)[g].len() ==> out@[g].files@[m] == media_file(
                        entries@,
                        lookup@,
                        (#[trigger] multi(nd)[g][m]).6 as int,
                    )
                &&& out@[g].reclaimable_bytes == reclaimable(out@[g].files@)
            } by {
                if g < before.len() {
                    assert(out@[g] == before[g]);
                    assert(multi(nd)[g] == multi(done)[g]);
                }
            }
        }
    }
    out
}

proof fn lemma_candidate_keys(
    entries: Seq<FileEntry>,
    lookup: Map<Seq<char>, MediaInfo>,
    exclude: Set<Seq<char>>,
    kind: MediaKind,
)
    requires
        entries.len() <= usize::MAX,
    ensures
        keys_probed(candidate_keys(entries, lookup, exclude, kind), entries, lookup),
        forall|k: int|
            0 <= k < candidate_keys(entries, lookup, exclude, kind).len() ==> {
                let key = #[trigger] candidate_keys(entries, lookup, exclude, kind)[k];
                &&& !exclude.contains(entries[key.6 as int].path@)
                &&& lookup[entries[key.6 as int].path@].kind == kind
                &&& key.0 == lookup[entries[key.6 as int].path@].duration_micros
            },
        forall|a: int, b: int|
            0 <= a < b < candidate_keys(entries, lookup, exclude, kind).len() ==> (#[trigger] candidate_keys(
                entries,
                lookup,
                exclude,
                kind,
            )[a]).6 < (#[trigger] candidate_keys(entries, lookup, exclude, kind)[b]).6,
    decreases entries.len(),
{
    if entries.len() > 0 {
        let rest = entries.drop_last();
        lemma_candidate_keys(rest, lookup, exclude, kind);
        let c = candidate_keys(entries, lookup, exclude, kind);
        let cr = candidate_keys(rest, lookup, exclude, kind);
        assert forall|k: int| 0 <= k < cr.len() implies (#[trigger] cr[k]).6 < entries.len() && entries[cr[k].6 as int]
            == rest[cr[k].6 as int] by {}
        let path = entries.last().path@;
        if !exclude.contains(path) && lookup.contains_key(path) && lookup[path].kind == kind {
            assert(c == cr.push((lookup[path].duration_micros, 0, 0, 0, 0, 0, (entries.len() - 1) as usize)));
            assert forall|k: int| 0 <= k < c.len() implies (#[trigger] c[k]).6 < entries.len() && lookup.contains_key(
                entries[c[k].6 as int].path@,
            ) && !exclude.contains(entries[c[k].6 as int].path@) && lookup[entries[c[k].6 as int].path@].kind == kind
                && c[k].0 == lookup[entries[c[k].6 as int].path@].duration_micros by {
                if k < cr.len() {
                    assert(c[k] == cr[k]);
                } else {
                    assert(c[k].6 == entries.len() - 1);
                }
            }
            assert forall|a: int, b: int| 0 <= a < b < c.len() implies (#[trigger] c[a]).6 < (#[trigger] c[b]).6 by {
                if b < cr.len() {
                    assert(c[a] == cr[a] && c[b] == cr[b]);
                } else {
                    assert(c[a] == cr[a]);
                    assert(cr[a].6 < rest.len());
                }
            }
        } else {
            assert(c == cr);
            assert forall|k: int| 0 <= k < c.len() implies (#[trigger] c[k]).6 < entries.len() && lookup.contains_key(
                entries[c[k].6 as int].path@,
            ) && !exclude.contains(entries[c[k].6 as int].path@) && lookup[entries[c[k].6 as int].path@].kind == kind
                && c[k].0 == lookup[entries[c[k].6 as int].path@].duration_micros by {
                assert(c[k] == cr[k]);
            }
        }
    }
}

proof fn lemma_stretch_members(s: Seq<Key>, tolerance: u64)
    ensures
        forall|r: int, m: int|
            0 <= r < stretches(s, tolerance).len() && 0 <= m < stretches(s, tolerance)[r].len() ==> s.contains(
                #[trigger] stretches(s, tolerance)[r][m],
            ),
        forall|r: int| 0 <= r < stretches(s, tolerance).len() ==> (#[trigger] stretches(s, tolerance)[r]).len() > 0,
    decreases s.len(),
{
    if s.len() > 0 {
        let rest = s.drop_last();
        lemma_stretch_members(rest, tolerance);
        lemma_stretches_nonempty(rest, tolerance);
        let prev = stretches(rest, tolerance);
        let st = stretches(s, tolerance);
        assert forall|r: int, m: int| 0 <= r < st.len() && 0 <= m < st[r].len() implies s.contains(
            #[trigger] st[r][m],
        ) by {
            if r < prev.len() && m < prev[r].len() {
                assert(rest.contains(prev[r][m]));
                let i = choose|i: int| 0 <= i < rest.len() && rest[i] == prev[r][m];
                assert(s[i] == st[r][m]);
            } else {
                assert(st[r][m] == s.last());
                assert(s[s.len() - 1] == s.last());
            }
        }
    }
}

proof fn lemma_multi_members(runs: Seq<Seq<Key>>)
    ensures
        forall|g: int| 0 <= g < multi(runs).len() ==> runs.contains(#[trigger] multi(runs)[g]) && multi(runs)[g].len() > 1,
    decreases runs.len(),
{
    if runs.len() > 0 {
        lemma_multi_members(runs.drop_last());
        assert forall|g: int| 0 <= g < multi(runs).len() implies runs.contains(#[trigger] multi(runs)[g]) && multi(runs)[g].len() > 1 by {
            let rest = multi(runs.drop_last());
            if g < rest.len() {
                assert(multi(runs)[g] == rest[g]);
                let i = choose|i: int| 0 <= i < runs.drop_last().len() && runs.drop_last()[i] == rest[g];
                assert(runs[i] == rest[g]);
            } else {
                assert(multi(runs)[g] == runs.last());
                assert(runs[runs.len() - 1] == runs.last());
            }
        }
    }
}

/// A likely-duplicate group holds at least two files, all probed as media of
/// one kind, none of them excluded.
pub open spec fn likely_group(group: DuplicateGroup, exclude: Set<Seq<char>>) -> bool {
    &&& group.files@.len() > 1
    &&& forall|m: int|
        0 <= m < group.files@.len() ==> {
            let f = #[trigger] group.files@[m];
            &&& f.media is Some
            &&& f.media.unwrap().kind == group.files@[0].media.unwrap().kind
            &&& !exclude.contains(f.entry.path@)
        }
}

/// The files of a likely-duplicate group come in ascending order of duration,
/// each lasting at most `tolerance` microseconds longer than the one before it.
pub open spec fn chained(group: DuplicateGroup, tolerance: u64) -> bool {
    forall|m: int|
        1 <= m < group.files@.len() ==> group.files@[m - 1].media.unwrap().duration_micros
            <= (#[trigger] group.files@[m]).media.unwrap().duration_micros
            <= group.files@[m - 1].media.unwrap().duration_micros + tolerance
}

proof fn lemma_run_chain(s: Seq<Key>, tolerance: u64, r: int)
    requires
        ascending(s),
        0 <= r < stretches(s, tolerance).len(),
    ensures
        forall|m: int| 1 <= m < stretches(s, tolerance)[r].len() ==> stretches(s, tolerance)[r][m - 1].0
            <= (#[trigger] stretches(s, tolerance)[r][m]).0 <= stretches(s, tolerance)[r][m - 1].0 + tolerance,
{
    assert forall|i: int, j: int| 0 <= i < j < s.len() implies (#[trigger] s[i]).0 <= (#[trigger] s[j]).0 by {
        assert(key_le(s[i], s[j]));
    }
    lemma_stretch_steps(s, tolerance);
}

proof fn lemma_runs_of_kind(
    entries: Seq<FileEntry>,
    lookup: Map<Seq<char>, MediaInfo>,
    exclude: Set<Seq<char>>,
    kind: MediaKind,
    s: Seq<Key>,
    tolerance: u64,
    run: Seq<Key>,
)
    requires
        entries.len() <= usize::MAX,
        arrangement_of(s, candidate_keys(entries, lookup, exclude, kind)),
        multi(stretches(s, tolerance)).contains(run),
    ensures
        run.len() > 1,
        forall|m: int|
            0 <= m < run.len() ==> {
                let key = #[trigger] run[m];
                &&& key.6 < entries.len()
                &&& lookup.contains_key(entries[key.6 as int].path@)
                &&& !exclude.contains(entries[key.6 as int].path@)
                &&& lookup[entries[key.6 as int].path@].kind == kind
                &&& key.0 == lookup[entries[key.6 as int].path@].duration_micros
            },
        forall|m: int| 1 <= m < run.len() ==> run[m - 1].0 <= (#[trigger] run[m]).0 <= run[m - 1].0 + tolerance,
{
    broadcast use vstd::seq_lib::group_to_multiset_ensures;
    let c = candidate_keys(entries, lookup, exclude, kind);
    lemma_candidate_keys(entries, lookup, exclude, kind);
    lemma_multi_members(stretches(s, tolerance));
    lemma_stretch_members(s, tolerance);
    let g = choose|g: int| 0 <= g < multi(stretches(s, tolerance)).len() && multi(stretches(s, tolerance))[g] == run;
    assert(stretches(s, tolerance).contains(run));
    let r = choose|r: int| 0 <= r < stretches(s, tolerance).len() && stretches(s, tolerance)[r] == run;
    lemma_run_chain(s, tolerance, r);
    assert forall|m: int| 0 <= m < run.len() implies {
        let key = #[trigger] run[m];
        &&& key.6 < entries.len()
        &&& lookup.contains_key(entries[key.6 as int].path@)
        &&& !exclude.contains(entries[key.6 as int].path@)
        &&& lookup[entries[key.6 as int].path@].kind == kind
        &&& key.0 == lookup[entries[key.6 as int].path@].duration_micros
    } by {
        assert(stretches(s, tolerance)[r][m] == run[m]);
        assert(s.contains(stretches(s, tolerance)[r][m]));
        assert(s.to_multiset().count(run[m]) > 0);
        assert(c.to_multiset().count(run[m]) > 0);
        assert(c.contains(run[m]));
        let k = choose|k: int| 0 <= k < c.len() && c[k] == run[m];
        assert(c[k] == run[m]);
    }
}

/// Likely-duplicate groups built from the ascending arrangements of the
/// video and audio candidates hold at least two files each, never a file
/// whose path is excluded, and never video and audio files together; within a
/// group, durations ascend and each exceeds the one before it by at most the
/// tolerance.
pub proof fn lemma_likely_groups_sound(
    entries: Seq<FileEntry>,
    lookup: Map<Seq<char>, MediaInfo>,
    exclude: Set<Seq<char>>,
    tolerance: u64,
    video: Seq<Key>,
    audio: Seq<Key>,
    groups: Seq<DuplicateGroup>,
)
    requires
        entries.len() <= usize::MAX,
        arrangement_of(video, candidate_keys(entries, lookup, exclude, MediaKind::Video)),
        arrangement_of(audio, candidate_keys(entries, lookup, exclude, MediaKind::Audio)),
        groups_of_runs(groups, multi(stretches(video, tolerance)) + multi(stretches(audio, tolerance)), entries, lookup),
    ensures
        forall|g: int| 0 <= g < groups.len() ==> likely_group(#[trigger] groups[g], exclude),
        forall|g: int| 0 <= g < groups.len() ==> chained(#[trigger] groups[g], tolerance),
{
    assert forall|g: int| 0 <= g < groups.len() implies likely_group(#[trigger] groups[g], exclude) by {
        lemma_likely_group_at(entries, lookup, exclude, tolerance, video, audio, groups, g);
    }
    assert forall|g: int| 0 <= g < groups.len() implies chained(#[trigger] groups[g], tolerance) by {
        lemma_chained_group_at(entries, lookup, exclude, tolerance, video, audio, groups, g);
    }
}

/// The run of group `g`, with the facts about its keys.
#[verifier::spinoff_prover]
proof fn lemma_run_of_group(
    entries: Seq<FileEntry>,
    lookup: Map<Seq<char>, MediaInfo>,
    exclude: Set<Seq<char>>,
    tolerance: u64,
    video: Seq<Key>,
    audio: Seq<Key>,
    g: int,
) -> (kind: MediaKind)
    requires
        entries.len() <= usize::MAX,
        arrangement_of(video, candidate_keys(entries, lookup, exclude, MediaKind::Video)),
        arrangement_of(audio, candidate_keys(entries, lookup, exclude, MediaKind::Audio)),
        0 <= g < (multi(stretches(video, tolerance)) + multi(stretches(audio, tolerance))).len(),
    ensures
        ({
            let run = (multi(stretches(video, tolerance)) + multi(stretches(audio, tolerance)))[g];
            &&& run.len() > 1
            &&& forall|m: int|
                0 <= m < run.len() ==> {
                    let key = #[trigger] run[m];
                    &&& key.6 < entries.len()
                    &&& lookup.contains_key(entries[key.6 as int].path@)
                    &&& !exclude.contains(entries[key.6 as int].path@)
                    &&& lookup[entries[key.6 as int].path@].kind == kind
                    &&& key.0 == lookup[entries[key.6 as int].path@].duration_micros
                }
            &&& forall|m: int| 1 <= m < run.len() ==> run[m - 1].0 <= (#[trigger] run[m]).0 <= run[m - 1].0 + tolerance
        }),
{
    let vr = multi(stretches(video, tolerance));
    let ar = multi(stretches(audio, tolerance));
    let runs = vr + ar;
    if g < vr.len() {
        assert(runs[g] == vr[g]);
        assert(vr.contains(runs[g]));
        lemma_runs_of_kind(entries, lookup, exclude, MediaKind::Video, video, tolerance, runs[g]);
        MediaKind::Video
    } else {
        assert(runs[g] == ar[g - vr.len()]);
        assert(ar.contains(runs[g]));
        lemma_runs_of_kind(entries, lookup, exclude, MediaKind::Audio, audio, tolerance, runs[g]);
        MediaKind::Audio
    }
}

#[verifier::spinoff_prover]
proof fn lemma_likely_group_at(
    entries: Seq<FileEntry>,
    lookup: Map<Seq<char>, MediaInfo>,
    exclude: Set<Seq<char>>,
    tolerance: u64,
    video: Seq<Key>,
    audio: Seq<Key>,
    groups: Seq<DuplicateGroup>,
    g: int,
)
    requires
        entries.len() <= usize::MAX,
        arrangement_of(video, candidate_keys(entries, lookup, exclude, MediaKind::Video)),
        arrangement_of(audio, candidate_keys(entries, lookup, exclude, MediaKind::Audio)),
        groups_of_runs(groups, multi(stretches(video, tolerance)) + multi(stretches(audio, tolerance)), entries, lookup),
        0 <= g < groups.len(),
    ensures
        likely_group(groups[g], exclude),
{
    let runs = multi(stretches(video, tolerance)) + multi(stretches(audio, tolerance));
    let kind = lemma_run_of_group(entries, lookup, exclude, tolerance, video, audio, g);
    let files = groups[g].files@;
    assert(files.len() == runs[g].len());
    assert forall|m: int| 0 <= m < files.len() implies {
        let f = #[trigger] files[m];
        &&& f.media is Some
        &&& f.media.unwrap().kind == files[0].media.unwrap().kind
        &&& !exclude.contains(f.entry.path@)
    } by {
        assert(files[m] == media_file(entries, lookup, runs[g][m].6 as int));
        assert(files[0] == media_file(entries, lookup, runs[g][0].6 as int));
        let k0 = runs[g][0];
        let km = runs[g][m];
        assert(lookup[entries[km.6 as int].path@].kind == kind);
        assert(lookup[entries[k0.6 as int].path@].kind == kind);
    }
}

#[verifier::spinoff_prover]
proof fn lemma_chained_group_at(
    entries: Seq<FileEntry>,
    lookup: Map<Seq<char>, MediaInfo>,
    exclude: Set<Seq<char>>,
    tolerance: u64,
    video: Seq<Key>,
    audio: Seq<Key>,
    groups: Seq<DuplicateGroup>,
    g: int,
)
    requires
        entries.len() <= usize::MAX,
        arrangement_of(video, candidate_keys(entries, lookup, exclude, MediaKind::Video)),
        arrangement_of(audio, candidate_keys(entries, lookup, exclude, MediaKind::Audio)),
        groups_of_runs(groups, multi(stretches(video, tolerance)) + multi(stretches(audio, tolerance)), entries, lookup),
        0 <= g < groups.len(),
    ensures
        chained(groups[g], tolerance),
{
    let runs = multi(stretches(video, tolerance)) + multi(stretches(audio, tolerance));
    let _kind = lemma_run_of_group(entries, lookup, exclude, tolerance, video, audio, g);
    let files = groups[g].files@;
    assert forall|m: int| 1 <= m < files.len() implies files[m - 1].media.unwrap().duration_micros
        <= (#[trigger] files[m]).media.unwrap().duration_micros
        <= files[m - 1].media.unwrap().duration_micros + tolerance by {
        assert(files[m] == media_file(entries, lookup, runs[g][m].6 as int));
        assert(files[m - 1] == media_file(entries, lookup, runs[g][m - 1].6 as int));
        assert(runs[g][m - 1].0 <= runs[g][m].0 <= runs[g][m - 1].0 + tolerance);
    }
}

/// Entry `i` counts as a candidate of `kind`: it is not excluded and was
/// probed as media of that kind.
pub open spec fn is_candidate(
    entries: Seq<FileEntry>,
    lookup: Map<Seq<char>, MediaInfo>,
    exclude: Set<Seq<char>>,
    kind: MediaKind,
    i: int,
) -> bool {
    &&& 0 <= i < entries.len()
    &&& !exclude.contains(entries[i].path@)
    &&& lookup.contains_key(entries[i].path@)
    &&& lookup[entries[i].path@].kind == kind
}

proof fn lemma_candidate_member(
    entries: Seq<FileEntry>,
    lookup: Map<Seq<char>, MediaInfo>,
    exclude: Set<Seq<char>>,
    kind: MediaKind,
    i: int,
)
    requires
        entries.len() <= usize::MAX,
        is_candidate(entries, lookup, exclude, kind, i),
    ensures
        candidate_keys(entries, lookup, exclude, kind).contains(
            (lookup[entries[i].path@].duration_micros, 0u64, 0u64, 0u64, 0u64, 0u64, i as usize),
        ),
    decreases entries.len(),
{
    let rest = entries.drop_last();
    let key = (lookup[entries[i].path@].duration_micros, 0u64, 0u64, 0u64, 0u64, 0u64, i as usize);
    let cr = candidate_keys(rest, lookup, exclude, kind);
    if i < entries.len() - 1 {
        assert(rest[i] == entries[i]);
        lemma_candidate_member(rest, lookup, exclude, kind, i);
        let k = choose|k: int| 0 <= k < cr.len() && cr[k] == key;
        let c = candidate_keys(entries, lookup, exclude, kind);
        let path = entries.last().path@;
        if !exclude.contains(path) && lookup.contains_key(path) && lookup[path].kind == kind {
            assert(c[k] == key);
        } else {
            assert(c[k] == key);
        }
    } else {
        let c = candidate_keys(entries, lookup, exclude, kind);
        assert(c[c.len() - 1] == key);
    }
}

/// Key `p` of `s` lies within `tolerance` of a key next to it.
pub open spec fn has_close_neighbour(s: Seq<Key>, p: int, tolerance: u64) -> bool {
    ||| p >= 1 && s[p].0 - s[p - 1].0 <= tolerance
    ||| p + 1 < s.len() && s[p + 1].0 - s[p].0 <= tolerance
}

proof fn lemma_close_keys_share_a_stretch(s: Seq<Key>, tolerance: u64, p: int)
    requires
        forall|i: int, j: int| 0 <= i < j < s.len() ==> (#[trigger] s[i]).0 <= (#[trigger] s[j]).0,
        0 <= p < s.len(),
        has_close_neighbour(s, p, tolerance),
    ensures
        exists|r: int|
            0 <= r < stretches(s, tolerance).len() && (#[trigger] stretches(s, tolerance)[r]).len() >= 2
                && stretches(s, tolerance)[r].contains(s[p]),
    decreases s.len(),
{
    let n = s.len();
    let rest = s.drop_last();
    assert forall|i: int, j: int| 0 <= i < j < rest.len() implies (#[trigger] rest[i]).0 <= (#[trigger] rest[j]).0 by {
        assert(rest[i] == s[i] && rest[j] == s[j]);
    }
    lemma_stretch_steps(rest, tolerance);
    lemma_stretch_members(rest, tolerance);
    let prev = stretches(rest, tolerance);
    let st = stretches(s, tolerance);
    let merge = n >= 2 && s.last().0 - s[n - 2].0 <= tolerance;
    if merge {
        let l = prev.len() - 1;
        assert(st == prev.update(l, prev.last().push(s.last())));
        assert(prev[l] == prev.last());
        assert(prev.last().len() > 0);
        if p == n - 1 || (p == n - 2 && !has_close_neighbour(rest, p, tolerance)) {
            assert(st[l] == prev.last().push(s.last()));
            if p == n - 1 {
                assert(st[l][st[l].len() - 1] == s[p]);
            } else {
                assert(st[l][st[l].len() - 2] == prev.last().last());
            }
            assert(st[l].len() >= 2 && st[l].contains(s[p]));
        } else {
            assert(rest[p] == s[p]);
            if p >= 1 {
                assert(rest[p - 1] == s[p - 1]);
            }
            if p + 1 < rest.len() {
                assert(rest[p + 1] == s[p + 1]);
            }
            assert(has_close_neighbour(rest, p, tolerance));
            lemma_close_keys_share_a_stretch(rest, tolerance, p);
            let r = choose|r: int| 0 <= r < prev.len() && (#[trigger] prev[r]).len() >= 2 && prev[r].contains(rest[p]);
            let k = choose|k: int| 0 <= k < prev[r].len() && prev[r][k] == rest[p];
            if r == l {
                assert(st[r] == prev[r].push(s.last()));
                assert(st[r][k] == s[p]);
            } else {
                assert(st[r] == prev[r]);
            }
            assert(st[r].len() >= 2 && st[r].contains(s[p]));
        }
    } else {
        assert(p < n - 1);
        assert(rest[p] == s[p]);
        if p >= 1 {
            assert(rest[p - 1] == s[p - 1]);
        }
        if p + 1 < rest.len() {
            assert(rest[p + 1] == s[p + 1]);
        }
        assert(has_close_neighbour(rest, p, tolerance));
        lemma_close_keys_share_a_stretch(rest, tolerance, p);
        let r = choose|r: int| 0 <= r < prev.len() && (#[trigger] prev[r]).len() >= 2 && prev[r].contains(rest[p]);
        assert(st == prev.push(seq![s.last()]));
        assert(st[r] == prev[r]);
        assert(st[r].len() >= 2 && st[r].contains(s[p]));
    }
}

proof fn lemma_multi_keeps(runs: Seq<Seq<Key>>, r: int)
    requires
        0 <= r < runs.len(),
        runs[r].len() > 1,
    ensures
        multi(runs).contains(runs[r]),
    decreases runs.len(),
{
    let rest = multi(runs.drop_last());
    if r < runs.len() - 1 {
        assert(runs.drop_last()[r] == runs[r]);
        lemma_multi_keeps(runs.drop_last(), r);
        let g = choose|g: int| 0 <= g < rest.len() && rest[g] == runs[r];
        if runs.last().len() > 1 {
            assert(multi(runs)[g] == runs[r]);
        } else {
            assert(multi(runs)[g] == runs[r]);
        }
    } else {
        assert(multi(runs)[multi(runs).len() - 1] == runs[r]);
    }
}

proof fn lemma_stretches_apart(s: Seq<Key>, tolerance: u64)
    requires
        forall|i: int, j: int| 0 <= i < j < s.len() ==> (#[trigger] s[i]).0 <= (#[trigger] s[j]).0,
    ensures
        forall|r1: int, r2: int, a: int, b: int|
            0 <= r1 < r2 < stretches(s, tolerance).len() && 0 <= a < stretches(s, tolerance)[r1].len() && 0 <= b
                < stretches(s, tolerance)[r2].len() ==> (#[trigger] stretches(s, tolerance)[r2][b]).0
                > (#[trigger] stretches(s, tolerance)[r1][a]).0 + tolerance,
    decreases s.len(),
{
    if s.len() > 0 {
        let n = s.len();
        let rest = s.drop_last();
        assert forall|i: int, j: int| 0 <= i < j < rest.len() implies (#[trigger] rest[i]).0 <= (#[trigger] rest[j]).0 by {
            assert(rest[i] == s[i] && rest[j] == s[j]);
        }
        lemma_stretches_apart(rest, tolerance);
        lemma_stretch_members(rest, tolerance);
        lemma_stretch_steps(rest, tolerance);
        let prev = stretches(rest, tolerance);
        let st = stretches(s, tolerance);
        let x = s.last();
        assert forall|r: int, a: int| 0 <= r < prev.len() && 0 <= a < prev[r].len() implies (#[trigger] prev[r][a]).0
            <= x.0 by {
            assert(rest.contains(prev[r][a]));
            let i = choose|i: int| 0 <= i < rest.len() && rest[i] == prev[r][a];
            assert(s[i] == rest[i]);
            assert(s[n - 1] == x);
        }
        if n >= 2 && x.0 - s[n - 2].0 <= tolerance {
            let l = prev.len() - 1;
            assert(st == prev.update(l, prev.last().push(x)));
            assert(prev[l] == prev.last());
            assert forall|r1: int, r2: int, a: int, b: int|
                0 <= r1 < r2 < st.len() && 0 <= a < st[r1].len() && 0 <= b < st[r2].len() implies (#[trigger] st[r2][b]).0
                > (#[trigger] st[r1][a]).0 + tolerance by {
                assert(st[r1] == prev[r1]);
                if r2 < l {
                    assert(st[r2] == prev[r2]);
                } else if b < prev[l].len() {
                    assert(st[r2][b] == prev[l][b]);
                } else {
                    assert(st[r2][b] == x);
                    assert(prev[l].len() > 0);
                    assert(prev[l][0].0 > prev[r1][a].0 + tolerance);
                    assert(prev[l][0].0 <= x.0);
                }
            }
        } else {
            assert(st == prev.push(seq![x]));
            if n >= 2 {
                assert(rest.last() == s[n - 2]);
            }
            assert forall|r1: int, r2: int, a: int, b: int|
                0 <= r1 < r2 < st.len() && 0 <= a < st[r1].len() && 0 <= b < st[r2].len() implies (#[trigger] st[r2][b]).0
                > (#[trigger] st[r1][a]).0 + tolerance by {
                assert(st[r1] == prev[r1]);
                if r2 < prev.len() {
                    assert(st[r2] == prev[r2]);
                } else {
                    assert(st[r2][b] == x);
                    assert(rest.contains(prev[r1][a]));
                    let i = choose|i: int| 0 <= i < rest.len() && rest[i] == prev[r1][a];
                    assert(rest[i].0 <= rest[rest.len() - 1].0);
                }
            }
        }
    }
}

proof fn lemma_multi_order(runs: Seq<Seq<Key>>, g: int, h: int)
    requires
        0 <= g < h < multi(runs).len(),
    ensures
        exists|r1: int, r2: int|
            0 <= r1 < r2 < runs.len() && multi(runs)[g] == #[trigger] runs[r1] && multi(runs)[h] == #[trigger] runs[r2],
    decreases runs.len(),
{
    let rest = runs.drop_last();
    let mr = multi(rest);
    if h < mr.len() {
        assert(multi(runs)[g] == mr[g] && multi(runs)[h] == mr[h]);
        lemma_multi_order(rest, g, h);
        let (r1, r2) = choose|r1: int, r2: int| 0 <= r1 < r2 < rest.len() && mr[g] == #[trigger] rest[r1] && mr[h] == #[trigger] rest[r2];
        assert(runs[r1] == rest[r1] && runs[r2] == rest[r2]);
    } else {
        assert(multi(runs)[h] == runs.last());
        assert(multi(runs)[g] == mr[g]);
        lemma_multi_members(rest);
        assert(rest.contains(mr[g]));
        let r1 = choose|r1: int| 0 <= r1 < rest.len() && rest[r1] == mr[g];
        assert(runs[r1] == rest[r1]);
        assert(runs[runs.len() - 1] == runs.last());
    }
}

/// Likely-duplicate groups of one kind are far apart: every duration in a
/// later group exceeds every duration in an earlier one by more than the
/// tolerance, so no two of them could have been one group.
pub proof fn lemma_likely_groups_apart(
    entries: Seq<FileEntry>,
    lookup: Map<Seq<char>, MediaInfo>,
    exclude: Set<Seq<char>>,
    tolerance: u64,
    video: Seq<Key>,
    audio: Seq<Key>,
    groups: Seq<DuplicateGroup>,
    g: int,
    h: int,
    m: int,
    n: int,
)
    requires
        entries.len() <= usize::MAX,
        arrangement_of(video, candidate_keys(entries, lookup, exclude, MediaKind::Video)),
        arrangement_of(audio, candidate_keys(entries, lookup, exclude, MediaKind::Audio)),
        groups_of_runs(groups, multi(stretches(video, tolerance)) + multi(stretches(audio, tolerance)), entries, lookup),
        0 <= g < h < groups.len(),
        groups[g].files@[0].media.unwrap().kind == groups[h].files@[0].media.unwrap().kind,
        0 <= m < groups[g].files@.len(),
        0 <= n < groups[h].files@.len(),
    ensures
        groups[h].files@[n].media.unwrap().duration_micros > groups[g].files@[m].media.unwrap().duration_micros
            + tolerance,
{
    let vr = multi(stretches(video, tolerance));
    let ar = multi(stretches(audio, tolerance));
    let runs = vr + ar;
    lemma_multi_members(stretches(video, tolerance));
    lemma_multi_members(stretches(audio, tolerance));
    let kind_g = if g < vr.len() { MediaKind::Video } else { MediaKind::Audio };
    let kind_h = if h < vr.len() { MediaKind::Video } else { MediaKind::Audio };
    if g < vr.len() {
        assert(runs[g] == vr[g]);
        lemma_runs_of_kind(entries, lookup, exclude, MediaKind::Video, video, tolerance, runs[g]);
    } else {
        assert(runs[g] == ar[g - vr.len()]);
        lemma_runs_of_kind(entries, lookup, exclude, MediaKind::Audio, audio, tolerance, runs[g]);
    }
    if h < vr.len() {
        assert(runs[h] == vr[h]);
        lemma_runs_of_kind(entries, lookup, exclude, MediaKind::Video, video, tolerance, runs[h]);
    } else {
        assert(runs[h] == ar[h - vr.len()]);
        lemma_runs_of_kind(entries, lookup, exclude, MediaKind::Audio, audio, tolerance, runs[h]);
    }
    assert(groups[g].files@[0] == media_file(entries, lookup, runs[g][0].6 as int));
    assert(groups[h].files@[0] == media_file(entries, lookup, runs[h][0].6 as int));
    assert(kind_g == kind_h);
    assert(groups[g].files@[m] == media_file(entries, lookup, runs[g][m].6 as int));
    assert(groups[h].files@[n] == media_file(entries, lookup, runs[h][n].6 as int));
    let s = if kind_g == MediaKind::Video { video } else { audio };
    let (gg, hh) = if kind_g == MediaKind::Video { (g, h) } else { (g - vr.len(), h - vr.len()) };
    let ms = multi(stretches(s, tolerance));
    assert(ms[gg] == runs[g] && ms[hh] == runs[h]);
    lemma_multi_order(stretches(s, tolerance), gg, hh);
    let (r1, r2) = choose|r1: int, r2: int|
        0 <= r1 < r2 < stretches(s, tolerance).len() && ms[gg] == #[trigger] stretches(s, tolerance)[r1] && ms[hh]
            == #[trigger] stretches(s, tolerance)[r2];
    assert forall|i: int, j: int| 0 <= i < j < s.len() implies (#[trigger] s[i]).0 <= (#[trigger] s[j]).0 by {
        assert(key_le(s[i], s[j]));
    }
    lemma_stretches_apart(s, tolerance);
    assert(stretches(s, tolerance)[r2][n].0 > stretches(s, tolerance)[r1][m].0 + tolerance);
}

/// No near-duplicate is missed: a media file whose duration lies within the
/// tolerance of another file of the same kind, neither of them excluded, is in
/// one of the likely-duplicate groups.
pub proof fn lemma_likely_groups_complete(
    entries: Seq<FileEntry>,
    lookup: Map<Seq<char>, MediaInfo>,
    exclude: Set<Seq<char>>,
    tolerance: u64,
    video: Seq<Key>,
    audio: Seq<Key>,
    groups: Seq<DuplicateGroup>,
    kind: MediaKind,
    i: int,
    j: int,
)
    requires
        entries.len() <= usize::MAX,
        arrangement_of(video, candidate_keys(entries, lookup, exclude, MediaKind::Video)),
        arrangement_of(audio, candidate_keys(entries, lookup, exclude, MediaKind::Audio)),
        groups_of_runs(groups, multi(stretches(video, tolerance)) + multi(stretches(audio, tolerance)), entries, lookup),
        i != j,
        is_candidate(entries, lookup, exclude, kind, i),
        is_candidate(entries, lookup, exclude, kind, j),
        lookup[entries[i].path@].duration_micros <= lookup[entries[j].path@].duration_micros + tolerance,
        lookup[entries[j].path@].duration_micros <= lookup[entries[i].path@].duration_micros + tolerance,
    ensures
        exists|g: int, m: int|
            0 <= g < groups.len() && 0 <= m < groups[g].files@.len() && #[trigger] groups[g].files@[m] == media_file(
                entries,
                lookup,
                i,
            ),
{
    broadcast use vstd::seq_lib::group_to_multiset_ensures;
    let s = if kind == MediaKind::Video { video } else { audio };
    let c = candidate_keys(entries, lookup, exclude, kind);
    assert(arrangement_of(s, c));
    let ki = (lookup[entries[i].path@].duration_micros, 0u64, 0u64, 0u64, 0u64, 0u64, i as usize);
    let kj = (lookup[entries[j].path@].duration_micros, 0u64, 0u64, 0u64, 0u64, 0u64, j as usize);
    lemma_candidate_member(entries, lookup, exclude, kind, i);
    lemma_candidate_member(entries, lookup, exclude, kind, j);
    assert(c.to_multiset().count(ki) > 0);
    assert(s.to_multiset().count(ki) > 0);
    assert(c.to_multiset().count(kj) > 0);
    assert(s.to_multiset().count(kj) > 0);
    let p = choose|p: int| 0 <= p < s.len() && s[p] == ki;
    let q = choose|q: int| 0 <= q < s.len() && s[q] == kj;
    assert(p != q);
    assert forall|a: int, b: int| 0 <= a < b < s.len() implies (#[trigger] s[a]).0 <= (#[trigger] s[b]).0 by {
        assert(key_le(s[a], s[b]));
    }
    if p < q {
        assert(s[p].0 <= s[p + 1].0);
        if p + 1 < q {
            assert(s[p + 1].0 <= s[q].0);
        }
    } else {
        assert(s[p - 1].0 <= s[p].0);
        if q < p - 1 {
            assert(s[q].0 <= s[p - 1].0);
        }
    }
    assert(has_close_neighbour(s, p, tolerance));
    lemma_close_keys_share_a_stretch(s, tolerance, p);
    let st = stretches(s, tolerance);
    let r = choose|r: int| 0 <= r < st.len() && (#[trigger] st[r]).len() >= 2 && st[r].contains(s[p]);
    lemma_multi_keeps(st, r);
    let ms = multi(st);
    let g0 = choose|g0: int| 0 <= g0 < ms.len() && ms[g0] == st[r];
    let vr = multi(stretches(video, tolerance));
    let runs = vr + multi(stretches(audio, tolerance));
    let g = if kind == MediaKind::Video { g0 } else { vr.len() + g0 };
    assert(runs[g] == st[r]);
    let m = choose|m: int| 0 <= m < st[r].len() && st[r][m] == ki;
    assert(runs[g][m] == ki);
    assert(groups[g].files@[m] == media_file(entries, lookup, i));
}

/// The likely-duplicate groups are the clusters of the files linked by close
/// durations: joining two candidate files (probed, not excluded) of one kind
/// whose durations differ by at most the tolerance, each group is connected
/// (its files come in duration order, each within the tolerance of the one
/// before, all of one kind and none excluded), no link joins files of two
/// groups (groups of one kind lie more than the tolerance apart, and groups of
/// two kinds never link), and every file with a link is in a group.
#[verifier::rlimit(100)]
pub proof fn lemma_likely_groups_are_clusters(
    entries: Seq<FileEntry>,
    lookup: Map<Seq<char>, MediaInfo>,
    exclude: Set<Seq<char>>,
    tolerance: u64,
    video: Seq<Key>,
    audio: Seq<Key>,
    groups: Seq<DuplicateGroup>,
)
    requires
        entries.len() <= usize::MAX,
        arrangement_of(video, candidate_keys(entries, lookup, exclude, MediaKind::Video)),
        arrangement_of(audio, candidate_keys(entries, lookup, exclude, MediaKind::Audio)),
        groups_of_runs(groups, multi(stretches(video, tolerance)) + multi(stretches(audio, tolerance)), entries, lookup),
    ensures
        forall|g: int| 0 <= g < groups.len() ==> likely_group(#[trigger] groups[g], exclude),
        forall|g: int| 0 <= g < groups.len() ==> chained(#[trigger] groups[g], tolerance),
        forall|g: int, h: int, m: int, n: int|
            0 <= g < h < groups.len() && groups[g].files@[0].media.unwrap().kind == groups[h].files@[0].media.unwrap().kind
                && 0 <= m < groups[g].files@.len() && 0 <= n < groups[h].files@.len() ==> (#[trigger] groups[h].files@[n]).media.unwrap().duration_micros
                > (#[trigger] groups[g].files@[m]).media.unwrap().duration_micros + tolerance,
        forall|kind: MediaKind, i: int, j: int|
            i != j && #[trigger] is_candidate(entries, lookup, exclude, kind, i) && #[trigger] is_candidate(
                entries,
                lookup,
                exclude,
                kind,
                j,
            ) && lookup[entries[i].path@].duration_micros <= lookup[entries[j].path@].duration_micros + tolerance
                && lookup[entries[j].path@].duration_micros <= lookup[entries[i].path@].duration_micros + tolerance
                ==> exists|g: int, m: int|
                0 <= g < groups.len() && 0 <= m < groups[g].files@.len() && #[trigger] groups[g].files@[m]
                    == media_file(entries, lookup, i),
{
    lemma_likely_groups_sound(entries, lookup, exclude, tolerance, video, audio, groups);
    assert forall|g: int, h: int, m: int, n: int|
        0 <= g < h < groups.len() && groups[g].files@[0].media.unwrap().kind == groups[h].files@[0].media.unwrap().kind
            && 0 <= m < groups[g].files@.len() && 0 <= n < groups[h].files@.len() implies (#[trigger] groups[h].files@[n]).media.unwrap().duration_micros
            > (#[trigger] groups[g].files@[m]).media.unwrap().duration_micros + tolerance by {
        lemma_likely_groups_apart(entries, lookup, exclude, tolerance, video, audio, groups, g, h, m, n);
    }
    assert forall|kind: MediaKind, i: int, j: int|
        i != j && #[trigger] is_candidate(entries, lookup, exclude, kind, i) && #[trigger] is_candidate(
            entries,
            lookup,
            exclude,
            kind,
            j,
        ) && lookup[entries[i].path@].duration_micros <= lookup[entries[j].path@].duration_micros + tolerance
            && lookup[entries[j].path@].duration_micros <= lookup[entries[i].path@].duration_micros + tolerance
            implies exists|g: int, m: int|
            0 <= g < groups.len() && 0 <= m < groups[g].files@.len() && #[trigger] groups[g].files@[m]
                == media_file(entries, lookup, i) by {
        lemma_likely_groups_complete(entries, lookup, exclude, tolerance, video, audio, groups, kind, i, j);
    }
}

/// Clusters the probed media files whose durations fall within `tolerance`
/// microseconds of each other into likely-duplicate groups. Video and audio
/// are clustered separately (video groups first); files whose paths are in
/// `exclude` (already known to be exact duplicates) and files that were not
/// probed are left out. Within a kind, files are taken in ascending order of
/// duration (and of entry index among equal durations); a file joins the
/// cluster of the file before it when its duration exceeds that file's by at
/// most `tolerance`. Clusters of one file form no group.
pub fn cluster_by_duration(
    entries: &Vec<FileEntry>,
    media_lookup: &StringHashMap<MediaInfo>,
    tolerance_micros: u64,
    exclude: &StringHashSet,
) -> (r: Vec<DuplicateGroup>)
    requires
        entries_size(entries@) <= u64::MAX,
    ensures
        exists|video: Seq<Key>, audio: Seq<Key>|
            {
                &&& arrangement_of(video, candidate_keys(entries@, media_lookup@, exclude@, MediaKind::Video))
                &&& arrangement_of(audio, candidate_keys(entries@, media_lookup@, exclude@, MediaKind::Audio))
                &&& #[trigger] groups_of_runs(
                    r@,
                    multi(stretches(video, tolerance_micros)) + multi(stretches(audio, tolerance_micros)),
                    entries@,
                    media_lookup@,
                )
            },
        forall|g: int| 0 <= g < r@.len() ==> likely_group(#[trigger] r@[g], exclude@),
        forall|g: int| 0 <= g < r@.len() ==> chained(#[trigger] r@[g], tolerance_micros),
{
    let mut video: Vec<Key> = Vec::new();
    let mut audio: Vec<Key> = Vec::new();
    let mut i: usize = 0;
    while i < entries.len()
        invariant
            i <= entries.len(),
            video@ == candidate_keys(entries@.take(i as int), media_lookup@, exclude@, MediaKind::Video),
            audio@ == candidate_keys(entries@.take(i as int), media_lookup@, exclude@, MediaKind::Audio),
        decreases entries.len() - i,
    {
        proof {
            assert(entries@.take(i + 1).drop_last() == entries@.take(i as int));
        }
        let path = entries[i].path.as_str();
        if !exclude.contains(path) {
            match media_lookup.get(path) {
                Some(info) => {
                    match info.kind {
                        MediaKind::Video => video.push((info.duration_micros, 0, 0, 0, 0, 0, i)),
                        MediaKind::Audio => audio.push((info.duration_micros, 0, 0, 0, 0, 0, i)),
                    }
                },
                None => {},
            }
        }
        i = i + 1;
    }
    proof {
        assert(entries@.take(entries.len() as int) == entries@);
        lemma_candidate_keys(entries@, media_lookup@, exclude@, MediaKind::Video);
        lemma_candidate_keys(entries@, media_lookup@, exclude@, MediaKind::Audio);
    }
    let ghost video_keys = video@;
    let ghost audio_keys = audio@;
    proof {
        assert(distinct_items(video_keys)) by {
            assert forall|a: int, b: int| 0 <= a < video_keys.len() && 0 <= b < video_keys.len() && a != b implies (
            #[trigger] video_keys[a]).6 != (#[trigger] video_keys[b]).6 by {
                if a < b {
                    assert(video_keys[a].6 < video_keys[b].6);
                } else {
                    assert(video_keys[b].6 < video_keys[a].6);
                }
            }
        }
        assert(distinct_items(audio_keys)) by {
            assert forall|a: int, b: int| 0 <= a < audio_keys.len() && 0 <= b < audio_keys.len() && a != b implies (
            #[trigger] audio_keys[a]).6 != (#[trigger] audio_keys[b]).6 by {
                if a < b {
                    assert(audio_keys[a].6 < audio_keys[b].6);
                } else {
                    assert(audio_keys[b].6 < audio_keys[a].6);
                }
            }
        }
    }
    let video_sorted = arrange(video);
    let audio_sorted = arrange(audio);
    proof {
        lemma_arrangement_distinct(video_sorted@, video_keys);
        lemma_arrangement_distinct(audio_sorted@, audio_keys);
        assert forall|k: int| 0 <= k < video_sorted@.len() implies (#[trigger] video_sorted@[k]).6 < entries@.len()
            && media_lookup@.contains_key(entries@[video_sorted@[k].6 as int].path@) by {
            assert(video_keys.contains(video_sorted@[k]));
        }
        assert forall|k: int| 0 <= k < audio_sorted@.len() implies (#[trigger] audio_sorted@[k]).6 < entries@.len()
            && media_lookup@.contains_key(entries@[audio_sorted@[k].6 as int].path@) by {
            assert(audio_keys.contains(audio_sorted@[k]));
        }
    }
    let mut groups = cluster_sorted(entries, media_lookup, &video_sorted, tolerance_micros);
    let mut audio_groups = cluster_sorted(entries, media_lookup, &audio_sorted, tolerance_micros);
    let ghost vg = groups@;
    let ghost ag = audio_groups@;
    groups.append(&mut audio_groups);
    proof {
        let runs = multi(stretches(video_sorted@, tolerance_micros)) + multi(stretches(audio_sorted@, tolerance_micros));
        assert forall|g: int| 0 <= g < groups@.len() implies {
            &&& (#[trigger] groups@[g]).files@.len() == runs[g].len()
            &&& forall|m: int|
                0 <= m < runs[g].len() ==> groups@[g].files@[m] == media_file(
                    entries@,
                    media_lookup@,
                    (#[trigger] runs[g][m]).6 as int,
                )
            &&& groups@[g].reclaimable_bytes == reclaimable(groups@[g].files@)
        } by {
            if g < vg.len() {
                assert(groups@[g] == vg[g]);
            } else {
                assert(groups@[g] == ag[g - vg.len()]);
            }
        }
        assert(groups_of_runs(groups@, runs, entries@, media_lookup@));
        lemma_likely_groups_sound(
            entries@,
            media_lookup@,
            exclude@,
            tolerance_micros,
            video_sorted@,
            audio_sorted@,
            groups@,
        );
    }
    groups
}

} // verus!
