//! Paths as text: names, extensions, and the names of archive files.

use vstd::prelude::*;
use crate::cli::texts;
use crate::numbers::{padded, push_padded};
use crate::text::{ascii_lowercase, ascii_lowered, str_eq, trimmed};

verus! {

/// The place of the last `c`, or -1.
pub open spec fn last_at(s: Seq<char>, c: char) -> int
    decreases s.len(),
{
    if s.len() == 0 {
        -1
    } else if s.last() == c {
        s.len() - 1
    } else {
        last_at(s.drop_last(), c)
    }
}

pub proof fn lemma_last_at_range(s: Seq<char>, c: char)
    ensures
        -1 <= last_at(s, c) < s.len(),
    decreases s.len(),
{
    if s.len() > 0 && s.last() != c {
        lemma_last_at_range(s.drop_last(), c);
    }
}

/// What stands behind the last slash of a path.
pub open spec fn name_of(path: Seq<char>) -> Seq<char> {
    path.skip(last_at(path, '/') + 1)
}

/// What stands before the last slash of a path.
pub open spec fn parent_of(path: Seq<char>) -> Seq<char> {
    if last_at(path, '/') < 0 {
        Seq::empty()
    } else {
        path.take(last_at(path, '/'))
    }
}

/// What stands behind the last dot of a path's name. A dot at the front of the
/// name starts no extension, and the name of the parent directory has none.
pub open spec fn extension_of(path: Seq<char>) -> Option<Seq<char>> {
    let name = name_of(path);
    let dot = last_at(name, '.');
    if dot <= 0 || name == ".."@ {
        None
    } else {
        Some(name.skip(dot + 1))
    }
}

/// Splits a text at the last `c`: what stands before it, what stands behind it,
/// and whether there is one.
fn split_last(s: &str, c: char) -> (r: (String, String, bool))
    ensures
        r.2 == (last_at(s@, c) >= 0),
        r.2 ==> r.0@ == s@.take(last_at(s@, c)),
        !r.2 ==> r.0@ == Seq::<char>::empty(),
        r.1@ == s@.skip(last_at(s@, c) + 1),
{
    let mut before = String::new();
    let mut after = String::new();
    let mut found: bool = false;
    proof {
        assert(s@.take(0) =~= Seq::empty());
    }
    for x in it: s.chars()
        invariant
            it.seq() == s@,
            found == (last_at(s@.take(it.index()), c) >= 0),
            found ==> before@ == s@.take(last_at(s@.take(it.index()), c)),
            !found ==> before@ == Seq::<char>::empty(),
            after@ == s@.subrange(last_at(s@.take(it.index()), c) + 1, it.index()),
    {
        let ghost n = it.index();
        let ghost p = s@.take(n);
        let ghost q = s@.take(n + 1);
        proof {
            lemma_last_at_range(p, c);
            assert(q.drop_last() =~= p);
            assert(q.last() == x);
        }
        if x == c {
            if found {
                before.push(c);
            }
            before.push_str(after.as_str());
            after = String::new();
            proof {
                let l = last_at(p, c);
                if found {
                    assert(s@[l] == c) by {
                        lemma_last_at_hit(p, c);
                    }
                    assert(s@.take(l).push(c) + s@.subrange(l + 1, n) =~= s@.take(n));
                } else {
                    lemma_last_at_range(p, c);
                    assert(Seq::<char>::empty() + s@.subrange(0, n) =~= s@.take(n));
                }
                assert(s@.subrange(n + 1, n + 1) =~= Seq::empty());
            }
            found = true;
        } else {
            after.push(x);
            proof {
                let l = last_at(p, c);
                assert(s@.subrange(l + 1, n).push(x) =~= s@.subrange(l + 1, n + 1));
            }
        }
    }
    proof {
        assert(s@.take(s@.len() as int) =~= s@);
        lemma_last_at_range(s@, c);
        assert(s@.subrange(last_at(s@, c) + 1, s@.len() as int) =~= s@.skip(last_at(s@, c) + 1));
    }
    (before, after, found)
}

proof fn lemma_last_at_hit(s: Seq<char>, c: char)
    requires
        last_at(s, c) >= 0,
    ensures
        s[last_at(s, c)] == c,
    decreases s.len(),
{
    if s.last() != c {
        lemma_last_at_range(s.drop_last(), c);
        lemma_last_at_hit(s.drop_last(), c);
    }
}

/// The extension of a path.
pub fn extension(path: &str) -> (r: Option<String>)
    ensures
        match extension_of(path@) {
            Some(e) => r matches Some(x) && x@ == e,
            None => r is None,
        },
{
    let (_, name, _) = split_last(path, '/');
    if str_eq(name.as_str(), "..") {
        return None;
    }
    let (stem, ext, dotted) = split_last(name.as_str(), '.');
    proof {
        lemma_last_at_range(name@, '.');
    }
    if dotted && first_char(stem.as_str()).is_some() {
        Some(ext)
    } else {
        None
    }
}

/// The directory part of a path.
pub fn parent(path: &str) -> (r: String)
    ensures
        r@ == parent_of(path@),
{
    let (before, _, _) = split_last(path, '/');
    before
}

/// Whether a lower-case extension is one of files that are compressed already.
pub open spec fn media_extension(e: Seq<char>) -> bool {
    ||| e == "jpg"@
    ||| e == "jpeg"@
    ||| e == "png"@
    ||| e == "gif"@
    ||| e == "webp"@
    ||| e == "heic"@
    ||| e == "heif"@
    ||| e == "avif"@
    ||| e == "mp3"@
    ||| e == "aac"@
    ||| e == "m4a"@
    ||| e == "ogg"@
    ||| e == "opus"@
    ||| e == "flac"@
    ||| e == "mp4"@
    ||| e == "mkv"@
    ||| e == "webm"@
    ||| e == "mov"@
    ||| e == "avi"@
    ||| e == "flv"@
    ||| e == "wmv"@
    ||| e == "m4v"@
    ||| e == "zip"@
    ||| e == "gz"@
    ||| e == "xz"@
    ||| e == "7z"@
    ||| e == "rar"@
    ||| e == "bz2"@
    ||| e == "zst"@
    ||| e == "lz4"@
    ||| e == "lzma"@
    ||| e == "tgz"@
    ||| e == "tbz2"@
    ||| e == "txz"@
    ||| e == "tzst"@
    ||| e == "deb"@
    ||| e == "rpm"@
    ||| e == "apk"@
    ||| e == "jar"@
    ||| e == "war"@
    ||| e == "ear"@
    ||| e == "crx"@
    ||| e == "whl"@
    ||| e == "egg"@
    ||| e == "pdf"@
}

fn is_media_extension(e: &str) -> (r: bool)
    ensures
        r == media_extension(e@),
{
    str_eq(e, "jpg") || str_eq(e, "jpeg") || str_eq(e, "png") || str_eq(e, "gif") || str_eq(e,
        "webp") || str_eq(e, "heic") || str_eq(e, "heif") || str_eq(e, "avif") || str_eq(e, "mp3")
        || str_eq(e, "aac") || str_eq(e, "m4a") || str_eq(e, "ogg") || str_eq(e, "opus") ||
        str_eq(e, "flac") || str_eq(e, "mp4") || str_eq(e, "mkv") || str_eq(e, "webm") ||
        str_eq(e, "mov") || str_eq(e, "avi") || str_eq(e, "flv") || str_eq(e, "wmv") || str_eq(e,
        "m4v") || str_eq(e, "zip") || str_eq(e, "gz") || str_eq(e, "xz") || str_eq(e, "7z") ||
        str_eq(e, "rar") || str_eq(e, "bz2") || str_eq(e, "zst") || str_eq(e, "lz4") || str_eq(e,
        "lzma") || str_eq(e, "tgz") || str_eq(e, "tbz2") || str_eq(e, "txz") || str_eq(e, "tzst")
        || str_eq(e, "deb") || str_eq(e, "rpm") || str_eq(e, "apk") || str_eq(e, "jar") ||
        str_eq(e, "war") || str_eq(e, "ear") || str_eq(e, "crx") || str_eq(e, "whl") || str_eq(e,
        "egg") || str_eq(e, "pdf")
}

/// Whether a path names a file that is compressed already.
pub open spec fn media_path(path: Seq<char>) -> bool {
    extension_of(path) matches Some(e) && media_extension(ascii_lowered(e))
}

/// Whether a path names a file that is compressed already: a picture, sound,
/// video, archive or package, by its extension in whatever case.
pub fn is_media_ext(path: &str) -> (r: bool)
    ensures
        r == media_path(path@),
{
    match extension(path) {
        Some(e) => is_media_extension(ascii_lowercase(e.as_str()).as_str()),
        None => false,
    }
}

/// Whether an archive path stands for the standard streams.
pub fn is_stream_path(archive: &str) -> (r: bool)
    ensures
        r == (archive@ == "-"@),
{
    str_eq(archive, "-")
}

/// The name of part `n` of a split archive.
pub open spec fn part_name(base: Seq<char>, n: int) -> Seq<char> {
    base.push('.') + padded(n, 3)
}

/// The name of part `n` of a split archive: its number with at least three
/// digits behind the archive's name.
pub fn part_path(base: &str, n: u32) -> (r: String)
    ensures
        r@ == part_name(base@, n as int),
{
    let mut out = String::new();
    out.push_str(base);
    assert(out@ =~= base@);
    out.push('.');
    push_padded(&mut out, n as u64, 3);
    out
}

/// The name under which an archive is written until it is complete.
pub fn temporary_path(archive: &str) -> (r: String)
    ensures
        r@ == archive@ + ".tmp"@,
{
    let mut out = String::new();
    out.push_str(archive);
    assert(out@ =~= archive@);
    out.push_str(".tmp");
    out
}

/// The texts between line feeds.
pub open spec fn lines_of(s: Seq<char>) -> Seq<Seq<char>>
    decreases s.len(),
{
    let l = last_at(s, '\n');
    proof {
        lemma_last_at_range(s, '\n');
    }
    if l < 0 {
        seq![s]
    } else {
        lines_of(s.take(l)).push(s.skip(l + 1))
    }
}

/// Whether a line of a file list names a path: it is not blank and does not
/// start with `#`.
pub open spec fn names_path(line: Seq<char>) -> bool {
    trimmed(line).len() > 0 && trimmed(line)[0] != '#'
}

/// The paths that some lines name.
pub open spec fn listed(lines: Seq<Seq<char>>) -> Seq<Seq<char>>
    decreases lines.len(),
{
    if lines.len() == 0 {
        Seq::empty()
    } else if names_path(lines.last()) {
        listed(lines.drop_last()).push(trimmed(lines.last()))
    } else {
        listed(lines.drop_last())
    }
}

/// The first character of a text.
fn first_char(s: &str) -> (r: Option<char>)
    ensures
        r == (if s@.len() > 0 {
            Some(s@[0])
        } else {
            None
        }),
{
    for c in it: s.chars()
        invariant
            it.seq() == s@,
            it.index() == 0,
    {
        return Some(c);
    }
    None
}

/// The lines of a text.
pub fn split_lines(text: &str) -> (r: Vec<String>)
    ensures
        texts(r@) == lines_of(text@),
{
    let mut out: Vec<String> = Vec::new();
    let mut line = String::new();
    proof {
        assert(text@.take(0) =~= Seq::empty());
        assert(lines_of(Seq::<char>::empty()) =~= texts(out@).push(Seq::empty()));
    }
    for c in it: text.chars()
        invariant
            it.seq() == text@,
            lines_of(text@.take(it.index())) == texts(out@).push(line@),
    {
        let ghost p = text@.take(it.index());
        let ghost q = text@.take(it.index() + 1);
        let ghost before = texts(out@);
        proof {
            assert(q.drop_last() =~= p);
            assert(q.last() == c);
            lemma_last_at_range(p, '\n');
        }
        if c == '\n' {
            proof {
                assert(q.take(q.len() - 1) =~= p);
                assert(q.skip(q.len() as int) =~= Seq::empty());
            }
            out.push(line);
            assert(texts(out@) =~= lines_of(p));
            line = String::new();
        } else {
            proof {
                let l = last_at(p, '\n');
                if l < 0 {
                    assert(lines_of(p) =~= seq![p]);
                    assert(lines_of(p).last() == line@);
                    assert(lines_of(q) =~= seq![q]);
                    assert(p.push(c) =~= q);
                    assert(before =~= Seq::empty());
                } else {
                    assert(q.take(l) =~= p.take(l));
                    assert(q.skip(l + 1) =~= p.skip(l + 1).push(c));
                    assert(lines_of(p).last() == line@);
                    assert(lines_of(p).drop_last() =~= before);
                    assert(lines_of(p).drop_last() =~= lines_of(p.take(l)));
                }
            }
            line.push(c);
            assert(lines_of(q) =~= before.push(line@));
        }
    }
    assert(text@.take(text@.len() as int) =~= text@);
    let ghost before = texts(out@);
    let ghost last = line@;
    out.push(line);
    assert(texts(out@) =~= before.push(last));
    out
}

/// The paths in a file list: one per line, without the white space around it;
/// blank lines and lines that start with `#` are passed over.
pub fn load_filelist(text: &str) -> (r: Vec<String>)
    ensures
        texts(r@) == listed(lines_of(text@)),
{
    let lines = split_lines(text);
    let ghost all = lines_of(text@);
    let mut out: Vec<String> = Vec::new();
    let mut i: usize = 0;
    assert(texts(out@) =~= listed(all.take(0)));
    while i < lines.len()
        invariant
            all == texts(lines@),
            i <= lines@.len(),
            texts(out@) == listed(all.take(i as int)),
        decreases lines@.len() - i,
    {
        proof {
            assert(all.take(i + 1).drop_last() =~= all.take(i as int));
            assert(all.take(i + 1).last() == lines@[i as int]@);
        }
        let ghost before = texts(out@);
        let t = lines[i].as_str().trim();
        match first_char(t) {
            Some(c) => {
                if c != '#' {
                    out.push(t.to_owned());
                    assert(texts(out@) =~= before.push(t@));
                }
            },
            None => {},
        }
        i = i + 1;
    }
    assert(all.take(i as int) =~= all);
    out
}

/// The last character that is searched for stands at the end of what comes before the
/// rest, where the rest does not have it.
proof fn lemma_last_at_found(a: Seq<char>, b: Seq<char>, c: char)
    requires
        forall|k: int| 0 <= k < b.len() ==> #[trigger] b[k] != c,
    ensures
        last_at(a.push(c) + b, c) == a.len(),
    decreases b.len(),
{
    let s = a.push(c) + b;
    if b.len() > 0 {
        assert(s.last() == b[b.len() - 1]);
        assert(s.drop_last() =~= a.push(c) + b.drop_last());
        lemma_last_at_found(a, b.drop_last(), c);
    } else {
        assert(s =~= a.push(c));
    }
}

proof fn lemma_last_at_none(b: Seq<char>, c: char)
    requires
        forall|k: int| 0 <= k < b.len() ==> #[trigger] b[k] != c,
    ensures
        last_at(b, c) == -1,
    decreases b.len(),
{
    if b.len() > 0 {
        assert(b.last() == b[b.len() - 1]);
        lemma_last_at_none(b.drop_last(), c);
    }
}

/// A path is a directory, a slash and a name, or a name alone.
pub proof fn lemma_path_parts(dir: Seq<char>, name: Seq<char>)
    requires
        forall|k: int| 0 <= k < name.len() ==> #[trigger] name[k] != '/',
    ensures
        name_of(dir.push('/') + name) == name,
        parent_of(dir.push('/') + name) == dir,
        name_of(name) == name,
        parent_of(name) == Seq::<char>::empty(),
{
    let path = dir.push('/') + name;
    lemma_last_at_found(dir, name, '/');
    lemma_last_at_none(name, '/');
    assert(path.skip(dir.len() as int + 1) =~= name);
    assert(path.take(dir.len() as int) =~= dir);
    assert(name.skip(0) =~= name);
}

/// The extension of a path is what stands behind the last dot of its name, where
/// something stands before the dot. A name without a dot has none, and neither has one
/// whose only dot is its first character.
pub proof fn lemma_extension_found(path: Seq<char>, stem: Seq<char>, ext: Seq<char>)
    requires
        forall|k: int| 0 <= k < ext.len() ==> #[trigger] ext[k] != '.',
    ensures
        stem.len() > 0 && name_of(path) == stem.push('.') + ext && stem.push('.') + ext != ".."@
            ==> extension_of(path) == Some(ext),
        name_of(path) == ext ==> extension_of(path) is None,
        name_of(path) == seq!['.'] + ext ==> extension_of(path) is None,
{
    lemma_last_at_found(stem, ext, '.');
    lemma_last_at_none(ext, '.');
    lemma_last_at_found(Seq::empty(), ext, '.');
    assert(Seq::<char>::empty().push('.') + ext =~= seq!['.'] + ext);
    assert((stem.push('.') + ext).skip(stem.len() as int + 1) =~= ext);
}

/// The case of the letters of an extension does not tell media files from others.
pub proof fn lemma_media_in_any_case(p: Seq<char>, q: Seq<char>)
    requires
        extension_of(p) is Some,
        extension_of(q) is Some,
        ascii_lowered(extension_of(p)->0) == ascii_lowered(extension_of(q)->0),
    ensures
        media_path(p) == media_path(q),
{
}

/// The name of a part is the archive's name, a dot and the part's number in at least
/// three digits.
pub proof fn lemma_part_name_tells(base: Seq<char>, n: int)
    requires
        n >= 0,
    ensures
        part_name(base, n).take(base.len() as int) == base,
        part_name(base, n)[base.len() as int] == '.',
        crate::numbers::unsigned_value(
            vstd::utf8::encode_utf8(part_name(base, n).skip(base.len() as int + 1)),
        ) == Some(n),
        n < 1000 ==> part_name(base, n).len() == base.len() + 4,
{
    crate::numbers::lemma_padded_reads(n, 3);
    let name = part_name(base, n);
    assert(name.take(base.len() as int) =~= base);
    assert(name.skip(base.len() as int + 1) =~= padded(n, 3));
}

/// Lines are what stands between line feeds: a text without one is one line, and a line
/// feed starts a new line.
pub proof fn lemma_lines_tell(text: Seq<char>, line: Seq<char>)
    requires
        forall|k: int| 0 <= k < line.len() ==> #[trigger] line[k] != '\n',
    ensures
        lines_of(line) == seq![line],
        lines_of(text.push('\n') + line) == lines_of(text).push(line),
{
    lemma_last_at_none(line, '\n');
    lemma_last_at_found(text, line, '\n');
    let all = text.push('\n') + line;
    assert(all.take(text.len() as int) =~= text);
    assert(all.skip(text.len() as int + 1) =~= line);
}

/// A line of a file list adds its path, without the white space around it, unless
/// nothing but white space is there or it starts with `#`.
pub proof fn lemma_list_tells(lines: Seq<Seq<char>>, line: Seq<char>)
    ensures
        trimmed(line).len() == 0 ==> listed(lines.push(line)) == listed(lines),
        trimmed(line).len() > 0 && trimmed(line)[0] == '#' ==> listed(lines.push(line)) == listed(
            lines,
        ),
        trimmed(line).len() > 0 && trimmed(line)[0] != '#' ==> listed(lines.push(line)) == listed(
            lines,
        ).push(trimmed(line)),
        listed(Seq::empty()) == Seq::<Seq<char>>::empty(),
{
    assert(lines.push(line).drop_last() =~= lines);
}

/// Which paths are media by their extension, in whatever case.
pub proof fn lemma_media_kinds(path: Seq<char>)
    requires
        extension_of(path) is Some,
    ensures
        ({
            let e = ascii_lowered(extension_of(path)->0);
            let picture = e == "jpg"@
                || e == "jpeg"@
                || e == "png"@
                || e == "gif"@
                || e == "webp"@
                || e == "heic"@
                || e == "heif"@
                || e == "avif"@;
            let sound = e == "mp3"@
                || e == "aac"@
                || e == "m4a"@
                || e == "ogg"@
                || e == "opus"@
                || e == "flac"@;
            let video = e == "mp4"@
                || e == "mkv"@
                || e == "webm"@
                || e == "mov"@
                || e == "avi"@
                || e == "flv"@
                || e == "wmv"@
                || e == "m4v"@;
            let archive = e == "zip"@
                || e == "gz"@
                || e == "xz"@
                || e == "7z"@
                || e == "rar"@
                || e == "bz2"@
                || e == "zst"@
                || e == "lz4"@
                || e == "lzma"@
                || e == "tgz"@
                || e == "tbz2"@
                || e == "txz"@
                || e == "tzst"@;
            let package = e == "deb"@
                || e == "rpm"@
                || e == "apk"@
                || e == "jar"@
                || e == "war"@
                || e == "ear"@
                || e == "crx"@
                || e == "whl"@
                || e == "egg"@
                || e == "pdf"@;
            media_path(path) <==> picture || sound || video || archive || package
        }),
{
}

} // verus!
