//! Paths and the URIs that stand for them. Which characters separate the parts
//! of a path, and which paths are absolute, is up to the platform.
use crate::text::{
    first_position, last_position, lemma_position_is_first, lemma_position_within, starts_with, text_of,
};
use vstd::prelude::*;
use vstd::string::*;
use vstd::utf8::*;

verus! {

/// One text is a part of another.
pub open spec fn part_of(part: Seq<char>, whole: Seq<char>) -> bool {
    exists|a: int, b: int| 0 <= a <= b <= whole.len() && part == #[trigger] whole.subrange(a, b)
}

pub open spec fn slash(c: char) -> bool {
    c == '/' || c == '\\'
}

/// A path that stands plainly below a root: what follows the root and a slash
/// neither begins nor ends with a slash or a dot, and the root begins with one
/// slash, so that every platform reads it alike.
pub open spec fn plainly_below(path: Seq<char>, root: Seq<char>, rest: Seq<char>) -> bool {
    &&& path == root + seq!['/'] + rest
    &&& root.len() >= 2 && root[0] == '/' && !slash(root[1])
    &&& rest.len() > 0 && !slash(rest[0]) && rest[0] != '.'
    &&& !slash(rest.last()) && rest.last() != '.'
}

/// A path from the root of the file system that every platform reads alike: its
/// parts stand behind one slash each, and none is empty or begins with a dot.
pub open spec fn clean_path(path: Seq<char>) -> bool {
    &&& path.len() >= 2 && path[0] == '/'
    &&& !path.contains('\\')
    &&& forall|i: int|
        0 <= i < path.len() && #[trigger] path[i] == '/' ==> i + 1 < path.len() && path[i + 1]
            != '/' && path[i + 1] != '.'
}

/// A path that a root plainly does not lead: it is neither the root nor below
/// it.
pub open spec fn plainly_elsewhere(path: Seq<char>, root: Seq<char>) -> bool {
    clean_path(path) && clean_path(root) && path != root && !starts_with(path, root + seq!['/'])
}

/// What may remain of a path once a root is taken off.
pub open spec fn may_remain(rest: Option<Seq<char>>, path: Seq<char>, root: Seq<char>) -> bool {
    &&& rest matches Some(text) ==> part_of(text, path)
    &&& plainly_elsewhere(path, root) ==> rest is None
    &&& path == root ==> rest == Some(Seq::<char>::empty())
    &&& forall|below: Seq<char>| #[trigger] plainly_below(path, root, below) ==> rest == Some(below)
}

/// `std::path::Path::strip_prefix` takes a leading path off a path, if it leads
/// it. What remains is a part of the path: nothing, where both are the same,
/// and what follows the root and a slash, where the path stands plainly below
/// it. Nothing is given where the path plainly stands elsewhere. Other paths are
/// read as the platform has it, and of them no more is stated.
#[verifier::external_body]
fn strip_prefix(path: &str, root: &str) -> (rest: Option<String>)
    ensures
        may_remain(text_of(rest), path@, root@),
{
    std::path::Path::new(path).strip_prefix(root).ok().and_then(
        |rest| rest.to_str().map(|text| text.to_string()),
    )
}

/// What a path may be called relative to a root: a part of it, or itself; what
/// follows the root, where it stands plainly below it, and itself, where it
/// plainly stands elsewhere.
pub open spec fn label_for(label: Seq<char>, path: Seq<char>, root: Seq<char>) -> bool {
    &&& label == path || part_of(label, path)
    &&& plainly_elsewhere(path, root) ==> label == path
    &&& path == root ==> label.len() == 0
    &&& forall|below: Seq<char>| #[trigger] plainly_below(path, root, below) ==> label == below
}

/// A path relative to a root, given what remains of it once the root is taken
/// off: the path itself, where the root does not lead it.
pub fn relative_or_whole(path: &str, rest: Option<String>) -> (label: String)
    ensures
        label@ == match rest {
            Some(text) => text@,
            None => path@,
        },
{
    match rest {
        Some(text) => text,
        None => path.to_string(),
    }
}

/// A path relative to a root, or the path itself where the root does not lead
/// it.
pub fn relative(path: &str, root: &str) -> (label: String)
    ensures
        label_for(label@, path@, root@),
{
    relative_or_whole(path, strip_prefix(path, root))
}

/// A path from the root of the file system that every platform reads alike, and
/// that does not end in a slash.
pub open spec fn plain_root(root: Seq<char>) -> bool {
    root.len() >= 2 && root[0] == '/' && !slash(root[1]) && !slash(root.last())
}

/// A path that begins with one slash.
pub open spec fn rooted(path: Seq<char>) -> bool {
    path.len() >= 1 && path[0] == '/' && (path.len() >= 2 ==> !slash(path[1]))
}

/// A path that every platform takes for a relative one.
pub open spec fn plainly_relative(part: Seq<char>) -> bool {
    part.len() > 0 && !slash(part[0]) && !part.contains(':')
}

/// What a path below a root may be: the root, a separator and the relative
/// path. Behind a relative root that ends in a separator no other one is put.
pub open spec fn may_join(path: Seq<char>, root: Seq<char>, part: Seq<char>) -> bool {
    &&& plain_root(root) && plainly_relative(part) ==> path == root + seq!['/'] + part || path
        == root + seq!['\\'] + part
    &&& plainly_relative(root) && plainly_relative(part) ==> path == root + part || path == root
        + seq!['/'] + part || path == root + seq!['\\'] + part
    &&& (plain_root(root) || plainly_relative(root)) && rooted(part) ==> path == part
}

/// `std::path::Path::join` appends a relative path to a path, with the
/// separator of the platform between them, unless one is there. A path from the
/// root of the file system replaces the one it is appended to, where that names
/// no drive. What else is absolute rests on the platform, and of other paths
/// nothing is stated.
#[verifier::external_body]
fn join_paths(root: &str, part: &str) -> (path: String)
    ensures
        may_join(path@, root@, part@),
{
    std::path::Path::new(root).join(part).to_string_lossy().into_owned()
}

/// The pattern that finds the sources of a project: a glob is taken from its
/// root on.
pub fn source_pattern(root: &str, source_glob: &str) -> (pattern: String)
    ensures
        may_join(pattern@, root@, source_glob@),
{
    join_paths(root, source_glob)
}

/// The path of the document in which a project's blocks are diagnosed. Below a
/// relative root it is relative itself.
pub fn synthetic_path(root: &str) -> (path: String)
    ensures
        may_join(path@, root@, "__twlint_synthetic.html"@),
        plain_root(root@) ==> path@ == root@ + seq!['/'] + "__twlint_synthetic.html"@ || path@
            == root@ + seq!['\\'] + "__twlint_synthetic.html"@,
        plainly_relative(root@) ==> plainly_relative(path@),
{
    proof {
        reveal_strlit("__twlint_synthetic.html");
        let name = "__twlint_synthetic.html"@;
        assert(!name.contains(':')) by {
            assert forall|i: int| 0 <= i < name.len() implies name[i] != ':' by {}
        }
    }
    let path = join_paths(root, "__twlint_synthetic.html");
    proof {
        if plainly_relative(root@) {
            assert(path@[0] == root@[0]);
            assert forall|i: int| 0 <= i < path@.len() implies path@[i] != ':' by {
                let behind = i - (path@.len() - "__twlint_synthetic.html"@.len());
                if i < root@.len() {
                    assert(root@.contains(root@[i]));
                } else if behind >= 0 {
                    assert("__twlint_synthetic.html"@.contains("__twlint_synthetic.html"@[behind]));
                }
            }
        }
    }
    path
}

/// A path that begins with two slashes. What follows them may name a server, or
/// a path in which a slash is a character like any other.
pub open spec fn led_by_two_slashes(path: Seq<char>) -> bool {
    path.len() >= 2 && slash(path[0]) && slash(path[1])
}

/// A path whose file name plainly has an extension: behind the last dot stands
/// no slash, and before it a character of the name.
pub open spec fn plainly_extended(path: Seq<char>, front: Seq<char>, extension: Seq<char>) -> bool {
    &&& path == front + seq!['.'] + extension
    &&& !led_by_two_slashes(path)
    &&& front.len() > 0 && !slash(front.last()) && front.last() != ':'
    &&& extension.len() > 0 && !extension.contains('.') && !extension.contains('/')
        && !extension.contains('\\')
}

/// What follows the last slash of a path.
pub open spec fn name_in(path: Seq<char>) -> Seq<char> {
    path.skip(last_position(path, '/') + 1)
}

/// A path whose last part every platform takes for its file name.
pub open spec fn plainly_named(path: Seq<char>) -> bool {
    &&& !path.contains('\\') && !path.contains(':')
    &&& !led_by_two_slashes(path)
    &&& name_in(path).len() > 0 && name_in(path) != "."@ && name_in(path) != ".."@
}

/// The extension of a file name: what follows its last dot, unless that is its
/// first character.
pub open spec fn extension_in(name: Seq<char>) -> Option<Seq<char>> {
    let dot = last_position(name, '.');
    if dot <= 0 {
        None
    } else {
        Some(name.skip(dot + 1))
    }
}

/// What the extension of a path may be.
pub open spec fn may_extend(extension: Option<Seq<char>>, path: Seq<char>) -> bool {
    &&& extension matches Some(text) ==> !text.contains('.') && part_of(seq!['.'] + text, path)
    &&& !led_by_two_slashes(path) ==> (extension matches Some(text) ==> !text.contains('/'))
    &&& plainly_named(path) ==> extension == extension_in(name_in(path))
    &&& forall|front: Seq<char>, end: Seq<char>| #[trigger]
        plainly_extended(path, front, end) ==> extension == Some(end)
}

/// `std::path::Path::extension` gives what follows the last dot of the file
/// name, unless the name has no character before it. So it holds no dot itself,
/// and no slash unless two of them begin the path, and stands behind a dot. What the file name is rests
/// on the platform, but where it plainly is the last part of the path, or plainly
/// has an extension, that is what counts.
#[verifier::external_body]
pub(crate) fn extension_of(path: &str) -> (extension: Option<String>)
    ensures
        may_extend(text_of(extension), path@),
{
    std::path::Path::new(path).extension().and_then(
        |extension| extension.to_str().map(|text| text.to_string()),
    )
}

/// A hexadecimal digit.
pub open spec fn hex_digit(n: u8) -> char {
    if n < 10 {
        (0x30 + n) as char
    } else {
        (0x37 + n) as char
    }
}

/// A byte that is written as a percent sign and two digits in the part of a URL's
/// path: a control, one beyond ASCII, a space, or one of `"#%/<>?\\` and `` `{} ``.
pub open spec fn escaped_byte(byte: u8) -> bool {
    byte <= 0x20 || byte >= 0x7f || byte == 0x22 || byte == 0x23 || byte == 0x25 || byte == 0x2f
        || byte == 0x3c || byte == 0x3e || byte == 0x3f || byte == 0x5c || byte == 0x60 || byte
        == 0x7b || byte == 0x7d
}

/// The part of a path as it is written in a URL.
pub open spec fn percent_encoded(bytes: Seq<u8>) -> Seq<char>
    decreases bytes.len(),
{
    if bytes.len() == 0 {
        Seq::empty()
    } else {
        let first = bytes[0];
        let rest = percent_encoded(bytes.drop_first());
        if escaped_byte(first) {
            seq!['%', hex_digit(first / 16), hex_digit(first % 16)] + rest
        } else {
            seq![first as char] + rest
        }
    }
}

/// The parts of a path as they are written in a URL, each behind a slash. Empty
/// parts and single dots are left out.
pub open spec fn url_parts(path: Seq<char>) -> Seq<char>
    decreases path.len(),
{
    if path.len() == 0 {
        Seq::empty()
    } else if path[0] == '/' {
        url_parts(path.drop_first())
    } else {
        let end = first_position(path, '/') as int;
        proof {
            lemma_position_within(path, '/');
        }
        let part = path.take(end);
        let rest = url_parts(path.skip(end));
        if part == "."@ {
            rest
        } else {
            "/"@ + percent_encoded(encode_utf8(part)) + rest
        }
    }
}

/// The URL of a path from the root of the file system.
pub open spec fn file_url(path: Seq<char>) -> Seq<char> {
    if url_parts(path).len() == 0 {
        "file:///"@
    } else {
        "file://"@ + url_parts(path)
    }
}

/// The URL of a directory: it ends in a slash.
pub open spec fn directory_url(path: Seq<char>) -> Seq<char> {
    if url_parts(path).len() == 0 {
        "file:///"@
    } else {
        "file://"@ + url_parts(path) + "/"@
    }
}

/// What the URI of a path may be: one in the `file` scheme, and for a path from
/// the root of the file system its parts behind the scheme.
pub open spec fn uri_for(uri: Seq<char>, path: Seq<char>) -> bool {
    &&& starts_with(uri, "file://"@)
    &&& path.len() > 0
    &&& rooted(path) ==> uri == file_url(path)
}

/// `lsp_types::Url::from_file_path` gives the URL of a path in the `file`
/// scheme, and nothing for a path that is not absolute, as an empty or plainly
/// relative one is. Of a path that begins with one slash the parts are written
/// behind the scheme, percent-encoded; on a platform where drives are named such
/// a path is not absolute. Which others are absolute, and how they are written,
/// rests on the platform, and is not stated.
#[verifier::external_body]
pub(crate) fn file_uri(path: &str) -> (uri: Option<String>)
    ensures
        uri matches Some(text) ==> uri_for(text@, path@),
        plainly_relative(path@) ==> uri is None,
{
    lsp_types::Url::from_file_path(path).ok().map(|url| url.to_string())
}

/// What the URI of a directory may be: one in the `file` scheme with a slash at
/// its end, and for a path from the root of the file system its parts between
/// the two.
pub open spec fn directory_uri_for(uri: Seq<char>, path: Seq<char>) -> bool {
    &&& starts_with(uri, "file://"@)
    &&& uri.last() == '/'
    &&& path.len() > 0
    &&& rooted(path) ==> uri == directory_url(path)
}

/// `lsp_types::Url::from_directory_path` gives the URL of a directory in the
/// `file` scheme, with a slash at its end, and nothing for a path that is not
/// absolute, as an empty or plainly relative one is. A path that begins with one
/// slash is written as `from_file_path` writes it. Which others are absolute, and
/// how they are written, rests on the platform, and is not stated.
#[verifier::external_body]
pub(crate) fn directory_uri(path: &str) -> (uri: Option<String>)
    ensures
        uri matches Some(text) ==> directory_uri_for(text@, path@),
        plainly_relative(path@) ==> uri is None,
{
    lsp_types::Url::from_directory_path(path).ok().map(|url| url.to_string())
}

/// A path that needs no escapes: clean, and of characters that a URL takes as
/// they are.
pub open spec fn plain_path(path: Seq<char>) -> bool {
    clean_path(path) && forall|i: int|
        0 <= i < path.len() ==> #[trigger] path[i] == '/' || ('!' <= path[i] <= '~' && !escaped_byte(
            path[i] as u8,
        ))
}

proof fn lemma_unescaped(part: Seq<char>)
    requires
        forall|i: int|
            0 <= i < part.len() ==> '!' <= (#[trigger] part[i]) <= '~' && !escaped_byte(
                part[i] as u8,
            ),
    ensures
        percent_encoded(encode_utf8(part)) == part,
    decreases part.len(),
{
    let bytes = encode_utf8(part);
    assert(is_ascii_chars(part)) by {
        assert forall|i: int| 0 <= i < part.len() implies '\0' <= #[trigger] part[i] <= '\u{7f}' by {
            assert('!' <= part[i] <= '~');
        }
    }
    is_ascii_chars_encode_utf8(part);
    if part.len() > 0 {
        let rest = part.drop_first();
        assert forall|i: int| 0 <= i < rest.len() implies '!' <= (#[trigger] rest[i]) <= '~'
            && !escaped_byte(rest[i] as u8) by {
            assert(rest[i] == part[i + 1]);
        }
        lemma_unescaped(rest);
        is_ascii_chars_encode_utf8(rest);
        assert(bytes.drop_first() =~= encode_utf8(rest)) by {
            assert forall|i: int| 0 <= i < rest.len() implies bytes.drop_first()[i] == encode_utf8(
                rest,
            )[i] by {
                assert(rest[i] == part[i + 1]);
                assert(part[i + 1] as u8 == bytes[i + 1]);
                assert(rest[i] as u8 == encode_utf8(rest)[i]);
            }
        }
        assert(part[0] as u8 == bytes[0]);
        assert((part[0] as u8) as char == part[0]);
        assert(seq![part[0]] + rest =~= part);
    }
}

proof fn lemma_plain_parts(path: Seq<char>)
    requires
        path.len() > 0 ==> path[0] == '/',
        forall|i: int|
            0 <= i < path.len() && #[trigger] path[i] == '/' ==> i + 1 < path.len() && path[i + 1]
                != '/' && path[i + 1] != '.',
        forall|i: int|
            0 <= i < path.len() ==> #[trigger] path[i] == '/' || ('!' <= path[i] <= '~'
                && !escaped_byte(path[i] as u8)),
    ensures
        url_parts(path) == path,
    decreases path.len(),
{
    if path.len() > 0 {
        let tail = path.drop_first();
        let end = first_position(tail, '/') as int;
        let part = tail.take(end);
        let rest = tail.skip(end);
        reveal_strlit(".");
        reveal_strlit("/");
        lemma_position_within(tail, '/');
        lemma_position_is_first(tail, '/');
        assert(path[0] == '/');
        assert(tail[0] == path[1]);
        assert(url_parts(path) == url_parts(tail));
        assert(part[0] == tail[0]);
        assert(part != "."@);
        assert forall|i: int| 0 <= i < part.len() implies '!' <= (#[trigger] part[i]) <= '~'
            && !escaped_byte(part[i] as u8) by {
            assert(part[i] == tail[i] && tail[i] == path[i + 1]);
        }
        lemma_unescaped(part);
        assert forall|i: int| 0 <= i < rest.len() && #[trigger] rest[i] == '/' implies i + 1
            < rest.len() && rest[i + 1] != '/' && rest[i + 1] != '.' by {
            assert(rest[i] == path[end + i + 1]);
        }
        assert forall|i: int| 0 <= i < rest.len() implies #[trigger] rest[i] == '/' || ('!' <= rest[i]
            <= '~' && !escaped_byte(rest[i] as u8)) by {
            assert(rest[i] == path[end + i + 1]);
        }
        lemma_plain_parts(rest);
        assert("/"@ + part + rest =~= path);
    }
}

/// A path that needs no escapes stands in its URL as it is.
pub proof fn law_plain_path_url(path: Seq<char>)
    requires
        plain_path(path),
    ensures
        file_url(path) == "file://"@ + path,
        directory_url(path) == "file://"@ + path + "/"@,
{
    lemma_plain_parts(path);
}

} // verus!
