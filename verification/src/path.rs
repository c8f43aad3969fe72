//! File paths.

use vstd::prelude::*;

verus! {

/// What separates the parts of a path: `/`.
pub const SEPARATOR: u8 = 0x2f;

/// A path as the system has it: bytes, which need not be text.
#[derive(Debug, PartialEq, Eq)]
pub struct FilePath {
    pub bytes: Vec<u8>,
}

impl View for FilePath {
    type V = Seq<u8>;

    open spec fn view(&self) -> Seq<u8> {
        self.bytes@
    }
}

/// The bytes of an optional path.
pub open spec fn opt(path: Option<FilePath>) -> Option<Seq<u8>> {
    match path {
        Some(p) => Some(p@),
        None => None,
    }
}

/// The path that is written as this text.
pub open spec fn written(text: Seq<char>) -> Seq<u8> {
    vstd::utf8::encode_utf8(text)
}

/// The path that is written as an optional text.
pub open spec fn opt_written(text: Option<Seq<char>>) -> Option<Seq<u8>> {
    match text {
        Some(t) => Some(written(t)),
        None => None,
    }
}

/// `name` below the directory `dir`: an absolute name stands for itself, and
/// one separator stands between the two parts.
pub open spec fn joined(dir: Seq<u8>, name: Seq<u8>) -> Seq<u8> {
    if name.len() > 0 && name[0] == SEPARATOR {
        name
    } else if dir.len() == 0 || dir.last() == SEPARATOR {
        dir + name
    } else {
        dir.push(SEPARATOR) + name
    }
}

/// What `String::from_utf8_lossy` returns: the text that the bytes encode, with
/// replacement characters for what is not UTF-8.
pub uninterp spec fn lossy(bytes: Seq<u8>) -> Seq<char>;

/// `String::from_utf8_lossy`: the result is a function of the bytes alone; where
/// they are UTF-8, it is the text that they encode.
#[verifier::external_body]
fn from_utf8_lossy(bytes: &Vec<u8>) -> (text: String)
    ensures
        text@ == lossy(bytes@),
        vstd::utf8::valid_utf8(bytes@) ==> text@ == vstd::utf8::decode_utf8(bytes@),
{
    String::from_utf8_lossy(bytes).into_owned()
}

/// The text that a path is shown as.
pub open spec fn shown(path: Seq<u8>) -> Seq<char> {
    if vstd::utf8::valid_utf8(path) {
        vstd::utf8::decode_utf8(path)
    } else {
        lossy(path)
    }
}

impl Clone for FilePath {
    fn clone(&self) -> (copy: Self)
        ensures
            copy@ == self@,
    {
        let bytes = self.bytes.clone();
        assert(bytes@ =~= self.bytes@);
        FilePath { bytes }
    }
}

/// A copy of an optional path.
pub fn copy_opt(path: &Option<FilePath>) -> (copy: Option<FilePath>)
    ensures
        opt(copy) == opt(*path),
{
    match path {
        Some(p) => Some(p.clone()),
        None => None,
    }
}

/// The path that is written as an optional text.
pub fn from_opt_text(text: &Option<String>) -> (path: Option<FilePath>)
    ensures
        opt(path) == opt_written(crate::text::opt(*text)),
{
    match text {
        Some(t) => Some(FilePath::from_text(t.as_str())),
        None => None,
    }
}

impl FilePath {
    /// The path that is written as `text`.
    pub fn from_text(text: &str) -> (path: Self)
        ensures
            path@ == written(text@),
    {
        FilePath { bytes: text.as_bytes_vec() }
    }

    /// The path of `name` below the directory.
    pub fn join(&self, name: &str) -> (path: Self)
        ensures
            path@ == joined(self@, written(name@)),
    {
        let mut name_bytes: Vec<u8> = name.as_bytes_vec();
        if name_bytes.len() > 0 && name_bytes[0] == SEPARATOR {
            return FilePath { bytes: name_bytes };
        }
        let mut bytes: Vec<u8> = self.bytes.clone();
        assert(bytes@ =~= self.bytes@);
        if bytes.len() > 0 && bytes[bytes.len() - 1] != SEPARATOR {
            bytes.push(SEPARATOR);
        }
        bytes.append(&mut name_bytes);
        FilePath { bytes }
    }

    /// The path for people to read.
    pub fn display(&self) -> (text: String)
        ensures
            text@ == shown(self@),
    {
        from_utf8_lossy(&self.bytes)
    }
}

/// A path that was written as text is shown as that text.
pub proof fn written_paths_are_shown_as_written(text: Seq<char>)
    ensures
        shown(written(text)) == text,
{
    vstd::utf8::encode_utf8_valid_utf8(text);
    vstd::utf8::encode_utf8_decode_utf8(text);
}

/// A joined path has both parts: the directory first and the name last, with at most
/// one separator between them, and just one where the directory does not end with it; an
/// absolute name stands for itself.
pub proof fn a_joined_path_has_both_parts(dir: Seq<u8>, name: Seq<u8>)
    ensures
        ({
            let path = joined(dir, name);
            let absolute = name.len() > 0 && name[0] == 0x2f;
            &&& absolute ==> path == name
            &&& !absolute ==> {
                &&& path.len() >= dir.len() + name.len()
                &&& path.take(dir.len() as int) == dir
                &&& path.skip(path.len() - name.len()) == name
                &&& dir.len() == 0 || dir.last() == 0x2f ==> path.len() == dir.len() + name.len()
                &&& dir.len() > 0 && dir.last() != 0x2f ==> path.len() == dir.len() + 1
                    + name.len() && path[dir.len() as int] == 0x2f
            }
        }),
{
    let path = joined(dir, name);
    if !(name.len() > 0 && name[0] == 0x2f) {
        assert(path.take(dir.len() as int) =~= dir);
        assert(path.skip(path.len() - name.len()) =~= name);
    }
}

/// Different texts are different paths; the path of an optional text is there exactly if
/// the text is.
pub proof fn texts_are_written_as_utf8(a: Option<String>, b: Option<String>)
    ensures
        opt_written(crate::text::opt(a)) is Some <==> a is Some,
        a matches Some(s) ==> opt_written(crate::text::opt(a)) == Some(
            vstd::utf8::encode_utf8(s@),
        ),
        a is Some && b is Some && opt_written(crate::text::opt(a)) == opt_written(
            crate::text::opt(b),
        ) ==> a->0@ == b->0@,
        forall|p: FilePath| #[trigger] opt(Some(p)) == Some(p.bytes@),
        opt(None) is None,
{
    if a is Some && b is Some {
        vstd::utf8::encode_utf8_decode_utf8(a->0@);
        vstd::utf8::encode_utf8_decode_utf8(b->0@);
    }
}

/// A path that is text is shown as that text.
pub proof fn paths_of_text_are_shown_as_text(path: Seq<u8>)
    requires
        vstd::utf8::valid_utf8(path),
    ensures
        vstd::utf8::encode_utf8(shown(path)) == path,
{
    vstd::utf8::decode_utf8_encode_utf8(path);
}

} // verus!
