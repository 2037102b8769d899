//! UTF-8 file text for the document pipeline.
//!
//! A file is read whole, decoded as UTF-8 and only then handed on, with CRLF
//! and bare CR represented as LF, the logical text Python's universal-newline
//! mode sees. Reading and writing the bytes is the caller's.

use vstd::prelude::*;
use vstd::utf8::{decode_utf8, valid_utf8};

use crate::directives::DirectiveError;
use crate::text::{chars_of, push_char};

verus! {

/// `std::path::PathBuf`, carried so that an error can name its file.
#[verifier::external_type_specification]
#[verifier::external_body]
pub struct ExPathBuf(std::path::PathBuf);

/// `std::io::Error`, carried as the source of a read or write failure.
#[verifier::external_type_specification]
#[verifier::external_body]
pub struct ExIoError(std::io::Error);

/// `std::str::Utf8Error`, carried as the source of a decoding failure.
#[verifier::external_type_specification]
#[verifier::external_body]
pub struct ExUtf8Error(std::str::Utf8Error);

/// `std::str::from_utf8`: the bytes as text when they are valid UTF-8, which
/// its documentation promises, and the decoding error otherwise.
#[verifier::external_body]
fn decoded(bytes: &[u8]) -> (r: Result<String, std::str::Utf8Error>)
    ensures
        r is Ok <==> valid_utf8(bytes@),
        r matches Ok(text) ==> text@ == decode_utf8(bytes@),
{
    match std::str::from_utf8(bytes) {
        Ok(text) => Ok(text.to_owned()),
        Err(error) => Err(error),
    }
}

/// A text with CRLF and bare CR each represented as LF.
pub open spec fn universal(s: Seq<char>) -> Seq<char>
    decreases s.len(),
{
    if s.len() == 0 {
        Seq::empty()
    } else if s[0] == '\r' && s.len() > 1 && s[1] == '\n' {
        seq!['\n'] + universal(s.skip(2))
    } else if s[0] == '\r' {
        seq!['\n'] + universal(s.skip(1))
    } else {
        seq![s[0]] + universal(s.skip(1))
    }
}

proof fn lemma_universal_split(s: Seq<char>, i: int)
    requires
        0 <= i <= s.len(),
        !(0 < i < s.len() && s[i - 1] == '\r' && s[i] == '\n'),
    ensures
        universal(s) == universal(s.take(i)) + universal(s.skip(i)),
    decreases i,
{
    if i == 0 {
        assert(s.take(0) =~= Seq::<char>::empty());
        assert(s.skip(0) =~= s);
        assert(universal(s.take(0)) + universal(s) =~= universal(s));
    } else {
        assert(s.len() > 0);
        let step: int = if s[0] == '\r' && s.len() > 1 && s[1] == '\n' {
            2
        } else {
            1
        };
        if step <= i {
            let rest = s.skip(step);
            assert(rest.take(i - step) =~= s.take(i).skip(step));
            assert(rest.skip(i - step) =~= s.skip(i));
            if 0 < i - step < rest.len() {
                assert(rest[i - step - 1] == s[i - 1]);
                assert(rest[i - step] == s[i]);
            }
            lemma_universal_split(rest, i - step);
            let head = s.take(i);
            assert(head[0] == s[0]);
            if step == 2 {
                assert(head.len() > 1 && head[1] == s[1]);
            } else if s[0] == '\r' && head.len() > 1 {
                assert(head[1] == s[1]);
            }
            assert(universal(head) == (if step == 2 || s[0] == '\r' {
                seq!['\n']
            } else {
                seq![s[0]]
            }) + universal(head.skip(step)));
            assert(universal(s) =~= universal(s.take(i)) + universal(s.skip(i)));
        } else {
            // i == 1 and the text opens with CRLF: excluded by the requirement.
            assert(s[i - 1] == '\r' && s[i] == '\n');
        }
    }
}

/// Represent CRLF and bare CR as LF.
pub fn universal_newlines(text: &str) -> (r: String)
    ensures
        r@ == universal(text@),
{
    let s = chars_of(text);
    let mut r = String::new();
    let mut i: usize = 0;
    assert(universal(s@.take(0)) =~= Seq::<char>::empty()) by {
        assert(s@.take(0) =~= Seq::<char>::empty());
    }
    while i < s.len()
        invariant
            s@ == text@,
            i <= s@.len(),
            !(0 < i < s@.len() && s@[i - 1] == '\r' && s@[i as int] == '\n'),
            r@ == universal(s@.take(i as int)),
        decreases s@.len() - i,
    {
        let ghost start = i as int;
        let step: usize = if s[i] == '\r' && i + 1 < s.len() && s[i + 1] == '\n' {
            2
        } else {
            1
        };
        if s[i] == '\r' {
            push_char(&mut r, '\n');
        } else {
            push_char(&mut r, s[i]);
        }
        i = i + step;
        proof {
            let piece = s@.subrange(start, i as int);
            assert(s@.take(i as int) =~= s@.take(start) + piece);
            assert(piece[0] == s@[start]);
            if step == 2 {
                assert(piece[1] == '\n');
                assert(piece.skip(2) =~= Seq::<char>::empty());
            } else {
                assert(piece.skip(1) =~= Seq::<char>::empty());
                if s@[start] == '\r' && piece.len() > 1 {
                    assert(false);
                }
            }
            assert(universal(Seq::<char>::empty()) =~= Seq::<char>::empty());
            if 0 < start {
                assert(s@.take(i as int)[start - 1] == s@[start - 1]);
                assert(s@.take(i as int)[start] == s@[start]);
            }
            lemma_universal_split(s@.take(i as int), start);
            assert(s@.take(i as int).take(start) =~= s@.take(start));
            assert(s@.take(i as int).skip(start) =~= piece);
            if step == 1 && s@[start] == '\r' {
                assert(i == s@.len() || s@[i as int] != '\n');
            }
        }
    }
    assert(s@.take(s@.len() as int) =~= s@);
    r
}

/// A file read into the logical text seen by Python's universal-newline mode.
pub struct FileText {
    path: std::path::PathBuf,
    text: String,
}

impl FileText {
    /// The logical text.
    pub closed spec fn content(&self) -> Seq<char> {
        self.text@
    }

    /// The file the text was read from.
    pub closed spec fn origin(&self) -> std::path::PathBuf {
        self.path
    }

    /// The file's text from its bytes: decoded as UTF-8 before any of it is
    /// exposed, then with universal newlines. The path names the file in an
    /// error.
    pub fn from_bytes(path: std::path::PathBuf, bytes: &[u8]) -> (r: Result<FileText, FileError>)
        ensures
            r is Ok <==> valid_utf8(bytes@),
            r matches Ok(file) ==> file.content() == universal(decode_utf8(bytes@)) && file.origin() == path,
            r matches Err(error) ==> error is Utf8 && error->Utf8_path == path,
    {
        match decoded(bytes) {
            Ok(text) => Ok(FileText { path, text: universal_newlines(text.as_str()) }),
            Err(source) => Err(FileError::Utf8 { path, source }),
        }
    }

    /// Return the normalized logical text, including whether it ends at a line
    /// boundary.
    #[must_use]
    pub fn as_str(&self) -> (r: &str)
        ensures
            r@ == self.content(),
    {
        self.text.as_str()
    }

    /// The file this text was read from.
    pub fn path(&self) -> (r: &std::path::PathBuf)
        ensures
            *r == self.origin(),
    {
        &self.path
    }
}

/// Whether a fix operation left the bytes alone or wrote changed logical text.
#[derive(Debug, Clone, Copy, PartialEq, Eq, Structural)]
pub enum FixStatus {
    Unchanged,
    Written,
}

/// A complete file read, decode, pipeline, write, or flush failure.
#[derive(Debug)]
pub enum FileError {
    /// The file would not read.
    Read { path: std::path::PathBuf, source: std::io::Error },
    /// The file is not UTF-8.
    Utf8 { path: std::path::PathBuf, source: std::str::Utf8Error },
    /// An inline directive in it names a rule that does not exist.
    Directive { path: std::path::PathBuf, source: DirectiveError },
    /// The fixed text would not write.
    Write { path: std::path::PathBuf, source: std::io::Error },
    /// The fixed text would not flush.
    Flush { path: std::path::PathBuf, source: std::io::Error },
}

/// The same failure, naming `path` as the file.
pub fn relabel_file_error(error: FileError, path: std::path::PathBuf) -> (r: FileError)
    ensures
        r == match error {
            FileError::Read { source, .. } => FileError::Read { path, source },
            FileError::Utf8 { source, .. } => FileError::Utf8 { path, source },
            FileError::Directive { source, .. } => FileError::Directive { path, source },
            FileError::Write { source, .. } => FileError::Write { path, source },
            FileError::Flush { source, .. } => FileError::Flush { path, source },
        },
{
    match error {
        FileError::Read { source, .. } => FileError::Read { path, source },
        FileError::Utf8 { source, .. } => FileError::Utf8 { path, source },
        FileError::Directive { source, .. } => FileError::Directive { path, source },
        FileError::Write { source, .. } => FileError::Write { path, source },
        FileError::Flush { source, .. } => FileError::Flush { path, source },
    }
}

} // verus!
