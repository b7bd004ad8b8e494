//! Namespace errors and the text that each error displays as.

use vstd::prelude::*;
use crate::codec::CodecError;
use crate::path::{PathError, PathErr};
use crate::storage::StorageError;
use crate::fmt::{decimal, hex2, push_decimal, push_hex2};

verus! {

#[derive(Debug, PartialEq, Eq)]
pub enum NsError {
    Path(PathError),
    Codec(String),
    Storage(String),
    NotFound(String),
    AlreadyExists(String),
    NotDirectory(String),
    IsDirectory(String),
    ParentMissing(String),
    TypeMismatch(String),
    Invalid(String),
}

/// Model of a namespace error.
pub enum NsErr {
    Path(PathErr),
    Codec(Seq<char>),
    Storage(Seq<char>),
    NotFound(Seq<char>),
    AlreadyExists(Seq<char>),
    NotDirectory(Seq<char>),
    IsDirectory(Seq<char>),
    ParentMissing(Seq<char>),
    TypeMismatch(Seq<char>),
    Invalid(Seq<char>),
}

impl NsError {
    pub open spec fn model(&self) -> NsErr {
        match self {
            NsError::Path(e) => NsErr::Path(e.model()),
            NsError::Codec(s) => NsErr::Codec(s@),
            NsError::Storage(s) => NsErr::Storage(s@),
            NsError::NotFound(s) => NsErr::NotFound(s@),
            NsError::AlreadyExists(s) => NsErr::AlreadyExists(s@),
            NsError::NotDirectory(s) => NsErr::NotDirectory(s@),
            NsError::IsDirectory(s) => NsErr::IsDirectory(s@),
            NsError::ParentMissing(s) => NsErr::ParentMissing(s@),
            NsError::TypeMismatch(s) => NsErr::TypeMismatch(s@),
            NsError::Invalid(s) => NsErr::Invalid(s@),
        }
    }
}

/// A result that failed in the storage layer.
pub open spec fn storage_failed<T>(r: Result<T, NsError>) -> bool {
    r matches Err(NsError::Storage(_))
}

pub fn text(s: &str) -> (r: String)
    ensures
        r@ == s@,
{
    s.to_owned()
}

fn text2(a: &str, b: &str) -> (r: String)
    ensures
        r@ == a@ + b@,
{
    let mut r = a.to_owned();
    r.append(b);
    r
}

fn text3(a: &str, b: &str, c: &str) -> (r: String)
    ensures
        r@ == a@ + b@ + c@,
{
    let mut r = a.to_owned();
    r.append(b);
    r.append(c);
    r
}

// ---------------------------------------------------------------------------
// Codec errors

pub open spec fn codec_message(e: CodecError) -> Seq<char> {
    match e {
        CodecError::EmptyInput => "empty input"@,
        CodecError::UnsupportedVersion(v) => "unsupported codec version "@ + decimal(v as nat),
        CodecError::UnexpectedEof => "unexpected end of input"@,
        CodecError::UnknownTag(t) => "unknown value tag 0x"@ + hex2(t),
        CodecError::InvalidUtf8 => "invalid UTF-8 in string"@,
        CodecError::InvalidBool(b) => "invalid bool byte "@ + decimal(b as nat),
        CodecError::TrailingBytes => "trailing bytes after value"@,
        CodecError::DuplicateSetMember => "duplicate set member"@,
    }
}

impl CodecError {
    /// The text this error displays as.
    pub fn message(&self) -> (s: String)
        ensures
            s@ == codec_message(*self),
    {
        match self {
            CodecError::EmptyInput => text("empty input"),
            CodecError::UnsupportedVersion(v) => {
                let mut s = text("unsupported codec version ");
                push_decimal(&mut s, *v as u64);
                s
            },
            CodecError::UnexpectedEof => text("unexpected end of input"),
            CodecError::UnknownTag(t) => {
                let mut s = text("unknown value tag 0x");
                push_hex2(&mut s, *t);
                s
            },
            CodecError::InvalidUtf8 => text("invalid UTF-8 in string"),
            CodecError::InvalidBool(b) => {
                let mut s = text("invalid bool byte ");
                push_decimal(&mut s, *b as u64);
                s
            },
            CodecError::TrailingBytes => text("trailing bytes after value"),
            CodecError::DuplicateSetMember => text("duplicate set member"),
        }
    }
}

// ---------------------------------------------------------------------------
// Path errors

pub open spec fn path_message(e: PathErr) -> Seq<char> {
    match e {
        PathErr::Empty => "empty path"@,
        PathErr::NotAbsolute => "path must be absolute (start with /)"@,
        PathErr::EmptySegment => "path contains an empty segment"@,
        PathErr::ForbiddenSegment(s) => "path segment '"@ + s + "' is forbidden (. and .. are not stored)"@,
        PathErr::InvalidUtf8 => "path is not valid UTF-8"@,
    }
}

impl PathError {
    /// The text this error displays as.
    pub fn message(&self) -> (s: String)
        ensures
            s@ == path_message(self.model()),
    {
        match self {
            PathError::Empty => text("empty path"),
            PathError::NotAbsolute => text("path must be absolute (start with /)"),
            PathError::EmptySegment => text("path contains an empty segment"),
            PathError::ForbiddenSegment(seg) => text3(
                "path segment '",
                seg.as_str(),
                "' is forbidden (. and .. are not stored)",
            ),
            PathError::InvalidUtf8 => text("path is not valid UTF-8"),
        }
    }

    /// A copy of this error.
    pub fn clone_error(&self) -> (r: PathError)
        ensures
            r.model() == self.model(),
    {
        match self {
            PathError::Empty => PathError::Empty,
            PathError::NotAbsolute => PathError::NotAbsolute,
            PathError::EmptySegment => PathError::EmptySegment,
            PathError::ForbiddenSegment(s) => PathError::ForbiddenSegment(s.clone()),
            PathError::InvalidUtf8 => PathError::InvalidUtf8,
        }
    }
}

// ---------------------------------------------------------------------------
// Storage errors

pub open spec fn storage_message(e: &StorageError) -> Seq<char> {
    match e {
        StorageError::Io(m) => "storage i/o: "@ + m@,
        StorageError::Corrupt(m) => "storage corrupt: "@ + m@,
        StorageError::Internal(m) => "storage internal: "@ + m@,
    }
}

impl StorageError {
    /// The text this error displays as.
    pub fn message(&self) -> (s: String)
        ensures
            s@ == storage_message(self),
    {
        match self {
            StorageError::Io(m) => text2("storage i/o: ", m.as_str()),
            StorageError::Corrupt(m) => text2("storage corrupt: ", m.as_str()),
            StorageError::Internal(m) => text2("storage internal: ", m.as_str()),
        }
    }
}

// ---------------------------------------------------------------------------
// Namespace errors

pub open spec fn ns_message(e: NsErr) -> Seq<char> {
    match e {
        NsErr::Path(p) => path_message(p),
        NsErr::Codec(m) => "codec: "@ + m,
        NsErr::Storage(m) => "storage: "@ + m,
        NsErr::NotFound(p) => "not found: "@ + p,
        NsErr::AlreadyExists(p) => "already exists: "@ + p,
        NsErr::NotDirectory(p) => "not a directory: "@ + p,
        NsErr::IsDirectory(p) => "is a directory: "@ + p,
        NsErr::ParentMissing(p) => "parent missing: "@ + p,
        NsErr::TypeMismatch(m) => "type mismatch: "@ + m,
        NsErr::Invalid(m) => "invalid: "@ + m,
    }
}

impl NsError {
    /// The text this error displays as.
    pub fn message(&self) -> (s: String)
        ensures
            s@ == ns_message(self.model()),
    {
        match self {
            NsError::Path(e) => e.message(),
            NsError::Codec(m) => text2("codec: ", m.as_str()),
            NsError::Storage(m) => text2("storage: ", m.as_str()),
            NsError::NotFound(p) => text2("not found: ", p.as_str()),
            NsError::AlreadyExists(p) => text2("already exists: ", p.as_str()),
            NsError::NotDirectory(p) => text2("not a directory: ", p.as_str()),
            NsError::IsDirectory(p) => text2("is a directory: ", p.as_str()),
            NsError::ParentMissing(p) => text2("parent missing: ", p.as_str()),
            NsError::TypeMismatch(m) => text2("type mismatch: ", m.as_str()),
            NsError::Invalid(m) => text2("invalid: ", m.as_str()),
        }
    }

    /// The error for a path that did not parse.
    pub fn from_path(e: PathError) -> (r: NsError)
        ensures
            r.model() == NsErr::Path(e.model()),
    {
        NsError::Path(e)
    }

    /// The error for a value that did not decode.
    pub fn from_codec(e: CodecError) -> (r: NsError)
        ensures
            r.model() == NsErr::Codec(codec_message(e)),
    {
        NsError::Codec(e.message())
    }

    /// The error for a failed storage operation.
    pub fn from_storage(e: StorageError) -> (r: NsError)
        ensures
            r.model() == NsErr::Storage(storage_message(&e)),
    {
        NsError::Storage(e.message())
    }
}

} // verus!
