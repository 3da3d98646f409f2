//! What can go wrong, and its mathematical view.
use vstd::prelude::*;
use vstd::string::*;
use crate::text;
use crate::text::push_dec;

verus! {

/// The operating system's I/O error, carried through untouched.
#[verifier::external_type_specification]
#[verifier::external_body]
pub struct ExIoError(std::io::Error);

#[derive(Debug)]
pub enum Error {
    Io(std::io::Error),
    BadMagic,
    /// Seal verification failed: the block's hash does not match BLAKE3 of its body.
    Seal,
    /// Structural corruption: misplaced entry, foreign schema, missing fields, broken chain, or
    /// geometry violations. Classification maps this to Corrupt and trusts no byte of the block.
    Corrupt(String),
    /// Read-back verification failed after a write, even after a retry.
    Verify(u64),
    /// Block address beyond its bounds.
    Bounds(u64),
    /// The write cursor reached the rollback fence: generations must be committed first.
    Fenced(u64),
    /// No dead space for the append: the tract is full (grow or refuse).
    TractFull,
    /// A record's keyed hash does not match its bytes.
    Hmac,
    /// A record file of another format version.
    UnsupportedVersion(u32),
}

/// The mathematical view of an error: which one, and its numbers and words. Which I/O error it
/// was is the device's to say.
pub enum ErrorView {
    Io,
    BadMagic,
    Seal,
    Corrupt(Seq<char>),
    Verify(u64),
    Bounds(u64),
    Fenced(u64),
    TractFull,
    Hmac,
    UnsupportedVersion(u32),
}

impl View for Error {
    type V = ErrorView;

    open spec fn view(&self) -> ErrorView {
        match self {
            Error::Io(_) => ErrorView::Io,
            Error::BadMagic => ErrorView::BadMagic,
            Error::Seal => ErrorView::Seal,
            Error::Corrupt(s) => ErrorView::Corrupt(s@),
            Error::Verify(l) => ErrorView::Verify(*l),
            Error::Bounds(l) => ErrorView::Bounds(*l),
            Error::Fenced(w) => ErrorView::Fenced(*w),
            Error::TractFull => ErrorView::TractFull,
            Error::Hmac => ErrorView::Hmac,
            Error::UnsupportedVersion(v) => ErrorView::UnsupportedVersion(*v),
        }
    }
}

impl From<std::io::Error> for Error {
    fn from(e: std::io::Error) -> (r: Self) {
        Error::Io(e)
    }
}

impl vstd::std_specs::convert::FromSpecImpl<std::io::Error> for Error {
    open spec fn obeys_from_spec() -> bool {
        true
    }

    open spec fn from_spec(e: std::io::Error) -> Self {
        Error::Io(e)
    }
}

pub type Result<T> = std::result::Result<T, Error>;

/// A corruption error with a fixed message.
pub open spec fn corrupt(s: &str) -> ErrorView {
    ErrorView::Corrupt(s@)
}

/// Builds a corruption error with a fixed message.
pub(crate) fn corrupt_err(s: &str) -> (e: Error)
    ensures
        e@ == corrupt(s),
{
    Error::Corrupt(s.to_owned())
}

/// Builds a corruption error whose message is `a`, the number `n`, then `b`.
pub(crate) fn corrupt_num(a: &str, n: u64, b: &str) -> (e: Error)
    ensures
        e@ == ErrorView::Corrupt(a@ + text::dec(n as nat) + b@),
{
    let mut s = a.to_owned();
    push_dec(&mut s, n);
    s.append(b);
    Error::Corrupt(s)
}

/// Builds a corruption error whose message is `a`, `n`, `b`, `m`, then `c`.
pub(crate) fn corrupt_num2(a: &str, n: u64, b: &str, m: u64, c: &str) -> (e: Error)
    ensures
        e@ == ErrorView::Corrupt(a@ + text::dec(n as nat) + b@ + text::dec(m as nat) + c@),
{
    let mut s = a.to_owned();
    push_dec(&mut s, n);
    s.append(b);
    push_dec(&mut s, m);
    s.append(c);
    Error::Corrupt(s)
}

/// The words an error is reported with; `io` is how the system words an I/O error.
pub open spec fn error_words(e: ErrorView, io: Seq<char>) -> Seq<char> {
    match e {
        ErrorView::Io => "I/O: "@ + io,
        ErrorView::BadMagic => "not a custodes file (bad magic)"@,
        ErrorView::Seal => "seal verification failed"@,
        ErrorView::Corrupt(s) => "corrupt: "@ + s,
        ErrorView::Verify(l) => "write verification failed at block "@ + text::dec(l as nat),
        ErrorView::Bounds(l) => "block "@ + text::dec(l as nat) + " out of device bounds"@,
        ErrorView::Fenced(w) => "rollback fence reached at plow "@ + text::dec(w as nat),
        ErrorView::TractFull => "tract full — no dead space in a full lap"@,
        ErrorView::Hmac => "record authentication failed"@,
        ErrorView::UnsupportedVersion(v) => "unsupported format version "@ + text::dec(v as nat),
    }
}

impl Error {
    /// The words this error is reported with, given how the system words an I/O error.
    pub fn words(&self, io: &str) -> (s: String)
        ensures
            s@ == error_words(self@, io@),
    {
        match self {
            Error::Io(_) => {
                let mut s = "I/O: ".to_owned();
                s.append(io);
                s
            },
            Error::BadMagic => "not a custodes file (bad magic)".to_owned(),
            Error::Seal => "seal verification failed".to_owned(),
            Error::Corrupt(t) => {
                let mut s = "corrupt: ".to_owned();
                s.append(t.as_str());
                s
            },
            Error::Verify(l) => {
                let mut s = "write verification failed at block ".to_owned();
                push_dec(&mut s, *l);
                s
            },
            Error::Bounds(l) => {
                let mut s = "block ".to_owned();
                push_dec(&mut s, *l);
                s.append(" out of device bounds");
                s
            },
            Error::Fenced(w) => {
                let mut s = "rollback fence reached at plow ".to_owned();
                push_dec(&mut s, *w);
                s
            },
            Error::TractFull => "tract full — no dead space in a full lap".to_owned(),
            Error::Hmac => "record authentication failed".to_owned(),
            Error::UnsupportedVersion(v) => {
                let mut s = "unsupported format version ".to_owned();
                push_dec(&mut s, *v as u64);
                s
            },
        }
    }
}

/// Law: an error is worded with the block, the plow or the version that it is about, and a corruption or an I/O
/// error with what is said of it.
pub proof fn law_error_says_what_it_is_about(n: u64, v: u32, s: Seq<char>, io: Seq<char>)
    ensures
        error_words(ErrorView::Corrupt(s), io) == "corrupt: "@ + s,
        error_words(ErrorView::Io, io) == "I/O: "@ + io,
        error_words(ErrorView::Verify(n), io) == "write verification failed at block "@ + text::dec(
            n as nat,
        ),
        error_words(ErrorView::Bounds(n), io) == "block "@ + text::dec(n as nat)
            + " out of device bounds"@,
        error_words(ErrorView::Fenced(n), io) == "rollback fence reached at plow "@ + text::dec(
            n as nat,
        ),
        error_words(ErrorView::UnsupportedVersion(v), io) == "unsupported format version "@
            + text::dec(v as nat),
{
}

}
