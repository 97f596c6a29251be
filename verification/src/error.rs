use vstd::prelude::*;

verus! {

/// The kind of an input/output failure.
#[derive(Debug, Clone, Copy, PartialEq, Eq, Structural)]
pub enum IoErrorKind {
    /// A read needed more bytes than the source held.
    UnexpectedEof,
    /// Any other failure of the underlying storage.
    Other,
}

/// Every error that an operation of the database can report.
#[derive(Debug, Clone)]
pub enum DbError {
    Io(IoErrorKind),
    KeyNotFound,
    NodeFull,
    InvalidPageType(u8),
    KeySizeExceeded(usize, usize),
    ValueSizeExceed(usize, usize),
    InvalidFormat(String),
    InvalidRecord(String),
}

pub type DbResult<T> = Result<T, DbError>;

/// An error as a mathematical value: messages are character sequences.
pub enum DbErrorView {
    Io(IoErrorKind),
    KeyNotFound,
    NodeFull,
    InvalidPageType(u8),
    KeySizeExceeded(usize, usize),
    ValueSizeExceed(usize, usize),
    InvalidFormat(Seq<char>),
    InvalidRecord(Seq<char>),
}

impl View for DbError {
    type V = DbErrorView;

    open spec fn view(&self) -> DbErrorView {
        match self {
            DbError::Io(k) => DbErrorView::Io(*k),
            DbError::KeyNotFound => DbErrorView::KeyNotFound,
            DbError::NodeFull => DbErrorView::NodeFull,
            DbError::InvalidPageType(b) => DbErrorView::InvalidPageType(*b),
            DbError::KeySizeExceeded(a, b) => DbErrorView::KeySizeExceeded(*a, *b),
            DbError::ValueSizeExceed(a, b) => DbErrorView::ValueSizeExceed(*a, *b),
            DbError::InvalidFormat(m) => DbErrorView::InvalidFormat(m@),
            DbError::InvalidRecord(m) => DbErrorView::InvalidRecord(m@),
        }
    }
}

/// What a decoder gives: a value and the number of bytes it took, or an error.
pub type Decoded<V> = Result<(V, nat), DbErrorView>;

/// `acc` and `k` bytes in front of what `d` decoded.
pub open spec fn after_prefix<T>(acc: Seq<T>, k: nat, d: Decoded<Seq<T>>) -> Decoded<Seq<T>> {
    match d {
        Ok((vs, m)) => Ok((acc + vs, k + m)),
        Err(e) => Err(e),
    }
}

/// The error of a read that ran past the end of its input.
pub open spec fn eof() -> DbError {
    DbError::Io(IoErrorKind::UnexpectedEof)
}

pub fn eof_error() -> (e: DbError)
    ensures
        e == eof(),
{
    DbError::Io(IoErrorKind::UnexpectedEof)
}

} // verus!
