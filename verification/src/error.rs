//! What can go wrong.

use vstd::prelude::*;

verus! {

/// The kind of an error.
#[derive(Clone, Copy, Debug, PartialEq, Eq, Structural)]
pub enum ErrorKind {
    /// The input ended too early.
    UnexpectedEof,
    /// The input is not a well formed stream.
    InvalidData,
    /// A parameter is not valid.
    InvalidInput,
    /// More memory is needed than is allowed.
    OutOfMemory,
    /// The payload reaches back further than its dictionary.
    Other,
    /// The request is not supported.
    Unsupported,
}

/// An error.
#[derive(Clone, Copy, Debug, PartialEq, Eq, Structural)]
pub enum Error {
    DictSizeTooLarge,
    InvalidPropsByte,
    InvalidLcLp,
    InvalidLcLpPb,
    MemoryLimit,
    FirstByteNotZero,
    DistOverflow,
    NotTerminated,
    EndNotFinished,
    PastCompressedSize,
    Truncated,
    UnexpectedEnd,
    AlreadyFailed,
    NotInitialized,
    FiltersAfterStart,
    TooManyFilters,
    NotAPreFilter,
    FilterProperty,
}

impl Error {
    pub open spec fn spec_kind(self) -> ErrorKind {
        match self {
            Error::DictSizeTooLarge => ErrorKind::InvalidInput,
            Error::InvalidPropsByte => ErrorKind::InvalidInput,
            Error::InvalidLcLp => ErrorKind::InvalidInput,
            Error::InvalidLcLpPb => ErrorKind::InvalidInput,
            Error::MemoryLimit => ErrorKind::OutOfMemory,
            Error::FirstByteNotZero => ErrorKind::InvalidInput,
            Error::DistOverflow => ErrorKind::Other,
            Error::NotTerminated => ErrorKind::InvalidData,
            Error::EndNotFinished => ErrorKind::InvalidData,
            Error::PastCompressedSize => ErrorKind::InvalidData,
            Error::Truncated => ErrorKind::UnexpectedEof,
            Error::UnexpectedEnd => ErrorKind::UnexpectedEof,
            Error::AlreadyFailed => ErrorKind::InvalidData,
            Error::NotInitialized => ErrorKind::InvalidData,
            Error::FiltersAfterStart => ErrorKind::InvalidInput,
            Error::TooManyFilters => ErrorKind::Unsupported,
            Error::NotAPreFilter => ErrorKind::Unsupported,
            Error::FilterProperty => ErrorKind::InvalidInput,
        }
    }

    /// The kind of the error.
    pub fn kind(self) -> (k: ErrorKind)
        ensures
            k == self.spec_kind(),
    {
        match self {
            Error::DictSizeTooLarge => ErrorKind::InvalidInput,
            Error::InvalidPropsByte => ErrorKind::InvalidInput,
            Error::InvalidLcLp => ErrorKind::InvalidInput,
            Error::InvalidLcLpPb => ErrorKind::InvalidInput,
            Error::MemoryLimit => ErrorKind::OutOfMemory,
            Error::FirstByteNotZero => ErrorKind::InvalidInput,
            Error::DistOverflow => ErrorKind::Other,
            Error::NotTerminated => ErrorKind::InvalidData,
            Error::EndNotFinished => ErrorKind::InvalidData,
            Error::PastCompressedSize => ErrorKind::InvalidData,
            Error::Truncated => ErrorKind::UnexpectedEof,
            Error::UnexpectedEnd => ErrorKind::UnexpectedEof,
            Error::AlreadyFailed => ErrorKind::InvalidData,
            Error::NotInitialized => ErrorKind::InvalidData,
            Error::FiltersAfterStart => ErrorKind::InvalidInput,
            Error::TooManyFilters => ErrorKind::Unsupported,
            Error::NotAPreFilter => ErrorKind::Unsupported,
            Error::FilterProperty => ErrorKind::InvalidInput,
        }
    }

    pub open spec fn spec_message(self) -> Seq<char> {
        match self {
            Error::DictSizeTooLarge => "dict size too large"@,
            Error::InvalidPropsByte => "invalid props byte"@,
            Error::InvalidLcLp => "invalid lc or lp"@,
            Error::InvalidLcLpPb => "invalid lc or lp or pb"@,
            Error::MemoryLimit => "needed memory too big for mem_limit_kb"@,
            Error::FirstByteNotZero => "range decoder first byte is not zero"@,
            Error::DistOverflow => "dist overflow"@,
            Error::NotTerminated => "LZMA stream not properly terminated"@,
            Error::EndNotFinished => "end reached but not decoder finished"@,
            Error::PastCompressedSize => "LZMA symbol runs past the compressed size"@,
            Error::Truncated => "truncated LZMA stream"@,
            Error::UnexpectedEnd => "unexpected end of LZMA stream"@,
            Error::AlreadyFailed => "LZMA stream already failed"@,
            Error::NotInitialized => "LZMA decoder not initialized"@,
            Error::FiltersAfterStart => "filters set after decoding started"@,
            Error::TooManyFilters => "only one filter is supported"@,
            Error::NotAPreFilter => "filter is not a pre-filter"@,
            Error::FilterProperty => "invalid filter property"@,
        }
    }

    /// What the error says.
    pub fn message(self) -> (s: &'static str)
        ensures
            s@ == self.spec_message(),
    {
        match self {
            Error::DictSizeTooLarge => "dict size too large",
            Error::InvalidPropsByte => "invalid props byte",
            Error::InvalidLcLp => "invalid lc or lp",
            Error::InvalidLcLpPb => "invalid lc or lp or pb",
            Error::MemoryLimit => "needed memory too big for mem_limit_kb",
            Error::FirstByteNotZero => "range decoder first byte is not zero",
            Error::DistOverflow => "dist overflow",
            Error::NotTerminated => "LZMA stream not properly terminated",
            Error::EndNotFinished => "end reached but not decoder finished",
            Error::PastCompressedSize => "LZMA symbol runs past the compressed size",
            Error::Truncated => "truncated LZMA stream",
            Error::UnexpectedEnd => "unexpected end of LZMA stream",
            Error::AlreadyFailed => "LZMA stream already failed",
            Error::NotInitialized => "LZMA decoder not initialized",
            Error::FiltersAfterStart => "filters set after decoding started",
            Error::TooManyFilters => "only one filter is supported",
            Error::NotAPreFilter => "filter is not a pre-filter",
            Error::FilterProperty => "invalid filter property",
        }
    }
}

/// Which errors are of which kind: those that more input could have kept away, those
/// that more memory could have, those of parameters, those of what is not supported,
/// and those of the data, of which a copy from too far back has no kind of its own.
pub proof fn lemma_error_kinds(e: Error)
    ensures
        e.spec_kind() == ErrorKind::UnexpectedEof <==> e is Truncated || e is UnexpectedEnd,
        e.spec_kind() == ErrorKind::OutOfMemory <==> e is MemoryLimit,
        e.spec_kind() == ErrorKind::Other <==> e is DistOverflow,
        e.spec_kind() == ErrorKind::Unsupported <==> e is TooManyFilters || e is NotAPreFilter,
        e.spec_kind() == ErrorKind::InvalidData <==> e is NotTerminated || e is EndNotFinished || e
            is PastCompressedSize || e is AlreadyFailed || e is NotInitialized,
        e.spec_kind() == ErrorKind::InvalidInput <==> e is DictSizeTooLarge || e is InvalidPropsByte
            || e is InvalidLcLp || e is InvalidLcLpPb || e is FirstByteNotZero || e
            is FiltersAfterStart || e is FilterProperty,
{
}

/// How long a message is, and how it begins.
spec fn shape(e: Error) -> (int, char) {
    match e {
        Error::DictSizeTooLarge => (19, 'd'),
        Error::InvalidPropsByte => (18, 'i'),
        Error::InvalidLcLp => (16, 'i'),
        Error::InvalidLcLpPb => (22, 'i'),
        Error::MemoryLimit => (38, 'n'),
        Error::FirstByteNotZero => (36, 'r'),
        Error::DistOverflow => (13, 'd'),
        Error::NotTerminated => (35, 'L'),
        Error::EndNotFinished => (36, 'e'),
        Error::PastCompressedSize => (41, 'L'),
        Error::Truncated => (21, 't'),
        Error::UnexpectedEnd => (29, 'u'),
        Error::AlreadyFailed => (26, 'L'),
        Error::NotInitialized => (28, 'L'),
        Error::FiltersAfterStart => (34, 'f'),
        Error::TooManyFilters => (28, 'o'),
        Error::NotAPreFilter => (26, 'f'),
        Error::FilterProperty => (23, 'i'),
    }
}

proof fn lemma_shape(e: Error)
    ensures
        e.spec_message().len() == shape(e).0,
        e.spec_message()[0] == shape(e).1,
{
    match e {
        Error::DictSizeTooLarge => {
            reveal_strlit("dict size too large");
        },
        Error::InvalidPropsByte => {
            reveal_strlit("invalid props byte");
        },
        Error::InvalidLcLp => {
            reveal_strlit("invalid lc or lp");
        },
        Error::InvalidLcLpPb => {
            reveal_strlit("invalid lc or lp or pb");
        },
        Error::MemoryLimit => {
            reveal_strlit("needed memory too big for mem_limit_kb");
        },
        Error::FirstByteNotZero => {
            reveal_strlit("range decoder first byte is not zero");
        },
        Error::DistOverflow => {
            reveal_strlit("dist overflow");
        },
        Error::NotTerminated => {
            reveal_strlit("LZMA stream not properly terminated");
        },
        Error::EndNotFinished => {
            reveal_strlit("end reached but not decoder finished");
        },
        Error::PastCompressedSize => {
            reveal_strlit("LZMA symbol runs past the compressed size");
        },
        Error::Truncated => {
            reveal_strlit("truncated LZMA stream");
        },
        Error::UnexpectedEnd => {
            reveal_strlit("unexpected end of LZMA stream");
        },
        Error::AlreadyFailed => {
            reveal_strlit("LZMA stream already failed");
        },
        Error::NotInitialized => {
            reveal_strlit("LZMA decoder not initialized");
        },
        Error::FiltersAfterStart => {
            reveal_strlit("filters set after decoding started");
        },
        Error::TooManyFilters => {
            reveal_strlit("only one filter is supported");
        },
        Error::NotAPreFilter => {
            reveal_strlit("filter is not a pre-filter");
        },
        Error::FilterProperty => {
            reveal_strlit("invalid filter property");
        },
    }
}

/// No two errors say the same.
pub proof fn lemma_messages_differ(a: Error, b: Error)
    requires
        a != b,
    ensures
        a.spec_message() != b.spec_message(),
{
    lemma_shape(a);
    lemma_shape(b);
}

/// What is said is said of one error each.
pub proof fn lemma_messages(e: Error)
    ensures
        e is DictSizeTooLarge <==> e.spec_message() == "dict size too large"@,
        e is InvalidPropsByte <==> e.spec_message() == "invalid props byte"@,
        e is InvalidLcLp <==> e.spec_message() == "invalid lc or lp"@,
        e is InvalidLcLpPb <==> e.spec_message() == "invalid lc or lp or pb"@,
        e is MemoryLimit <==> e.spec_message() == "needed memory too big for mem_limit_kb"@,
        e is FirstByteNotZero <==> e.spec_message() == "range decoder first byte is not zero"@,
        e is DistOverflow <==> e.spec_message() == "dist overflow"@,
        e is NotTerminated <==> e.spec_message() == "LZMA stream not properly terminated"@,
        e is EndNotFinished <==> e.spec_message() == "end reached but not decoder finished"@,
        e is PastCompressedSize <==> e.spec_message() == "LZMA symbol runs past the compressed size"@,
        e is Truncated <==> e.spec_message() == "truncated LZMA stream"@,
        e is UnexpectedEnd <==> e.spec_message() == "unexpected end of LZMA stream"@,
        e is AlreadyFailed <==> e.spec_message() == "LZMA stream already failed"@,
        e is NotInitialized <==> e.spec_message() == "LZMA decoder not initialized"@,
        e is FiltersAfterStart <==> e.spec_message() == "filters set after decoding started"@,
        e is TooManyFilters <==> e.spec_message() == "only one filter is supported"@,
        e is NotAPreFilter <==> e.spec_message() == "filter is not a pre-filter"@,
        e is FilterProperty <==> e.spec_message() == "invalid filter property"@,
{
    lemma_shape(e);
    lemma_shape(Error::DictSizeTooLarge);
    lemma_shape(Error::InvalidPropsByte);
    lemma_shape(Error::InvalidLcLp);
    lemma_shape(Error::InvalidLcLpPb);
    lemma_shape(Error::MemoryLimit);
    lemma_shape(Error::FirstByteNotZero);
    lemma_shape(Error::DistOverflow);
    lemma_shape(Error::NotTerminated);
    lemma_shape(Error::EndNotFinished);
    lemma_shape(Error::PastCompressedSize);
    lemma_shape(Error::Truncated);
    lemma_shape(Error::UnexpectedEnd);
    lemma_shape(Error::AlreadyFailed);
    lemma_shape(Error::NotInitialized);
    lemma_shape(Error::FiltersAfterStart);
    lemma_shape(Error::TooManyFilters);
    lemma_shape(Error::NotAPreFilter);
    lemma_shape(Error::FilterProperty);
}

} // verus!
