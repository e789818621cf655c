//! The library's error type.

use crate::labels::UnknownPhoneme;
use vstd::prelude::*;

verus! {

/// Why labels could not be produced.
#[derive(Debug, Clone, PartialEq, Eq)]
pub enum Error {
    UnknownPhoneme(UnknownPhoneme),
    /// The engine failed to initialize.
    Init(String),
    /// Embedded engine data could not be unpacked.
    Data(String),
    /// A private voice table names a voice the engine does not know: an
    /// internal invariant violation, not bad caller input.
    UnknownVoice(String),
    /// Synthesis or a backend reply failed.
    Synth(String),
    /// Text contains a NUL byte.
    NulByte,
    /// The backend refuses to label this text rather than emit labels that
    /// silently omit part of what is spoken (e.g. Hindi text with digits).
    /// The string is a stable `reason:detail` code.
    Unlabelable(String),
    /// No G2P backend for the language.
    UnsupportedLanguage(String),
    /// An out-of-process backend could not be started or died; the message
    /// says what to install.
    Backend(String),
}

/// An [`Error`] with its texts as character sequences.
pub enum ErrorS {
    UnknownPhoneme(Seq<char>),
    Init(Seq<char>),
    Data(Seq<char>),
    UnknownVoice(Seq<char>),
    Synth(Seq<char>),
    NulByte,
    Unlabelable(Seq<char>),
    UnsupportedLanguage(Seq<char>),
    Backend(Seq<char>),
}

impl View for Error {
    type V = ErrorS;

    open spec fn view(&self) -> ErrorS {
        match self {
            Error::UnknownPhoneme(u) => ErrorS::UnknownPhoneme(u.token@),
            Error::Init(s) => ErrorS::Init(s@),
            Error::Data(s) => ErrorS::Data(s@),
            Error::UnknownVoice(s) => ErrorS::UnknownVoice(s@),
            Error::Synth(s) => ErrorS::Synth(s@),
            Error::NulByte => ErrorS::NulByte,
            Error::Unlabelable(s) => ErrorS::Unlabelable(s@),
            Error::UnsupportedLanguage(s) => ErrorS::UnsupportedLanguage(s@),
            Error::Backend(s) => ErrorS::Backend(s@),
        }
    }
}

impl Error {
    /// The human-readable message.
    pub fn message(&self) -> (r: String)
        ensures
            r@ == error_message(self@),
    {
        match self {
            Error::UnknownPhoneme(u) => crate::text::concat3("unknown phoneme ", u.token.as_str(), ""),
            Error::Init(s) => crate::text::concat3("espeak-ng failed to initialize: ", s.as_str(), ""),
            Error::Data(s) => crate::text::concat3(
                "could not unpack embedded espeak-ng data: ",
                s.as_str(),
                "",
            ),
            Error::UnknownVoice(s) => {
                let q = crate::text::debug_quoted(s.as_str());
                crate::text::concat3("espeak-ng has no voice ", q.as_str(), "")
            },
            Error::Synth(s) => crate::text::concat3("espeak-ng synthesis failed: ", s.as_str(), ""),
            Error::NulByte => crate::text::concat3("text contains a NUL byte", "", ""),
            Error::Unlabelable(s) => crate::text::concat3("cannot label this text: ", s.as_str(), ""),
            Error::UnsupportedLanguage(s) => {
                let q = crate::text::debug_quoted(s.as_str());
                crate::text::concat3("no G2P backend for language ", q.as_str(), "")
            },
            Error::Backend(s) => crate::text::concat3("G2P backend unavailable: ", s.as_str(), ""),
        }
    }
}

/// The message of an error.
pub open spec fn error_message(e: ErrorS) -> Seq<char> {
    match e {
        ErrorS::UnknownPhoneme(s) => "unknown phoneme "@ + s + ""@,
        ErrorS::Init(s) => "espeak-ng failed to initialize: "@ + s + ""@,
        ErrorS::Data(s) => "could not unpack embedded espeak-ng data: "@ + s + ""@,
        ErrorS::UnknownVoice(s) => "espeak-ng has no voice "@ + crate::text::str_debug(s) + ""@,
        ErrorS::Synth(s) => "espeak-ng synthesis failed: "@ + s + ""@,
        ErrorS::NulByte => "text contains a NUL byte"@ + ""@ + ""@,
        ErrorS::Unlabelable(s) => "cannot label this text: "@ + s + ""@,
        ErrorS::UnsupportedLanguage(s) => "no G2P backend for language "@ + crate::text::str_debug(s) + ""@,
        ErrorS::Backend(s) => "G2P backend unavailable: "@ + s + ""@,
    }
}

/// A result with its value mapped by `f` and its error by its view.
pub open spec fn result_view<T, V>(r: Result<T, Error>, f: spec_fn(T) -> V) -> Result<V, ErrorS> {
    match r {
        Ok(t) => Ok(f(t)),
        Err(e) => Err(e@),
    }
}

} // verus!
