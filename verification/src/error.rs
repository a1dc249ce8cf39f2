//! Errors reported by the library.
use vstd::prelude::*;
use crate::text::{dec, push_dec};

verus! {

/// What is wrong with the data.
#[derive(Clone, Copy, Debug, PartialEq, Eq)]
pub enum Detail {
    /// A fixed sentence.
    Text(&'static str),
    /// A track fragment names a track that the movie does not have.
    UnknownTrack(u32),
    /// A sample table asks for a chunk that has no offset.
    ChunkOutOfRange { chunk: u32, track: u32 },
    /// A stream index beyond the streams of the file.
    StreamOutOfRange(u32),
    /// A packet for a stream that the muxer was not given.
    UnknownStream(u32),
    /// An event message box ends before the named field starts.
    EmsgTruncatedBefore(&'static str),
    /// An event message box ends inside the named field.
    EmsgTruncated(&'static str),
    /// The named string of an event message box has no terminator.
    EmsgUnterminated(&'static str),
    /// The named string of an event message box is not UTF-8.
    EmsgNotUtf8(&'static str),
    /// An event message box of a version that has no defined layout.
    EmsgVersion(u8),
    /// The named string cannot be written, as it holds a NUL.
    EmsgInteriorNul(&'static str),
}

/// What went wrong.
#[derive(Clone, Copy, Debug, PartialEq, Eq)]
pub enum Error {
    /// The data does not follow the format, or a request does not fit it.
    InvalidData(Detail),
    /// The stream of the given index has no keyframe to seek to.
    NoKeyframe(u32),
    /// A call that the present state does not allow.
    Other(&'static str),
    /// All packets have been read.
    Eof,
}

/// A result with an error of the library.
pub type Result<T> = core::result::Result<T, Error>;

/// A result with its value taken by its view.
pub open spec fn seen<T: View>(r: Result<T>) -> Result<T::V> {
    match r {
        Ok(v) => Ok(v@),
        Err(e) => Err(e),
    }
}

/// A result with its value, where there is one, taken by its view.
pub open spec fn seen_opt<T: View>(r: Result<Option<T>>) -> Result<Option<T::V>> {
    match r {
        Ok(Some(v)) => Ok(Some(v@)),
        Ok(None) => Ok(None),
        Err(e) => Err(e),
    }
}

impl Detail {
    /// The sentence that describes this detail.
    pub open spec fn text(self) -> Seq<char> {
        match self {
            Detail::Text(s) => s@,
            Detail::UnknownTrack(id) => "MP4: tfhd refers to unknown track_ID "@ + dec(id as nat),
            Detail::ChunkOutOfRange { chunk, track } => "MP4: chunk index "@ + dec(chunk as nat)
                + " out of range (track "@ + dec(track as nat) + ")"@,
            Detail::StreamOutOfRange(i) => "MP4: stream index "@ + dec(i as nat) + " out of range"@,
            Detail::UnknownStream(i) => "mp4 muxer: unknown stream index "@ + dec(i as nat),
            Detail::EmsgTruncatedBefore(w) => "MP4 emsg: truncated before "@ + w@,
            Detail::EmsgTruncated(w) => "MP4 emsg: truncated "@ + w@,
            Detail::EmsgUnterminated(w) => "MP4 emsg: unterminated "@ + w@,
            Detail::EmsgNotUtf8(w) => "MP4 emsg: "@ + w@ + " is not valid UTF-8"@,
            Detail::EmsgVersion(v) => "MP4 emsg: undefined version "@ + dec(v as nat)
                + " (field order unknown)"@,
            Detail::EmsgInteriorNul(w) => "MP4 emsg build: "@ + w@ + " contains an interior NUL byte"@,
        }
    }

    /// Appends the sentence to `out`.
    pub fn describe(&self, out: &mut String)
        ensures
            final(out)@ == old(out)@ + self.text(),
    {
        match self {
            Detail::Text(s) => out.append(s),
            Detail::UnknownTrack(id) => {
                out.append("MP4: tfhd refers to unknown track_ID ");
                push_dec(out, *id as u64);
            },
            Detail::ChunkOutOfRange { chunk, track } => {
                out.append("MP4: chunk index ");
                push_dec(out, *chunk as u64);
                out.append(" out of range (track ");
                push_dec(out, *track as u64);
                out.append(")");
            },
            Detail::StreamOutOfRange(i) => {
                out.append("MP4: stream index ");
                push_dec(out, *i as u64);
                out.append(" out of range");
            },
            Detail::UnknownStream(i) => {
                out.append("mp4 muxer: unknown stream index ");
                push_dec(out, *i as u64);
            },
            Detail::EmsgTruncatedBefore(w) => {
                out.append("MP4 emsg: truncated before ");
                out.append(w);
            },
            Detail::EmsgTruncated(w) => {
                out.append("MP4 emsg: truncated ");
                out.append(w);
            },
            Detail::EmsgUnterminated(w) => {
                out.append("MP4 emsg: unterminated ");
                out.append(w);
            },
            Detail::EmsgNotUtf8(w) => {
                out.append("MP4 emsg: ");
                out.append(w);
                out.append(" is not valid UTF-8");
            },
            Detail::EmsgVersion(v) => {
                out.append("MP4 emsg: undefined version ");
                push_dec(out, *v as u64);
                out.append(" (field order unknown)");
            },
            Detail::EmsgInteriorNul(w) => {
                out.append("MP4 emsg build: ");
                out.append(w);
                out.append(" contains an interior NUL byte");
            },
        }
        proof {
            assert(out@ =~= old(out)@ + self.text());
        }
    }
}

impl Error {
    /// `InvalidData` with a fixed sentence.
    pub open spec fn spec_invalid(s: &'static str) -> Error {
        Error::InvalidData(Detail::Text(s))
    }

    /// `InvalidData` with a fixed sentence.
    #[verifier::when_used_as_spec(spec_invalid)]
    pub fn invalid(s: &'static str) -> (e: Error)
        ensures
            e == Error::spec_invalid(s),
    {
        Error::InvalidData(Detail::Text(s))
    }

    /// The message for people.
    pub open spec fn text(self) -> Seq<char> {
        match self {
            Error::InvalidData(d) => "invalid data: "@ + d.text(),
            Error::NoKeyframe(i) => "unsupported: MP4: no keyframes in stream "@ + dec(i as nat) + " to seek to"@,
            Error::Other(s) => s@,
            Error::Eof => "end of stream"@,
        }
    }

    /// The message for people.
    pub fn message(&self) -> (s: String)
        ensures
            s@ == self.text(),
    {
        let mut out = String::new();
        match self {
            Error::InvalidData(d) => {
                out.append("invalid data: ");
                d.describe(&mut out);
            },
            Error::NoKeyframe(i) => {
                out.append("unsupported: MP4: no keyframes in stream ");
                push_dec(&mut out, *i as u64);
                out.append(" to seek to");
            },
            Error::Other(s) => out.append(s),
            Error::Eof => out.append("end of stream"),
        }
        proof {
            assert(out@ =~= self.text());
        }
        out
    }
}

}
