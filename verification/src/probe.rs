//! The codec classifier: what a probe of a media file reported, and whether
//! the file has to be converted.
//!
//! The probe itself is an external tool. Its caller hands over what the tool
//! printed, one value per line and the codec name of the first stream on the
//! first line; the functions here read the codec label from that text.

use vstd::prelude::*;
use crate::text::chars_of;

verus! {

/// What a probe of one file came back with.
#[derive(Debug)]
pub enum ProbeReport {
    /// The tool ran; this is what it printed.
    Output(String),
    /// The tool could not be run, or did not finish in time.
    Unavailable,
}

/// Why a file could not be classified.
#[derive(Clone, Copy, Debug, PartialEq, Eq, Structural)]
pub enum ProbeError {
    /// The probe did not run.
    Unavailable,
    /// The probe ran and reported no stream.
    NoStream,
}

/// The number of characters of `text` in front of its first line feed.
pub open spec fn line_length(text: Seq<char>) -> int
    decreases text.len(),
{
    if text.len() == 0 || text[0] == '\n' {
        0
    } else {
        1 + line_length(text.drop_first())
    }
}

/// The first line of `text`, without its line ending: a line feed, or a
/// carriage return and a line feed. A last line that no line feed ends keeps
/// a carriage return at its end.
pub open spec fn first_line(text: Seq<char>) -> Seq<char> {
    let n = line_length(text);
    if 0 < n < text.len() && text[n - 1] == '\r' {
        text.take(n - 1)
    } else {
        text.take(n)
    }
}

/// The codec label that a probe's output gives: its first line, where that
/// line is not empty.
pub open spec fn codec_label(text: Seq<char>) -> Option<Seq<char>> {
    if first_line(text).len() == 0 {
        None
    } else {
        Some(first_line(text))
    }
}

/// The codec that has to be converted.
pub open spec fn source_codec() -> Seq<char> {
    seq!['h', '2', '6', '4']
}

/// What classifying a report gives: the label, or the reason there is none.
pub open spec fn classified(report: ProbeReport) -> Result<Seq<char>, ProbeError> {
    match report {
        ProbeReport::Unavailable => Err(ProbeError::Unavailable),
        ProbeReport::Output(text) => match codec_label(text@) {
            Some(label) => Ok(label),
            None => Err(ProbeError::NoStream),
        },
    }
}

/// A file becomes a job exactly when its probe names the source codec.
pub open spec fn wants_conversion(report: ProbeReport) -> bool {
    classified(report) == Ok::<Seq<char>, ProbeError>(source_codec())
}

/// A text that has no line feed among its first `i` characters has a first
/// line of `i` characters and whatever the rest adds.
pub proof fn lemma_line_length_skip(text: Seq<char>, i: int)
    requires
        0 <= i <= text.len(),
        forall|j: int| 0 <= j < i ==> text[j] != '\n',
    ensures
        line_length(text) == i + line_length(text.skip(i)),
    decreases i,
{
    if i == 0 {
        assert(text.skip(0) =~= text);
    } else {
        let rest = text.drop_first();
        assert forall|j: int| 0 <= j < i - 1 implies rest[j] != '\n' by {
            assert(rest[j] == text[j + 1]);
        }
        lemma_line_length_skip(rest, i - 1);
        assert(rest.skip(i - 1) =~= text.skip(i));
    }
}

/// Reads the codec label from what a probe printed.
pub fn parse_label(text: &str) -> (out: Option<String>)
    ensures
        codec_label(text@) == match out {
            Some(label) => Some(label@),
            None => None::<Seq<char>>,
        },
{
    let cs = chars_of(text);
    let mut n: usize = 0;
    while n < cs.len() && cs[n] != '\n'
        invariant
            n <= cs.len(),
            cs@ == text@,
            forall|j: int| 0 <= j < n ==> text@[j] != '\n',
        decreases cs.len() - n,
    {
        n += 1;
    }
    proof {
        lemma_line_length_skip(text@, n as int);
        if n < cs.len() {
            assert(text@.skip(n as int)[0] == '\n');
        }
        assert(line_length(text@) == n);
    }
    let end = if 0 < n && n < cs.len() && cs[n - 1] == '\r' {
        n - 1
    } else {
        n
    };
    if end == 0 {
        None
    } else {
        let line = text.substring_char(0, end);
        assert(line@ =~= first_line(text@));
        Some(String::from_str(line))
    }
}

/// Classifies a file by the report of its probe.
pub fn classify(report: &ProbeReport) -> (out: Result<String, ProbeError>)
    ensures
        classified(*report) == match out {
            Ok(label) => Ok::<Seq<char>, ProbeError>(label@),
            Err(error) => Err::<Seq<char>, ProbeError>(error),
        },
{
    match report {
        ProbeReport::Unavailable => Err(ProbeError::Unavailable),
        ProbeReport::Output(text) => match parse_label(text.as_str()) {
            Some(label) => Ok(label),
            None => Err(ProbeError::NoStream),
        },
    }
}

/// Whether a file with this codec label has to be converted.
pub fn needs_conversion(label: &str) -> (out: bool)
    ensures
        out == (label@ == source_codec()),
{
    let cs = chars_of(label);
    let out = cs.len() == 4 && cs[0] == 'h' && cs[1] == '2' && cs[2] == '6' && cs[3] == '4';
    assert(out == (label@ =~= source_codec()));
    out
}

} // verus!
