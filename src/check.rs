//! Check mode: one checkfile line against the digest found for its file.

use vstd::prelude::*;
use vstd::string::*;
use crate::codec::{CheckLineError, ParsedCheckLine};
use crate::pipeline::{digests_equal, OUT_LEN};

verus! {

/// The message that reports a refused checkfile line.
pub open spec fn error_text(e: CheckLineError) -> Seq<char> {
    match e {
        CheckLineError::EmptyLine => "Empty line"@,
        CheckLineError::ShortLine => "Short line"@,
        CheckLineError::NonAsciiPrefix => "Non-ASCII prefix"@,
        CheckLineError::InvalidSpace => "Invalid space"@,
        CheckLineError::InvalidHex => "Invalid hex"@,
        CheckLineError::InvalidEscape => "Invalid backslash escape"@,
        CheckLineError::NullCharacter => "Null character in path"@,
        CheckLineError::ReplacementCharacter => "Unicode replacement character in path"@,
        CheckLineError::Backslash => "Backslash in path"@,
    }
}

impl CheckLineError {
    /// The message that reports the error.
    pub fn message(&self) -> (r: String)
        ensures
            r@ == error_text(*self),
    {
        let s = match self {
            CheckLineError::EmptyLine => "Empty line",
            CheckLineError::ShortLine => "Short line",
            CheckLineError::NonAsciiPrefix => "Non-ASCII prefix",
            CheckLineError::InvalidSpace => "Invalid space",
            CheckLineError::InvalidHex => "Invalid hex",
            CheckLineError::InvalidEscape => "Invalid backslash escape",
            CheckLineError::NullCharacter => "Null character in path",
            CheckLineError::ReplacementCharacter => "Unicode replacement character in path",
            CheckLineError::Backslash => "Backslash in path",
        };
        String::from_str(s)
    }
}

/// How a checked line is shown: as written, with its leading backslash if
/// it was escaped.
pub open spec fn display_text(p: ParsedCheckLine) -> Seq<char> {
    if p.is_escaped {
        seq!['\\'] + p.file_string@
    } else {
        p.file_string@
    }
}

/// The verdict on one checked line, and the line to print, if any.
pub struct CheckReport {
    pub ok: bool,
    pub line: Option<String>,
}

/// Judges one parsed checkfile line against the digest found for its file,
/// or the reason that none could be computed. Reports `<path>: OK` (unless
/// quiet), `<path>: FAILED`, or `<path>: FAILED (<reason>)`.
pub fn check_one_line(parsed: &ParsedCheckLine, found: &Result<Vec<u8>, String>, quiet: bool) -> (r:
    CheckReport)
    requires
        parsed.expected_hash@.len() == OUT_LEN,
        found matches Ok(h) ==> h@.len() == OUT_LEN,
    ensures
        match found {
            Err(reason) => !r.ok && r.line is Some && r.line->0@ == display_text(*parsed) + ": FAILED ("@
                + reason@ + ")"@,
            Ok(h) => if h@ == parsed.expected_hash@ {
                r.ok && (quiet ==> r.line is None) && (!quiet ==> r.line is Some && r.line->0@
                    == display_text(*parsed) + ": OK"@)
            } else {
                !r.ok && r.line is Some && r.line->0@ == display_text(*parsed) + ": FAILED"@
            },
        },
{
    let mut shown = String::new();
    if parsed.is_escaped {
        proof {
            reveal_strlit("\\");
        }
        shown.append("\\");
    }
    shown.append(parsed.file_string.as_str());
    assert(shown@ =~= display_text(*parsed));
    match found {
        Err(reason) => {
            shown.append(": FAILED (");
            shown.append(reason.as_str());
            shown.append(")");
            CheckReport { ok: false, line: Some(shown) }
        },
        Ok(h) => {
            if digests_equal(&parsed.expected_hash, h) {
                if quiet {
                    CheckReport { ok: true, line: None }
                } else {
                    shown.append(": OK");
                    CheckReport { ok: true, line: Some(shown) }
                }
            } else {
                shown.append(": FAILED");
                CheckReport { ok: false, line: Some(shown) }
            }
        },
    }
}

} // verus!
