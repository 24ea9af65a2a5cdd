//! Small decisions of the command line tool that need no file and no
//! terminal: the name of a color format, and whether to overwrite a file.

use crate::header::ColorFormat;
use vstd::prelude::*;
use vstd::string::StringSliceAdditionalSpecFns;

verus! {

/// What to take for granted where a file to be written exists.
#[derive(Debug, Clone, Copy, PartialEq, Eq, Structural)]
pub enum Assume {
    /// Overwrite it.
    Yes,
    /// Keep it.
    No,
}

/// An ASCII letter in lower case; any other byte as it is.
pub open spec fn lower(b: u8) -> u8 {
    if 65 <= b <= 90 {
        (b + 32) as u8
    } else {
        b
    }
}

/// A byte string with its ASCII letters in lower case.
pub open spec fn lowered(s: Seq<u8>) -> Seq<u8> {
    Seq::new(s.len(), |i: int| lower(s[i]))
}

/// The color format that a name stands for, whatever the case of its
/// letters: `rgba8`, `rgb8`, `graya8` or `gray8`.
pub open spec fn format_named(name: Seq<u8>) -> Option<ColorFormat> {
    let l = lowered(name);
    if l == seq![0x72u8, 0x67u8, 0x62u8, 0x61u8, 0x38u8] {
        Some(ColorFormat::Rgba8)
    } else if l == seq![0x72u8, 0x67u8, 0x62u8, 0x38u8] {
        Some(ColorFormat::Rgb8)
    } else if l == seq![0x67u8, 0x72u8, 0x61u8, 0x79u8, 0x61u8, 0x38u8] {
        Some(ColorFormat::GrayA8)
    } else if l == seq![0x67u8, 0x72u8, 0x61u8, 0x79u8, 0x38u8] {
        Some(ColorFormat::Gray8)
    } else {
        None
    }
}

/// Whether `bytes`, with its ASCII letters in lower case, is `name`.
fn same_lowered(bytes: &[u8], name: &[u8]) -> (same: bool)
    ensures
        same <==> lowered(bytes@) == name@,
{
    if bytes.len() != name.len() {
        return false;
    }
    let mut i: usize = 0;
    while i < bytes.len()
        invariant
            i <= bytes@.len(),
            bytes@.len() == name@.len(),
            lowered(bytes@).take(i as int) == name@.take(i as int),
        decreases bytes@.len() - i,
    {
        let b: u8 = bytes[i];
        let low: u8 = if 65 <= b && b <= 90 {
            b + 32
        } else {
            b
        };
        if low != name[i] {
            proof {
                assert(lowered(bytes@)[i as int] != name@[i as int]);
            }
            return false;
        }
        proof {
            assert(lowered(bytes@).take(i + 1) =~= lowered(bytes@).take(i as int).push(low));
            assert(name@.take(i + 1) =~= name@.take(i as int).push(name@[i as int]));
        }
        i += 1;
    }
    proof {
        assert(lowered(bytes@).take(i as int) =~= lowered(bytes@));
        assert(name@.take(i as int) =~= name@);
    }
    true
}

/// Builds the message for a name that stands for no color format with std's
/// `format!`. The contract claims that the message is the text `Invalid
/// color format `, followed by the name as it was given.
#[verifier::external_body]
fn invalid_color_format(name: &str) -> (message: String)
    ensures
        message@ == "Invalid color format "@ + name@,
{
    format!("Invalid color format {}", name)
}

/// Read the name of a color format. The case of the letters does not
/// matter. A name that is not ASCII, or that stands for no format, is
/// refused with a message that repeats it.
pub fn color_format(s: &str) -> (r: Result<ColorFormat, String>)
    ensures
        match r {
            Ok(format) => s.is_ascii() && format_named(s.spec_bytes()) == Some(format),
            Err(message) => (!s.is_ascii() || format_named(s.spec_bytes()).is_none())
                && message@ == "Invalid color format "@ + s@,
        },
{
    if !s.is_ascii() {
        return Err(invalid_color_format(s));
    }
    let bytes = s.as_bytes();
    let rgba8: [u8; 5] = [0x72, 0x67, 0x62, 0x61, 0x38];
    let rgb8: [u8; 4] = [0x72, 0x67, 0x62, 0x38];
    let graya8: [u8; 6] = [0x67, 0x72, 0x61, 0x79, 0x61, 0x38];
    let gray8: [u8; 5] = [0x67, 0x72, 0x61, 0x79, 0x38];
    proof {
        assert(rgba8@ =~= seq![0x72u8, 0x67u8, 0x62u8, 0x61u8, 0x38u8]);
        assert(rgb8@ =~= seq![0x72u8, 0x67u8, 0x62u8, 0x38u8]);
        assert(graya8@ =~= seq![0x67u8, 0x72u8, 0x61u8, 0x79u8, 0x61u8, 0x38u8]);
        assert(gray8@ =~= seq![0x67u8, 0x72u8, 0x61u8, 0x79u8, 0x38u8]);
    }

    let color_format = if same_lowered(bytes, rgba8.as_slice()) {
        ColorFormat::Rgba8
    } else if same_lowered(bytes, rgb8.as_slice()) {
        ColorFormat::Rgb8
    } else if same_lowered(bytes, graya8.as_slice()) {
        ColorFormat::GrayA8
    } else if same_lowered(bytes, gray8.as_slice()) {
        ColorFormat::Gray8
    } else {
        return Err(invalid_color_format(s));
    };

    Ok(color_format)
}

/// What is decided about a file that exists before anybody is asked: what
/// was taken for granted, or nothing.
pub fn assumed_decision(granted: Option<Assume>) -> (decision: Option<bool>)
    ensures
        decision == match granted {
            Some(Assume::Yes) => Some(true),
            Some(Assume::No) => Some(false),
            None => None::<bool>,
        },
{
    match granted {
        Some(Assume::Yes) => Some(true),
        Some(Assume::No) => Some(false),
        None => None,
    }
}

/// What an answer to the question decides: `y`, in either case, is a yes; no
/// answer at all is a no; anything else decides nothing, and the question
/// is asked again.
pub fn answer_decision(answer: &str) -> (decision: Option<bool>)
    ensures
        decision == if answer.spec_bytes() == seq![0x79u8] || answer.spec_bytes() == seq![0x59u8] {
            Some(true)
        } else if answer.spec_bytes().len() == 0 {
            Some(false)
        } else {
            None::<bool>
        },
{
    let bytes = answer.as_bytes();
    if bytes.len() == 1 && (bytes[0] == 0x79 || bytes[0] == 0x59) {
        proof {
            assert(bytes@ =~= seq![bytes@[0]]);
        }
        Some(true)
    } else if bytes.len() == 0 {
        Some(false)
    } else {
        proof {
            assert(seq![0x79u8].len() == 1);
            assert(seq![0x59u8].len() == 1);
            if bytes@.len() == 1 {
                assert(seq![0x79u8][0] == 0x79u8);
                assert(seq![0x59u8][0] == 0x59u8);
            }
        }
        None
    }
}

} // verus!
