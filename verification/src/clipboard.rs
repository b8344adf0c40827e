//! Text on its way to the clipboard.

use crate::ascii::{base64_encode, base64_text, max_input_len};
use vstd::prelude::*;
use vstd::string::{StringExecFns, StringSliceAdditionalSpecFns};

verus! {

/// How a text reached the clipboard.
#[derive(Clone, Copy, Debug, PartialEq, Eq, Structural)]
pub enum CopyMethod {
    System,
    Osc52,
}

/// The escape sequence that asks a terminal to put `text` on the clipboard:
/// `ESC ] 52 ; c ;`, the text in Base64, and `BEL`.
pub open spec fn osc52_spec(text: Seq<u8>) -> Seq<char> {
    "\x1b]52;c;"@ + base64_text(text) + "\x07"@
}

/// The escape sequence that asks a terminal to put `text` on the clipboard; `None` for a
/// text too long to encode.
pub fn osc52_sequence(text: &str) -> (r: Option<String>)
    ensures
        match r {
            Some(s) => s@ == osc52_spec(text.spec_bytes()),
            None => text.spec_bytes().len() > max_input_len(),
        },
{
    let bytes = text.as_bytes();
    if bytes.len() > usize::MAX / 2 {
        return None;
    }
    let b64 = base64_encode(bytes);
    Some(String::from_str("\x1b]52;c;").concat(b64.as_str()).concat("\x07"))
}

} // verus!
