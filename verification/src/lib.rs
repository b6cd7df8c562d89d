//! SCON: a compact, human-readable text format for structured data.
pub mod array_round_trip;
pub mod calendar;
pub mod decoder;
pub mod document_round_trip;
pub mod encoder;
pub mod format;
pub mod inline;
pub mod json;
pub mod layout;
pub mod one_line_round_trip;
pub mod parsed_quoting;
pub mod php_encoder;
pub mod round_trip;
pub mod script_encoder;
pub mod syntax;
pub mod tabular_round_trip;
pub mod tape;
pub mod text;
pub mod tree;
pub mod value;

pub use decoder::Decoder;
pub use encoder::Encoder;
pub use value::{SconMap, Value};

use vstd::prelude::*;
use crate::decoder::decoded;
use crate::encoder::indent_fits;
use crate::format::{document_text, height, Flavor, Quoting, Style};

verus! {

/// The SCON text of `data`, one space per level and `,` between items.
pub fn encode(data: &Value) -> (r: String)
    requires
        indent_fits(1, 0, height(data@)),
    ensures
        r@ == document_text(1, Style { delimiter: ',', quoting: Quoting::Bytes, flavor: Flavor::Standard }, data@),
{
    Encoder::new().encode(data)
}

/// Appends the SCON text of `data` to `buf`.
pub fn encode_to(data: &Value, buf: &mut String)
    requires
        indent_fits(1, 0, height(data@)),
    ensures
        final(buf)@ == old(buf)@ + document_text(1, Style { delimiter: ',', quoting: Quoting::Bytes, flavor: Flavor::Standard }, data@),
{
    Encoder::new().encode_to(data, buf);
}

/// The SCON text of `data` with `indent` spaces per level (at least one).
pub fn encode_with_indent(data: &Value, indent: usize) -> (r: String)
    requires
        indent_fits(if indent < 1 { 1 } else { indent as nat }, 0, height(data@)),
    ensures
        r@ == document_text(
            if indent < 1 { 1 } else { indent as nat },
            Style { delimiter: ',', quoting: Quoting::Bytes, flavor: Flavor::Standard },
            data@,
        ),
{
    Encoder::new().with_indent(indent).encode(data)
}

/// Decodes SCON text, detecting its indent.
pub fn decode(input: &str) -> (r: Result<Value, String>)
    ensures
        match decoded(1, true, input@) {
            Ok(v) => r matches Ok(x) && x@ == v,
            Err(e) => r matches Err(m) && m@ == e.text(),
        },
{
    Decoder::new().decode(input)
}

} // verus!
