//! An encoder that quotes a string value where it reads as a number (as `i64`
//! or `f64` parse it) rather than where it merely starts like one.
use vstd::prelude::*;
use crate::encoder::indent_fits;
use crate::format::{document_text, height, Flavor, Quoting, Style};
use crate::value::Value;

verus! {

/// Encodes values as SCON; strings that read as numbers, or hold an unsafe
/// character or the delimiter, are quoted.
pub struct Encoder {
    inner: crate::encoder::Encoder,
}

impl Encoder {
    /// Strings are quoted by parsing.
    #[verifier::type_invariant]
    spec fn wf(&self) -> bool {
        &&& self.inner.spec_quoting() == Quoting::Parsed
        &&& self.inner.spec_flavor() == Flavor::Standard
    }

    /// The number of spaces per level.
    pub closed spec fn spec_indent(&self) -> nat {
        self.inner.spec_indent()
    }

    /// The delimiter between the items of inline arrays and tabular rows.
    pub closed spec fn spec_delimiter(&self) -> char {
        self.inner.spec_delimiter()
    }

    /// The delimiter, with strings quoted by parsing.
    pub open spec fn spec_style(&self) -> Style {
        Style { delimiter: self.spec_delimiter(), quoting: Quoting::Parsed, flavor: Flavor::Standard }
    }

    /// An encoder with one space per level and `,` as delimiter.
    pub fn new() -> (e: Encoder)
        ensures
            e.spec_indent() == 1,
            e.spec_delimiter() == ',',
    {
        Encoder { inner: crate::encoder::Encoder::new().with_quoting(Quoting::Parsed) }
    }

    /// The same encoder with `indent` spaces per level (at least one).
    pub fn with_indent(self, indent: usize) -> (e: Encoder)
        ensures
            e.spec_indent() == (if indent < 1 {
                1
            } else {
                indent as nat
            }),
            e.spec_delimiter() == self.spec_delimiter(),
    {
        proof {
            use_type_invariant(&self);
        }
        Encoder { inner: self.inner.with_indent(indent) }
    }

    /// The same encoder with `delimiter`.
    pub fn with_delimiter(self, delimiter: char) -> (e: Encoder)
        ensures
            e.spec_indent() == self.spec_indent(),
            e.spec_delimiter() == delimiter,
    {
        proof {
            use_type_invariant(&self);
        }
        Encoder { inner: self.inner.with_delimiter(delimiter) }
    }

    /// The SCON text of `data`.
    pub fn encode(&self, data: &Value) -> (r: String)
        requires
            indent_fits(self.spec_indent(), 0, height(data@)),
        ensures
            r@ == document_text(self.spec_indent(), self.spec_style(), data@),
    {
        proof {
            use_type_invariant(self);
        }
        self.inner.encode(data)
    }
}

impl Default for Encoder {
    fn default() -> (e: Encoder)
        ensures
            e.spec_indent() == 1,
            e.spec_delimiter() == ',',
    {
        Encoder::new()
    }
}

} // verus!
