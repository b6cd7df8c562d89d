//! The encoder for values that come from a script: `,` between items, strings
//! quoted by their bytes, and arrays without a short form written in the
//! script flavor.
use vstd::prelude::*;
use crate::encoder::{indent_fits, Encoder};
use crate::format::{document_text, height, Flavor, Quoting, Style};
use crate::value::Value;

verus! {

/// The style of the script encoder.
pub open spec fn script_style() -> Style {
    Style { delimiter: ',', quoting: Quoting::Bytes, flavor: Flavor::Script }
}

/// Encodes values that come from a script.
pub struct JsEncoder {
    inner: Encoder,
}

impl JsEncoder {
    #[verifier::type_invariant]
    spec fn wf(&self) -> bool {
        self.inner.spec_style() == script_style()
    }

    /// The number of spaces per level.
    pub closed spec fn spec_indent(&self) -> nat {
        self.inner.spec_indent()
    }

    /// An encoder with `indent` spaces per level.
    pub fn new(indent: usize) -> (e: JsEncoder)
        requires
            indent >= 1,
        ensures
            e.spec_indent() == indent,
    {
        JsEncoder { inner: Encoder::new().with_indent(indent).with_flavor(Flavor::Script) }
    }

    /// The SCON text of `data`.
    pub fn encode(self, data: &Value) -> (r: String)
        requires
            indent_fits(self.spec_indent(), 0, height(data@)),
        ensures
            r@ == document_text(self.spec_indent(), script_style(), data@),
    {
        proof {
            use_type_invariant(&self);
        }
        self.inner.encode(data)
    }
}

} // verus!
