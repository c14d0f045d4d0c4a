//! Full section index: the document text together with each section's
//! title range and content range.

use vstd::prelude::*;
use vstd::utf8::encode_utf8;
use vstd::string::StringSliceAdditionalSpecFns;
use vstd::string::StringExecFns;
use crate::document::{ByteRange, Section};
use crate::headings::{sections_of, scan_sections};

verus! {

/// A document and its heading-delimited sections in order.
#[derive(PartialEq, Eq, Debug)]
pub struct Sections {
    document: String,
    sections: Vec<Section>,
}

impl Sections {
    /// The held sections.
    pub closed spec fn spec_sections(&self) -> Seq<Section> {
        self.sections@
    }

    /// The held document text.
    pub closed spec fn document_bytes(&self) -> Seq<u8> {
        encode_utf8(self.document@)
    }

    pub fn new(sections: Vec<Section>, document: String) -> (r: Sections)
        ensures
            r.spec_sections() == sections@,
            r.document_bytes() == encode_utf8(document@),
    {
        Sections { sections, document }
    }

    /// Scans `src` and builds the section index: one section per level 1
    /// or 2 ATX heading, running to the next heading or the document end.
    pub fn parse(src: &str) -> (r: Sections)
        ensures
            r.spec_sections() == sections_of(src.spec_bytes()),
            r.document_bytes() == src.spec_bytes(),
    {
        let sections = scan_sections(src);
        Sections::new(sections, String::from_str(src))
    }

    /// The title ranges of the sections, in order.
    pub fn sections(&self) -> (r: Vec<ByteRange>)
        ensures
            r@.len() == self.spec_sections().len(),
            forall|k: int|
                0 <= k < r@.len() ==> #[trigger] r@[k] == self.spec_sections()[k].title,
    {
        let mut ret: Vec<ByteRange> = Vec::new();
        let mut k: usize = 0;
        while k < self.sections.len()
            invariant
                0 <= k <= self.sections@.len(),
                self.sections@ == self.spec_sections(),
                ret@.len() == k,
                forall|j: int|
                    0 <= j < k ==> #[trigger] ret@[j] == self.spec_sections()[j].title,
            decreases self.sections@.len() - k,
        {
            ret.push(self.sections[k].title);
            k = k + 1;
        }
        ret
    }
}

} // verus!
