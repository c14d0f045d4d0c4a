//! The full-parse document: text plus its section index, with position
//! conversion and slicing.

use vstd::prelude::*;
use vstd::utf8::encode_utf8;
use vstd::string::StringSliceAdditionalSpecFns;
use vstd::string::StringExecFns;
use crate::document::{TextModel, SliceAccess, BasicDocument, Section};
use crate::document_adapter::{Position, LspAdapter, DocumentLsp, str_offset_to_position,
    str_position_to_offset};
use crate::headings::{sections_of, scan_sections, lemma_sections_of_in_text};

verus! {

/// A parsed document: the text and its heading-delimited sections.
pub struct Document {
    text: String,
    sections: Vec<Section>,
}

impl Document {
    /// The sections always index the held text.
    #[verifier::type_invariant]
    spec fn wf(self) -> bool {
        &&& self.sections@ == sections_of(encode_utf8(self.text@))
        &&& encode_utf8(self.text@).len() <= usize::MAX
    }

    /// Parses `text` into a document with its section index.
    pub fn parse(text: &str) -> (r: Document)
        ensures
            r.text_bytes() == text.spec_bytes(),
            r.spec_sections() == sections_of(text.spec_bytes()),
    {
        Document::from_str(text)
    }

    /// Builds the document: scans the text for level 1 and 2 ATX headings
    /// and records one section per heading.
    pub fn from_str(text: &str) -> (r: Document)
        ensures
            r.text_bytes() == text.spec_bytes(),
            r.spec_sections() == sections_of(text.spec_bytes()),
    {
        let n = text.as_bytes().len();
        let sections = scan_sections(text);
        proof {
            assert(text.spec_bytes().len() <= usize::MAX);
        }
        Document { text: String::from_str(text), sections }
    }
}

impl TextModel for Document {
    closed spec fn text_bytes(&self) -> Seq<u8> {
        encode_utf8(self.text@)
    }

    proof fn text_valid(&self) {
        broadcast use vstd::utf8::encode_utf8_valid_utf8;

    }
}

impl SliceAccess for Document {
    fn slice<'a>(&'a self, start: usize, end: usize) -> (r: &'a str) {
        crate::text::str_slice_range(self.text.as_str(), start, end)
    }
}

impl LspAdapter for Document {
    fn offset_to_position(&self, offset: usize) -> (r: Option<Position>) {
        str_offset_to_position(self.text.as_str(), offset)
    }

    fn position_to_offset(&self, position: &Position) -> (r: Option<usize>) {
        let s = self.text.as_str();
        proof {
            assert(s.spec_bytes() == self.text_bytes());
        }
        str_position_to_offset(s, position)
    }
}

impl BasicDocument for Document {
    closed spec fn spec_sections(&self) -> Seq<Section> {
        self.sections@
    }

    fn sections(&self) -> (r: Vec<Section>) {
        proof {
            use_type_invariant(&*self);
            self.text_valid();
            lemma_sections_of_in_text(self.text_bytes());
        }
        let mut ret: Vec<Section> = Vec::new();
        let mut k: usize = 0;
        while k < self.sections.len()
            invariant
                0 <= k <= self.sections@.len(),
                ret@ == self.sections@.take(k as int),
            decreases self.sections@.len() - k,
        {
            proof {
                assert(self.sections@.take(k as int).push(self.sections@[k as int])
                    =~= self.sections@.take(k as int + 1));
            }
            ret.push(self.sections[k]);
            k = k + 1;
        }
        proof {
            assert(self.sections@.take(self.sections@.len() as int) =~= self.sections@);
        }
        ret
    }
}

impl DocumentLsp for Document {

}

} // verus!
