//! A second string-backed buffer that applies edit batches directly.

use vstd::prelude::*;
use vstd::utf8::encode_utf8;
use vstd::string::StringSliceAdditionalSpecFns;
use crate::document::{TextModel, SliceAccess};
use crate::document_adapter::{Position, LspAdapter, str_offset_to_position,
    str_position_to_offset};
use crate::incremental_sync::{ChangeEvent, IncrementalSync};
use crate::text::{lemma_pos_offset_some, splice_str, str_slice_range};

verus! {

/// A document held as one owned string.
#[derive(PartialEq, Eq, Debug)]
pub struct TestDoc2(pub String);

impl TestDoc2 {
    pub fn new(s: String) -> (r: TestDoc2)
        ensures
            r.text_bytes() == encode_utf8(s@),
    {
        TestDoc2(s)
    }

    /// The buffer's contents.
    pub fn into_string(self) -> (r: String)
        ensures
            encode_utf8(r@) == self.text_bytes(),
    {
        self.0
    }
}

impl TextModel for TestDoc2 {
    open spec fn text_bytes(&self) -> Seq<u8> {
        encode_utf8(self.0@)
    }

    proof fn text_valid(&self) {
        broadcast use vstd::utf8::encode_utf8_valid_utf8;

    }
}

impl SliceAccess for TestDoc2 {
    fn slice<'a>(&'a self, start: usize, end: usize) -> (r: &'a str) {
        str_slice_range(self.0.as_str(), start, end)
    }
}

impl LspAdapter for TestDoc2 {
    fn offset_to_position(&self, offset: usize) -> (r: Option<Position>) {
        str_offset_to_position(self.0.as_str(), offset)
    }

    fn position_to_offset(&self, position: &Position) -> (r: Option<usize>) {
        let s = self.0.as_str();
        proof {
            assert(s.spec_bytes() == self.text_bytes());
        }
        str_position_to_offset(s, position)
    }
}

impl IncrementalSync for TestDoc2 {
    fn apply_change(self, change: ChangeEvent) -> (r: Self) {
        proof {
            broadcast use vstd::utf8::encode_utf8_valid_utf8;

        }
        let rng = match change.range {
            None => { return TestDoc2(change.text) },
            Some(rng) => rng,
        };
        let sp = match self.position_to_offset(&rng.start) {
            Some(o) => o,
            None => { return self },
        };
        let ep = match self.position_to_offset(&rng.end) {
            Some(o) => o,
            None => {
                proof {
                    lemma_pos_offset_some(
                        self.text_bytes(),
                        rng.start.line as nat,
                        rng.start.character as nat,
                        sp as int,
                    );
                }
                return self
            },
        };
        proof {
            lemma_pos_offset_some(
                self.text_bytes(),
                rng.start.line as nat,
                rng.start.character as nat,
                sp as int,
            );
            lemma_pos_offset_some(
                self.text_bytes(),
                rng.end.line as nat,
                rng.end.character as nat,
                ep as int,
            );
        }
        let updated = splice_str(self.0.as_str(), sp, ep, change.text.as_str());
        TestDoc2(updated)
    }
}

} // verus!
