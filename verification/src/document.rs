//! Core document capabilities: byte-range slicing and the heading-based
//! section model.

use vstd::prelude::*;
use vstd::utf8::{is_char_boundary, valid_utf8, encode_utf8};
use vstd::string::StringSliceAdditionalSpecFns;

verus! {

/// A half-open byte range into the document.
#[derive(PartialEq, Eq, Structural, Clone, Copy, Debug)]
pub struct ByteRange {
    pub start: usize,
    pub end: usize,
}

/// A heading-delimited section: `title` covers the heading line, `range`
/// the section's whole span; the two share their start.
#[derive(PartialEq, Eq, Structural, Clone, Copy, Debug)]
pub struct Section {
    pub title: ByteRange,
    pub range: ByteRange,
}

/// `r` lies within the text, on character boundaries.
pub open spec fn range_in_text(s: Seq<u8>, r: ByteRange) -> bool {
    &&& r.start <= r.end <= s.len()
    &&& is_char_boundary(s, r.start as int)
    &&& is_char_boundary(s, r.end as int)
}

/// Both spans of a section lie within the text.
pub open spec fn section_in_text(s: Seq<u8>, sec: Section) -> bool {
    range_in_text(s, sec.title) && range_in_text(s, sec.range)
}

/// A value that models a UTF-8 text buffer as a byte sequence.
pub trait TextModel {
    spec fn text_bytes(&self) -> Seq<u8>;

    proof fn text_valid(&self)
        ensures
            valid_utf8(self.text_bytes()),
    ;
}

/// Byte-range slicing over the buffer.
pub trait SliceAccess: TextModel {
    fn slice<'a>(&'a self, start: usize, end: usize) -> (r: &'a str)
        requires
            start <= end <= self.text_bytes().len(),
            is_char_boundary(self.text_bytes(), start as int),
            is_char_boundary(self.text_bytes(), end as int),
        ensures
            r.spec_bytes() == self.text_bytes().subrange(start as int, end as int),
    ;
}

/// A document exposing its ordered heading-delimited sections.
pub trait BasicDocument: TextModel {
    spec fn spec_sections(&self) -> Seq<Section>;

    fn sections(&self) -> (r: Vec<Section>)
        ensures
            r@ == self.spec_sections(),
            forall|i: int|
                0 <= i < r@.len() ==> #[trigger] section_in_text(
                    self.text_bytes(),
                    r@[i],
                ),
    ;
}

/// Section text extraction, derived from sectioning and slicing.
pub trait DocumentExt {
    spec fn ext_text_bytes(&self) -> Seq<u8>;

    spec fn ext_sections(&self) -> Seq<Section>;

    /// The heading line of section `index`, or `None` past the last section.
    fn title(&self, index: usize) -> (r: Option<String>)
        ensures
            match r {
                Some(t) => index < self.ext_sections().len() && encode_utf8(t@)
                    == self.ext_text_bytes().subrange(
                    self.ext_sections()[index as int].title.start as int,
                    self.ext_sections()[index as int].title.end as int,
                ),
                None => index >= self.ext_sections().len(),
            },
    ;

    /// The full text of section `index`, or `None` past the last section.
    fn text(&self, index: usize) -> (r: Option<String>)
        ensures
            match r {
                Some(t) => index < self.ext_sections().len() && encode_utf8(t@)
                    == self.ext_text_bytes().subrange(
                    self.ext_sections()[index as int].range.start as int,
                    self.ext_sections()[index as int].range.end as int,
                ),
                None => index >= self.ext_sections().len(),
            },
    ;
}

impl<T: BasicDocument + SliceAccess> DocumentExt for T {
    open spec fn ext_text_bytes(&self) -> Seq<u8> {
        self.text_bytes()
    }

    open spec fn ext_sections(&self) -> Seq<Section> {
        self.spec_sections()
    }

    fn title(&self, index: usize) -> (r: Option<String>) {
        let secs = self.sections();
        if index < secs.len() {
            proof {
                assert(section_in_text(self.text_bytes(), secs@[index as int]));
            }
            let sec = secs[index];
            let t = self.slice(sec.title.start, sec.title.end);
            Some(t.to_owned())
        } else {
            None
        }
    }

    fn text(&self, index: usize) -> (r: Option<String>) {
        let secs = self.sections();
        if index < secs.len() {
            proof {
                assert(section_in_text(self.text_bytes(), secs@[index as int]));
            }
            let sec = secs[index];
            let t = self.slice(sec.range.start, sec.range.end);
            Some(t.to_owned())
        } else {
            None
        }
    }
}

} // verus!
