//! Heading ranges of a document, as a bare list.

use vstd::prelude::*;
use vstd::string::StringSliceAdditionalSpecFns;
use crate::document::ByteRange;
use crate::headings::{headings, scan_headings};

verus! {

/// The heading line ranges of a parsed document.
#[derive(PartialEq, Eq, Debug)]
pub struct Sections {
    sections: Vec<ByteRange>,
}

impl Sections {
    /// The held ranges.
    pub closed spec fn ranges(&self) -> Seq<ByteRange> {
        self.sections@
    }

    pub fn new(tmp: Vec<ByteRange>) -> (r: Sections)
        ensures
            r.ranges() == tmp@,
    {
        Sections { sections: tmp }
    }
}

/// Scans `src` for level 1 and 2 ATX heading lines.
pub fn parse(src: &str) -> (r: Sections)
    ensures
        r.ranges() == headings(src.spec_bytes()),
{
    Sections::new(scan_headings(src))
}

} // verus!
