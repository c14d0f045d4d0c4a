//! ATX heading recognition: a line whose text begins with one or two `#`
//! markers followed by a space opens a section.

use vstd::prelude::*;
use vstd::utf8::valid_utf8;
use vstd::string::StringSliceAdditionalSpecFns;
use crate::document::{ByteRange, Section, range_in_text, section_in_text};
use crate::text::{
    is_nl, is_line_start, lemma_line_start_boundary,
};

verus! {

/// End of the line beginning at or containing `i`: the next newline byte at
/// or after `i`, or the end of the text.
pub open spec fn line_end_of(s: Seq<u8>, i: int) -> int
    recommends
        0 <= i,
    decreases s.len() - i,
{
    if i >= s.len() {
        i
    } else if is_nl(s[i]) {
        i
    } else {
        line_end_of(s, i + 1)
    }
}

/// A level 1 or 2 ATX heading line starts at `i`: a line start, `#` or
/// `##`, then a space.
pub open spec fn is_heading_at(s: Seq<u8>, i: int) -> bool {
    &&& 0 <= i < s.len()
    &&& is_line_start(s, i)
    &&& s[i] == 35
    &&& ((i + 1 < s.len() && s[i + 1] == 32) || (i + 2 < s.len() && s[i + 1] == 35 && s[i
        + 2] == 32))
}

/// The heading line ranges found scanning from `i`, in document order.
pub open spec fn headings_from(s: Seq<u8>, i: int) -> Seq<ByteRange>
    recommends
        0 <= i,
    decreases s.len() - i,
{
    if i >= s.len() {
        Seq::empty()
    } else if is_heading_at(s, i) {
        seq![
            ByteRange { start: i as usize, end: line_end_of(s, i) as usize },
        ] + headings_from(s, i + 1)
    } else {
        headings_from(s, i + 1)
    }
}

/// All heading line ranges of the document, in order.
pub open spec fn headings(s: Seq<u8>) -> Seq<ByteRange> {
    headings_from(s, 0)
}

/// The sections induced by the headings: each section starts at its heading
/// and runs to the next heading, or to the end of the document.
pub open spec fn sections_of(s: Seq<u8>) -> Seq<Section> {
    let hs = headings(s);
    Seq::new(
        hs.len(),
        |k: int|
            Section {
                title: hs[k],
                range: ByteRange {
                    start: hs[k].start,
                    end: if k + 1 < hs.len() {
                        hs[k + 1].start
                    } else {
                        s.len() as usize
                    },
                },
            },
    )
}

/// Bounds of a line end: within the text, no newline before it on the line,
/// and a newline (or the text end) at it.
pub proof fn lemma_line_end_props(s: Seq<u8>, i: int)
    requires
        0 <= i <= s.len(),
    ensures
        i <= line_end_of(s, i) <= s.len(),
        forall|k: int| i <= k < line_end_of(s, i) ==> !is_nl(s[k]),
        line_end_of(s, i) == s.len() || is_nl(s[line_end_of(s, i)]),
    decreases s.len() - i,
{
    if i < s.len() && !is_nl(s[i]) {
        lemma_line_end_props(s, i + 1);
    }
}

/// Every heading range scanned from `i` starts at a heading at or after
/// `i`, covers its line, and the ranges appear in strictly increasing
/// start order.
pub proof fn lemma_headings_from_props(s: Seq<u8>, i: int)
    requires
        0 <= i,
        s.len() <= usize::MAX,
    ensures
        forall|k: int|
            0 <= k < headings_from(s, i).len() ==> i <= (#[trigger] headings_from(
                s,
                i,
            )[k]).start < s.len(),
        forall|k: int|
            0 <= k < headings_from(s, i).len() ==> is_heading_at(
                s,
                (#[trigger] headings_from(s, i)[k]).start as int,
            ),
        forall|k: int|
            0 <= k < headings_from(s, i).len() ==> (#[trigger] headings_from(s, i)[k]).end
                == line_end_of(s, headings_from(s, i)[k].start as int),
        forall|k1: int, k2: int|
            0 <= k1 < k2 < headings_from(s, i).len() ==> (#[trigger] headings_from(
                s,
                i,
            )[k1]).start < (#[trigger] headings_from(s, i)[k2]).start,
    decreases s.len() - i,
{
    if i < s.len() {
        lemma_headings_from_props(s, i + 1);
        if is_heading_at(s, i) {
            lemma_line_end_props(s, i);
            assert forall|k: int|
                1 <= k < headings_from(s, i).len() implies #[trigger] headings_from(
                s,
                i,
            )[k] == headings_from(s, i + 1)[k - 1] by {}
        }
    }
}

/// A heading line is non-empty and both its bounds are character
/// boundaries; its end is below any later heading's start.
pub proof fn lemma_heading_range_in_text(s: Seq<u8>, h: ByteRange)
    requires
        valid_utf8(s),
        is_heading_at(s, h.start as int),
        h.end == line_end_of(s, h.start as int),
    ensures
        h.start < h.end <= s.len(),
        range_in_text(s, h),
{
    lemma_line_end_props(s, h.start as int);
    lemma_line_start_boundary(s, h.start as int);
    if h.end < s.len() {
        vstd::utf8::is_char_boundary_iff_not_is_continuation_byte(s, h.end as int);
    } else {
        vstd::utf8::is_char_boundary_start_end_of_seq(s);
    }
}

/// All section spans of `sections_of` lie within the text.
pub proof fn lemma_sections_of_in_text(s: Seq<u8>)
    requires
        valid_utf8(s),
        s.len() <= usize::MAX,
    ensures
        forall|k: int|
            0 <= k < sections_of(s).len() ==> #[trigger] section_in_text(
                s,
                sections_of(s)[k],
            ),
{
    lemma_headings_from_props(s, 0);
    vstd::utf8::is_char_boundary_start_end_of_seq(s);
    let hs = headings(s);
    assert forall|k: int|
        0 <= k < sections_of(s).len() implies #[trigger] section_in_text(
        s,
        sections_of(s)[k],
    ) by {
        lemma_heading_range_in_text(s, hs[k]);
        if k + 1 < hs.len() {
            lemma_heading_range_in_text(s, hs[k + 1]);
            lemma_line_end_props(s, hs[k].start as int);
            lemma_line_start_boundary(s, hs[k + 1].start as int);
        }
    }
}

/// Section partition invariant: every section begins at its title, sections
/// are adjacent (each ends where the next starts) and non-empty, and the
/// last section ends at the end of the document; so the document is the
/// pre-first-heading prefix followed by the sections, in order.
pub proof fn lemma_sections_partition(s: Seq<u8>)
    requires
        s.len() <= usize::MAX,
    ensures
        forall|k: int|
            0 <= k < sections_of(s).len() ==> (#[trigger] sections_of(s)[k]).title.start
                == sections_of(s)[k].range.start,
        forall|k: int|
            0 <= k && k + 1 < sections_of(s).len() ==> (#[trigger] sections_of(
                s,
            )[k]).range.end == sections_of(s)[k + 1].range.start,
        sections_of(s).len() > 0 ==> sections_of(s).last().range.end == s.len(),
        forall|k: int|
            0 <= k < sections_of(s).len() ==> (#[trigger] sections_of(s)[k]).range.start
                < sections_of(s)[k].range.end,
        sections_of(s).len() > 0 ==> sections_of(s)[0].range.start == headings(
            s,
        )[0].start,
{
    lemma_headings_from_props(s, 0);
    let hs = headings(s);
    assert forall|k: int|
        0 <= k && k + 1 < sections_of(s).len() implies (#[trigger] sections_of(
        s,
    )[k]).range.end == sections_of(s)[k + 1].range.start by {
        assert(sections_of(s)[k] == (Section {
            title: hs[k],
            range: ByteRange {
                start: hs[k].start,
                end: if k + 1 < hs.len() {
                    hs[k + 1].start
                } else {
                    s.len() as usize
                },
            },
        }));
        assert(sections_of(s)[k + 1] == (Section {
            title: hs[k + 1],
            range: ByteRange {
                start: hs[k + 1].start,
                end: if k + 2 < hs.len() {
                    hs[k + 2].start
                } else {
                    s.len() as usize
                },
            },
        }));
    }
    assert forall|k: int|
        0 <= k < sections_of(s).len() implies (#[trigger] sections_of(s)[k]).range.start
        < sections_of(s)[k].range.end by {
        if k + 1 < hs.len() {
            assert(hs[k].start < hs[k + 1].start);
        } else {
            assert(hs[k].start < s.len());
        }
    }
}

/// Scans the text for heading lines, in order.
pub fn scan_headings(s: &str) -> (r: Vec<ByteRange>)
    ensures
        r@ == headings(s.spec_bytes()),
{
    let b = s.as_bytes();
    let ghost bs = s.spec_bytes();
    let n = b.len();
    let mut ret: Vec<ByteRange> = Vec::new();
    let mut i: usize = 0;
    proof {
        assert(ret@ + headings_from(bs, 0) =~= headings_from(bs, 0));
    }
    while i < n
        invariant
            0 <= i <= n == bs.len(),
            b@ == bs,
            headings(bs) == ret@ + headings_from(bs, i as int),
        decreases n - i,
    {
        let bol = i == 0 || b[i - 1] == 10;
        let heading = bol && b[i] == 35 && ((i + 1 < n && b[i + 1] == 32) || (i + 1 < n
            && b[i + 1] == 35 && i + 2 < n && b[i + 2] == 32));
        if heading {
            let mut j: usize = i;
            while j < n && b[j] != 10
                invariant
                    i <= j <= n == bs.len(),
                    b@ == bs,
                    line_end_of(bs, i as int) == line_end_of(bs, j as int),
                decreases n - j,
            {
                j = j + 1;
            }
            let ghost ret0 = ret@;
            ret.push(ByteRange { start: i, end: j });
            proof {
                assert(is_heading_at(bs, i as int));
                assert(headings_from(bs, i as int) == seq![
                    ByteRange { start: i, end: j },
                ] + headings_from(bs, i as int + 1));
                assert(ret0 + (seq![ByteRange { start: i, end: j }] + headings_from(
                    bs,
                    i as int + 1,
                )) =~= ret@ + headings_from(bs, i as int + 1));
            }
        } else {
            proof {
                assert(!is_heading_at(bs, i as int));
            }
        }
        i = i + 1;
    }
    ret
}

/// Builds the section list from the scanned headings.
pub fn scan_sections(s: &str) -> (r: Vec<Section>)
    ensures
        r@ == sections_of(s.spec_bytes()),
{
    let hs = scan_headings(s);
    let n = s.as_bytes().len();
    let mut ret: Vec<Section> = Vec::new();
    let mut k: usize = 0;
    while k < hs.len()
        invariant
            0 <= k <= hs@.len(),
            hs@ == headings(s.spec_bytes()),
            n == s.spec_bytes().len(),
            ret@.len() == k,
            forall|j: int| 0 <= j < k ==> #[trigger] ret@[j] == sections_of(s.spec_bytes())[j],
        decreases hs@.len() - k,
    {
        let h = hs[k];
        let end = if k + 1 < hs.len() {
            hs[k + 1].start
        } else {
            n
        };
        ret.push(Section { title: h, range: ByteRange { start: h.start, end } });
        k = k + 1;
    }
    proof {
        assert(ret@ =~= sections_of(s.spec_bytes()));
    }
    ret
}

} // verus!

