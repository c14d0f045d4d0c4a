//! Whole-range formatter: splits the requested span into blocks at
//! blank-line runs, reflows each block, and returns one edit replacing the
//! span (snapped to the start of its first line) with the rebuilt text.

use vstd::prelude::*;
use vstd::utf8::{is_char_boundary, valid_utf8, encode_utf8};
use vstd::string::StringSliceAdditionalSpecFns;
use vstd::string::StringExecFns;
use crate::document::SliceAccess;
use crate::document_adapter::{Position, PosRange, LspAdapter};
use crate::incremental_sync::{TextEdit, pos_offset_of};
use crate::processors::{reflow, process_section};
use crate::text::{is_nl, lemma_pos_offset_some, lemma_encode_utf8_concat, lemma_boundary_after_ascii, str_slice_range};

verus! {

/// End of the newline run starting at `i`.
pub open spec fn nl_end(s: Seq<u8>, i: int) -> int
    decreases s.len() - i,
{
    if i < 0 || i >= s.len() || !is_nl(s[i]) {
        i
    } else {
        nl_end(s, i + 1)
    }
}

/// Position of the first blank-line run (two adjacent newlines) at or
/// after `i`, or the length of the text when there is none.
pub open spec fn find_sep(s: Seq<u8>, i: int) -> int
    recommends
        0 <= i,
    decreases s.len() - i,
{
    if i < 0 || i + 1 >= s.len() {
        s.len() as int
    } else if is_nl(s[i]) && is_nl(s[i + 1]) {
        i
    } else {
        find_sep(s, i + 1)
    }
}

/// Bounds of a newline-run end.
pub proof fn lemma_nl_end_bounds(s: Seq<u8>, i: int)
    requires
        0 <= i <= s.len(),
    ensures
        i <= nl_end(s, i) <= s.len(),
        forall|k: int| i <= k < nl_end(s, i) ==> is_nl(s[k]),
        nl_end(s, i) == s.len() || !is_nl(s[nl_end(s, i)]),
    decreases s.len() - i,
{
    if i < s.len() && is_nl(s[i]) {
        assert(nl_end(s, i) == nl_end(s, i + 1));
        lemma_nl_end_bounds(s, i + 1);
    } else {
        assert(nl_end(s, i) == i);
    }
}

/// Bounds of a separator search.
pub proof fn lemma_find_sep_bounds(s: Seq<u8>, i: int)
    requires
        0 <= i,
    ensures
        i <= find_sep(s, i) || find_sep(s, i) == s.len(),
        find_sep(s, i) <= s.len(),
        find_sep(s, i) + 1 < s.len() ==> is_nl(s[find_sep(s, i)]) && is_nl(
            s[find_sep(s, i) + 1],
        ),
    decreases s.len() - i,
{
    if i + 1 < s.len() && !(is_nl(s[i]) && is_nl(s[i + 1])) {
        assert(find_sep(s, i) == find_sep(s, i + 1));
        lemma_find_sep_bounds(s, i + 1);
    }
}

/// The rebuilt text of a formatted span: each block up to the next
/// blank-line run reflowed, with the runs themselves kept verbatim.
pub open spec fn naive_reflowed(s: Seq<u8>, i: int) -> Seq<u8>
    recommends
        0 <= i,
    decreases s.len() - i,
{
    let p = find_sep(s, i);
    if p + 1 >= s.len() {
        reflow(s.subrange(i, s.len() as int))
    } else {
        proof {
            lemma_find_sep_bounds(s, i);
            lemma_nl_end_bounds(s, p);
            assert(nl_end(s, p) == nl_end(s, p + 1));
            assert(nl_end(s, p + 1) == nl_end(s, p + 2));
        }
        reflow(s.subrange(i, p)) + s.subrange(p, nl_end(s, p)) + naive_reflowed(
            s,
            nl_end(s, p),
        )
    }
}

/// Whole-range formatting: one edit that replaces the span, snapped to the
/// start of its first line, with the rebuilt text.
pub trait LspRangeFormat {
    spec fn naive_text_bytes(&self) -> Seq<u8>;

    /// The single edit that rewraps the span. `None` exactly when the
    /// snapped start or the end does not resolve, or they are out of
    /// order.
    fn format(&self, range: PosRange) -> (r: Option<Vec<TextEdit>>)
        ensures
            match r {
                Some(edits) => {
                    let snapped = Position { line: range.start.line, character: 0 };
                    &&& pos_offset_of(self.naive_text_bytes(), snapped) is Some
                    &&& pos_offset_of(self.naive_text_bytes(), range.end) is Some
                    &&& {
                        let so = pos_offset_of(self.naive_text_bytes(), snapped)->Some_0;
                        let eo = pos_offset_of(self.naive_text_bytes(), range.end)->Some_0;
                        &&& so <= eo
                        &&& edits@.len() == 1
                        &&& edits@[0].range == (PosRange { start: snapped, end: range.end })
                        &&& encode_utf8(edits@[0].new_text@) == naive_reflowed(
                            self.naive_text_bytes().subrange(so, eo),
                            0,
                        )
                    }
                },
                None => match (
                    pos_offset_of(
                        self.naive_text_bytes(),
                        Position { line: range.start.line, character: 0 },
                    ),
                    pos_offset_of(self.naive_text_bytes(), range.end),
                ) {
                    (Some(so), Some(eo)) => so > eo,
                    _ => true,
                },
            },
    ;
}

impl<T: LspAdapter + SliceAccess> LspRangeFormat for T {
    open spec fn naive_text_bytes(&self) -> Seq<u8> {
        self.text_bytes()
    }

    fn format(&self, range: PosRange) -> (r: Option<Vec<TextEdit>>) {
        proof {
            self.text_valid();
        }
        let ghost tb = self.text_bytes();
        let snapped = Position { line: range.start.line, character: 0 };
        let so = match self.position_to_offset(&snapped) {
            Some(o) => o,
            None => { return None },
        };
        proof {
            lemma_pos_offset_some(tb, snapped.line as nat, 0, so as int);
        }
        let eo = match self.position_to_offset(&range.end) {
            Some(o) => o,
            None => { return None },
        };
        proof {
            lemma_pos_offset_some(
                tb,
                range.end.line as nat,
                range.end.character as nat,
                eo as int,
            );
        }
        if so > eo {
            return None;
        }
        let slice = self.slice(so, eo);
        let sb = slice.as_bytes();
        let m = sb.len();
        let ghost ss = slice.spec_bytes();
        let mut out = String::new();
        let mut i: usize = 0;
        proof {
            broadcast use vstd::utf8::encode_utf8_valid_utf8;

            assert(encode_utf8(out@) + naive_reflowed(ss, 0) =~= naive_reflowed(ss, 0));
        }
        while i < m
            invariant
                0 <= i <= m == ss.len(),
                sb@ == ss,
                valid_utf8(ss),
                slice.spec_bytes() == ss,
                i == 0 || is_nl(ss[i - 1]) || i == m,
                encode_utf8(out@) + naive_reflowed(ss, i as int) == naive_reflowed(ss, 0),
            decreases m - i,
        {
            // find the next blank-line run
            let mut p: usize = i;
            while m - p >= 2 && !(sb[p] == 10 && sb[p + 1] == 10)
                invariant
                    i <= p <= m == ss.len(),
                    sb@ == ss,
                    find_sep(ss, i as int) == find_sep(ss, p as int),
                decreases m - p,
            {
                proof {
                    assert(find_sep(ss, p as int) == find_sep(ss, p as int + 1));
                }
                p = p + 1;
            }
            let ghost gi = i as int;
            if m - p < 2 {
                proof {
                    assert(find_sep(ss, gi) + 1 >= ss.len());
                    lemma_boundary_from_context(ss, gi);
                    vstd::utf8::is_char_boundary_start_end_of_seq(ss);
                }
                let part = str_slice_range(slice, i, m);
                let formatted = process_section(part);
                let ghost o0 = out@;
                out.append(formatted.as_str());
                proof {
                    lemma_encode_utf8_concat(o0, formatted@);
                    assert(encode_utf8(out@) =~= encode_utf8(o0) + reflow(
                        ss.subrange(gi, ss.len() as int),
                    ));
                    assert(encode_utf8(out@) + naive_reflowed(ss, m as int)
                        =~= encode_utf8(out@));
                    assert(naive_reflowed(ss, m as int) =~= Seq::<u8>::empty());
                }
                i = m;
            } else {
                proof {
                    assert(find_sep(ss, gi) == p);
                    lemma_nl_end_bounds(ss, p as int);
                }
                let mut q: usize = p;
                while q < m && sb[q] == 10
                    invariant
                        p <= q <= m == ss.len(),
                        sb@ == ss,
                        nl_end(ss, p as int) == nl_end(ss, q as int),
                    decreases m - q,
                {
                    proof {
                        assert(nl_end(ss, q as int) == nl_end(ss, q as int + 1));
                    }
                    q = q + 1;
                }
                proof {
                    assert(nl_end(ss, q as int) == q);
                    assert(nl_end(ss, p as int) == q);
                    lemma_boundary_from_context(ss, gi);
                    vstd::utf8::is_char_boundary_iff_not_is_continuation_byte(
                        ss,
                        p as int,
                    );
                    if (q as int) < ss.len() {
                        lemma_boundary_after_ascii(ss, q as int);
                    } else {
                        vstd::utf8::is_char_boundary_start_end_of_seq(ss);
                    }
                }
                let part = str_slice_range(slice, i, p);
                let formatted = process_section(part);
                let sep = str_slice_range(slice, p, q);
                let ghost o0 = out@;
                out.append(formatted.as_str());
                out.append(sep);
                proof {
                    lemma_encode_utf8_concat(o0, formatted@);
                    lemma_encode_utf8_concat(o0 + formatted@, sep@);
                    assert((o0 + formatted@) + sep@ =~= out@);
                    assert(encode_utf8(out@) =~= encode_utf8(o0) + reflow(
                        ss.subrange(gi, p as int),
                    ) + ss.subrange(p as int, q as int));
                    assert(encode_utf8(o0) + (reflow(ss.subrange(gi, p as int))
                        + ss.subrange(p as int, q as int) + naive_reflowed(ss, q as int))
                        =~= encode_utf8(out@) + naive_reflowed(ss, q as int));
                }
                i = q;
            }
        }
        proof {
            assert(naive_reflowed(ss, m as int) =~= Seq::<u8>::empty());
            assert(encode_utf8(out@) =~= naive_reflowed(ss, 0));
            assert(ss == tb.subrange(so as int, eo as int));
        }
        Some(
            vec![
                TextEdit { range: PosRange { start: snapped, end: range.end }, new_text: out },
            ],
        )
    }
}

/// A block start within the span is a character boundary: the span start,
/// or the byte after a newline.
proof fn lemma_boundary_from_context(ss: Seq<u8>, i: int)
    requires
        valid_utf8(ss),
        0 <= i <= ss.len(),
        i == 0 || (i - 1 < ss.len() && is_nl(ss[i - 1])),
    ensures
        is_char_boundary(ss, i),
{
    if i == 0 {
        vstd::utf8::is_char_boundary_start_end_of_seq(ss);
    } else {
        lemma_boundary_after_ascii(ss, i);
    }
}

} // verus!
