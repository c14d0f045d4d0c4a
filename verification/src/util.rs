//! A borrowed-text document and the reference applicator for edit batches.

use vstd::prelude::*;
use vstd::utf8::{is_char_boundary, valid_utf8, encode_utf8};
use vstd::string::StringSliceAdditionalSpecFns;
use vstd::string::StringExecFns;
use crate::document::{TextModel, SliceAccess};
use crate::document_adapter::{Position, PosRange, LspAdapter, str_offset_to_position,
    str_position_to_offset};
use crate::incremental_sync::{TextEdit, pos_offset_of};
use crate::text::{line_at, col_at, lemma_pos_offset_some, lemma_encode_utf8_concat, str_slice_range};

verus! {

/// A read-only document borrowing its text.
pub struct TestDoc<'a>(pub &'a str);

/// The document bytes produced by applying `edits` in order, where
/// `last` bytes of output have already been emitted: each edit keeps the
/// text between the previous edit's end and its own start, then inserts its
/// replacement. `None` when a position does not resolve or the edits are
/// not ordered by non-overlapping start offsets.
pub open spec fn apply_edits_from(s: Seq<u8>, edits: Seq<TextEdit>, last: int) -> Option<
    Seq<u8>,
>
    decreases edits.len(),
{
    if edits.len() == 0 {
        Some(s.subrange(last, s.len() as int))
    } else {
        let e = edits[0];
        match (pos_offset_of(s, e.range.start), pos_offset_of(s, e.range.end)) {
            (Some(sp), Some(ep)) => if last <= sp {
                match apply_edits_from(s, edits.drop_first(), ep) {
                    Some(rest) => Some(
                        s.subrange(last, sp) + encode_utf8(e.new_text@) + rest,
                    ),
                    None => None,
                }
            } else {
                None
            },
            _ => None,
        }
    }
}

impl<'a> TestDoc<'a> {
    /// Applies a batch of edits against the original text, by byte offset.
    /// Returns `None` when an edit's position does not resolve or the edits
    /// are not sorted by non-overlapping start offsets.
    pub fn apply_edits(&self, edits: &[TextEdit]) -> (r: Option<String>)
        ensures
            match r {
                Some(out) => apply_edits_from(self.text_bytes(), edits@, 0) == Some(
                    encode_utf8(out@),
                ),
                None => apply_edits_from(self.text_bytes(), edits@, 0) is None,
            },
    {
        proof {
            broadcast use vstd::utf8::encode_utf8_valid_utf8;

        }
        let ghost bs = self.text_bytes();
        let n = self.0.as_bytes().len();
        let mut ret = String::new();
        let mut last: usize = 0;
        let mut i: usize = 0;
        proof {
            assert(edits@.skip(0) =~= edits@);
            assert(encode_utf8(ret@) =~= Seq::<u8>::empty());
            vstd::utf8::is_char_boundary_start_end_of_seq(bs);
            if apply_edits_from(bs, edits@, 0) is Some {
                let suf = apply_edits_from(bs, edits@, 0)->Some_0;
                assert(encode_utf8(ret@) + suf =~= suf);
            }
        }
        while i < edits.len()
            invariant
                0 <= i <= edits@.len(),
                bs == self.text_bytes(),
                n == bs.len(),
                valid_utf8(bs),
                last <= n,
                is_char_boundary(bs, last as int),
                self.0.spec_bytes() == bs,
                match apply_edits_from(bs, edits@.skip(i as int), last as int) {
                    Some(suf) => apply_edits_from(bs, edits@, 0) == Some(
                        encode_utf8(ret@) + suf,
                    ),
                    None => apply_edits_from(bs, edits@, 0) is None,
                },
            decreases edits@.len() - i,
        {
            let e = &edits[i];
            proof {
                assert(edits@.skip(i as int)[0] == edits@[i as int]);
                assert(edits@.skip(i as int).drop_first() =~= edits@.skip(i as int + 1));
            }
            let sp = match str_position_to_offset(self.0, &e.range.start) {
                Some(o) => o,
                None => { return None },
            };
            proof {
                lemma_pos_offset_some(
                    bs,
                    e.range.start.line as nat,
                    e.range.start.character as nat,
                    sp as int,
                );
            }
            let ep = match str_position_to_offset(self.0, &e.range.end) {
                Some(o) => o,
                None => { return None },
            };
            proof {
                lemma_pos_offset_some(
                    bs,
                    e.range.end.line as nat,
                    e.range.end.character as nat,
                    ep as int,
                );
            }
            if last > sp {
                return None;
            }
            let kept = str_slice_range(self.0, last, sp);
            let ghost ret0 = ret@;
            ret.append(kept);
            ret.append(e.new_text.as_str());
            proof {
                lemma_encode_utf8_concat(ret0, kept@);
                lemma_encode_utf8_concat(ret0 + kept@, e.new_text@);
                assert((ret0 + kept@) + e.new_text@ =~= ret@);
                assert(encode_utf8(ret@) =~= encode_utf8(ret0) + bs.subrange(
                    last as int,
                    sp as int,
                ) + encode_utf8(e.new_text@));
                if apply_edits_from(bs, edits@.skip(i as int + 1), ep as int) is Some {
                    let suf = apply_edits_from(
                        bs,
                        edits@.skip(i as int + 1),
                        ep as int,
                    )->Some_0;
                    assert(encode_utf8(ret0) + (bs.subrange(last as int, sp as int)
                        + encode_utf8(e.new_text@) + suf) =~= encode_utf8(ret@) + suf);
                }
            }
            last = ep;
            i = i + 1;
        }
        proof {
            assert(edits@.skip(edits@.len() as int) =~= Seq::<TextEdit>::empty());
            vstd::utf8::is_char_boundary_start_end_of_seq(bs);
        }
        let tail = str_slice_range(self.0, last, n);
        let ghost ret0 = ret@;
        ret.append(tail);
        proof {
            lemma_encode_utf8_concat(ret0, tail@);
            assert(encode_utf8(ret@) =~= encode_utf8(ret0) + bs.subrange(
                last as int,
                n as int,
            ));
        }
        Some(ret)
    }
}

impl<'a> TextModel for TestDoc<'a> {
    open spec fn text_bytes(&self) -> Seq<u8> {
        self.0.spec_bytes()
    }

    proof fn text_valid(&self) {
        broadcast use vstd::utf8::encode_utf8_valid_utf8;

    }
}

impl<'a> SliceAccess for TestDoc<'a> {
    fn slice<'b>(&'b self, start: usize, end: usize) -> (r: &'b str) {
        str_slice_range(self.0, start, end)
    }
}

impl<'a> LspAdapter for TestDoc<'a> {
    fn offset_to_position(&self, offset: usize) -> (r: Option<Position>) {
        str_offset_to_position(self.0, offset)
    }

    fn position_to_offset(&self, position: &Position) -> (r: Option<usize>) {
        str_position_to_offset(self.0, position)
    }
}

/// Builds a `TextEdit` from byte offsets instead of positions.
pub trait QuickEdit {
    spec fn edit_text_bytes(&self) -> Seq<u8>;

    /// `None` when either offset is past the end or not on a boundary.
    fn edit(&self, soff: usize, eoff: usize, new_text: &str) -> (r: Option<TextEdit>)
        ensures
            match r {
                Some(e) => {
                    &&& is_char_boundary(self.edit_text_bytes(), soff as int)
                    &&& is_char_boundary(self.edit_text_bytes(), eoff as int)
                    &&& e.range.start == (Position {
                        line: line_at(self.edit_text_bytes(), soff as int) as usize,
                        character: col_at(self.edit_text_bytes(), soff as int) as usize,
                    })
                    &&& e.range.end == (Position {
                        line: line_at(self.edit_text_bytes(), eoff as int) as usize,
                        character: col_at(self.edit_text_bytes(), eoff as int) as usize,
                    })
                    &&& e.new_text@ == new_text@
                },
                None => !is_char_boundary(self.edit_text_bytes(), soff as int)
                    || !is_char_boundary(self.edit_text_bytes(), eoff as int),
            },
    ;
}

impl<T: LspAdapter> QuickEdit for T {
    open spec fn edit_text_bytes(&self) -> Seq<u8> {
        self.text_bytes()
    }

    fn edit(&self, soff: usize, eoff: usize, new_text: &str) -> (r: Option<TextEdit>) {
        let start = match self.offset_to_position(soff) {
            Some(p) => p,
            None => { return None },
        };
        let end = match self.offset_to_position(eoff) {
            Some(p) => p,
            None => { return None },
        };
        Some(TextEdit { range: PosRange { start, end }, new_text: new_text.to_owned() })
    }
}

} // verus!
