//! The persistent rope buffer: ropey's `Rope` as the document store, with
//! range edits spliced by splitting and reassembling the rope.
//!
//! The rope's contents are modelled by the uninterpreted `rope_text`; each
//! wrapper states what the called ropey operation does to the contents, as
//! ropey's documentation gives it. The crate is built without ropey's
//! extra line-break features, so the only line separator is `\n`.

use vstd::prelude::*;
use vstd::utf8::{is_char_boundary, encode_utf8};
use vstd::string::StringSliceAdditionalSpecFns;
use crate::document::TextModel;
use crate::document_adapter::{Position, LspAdapter, str_offset_to_position,
    str_position_to_offset};
use crate::incremental_sync::{ChangeEvent, IncrementalSync};
use crate::text::{lemma_pos_offset_some, lemma_encode_utf8_concat};

verus! {

#[verifier::external_type_specification]
#[verifier::external_body]
pub struct ExRope(ropey::Rope);

/// The characters a rope holds.
pub uninterp spec fn rope_text(r: ropey::Rope) -> Seq<char>;

/// Relies on ropey::Rope::from_str: builds a rope holding the slice's text.
#[verifier::external_body]
pub fn rope_from_str(s: &str) -> (r: ropey::Rope)
    ensures
        rope_text(r) == s@,
{
    ropey::Rope::from_str(s)
}

/// Relies on ropey::Rope::clone: ropey's ropes are persistent, so a clone
/// holds the same text.
#[verifier::external_body]
fn rope_clone(r: &ropey::Rope) -> (c: ropey::Rope)
    ensures
        rope_text(c) == rope_text(*r),
{
    r.clone()
}

/// Relies on String::from for &Rope: returns the rope's contents.
#[verifier::external_body]
pub fn rope_to_string(r: &ropey::Rope) -> (s: String)
    ensures
        s@ == rope_text(*r),
{
    String::from(r)
}

/// Relies on ropey::Rope::split_off: the rope keeps the text before the
/// character index and the returned rope holds the rest.
#[verifier::external_body]
fn rope_split_off(r: &mut ropey::Rope, char_idx: usize) -> (tail: ropey::Rope)
    requires
        char_idx <= rope_text(*old(r)).len(),
    ensures
        rope_text(*final(r)) == rope_text(*old(r)).take(char_idx as int),
        rope_text(tail) == rope_text(*old(r)).skip(char_idx as int),
{
    r.split_off(char_idx)
}

/// Relies on ropey::Rope::append: concatenates the other rope's text.
#[verifier::external_body]
fn rope_append(r: &mut ropey::Rope, other: ropey::Rope)
    ensures
        rope_text(*final(r)) == rope_text(*old(r)) + rope_text(other),
{
    r.append(other)
}

/// Relies on ropey::Rope::byte_to_char: on a character boundary, the byte
/// index converts to the index of the character starting there.
#[verifier::external_body]
fn rope_byte_to_char(r: &ropey::Rope, byte_idx: usize) -> (c: usize)
    requires
        byte_idx <= encode_utf8(rope_text(*r)).len(),
        is_char_boundary(encode_utf8(rope_text(*r)), byte_idx as int),
    ensures
        c <= rope_text(*r).len(),
        encode_utf8(rope_text(*r).take(c as int)).len() == byte_idx,
{
    r.byte_to_char(byte_idx)
}

impl TextModel for ropey::Rope {
    open spec fn text_bytes(&self) -> Seq<u8> {
        encode_utf8(rope_text(*self))
    }

    proof fn text_valid(&self) {
        broadcast use vstd::utf8::encode_utf8_valid_utf8;

    }
}

impl LspAdapter for ropey::Rope {
    fn offset_to_position(&self, offset: usize) -> (r: Option<Position>) {
        let s = rope_to_string(self);
        let st = s.as_str();
        proof {
            assert(st.spec_bytes() == self.text_bytes());
        }
        str_offset_to_position(st, offset)
    }

    fn position_to_offset(&self, position: &Position) -> (r: Option<usize>) {
        let s = rope_to_string(self);
        let st = s.as_str();
        proof {
            assert(st.spec_bytes() == self.text_bytes());
        }
        str_position_to_offset(st, position)
    }
}

impl IncrementalSync for ropey::Rope {
    fn apply_change(self, change: ChangeEvent) -> (r: Self) {
        proof {
            broadcast use vstd::utf8::encode_utf8_valid_utf8;

        }
        let ghost cs = rope_text(self);
        let rng = match change.range {
            None => { return rope_from_str(change.text.as_str()) },
            Some(rng) => rng,
        };
        let sp = match self.position_to_offset(&rng.start) {
            Some(o) => o,
            None => { return self },
        };
        let ep = match self.position_to_offset(&rng.end) {
            Some(o) => o,
            None => {
                proof {
                    lemma_pos_offset_some(
                        self.text_bytes(),
                        rng.start.line as nat,
                        rng.start.character as nat,
                        sp as int,
                    );
                }
                return self
            },
        };
        proof {
            lemma_pos_offset_some(
                self.text_bytes(),
                rng.start.line as nat,
                rng.start.character as nat,
                sp as int,
            );
            lemma_pos_offset_some(
                self.text_bytes(),
                rng.end.line as nat,
                rng.end.character as nat,
                ep as int,
            );
        }
        let sp_char = rope_byte_to_char(&self, sp);
        let ep_char = rope_byte_to_char(&self, ep);
        let mut left = rope_clone(&self);
        let _discard = rope_split_off(&mut left, sp_char);
        let mut tail_src = self;
        let tail = rope_split_off(&mut tail_src, ep_char);
        let mut ret = left;
        rope_append(&mut ret, rope_from_str(change.text.as_str()));
        rope_append(&mut ret, tail);
        proof {
            let full = encode_utf8(cs);
            assert(cs =~= cs.take(sp_char as int) + cs.skip(sp_char as int));
            lemma_encode_utf8_concat(cs.take(sp_char as int), cs.skip(sp_char as int));
            assert(encode_utf8(cs.take(sp_char as int)) =~= full.subrange(0, sp as int));
            assert(cs =~= cs.take(ep_char as int) + cs.skip(ep_char as int));
            lemma_encode_utf8_concat(cs.take(ep_char as int), cs.skip(ep_char as int));
            assert(encode_utf8(cs.skip(ep_char as int)) =~= full.subrange(
                ep as int,
                full.len() as int,
            ));
            lemma_encode_utf8_concat(cs.take(sp_char as int), change.text@);
            lemma_encode_utf8_concat(
                cs.take(sp_char as int) + change.text@,
                cs.skip(ep_char as int),
            );
            assert(rope_text(ret) =~= (cs.take(sp_char as int) + change.text@) + cs.skip(
                ep_char as int,
            ));
            assert(ret.text_bytes() =~= crate::text::splice_bytes(
                full,
                sp as int,
                ep as int,
                encode_utf8(change.text@),
            ));
        }
        ret
    }
}

} // verus!
