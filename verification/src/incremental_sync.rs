//! Change events and their application to a document buffer.

use vstd::prelude::*;
use vstd::utf8::encode_utf8;
use vstd::string::StringSliceAdditionalSpecFns;
use crate::document_adapter::{Position, PosRange};
use crate::document::TextModel;
use crate::text::{pos_offset, splice_bytes};

verus! {

/// A text edit: replace the span covered by `range` with `new_text`.
#[derive(PartialEq, Eq, Clone, Debug)]
pub struct TextEdit {
    pub range: PosRange,
    pub new_text: String,
}

/// An editor change event. An absent range replaces the whole document.
#[derive(PartialEq, Eq, Clone, Debug)]
pub struct ChangeEvent {
    pub range: Option<PosRange>,
    pub text: String,
}

/// The offset a position denotes in `s`, if any.
pub open spec fn pos_offset_of(s: Seq<u8>, p: Position) -> Option<int> {
    pos_offset(s, p.line as nat, p.character as nat)
}

/// The buffer bytes after one change event. A change whose positions do not
/// resolve leaves the buffer unchanged.
pub open spec fn change_applied(s: Seq<u8>, c: ChangeEvent) -> Seq<u8> {
    match c.range {
        None => encode_utf8(c.text@),
        Some(rng) => match (pos_offset_of(s, rng.start), pos_offset_of(s, rng.end)) {
            (Some(sp), Some(ep)) => splice_bytes(s, sp, ep, encode_utf8(c.text@)),
            _ => s,
        },
    }
}

/// The buffer bytes after a sequence of change events, applied left to right.
pub open spec fn changes_applied(s: Seq<u8>, cs: Seq<ChangeEvent>) -> Seq<u8>
    decreases cs.len(),
{
    if cs.len() == 0 {
        s
    } else {
        changes_applied(change_applied(s, cs[0]), cs.drop_first())
    }
}

/// A text edit replayed as a change event.
pub open spec fn edit_as_change(e: TextEdit) -> ChangeEvent {
    ChangeEvent { range: Some(e.range), text: e.new_text }
}

/// The buffer bytes after a batch of text edits, applied in order.
pub open spec fn edits_applied(s: Seq<u8>, es: Seq<TextEdit>) -> Seq<u8>
    decreases es.len(),
{
    if es.len() == 0 {
        s
    } else {
        edits_applied(change_applied(s, edit_as_change(es[0])), es.drop_first())
    }
}

/// Incremental synchronisation: fold change events into a new buffer value.
pub trait IncrementalSync: TextModel + Sized {
    fn apply_change(self, change: ChangeEvent) -> (r: Self)
        ensures
            r.text_bytes() == change_applied(self.text_bytes(), change),
    ;

    /// Applies a batch of change events left to right.
    fn apply_changes(self, changes: Vec<ChangeEvent>) -> (r: Self)
        ensures
            r.text_bytes() == changes_applied(self.text_bytes(), changes@),
    {
        let mut rest = changes;
        let mut doc = self;
        let ghost all = changes@;
        let ghost orig = doc.text_bytes();
        while rest.len() > 0
            invariant
                changes_applied(doc.text_bytes(), rest@) == changes_applied(orig, all),
            decreases rest.len(),
        {
            let ghost before = rest@;
            let c = rest.remove(0);
            proof {
                assert(before.drop_first() =~= rest@);
            }
            doc = doc.apply_change(c);
        }
        doc
    }

    /// Replays a batch of text edits as change events, in order.
    fn apply_edits(self, edits: &Vec<TextEdit>) -> (r: Self)
        ensures
            r.text_bytes() == edits_applied(self.text_bytes(), edits@),
    {
        let mut doc = self;
        let ghost orig = doc.text_bytes();
        proof {
            assert(edits@.skip(0) =~= edits@);
        }
        let mut i: usize = 0;
        while i < edits.len()
            invariant
                0 <= i <= edits@.len(),
                edits_applied(doc.text_bytes(), edits@.skip(i as int)) == edits_applied(
                    orig,
                    edits@,
                ),
            decreases edits@.len() - i,
        {
            let e = &edits[i];
            let c = ChangeEvent { range: Some(e.range), text: e.new_text.clone() };
            proof {
                assert(edits@.skip(i as int)[0] == edits@[i as int]);
                assert(edits@.skip(i as int).drop_first() =~= edits@.skip(i as int + 1));
                assert(change_applied(doc.text_bytes(), c) == change_applied(
                    doc.text_bytes(),
                    edit_as_change(edits@[i as int]),
                ));
            }
            doc = doc.apply_change(c);
            i = i + 1;
        }
        proof {
            assert(edits@.skip(edits@.len() as int) =~= Seq::<TextEdit>::empty());
        }
        doc
    }
}

} // verus!
