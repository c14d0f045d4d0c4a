//! The incremental document: a rope buffer paired with its Markdown syntax
//! tree, advanced in place on each edit, with tree-driven sectioning and
//! block reflow.

use vstd::prelude::*;
use vstd::utf8::{is_char_boundary, valid_utf8, encode_utf8};
use vstd::string::StringSliceAdditionalSpecFns;
use vstd::string::StringExecFns;
use crate::document::{TextModel, Section, ByteRange, section_in_text};
use crate::document_adapter::{Position, PosRange, LspAdapter, str_offset_to_position,
    str_position_to_offset};
use crate::incremental_sync::{ChangeEvent, IncrementalSync, TextEdit, change_applied,
    pos_offset_of};
use crate::processors::{reflow, is_ws, process_section};
use crate::rope_buf::{rope_text, rope_from_str, rope_to_string};
use crate::text::{line_at, col_at, line_start_of, lemma_pos_offset_some,
    lemma_count_nl_step, lemma_count_nl_le_len, lemma_encode_utf8_concat,
    str_slice_range, splice_bytes};
use crate::treesitter::{
    tree_source, md_parse, md_reparse, md_blocks, md_sections, tree_blocks,
    tree_sections,
};

verus! {

/// Whitespace trimmed from a block's end before reflowing it.
pub open spec fn is_trailing_ws(b: u8) -> bool {
    is_ws(b) || b == 10
}

/// Start of the run of trailing whitespace of `s[a..b)`.
pub open spec fn trim_end_pos(s: Seq<u8>, a: int, b: int) -> int
    decreases b - a,
{
    if a < b <= s.len() && is_trailing_ws(s[b - 1]) {
        trim_end_pos(s, a, b - 1)
    } else {
        b
    }
}

/// The text a reflowed block is replaced with: the block without its
/// trailing whitespace, rewrapped, with that whitespace kept verbatim.
pub open spec fn block_new_text(s: Seq<u8>, a: int, b: int) -> Seq<u8> {
    let te = trim_end_pos(s, a, b);
    reflow(s.subrange(a, te)) + s.subrange(te, b)
}

/// An entry of the reported sections that fits the text: the spans are
/// ordered with the title inside the section, lie within the text on
/// character boundaries, and start at or after `lo`, the end of the
/// previous kept section.
pub open spec fn sane_section(s: Seq<u8>, e: (usize, usize, usize, usize), lo: int) -> bool {
    &&& lo <= e.2
    &&& e.2 <= e.0 && e.0 <= e.1 && e.1 <= e.3 && e.3 <= s.len()
    &&& is_char_boundary(s, e.0 as int)
    &&& is_char_boundary(s, e.1 as int)
    &&& is_char_boundary(s, e.2 as int)
    &&& is_char_boundary(s, e.3 as int)
}

/// The reported sections kept in document order: each entry that fits the
/// text after the previous kept section becomes a `Section`; entries that
/// do not (error nodes, out-of-order or out-of-bounds spans) are skipped.
pub open spec fn select_sections(
    es: Seq<(usize, usize, usize, usize)>,
    s: Seq<u8>,
    lo: int,
) -> Seq<Section>
    decreases es.len(),
{
    if es.len() == 0 {
        Seq::empty()
    } else if sane_section(s, es[0], lo) {
        seq![
            Section {
                title: ByteRange { start: es[0].0, end: es[0].1 },
                range: ByteRange { start: es[0].2, end: es[0].3 },
            },
        ] + select_sections(es.drop_first(), s, es[0].3 as int)
    } else {
        select_sections(es.drop_first(), s, lo)
    }
}

/// The selected sections lie in the text, each with its title inside its
/// span, starting at or after `lo`, and each section ends at or before the
/// next one starts: they are ordered and non-overlapping.
pub proof fn lemma_select_sections_props(
    es: Seq<(usize, usize, usize, usize)>,
    s: Seq<u8>,
    lo: int,
)
    requires
        0 <= lo,
    ensures
        forall|k: int|
            0 <= k < select_sections(es, s, lo).len() ==> section_in_text(
                s,
                #[trigger] select_sections(es, s, lo)[k],
            ),
        forall|k: int|
            0 <= k < select_sections(es, s, lo).len() ==> (#[trigger] select_sections(
                es,
                s,
                lo,
            )[k]).range.start <= select_sections(es, s, lo)[k].title.start
                && select_sections(es, s, lo)[k].title.end <= select_sections(
                es,
                s,
                lo,
            )[k].range.end,
        forall|k: int|
            0 <= k < select_sections(es, s, lo).len() ==> lo <= (
            #[trigger] select_sections(es, s, lo)[k]).range.start,
        forall|k: int|
            0 <= k && k + 1 < select_sections(es, s, lo).len() ==> (
            #[trigger] select_sections(es, s, lo)[k]).range.end <= select_sections(
                es,
                s,
                lo,
            )[k + 1].range.start,
    decreases es.len(),
{
    if es.len() > 0 {
        if sane_section(s, es[0], lo) {
            lemma_select_sections_props(es.drop_first(), s, es[0].3 as int);
            assert(select_sections(es, s, lo)[0] == (Section {
                title: ByteRange { start: es[0].0, end: es[0].1 },
                range: ByteRange { start: es[0].2, end: es[0].3 },
            }));
            assert(section_in_text(s, select_sections(es, s, lo)[0]));
            assert forall|k: int|
                1 <= k < select_sections(es, s, lo).len() implies #[trigger] select_sections(
                es,
                s,
                lo,
            )[k] == select_sections(es.drop_first(), s, es[0].3 as int)[k - 1] by {}
        } else {
            lemma_select_sections_props(es.drop_first(), s, lo);
            assert forall|k: int|
                0 <= k < select_sections(es, s, lo).len() implies #[trigger] select_sections(
                es,
                s,
                lo,
            )[k] == select_sections(es.drop_first(), s, lo)[k] by {}
        }
    }
}

/// A reported block the formatter acts on: non-empty, within the text on
/// character boundaries, starting at or after the end of the previous kept
/// block (so a block nested in a kept one is passed over), and overlapping
/// the requested span `[so, eo)`.
pub open spec fn sane_block(s: Seq<u8>, b: (usize, usize), lo: int, so: int, eo: int) -> bool {
    &&& lo <= b.0 && b.0 < b.1 && b.1 <= s.len()
    &&& is_char_boundary(s, b.0 as int)
    &&& is_char_boundary(s, b.1 as int)
    &&& b.0 < eo && so < b.1
}

/// The reported blocks the formatter reflows, in order: blocks nested in a
/// kept block and blocks outside the requested span yield nothing.
pub open spec fn select_blocks(
    bs: Seq<(usize, usize)>,
    s: Seq<u8>,
    lo: int,
    so: int,
    eo: int,
) -> Seq<(usize, usize)>
    decreases bs.len(),
{
    if bs.len() == 0 {
        Seq::empty()
    } else if sane_block(s, bs[0], lo, so, eo) {
        seq![bs[0]] + select_blocks(bs.drop_first(), s, bs[0].1 as int, so, eo)
    } else {
        select_blocks(bs.drop_first(), s, lo, so, eo)
    }
}

/// `e` replaces the block `[a, b)` of `s` with its reflowed text.
pub open spec fn is_block_edit(s: Seq<u8>, a: int, b: int, e: TextEdit) -> bool {
    &&& e.range.start == (Position {
        line: line_at(s, a) as usize,
        character: col_at(s, a) as usize,
    })
    &&& e.range.end == (Position {
        line: line_at(s, b) as usize,
        character: col_at(s, b) as usize,
    })
    &&& encode_utf8(e.new_text@) == block_new_text(s, a, b)
}

/// The (line, byte-column) point of a byte offset, as the syntax tree
/// counts positions.
pub fn str_byte_point(s: &str, offset: usize) -> (r: (usize, usize))
    requires
        offset <= s.spec_bytes().len(),
    ensures
        r.0 == line_at(s.spec_bytes(), offset as int),
        r.1 == offset - line_start_of(s.spec_bytes(), offset as int),
{
    let b = s.as_bytes();
    let ghost bs = s.spec_bytes();
    let mut i: usize = 0;
    let mut line: usize = 0;
    let mut ls: usize = 0;
    while i < offset
        invariant
            0 <= i <= offset <= bs.len(),
            b@ == bs,
            line == line_at(bs, i as int),
            ls == line_start_of(bs, i as int),
            ls <= i,
        decreases offset - i,
    {
        proof {
            lemma_count_nl_step(bs, i as int);
            lemma_count_nl_le_len(bs.take(i as int + 1));
        }
        if b[i] == 10 {
            line = line + 1;
            ls = i + 1;
        }
        i = i + 1;
    }
    (line, offset - ls)
}

/// A rope buffer with the syntax tree of its contents.
pub struct Formatter {
    buf: ropey::Rope,
    tree: tree_sitter::Tree,
}

impl Formatter {
    /// The tree is always the parse of the held text.
    #[verifier::type_invariant]
    spec fn wf(self) -> bool {
        &&& tree_source(self.tree) == encode_utf8(rope_text(self.buf))
        &&& encode_utf8(rope_text(self.buf)).len() <= usize::MAX
    }

    /// The text the held tree is a parse of.
    pub closed spec fn parse_source(&self) -> Seq<u8> {
        tree_source(self.tree)
    }

    /// Parses the buffer from scratch. The resulting tree is the parse of
    /// exactly the held text.
    pub fn new(buf: ropey::Rope) -> (r: Formatter)
        ensures
            r.text_bytes() == encode_utf8(rope_text(buf)),
            r.parse_source() == r.text_bytes(),
    {
        let s = rope_to_string(&buf);
        let st = s.as_str();
        let n = st.as_bytes().len();
        let tree = md_parse(st);
        Formatter { buf, tree }
    }

    /// The sections read off the syntax tree: for each top-level `section`
    /// node opening with a heading, the heading's title span and the node's
    /// own span, in document order. Entries whose spans do not fit the text
    /// (error nodes) or overlap a kept section are skipped, exactly as
    /// `select_sections` lays it out; so the result is ordered and
    /// non-overlapping, every section lies within the text on character
    /// boundaries, and each title sits inside its section.
    pub fn sections(&self) -> (r: Vec<Section>)
        ensures
            self.parse_source() == self.text_bytes(),
            r@ == select_sections(md_sections(self.parse_source()), self.text_bytes(), 0),
            forall|i: int|
                0 <= i < r@.len() ==> #[trigger] section_in_text(self.text_bytes(), r@[i])
                    && r@[i].range.start <= r@[i].title.start && r@[i].title.end
                    <= r@[i].range.end,
            forall|i: int|
                0 <= i && i + 1 < r@.len() ==> (#[trigger] r@[i]).range.end
                    <= r@[i + 1].range.start,
    {
        proof {
            use_type_invariant(&*self);
            self.text_valid();
        }
        let s = rope_to_string(&self.buf);
        let st = s.as_str();
        let n = st.as_bytes().len();
        let ghost tb = self.text_bytes();
        proof {
            assert(st.spec_bytes() == tree_source(self.tree));
        }
        let raw = tree_sections(&self.tree, st);
        let ghost total = select_sections(raw@, tb, 0);
        let mut ret: Vec<Section> = Vec::new();
        let mut prev_end: usize = 0;
        let mut i: usize = 0;
        proof {
            assert(raw@.skip(0) =~= raw@);
            assert(ret@ + total =~= total);
        }
        while i < raw.len()
            invariant
                0 <= i <= raw@.len(),
                tb == self.text_bytes(),
                st.spec_bytes() == tb,
                n == tb.len(),
                raw@ == md_sections(self.parse_source()),
                total == select_sections(md_sections(self.parse_source()), tb, 0),
                ret@ + select_sections(raw@.skip(i as int), tb, prev_end as int) == total,
            decreases raw@.len() - i,
        {
            let e = raw[i];
            proof {
                assert(raw@.skip(i as int)[0] == raw@[i as int]);
                assert(raw@.skip(i as int).drop_first() =~= raw@.skip(i as int + 1));
            }
            if prev_end <= e.2 && e.2 <= e.0 && e.0 <= e.1 && e.1 <= e.3 && e.3 <= n
                && st.is_char_boundary(e.0) && st.is_char_boundary(e.1)
                && st.is_char_boundary(e.2) && st.is_char_boundary(e.3) {
                proof {
                    assert(sane_section(tb, raw@[i as int], prev_end as int));
                }
                let ghost ret0 = ret@;
                ret.push(
                    Section {
                        title: ByteRange { start: e.0, end: e.1 },
                        range: ByteRange { start: e.2, end: e.3 },
                    },
                );
                proof {
                    assert(ret0 + (seq![ret@[ret@.len() - 1]] + select_sections(
                        raw@.skip(i as int + 1),
                        tb,
                        e.3 as int,
                    )) =~= ret@ + select_sections(raw@.skip(i as int + 1), tb, e.3 as int));
                }
                prev_end = e.3;
            } else {
                proof {
                    assert(!sane_section(tb, raw@[i as int], prev_end as int));
                }
            }
            i = i + 1;
        }
        proof {
            assert(raw@.skip(raw@.len() as int) =~= Seq::<(usize, usize, usize, usize)>::empty());
            assert(ret@ + Seq::<Section>::empty() =~= ret@);
            lemma_select_sections_props(md_sections(self.parse_source()), tb, 0);
        }
        ret
    }

    /// Reflows the paragraph and list blocks of the tree that overlap the
    /// requested range: one edit per block, in document order, each
    /// replacing its block with the block's rewrapped text, exactly as
    /// `select_blocks` lays the blocks out (blocks nested in a reflowed
    /// block and blocks outside the range yield nothing — in particular no
    /// edit touches a fenced code block). `None` exactly when an endpoint
    /// of the range does not resolve to an offset.
    pub fn format(&self, range: PosRange) -> (r: Option<Vec<TextEdit>>)
        ensures
            match r {
                Some(edits) => {
                    &&& self.parse_source() == self.text_bytes()
                    &&& pos_offset_of(self.text_bytes(), range.start) is Some
                    &&& pos_offset_of(self.text_bytes(), range.end) is Some
                    &&& {
                        let so = pos_offset_of(self.text_bytes(), range.start)->Some_0;
                        let eo = pos_offset_of(self.text_bytes(), range.end)->Some_0;
                        let sel = select_blocks(
                            md_blocks(self.parse_source()),
                            self.text_bytes(),
                            0,
                            so,
                            eo,
                        );
                        &&& edits@.len() == sel.len()
                        &&& forall|k: int|
                            0 <= k < sel.len() ==> is_block_edit(
                                self.text_bytes(),
                                sel[k].0 as int,
                                sel[k].1 as int,
                                #[trigger] edits@[k],
                            )
                    }
                },
                None => pos_offset_of(self.text_bytes(), range.start) is None
                    || pos_offset_of(self.text_bytes(), range.end) is None,
            },
    {
        proof {
            use_type_invariant(&*self);
            self.text_valid();
        }
        let s = rope_to_string(&self.buf);
        let st = s.as_str();
        let n = st.as_bytes().len();
        let ghost tb = self.text_bytes();
        let so = match str_position_to_offset(st, &range.start) {
            Some(o) => o,
            None => { return None },
        };
        proof {
            lemma_pos_offset_some(
                tb,
                range.start.line as nat,
                range.start.character as nat,
                so as int,
            );
        }
        let eo = match str_position_to_offset(st, &range.end) {
            Some(o) => o,
            None => { return None },
        };
        proof {
            lemma_pos_offset_some(
                tb,
                range.end.line as nat,
                range.end.character as nat,
                eo as int,
            );
            assert(st.spec_bytes() == tree_source(self.tree));
        }
        let raw = tree_blocks(&self.tree, st);
        let ghost total = select_blocks(raw@, tb, 0, so as int, eo as int);
        let mut edits: Vec<TextEdit> = Vec::new();
        let ghost mut gsel: Seq<(usize, usize)> = Seq::empty();
        let mut prev_end: usize = 0;
        let mut k: usize = 0;
        proof {
            assert(raw@.skip(0) =~= raw@);
            assert(gsel + total =~= total);
        }
        while k < raw.len()
            invariant
                0 <= k <= raw@.len(),
                tb == self.text_bytes(),
                st.spec_bytes() == tb,
                n == tb.len(),
                valid_utf8(tb),
                raw@ == md_blocks(self.parse_source()),
                total == select_blocks(
                    md_blocks(self.parse_source()),
                    tb,
                    0,
                    so as int,
                    eo as int,
                ),
                gsel + select_blocks(
                    raw@.skip(k as int),
                    tb,
                    prev_end as int,
                    so as int,
                    eo as int,
                ) == total,
                edits@.len() == gsel.len(),
                forall|j: int|
                    0 <= j < gsel.len() ==> is_block_edit(
                        tb,
                        gsel[j].0 as int,
                        gsel[j].1 as int,
                        #[trigger] edits@[j],
                    ),
            decreases raw@.len() - k,
        {
            let (a, b) = raw[k];
            proof {
                assert(raw@.skip(k as int)[0] == raw@[k as int]);
                assert(raw@.skip(k as int).drop_first() =~= raw@.skip(k as int + 1));
            }
            if prev_end <= a && a < b && b <= n && a < eo && so < b
                && st.is_char_boundary(a) && st.is_char_boundary(b) {
                proof {
                    assert(sane_block(tb, raw@[k as int], prev_end as int, so as int, eo as int));
                }
                let e = block_edit(st, a, b);
                let ghost gsel0 = gsel;
                let ghost prev = edits@;
                edits.push(e);
                proof {
                    gsel = gsel.push(raw@[k as int]);
                    assert(gsel0 + (seq![raw@[k as int]] + select_blocks(
                        raw@.skip(k as int + 1),
                        tb,
                        b as int,
                        so as int,
                        eo as int,
                    )) =~= gsel + select_blocks(
                        raw@.skip(k as int + 1),
                        tb,
                        b as int,
                        so as int,
                        eo as int,
                    ));
                    assert forall|j: int|
                        0 <= j < gsel.len() implies is_block_edit(
                        tb,
                        gsel[j].0 as int,
                        gsel[j].1 as int,
                        #[trigger] edits@[j],
                    ) by {
                        if j < gsel.len() - 1 {
                            assert(edits@[j] == prev[j]);
                            assert(gsel[j] == gsel0[j]);
                        } else {
                            assert(edits@[j] == e);
                            assert(gsel[j] == raw@[k as int]);
                        }
                    }
                }
                prev_end = b;
            } else {
                proof {
                    assert(!sane_block(tb, raw@[k as int], prev_end as int, so as int, eo as int));
                }
            }
            k = k + 1;
        }
        proof {
            assert(raw@.skip(raw@.len() as int) =~= Seq::<(usize, usize)>::empty());
            assert(gsel + Seq::<(usize, usize)>::empty() =~= gsel);
        }
        Some(edits)
    }
}

/// Builds the edit replacing block `[a, b)` with its reflowed text.
fn block_edit(st: &str, a: usize, b: usize) -> (e: TextEdit)
    requires
        a <= b <= st.spec_bytes().len(),
        is_char_boundary(st.spec_bytes(), a as int),
        is_char_boundary(st.spec_bytes(), b as int),
    ensures
        is_block_edit(st.spec_bytes(), a as int, b as int, e),
{
    proof {
        broadcast use vstd::utf8::encode_utf8_valid_utf8;

    }
    let ghost tb = st.spec_bytes();
    let sb = st.as_bytes();
    let mut te: usize = b;
    while te > a && (sb[te - 1] == 9 || sb[te - 1] == 10 || sb[te - 1] == 11 || sb[te - 1]
        == 12 || sb[te - 1] == 13 || sb[te - 1] == 32)
        invariant
            a <= te <= b <= tb.len(),
            sb@ == tb,
            valid_utf8(tb),
            te == b || is_trailing_ws(tb[te as int]),
            trim_end_pos(tb, a as int, b as int) == trim_end_pos(tb, a as int, te as int),
        decreases te,
    {
        te = te - 1;
    }
    proof {
        assert(trim_end_pos(tb, a as int, te as int) == te as int);
        assert(is_char_boundary(tb, te as int)) by {
            if te < b {
                vstd::utf8::is_char_boundary_iff_not_is_continuation_byte(tb, te as int);
            }
        }
    }
    let core = str_slice_range(st, a, te);
    let mut new_text = process_section(core);
    let tail = str_slice_range(st, te, b);
    let ghost nt0 = new_text@;
    new_text.append(tail);
    let start = match str_offset_to_position(st, a) {
        Some(p) => p,
        None => { return TextEdit { range: PosRange { start: Position { line: 0, character: 0 }, end: Position { line: 0, character: 0 } }, new_text } },
    };
    let end = match str_offset_to_position(st, b) {
        Some(p) => p,
        None => { return TextEdit { range: PosRange { start, end: start }, new_text } },
    };
    proof {
        lemma_encode_utf8_concat(nt0, tail@);
        assert(nt0 + tail@ =~= new_text@);
        assert(encode_utf8(new_text@) =~= block_new_text(tb, a as int, b as int));
    }
    TextEdit { range: PosRange { start, end }, new_text }
}

impl TextModel for Formatter {
    closed spec fn text_bytes(&self) -> Seq<u8> {
        encode_utf8(rope_text(self.buf))
    }

    proof fn text_valid(&self) {
        broadcast use vstd::utf8::encode_utf8_valid_utf8;

    }
}

impl LspAdapter for Formatter {
    fn offset_to_position(&self, offset: usize) -> (r: Option<Position>) {
        let s = rope_to_string(&self.buf);
        let st = s.as_str();
        proof {
            assert(st.spec_bytes() == self.text_bytes());
        }
        str_offset_to_position(st, offset)
    }

    fn position_to_offset(&self, position: &Position) -> (r: Option<usize>) {
        let s = rope_to_string(&self.buf);
        let st = s.as_str();
        proof {
            assert(st.spec_bytes() == self.text_bytes());
        }
        str_position_to_offset(st, position)
    }
}

impl IncrementalSync for Formatter {
    /// On a range edit, splices the rope, informs the tree of the edit's
    /// byte and point spans, and reparses with the old tree as the hint;
    /// the tree stays the parse of the edited text, as a fresh parse would
    /// be. A full-text change rebuilds both from scratch.
    fn apply_change(self, change: ChangeEvent) -> (r: Self)
        ensures
            r.parse_source() == r.text_bytes(),
    {
        proof {
            use_type_invariant(&self);
            self.text_valid();
        }
        let ghost tb = self.text_bytes();
        let rng = match change.range {
            None => {
                return Formatter::new(rope_from_str(change.text.as_str()))
            },
            Some(rng) => rng,
        };
        let s = rope_to_string(&self.buf);
        let st = s.as_str();
        proof {
            assert(st.spec_bytes() == tb);
        }
        let sp = match str_position_to_offset(st, &rng.start) {
            Some(o) => o,
            None => { return self },
        };
        proof {
            lemma_pos_offset_some(
                tb,
                rng.start.line as nat,
                rng.start.character as nat,
                sp as int,
            );
        }
        let old_ep = match str_position_to_offset(st, &rng.end) {
            Some(o) => o,
            None => { return self },
        };
        proof {
            lemma_pos_offset_some(
                tb,
                rng.end.line as nat,
                rng.end.character as nat,
                old_ep as int,
            );
        }
        let ins_len = change.text.as_str().as_bytes().len();
        let Formatter { buf, tree } = self;
        let updated = buf.apply_change(
            ChangeEvent { range: Some(rng), text: change.text.clone() },
        );
        proof {
            assert(change_applied(tb, ChangeEvent { range: Some(rng), text: change.text })
                == change_applied(tb, change));
        }
        if sp > old_ep {
            // a reversed range is not a contiguous replacement, so the tree
            // cannot be advanced by one edit descriptor; reparse fully
            return Formatter::new(updated)
        }
        let new_s = rope_to_string(&updated);
        let new_st = new_s.as_str();
        let new_n = new_st.as_bytes().len();
        proof {
            assert(encode_utf8(rope_text(updated)) == splice_bytes(
                tb,
                sp as int,
                old_ep as int,
                encode_utf8(change.text@),
            ));
            assert(sp + ins_len <= new_n);
        }
        let new_ep = sp + ins_len;
        let spt = str_byte_point(st, sp);
        let oept = str_byte_point(st, old_ep);
        let nept = str_byte_point(new_st, new_ep);
        proof {
            assert(new_st.spec_bytes().subrange(sp as int, new_ep as int) =~= encode_utf8(
                change.text@,
            ));
            assert(new_st.spec_bytes() =~= splice_bytes(
                tree_source(tree),
                sp as int,
                old_ep as int,
                new_st.spec_bytes().subrange(sp as int, new_ep as int),
            ));
        }
        let t2 = md_reparse(tree, sp, old_ep, new_ep, spt, oept, nept, new_st);
        Formatter { buf: updated, tree: t2 }
    }
}

} // verus!
