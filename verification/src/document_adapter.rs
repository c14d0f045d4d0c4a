//! Editor-protocol positions and their correspondence with byte offsets.

use vstd::prelude::*;
use vstd::utf8::*;
use vstd::string::StringSliceAdditionalSpecFns;
use crate::text::{is_nl, count_chars, line_start_of, is_line_start, line_at, col_at, is_offset_of, lemma_count_nl_le_len, lemma_count_chars_le_len, lemma_count_chars_concat, lemma_count_nl_step, lemma_count_chars_step, lemma_count_nl_prefix, lemma_line_start_props, lemma_line_start_unique, lemma_same_line_same_start, lemma_line_out_of_range, lemma_line_start_boundary, pos_offset, lemma_pos_offset_some};
use crate::document::{TextModel, BasicDocument, Section, ByteRange, section_in_text};

verus! {

/// A zero-based (line, column) position; the column counts code points
/// since the line start.
#[derive(PartialEq, Eq, Structural, Clone, Copy, Debug)]
pub struct Position {
    pub line: usize,
    pub character: usize,
}

/// A half-open position range.
#[derive(PartialEq, Eq, Structural, Clone, Copy, Debug)]
pub struct PosRange {
    pub start: Position,
    pub end: Position,
}

/// Converts a byte offset into a position. Returns `None` exactly when the
/// offset is past the end of the text or not on a UTF-8 boundary.
pub fn str_offset_to_position(s: &str, offset: usize) -> (r: Option<Position>)
    ensures
        is_char_boundary(s.spec_bytes(), offset as int) ==> r == Some(
            Position {
                line: line_at(s.spec_bytes(), offset as int) as usize,
                character: col_at(s.spec_bytes(), offset as int) as usize,
            },
        ),
        !is_char_boundary(s.spec_bytes(), offset as int) ==> r is None,
{
    proof {
        broadcast use vstd::utf8::encode_utf8_valid_utf8;

    }
    let b = s.as_bytes();
    let ghost bs = s.spec_bytes();
    let n = b.len();
    if offset > n {
        proof {
            assert(!is_char_boundary(bs, offset as int));
        }
        return None;
    }
    if !s.is_char_boundary(offset) {
        return None;
    }
    let mut i: usize = 0;
    let mut line: usize = 0;
    let mut ls: usize = 0;
    while i < offset
        invariant
            0 <= i <= offset <= n == bs.len(),
            b@ == bs,
            line == line_at(bs, i as int),
            ls == line_start_of(bs, i as int),
        decreases offset - i,
    {
        proof {
            lemma_count_nl_step(bs, i as int);
            lemma_count_nl_le_len(bs.take(i as int + 1));
        }
        if b[i] == 10 {
            line = line + 1;
            ls = i + 1;
        }
        i = i + 1;
    }
    let mut col: usize = 0;
    let mut j: usize = ls;
    proof {
        lemma_line_start_props(bs, offset as int);
        assert(bs.subrange(ls as int, ls as int) =~= Seq::<u8>::empty());
    }
    while j < offset
        invariant
            ls <= j <= offset <= n == bs.len(),
            b@ == bs,
            col == count_chars(bs.subrange(ls as int, j as int)),
        decreases offset - j,
    {
        proof {
            lemma_count_chars_step(bs, ls as int, j as int);
            lemma_count_chars_le_len(bs.subrange(ls as int, j as int + 1));
        }
        if !(b[j] >= 128 && b[j] < 192) {
            col = col + 1;
        }
        j = j + 1;
    }
    Some(Position { line, character: col })
}

/// Converts a position into the byte offset it denotes. Returns `None`
/// exactly when the text has no such position: the line index exceeds the
/// line count, or the column exceeds the line's length in code points.
pub fn str_position_to_offset(s: &str, position: &Position) -> (r: Option<usize>)
    ensures
        match r {
            Some(o) => is_offset_of(
                s.spec_bytes(),
                position.line as nat,
                position.character as nat,
                o as int,
            ),
            None => forall|o: int|
                !is_offset_of(
                    s.spec_bytes(),
                    position.line as nat,
                    position.character as nat,
                    o,
                ),
        },
{
    proof {
        broadcast use vstd::utf8::encode_utf8_valid_utf8;

    }
    let b = s.as_bytes();
    let ghost bs = s.spec_bytes();
    let n = b.len();
    let mut i: usize = 0;
    let mut line: usize = 0;
    while line < position.line
        invariant
            0 <= i <= n == bs.len(),
            b@ == bs,
            bs == s.spec_bytes(),
            line == line_at(bs, i as int),
            line <= position.line,
            line == position.line ==> is_line_start(bs, i as int),
        decreases n - i,
    {
        if i >= n {
            proof {
                assert(bs.take(n as int) =~= bs);
                assert forall|o: int|
                    !is_offset_of(
                        bs,
                        position.line as nat,
                        position.character as nat,
                        o,
                    ) by {
                    lemma_line_out_of_range(
                        bs,
                        position.line as nat,
                        position.character as nat,
                        o,
                    );
                }
            }
            return None;
        }
        proof {
            lemma_count_nl_step(bs, i as int);
            lemma_count_nl_le_len(bs.take(i as int + 1));
        }
        if b[i] == 10 {
            line = line + 1;
        }
        i = i + 1;
    }
    let ghost ls = i as int;
    proof {
        lemma_line_start_unique(bs, ls, ls);
        lemma_line_start_boundary(bs, ls);
        assert(bs.subrange(ls, ls) =~= Seq::<u8>::empty());
    }
    let mut c: usize = 0;
    while c < position.character
        invariant
            0 <= ls <= i as int <= n == bs.len(),
            b@ == bs,
            bs == s.spec_bytes(),
            c <= position.character,
            valid_utf8(bs),
            is_line_start(bs, ls),
            line_at(bs, ls) == position.line,
            line_start_of(bs, i as int) == ls,
            line_at(bs, i as int) == position.line,
            c == count_chars(bs.subrange(ls, i as int)),
            is_char_boundary(bs, i as int),
        decreases position.character - c,
    {
        if i >= n || b[i] == 10 {
            proof {
                lemma_no_column(
                    bs,
                    position.line as nat,
                    position.character as nat,
                    ls,
                    i as int,
                );
            }
            return None;
        }
        proof {
            lemma_count_chars_step(bs, ls, i as int);
            lemma_count_chars_le_len(bs.subrange(ls, i as int + 1));
            is_char_boundary_iff_not_is_continuation_byte(bs, i as int);
            lemma_count_nl_step(bs, i as int);
        }
        i = i + 1;
        while i < n && b[i] >= 128 && b[i] < 192
            invariant
                0 <= ls < i as int <= n == bs.len(),
                b@ == bs,
                valid_utf8(bs),
                line_start_of(bs, i as int) == ls,
                line_at(bs, i as int) == position.line,
                count_chars(bs.subrange(ls, i as int)) == c + 1,
            decreases n - i,
    {
            proof {
                lemma_count_chars_step(bs, ls, i as int);
                lemma_count_nl_step(bs, i as int);
            }
            i = i + 1;
        }
        proof {
            if (i as int) < bs.len() {
                is_char_boundary_iff_not_is_continuation_byte(bs, i as int);
            } else {
                is_char_boundary_start_end_of_seq(bs);
            }
        }
        c = c + 1;
    }
    Some(i)
}

/// Round trip: the position computed for a valid byte offset denotes
/// exactly that offset, so converting an offset to a position and back
/// yields the offset again.
pub proof fn lemma_position_offset_round_trip(s: Seq<u8>, o: int)
    requires
        valid_utf8(s),
        0 <= o <= s.len(),
        is_char_boundary(s, o),
    ensures
        pos_offset(s, line_at(s, o), col_at(s, o)) == Some(o),
{
    lemma_pos_offset_some(s, line_at(s, o), col_at(s, o), o);
}

/// Position/offset conversion over a document buffer.
pub trait LspAdapter: TextModel {
    fn offset_to_position(&self, offset: usize) -> (r: Option<Position>)
        ensures
            is_char_boundary(self.text_bytes(), offset as int) ==> r == Some(
                Position {
                    line: line_at(self.text_bytes(), offset as int) as usize,
                    character: col_at(self.text_bytes(), offset as int) as usize,
                },
            ),
            !is_char_boundary(self.text_bytes(), offset as int) ==> r is None,
    ;

    fn position_to_offset(&self, position: &Position) -> (r: Option<usize>)
        ensures
            match r {
                Some(o) => is_offset_of(
                    self.text_bytes(),
                    position.line as nat,
                    position.character as nat,
                    o as int,
                ),
                None => forall|o: int|
                    !is_offset_of(
                        self.text_bytes(),
                        position.line as nat,
                        position.character as nat,
                        o,
                    ),
            },
    ;
}

/// `o` lies inside the byte range `r`.
pub open spec fn in_range(r: ByteRange, o: int) -> bool {
    r.start <= o < r.end
}

/// Index of the first section whose range contains `o`.
pub open spec fn section_containing(secs: Seq<Section>, o: int) -> Option<int>
    decreases secs.len(),
{
    if secs.len() == 0 {
        None
    } else if in_range(secs[0].range, o) {
        Some(0int)
    } else {
        match section_containing(secs.drop_first(), o) {
            Some(i) => Some(i + 1),
            None => None,
        }
    }
}

/// Section-aware position queries over a document.
pub trait DocumentLsp: BasicDocument + LspAdapter {
    /// The first section containing the given position, if the position
    /// resolves to an offset lying inside some section.
    fn position_to_section(&self, position: &Position) -> (r: Option<usize>)
        ensures
            match pos_offset(
                self.text_bytes(),
                position.line as nat,
                position.character as nat,
            ) {
                Some(o) => match r {
                    Some(i) => section_containing(self.spec_sections(), o) == Some(i as int),
                    None => section_containing(self.spec_sections(), o) is None,
                },
                None => r is None,
            },
    {
        let o = match self.position_to_offset(position) {
            Some(o) => o,
            None => { return None },
        };
        proof {
            self.text_valid();
            lemma_pos_offset_some(
                self.text_bytes(),
                position.line as nat,
                position.character as nat,
                o as int,
            );
        }
        let secs = self.sections();
        let ghost all = self.spec_sections();
        proof {
            assert(all.skip(0) =~= all);
        }
        let mut i: usize = 0;
        while i < secs.len()
            invariant
                0 <= i <= all.len() == secs@.len(),
                secs@ == all,
                all == self.spec_sections(),
                pos_offset(
                    self.text_bytes(),
                    position.line as nat,
                    position.character as nat,
                ) == Some(o as int),
                section_containing(all, o as int) == match section_containing(
                    all.skip(i as int),
                    o as int,
                ) {
                    Some(k) => Some(k + i),
                    None => None::<int>,
                },
            decreases secs@.len() - i,
        {
            proof {
                assert(all.skip(i as int)[0] == all[i as int]);
                assert(all.skip(i as int).drop_first() =~= all.skip(i as int + 1));
            }
            let sec = secs[i];
            if sec.range.start <= o && o < sec.range.end {
                return Some(i);
            }
            i = i + 1;
        }
        proof {
            assert(all.skip(all.len() as int) =~= Seq::<Section>::empty());
        }
        None
    }

    /// The position range of the heading line of section `index`.
    fn section_to_title_range(&self, index: usize) -> (r: Option<PosRange>)
        ensures
            match r {
                Some(rng) => {
                    &&& index < self.spec_sections().len()
                    &&& rng.start == (Position {
                        line: line_at(
                            self.text_bytes(),
                            self.spec_sections()[index as int].title.start as int,
                        ) as usize,
                        character: col_at(
                            self.text_bytes(),
                            self.spec_sections()[index as int].title.start as int,
                        ) as usize,
                    })
                    &&& rng.end == (Position {
                        line: line_at(
                            self.text_bytes(),
                            self.spec_sections()[index as int].title.end as int,
                        ) as usize,
                        character: col_at(
                            self.text_bytes(),
                            self.spec_sections()[index as int].title.end as int,
                        ) as usize,
                    })
                },
                None => index >= self.spec_sections().len(),
            },
    {
        let secs = self.sections();
        if index >= secs.len() {
            return None;
        }
        proof {
            assert(section_in_text(self.text_bytes(), secs@[index as int]));
        }
        let sec = secs[index];
        let start = match self.offset_to_position(sec.title.start) {
            Some(p) => p,
            None => { return None },
        };
        let end = match self.offset_to_position(sec.title.end) {
            Some(p) => p,
            None => { return None },
        };
        Some(PosRange { start, end })
    }

    /// The title position ranges of all sections, in document order.
    fn section_titles(&self) -> (r: Vec<PosRange>)
        ensures
            r@.len() == self.spec_sections().len(),
            forall|i: int|
                0 <= i < r@.len() ==> #[trigger] r@[i] == (PosRange {
                    start: Position {
                        line: line_at(
                            self.text_bytes(),
                            self.spec_sections()[i].title.start as int,
                        ) as usize,
                        character: col_at(
                            self.text_bytes(),
                            self.spec_sections()[i].title.start as int,
                        ) as usize,
                    },
                    end: Position {
                        line: line_at(
                            self.text_bytes(),
                            self.spec_sections()[i].title.end as int,
                        ) as usize,
                        character: col_at(
                            self.text_bytes(),
                            self.spec_sections()[i].title.end as int,
                        ) as usize,
                    },
                }),
    {
        let secs = self.sections();
        let mut ret: Vec<PosRange> = Vec::new();
        let mut i: usize = 0;
        while i < secs.len()
            invariant
                0 <= i <= secs@.len(),
                secs@ == self.spec_sections(),
                forall|k: int|
                    0 <= k < secs@.len() ==> #[trigger] section_in_text(
                        self.text_bytes(),
                        secs@[k],
                    ),
                ret@.len() == i,
                forall|k: int|
                    0 <= k < i ==> #[trigger] ret@[k] == (PosRange {
                        start: Position {
                            line: line_at(
                                self.text_bytes(),
                                self.spec_sections()[k].title.start as int,
                            ) as usize,
                            character: col_at(
                                self.text_bytes(),
                                self.spec_sections()[k].title.start as int,
                            ) as usize,
                        },
                        end: Position {
                            line: line_at(
                                self.text_bytes(),
                                self.spec_sections()[k].title.end as int,
                            ) as usize,
                            character: col_at(
                                self.text_bytes(),
                                self.spec_sections()[k].title.end as int,
                            ) as usize,
                        },
                    }),
            decreases secs@.len() - i,
        {
            proof {
                assert(section_in_text(self.text_bytes(), secs@[i as int]));
            }
            let sec = secs[i];
            let start = match self.offset_to_position(sec.title.start) {
                Some(p) => p,
                None => { return ret },
            };
            let end = match self.offset_to_position(sec.title.end) {
                Some(p) => p,
                None => { return ret },
            };
            ret.push(PosRange { start, end });
            i = i + 1;
        }
        ret
    }
}

/// When a line ends (newline or end of text) before the requested column is
/// reached, no offset denotes the position.
proof fn lemma_no_column(bs: Seq<u8>, line: nat, chr: nat, ls: int, le: int)
    requires
        valid_utf8(bs),
        0 <= ls <= le <= bs.len(),
        is_line_start(bs, ls),
        line_at(bs, le) == line,
        line_start_of(bs, le) == ls,
        count_chars(bs.subrange(ls, le)) < chr,
        le == bs.len() || is_nl(bs[le]),
    ensures
        forall|o: int| !is_offset_of(bs, line, chr, o),
{
    assert forall|o: int| !is_offset_of(bs, line, chr, o) by {
        if is_offset_of(bs, line, chr, o) {
            if o <= le {
                lemma_same_line_same_start(bs, o, le);
                lemma_line_start_props(bs, o);
                assert(bs.subrange(ls, le) =~= bs.subrange(ls, o) + bs.subrange(o, le));
                lemma_count_chars_concat(bs.subrange(ls, o), bs.subrange(o, le));
            } else {
                // o > le: bs[le] is a newline, so the line number at o is
                // greater than `line`.
                lemma_count_nl_step(bs, le);
                lemma_count_nl_prefix(bs, le + 1, o);
                lemma_count_nl_prefix(bs, o, bs.len() as int);
            }
        }
    }
}

} // verus!
