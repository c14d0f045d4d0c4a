//! Point-edit formatter: walks the requested span once and, whenever a line
//! runs past 80 columns, replaces the last space run before the overflow
//! with a newline.

use vstd::prelude::*;
use vstd::utf8::valid_utf8;
use vstd::string::StringSliceAdditionalSpecFns;
use vstd::string::StringExecFns;
use crate::document::SliceAccess;
use crate::document_adapter::{Position, PosRange, LspAdapter};
use crate::incremental_sync::{TextEdit, pos_offset_of};
use crate::text::{is_nl, is_cont, count_nl, count_chars, line_start_of, line_at, col_at, lemma_pos_offset_some, lemma_boundary_after_ascii, lemma_line_start_props, lemma_count_nl_zero};

verus! {

/// The walk's accumulator: the running column, the last space run of the
/// current line (start byte, last space byte, last space column), and the
/// newline insertions found so far as byte spans.
pub struct WalkState {
    pub col: nat,
    pub run: Option<(int, int, nat)>,
    pub spans: Seq<(int, int)>,
}

/// One byte fed to the walk. Newlines reset the line; spaces extend or open
/// the space run; a leading byte past column 80 with a run available turns
/// that run into a break. Continuation bytes leave the state unchanged.
pub open spec fn walk_step(st: WalkState, b: u8, pos: int) -> WalkState {
    if is_nl(b) {
        WalkState { col: 0, run: None, spans: st.spans }
    } else if b == 32 {
        let start = match st.run {
            Some((rs, re, _)) => if re == pos - 1 {
                rs
            } else {
                pos
            },
            None => pos,
        };
        WalkState { col: st.col + 1, run: Some((start, pos, st.col)), spans: st.spans }
    } else if is_cont(b) {
        st
    } else {
        let c = st.col + 1;
        if c > 80 && st.run is Some {
            let (rs, re, sc) = st.run->Some_0;
            WalkState {
                col: (c - (sc + 1)) as nat,
                run: None,
                spans: st.spans.push((rs, re + 1)),
            }
        } else {
            WalkState { col: c, run: st.run, spans: st.spans }
        }
    }
}

/// The walk over `s[i..eo)`.
pub open spec fn walk_from(s: Seq<u8>, i: int, eo: int, st: WalkState) -> WalkState
    decreases eo - i,
{
    if i < 0 || i >= eo || eo > s.len() {
        st
    } else {
        walk_from(s, i + 1, eo, walk_step(st, s[i], i))
    }
}

/// The newline insertions the formatter makes in `s[so..eo)` when the first
/// line already stands at column `c0`: each span of bytes is to be replaced
/// by a single newline.
pub open spec fn walk_spans(s: Seq<u8>, so: int, eo: int, c0: nat) -> Seq<(int, int)> {
    walk_from(s, so, eo, WalkState { col: c0, run: None, spans: Seq::empty() }).spans
}

/// Every span the walk emits lies within `[so, eo)`, covers at least one
/// byte, and both its ends sit on spaces it replaces, so they are character
/// boundaries of the text.
pub open spec fn span_wf(s: Seq<u8>, so: int, eo: int, sp: (int, int)) -> bool {
    &&& so <= sp.0 < sp.1 <= eo
    &&& s[sp.0] == 32
    &&& s[sp.1 - 1] == 32
}

/// State well-formedness during the walk: any recorded run lies behind the
/// cursor on space bytes with its column below the current one, and all
/// spans are well formed.
pub open spec fn walk_wf(s: Seq<u8>, so: int, eo: int, i: int, st: WalkState) -> bool {
    &&& match st.run {
        Some((rs, re, sc)) => so <= rs <= re < i <= eo && s[rs] == 32 && s[re] == 32 && sc
            < st.col,
        None => true,
    }
    &&& forall|k: int| 0 <= k < st.spans.len() ==> span_wf(s, so, eo, #[trigger] st.spans[k])
}

/// A step preserves well-formedness.
pub proof fn lemma_walk_step_wf(s: Seq<u8>, so: int, eo: int, i: int, st: WalkState)
    requires
        so <= i < eo <= s.len(),
        walk_wf(s, so, eo, i, st),
    ensures
        walk_wf(s, so, eo, i + 1, walk_step(st, s[i], i)),
{
}

/// The column the walk stands at when reaching byte `p`: the starting
/// column plus the characters seen, until the first line break; the
/// characters since the line start afterwards.
pub open spec fn running_col(s: Seq<u8>, so: int, p: int, c0: nat) -> nat {
    if count_nl(s.subrange(so, p)) == 0 {
        c0 + count_chars(s.subrange(so, p))
    } else {
        count_chars(s.subrange(line_start_of(s, p), p))
    }
}

proof fn lemma_walk_no_break(s: Seq<u8>, so: int, i: int, eo: int, c0: nat, st: WalkState)
    requires
        0 <= so <= i <= eo <= s.len(),
        forall|p: int|
            i <= p < eo && !is_nl(s[p]) && !is_cont(s[p]) ==> #[trigger] running_col(
                s,
                so,
                p,
                c0,
            ) + 1 <= 80,
        st.spans == Seq::<(int, int)>::empty(),
        st.col == running_col(s, so, i, c0),
    ensures
        walk_from(s, i, eo, st).spans == Seq::<(int, int)>::empty(),
    decreases eo - i,
{
    if i < eo {
        let st2 = walk_step(st, s[i], i);
        assert(s.subrange(so, i + 1).drop_last() =~= s.subrange(so, i));
        if count_nl(s.subrange(so, i)) > 0 {
            lemma_line_start_props(s, i);
            lemma_count_nl_zero(s.subrange(so, i));
            assert(exists|k: int| so <= k < i && is_nl(#[trigger] s[k])) by {
                assert(!(forall|k: int|
                    0 <= k < s.subrange(so, i).len() ==> !is_nl(
                        #[trigger] s.subrange(so, i)[k],
                    )));
                let k0 = choose|k: int|
                    0 <= k < s.subrange(so, i).len() && is_nl(
                        #[trigger] s.subrange(so, i)[k],
                    );
                assert(s[so + k0] == s.subrange(so, i)[k0]);
            }
            let kn = choose|k: int| so <= k < i && is_nl(#[trigger] s[k]);
            lemma_line_start_unique_ge(s, i, kn);
            assert(s.subrange(line_start_of(s, i), i + 1).drop_last() =~= s.subrange(
                line_start_of(s, i),
                i,
            ));
        }
        if is_nl(s[i]) {
            assert(st2.col == running_col(s, so, i + 1, c0)) by {
                lemma_count_nl_step_sub(s, so, i);
                assert(line_start_of(s, i + 1) == i + 1);
                assert(s.subrange(i + 1, i + 1) =~= Seq::<u8>::empty());
            }
        } else {
            assert(st2.col == running_col(s, so, i + 1, c0)) by {
                lemma_count_nl_step_sub(s, so, i);
                if count_nl(s.subrange(so, i)) > 0 {
                    assert(line_start_of(s, i + 1) == line_start_of(s, i));
                }
            }
            assert(st2.spans == st.spans) by {
                if !is_cont(s[i]) && s[i] != 32 {
                    assert(running_col(s, so, i, c0) + 1 <= 80);
                }
            }
        }
        lemma_walk_no_break(s, so, i + 1, eo, c0, st2);
    }
}

/// Newline counting over a subrange grows by one exactly at newline bytes.
proof fn lemma_count_nl_step_sub(s: Seq<u8>, so: int, i: int)
    requires
        0 <= so <= i < s.len(),
    ensures
        count_nl(s.subrange(so, i + 1)) == count_nl(s.subrange(so, i)) + if is_nl(s[i]) {
            1int
        } else {
            0int
        },
        count_chars(s.subrange(so, i + 1)) == count_chars(s.subrange(so, i)) + if is_cont(
            s[i],
        ) {
            0int
        } else {
            1int
        },
{
    assert(s.subrange(so, i + 1).drop_last() =~= s.subrange(so, i));
    assert(s.subrange(so, i + 1).last() == s[i]);
}

/// A line start at or past a known newline stays at or past it.
proof fn lemma_line_start_unique_ge(s: Seq<u8>, i: int, kn: int)
    requires
        0 <= kn < i <= s.len(),
        is_nl(s[kn]),
    ensures
        kn < line_start_of(s, i),
    decreases i,
{
    if i > 0 && !is_nl(s[i - 1]) {
        if kn < i - 1 {
            lemma_line_start_unique_ge(s, i - 1, kn);
        }
    }
}

/// Idempotence of reflow: a span that is already width-compliant — every
/// character in it stands at or below column 80 — yields an empty edit set.
pub proof fn lemma_compliant_span_is_noop(s: Seq<u8>, so: int, eo: int, c0: nat)
    requires
        0 <= so <= eo <= s.len(),
        forall|p: int|
            so <= p < eo && !is_nl(s[p]) && !is_cont(s[p]) ==> #[trigger] running_col(
                s,
                so,
                p,
                c0,
            ) + 1 <= 80,
    ensures
        walk_spans(s, so, eo, c0) == Seq::<(int, int)>::empty(),
{
    let st0 = WalkState { col: c0, run: None, spans: Seq::empty() };
    assert(s.subrange(so, so) =~= Seq::<u8>::empty());
    lemma_walk_no_break(s, so, so, eo, c0, st0);
}

/// The expected position range of one emitted span: each end converted to
/// its (line, column) position.
pub open spec fn span_range(s: Seq<u8>, sp: (int, int)) -> PosRange {
    PosRange {
        start: Position {
            line: line_at(s, sp.0) as usize,
            character: col_at(s, sp.0) as usize,
        },
        end: Position { line: line_at(s, sp.1) as usize, character: col_at(s, sp.1) as usize },
    }
}

/// Range formatting: the minimal newline insertions that rewrap the span.
pub trait LspRangeFormat {
    spec fn fmt_text_bytes(&self) -> Seq<u8>;

    /// The edits that bring the span under the 80-column limit: each one
    /// replaces a space run with a newline, as `walk_spans` lays them out.
    /// `None` exactly when an endpoint does not resolve to an offset, or
    /// the endpoints are out of order.
    fn format(&self, range: PosRange) -> (r: Option<Vec<TextEdit>>)
        ensures
            match r {
                Some(edits) => {
                    &&& pos_offset_of(self.fmt_text_bytes(), range.start) is Some
                    &&& pos_offset_of(self.fmt_text_bytes(), range.end) is Some
                    &&& {
                        let so = pos_offset_of(self.fmt_text_bytes(), range.start)->Some_0;
                        let eo = pos_offset_of(self.fmt_text_bytes(), range.end)->Some_0;
                        let spans = walk_spans(
                            self.fmt_text_bytes(),
                            so,
                            eo,
                            range.start.character as nat,
                        );
                        &&& so <= eo
                        &&& edits@.len() == spans.len()
                        &&& forall|k: int|
                            0 <= k < spans.len() ==> (#[trigger] edits@[k]).range
                                == span_range(self.fmt_text_bytes(), spans[k])
                                && edits@[k].new_text@ == seq!['\n']
                    }
                },
                None => match (
                    pos_offset_of(self.fmt_text_bytes(), range.start),
                    pos_offset_of(self.fmt_text_bytes(), range.end),
                ) {
                    (Some(so), Some(eo)) => so > eo,
                    _ => true,
                },
            },
    ;
}

impl<T: LspAdapter + SliceAccess> LspRangeFormat for T {
    open spec fn fmt_text_bytes(&self) -> Seq<u8> {
        self.text_bytes()
    }

    fn format(&self, range: PosRange) -> (r: Option<Vec<TextEdit>>) {
        proof {
            self.text_valid();
        }
        let ghost tb = self.text_bytes();
        let so = match self.position_to_offset(&range.start) {
            Some(o) => o,
            None => { return None },
        };
        proof {
            lemma_pos_offset_some(
                tb,
                range.start.line as nat,
                range.start.character as nat,
                so as int,
            );
        }
        let eo = match self.position_to_offset(&range.end) {
            Some(o) => o,
            None => { return None },
        };
        proof {
            lemma_pos_offset_some(
                tb,
                range.end.line as nat,
                range.end.character as nat,
                eo as int,
            );
        }
        if so > eo {
            return None;
        }
        let slice = self.slice(so, eo);
        let sb = slice.as_bytes();
        let m = sb.len();
        let ghost st0 = WalkState {
            col: range.start.character as nat,
            run: None,
            spans: Seq::empty(),
        };
        let ghost full = walk_from(tb, so as int, eo as int, st0);
        let mut edits: Vec<TextEdit> = Vec::new();
        let ghost mut gspans: Seq<(int, int)> = Seq::empty();
        let mut col: u128 = range.start.character as u128;
        let mut have_run = false;
        let mut rs: usize = 0;
        let mut re: usize = 0;
        let mut sc: u128 = 0;
        let mut p: usize = 0;
        while p < m
            invariant
                0 <= p <= m,
                so + m == eo,
                eo <= tb.len(),
                tb == self.text_bytes(),
                valid_utf8(tb),
                sb@ == tb.subrange(so as int, eo as int),
                m == sb@.len(),
                full == walk_from(tb, so as int, eo as int, st0),
                col as int <= range.start.character + p,
                walk_from(
                    tb,
                    so + p,
                    eo as int,
                    (WalkState {
                        col: col as nat,
                        run: if have_run {
                            Some((rs as int, re as int, sc as nat))
                        } else {
                            None
                        },
                        spans: gspans,
                    }),
                ) == full,
                walk_wf(
                    tb,
                    so as int,
                    eo as int,
                    so + p,
                    (WalkState {
                        col: col as nat,
                        run: if have_run {
                            Some((rs as int, re as int, sc as nat))
                        } else {
                            None
                        },
                        spans: gspans,
                    }),
                ),
                edits@.len() == gspans.len(),
                forall|k: int|
                    0 <= k < gspans.len() ==> (#[trigger] edits@[k]).range == span_range(
                        tb,
                        gspans[k],
                    ) && edits@[k].new_text@ == seq!['\n'],
            decreases m - p,
        {
            let ghost cur = WalkState {
                col: col as nat,
                run: if have_run {
                    Some((rs as int, re as int, sc as nat))
                } else {
                    None
                },
                spans: gspans,
            };
            let abs = so + p;
            let byte = sb[p];
            proof {
                assert(tb[abs as int] == sb@[p as int]);
                lemma_walk_step_wf(tb, so as int, eo as int, abs as int, cur);
                assert(walk_from(tb, abs as int, eo as int, cur) == walk_from(
                    tb,
                    abs as int + 1,
                    eo as int,
                    walk_step(cur, tb[abs as int], abs as int),
                ));
            }
            if byte == 10 {
                col = 0;
                have_run = false;
            } else if byte == 32 {
                if !(have_run && re + 1 == abs) {
                    rs = abs;
                }
                re = abs;
                sc = col;
                col = col + 1;
                have_run = true;
            } else if byte >= 128 && byte < 192 {
            } else {
                let c = col + 1;
                if c > 80 && have_run {
                    proof {
                        vstd::utf8::is_char_boundary_iff_not_is_continuation_byte(
                            tb,
                            rs as int,
                        );
                        lemma_boundary_after_ascii(tb, re as int + 1);
                    }
                    let sp_pos = match self.offset_to_position(rs) {
                        Some(x) => x,
                        None => { return None },
                    };
                    let ep_pos = match self.offset_to_position(re + 1) {
                        Some(x) => x,
                        None => { return None },
                    };
                    edits.push(
                        TextEdit {
                            range: PosRange { start: sp_pos, end: ep_pos },
                            new_text: String::from_str("\n"),
                        },
                    );
                    proof {
                        gspans = gspans.push((rs as int, re as int + 1));
                        assert(("\n")@ =~= seq!['\n']) by {
                            reveal_strlit("\n");
                        }
                        assert(edits@[gspans.len() - 1].range == span_range(
                            tb,
                            gspans[gspans.len() - 1],
                        ));
                    }
                    col = c - (sc + 1);
                    have_run = false;
                } else {
                    col = c;
                }
            }
            proof {
                assert((WalkState {
                    col: col as nat,
                    run: if have_run {
                        Some((rs as int, re as int, sc as nat))
                    } else {
                        None
                    },
                    spans: gspans,
                }) == walk_step(cur, tb[abs as int], abs as int));
            }
            p = p + 1;
        }
        proof {
            assert(walk_from(
                tb,
                eo as int,
                eo as int,
                (WalkState {
                    col: col as nat,
                    run: if have_run {
                        Some((rs as int, re as int, sc as nat))
                    } else {
                        None
                    },
                    spans: gspans,
                }),
            ) == (WalkState {
                col: col as nat,
                run: if have_run {
                    Some((rs as int, re as int, sc as nat))
                } else {
                    None
                },
                spans: gspans,
            }));
        }
        Some(edits)
    }
}

} // verus!
