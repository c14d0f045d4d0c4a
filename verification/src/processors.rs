//! Paragraph and list reflow: tokenize each line into words (treating a
//! trailing two-space run as a hard-break token), then greedily pack words
//! onto lines of at most 80 columns, breaking around URLs, and reproducing
//! each list item's marker indent on its wrapped continuation lines.

use vstd::prelude::*;
use vstd::utf8::{is_char_boundary, valid_utf8, encode_utf8};
use vstd::string::StringSliceAdditionalSpecFns;
use crate::text::{is_nl, lemma_boundary_after_ascii, lemma_ascii_valid,
    lemma_valid_drop_last_ascii, lemma_valid_utf8_subrange};
use crate::headings::line_end_of;

verus! {

/// Whitespace inside a line, as the tokenizer's patterns see it. The
/// tokenizer works on bytes, so only ASCII whitespace separates or trims;
/// a multi-byte space counts as part of a word.
pub open spec fn is_ws(b: u8) -> bool {
    b == 9 || b == 11 || b == 12 || b == 13 || b == 32
}

/// The reflow accumulator: emitted bytes, current line length and list
/// indent in columns, and whether the previous token forces a break.
pub struct ReflowState {
    pub out: Seq<u8>,
    pub line_len: nat,
    pub line_indent: nat,
    pub was_url: bool,
}

/// The initial accumulator.
pub open spec fn init_state() -> ReflowState {
    ReflowState { out: Seq::empty(), line_len: 0, line_indent: 0, was_url: false }
}

/// `n` space bytes.
pub open spec fn spaces(n: nat) -> Seq<u8> {
    Seq::new(n, |i: int| 32u8)
}

/// The hard-break token: the two-space run closing a line.
pub open spec fn break_token() -> Seq<u8> {
    seq![32u8, 32u8]
}

/// A URL scheme occurs at `p` in the word, with at least one more byte
/// following it.
pub open spec fn url_at(w: Seq<u8>, p: int) -> bool {
    &&& 0 <= p
    &&& p + 4 <= w.len()
    &&& w[p] == 104 && w[p + 1] == 116 && w[p + 2] == 116 && w[p + 3] == 112
    &&& ({
        ||| (p + 7 < w.len() && w[p + 4] == 58 && w[p + 5] == 47 && w[p + 6] == 47
            && !is_ws(w[p + 7]))
        ||| (p + 8 < w.len() && w[p + 4] == 115 && w[p + 5] == 58 && w[p + 6] == 47 && w[p
            + 7] == 47 && !is_ws(w[p + 8]))
    })
}

/// The token is a URL: it contains `http://` or `https://` followed by a
/// non-whitespace byte.
pub open spec fn is_url_token(w: Seq<u8>) -> bool {
    exists|p: int| url_at(w, p)
}

/// One token appended to the accumulator: break the line first when it
/// overflows 80 columns or a URL stands on either side of the join, then
/// emit the token and a separating space; a hard-break token keeps its two
/// spaces and forces a break before the next word.
pub open spec fn step_token(st: ReflowState, tok: Seq<u8>) -> ReflowState {
    let is_url = is_url_token(tok);
    let brk = st.line_len != st.line_indent && (st.line_len + tok.len() > 80 || is_url
        || st.was_url);
    let out1 = if brk {
        st.out.drop_last() + seq![10u8] + spaces(st.line_indent)
    } else {
        st.out
    };
    let ll1 = if brk {
        st.line_indent
    } else {
        st.line_len
    };
    let out2 = out1 + tok + seq![32u8];
    let ll2 = ll1 + tok.len() + 1;
    if tok == break_token() {
        ReflowState {
            out: out2.drop_last(),
            line_len: ll2,
            line_indent: st.line_indent,
            was_url: true,
        }
    } else {
        ReflowState { out: out2, line_len: ll2, line_indent: st.line_indent, was_url: is_url }
    }
}

/// A word that forces a break continues the output with a newline and
/// exactly the current indent's spaces before it: wrapped continuation
/// words of a list item are indented by the width of the item's marker.
pub proof fn lemma_break_reproduces_indent(st: ReflowState, tok: Seq<u8>)
    requires
        st.line_len != st.line_indent,
        st.line_len + tok.len() > 80 || is_url_token(tok) || st.was_url,
        tok != break_token(),
    ensures
        step_token(st, tok).out == st.out.drop_last() + seq![10u8] + spaces(
            st.line_indent,
        ) + tok + seq![32u8],
        step_token(st, tok).line_len == st.line_indent + tok.len() + 1,
        step_token(st, tok).line_indent == st.line_indent,
{
}

/// End of the whitespace run starting at `i`.
pub open spec fn ws_end(line: Seq<u8>, i: int) -> int
    decreases line.len() - i,
{
    if i < 0 || i >= line.len() || !is_ws(line[i]) {
        i
    } else {
        ws_end(line, i + 1)
    }
}

/// End of the word (run of non-space bytes) starting at `i`.
pub open spec fn word_end(line: Seq<u8>, i: int) -> int
    decreases line.len() - i,
{
    if i < 0 || i >= line.len() || line[i] == 32 {
        i
    } else {
        word_end(line, i + 1)
    }
}

/// Bounds of a word end.
pub proof fn lemma_word_end_bounds(line: Seq<u8>, i: int)
    requires
        0 <= i < line.len(),
        line[i] != 32,
    ensures
        i < word_end(line, i) <= line.len(),
        forall|k: int| i <= k < word_end(line, i) ==> line[k] != 32,
        word_end(line, i) == line.len() || line[word_end(line, i)] == 32,
    decreases line.len() - i,
{
    assert(word_end(line, i) == word_end(line, i + 1));
    if i + 1 < line.len() && line[i + 1] != 32 {
        lemma_word_end_bounds(line, i + 1);
    } else {
        assert(word_end(line, i + 1) == i + 1);
    }
}

/// Bounds of a whitespace-run end.
pub proof fn lemma_ws_end_bounds(line: Seq<u8>, i: int)
    requires
        0 <= i <= line.len(),
    ensures
        i <= ws_end(line, i) <= line.len(),
        forall|k: int| i <= k < ws_end(line, i) ==> is_ws(line[k]),
        ws_end(line, i) == line.len() || !is_ws(line[ws_end(line, i)]),
    decreases line.len() - i,
{
    if i < line.len() && is_ws(line[i]) {
        assert(ws_end(line, i) == ws_end(line, i + 1));
        lemma_ws_end_bounds(line, i + 1);
    } else {
        assert(ws_end(line, i) == i);
    }
}

/// All the words of `rest` from position `j` on, folded into the
/// accumulator in order.
pub open spec fn steps_words(st: ReflowState, rest: Seq<u8>, j: int) -> ReflowState
    decreases rest.len() - j,
{
    if j < 0 || j >= rest.len() {
        st
    } else if rest[j] == 32 {
        steps_words(st, rest, j + 1)
    } else {
        proof {
            lemma_word_end_bounds(rest, j);
        }
        steps_words(
            step_token(st, rest.subrange(j, word_end(rest, j))),
            rest,
            word_end(rest, j),
        )
    }
}

/// The line ends with the Markdown hard-break marker.
pub open spec fn ends_with_break(rest: Seq<u8>) -> bool {
    rest.len() >= 2 && rest[rest.len() - 1] == 32 && rest[rest.len() - 2] == 32
}

/// The words of the trimmed line from position `j` on, then the hard-break
/// token if the line closes with two spaces.
pub open spec fn steps_rest(st: ReflowState, rest: Seq<u8>, j: int) -> ReflowState {
    let st2 = steps_words(st, rest, j);
    if ends_with_break(rest) {
        step_token(st2, break_token())
    } else {
        st2
    }
}

/// All tokens of a trimmed line: its words, then the hard-break token if
/// the line closes with two spaces.
pub open spec fn steps_line_tokens(st: ReflowState, rest: Seq<u8>) -> ReflowState {
    steps_rest(st, rest, 0)
}

/// Folding words into the accumulator never changes the indent.
pub proof fn lemma_steps_keep_indent(st: ReflowState, rest: Seq<u8>, j: int)
    ensures
        steps_words(st, rest, j).line_indent == st.line_indent,
    decreases rest.len() - j,
{
    if 0 <= j < rest.len() {
        if rest[j] == 32 {
            lemma_steps_keep_indent(st, rest, j + 1);
        } else {
            lemma_word_end_bounds(rest, j);
            lemma_steps_keep_indent(
                step_token(st, rest.subrange(j, word_end(rest, j))),
                rest,
                word_end(rest, j),
            );
        }
    }
}

/// Length of the list-item marker opening the line (leading whitespace, a
/// `-` or `*` bullet, one space), if the line opens an item.
pub open spec fn bullet_len(line: Seq<u8>) -> Option<int> {
    let w = ws_end(line, 0);
    if w + 1 < line.len() && (line[w] == 45 || line[w] == 42) && line[w + 1] == 32 {
        Some(w + 2)
    } else {
        None
    }
}

/// Leading whitespace removed.
pub open spec fn trim_start(line: Seq<u8>) -> Seq<u8> {
    line.subrange(ws_end(line, 0), line.len() as int)
}

/// One line folded into the accumulator. A line opening a list item closes
/// the previous output line and emits its marker, which also sets the
/// indent for wrapped continuations; the line's remaining words follow with
/// their leading whitespace trimmed.
pub open spec fn process_line(st: ReflowState, line: Seq<u8>) -> ReflowState {
    match bullet_len(line) {
        Some(m) => {
            let o1 = if st.out.len() > 0 {
                st.out.drop_last().push(10u8)
            } else {
                st.out
            };
            let st1 = ReflowState {
                out: o1 + line.subrange(0, m),
                line_len: m as nat,
                line_indent: m as nat,
                was_url: st.was_url,
            };
            steps_line_tokens(st1, trim_start(line.subrange(m, line.len() as int)))
        },
        None => steps_line_tokens(st, trim_start(line)),
    }
}

/// A line that opens a list item pins the indent for that item: after the
/// line is folded in, the indent equals the marker's width (its leading
/// whitespace, the bullet and the space), whatever it was before — so a
/// nested bullet's continuations wrap under the nested marker's own,
/// deeper indent, never the parent's.
pub proof fn lemma_bullet_sets_indent(st: ReflowState, line: Seq<u8>)
    requires
        bullet_len(line) is Some,
    ensures
        process_line(st, line).line_indent == bullet_len(line)->Some_0,
{
    let m = bullet_len(line)->Some_0;
    assert(m == ws_end(line, 0) + 2 && ws_end(line, 0) + 1 < line.len());
    lemma_ws_end_bounds(line, 0);
    let o1 = if st.out.len() > 0 {
        st.out.drop_last().push(10u8)
    } else {
        st.out
    };
    let st1 = ReflowState {
        out: o1 + line.subrange(0, m),
        line_len: m as nat,
        line_indent: m as nat,
        was_url: st.was_url,
    };
    let rest = trim_start(line.subrange(m, line.len() as int));
    assert(process_line(st, line) == steps_rest(st1, rest, 0));
    lemma_steps_keep_indent(st1, rest, 0);
}

/// A line without a marker keeps the enclosing item's indent: its words
/// continue to wrap under the current marker's width.
pub proof fn lemma_plain_line_keeps_indent(st: ReflowState, line: Seq<u8>)
    requires
        bullet_len(line) is None,
    ensures
        process_line(st, line).line_indent == st.line_indent,
{
    lemma_steps_keep_indent(st, trim_start(line), 0);
}

/// The whole text folded line by line, starting at offset `i`.
pub open spec fn process_from(s: Seq<u8>, i: int, st: ReflowState) -> ReflowState
    decreases s.len() - i,
{
    if i < 0 || i >= s.len() {
        st
    } else {
        let e = line_end_of(s, i);
        let st2 = process_line(st, s.subrange(i, e));
        if e >= s.len() {
            st2
        } else {
            proof {
                crate::headings::lemma_line_end_props(s, i);
            }
            process_from(s, e + 1, st2)
        }
    }
}

/// The reflowed text: every line's words repacked, with the trailing
/// separator removed.
pub open spec fn reflow(s: Seq<u8>) -> Seq<u8> {
    let st = process_from(s, 0, init_state());
    if st.out.len() > 0 {
        st.out.drop_last()
    } else {
        st.out
    }
}

/// A reflow accumulator built from the runtime variables.
pub open spec fn mk_state(out: Seq<u8>, ll: nat, li: nat, wu: bool) -> ReflowState {
    ReflowState { out: out, line_len: ll, line_indent: li, was_url: wu }
}

/// Invariant of every reachable accumulator: the output is valid UTF-8 and
/// ends with a separating space, the indent is covered by the output, and
/// the column counter never runs more than one ahead of the output.
pub open spec fn reflow_wf(st: ReflowState) -> bool {
    &&& valid_utf8(st.out)
    &&& (st.out.len() == 0 || st.out.last() == 32)
    &&& st.line_indent <= st.line_len
    &&& st.line_indent <= st.out.len()
    &&& st.line_len <= st.out.len() + 1
    &&& (st.line_len == st.out.len() + 1 ==> st.was_url)
    &&& (st.line_len != st.line_indent ==> st.out.len() > 0)
}

/// The initial accumulator is well formed.
pub proof fn lemma_init_wf()
    ensures
        reflow_wf(init_state()),
{
    assert(valid_utf8(Seq::<u8>::empty()));
}

/// The hard-break token is not a URL.
proof fn lemma_break_not_url()
    ensures
        !is_url_token(break_token()),
{
    assert forall|p: int| !url_at(break_token(), p) by {}
}

/// Appends the bytes `[from, to)` of `b` to `out`.
fn push_range(out: &mut Vec<u8>, b: &[u8], from: usize, to: usize)
    requires
        from <= to <= b@.len(),
    ensures
        final(out)@ == old(out)@ + b@.subrange(from as int, to as int),
{
    let mut k = from;
    proof {
        assert(old(out)@ + b@.subrange(from as int, from as int) =~= old(out)@);
    }
    while k < to
        invariant
            from <= k <= to <= b@.len(),
            out@ == old(out)@ + b@.subrange(from as int, k as int),
        decreases to - k,
    {
        out.push(b[k]);
        proof {
            assert(old(out)@ + b@.subrange(from as int, k as int + 1) =~= (old(out)@
                + b@.subrange(from as int, k as int)).push(b@[k as int]));
        }
        k = k + 1;
    }
}

/// Appends `n` spaces to `out`.
fn push_spaces(out: &mut Vec<u8>, n: usize)
    ensures
        final(out)@ == old(out)@ + spaces(n as nat),
{
    let mut k: usize = 0;
    proof {
        assert(old(out)@ + spaces(0) =~= old(out)@);
    }
    while k < n
        invariant
            0 <= k <= n,
            out@ == old(out)@ + spaces(k as nat),
        decreases n - k,
    {
        out.push(32);
        proof {
            assert(old(out)@ + spaces(k as nat + 1) =~= (old(out)@ + spaces(
                k as nat,
            )).push(32u8));
        }
        k = k + 1;
    }
}

/// Whether the token `[from, to)` of `b` contains a URL.
fn is_url_word(b: &[u8], from: usize, to: usize) -> (r: bool)
    requires
        from <= to <= b@.len(),
    ensures
        r == is_url_token(b@.subrange(from as int, to as int)),
{
    let ghost w = b@.subrange(from as int, to as int);
    let mut p = from;
    while p < to
        invariant
            from <= p <= to <= b@.len(),
            w == b@.subrange(from as int, to as int),
            forall|q: int| 0 <= q < p - from ==> !url_at(w, q),
        decreases to - p,
    {
        if to - p >= 8 && b[p] == 104 && b[p + 1] == 116 && b[p + 2] == 116 && b[p + 3]
            == 112 {
            if b[p + 4] == 58 && b[p + 5] == 47 && b[p + 6] == 47 && !(b[p + 7] == 9 || b[p
                + 7] == 11 || b[p + 7] == 12 || b[p + 7] == 13 || b[p + 7] == 32) {
                proof {
                    assert(url_at(w, p - from));
                }
                return true;
            }
            if to - p >= 9 && b[p + 4] == 115 && b[p + 5] == 58 && b[p + 6] == 47 && b[p
                + 7] == 47 && !(b[p + 8] == 9 || b[p + 8] == 11 || b[p + 8] == 12 || b[p
                + 8] == 13 || b[p + 8] == 32) {
                proof {
                    assert(url_at(w, p - from));
                }
                return true;
            }
        }
        proof {
            assert(!url_at(w, p - from));
        }
        p = p + 1;
    }
    false
}

/// Index just past the whitespace run of `b@.subrange(lo, hi)` that starts
/// at `from`.
fn scan_ws(b: &[u8], lo: usize, hi: usize, from: usize) -> (r: usize)
    requires
        lo <= from <= hi <= b@.len(),
    ensures
        from <= r <= hi,
        r - lo == ws_end(b@.subrange(lo as int, hi as int), from - lo),
{
    let ghost line = b@.subrange(lo as int, hi as int);
    let mut w = from;
    while w < hi && (b[w] == 9 || b[w] == 11 || b[w] == 12 || b[w] == 13 || b[w] == 32)
        invariant
            from <= w <= hi <= b@.len(),
            lo <= w,
            line == b@.subrange(lo as int, hi as int),
            ws_end(line, from - lo) == ws_end(line, w - lo),
        decreases hi - w,
    {
        proof {
            assert(line[w - lo] == b@[w as int]);
            assert(ws_end(line, w - lo) == ws_end(line, w - lo + 1));
        }
        w = w + 1;
    }
    proof {
        if w < hi {
            assert(line[w - lo] == b@[w as int]);
        }
        assert(ws_end(line, w - lo) == w - lo);
    }
    w
}

/// Index just past the word of `b@.subrange(lo, hi)` that starts at `from`.
fn scan_word(b: &[u8], lo: usize, hi: usize, from: usize) -> (r: usize)
    requires
        lo <= from <= hi <= b@.len(),
    ensures
        from <= r <= hi,
        r - lo == word_end(b@.subrange(lo as int, hi as int), from - lo),
{
    let ghost line = b@.subrange(lo as int, hi as int);
    let mut w = from;
    while w < hi && b[w] != 32
        invariant
            from <= w <= hi <= b@.len(),
            lo <= w,
            line == b@.subrange(lo as int, hi as int),
            word_end(line, from - lo) == word_end(line, w - lo),
        decreases hi - w,
    {
        proof {
            assert(line[w - lo] == b@[w as int]);
            assert(word_end(line, w - lo) == word_end(line, w - lo + 1));
        }
        w = w + 1;
    }
    proof {
        if w < hi {
            assert(line[w - lo] == b@[w as int]);
        }
        assert(word_end(line, w - lo) == w - lo);
    }
    w
}

/// Index of the next newline byte at or after `from`, or the end.
fn scan_line_end(b: &[u8], from: usize) -> (r: usize)
    requires
        from <= b@.len(),
    ensures
        from <= r <= b@.len(),
        r == line_end_of(b@, from as int),
{
    let n = b.len();
    let mut j = from;
    while j < n && b[j] != 10
        invariant
            from <= j <= n == b@.len(),
            line_end_of(b@, from as int) == line_end_of(b@, j as int),
        decreases n - j,
    {
        j = j + 1;
    }
    j
}

/// Feeds the token `[from, to)` of `b` to the accumulator held in `out`,
/// `ll` and `wu`, with list indent `li`.
fn apply_token(
    out: &mut Vec<u8>,
    ll: &mut usize,
    li: usize,
    wu: &mut bool,
    b: &[u8],
    from: usize,
    to: usize,
)
    requires
        from < to <= b@.len(),
        valid_utf8(b@.subrange(from as int, to as int)),
        b@.subrange(from as int, to as int) == break_token() || (forall|k: int|
            from <= k < to ==> b@[k] != 32),
        reflow_wf(mk_state(old(out)@, *old(ll) as nat, li as nat, *old(wu))),
    ensures
        mk_state(final(out)@, *final(ll) as nat, li as nat, *final(wu)) == step_token(
            mk_state(old(out)@, *old(ll) as nat, li as nat, *old(wu)),
            b@.subrange(from as int, to as int),
        ),
        reflow_wf(mk_state(final(out)@, *final(ll) as nat, li as nat, *final(wu))),
{
    let ghost st = mk_state(old(out)@, *old(ll) as nat, li as nat, *old(wu));
    let ghost tok = b@.subrange(from as int, to as int);
    let tlen = to - from;
    let is_url = is_url_word(b, from, to);
    let is_brk_tok = tlen == 2 && b[from] == 32 && b[from + 1] == 32;
    proof {
        if is_brk_tok {
            assert(tok =~= break_token());
        } else {
            assert(tok != break_token());
        }
        if tok == break_token() {
            lemma_break_not_url();
        }
    }
    let brk = *ll != li && (*ll > 80 || tlen > 80 || *ll + tlen > 80 || is_url || *wu);
    proof {
        assert(brk == (st.line_len != st.line_indent && (st.line_len + tok.len() > 80
            || is_url_token(tok) || st.was_url)));
    }
    if brk {
        out.pop();
        proof {
            assert(out@ =~= st.out.drop_last());
        }
        out.push(10);
        push_spaces(out, li);
        proof {
            assert(out@ =~= st.out.drop_last() + seq![10u8] + spaces(li as nat));
            lemma_valid_drop_last_ascii(st.out);
            lemma_ascii_valid(seq![10u8]);
            lemma_ascii_valid(spaces(li as nat));
            broadcast use vstd::utf8::valid_utf8_concat;

            assert(valid_utf8(st.out.drop_last() + seq![10u8]));
            assert(valid_utf8(st.out.drop_last() + seq![10u8] + spaces(li as nat)));
            assert(valid_utf8(out@));
        }
        *ll = li;
    }
    let ghost out1 = out@;
    let ghost ll1 = *ll as nat;
    proof {
        assert(valid_utf8(out1)) by {
            if !brk {
                assert(out1 == st.out);
            }
        }
    }
    push_range(out, b, from, to);
    out.push(32);
    proof {
        assert(out@ =~= out1 + tok + seq![32u8]);
        lemma_ascii_valid(seq![32u8]);
        broadcast use vstd::utf8::valid_utf8_concat;

        assert(valid_utf8(out1 + tok));
        assert(valid_utf8(out1 + tok + seq![32u8]));
        assert(valid_utf8(out@));
        // the new column count stays within the grown output
        if !brk {
            if st.line_len == st.line_indent {
                assert(st.line_len <= st.out.len());
            } else {
                assert(!st.was_url);
                assert(st.line_len <= st.out.len());
            }
        }
        assert(*ll + tlen + 1 <= out@.len());
    }
    let olen = out.len();
    proof {
        assert(olen == out@.len());
    }
    *ll = *ll + tlen + 1;
    if is_brk_tok {
        out.pop();
        proof {
            assert(out@ =~= (out1 + tok + seq![32u8]).drop_last());
            assert(out@ =~= out1 + tok);
            assert(out@.len() > 0 && out@.last() == 32);
            lemma_valid_drop_last_ascii(out1 + tok + seq![32u8]);
        }
        *wu = true;
    } else {
        *wu = is_url;
    }
    proof {
        let st2 = mk_state(out@, *ll as nat, li as nat, *wu);
        assert(st2 == step_token(st, tok));
        assert(reflow_wf(st2));
    }
}

/// Relies on String::from_utf8: a vector of valid UTF-8 bytes becomes the
/// string holding exactly those bytes.
#[verifier::external_body]
fn string_from_utf8(v: Vec<u8>) -> (r: String)
    requires
        valid_utf8(v@),
    ensures
        encode_utf8(r@) == v@,
{
    match String::from_utf8(v) {
        Ok(s) => s,
        Err(_) => String::new(),
    }
}

/// Folds one line of the text into the accumulator.
#[verifier::rlimit(100)]
fn process_one_line(
    out: &mut Vec<u8>,
    ll: &mut usize,
    li: &mut usize,
    wu: &mut bool,
    b: &[u8],
    i: usize,
    e: usize,
)
    requires
        i <= e <= b@.len(),
        valid_utf8(b@),
        i == 0 || b@[i - 1] == 10,
        e == b@.len() || b@[e as int] == 10,
        forall|k: int| i <= k < e ==> !is_nl(b@[k]),
        reflow_wf(mk_state(old(out)@, *old(ll) as nat, *old(li) as nat, *old(wu))),
    ensures
        mk_state(final(out)@, *final(ll) as nat, *final(li) as nat, *final(wu))
            == process_line(
            mk_state(old(out)@, *old(ll) as nat, *old(li) as nat, *old(wu)),
            b@.subrange(i as int, e as int),
        ),
        reflow_wf(mk_state(final(out)@, *final(ll) as nat, *final(li) as nat, *final(wu))),
{
    let ghost bs = b@;
    let n = b.len();
    let ghost line = bs.subrange(i as int, e as int);
    let ghost st0 = mk_state(out@, *ll as nat, *li as nat, *wu);
    let ghost target = process_line(st0, line);
    let w = scan_ws(b, i, e, i);
    proof {
        lemma_ws_end_bounds(line, 0);
        assert(forall|k: int| 0 <= k < line.len() ==> line[k] == bs[i + k]);
    }
    let bullet = e - w >= 2 && (b[w] == 45 || b[w] == 42) && b[w + 1] == 32;
    proof {
        assert(bullet == (bullet_len(line) is Some));
        if bullet {
            assert(bullet_len(line) == Some(w - i + 2));
        }
    }
    let mut rs = w;
    if bullet {
        let m = w + 2;
        let ghost o1 = if st0.out.len() > 0 {
            st0.out.drop_last().push(10u8)
        } else {
            st0.out
        };
        if out.len() > 0 {
            out.pop();
            proof {
                assert(out@ =~= st0.out.drop_last());
            }
            out.push(10);
        }
        proof {
            assert(out@ == o1);
            assert(valid_utf8(o1)) by {
                if st0.out.len() > 0 {
                    lemma_valid_drop_last_ascii(st0.out);
                    lemma_ascii_valid(seq![10u8]);
                    broadcast use vstd::utf8::valid_utf8_concat;

                    assert(o1 =~= st0.out.drop_last() + seq![10u8]);
                    assert(valid_utf8(st0.out.drop_last() + seq![10u8]));
                }
            }
        }
        push_range(out, b, i, m);
        *ll = m - i;
        *li = m - i;
        proof {
            let marker = bs.subrange(i as int, m as int);
            assert forall|k: int| 0 <= k < marker.len() implies marker[k] < 128 by {
                assert(marker[k] == bs[i + k]);
                if i + k < w {
                    assert(line[k] == bs[i + k]);
                    assert(is_ws(line[k]));
                }
            }
            lemma_ascii_valid(marker);
            broadcast use vstd::utf8::valid_utf8_concat;

            assert(valid_utf8(o1 + marker));
            assert(out@ == o1 + marker);
            assert(marker.last() == 32);
            assert(line.subrange(0, m - i) =~= marker);
            assert(mk_state(out@, *ll as nat, *li as nat, *wu) == (ReflowState {
                out: o1 + line.subrange(0, m - i),
                line_len: (m - i) as nat,
                line_indent: (m - i) as nat,
                was_url: st0.was_url,
            }));
            assert(reflow_wf(mk_state(out@, *ll as nat, *li as nat, *wu)));
        }
        rs = scan_ws(b, m, e, m);
        proof {
            lemma_ws_end_bounds(bs.subrange(m as int, e as int), 0);
            assert(trim_start(line.subrange(m - i, line.len() as int))
                =~= bs.subrange(rs as int, e as int)) by {
                assert(line.subrange(m - i, line.len() as int) =~= bs.subrange(
                    m as int,
                    e as int,
                ));
                assert(ws_end(bs.subrange(m as int, e as int), 0) == rs - m);
            }
            assert(rs == 0 || bs[rs - 1] < 128) by {
                if rs > m {
                    assert(is_ws(bs.subrange(m as int, e as int)[rs - m - 1]));
                } else {
                    assert(bs[m - 1] == 32);
                }
            }
        }
    } else {
        proof {
            assert(trim_start(line) =~= bs.subrange(rs as int, e as int));
            assert(rs == 0 || bs[rs - 1] < 128) by {
                if rs > i {
                    assert(is_ws(line[rs - i - 1]));
                } else {
                    if i > 0 {
                        assert(bs[i - 1] == 10);
                    }
                }
            }
        }
    }
    let ghost rest = bs.subrange(rs as int, e as int);
    let ghost st1 = mk_state(out@, *ll as nat, *li as nat, *wu);
    proof {
        assert(target == steps_rest(st1, rest, 0));
        assert(rest.len() == e - rs);
    }
    proof {
        if rs == 0 {
            vstd::utf8::is_char_boundary_start_end_of_seq(bs);
        } else {
            lemma_boundary_after_ascii(bs, rs as int);
        }
    }
    let mut j = rs;
    while j < e
        invariant
            rs <= j <= e <= n == bs.len(),
            b@ == bs,
            valid_utf8(bs),
            rest == bs.subrange(rs as int, e as int),
            target == steps_rest(
                mk_state(out@, *ll as nat, *li as nat, *wu),
                rest,
                j - rs,
            ),
            reflow_wf(mk_state(out@, *ll as nat, *li as nat, *wu)),
            is_char_boundary(bs, j as int),
            rs == 0 || bs[rs - 1] < 128,
            e == n || bs[e as int] == 10,
            forall|k: int| i <= k < e ==> !is_nl(bs[k]),
            i <= rs,
        decreases e - j,
    {
        proof {
            assert(rest[j - rs] == bs[j as int]);
        }
        if b[j] == 32 {
            proof {
                assert(steps_words(
                    mk_state(out@, *ll as nat, *li as nat, *wu),
                    rest,
                    j - rs,
                ) == steps_words(
                    mk_state(out@, *ll as nat, *li as nat, *wu),
                    rest,
                    j - rs + 1,
                ));
                lemma_boundary_after_ascii(bs, j as int + 1);
            }
            j = j + 1;
        } else {
            let we = scan_word(b, rs, e, j);
            let ghost tok = bs.subrange(j as int, we as int);
            proof {
                lemma_word_end_bounds(rest, j - rs);
                assert(forall|k: int| 0 <= k < rest.len() ==> rest[k] == bs[rs + k]);
                assert(tok =~= rest.subrange(j - rs, we - rs));
                assert forall|k: int| j <= k < we implies bs[k] != 32 by {
                    assert(rest[k - rs] == bs[k]);
                    assert(rest[k - rs] != 32);
                }
                // the token ends on a character boundary too
                assert(is_char_boundary(bs, we as int)) by {
                    if we < e {
                        assert(rest[we - rs] == 32);
                        vstd::utf8::is_char_boundary_iff_not_is_continuation_byte(
                            bs,
                            we as int,
                        );
                    } else if (we as int) < bs.len() {
                        assert(bs[we as int] == 10);
                        vstd::utf8::is_char_boundary_iff_not_is_continuation_byte(
                            bs,
                            we as int,
                        );
                    } else {
                        vstd::utf8::is_char_boundary_start_end_of_seq(bs);
                    }
                }
                lemma_valid_utf8_subrange(bs, j as int, we as int);
            }
            let ghost stj = mk_state(out@, *ll as nat, *li as nat, *wu);
            apply_token(out, ll, *li, wu, b, j, we);
            proof {
                assert(steps_words(stj, rest, j - rs) == steps_words(
                    step_token(stj, rest.subrange(j - rs, word_end(rest, j - rs))),
                    rest,
                    word_end(rest, j - rs),
                ));
                assert(rest.subrange(j - rs, we - rs) == tok);
                assert(mk_state(out@, *ll as nat, *li as nat, *wu) == step_token(
                    stj,
                    tok,
                ));
            }
            j = we;
        }
    }
    proof {
        assert(steps_words(mk_state(out@, *ll as nat, *li as nat, *wu), rest, e - rs)
            == mk_state(out@, *ll as nat, *li as nat, *wu));
    }
    if e - rs >= 2 && b[e - 1] == 32 && b[e - 2] == 32 {
        let ghost tok = bs.subrange(e as int - 2, e as int);
        proof {
            assert(forall|k: int| 0 <= k < rest.len() ==> rest[k] == bs[rs + k]);
            assert(ends_with_break(rest));
            assert(tok =~= break_token());
            lemma_ascii_valid(tok);
        }
        let ghost stj = mk_state(out@, *ll as nat, *li as nat, *wu);
        apply_token(out, ll, *li, wu, b, e - 2, e);
        proof {
            assert(mk_state(out@, *ll as nat, *li as nat, *wu) == step_token(stj, tok));
            assert(mk_state(out@, *ll as nat, *li as nat, *wu) == target);
        }
    } else {
        proof {
            assert(forall|k: int| 0 <= k < rest.len() ==> rest[k] == bs[rs + k]);
            assert(!ends_with_break(rest));
            assert(mk_state(out@, *ll as nat, *li as nat, *wu) == target);
        }
    }
}

/// Reflows a list block (or any block: lines without a bullet marker keep
/// the current indent) to the 80-column limit, line by line.
#[verifier::rlimit(100)]
pub fn process_list_items(section: &str) -> (ret: String)
    ensures
        encode_utf8(ret@) == reflow(section.spec_bytes()),
{
    proof {
        broadcast use vstd::utf8::encode_utf8_valid_utf8;

    }
    let b = section.as_bytes();
    let ghost bs = section.spec_bytes();
    let n = b.len();
    let mut out: Vec<u8> = Vec::new();
    let mut ll: usize = 0;
    let mut li: usize = 0;
    let mut wu: bool = false;
    let ghost total = process_from(bs, 0, init_state());
    let mut i: usize = 0;
    proof {
        assert(mk_state(out@, 0, 0, false) == init_state());
        lemma_init_wf();
    }
    while i < n
        invariant
            0 <= i <= n == bs.len(),
            b@ == bs,
            bs == section.spec_bytes(),
            valid_utf8(bs),
            total == process_from(bs, 0, init_state()),
            i == n || i == 0 || bs[i - 1] == 10,
            process_from(bs, i as int, mk_state(out@, ll as nat, li as nat, wu)) == total,
            reflow_wf(mk_state(out@, ll as nat, li as nat, wu)),
        decreases n - i,
    {
        let e = scan_line_end(b, i);
        proof {
            crate::headings::lemma_line_end_props(bs, i as int);
        }
        let ghost st0 = mk_state(out@, ll as nat, li as nat, wu);
        process_one_line(&mut out, &mut ll, &mut li, &mut wu, b, i, e);
        let ghost target = process_line(st0, bs.subrange(i as int, e as int));
        if e == n {
            i = n;
        } else {
            proof {
                assert(process_from(bs, i as int, st0) == process_from(
                    bs,
                    e as int + 1,
                    target,
                ));
            }
            i = e + 1;
        }
    }
    proof {
        let cur = mk_state(out@, ll as nat, li as nat, wu);
        assert(process_from(bs, n as int, cur) == cur);
        assert(cur == total);
    }
    if out.len() > 0 {
        proof {
            lemma_valid_drop_last_ascii(out@);
        }
        out.pop();
        proof {
            assert(out@ =~= total.out.drop_last());
        }
    }
    proof {
        assert(out@ == reflow(bs));
    }
    string_from_utf8(out)
}

/// Reflows one block to the 80-column limit: words are packed greedily,
/// hard breaks and list markers are preserved, and URLs are isolated on
/// lines of their own.
pub fn process_section(section: &str) -> (ret: String)
    ensures
        encode_utf8(ret@) == reflow(section.spec_bytes()),
{
    process_list_items(section)
}

} // verus!
