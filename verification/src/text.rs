//! Byte-level model of a UTF-8 text buffer: newline counting, line starts,
//! character (code point) counting, and the correspondence between byte
//! offsets and (line, column) positions.

use vstd::prelude::*;
use vstd::utf8::*;
use vstd::string::StringSliceAdditionalSpecFns;
use vstd::string::StringExecFns;

verus! {

/// The line separator recognized by the engine.
pub open spec fn is_nl(b: u8) -> bool {
    b == 10u8
}

/// A UTF-8 continuation byte; every code point contributes exactly one
/// non-continuation (leading) byte to the encoding.
pub open spec fn is_cont(b: u8) -> bool {
    128 <= b < 192
}

/// Number of newline bytes in `s`.
pub open spec fn count_nl(s: Seq<u8>) -> nat
    decreases s.len(),
{
    if s.len() == 0 {
        0
    } else {
        count_nl(s.drop_last()) + if is_nl(s.last()) {
            1nat
        } else {
            0nat
        }
    }
}

/// Number of code points encoded in `s` (counted by leading bytes).
pub open spec fn count_chars(s: Seq<u8>) -> nat
    decreases s.len(),
{
    if s.len() == 0 {
        0
    } else {
        count_chars(s.drop_last()) + if is_cont(s.last()) {
            0nat
        } else {
            1nat
        }
    }
}

/// Byte offset at which the line containing offset `o` begins.
pub open spec fn line_start_of(s: Seq<u8>, o: int) -> int
    decreases o,
{
    if o <= 0 {
        0
    } else if is_nl(s[o - 1]) {
        o
    } else {
        line_start_of(s, o - 1)
    }
}

/// `o` is the first byte of a line: the buffer start, or just after a newline.
pub open spec fn is_line_start(s: Seq<u8>, o: int) -> bool {
    o == 0 || is_nl(s[o - 1])
}

/// Zero-based line number of byte offset `o`.
pub open spec fn line_at(s: Seq<u8>, o: int) -> nat {
    count_nl(s.take(o))
}

/// Zero-based column of byte offset `o`: code points since the line start.
pub open spec fn col_at(s: Seq<u8>, o: int) -> nat {
    count_chars(s.subrange(line_start_of(s, o), o))
}

/// `o` is the byte offset denoted by the position (`line`, `chr`).
pub open spec fn is_offset_of(s: Seq<u8>, line: nat, chr: nat, o: int) -> bool {
    &&& 0 <= o <= s.len()
    &&& is_char_boundary(s, o)
    &&& line_at(s, o) == line
    &&& col_at(s, o) == chr
}

pub proof fn lemma_count_nl_le_len(s: Seq<u8>)
    ensures
        count_nl(s) <= s.len(),
    decreases s.len(),
{
    if s.len() > 0 {
        lemma_count_nl_le_len(s.drop_last());
    }
}

pub proof fn lemma_count_chars_le_len(s: Seq<u8>)
    ensures
        count_chars(s) <= s.len(),
    decreases s.len(),
{
    if s.len() > 0 {
        lemma_count_chars_le_len(s.drop_last());
    }
}

pub proof fn lemma_count_nl_concat(a: Seq<u8>, b: Seq<u8>)
    ensures
        count_nl(a + b) == count_nl(a) + count_nl(b),
    decreases b.len(),
{
    if b.len() == 0 {
        assert(a + b =~= a);
    } else {
        lemma_count_nl_concat(a, b.drop_last());
        assert((a + b).drop_last() =~= a + b.drop_last());
        assert((a + b).last() == b.last());
    }
}

pub proof fn lemma_count_chars_concat(a: Seq<u8>, b: Seq<u8>)
    ensures
        count_chars(a + b) == count_chars(a) + count_chars(b),
    decreases b.len(),
{
    if b.len() == 0 {
        assert(a + b =~= a);
    } else {
        lemma_count_chars_concat(a, b.drop_last());
        assert((a + b).drop_last() =~= a + b.drop_last());
        assert((a + b).last() == b.last());
    }
}

/// One step of newline counting over a growing prefix.
pub proof fn lemma_count_nl_step(s: Seq<u8>, i: int)
    requires
        0 <= i < s.len(),
    ensures
        count_nl(s.take(i + 1)) == count_nl(s.take(i)) + if is_nl(s[i]) {
            1int
        } else {
            0int
        },
{
    assert(s.take(i + 1).drop_last() =~= s.take(i));
    assert(s.take(i + 1).last() == s[i]);
}

/// One step of code-point counting over a growing subrange.
pub proof fn lemma_count_chars_step(s: Seq<u8>, a: int, j: int)
    requires
        0 <= a <= j < s.len(),
    ensures
        count_chars(s.subrange(a, j + 1)) == count_chars(s.subrange(a, j)) + if is_cont(
            s[j],
        ) {
            0int
        } else {
            1int
        },
{
    assert(s.subrange(a, j + 1).drop_last() =~= s.subrange(a, j));
    assert(s.subrange(a, j + 1).last() == s[j]);
}

/// Newline counts of nested prefixes differ by the count in between.
pub proof fn lemma_count_nl_prefix(s: Seq<u8>, a: int, b: int)
    requires
        0 <= a <= b <= s.len(),
    ensures
        count_nl(s.take(b)) == count_nl(s.take(a)) + count_nl(s.subrange(a, b)),
{
    assert(s.take(b) =~= s.take(a) + s.subrange(a, b));
    lemma_count_nl_concat(s.take(a), s.subrange(a, b));
}

/// A segment with no newline bytes counts zero newlines, and conversely.
pub proof fn lemma_count_nl_zero(s: Seq<u8>)
    ensures
        count_nl(s) == 0 <==> (forall|k: int| 0 <= k < s.len() ==> !is_nl(s[k])),
    decreases s.len(),
{
    if s.len() > 0 {
        lemma_count_nl_zero(s.drop_last());
        assert(forall|k: int|
            0 <= k < s.len() - 1 ==> s.drop_last()[k] == s[k]);
        if count_nl(s) == 0 {
            assert(!is_nl(s[s.len() - 1]));
        }
    }
}

/// A segment with no leading bytes counts zero code points, and conversely.
pub proof fn lemma_count_chars_zero(s: Seq<u8>)
    ensures
        count_chars(s) == 0 <==> (forall|k: int| 0 <= k < s.len() ==> is_cont(s[k])),
    decreases s.len(),
{
    if s.len() > 0 {
        lemma_count_chars_zero(s.drop_last());
        assert(forall|k: int|
            0 <= k < s.len() - 1 ==> s.drop_last()[k] == s[k]);
        if count_chars(s) == 0 {
            assert(is_cont(s[s.len() - 1]));
        }
    }
}

/// `line_start_of` lands on a line start, at or before `o`, with no
/// newline bytes strictly between.
pub proof fn lemma_line_start_props(s: Seq<u8>, o: int)
    requires
        0 <= o <= s.len(),
    ensures
        0 <= line_start_of(s, o) <= o,
        is_line_start(s, line_start_of(s, o)),
        forall|k: int| line_start_of(s, o) <= k < o ==> !is_nl(s[k]),
    decreases o,
{
    if o > 0 && !is_nl(s[o - 1]) {
        lemma_line_start_props(s, o - 1);
    }
}

/// A line start with no newline up to `o` is exactly `line_start_of(s, o)`.
pub proof fn lemma_line_start_unique(s: Seq<u8>, j: int, o: int)
    requires
        0 <= j <= o <= s.len(),
        is_line_start(s, j),
        forall|k: int| j <= k < o ==> !is_nl(s[k]),
    ensures
        line_start_of(s, o) == j,
    decreases o,
{
    if o > j {
        assert(!is_nl(s[o - 1]));
        lemma_line_start_unique(s, j, o - 1);
    }
}

/// Two offsets on the same line have the same line start.
pub proof fn lemma_same_line_same_start(s: Seq<u8>, o1: int, o2: int)
    requires
        0 <= o1 <= o2 <= s.len(),
        line_at(s, o1) == line_at(s, o2),
    ensures
        line_start_of(s, o1) == line_start_of(s, o2),
{
    lemma_count_nl_prefix(s, o1, o2);
    lemma_count_nl_zero(s.subrange(o1, o2));
    assert(forall|k: int|
        o1 <= k < o2 ==> s.subrange(o1, o2)[k - o1] == s[k]);
    lemma_line_start_props(s, o1);
    lemma_line_start_unique(s, line_start_of(s, o1), o2);
}

/// A position denotes at most one byte offset.
pub proof fn lemma_offset_unique(s: Seq<u8>, line: nat, chr: nat, o1: int, o2: int)
    requires
        valid_utf8(s),
        is_offset_of(s, line, chr, o1),
        is_offset_of(s, line, chr, o2),
    ensures
        o1 == o2,
{
    if o1 < o2 {
        lemma_not_boundary_between(s, o1, o2);
    } else if o2 < o1 {
        lemma_not_boundary_between(s, o2, o1);
    }
}

/// Of two distinct offsets with the same line and column, the smaller one
/// starts inside a code point.
proof fn lemma_not_boundary_between(s: Seq<u8>, o1: int, o2: int)
    requires
        valid_utf8(s),
        0 <= o1 < o2 <= s.len(),
        is_char_boundary(s, o2),
        line_at(s, o1) == line_at(s, o2),
        col_at(s, o1) == col_at(s, o2),
    ensures
        !is_char_boundary(s, o1),
{
    lemma_same_line_same_start(s, o1, o2);
    let ls = line_start_of(s, o1);
    lemma_line_start_props(s, o1);
    assert(s.subrange(ls, o2) =~= s.subrange(ls, o1) + s.subrange(o1, o2));
    lemma_count_chars_concat(s.subrange(ls, o1), s.subrange(o1, o2));
    lemma_count_chars_zero(s.subrange(o1, o2));
    assert(is_cont(s.subrange(o1, o2)[0]));
    assert(is_cont(s[o1]));
    is_char_boundary_iff_not_is_continuation_byte(s, o1);
}

/// In valid UTF-8, the byte following an ASCII byte starts a new code point.
pub proof fn lemma_boundary_after_ascii(s: Seq<u8>, i: int)
    requires
        valid_utf8(s),
        0 < i <= s.len(),
        s[i - 1] < 128,
    ensures
        is_char_boundary(s, i),
{
    if i == s.len() {
        is_char_boundary_start_end_of_seq(s);
    } else {
        is_char_boundary_iff_not_is_continuation_byte(s, i - 1);
        valid_utf8_split(s, i - 1);
        let suffix = s.subrange(i - 1, s.len() as int);
        assert(valid_utf8(suffix));
        assert(suffix.len() >= 2);
        assert(suffix[0] == s[i - 1]);
        assert(is_leading_byte_width_1(suffix[0]));
        assert(valid_first_scalar(suffix) && valid_utf8(pop_first_scalar(suffix)));
        assert(length_of_first_scalar(suffix) == 1);
        assert(is_char_boundary(suffix, 1) == is_char_boundary(pop_first_scalar(suffix), 0));
        assert(is_char_boundary(suffix, 1));
        is_char_boundary_iff_not_is_continuation_byte(suffix, 1);
        assert(!is_continuation_byte(suffix[1]));
        assert(suffix[1] == s[i]);
        is_char_boundary_iff_not_is_continuation_byte(s, i);
    }
}

/// Line starts are always character boundaries: the buffer start, or the
/// byte after an ASCII newline.
pub proof fn lemma_line_start_boundary(s: Seq<u8>, i: int)
    requires
        valid_utf8(s),
        0 <= i <= s.len(),
        is_line_start(s, i),
    ensures
        is_char_boundary(s, i),
{
    if i == 0 {
        is_char_boundary_start_end_of_seq(s);
    } else {
        lemma_boundary_after_ascii(s, i);
    }
}

/// The byte offset a position denotes, if any.
pub open spec fn pos_offset(s: Seq<u8>, line: nat, chr: nat) -> Option<int> {
    if exists|o: int| is_offset_of(s, line, chr, o) {
        Some(choose|o: int| is_offset_of(s, line, chr, o))
    } else {
        None
    }
}

/// A witness pins down `pos_offset`.
pub proof fn lemma_pos_offset_some(s: Seq<u8>, line: nat, chr: nat, o: int)
    requires
        valid_utf8(s),
        is_offset_of(s, line, chr, o),
    ensures
        pos_offset(s, line, chr) == Some(o),
{
    let w = choose|x: int| is_offset_of(s, line, chr, x);
    lemma_offset_unique(s, line, chr, w, o);
}

/// UTF-8 encoding distributes over concatenation.
pub proof fn lemma_encode_utf8_concat(a: Seq<char>, b: Seq<char>)
    ensures
        encode_utf8(a + b) == encode_utf8(a) + encode_utf8(b),
    decreases a.len(),
{
    if a.len() == 0 {
        assert(a + b =~= b);
        assert(encode_utf8(a) + encode_utf8(b) =~= encode_utf8(b));
    } else {
        assert((a + b).drop_first() =~= a.drop_first() + b);
        lemma_encode_utf8_concat(a.drop_first(), b);
        assert((a + b)[0] == a[0]);
        assert(encode_utf8(a + b) =~= encode_utf8(a) + encode_utf8(b));
    }
}

/// A character boundary below `b` is also a boundary of the prefix ending
/// at boundary `b`.
pub proof fn lemma_boundary_in_prefix(s: Seq<u8>, a: int, b: int)
    requires
        valid_utf8(s),
        0 <= a <= b <= s.len(),
        is_char_boundary(s, a),
        is_char_boundary(s, b),
    ensures
        valid_utf8(s.subrange(0, b)),
        is_char_boundary(s.subrange(0, b), a),
{
    valid_utf8_split(s, b);
    let p = s.subrange(0, b);
    if a == b {
        is_char_boundary_start_end_of_seq(p);
    } else if a == 0 {
        is_char_boundary_start_end_of_seq(p);
    } else {
        is_char_boundary_iff_not_is_continuation_byte(s, a);
        assert(p[a] == s[a]);
        is_char_boundary_iff_not_is_continuation_byte(p, a);
    }
}

/// A character boundary at or past `a` is a boundary of the suffix starting
/// at boundary `a`.
pub proof fn lemma_boundary_in_suffix(s: Seq<u8>, a: int, b: int)
    requires
        valid_utf8(s),
        0 <= a <= b <= s.len(),
        is_char_boundary(s, a),
        is_char_boundary(s, b),
    ensures
        valid_utf8(s.subrange(a, s.len() as int)),
        is_char_boundary(s.subrange(a, s.len() as int), b - a),
{
    valid_utf8_split(s, a);
    let p = s.subrange(a, s.len() as int);
    if b == s.len() {
        is_char_boundary_start_end_of_seq(p);
    } else if b == a {
        is_char_boundary_start_end_of_seq(p);
    } else {
        is_char_boundary_iff_not_is_continuation_byte(s, b);
        assert(p[b - a] == s[b]);
        is_char_boundary_iff_not_is_continuation_byte(p, b - a);
    }
}

/// Lines are numbered past the last newline, so a line index beyond the
/// total newline count denotes no offset.
pub proof fn lemma_line_out_of_range(s: Seq<u8>, line: nat, chr: nat, o: int)
    requires
        line > count_nl(s),
    ensures
        !is_offset_of(s, line, chr, o),
{
    if 0 <= o <= s.len() {
        lemma_count_nl_prefix(s, o, s.len() as int);
        assert(s.take(s.len() as int) =~= s);
    }
}

/// A sequence of ASCII bytes is valid UTF-8.
pub proof fn lemma_ascii_valid(s: Seq<u8>)
    requires
        forall|k: int| 0 <= k < s.len() ==> s[k] < 128,
    ensures
        valid_utf8(s),
{
    assert(forall|k: int| 0 <= k < s.len() ==> is_leading_byte_width_1(s[k]));
    assert(valid_utf8(s.subrange(0, 0))) by {
        assert(s.subrange(0, 0) =~= Seq::<u8>::empty());
    }
    partial_valid_utf8_extend_ascii_block(s, 0, s.len() as int);
    assert(s.subrange(0, s.len() as int) =~= s);
}

/// Dropping a trailing ASCII byte keeps a sequence valid UTF-8.
pub proof fn lemma_valid_drop_last_ascii(s: Seq<u8>)
    requires
        valid_utf8(s),
        s.len() > 0,
        s.last() < 128,
    ensures
        valid_utf8(s.drop_last()),
{
    is_char_boundary_iff_not_is_continuation_byte(s, s.len() - 1);
    valid_utf8_split(s, s.len() - 1);
    assert(s.subrange(0, s.len() - 1) =~= s.drop_last());
}

/// A subrange between character boundaries is valid UTF-8.
pub proof fn lemma_valid_utf8_subrange(s: Seq<u8>, a: int, b: int)
    requires
        valid_utf8(s),
        0 <= a <= b <= s.len(),
        is_char_boundary(s, a),
        is_char_boundary(s, b),
    ensures
        valid_utf8(s.subrange(a, b)),
{
    lemma_boundary_in_suffix(s, a, b);
    let suf = s.subrange(a, s.len() as int);
    valid_utf8_split(suf, b - a);
    assert(suf.subrange(0, b - a) =~= s.subrange(a, b));
}

/// The bytes of `s` with the span `[sp, ep)` replaced by `ins`.
pub open spec fn splice_bytes(s: Seq<u8>, sp: int, ep: int, ins: Seq<u8>) -> Seq<u8> {
    s.subrange(0, sp) + ins + s.subrange(ep, s.len() as int)
}

/// The substring covering byte range `[a, b)`.
pub fn str_slice_range<'a>(s: &'a str, a: usize, b: usize) -> (r: &'a str)
    requires
        a <= b <= s.spec_bytes().len(),
        is_char_boundary(s.spec_bytes(), a as int),
        is_char_boundary(s.spec_bytes(), b as int),
    ensures
        r.spec_bytes() == s.spec_bytes().subrange(a as int, b as int),
{
    proof {
        broadcast use encode_utf8_valid_utf8;

        lemma_boundary_in_prefix(s.spec_bytes(), a as int, b as int);
    }
    let (pre, _) = s.split_at(b);
    let (_, r) = pre.split_at(a);
    proof {
        assert(r.spec_bytes() =~= s.spec_bytes().subrange(a as int, b as int));
    }
    r
}

/// Replaces the byte span `[sp, ep)` of `s` with `ins`. The spans kept may
/// overlap when `sp > ep`; the pieces are reassembled as sliced.
pub fn splice_str(s: &str, sp: usize, ep: usize, ins: &str) -> (r: String)
    requires
        sp <= s.spec_bytes().len(),
        ep <= s.spec_bytes().len(),
        is_char_boundary(s.spec_bytes(), sp as int),
        is_char_boundary(s.spec_bytes(), ep as int),
    ensures
        encode_utf8(r@) == splice_bytes(s.spec_bytes(), sp as int, ep as int, ins.spec_bytes()),
{
    let (pre, _) = s.split_at(sp);
    let (_, post) = s.split_at(ep);
    let mut ret = pre.to_owned();
    ret.append(ins);
    ret.append(post);
    proof {
        assert(ret@ =~= pre@ + ins@ + post@);
        lemma_encode_utf8_concat(pre@, ins@);
        lemma_encode_utf8_concat(pre@ + ins@, post@);
        assert((pre@ + ins@) + post@ =~= ret@);
        assert(encode_utf8(ret@) =~= splice_bytes(
            s.spec_bytes(),
            sp as int,
            ep as int,
            ins.spec_bytes(),
        ));
    }
    ret
}

} // verus!
