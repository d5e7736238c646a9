//! Byte-level model of UTF-8 text.
//!
//! File contents are modelled as the sequence of their UTF-8 bytes. This
//! module defines what an occurrence of a literal pattern is, where the line
//! around a byte offset starts and ends, and how byte offsets relate to
//! character offsets, together with the lemmas that connect those notions.

use vstd::prelude::*;
use vstd::utf8::*;

verus! {

broadcast use vstd::utf8::group_utf8_lib;

/// The byte that terminates a line.
pub const NEWLINE: u8 = 10;

/// True when `pat` occurs in `text` at byte offset `i`.
pub open spec fn match_at(text: Seq<u8>, pat: Seq<u8>, i: int) -> bool {
    &&& 0 <= i
    &&& i + pat.len() <= text.len()
    &&& text.subrange(i, i + pat.len()) == pat
}

/// Byte offsets of the occurrences found by a greedy left-to-right,
/// non-overlapping scan of `text` that starts at byte offset `from`.
/// An empty pattern never matches.
pub open spec fn match_positions(text: Seq<u8>, pat: Seq<u8>, from: int) -> Seq<int>
    decreases text.len() - from,
{
    if pat.len() == 0 || from < 0 || from + pat.len() > text.len() {
        seq![]
    } else if match_at(text, pat, from) {
        seq![from] + match_positions(text, pat, from + pat.len())
    } else {
        match_positions(text, pat, from + 1)
    }
}

/// Byte offset of the start of the line containing byte offset `i`: just
/// after the nearest newline before `i`, or 0 when there is none.
pub open spec fn line_start(text: Seq<u8>, i: int) -> int
    decreases i,
{
    if i <= 0 {
        0
    } else if text[i - 1] == NEWLINE {
        i
    } else {
        line_start(text, i - 1)
    }
}

/// Byte offset of the end of the line containing byte offset `i`: the first
/// newline at or after `i`, or the end of the text when there is none.
pub open spec fn line_end(text: Seq<u8>, i: int) -> int
    decreases text.len() - i,
{
    if i < 0 {
        0
    } else if i >= text.len() {
        text.len() as int
    } else if text[i] == NEWLINE {
        i
    } else {
        line_end(text, i + 1)
    }
}

/// Number of newline bytes in `text`.
pub open spec fn newline_count(text: Seq<u8>) -> nat
    decreases text.len(),
{
    if text.len() == 0 {
        0
    } else {
        newline_count(text.drop_last()) + if text.last() == NEWLINE {
            1nat
        } else {
            0nat
        }
    }
}

/// Number of bytes in `text` that are not UTF-8 continuation bytes. In valid
/// UTF-8 this is the number of encoded characters (`lemma_char_count`).
pub open spec fn non_cont_count(text: Seq<u8>) -> nat
    decreases text.len(),
{
    if text.len() == 0 {
        0
    } else {
        non_cont_count(text.drop_last()) + if is_continuation_byte(text.last()) {
            0nat
        } else {
            1nat
        }
    }
}

/// `text` with the byte range `[start, start + mlen)` replaced by `rep`.
pub open spec fn splice(text: Seq<u8>, start: int, mlen: int, rep: Seq<u8>) -> Seq<u8>
    recommends
        0 <= start,
        0 <= mlen,
        start + mlen <= text.len(),
{
    text.subrange(0, start) + rep + text.subrange(start + mlen, text.len() as int)
}

/// The tail of `text` from byte offset `from` on, with every occurrence that
/// the greedy left-to-right scan finds replaced by `rep`.
pub open spec fn replaced_from(text: Seq<u8>, pat: Seq<u8>, rep: Seq<u8>, from: int) -> Seq<u8>
    decreases text.len() - from,
{
    if from < 0 || from > text.len() {
        seq![]
    } else if pat.len() == 0 || from + pat.len() > text.len() {
        text.subrange(from, text.len() as int)
    } else if match_at(text, pat, from) {
        rep + replaced_from(text, pat, rep, from + pat.len())
    } else {
        seq![text[from]] + replaced_from(text, pat, rep, from + 1)
    }
}

/// `text` with every occurrence of `pat` replaced by `rep`.
pub open spec fn replaced(text: Seq<u8>, pat: Seq<u8>, rep: Seq<u8>) -> Seq<u8> {
    replaced_from(text, pat, rep, 0)
}

/// Encoding a concatenation of character sequences concatenates their
/// encodings.
pub proof fn lemma_encode_utf8_concat(a: Seq<char>, b: Seq<char>)
    ensures
        encode_utf8(a + b) == encode_utf8(a) + encode_utf8(b),
    decreases a.len(),
{
    if a.len() == 0 {
        assert(a + b =~= b);
        assert(encode_utf8(a) + encode_utf8(b) =~= encode_utf8(b));
    } else {
        lemma_encode_utf8_concat(a.drop_first(), b);
        assert((a + b).drop_first() =~= a.drop_first() + b);
        assert((a + b)[0] == a[0]);
        assert(encode_utf8(a + b) =~= encode_utf8(a) + encode_utf8(b));
    }
}

/// The first byte of non-empty valid UTF-8 is a leading byte, never a
/// continuation byte.
pub proof fn lemma_first_byte_not_continuation(s: Seq<u8>)
    requires
        valid_utf8(s),
        s.len() > 0,
    ensures
        !is_continuation_byte(s[0]),
{
    assert(valid_first_scalar(s));
}

/// Bytes that form exactly one well-formed scalar encoding are valid UTF-8.
pub proof fn lemma_single_scalar_valid(s: Seq<u8>)
    requires
        valid_first_scalar(s),
        s.len() == length_of_first_scalar(s),
    ensures
        valid_utf8(s),
{
    assert(pop_first_scalar(s) =~= Seq::<u8>::empty());
    assert(valid_utf8(pop_first_scalar(s)));
}

/// A prefix of valid UTF-8 that is itself valid UTF-8 ends on a character
/// boundary.
pub proof fn lemma_valid_prefix_boundary(t: Seq<u8>, m: int)
    requires
        valid_utf8(t),
        0 <= m <= t.len(),
        valid_utf8(t.subrange(0, m)),
    ensures
        is_char_boundary(t, m),
    decreases m,
{
    if m == 0 {
    } else {
        let p = t.subrange(0, m);
        assert(valid_first_scalar(p));
        assert(valid_first_scalar(t));
        assert(p[0] == t[0]);
        let k = length_of_first_scalar(t);
        assert(length_of_first_scalar(p) == k);
        assert(k <= m);
        assert(pop_first_scalar(p) =~= pop_first_scalar(t).subrange(0, m - k));
        assert(valid_utf8(pop_first_scalar(p)));
        assert(valid_utf8(pop_first_scalar(t)));
        assert(pop_first_scalar(t).len() == t.len() - k);
        lemma_valid_prefix_boundary(pop_first_scalar(t), m - k);
    }
}

/// A character boundary of a suffix corresponds to a character boundary of
/// the whole text.
pub proof fn lemma_boundary_suffix_transfer(t: Seq<u8>, i: int, d: int)
    requires
        valid_utf8(t),
        is_char_boundary(t, i),
        0 <= i,
        0 <= d <= t.len() - i,
    ensures
        is_char_boundary(t, i + d) <==> is_char_boundary(t.subrange(i, t.len() as int), d),
{
    let suffix = t.subrange(i, t.len() as int);
    assert(valid_utf8(suffix));
    if d == 0 {
        assert(is_char_boundary(t, i + 0));
        assert(is_char_boundary(suffix, 0));
    } else if i + d == t.len() {
        assert(is_char_boundary(t, t.len() as int));
        assert(is_char_boundary(suffix, suffix.len() as int));
    } else {
        assert(suffix[d] == t[i + d]);
        assert(is_char_boundary(t, i + d) <==> !is_continuation_byte(t[i + d]));
        assert(is_char_boundary(suffix, d) <==> !is_continuation_byte(suffix[d]));
    }
}

/// The byte position just after an ASCII byte is a character boundary.
pub proof fn lemma_ascii_step(t: Seq<u8>, p: int)
    requires
        valid_utf8(t),
        is_char_boundary(t, p),
        0 <= p < t.len(),
        t[p] < 0x80,
    ensures
        is_char_boundary(t, p + 1),
{
    let suffix = t.subrange(p, t.len() as int);
    assert(valid_utf8(suffix));
    assert(suffix[0] == t[p]);
    assert(is_leading_byte_width_1(suffix[0]));
    assert(length_of_first_scalar(suffix) == 1);
    assert(is_char_boundary(pop_first_scalar(suffix), 0));
    assert(is_char_boundary(suffix, 1));
    lemma_boundary_suffix_transfer(t, p, 1);
}

/// The bytes between two character boundaries of valid UTF-8 are themselves
/// valid UTF-8.
pub proof fn lemma_boundary_subrange_valid(t: Seq<u8>, a: int, b: int)
    requires
        valid_utf8(t),
        is_char_boundary(t, a),
        is_char_boundary(t, b),
        0 <= a <= b <= t.len(),
    ensures
        valid_utf8(t.subrange(a, b)),
{
    let suffix = t.subrange(a, t.len() as int);
    assert(valid_utf8(suffix));
    lemma_boundary_suffix_transfer(t, a, b - a);
    assert(is_char_boundary(suffix, b - a));
    assert(valid_utf8(suffix.subrange(0, b - a)));
    assert(suffix.subrange(0, b - a) =~= t.subrange(a, b));
}

/// Counting non-continuation bytes distributes over concatenation.
pub proof fn lemma_non_cont_concat(a: Seq<u8>, b: Seq<u8>)
    ensures
        non_cont_count(a + b) == non_cont_count(a) + non_cont_count(b),
    decreases b.len(),
{
    if b.len() == 0 {
        assert(a + b =~= a);
    } else {
        lemma_non_cont_concat(a, b.drop_last());
        assert((a + b).drop_last() =~= a + b.drop_last());
        assert((a + b).last() == b.last());
    }
}

proof fn lemma_non_cont_single_scalar(s: Seq<u8>)
    requires
        s.len() >= 1,
        !is_continuation_byte(s[0]),
        forall|j: int| 1 <= j < s.len() ==> is_continuation_byte(#[trigger] s[j]),
    ensures
        non_cont_count(s) == 1,
    decreases s.len(),
{
    if s.len() == 1 {
        assert(s.drop_last() =~= Seq::<u8>::empty());
        assert(non_cont_count(s.drop_last()) == 0);
        assert(s.last() == s[0]);
    } else {
        assert(is_continuation_byte(s.last()));
        lemma_non_cont_single_scalar(s.drop_last());
    }
}

/// In valid UTF-8 the number of encoded characters equals the number of
/// non-continuation bytes.
pub proof fn lemma_char_count(s: Seq<u8>)
    requires
        valid_utf8(s),
    ensures
        decode_utf8(s).len() == non_cont_count(s),
    decreases s.len(),
{
    if s.len() == 0 {
    } else {
        assert(valid_first_scalar(s));
        let k = length_of_first_scalar(s);
        let head = take_first_scalar(s);
        let rest = pop_first_scalar(s);
        assert(valid_utf8(rest));
        assert(rest.len() == s.len() - k);
        lemma_char_count(rest);
        assert(s =~= head + rest);
        lemma_non_cont_concat(head, rest);
        assert(head.len() == k);
        assert(head[0] == s[0]);
        assert(!is_continuation_byte(head[0]));
        assert(forall|j: int| 1 <= j < k ==> is_continuation_byte(#[trigger] head[j]));
        lemma_non_cont_single_scalar(head);
        assert(decode_utf8(s).len() == 1 + decode_utf8(rest).len());
    }
}

/// Both ends of an occurrence of a valid pattern inside valid text lie on
/// character boundaries.
pub proof fn lemma_match_boundaries(text: Seq<u8>, pat: Seq<u8>, i: int)
    requires
        valid_utf8(text),
        valid_utf8(pat),
        pat.len() > 0,
        match_at(text, pat, i),
    ensures
        is_char_boundary(text, i),
        is_char_boundary(text, i + pat.len()),
{
    assert(text[i] == pat[0]);
    lemma_first_byte_not_continuation(pat);
    if i == 0 {
        assert(is_char_boundary(text, 0));
    } else {
        assert(is_char_boundary(text, i) <==> !is_continuation_byte(text[i]));
    }
    let suffix = text.subrange(i, text.len() as int);
    assert(valid_utf8(suffix));
    assert(pat =~= suffix.subrange(0, pat.len() as int));
    lemma_valid_prefix_boundary(suffix, pat.len() as int);
    lemma_boundary_suffix_transfer(text, i, pat.len() as int);
}

/// Properties of `line_start`: it stays at or before `i`, sits just after a
/// newline (or at 0), and no newline occurs between it and `i`.
pub proof fn lemma_line_start_props(t: Seq<u8>, i: int)
    requires
        0 <= i <= t.len(),
    ensures
        0 <= line_start(t, i) <= i,
        line_start(t, i) > 0 ==> t[line_start(t, i) - 1] == NEWLINE,
        forall|j: int| line_start(t, i) <= j < i ==> t[j] != NEWLINE,
    decreases i,
{
    if i == 0 {
    } else if t[i - 1] == NEWLINE {
    } else {
        lemma_line_start_props(t, i - 1);
    }
}

/// Properties of `line_end`: it stays at or after `i`, sits on a newline (or
/// at the end of the text), and no newline occurs between `i` and it.
pub proof fn lemma_line_end_props(t: Seq<u8>, i: int)
    requires
        0 <= i <= t.len(),
    ensures
        i <= line_end(t, i) <= t.len(),
        line_end(t, i) < t.len() ==> t[line_end(t, i)] == NEWLINE,
        forall|j: int| i <= j < line_end(t, i) ==> t[j] != NEWLINE,
    decreases t.len() - i,
{
    if i >= t.len() {
    } else if t[i] == NEWLINE {
    } else {
        lemma_line_end_props(t, i + 1);
    }
}

/// Line boundaries of valid UTF-8 are character boundaries: a line starts
/// right after an ASCII newline and ends on one (or at either end of the
/// text).
pub proof fn lemma_line_boundaries(t: Seq<u8>, i: int)
    requires
        valid_utf8(t),
        0 <= i <= t.len(),
    ensures
        is_char_boundary(t, line_start(t, i)),
        is_char_boundary(t, line_end(t, i)),
{
    let ls = line_start(t, i);
    let le = line_end(t, i);
    lemma_line_start_props(t, i);
    lemma_line_end_props(t, i);
    if ls == 0 {
        assert(is_char_boundary(t, 0));
    } else {
        assert(t[ls - 1] == NEWLINE);
        if ls - 1 == 0 {
            assert(is_char_boundary(t, 0));
        } else {
            assert(is_char_boundary(t, ls - 1) <==> !is_continuation_byte(t[ls - 1]));
        }
        lemma_ascii_step(t, ls - 1);
    }
    if le == t.len() {
        assert(is_char_boundary(t, t.len() as int));
    } else if le == 0 {
        assert(is_char_boundary(t, 0));
    } else {
        assert(t[le] == NEWLINE);
        assert(is_char_boundary(t, le) <==> !is_continuation_byte(t[le]));
    }
}

/// Every reported position is a real occurrence at or after `from`, and
/// positions ascend with at least a pattern length between them: the
/// occurrences are non-overlapping and in ascending order.
pub proof fn lemma_match_positions_props(text: Seq<u8>, pat: Seq<u8>, from: int)
    ensures
        forall|k: int|
            0 <= k < match_positions(text, pat, from).len() ==> from <= #[trigger] match_positions(
                text,
                pat,
                from,
            )[k] && match_at(text, pat, match_positions(text, pat, from)[k]),
        forall|k: int, l: int|
            0 <= k < l < match_positions(text, pat, from).len() ==> #[trigger] match_positions(
                text,
                pat,
                from,
            )[k] + pat.len() <= #[trigger] match_positions(text, pat, from)[l],
    decreases text.len() - from,
{
    let ps = match_positions(text, pat, from);
    if pat.len() == 0 || from < 0 || from + pat.len() > text.len() {
    } else if match_at(text, pat, from) {
        lemma_match_positions_props(text, pat, from + pat.len());
        let tail = match_positions(text, pat, from + pat.len());
        assert(ps[0] == from);
        assert(forall|k: int| 1 <= k < ps.len() ==> ps[k] == #[trigger] tail[k - 1]);
        assert forall|k: int| 0 <= k < ps.len() implies from <= #[trigger] ps[k] && match_at(
            text,
            pat,
            ps[k],
        ) by {
            if k >= 1 {
                assert(from + pat.len() <= tail[k - 1]);
            }
        };
        assert forall|k: int, l: int| 0 <= k < l < ps.len() implies #[trigger] ps[k] + pat.len()
            <= #[trigger] ps[l] by {
            if k == 0 {
                assert(from + pat.len() <= tail[l - 1]);
            } else {
                assert(tail[k - 1] + pat.len() <= tail[l - 1]);
            }
        };
    } else {
        lemma_match_positions_props(text, pat, from + 1);
        assert(ps =~= match_positions(text, pat, from + 1));
    }
}

/// Every occurrence at or after `from` overlaps some reported position: the
/// greedy scan misses nothing.
pub proof fn lemma_match_positions_complete(text: Seq<u8>, pat: Seq<u8>, from: int, i: int)
    requires
        pat.len() > 0,
        0 <= from <= i,
        match_at(text, pat, i),
    ensures
        exists|k: int|
            0 <= k < match_positions(text, pat, from).len() && #[trigger] match_positions(
                text,
                pat,
                from,
            )[k] <= i < match_positions(text, pat, from)[k] + pat.len(),
    decreases i - from,
{
    let ps = match_positions(text, pat, from);
    assert(from + pat.len() <= text.len());
    if match_at(text, pat, from) {
        if i < from + pat.len() {
            assert(ps[0] == from);
            assert(ps[0] <= i < ps[0] + pat.len());
        } else {
            lemma_match_positions_complete(text, pat, from + pat.len(), i);
            let tail = match_positions(text, pat, from + pat.len());
            let k = choose|k: int| 0 <= k < tail.len() && #[trigger] tail[k] <= i < tail[k]
                + pat.len();
            assert(ps[k + 1] == tail[k]);
            assert(ps[k + 1] <= i < ps[k + 1] + pat.len());
        }
    } else {
        assert(i != from);
        lemma_match_positions_complete(text, pat, from + 1, i);
        assert(ps =~= match_positions(text, pat, from + 1));
    }
}

/// A non-empty scan result starts with its first occurrence and continues
/// with the scan just past it; no occurrence starts before the first one.
pub proof fn lemma_match_positions_head(text: Seq<u8>, pat: Seq<u8>, from: int)
    requires
        pat.len() > 0,
        0 <= from,
        match_positions(text, pat, from).len() > 0,
    ensures
        ({
            let q = match_positions(text, pat, from)[0];
            &&& from <= q
            &&& match_at(text, pat, q)
            &&& match_positions(text, pat, from) =~= seq![q] + match_positions(
                text,
                pat,
                q + pat.len(),
            )
        }),
    decreases text.len() - from,
{
    if from + pat.len() > text.len() {
        assert(false);
    } else if match_at(text, pat, from) {
        assert(match_positions(text, pat, from)[0] == from);
    } else {
        lemma_match_positions_head(text, pat, from + 1);
    }
}

/// Where the scan finds nothing, replacement leaves the tail untouched.
pub proof fn lemma_replaced_no_match(text: Seq<u8>, pat: Seq<u8>, rep: Seq<u8>, from: int)
    requires
        pat.len() > 0,
        0 <= from <= text.len(),
        match_positions(text, pat, from).len() == 0,
    ensures
        replaced_from(text, pat, rep, from) == text.subrange(from, text.len() as int),
    decreases text.len() - from,
{
    if from + pat.len() > text.len() {
    } else if match_at(text, pat, from) {
        assert(false);
    } else {
        lemma_replaced_no_match(text, pat, rep, from + 1);
        assert(replaced_from(text, pat, rep, from) =~= text.subrange(from, text.len() as int));
    }
}

/// Up to the first occurrence the text is copied; there the replacement is
/// spliced in and the scan resumes just past the occurrence.
pub proof fn lemma_replaced_head(text: Seq<u8>, pat: Seq<u8>, rep: Seq<u8>, from: int)
    requires
        pat.len() > 0,
        0 <= from,
        match_positions(text, pat, from).len() > 0,
    ensures
        ({
            let q = match_positions(text, pat, from)[0];
            replaced_from(text, pat, rep, from) == text.subrange(from, q) + rep + replaced_from(
                text,
                pat,
                rep,
                q + pat.len(),
            )
        }),
    decreases text.len() - from,
{
    let q = match_positions(text, pat, from)[0];
    lemma_match_positions_head(text, pat, from);
    if from + pat.len() > text.len() {
        assert(false);
    } else if match_at(text, pat, from) {
        assert(q == from);
        assert(text.subrange(from, q) =~= Seq::<u8>::empty());
        assert(replaced_from(text, pat, rep, from) =~= text.subrange(from, q) + rep
            + replaced_from(text, pat, rep, q + pat.len()));
    } else {
        assert(match_positions(text, pat, from + 1) == match_positions(text, pat, from));
        lemma_replaced_head(text, pat, rep, from + 1);
        assert(q != from);
        assert(seq![text[from]] + text.subrange(from + 1, q) =~= text.subrange(from, q));
        assert(replaced_from(text, pat, rep, from) =~= text.subrange(from, q) + rep
            + replaced_from(text, pat, rep, q + pat.len()));
    }
}

/// An empty search pattern matches nothing and replaces nothing: the text
/// comes back unchanged.
pub proof fn lemma_empty_pattern_no_op(text: Seq<u8>, rep: Seq<u8>)
    ensures
        match_positions(text, Seq::<u8>::empty(), 0) == Seq::<int>::empty(),
        replaced(text, Seq::<u8>::empty(), rep) == text,
{
    assert(match_positions(text, Seq::<u8>::empty(), 0) =~= Seq::<int>::empty());
    assert(replaced_from(text, Seq::<u8>::empty(), rep, 0) =~= text);
}

/// When a replaced tail begins with the last `pat.len() - j` bytes of the
/// pattern, those bytes were copied from the original text: they cannot come
/// from a replacement (no replacement byte occurs in the pattern) nor
/// straddle one (replacements are non-empty).
proof fn lemma_replaced_prefix_origin(text: Seq<u8>, pat: Seq<u8>, rep: Seq<u8>, f: int, j: int)
    requires
        pat.len() >= 1,
        rep.len() >= 1,
        forall|x: int, y: int|
            0 <= x < pat.len() && 0 <= y < rep.len() ==> #[trigger] pat[x] != #[trigger] rep[y],
        0 <= f <= text.len(),
        0 <= j <= pat.len(),
        replaced_from(text, pat, rep, f).len() >= pat.len() - j,
        forall|d: int|
            0 <= d < pat.len() - j ==> #[trigger] replaced_from(text, pat, rep, f)[d] == pat[j + d],
    ensures
        f + (pat.len() - j) <= text.len(),
        forall|d: int| 0 <= d < pat.len() - j ==> #[trigger] text[f + d] == pat[j + d],
    decreases text.len() - f,
{
    let rr = replaced_from(text, pat, rep, f);
    if j == pat.len() {
    } else if f + pat.len() > text.len() {
        assert(rr == text.subrange(f, text.len() as int));
        assert forall|d: int| 0 <= d < pat.len() - j implies #[trigger] text[f + d] == pat[j
            + d] by {
            assert(rr[d] == text[f + d]);
        }
    } else if match_at(text, pat, f) {
        assert(rr == rep + replaced_from(text, pat, rep, f + pat.len()));
        assert(rr[0] == rep[0]);
        assert(rr[0] == pat[j]);
        assert(false);
    } else {
        let rr2 = replaced_from(text, pat, rep, f + 1);
        assert(rr == seq![text[f]] + rr2);
        assert(rr[0] == pat[j]);
        assert(text[f] == pat[j]);
        assert(rr2.len() >= pat.len() - (j + 1));
        assert forall|d: int| 0 <= d < pat.len() - (j + 1) implies #[trigger] rr2[d] == pat[(j + 1)
            + d] by {
            assert(rr[d + 1] == pat[j + (d + 1)]);
            assert(rr2[d] == rr[d + 1]);
        }
        lemma_replaced_prefix_origin(text, pat, rep, f + 1, j + 1);
        assert forall|d: int| 0 <= d < pat.len() - j implies #[trigger] text[f + d] == pat[j
            + d] by {
            if d > 0 {
                assert(text[(f + 1) + (d - 1)] == pat[(j + 1) + (d - 1)]);
            }
        }
    }
}

proof fn lemma_replaced_free_from(text: Seq<u8>, pat: Seq<u8>, rep: Seq<u8>, f: int)
    requires
        pat.len() >= 1,
        rep.len() >= 1,
        forall|x: int, y: int|
            0 <= x < pat.len() && 0 <= y < rep.len() ==> #[trigger] pat[x] != #[trigger] rep[y],
        0 <= f <= text.len(),
    ensures
        forall|i: int| !match_at(replaced_from(text, pat, rep, f), pat, i),
    decreases text.len() - f,
{
    let rr = replaced_from(text, pat, rep, f);
    if f + pat.len() > text.len() {
        assert(rr == text.subrange(f, text.len() as int));
        assert(rr.len() < pat.len());
        assert forall|i: int| !match_at(rr, pat, i) by {}
    } else if match_at(text, pat, f) {
        lemma_replaced_free_from(text, pat, rep, f + pat.len());
        let tail = replaced_from(text, pat, rep, f + pat.len());
        assert(rr == rep + tail);
        assert forall|i: int| !match_at(rr, pat, i) by {
            if 0 <= i && i + pat.len() <= rr.len() && rr.subrange(i, i + pat.len()) == pat {
                if i < rep.len() {
                    assert(rr.subrange(i, i + pat.len())[0] == rr[i]);
                    assert(rr[i] == rep[i]);
                    assert(pat[0] == rep[i]);
                    assert(false);
                } else {
                    assert(tail.subrange(i - rep.len(), i - rep.len() + pat.len()) =~= rr.subrange(
                        i,
                        i + pat.len(),
                    ));
                    assert(match_at(tail, pat, i - rep.len()));
                    assert(false);
                }
            }
        }
    } else {
        lemma_replaced_free_from(text, pat, rep, f + 1);
        let tail = replaced_from(text, pat, rep, f + 1);
        assert(rr == seq![text[f]] + tail);
        assert forall|i: int| !match_at(rr, pat, i) by {
            if 0 <= i && i + pat.len() <= rr.len() && rr.subrange(i, i + pat.len()) == pat {
                if i >= 1 {
                    assert(tail.subrange(i - 1, i - 1 + pat.len()) =~= rr.subrange(
                        i,
                        i + pat.len(),
                    ));
                    assert(match_at(tail, pat, i - 1));
                    assert(false);
                } else {
                    assert forall|d: int| 0 <= d < pat.len() implies #[trigger] rr[d] == pat[
                        0 + d] by {
                        assert(rr.subrange(0, pat.len() as int)[d] == rr[d]);
                    }
                    lemma_replaced_prefix_origin(text, pat, rep, f, 0);
                    assert forall|d: int| 0 <= d < pat.len() implies text.subrange(
                        f,
                        f + pat.len(),
                    )[d] == pat[d] by {
                        assert(text[f + d] == pat[0 + d]);
                    }
                    assert(text.subrange(f, f + pat.len()) =~= pat);
                    assert(match_at(text, pat, f));
                    assert(false);
                }
            }
        }
    }
}

/// Replacing every occurrence removes the pattern: a search over the result
/// finds nothing, provided the replacement is non-empty and no byte of the
/// replacement occurs in the pattern. (Without that proviso a replacement
/// boundary can recreate the pattern next to copied text.)
pub proof fn lemma_replace_removes_pattern(text: Seq<u8>, pat: Seq<u8>, rep: Seq<u8>)
    requires
        pat.len() >= 1,
        rep.len() >= 1,
        forall|x: int, y: int|
            0 <= x < pat.len() && 0 <= y < rep.len() ==> #[trigger] pat[x] != #[trigger] rep[y],
    ensures
        forall|i: int| !match_at(replaced(text, pat, rep), pat, i),
        match_positions(replaced(text, pat, rep), pat, 0) == Seq::<int>::empty(),
{
    lemma_replaced_free_from(text, pat, rep, 0);
    let ps = match_positions(replaced(text, pat, rep), pat, 0);
    if ps.len() > 0 {
        lemma_match_positions_props(replaced(text, pat, rep), pat, 0);
        assert(match_at(replaced(text, pat, rep), pat, ps[0]));
        assert(false);
    }
    assert(ps =~= Seq::<int>::empty());
}

proof fn lemma_replaced_no_byte(text: Seq<u8>, pat: Seq<u8>, rep: Seq<u8>, from: int)
    requires
        pat.len() == 1,
        forall|y: int| 0 <= y < rep.len() ==> #[trigger] rep[y] != pat[0],
        0 <= from <= text.len(),
    ensures
        forall|i: int|
            0 <= i < replaced_from(text, pat, rep, from).len() ==> #[trigger] replaced_from(
                text,
                pat,
                rep,
                from,
            )[i] != pat[0],
    decreases text.len() - from,
{
    let rr = replaced_from(text, pat, rep, from);
    if from == text.len() {
        assert(rr.len() == 0);
    } else if match_at(text, pat, from) {
        lemma_replaced_no_byte(text, pat, rep, from + 1);
        assert(rr == rep + replaced_from(text, pat, rep, from + 1));
        assert forall|i: int| 0 <= i < rr.len() implies #[trigger] rr[i] != pat[0] by {
            if i >= rep.len() {
                assert(rr[i] == replaced_from(text, pat, rep, from + 1)[i - rep.len()]);
            }
        }
    } else {
        lemma_replaced_no_byte(text, pat, rep, from + 1);
        assert(rr == seq![text[from]] + replaced_from(text, pat, rep, from + 1));
        assert(text[from] != pat[0]) by {
            if text[from] == pat[0] {
                assert(text.subrange(from, from + 1) =~= pat);
            }
        }
        assert forall|i: int| 0 <= i < rr.len() implies #[trigger] rr[i] != pat[0] by {
            if i >= 1 {
                assert(rr[i] == replaced_from(text, pat, rep, from + 1)[i - 1]);
            }
        }
    }
}

/// For a pattern of a single byte, replacement removes it outright whenever
/// the replacement does not contain it, an empty replacement included: a
/// one-byte occurrence cannot straddle a splice boundary.
pub proof fn lemma_replace_removes_single_byte(text: Seq<u8>, pat: Seq<u8>, rep: Seq<u8>)
    requires
        pat.len() == 1,
        forall|y: int| 0 <= y < rep.len() ==> #[trigger] rep[y] != pat[0],
    ensures
        forall|i: int|
            0 <= i < replaced(text, pat, rep).len() ==> #[trigger] replaced(text, pat, rep)[i]
                != pat[0],
        forall|i: int| !match_at(replaced(text, pat, rep), pat, i),
        match_positions(replaced(text, pat, rep), pat, 0) == Seq::<int>::empty(),
{
    lemma_replaced_no_byte(text, pat, rep, 0);
    let rr = replaced(text, pat, rep);
    assert forall|i: int| !match_at(rr, pat, i) by {
        if 0 <= i && i + 1 <= rr.len() && rr.subrange(i, i + 1) == pat {
            assert(rr.subrange(i, i + 1)[0] == rr[i]);
            assert(rr[i] == pat[0]);
            assert(false);
        }
    }
    let ps = match_positions(rr, pat, 0);
    if ps.len() > 0 {
        lemma_match_positions_props(rr, pat, 0);
        assert(match_at(rr, pat, ps[0]));
        assert(false);
    }
    assert(ps =~= Seq::<int>::empty());
}

/// Decoding between three character boundaries splits into the two parts.
pub proof fn lemma_decode_concat_parts(t: Seq<u8>, a: int, b: int, c: int)
    requires
        valid_utf8(t),
        0 <= a <= b <= c <= t.len(),
        is_char_boundary(t, a),
        is_char_boundary(t, b),
        is_char_boundary(t, c),
    ensures
        valid_utf8(t.subrange(a, c)),
        decode_utf8(t.subrange(a, c)) == decode_utf8(t.subrange(a, b)) + decode_utf8(
            t.subrange(b, c),
        ),
{
    lemma_boundary_subrange_valid(t, a, c);
    let x = t.subrange(a, c);
    assert(is_char_boundary(x, b - a)) by {
        if b == a {
            assert(is_char_boundary(x, 0));
        } else if b == c {
            assert(is_char_boundary(x, x.len() as int));
        } else {
            assert(x[b - a] == t[b]);
            assert(is_char_boundary(t, b) <==> !is_continuation_byte(t[b]));
            assert(is_char_boundary(x, b - a) <==> !is_continuation_byte(x[b - a]));
        }
    }
    decode_utf8_split(x, b - a);
    assert(x.subrange(0, b - a) =~= t.subrange(a, b));
    assert(x.subrange(b - a, x.len() as int) =~= t.subrange(b, c));
}

/// Finds the start of the line containing byte offset `i` by scanning
/// backwards for a newline.
pub fn find_line_start(bytes: &Vec<u8>, i: usize) -> (r: usize)
    requires
        i <= bytes@.len(),
    ensures
        r == line_start(bytes@, i as int),
{
    let mut j = i;
    while j > 0 && bytes[j - 1] != NEWLINE
        invariant
            j <= i <= bytes@.len(),
            line_start(bytes@, i as int) == line_start(bytes@, j as int),
        decreases j,
    {
        j = j - 1;
    }
    j
}

/// Finds the end of the line containing byte offset `i` by scanning forwards
/// for a newline.
pub fn find_line_end(bytes: &Vec<u8>, i: usize) -> (r: usize)
    requires
        i <= bytes@.len(),
    ensures
        r == line_end(bytes@, i as int),
{
    let mut j = i;
    while j < bytes.len() && bytes[j] != NEWLINE
        invariant
            i <= j <= bytes@.len(),
            line_end(bytes@, i as int) == line_end(bytes@, j as int),
        decreases bytes@.len() - j,
    {
        j = j + 1;
    }
    j
}

/// Counts the newline bytes among the first `upto` bytes.
pub fn count_newlines(bytes: &Vec<u8>, upto: usize) -> (n: usize)
    requires
        upto <= bytes@.len(),
    ensures
        n == newline_count(bytes@.subrange(0, upto as int)),
{
    let mut n: usize = 0;
    let mut j: usize = 0;
    proof {
        assert(bytes@.subrange(0, 0) =~= Seq::<u8>::empty());
    }
    while j < upto
        invariant
            j <= upto <= bytes@.len(),
            n <= j,
            n == newline_count(bytes@.subrange(0, j as int)),
        decreases upto - j,
    {
        proof {
            assert(bytes@.subrange(0, j + 1).drop_last() =~= bytes@.subrange(0, j as int));
            assert(bytes@.subrange(0, j + 1).last() == bytes@[j as int]);
        }
        if bytes[j] == NEWLINE {
            n = n + 1;
        }
        j = j + 1;
    }
    n
}

/// Counts the characters encoded by the byte range `[from, to)`, which must
/// be valid UTF-8 on its own.
pub fn count_chars(bytes: &Vec<u8>, from: usize, to: usize) -> (n: usize)
    requires
        from <= to <= bytes@.len(),
        valid_utf8(bytes@.subrange(from as int, to as int)),
    ensures
        n == decode_utf8(bytes@.subrange(from as int, to as int)).len(),
{
    let mut n: usize = 0;
    let mut j = from;
    proof {
        assert(bytes@.subrange(from as int, from as int) =~= Seq::<u8>::empty());
    }
    while j < to
        invariant
            from <= j <= to <= bytes@.len(),
            n <= j - from,
            n == non_cont_count(bytes@.subrange(from as int, j as int)),
        decreases to - j,
    {
        proof {
            assert(bytes@.subrange(from as int, j + 1).drop_last() =~= bytes@.subrange(
                from as int,
                j as int,
            ));
            assert(bytes@.subrange(from as int, j + 1).last() == bytes@[j as int]);
        }
        let b = bytes[j];
        if b < 0x80 || b > 0xbf {
            n = n + 1;
        }
        j = j + 1;
    }
    proof {
        lemma_char_count(bytes@.subrange(from as int, to as int));
    }
    n
}

/// Byte offset of character number `n` of the text, as `char_indices().nth`
/// would report it: `None` when the text has `n` or fewer characters.
pub fn byte_index_of_char(bytes: &Vec<u8>, n: usize) -> (r: Option<usize>)
    requires
        valid_utf8(bytes@),
    ensures
        ({
            let chars = decode_utf8(bytes@);
            match r {
                Some(p) => n < chars.len() && p == encode_utf8(chars.subrange(0, n as int)).len()
                    && is_char_boundary(bytes@, p as int),
                None => n >= chars.len(),
            }
        }),
{
    let ghost chars = decode_utf8(bytes@);
    let mut p: usize = 0;
    let mut c: usize = 0;
    proof {
        assert(bytes@.subrange(0, 0) =~= Seq::<u8>::empty());
        assert(decode_utf8(bytes@.subrange(0, 0)) =~= chars.subrange(0, 0));
        assert(encode_utf8(chars.subrange(0, 0)) =~= Seq::<u8>::empty());
        assert(is_char_boundary(bytes@, 0));
        if bytes@.len() == 0 {
            assert(chars =~= Seq::<char>::empty());
        }
    }
    while c < n
        invariant
            valid_utf8(bytes@),
            chars == decode_utf8(bytes@),
            c <= n,
            p <= bytes@.len(),
            c <= chars.len(),
            is_char_boundary(bytes@, p as int),
            decode_utf8(bytes@.subrange(0, p as int)) =~= chars.subrange(0, c as int),
            p == encode_utf8(chars.subrange(0, c as int)).len(),
            (p == bytes@.len()) <==> (c == chars.len()),
        decreases bytes@.len() - p,
    {
        if p == bytes.len() {
            return None;
        }
        let b = bytes[p];
        let w: usize = if b < 0x80 {
            1
        } else if b < 0xe0 {
            2
        } else if b < 0xf0 {
            3
        } else {
            4
        };
        proof {
            lemma_char_step(bytes@, chars, p as int, c as int, b, w as int);
        }
        p = p + w;
        c = c + 1;
    }
    if p < bytes.len() {
        Some(p)
    } else {
        None
    }
}

/// One step of the scalar walk in `byte_index_of_char`: from the character
/// boundary `p` holding leading byte `b`, the next boundary is `p + w`, and
/// it closes character number `c`.
proof fn lemma_char_step(t: Seq<u8>, chars: Seq<char>, p: int, c: int, b: u8, w: int)
    requires
        valid_utf8(t),
        chars == decode_utf8(t),
        0 <= p < t.len(),
        is_char_boundary(t, p),
        decode_utf8(t.subrange(0, p)) == chars.subrange(0, c),
        p == encode_utf8(chars.subrange(0, c)).len(),
        0 <= c < chars.len(),
        b == t[p],
        w == if b < 0x80 {
            1int
        } else if b < 0xe0 {
            2int
        } else if b < 0xf0 {
            3int
        } else {
            4int
        },
    ensures
        p + w <= t.len(),
        is_char_boundary(t, p + w),
        decode_utf8(t.subrange(0, p + w)) =~= chars.subrange(0, c + 1),
        p + w == encode_utf8(chars.subrange(0, c + 1)).len(),
        (p + w == t.len()) <==> (c + 1 == chars.len()),
{
    let suffix = t.subrange(p, t.len() as int);
    assert(valid_utf8(suffix));
    assert(suffix.len() > 0);
    assert(valid_first_scalar(suffix));
    assert(suffix[0] == b);
    assert(!is_continuation_byte(b));
    let k = length_of_first_scalar(suffix);
    assert(k == w);
    assert(suffix.len() >= k);
    assert(p + w <= t.len());

    let prefix = t.subrange(0, p);
    let take = take_first_scalar(suffix);
    assert(take =~= t.subrange(p, p + k));
    assert(valid_first_scalar(take)) by {
        assert(forall|j: int| 0 <= j < k ==> take[j] == suffix[j]);
        assert(decode_first_codepoint(take) == decode_first_codepoint(suffix));
        assert(length_of_first_codepoint(take) == length_of_first_codepoint(suffix));
    }
    assert(length_of_first_scalar(take) == k);
    lemma_single_scalar_valid(take);

    // The extended prefix is valid, so `p + w` is a boundary.
    assert(valid_utf8(prefix));
    let prefix2 = t.subrange(0, p + k);
    assert(prefix2 =~= prefix + take);
    valid_utf8_concat(prefix, take);
    assert(valid_utf8(prefix2));
    lemma_valid_prefix_boundary(t, p + k);

    // The extended prefix decodes to one more character.
    assert(is_char_boundary(prefix2, p)) by {
        if p == 0 {
            assert(is_char_boundary(prefix2, 0));
        } else {
            assert(prefix2[p] == b);
            assert(is_char_boundary(prefix2, p) <==> !is_continuation_byte(prefix2[p]));
        }
    }
    decode_utf8_split(prefix2, p);
    assert(prefix2.subrange(0, p) =~= prefix);
    assert(prefix2.subrange(p, prefix2.len() as int) =~= take);
    assert(decode_utf8(prefix2) == decode_utf8(prefix) + decode_utf8(take));
    assert(decode_utf8(take) =~= seq![decode_first_scalar(take) as char]) by {
        assert(pop_first_scalar(take) =~= Seq::<u8>::empty());
        assert(decode_utf8(pop_first_scalar(take)) =~= Seq::<char>::empty());
    }
    decode_utf8_split(t, p);
    assert(chars == decode_utf8(prefix) + decode_utf8(suffix));
    assert(decode_utf8(suffix)[0] == decode_first_scalar(suffix) as char);
    assert(decode_utf8(suffix).len() == chars.len() - c);
    assert(chars[c] == decode_utf8(suffix)[0]);
    assert(decode_first_scalar(take) == decode_first_scalar(suffix));
    assert(decode_utf8(prefix2) =~= chars.subrange(0, c + 1));

    // Its length is the byte index of the next boundary.
    decode_utf8_encode_utf8(prefix2);
    assert(encode_utf8(chars.subrange(0, c + 1)).len() == prefix2.len());

    // The walk ends exactly when the characters do.
    let tail = t.subrange(p + k, t.len() as int);
    decode_utf8_split(t, p + k);
    assert(chars == decode_utf8(prefix2) + decode_utf8(tail));
    if p + k == t.len() {
        assert(tail =~= Seq::<u8>::empty());
        assert(decode_utf8(tail) =~= Seq::<char>::empty());
        assert(c + 1 == chars.len());
    } else {
        assert(valid_utf8(tail));
        assert(tail.len() > 0);
        assert(decode_utf8(tail).len() > 0);
        assert(c + 1 < chars.len());
    }
}

/// True when `pat` occurs in `bytes` at byte offset `i`.
pub fn is_match_at(bytes: &Vec<u8>, pat: &Vec<u8>, i: usize) -> (r: bool)
    requires
        i + pat@.len() <= bytes@.len(),
    ensures
        r == match_at(bytes@, pat@, i as int),
{
    let n = bytes.len();
    let mut j: usize = 0;
    while j < pat.len()
        invariant
            j <= pat@.len(),
            n == bytes@.len(),
            i + pat@.len() <= n,
            forall|k: int| 0 <= k < j ==> bytes@[i + k] == pat@[k],
        decreases pat@.len() - j,
    {
        if bytes[i + j] != pat[j] {
            proof {
                assert(bytes@.subrange(i as int, i + pat@.len())[j as int] != pat@[j as int]);
            }
            return false;
        }
        j = j + 1;
    }
    proof {
        assert(bytes@.subrange(i as int, i + pat@.len()) =~= pat@);
    }
    true
}

} // verus!
