//! Whitespace invariance: inserting any amount of whitespace between tokens
//! leaves the token sequence of the input unchanged.

use vstd::prelude::*;
use crate::lexer::{
    char_at, identifier_end, is_digit_byte, is_letter_byte, is_whitespace_byte,
    lemma_identifier_end, lemma_next_token_progress, lemma_number_end, lemma_whitespace_end,
    number_end, spec_next_token, spec_tokens, tokens_from, whitespace_end,
};

verus! {

/// The input with a whitespace run spliced in at position `at`.
pub open spec fn insert_whitespace(input: Seq<u8>, at: int, ws: Seq<u8>) -> Seq<u8> {
    input.subrange(0, at) + ws + input.skip(at)
}

/// The cursor position reached after scanning `n` tokens from the start.
pub open spec fn position_after(input: Seq<u8>, n: int) -> int
    decreases n,
{
    if n <= 0 {
        0
    } else {
        spec_next_token(input, position_after(input, n - 1)).1
    }
}

/// None of the first `n` scans produces End-Of-Input, so the position after
/// them lies between two real tokens.
pub open spec fn no_eof_before(input: Seq<u8>, n: int) -> bool {
    forall|j: int|
        0 <= j < n ==> !(spec_next_token(input, #[trigger] position_after(input, j)).0 is Eof)
}

/// Token-boundary positions stay within the input and grow with the number
/// of tokens scanned.
proof fn lemma_position_after_mono(input: Seq<u8>, m: int, n: int)
    requires
        0 <= m <= n,
        no_eof_before(input, n),
    ensures
        0 <= position_after(input, m) <= position_after(input, n) <= input.len(),
    decreases n - m, n,
{
    if m == n {
        if n == 0 {
        } else {
            lemma_position_after_mono(input, n - 1, n - 1);
            lemma_next_token_progress(input, position_after(input, n - 1));
        }
    } else {
        lemma_position_after_mono(input, m, n - 1);
        lemma_next_token_progress(input, position_after(input, n - 1));
    }
}

/// A whitespace scan lands on the same offset in two inputs that agree below
/// `bound`, provided it ends below `bound`.
proof fn lemma_whitespace_end_agree(a: Seq<u8>, b: Seq<u8>, pos: int, bound: int)
    requires
        0 <= pos <= bound <= a.len(),
        bound <= b.len(),
        forall|i: int| 0 <= i < bound ==> a[i] == b[i],
        whitespace_end(a, pos) < bound,
    ensures
        whitespace_end(b, pos) == whitespace_end(a, pos),
    decreases bound - pos,
{
    lemma_whitespace_end(a, pos);
    if pos < a.len() && is_whitespace_byte(a[pos]) {
        lemma_whitespace_end_agree(a, b, pos + 1, bound);
    }
}

/// An identifier scan lands on the same offset in two inputs that agree
/// below `bound`, provided it ends at or below `bound` and, when it ends
/// exactly at `bound`, the second input does not continue the run there.
proof fn lemma_identifier_end_agree(a: Seq<u8>, b: Seq<u8>, pos: int, bound: int)
    requires
        0 <= pos <= bound <= a.len(),
        bound <= b.len(),
        forall|i: int| 0 <= i < bound ==> a[i] == b[i],
        identifier_end(a, pos) <= bound,
        identifier_end(a, pos) == bound ==> (bound == b.len() || !is_letter_byte(b[bound])),
    ensures
        identifier_end(b, pos) == identifier_end(a, pos),
    decreases bound - pos,
{
    lemma_identifier_end(a, pos);
    if pos < a.len() && is_letter_byte(a[pos]) {
        lemma_identifier_end_agree(a, b, pos + 1, bound);
    }
}

/// A digit scan lands on the same offset in two inputs that agree below
/// `bound`, under the same side conditions as the identifier scan.
proof fn lemma_number_end_agree(a: Seq<u8>, b: Seq<u8>, pos: int, bound: int)
    requires
        0 <= pos <= bound <= a.len(),
        bound <= b.len(),
        forall|i: int| 0 <= i < bound ==> a[i] == b[i],
        number_end(a, pos) <= bound,
        number_end(a, pos) == bound ==> (bound == b.len() || !is_digit_byte(b[bound])),
    ensures
        number_end(b, pos) == number_end(a, pos),
    decreases bound - pos,
{
    lemma_number_end(a, pos);
    if pos < a.len() && is_digit_byte(a[pos]) {
        lemma_number_end_agree(a, b, pos + 1, bound);
    }
}

/// A whitespace scan through a range that is entirely whitespace lands where
/// a scan from the end of that range lands.
proof fn lemma_whitespace_end_through(input: Seq<u8>, pos: int, to: int)
    requires
        0 <= pos <= to <= input.len(),
        forall|i: int| pos <= i < to ==> is_whitespace_byte(#[trigger] input[i]),
    ensures
        whitespace_end(input, pos) == whitespace_end(input, to),
    decreases to - pos,
{
    if pos < to {
        lemma_whitespace_end_through(input, pos + 1, to);
    }
}

/// Scanning is insensitive to leading whitespace: the token stream from a
/// position equals the token stream from the end of the whitespace run there.
proof fn lemma_tokens_skip_leading_whitespace(input: Seq<u8>, pos: int)
    requires
        0 <= pos <= input.len(),
    ensures
        tokens_from(input, pos) == tokens_from(input, whitespace_end(input, pos)),
{
    lemma_whitespace_end(input, pos);
    let mid = whitespace_end(input, pos);
    assert(whitespace_end(input, mid) == mid);
    assert(spec_next_token(input, pos) == spec_next_token(input, mid));
}

/// The scans of two inputs that are equal from corresponding positions on
/// move in step and produce the same token.
proof fn lemma_next_token_shift(a: Seq<u8>, b: Seq<u8>, pa: int, pb: int)
    requires
        0 <= pa <= a.len(),
        0 <= pb <= b.len(),
        a.skip(pa) == b.skip(pb),
    ensures
        spec_next_token(b, pb).0 == spec_next_token(a, pa).0,
        spec_next_token(b, pb).1 - pb == spec_next_token(a, pa).1 - pa,
    decreases a.len() - pa,
{
    assert(a.len() - pa == b.len() - pb) by {
        assert(a.skip(pa).len() == b.skip(pb).len());
        assert(a.skip(pa).len() == a.len() - pa);
        assert(b.skip(pb).len() == b.len() - pb);
    }
    assert forall|j: int| pa <= j < a.len() implies #[trigger] a[j] == b[j - pa + pb] by {
        assert(a.skip(pa)[j - pa] == a[j]);
        assert(b.skip(pb)[j - pa] == b[j - pa + pb]);
    }
    let qa = whitespace_end(a, pa);
    let qb = whitespace_end(b, pb);
    lemma_whitespace_end(a, pa);
    lemma_whitespace_end(b, pb);
    lemma_whitespace_end_offset(a, b, pa, pb);
    assert(qb - pb == qa - pa);
    vstd::seq_lib::lemma_seq_skip_of_skip(a, pa, qa - pa);
    vstd::seq_lib::lemma_seq_skip_of_skip(b, pb, qb - pb);
    assert(a.skip(qa) == b.skip(qb));
    assert(char_at(b, qb) == char_at(a, qa));
    assert(char_at(b, qb + 1) == char_at(a, qa + 1));
    let c = char_at(a, qa);
    if c != 0 {
        if is_letter_byte(c) {
            lemma_identifier_end_offset(a, b, qa, qb);
            let ea = identifier_end(a, qa);
            let eb = identifier_end(b, qb);
            lemma_identifier_end(a, qa);
            lemma_identifier_end(b, qb);
            assert(a.subrange(qa, ea) =~= b.subrange(qb, eb));
        } else if is_digit_byte(c) {
            lemma_number_end_offset(a, b, qa, qb);
            let ea = number_end(a, qa);
            let eb = number_end(b, qb);
            lemma_number_end(a, qa);
            lemma_number_end(b, qb);
            assert(a.subrange(qa, ea) =~= b.subrange(qb, eb));
        }
    }
}

/// Whitespace scans of two inputs that are equal from corresponding
/// positions on move in step.
proof fn lemma_whitespace_end_offset(a: Seq<u8>, b: Seq<u8>, pa: int, pb: int)
    requires
        0 <= pa <= a.len(),
        0 <= pb <= b.len(),
        a.skip(pa) == b.skip(pb),
    ensures
        whitespace_end(b, pb) - pb == whitespace_end(a, pa) - pa,
    decreases a.len() - pa,
{
    assert(a.len() - pa == b.len() - pb) by {
        assert(a.skip(pa).len() == b.skip(pb).len());
        assert(a.skip(pa).len() == a.len() - pa);
        assert(b.skip(pb).len() == b.len() - pb);
    }
    if pa < a.len() {
        assert(a[pa] == b[pb]) by {
            assert(a.skip(pa)[0] == a[pa]);
            assert(b.skip(pb)[0] == b[pb]);
        }
        if is_whitespace_byte(a[pa]) {
            a.lemma_seq_skip_skip(pa);
            b.lemma_seq_skip_skip(pb);
            assert(a.skip(pa + 1) =~= b.skip(pb + 1));
            lemma_whitespace_end_offset(a, b, pa + 1, pb + 1);
        }
    }
}

/// Identifier scans of two inputs that are equal from corresponding
/// positions on move in step.
proof fn lemma_identifier_end_offset(a: Seq<u8>, b: Seq<u8>, pa: int, pb: int)
    requires
        0 <= pa <= a.len(),
        0 <= pb <= b.len(),
        a.skip(pa) == b.skip(pb),
    ensures
        identifier_end(b, pb) - pb == identifier_end(a, pa) - pa,
    decreases a.len() - pa,
{
    assert(a.len() - pa == b.len() - pb) by {
        assert(a.skip(pa).len() == b.skip(pb).len());
        assert(a.skip(pa).len() == a.len() - pa);
        assert(b.skip(pb).len() == b.len() - pb);
    }
    if pa < a.len() {
        assert(a[pa] == b[pb]) by {
            assert(a.skip(pa)[0] == a[pa]);
            assert(b.skip(pb)[0] == b[pb]);
        }
        if is_letter_byte(a[pa]) {
            a.lemma_seq_skip_skip(pa);
            b.lemma_seq_skip_skip(pb);
            assert(a.skip(pa + 1) =~= b.skip(pb + 1));
            lemma_identifier_end_offset(a, b, pa + 1, pb + 1);
        }
    }
}

/// Digit scans of two inputs that are equal from corresponding positions on
/// move in step.
proof fn lemma_number_end_offset(a: Seq<u8>, b: Seq<u8>, pa: int, pb: int)
    requires
        0 <= pa <= a.len(),
        0 <= pb <= b.len(),
        a.skip(pa) == b.skip(pb),
    ensures
        number_end(b, pb) - pb == number_end(a, pa) - pa,
    decreases a.len() - pa,
{
    assert(a.len() - pa == b.len() - pb) by {
        assert(a.skip(pa).len() == b.skip(pb).len());
        assert(a.skip(pa).len() == a.len() - pa);
        assert(b.skip(pb).len() == b.len() - pb);
    }
    if pa < a.len() {
        assert(a[pa] == b[pb]) by {
            assert(a.skip(pa)[0] == a[pa]);
            assert(b.skip(pb)[0] == b[pb]);
        }
        if is_digit_byte(a[pa]) {
            a.lemma_seq_skip_skip(pa);
            b.lemma_seq_skip_skip(pb);
            assert(a.skip(pa + 1) =~= b.skip(pb + 1));
            lemma_number_end_offset(a, b, pa + 1, pb + 1);
        }
    }
}

/// Two inputs that are equal from corresponding positions on have the same
/// token stream from there.
proof fn lemma_tokens_shift(a: Seq<u8>, b: Seq<u8>, pa: int, pb: int)
    requires
        0 <= pa <= a.len(),
        0 <= pb <= b.len(),
        a.skip(pa) == b.skip(pb),
    ensures
        tokens_from(b, pb) == tokens_from(a, pa),
    decreases a.len() - pa,
{
    lemma_next_token_shift(a, b, pa, pb);
    lemma_next_token_progress(a, pa);
    lemma_next_token_progress(b, pb);
    if !(spec_next_token(a, pa).0 is Eof) {
        let na = spec_next_token(a, pa).1;
        let nb = spec_next_token(b, pb).1;
        vstd::seq_lib::lemma_seq_skip_of_skip(a, pa, na - pa);
        vstd::seq_lib::lemma_seq_skip_of_skip(b, pb, nb - pb);
        assert(a.skip(na) =~= b.skip(nb));
        lemma_tokens_shift(a, b, na, nb);
    }
}

/// A scan that starts and ends at or below the splice point is unaffected by
/// the splice.
proof fn lemma_next_token_below_splice(input: Seq<u8>, ws: Seq<u8>, at: int, pos: int)
    requires
        0 <= pos <= at <= input.len(),
        ws.len() >= 1,
        forall|i: int| 0 <= i < ws.len() ==> is_whitespace_byte(#[trigger] ws[i]),
        !(spec_next_token(input, pos).0 is Eof),
        spec_next_token(input, pos).1 <= at,
    ensures
        spec_next_token(insert_whitespace(input, at, ws), pos) == spec_next_token(input, pos),
{
    let spliced = insert_whitespace(input, at, ws);
    assert(spliced.len() == input.len() + ws.len());
    assert(forall|i: int| 0 <= i < at ==> spliced[i] == input[i]);
    assert(spliced[at] == ws[0]);
    let q = whitespace_end(input, pos);
    lemma_whitespace_end(input, pos);
    assert(q < spec_next_token(input, pos).1) by {
        let c = char_at(input, q);
        assert(c != 0);
        if is_letter_byte(c) {
            lemma_identifier_end(input, q + 1);
        } else if is_digit_byte(c) {
            lemma_number_end(input, q + 1);
        }
    }
    lemma_whitespace_end_agree(input, spliced, pos, at);
    let c = char_at(input, q);
    assert(char_at(spliced, q) == c);
    if c == 61 || c == 33 {
        if char_at(input, q + 1) == 61 {
            assert(q + 2 <= at);
            assert(char_at(spliced, q + 1) == 61);
        } else {
            if q + 1 < at {
                assert(char_at(spliced, q + 1) == char_at(input, q + 1));
            } else {
                assert(char_at(spliced, q + 1) == ws[0]);
            }
            assert(char_at(spliced, q + 1) != 61);
        }
    } else if is_letter_byte(c) {
        lemma_identifier_end(input, q);
        lemma_identifier_end_agree(input, spliced, q, at);
        assert(input.subrange(q, identifier_end(input, q)) =~= spliced.subrange(
            q,
            identifier_end(spliced, q),
        ));
    } else if is_digit_byte(c) {
        lemma_number_end(input, q);
        lemma_number_end_agree(input, spliced, q, at);
        assert(input.subrange(q, number_end(input, q)) =~= spliced.subrange(
            q,
            number_end(spliced, q),
        ));
    }
}

/// From the boundary after `n` tokens down to any earlier boundary, the
/// spliced and the plain input have the same token stream.
proof fn lemma_tokens_insert_chain(input: Seq<u8>, ws: Seq<u8>, n: int, j: int)
    requires
        0 <= j <= n,
        ws.len() >= 1,
        forall|i: int| 0 <= i < ws.len() ==> is_whitespace_byte(#[trigger] ws[i]),
        no_eof_before(input, n),
    ensures
        tokens_from(
            insert_whitespace(input, position_after(input, n), ws),
            position_after(input, j),
        ) == tokens_from(input, position_after(input, j)),
    decreases n - j,
{
    let at = position_after(input, n);
    let spliced = insert_whitespace(input, at, ws);
    lemma_position_after_mono(input, j, n);
    assert(spliced.len() == input.len() + ws.len());
    assert(forall|i: int| 0 <= i < at ==> spliced[i] == input[i]);
    if j == n {
        assert(forall|i: int| at <= i < at + ws.len() ==> spliced[i] == ws[i - at]);
        lemma_whitespace_end_through(spliced, at, at + ws.len());
        lemma_tokens_skip_leading_whitespace(spliced, at);
        lemma_tokens_skip_leading_whitespace(spliced, at + ws.len());
        assert(spliced.skip(at + ws.len()) =~= input.skip(at));
        lemma_tokens_shift(input, spliced, at, at + ws.len());
    } else {
        let pos = position_after(input, j);
        lemma_position_after_mono(input, j + 1, n);
        lemma_next_token_below_splice(input, ws, at, pos);
        lemma_tokens_insert_chain(input, ws, n, j + 1);
    }
}

/// Whitespace invariance: splicing any run of spaces, tabs, newlines or
/// carriage returns into the input between two tokens — at the cursor
/// position reached after scanning any number of tokens, none of them
/// End-Of-Input — leaves the token sequence of the input unchanged.
pub proof fn lemma_whitespace_insertion(input: Seq<u8>, ws: Seq<u8>, n: int)
    requires
        0 <= n,
        forall|i: int| 0 <= i < ws.len() ==> is_whitespace_byte(#[trigger] ws[i]),
        no_eof_before(input, n),
    ensures
        spec_tokens(insert_whitespace(input, position_after(input, n), ws)) == spec_tokens(input),
{
    let at = position_after(input, n);
    lemma_position_after_mono(input, n, n);
    if ws.len() == 0 {
        assert(insert_whitespace(input, at, ws) =~= input);
    } else {
        lemma_tokens_insert_chain(input, ws, n, 0);
    }
}

} // verus!
