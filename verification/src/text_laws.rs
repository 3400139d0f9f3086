//! What the operations on text do to the characters.
use crate::text::{
    all_digits, ascii_lower, ascii_lowered, decimal, i64_value, is_control, is_white,
    lemma_decimal_value, lex_lt, same_ascii, signed_decimal, trimmed, trimmed_end, trimmed_start,
    u32_value,
};
use vstd::prelude::*;

verus! {

/// The capital letters of ASCII become the small ones, 32 further on; every other
/// character stays.
pub proof fn law_capitals_become_small(c: char)
    ensures
        'A' <= c <= 'Z' ==> ascii_lower(c) as u32 == c as u32 + 32,
        !('A' <= c <= 'Z') ==> ascii_lower(c) == c,
        ascii_lower('A') == 'a',
        ascii_lower('Z') == 'z',
        ascii_lower(ascii_lower(c)) == ascii_lower(c),
{
}

/// Two texts are the same but for the case of ASCII letters if lowering both gives
/// the same text.
pub proof fn law_case_is_ignored(a: Seq<char>, b: Seq<char>)
    ensures
        same_ascii(a, b) <==> ascii_lowered(a) == ascii_lowered(b),
        same_ascii(a, ascii_lowered(a)),
{
    let x = ascii_lowered(a);
    let y = ascii_lowered(b);
    if same_ascii(a, b) {
        assert(x =~= y);
    }
    if x == y {
        assert(x.len() == y.len());
        assert forall|i: int| 0 <= i < a.len() implies ascii_lower(#[trigger] a[i]) == ascii_lower(
            b[i],
        ) by {
            assert(x[i] == y[i]);
        }
    }
    assert forall|i: int| 0 <= i < a.len() implies ascii_lower(#[trigger] a[i]) == ascii_lower(
        x[i],
    ) by {
        law_capitals_become_small(a[i]);
    }
}

/// Blanks, tabs and line ends are white, and so are the spaces beyond ASCII; no
/// visible character of ASCII is.
pub proof fn law_white_is_what_cannot_be_seen(c: char)
    ensures
        is_white(' '),
        is_white('\t'),
        is_white('\n'),
        is_white('\r'),
        is_white('\u{85}'),
        is_white('\u{a0}'),
        is_white('\u{2003}'),
        is_white('\u{2028}'),
        is_white('\u{2029}'),
        is_white('\u{3000}'),
        0x21 <= c as u32 <= 0x7e ==> !is_white(c),
        c as u32 > 0x3000 ==> !is_white(c),
{
}

/// Control characters are those below the blank and those from delete up to the
/// end of the second control block.
pub proof fn law_controls_are_the_two_blocks(c: char)
    ensures
        is_control(c) <==> c < ' ' || '\u{7f}' <= c <= '\u{9f}',
{
}

/// Text that is all white.
pub open spec fn all_white(s: Seq<char>) -> bool {
    forall|i: int| 0 <= i < s.len() ==> is_white(#[trigger] s[i])
}

proof fn lemma_trim_start(w: Seq<char>, s: Seq<char>)
    requires
        all_white(w),
        s.len() > 0 ==> !is_white(s[0]),
    ensures
        trimmed_start(w + s) == s,
    decreases w.len(),
{
    if w.len() == 0 {
        assert(w + s =~= s);
    } else {
        assert forall|i: int| 0 <= i < w.skip(1).len() implies is_white(#[trigger] w.skip(1)[i]) by {
            assert(w.skip(1)[i] == w[i + 1]);
        }
        lemma_trim_start(w.skip(1), s);
        assert((w + s).skip(1) =~= w.skip(1) + s);
        assert((w + s)[0] == w[0]);
    }
}

proof fn lemma_trim_end(s: Seq<char>, w: Seq<char>)
    requires
        all_white(w),
        s.len() > 0 ==> !is_white(s.last()),
    ensures
        trimmed_end(s + w) == s,
    decreases w.len(),
{
    if w.len() == 0 {
        assert(s + w =~= s);
    } else {
        assert forall|i: int| 0 <= i < w.drop_last().len() implies is_white(
            #[trigger] w.drop_last()[i],
        ) by {
            assert(w.drop_last()[i] == w[i]);
        }
        lemma_trim_end(s, w.drop_last());
        assert((s + w).drop_last() =~= s + w.drop_last());
        assert((s + w).last() == w.last());
        assert(w.last() == w[w.len() - 1]);
    }
}

/// Trimming takes the white off both ends and nothing else.
pub proof fn law_trimming_takes_the_white_off(front: Seq<char>, s: Seq<char>, back: Seq<char>)
    requires
        all_white(front),
        all_white(back),
        s.len() > 0 ==> !is_white(s[0]) && !is_white(s.last()),
    ensures
        trimmed(front + s + back) == s,
{
    if s.len() > 0 {
        assert((s + back)[0] == s[0]);
        lemma_trim_start(front, s + back);
        assert(front + s + back =~= front + (s + back));
        lemma_trim_end(s, back);
    } else {
        let w = front + s + back;
        assert forall|i: int| 0 <= i < w.len() implies is_white(#[trigger] w[i]) by {
            if i < front.len() {
                assert(w[i] == front[i]);
            } else {
                assert(w[i] == back[i - front.len()]);
            }
        }
        lemma_trim_start(w, Seq::empty());
        assert(w + Seq::empty() =~= w);
        assert(s =~= Seq::empty());
    }
}

/// A number is written in decimal digits, the most significant first and without
/// zeros in front.
pub proof fn law_numbers_are_written_in_decimal(n: nat, d: nat)
    requires
        d < 10,
    ensures
        decimal(0) == seq!['0'],
        decimal(7) == seq!['7'],
        decimal(d).len() == 1,
        decimal(d)[0] as u32 == 0x30 + d,
        n > 0 ==> decimal(10 * n + d) == decimal(n) + decimal(d),
{
    assert((10 * n + d) / 10 == n && (10 * n + d) % 10 == d) by (nonlinear_arith)
        requires
            d < 10,
    ;
    if n > 0 {
        assert(decimal(10 * n + d) =~= decimal(n) + decimal(d));
    }
}

/// A number that was written is read back, with a sign as well.
pub proof fn law_numbers_are_read_back(n: i64, u: u32)
    ensures
        i64_value(signed_decimal(n as int)) == Some(n),
        u32_value(decimal(u as nat)) == Some(u),
        u32_value(seq!['+'] + decimal(u as nat)) == Some(u),
{
    lemma_decimal_value(u as nat);
    let plus = seq!['+'] + decimal(u as nat);
    assert(plus.skip(1) =~= decimal(u as nat));
    assert(decimal(u as nat)[0] != '+') by {
        assert(crate::text::is_digit(decimal(u as nat)[0]));
    }
    if n >= 0 {
        lemma_decimal_value(n as nat);
        let s = decimal(n as nat);
        assert(crate::text::is_digit(s[0]));
    } else {
        lemma_decimal_value((-n) as nat);
        let s = signed_decimal(n as int);
        assert(s.skip(1) =~= decimal((-n) as nat));
    }
}

/// A text that holds anything but digits, apart from a sign in front, is no
/// number.
pub proof fn law_other_text_is_no_number(s: Seq<char>, i: int)
    requires
        0 < i < s.len(),
        !('0' <= s[i] <= '9'),
    ensures
        i64_value(s) is None,
        u32_value(s) is None,
{
    if all_digits(s) {
        assert(crate::text::is_digit(s[i]));
    }
    if all_digits(s.skip(1)) {
        assert(crate::text::is_digit(s.skip(1)[i - 1]));
    }
}

/// Text is ordered by the first character that differs, and a text comes before
/// every longer one that starts with it.
pub proof fn law_text_is_ordered_by_the_first_difference(
    front: Seq<char>,
    x: char,
    a: Seq<char>,
    y: char,
    b: Seq<char>,
)
    ensures
        x != y ==> (lex_lt(front + seq![x] + a, front + seq![y] + b) <==> x < y),
        lex_lt(front, front + seq![x] + a),
        !lex_lt(front + seq![x] + a, front),
    decreases front.len(),
{
    let p = front + seq![x] + a;
    let q = front + seq![y] + b;
    if front.len() > 0 {
        law_text_is_ordered_by_the_first_difference(front.skip(1), x, a, y, b);
        assert(p.skip(1) =~= front.skip(1) + seq![x] + a);
        assert(q.skip(1) =~= front.skip(1) + seq![y] + b);
        assert(p[0] == front[0] && q[0] == front[0]);
    } else {
        assert(p[0] == x && q[0] == y);
    }
}

} // verus!
