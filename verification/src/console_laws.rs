//! How the output of a tool becomes lines of text.
use crate::console::{
    codepage_label, ends_line_16, ends_line_8, left_over, lines_of, odd_zeros, pieces, shown, shows,
    sniffed, text_8bit, without_marks, LinePump, TextEnc,
};
use crate::text::trimmed;
use vstd::prelude::*;
use vstd::utf8::{decode_utf8, valid_utf8};

verus! {

// ----------------------------------------------------------------- encoding --
/// How many of the first `k` odd places hold a zero byte.
pub open spec fn zeros_at_odd_places(s: Seq<u8>, k: int) -> nat
    decreases k,
{
    if k <= 0 {
        0
    } else {
        zeros_at_odd_places(s, k - 1) + if s[2 * k - 1] == 0 {
            1nat
        } else {
            0nat
        }
    }
}

proof fn lemma_odd_zeros(s: Seq<u8>, k: int)
    requires
        0 <= 2 * k <= s.len(),
    ensures
        odd_zeros(s.take(2 * k)) == zeros_at_odd_places(s, k),
    decreases k,
{
    if k > 0 {
        lemma_odd_zeros(s, k - 1);
        let a = s.take(2 * k);
        let b = s.take(2 * k - 1);
        assert(a.drop_last() =~= b);
        assert(b.drop_last() =~= s.take(2 * (k - 1)));
        assert(a.last() == s[2 * k - 1]);
        assert(a.len() % 2 == 0);
        assert(b.len() % 2 == 1);
        assert(odd_zeros(b) == odd_zeros(b.drop_last()));
    }
}

/// Output is taken for UTF-16 where it starts with the mark for it, or where of
/// four bytes and more at least six in ten of the bytes at odd places are zero;
/// otherwise for one byte per character.
pub proof fn law_zero_bytes_tell_the_encoding(head: Seq<u8>)
    ensures
        sniffed(head) is Utf16Le <==> {
            ||| head.len() >= 2 && head[0] == 0xFF && head[1] == 0xFE
            ||| head.len() >= 4 && zeros_at_odd_places(head, head.len() as int / 2) * 10 >= (
            head.len() / 2) * 6
        },
{
    let k = head.len() as int / 2;
    lemma_odd_zeros(head, k);
    if head.len() == 2 * k {
        assert(head.take(2 * k) =~= head);
    } else {
        assert(head.drop_last() =~= head.take(2 * k));
        assert(head.len() % 2 == 1);
        assert(odd_zeros(head) == odd_zeros(head.drop_last()));
    }
}

/// Bytes that are UTF-8 are read as that, whatever the code page.
pub proof fn law_utf8_is_read_as_utf8(bytes: Seq<u8>, codepage: u32)
    requires
        valid_utf8(bytes),
    ensures
        text_8bit(bytes, codepage) == decode_utf8(bytes),
{
}

/// The encodings of the code pages by their numbers; any other number stands for
/// the western one.
pub proof fn law_code_pages_have_their_encodings(cp: u32)
    ensures
        cp == 932 <==> codepage_label(cp) == "shift_jis"@,
        cp == 936 <==> codepage_label(cp) == "gbk"@,
        cp == 949 <==> codepage_label(cp) == "euc-kr"@,
        cp == 950 <==> codepage_label(cp) == "big5"@,
        cp == 874 <==> codepage_label(cp) == "windows-874"@,
        cp == 65001 <==> codepage_label(cp) == "utf-8"@,
        cp == 1250 <==> codepage_label(cp) == "windows-1250"@,
        cp == 1251 <==> codepage_label(cp) == "windows-1251"@,
        cp == 1253 <==> codepage_label(cp) == "windows-1253"@,
        cp == 1254 <==> codepage_label(cp) == "windows-1254"@,
        cp == 1255 <==> codepage_label(cp) == "windows-1255"@,
        cp == 1256 <==> codepage_label(cp) == "windows-1256"@,
        cp == 1257 <==> codepage_label(cp) == "windows-1257"@,
        cp == 1258 <==> codepage_label(cp) == "windows-1258"@,
        cp == 1252 ==> codepage_label(cp) == "windows-1252"@,
{
    reveal_strlit("shift_jis");
    reveal_strlit("gbk");
    reveal_strlit("euc-kr");
    reveal_strlit("big5");
    reveal_strlit("windows-874");
    reveal_strlit("utf-8");
    reveal_strlit("windows-1250");
    reveal_strlit("windows-1251");
    reveal_strlit("windows-1252");
    reveal_strlit("windows-1253");
    reveal_strlit("windows-1254");
    reveal_strlit("windows-1255");
    reveal_strlit("windows-1256");
    reveal_strlit("windows-1257");
    reveal_strlit("windows-1258");
    let l = codepage_label(cp);
    assert("shift_jis"@.len() == 9 && "gbk"@.len() == 3 && "euc-kr"@.len() == 6 && "big5"@.len()
        == 4 && "windows-874"@.len() == 11 && "utf-8"@.len() == 5);
    assert("windows-1250"@.len() == 12 && "windows-1250"@[11] == '0');
    assert("windows-1251"@.len() == 12 && "windows-1251"@[11] == '1');
    assert("windows-1252"@.len() == 12 && "windows-1252"@[11] == '2');
    assert("windows-1253"@.len() == 12 && "windows-1253"@[11] == '3');
    assert("windows-1254"@.len() == 12 && "windows-1254"@[11] == '4');
    assert("windows-1255"@.len() == 12 && "windows-1255"@[11] == '5');
    assert("windows-1256"@.len() == 12 && "windows-1256"@[11] == '6');
    assert("windows-1257"@.len() == 12 && "windows-1257"@[11] == '7');
    assert("windows-1258"@.len() == 12 && "windows-1258"@[11] == '8');
}

/// The encoding is decided once, when 32 bytes have come, and kept from then on.
pub proof fn law_encoding_is_decided_once(enc: Option<TextEnc>, buf: Seq<u8>)
    ensures
        enc is Some ==> LinePump::decided(enc, buf) == enc,
        enc is None && buf.len() < 32 ==> LinePump::decided(enc, buf) is None,
        enc is None && buf.len() >= 32 ==> LinePump::decided(enc, buf) == Some(sniffed(buf)),
{
}

// -------------------------------------------------------------------- lines --
/// A line ends at a line feed or a carriage return, and nowhere else.
pub proof fn law_where_lines_end(b: u8, u: u16)
    ensures
        ends_line_8()(b) <==> b == 10 || b == 13,
        ends_line_16()(u) <==> u == 10 || u == 13,
{
}

/// What has no line end in it is one piece; a line end closes it.
pub proof fn law_a_line_is_closed_by_its_end<T>(line: Seq<T>, end: T, stop: spec_fn(T) -> bool)
    requires
        forall|i: int| 0 <= i < line.len() ==> !stop(#[trigger] line[i]),
        stop(end),
    ensures
        pieces(line, stop) == (Seq::<Seq<T>>::empty(), line),
        pieces(line.push(end), stop) == (seq![line], Seq::<T>::empty()),
    decreases line.len(),
{
    if line.len() > 0 {
        let front = line.drop_last();
        assert forall|i: int| 0 <= i < front.len() implies !stop(#[trigger] front[i]) by {
            assert(front[i] == line[i]);
        }
        law_a_line_is_closed_by_its_end(front, end, stop);
        assert(!stop(line[line.len() - 1]));
        assert(front.push(line.last()) =~= line);
    } else {
        assert(line =~= Seq::empty());
    }
    let closed = line.push(end);
    assert(closed.drop_last() =~= line);
    assert(closed.last() == end);
    assert(pieces(line, stop).0.push(pieces(line, stop).1) =~= seq![line]);
    assert(pieces(closed, stop).0 =~= seq![line]);
    assert(pieces(closed, stop).1 =~= Seq::empty());
}

/// Marks for the byte order in front of a line are taken off, and nothing else is.
pub proof fn law_marks_are_taken_off(s: Seq<char>)
    ensures
        without_marks(seq!['\u{FEFF}'] + s) == without_marks(s),
        s.len() > 0 && s[0] != '\u{FEFF}' ==> without_marks(s) == s,
        s.len() == 0 ==> without_marks(s) == s,
{
    assert((seq!['\u{FEFF}'] + s).skip(1) =~= s);
}

/// Every line with something on it is shown, in order; blank lines are not.
pub proof fn law_lines_with_something_are_shown(lines: Seq<Seq<char>>, more: Seq<char>)
    ensures
        shown(Seq::empty()) == Seq::<Seq<char>>::empty(),
        trimmed(without_marks(more)).len() > 0 ==> shown(lines.push(more)) == shown(lines).push(
            without_marks(more),
        ),
        trimmed(without_marks(more)).len() == 0 ==> shown(lines.push(more)) == shown(lines),
{
    reveal(Seq::filter);
    let f = |s: Seq<char>| without_marks(s);
    let none = Seq::<Seq<char>>::empty();
    assert(none.map_values(f) =~= none);
    assert(none.filter(shows()) =~= none);
    let a = lines.push(more).map_values(f);
    assert(a =~= lines.map_values(f).push(without_marks(more)));
    assert(a.drop_last() =~= lines.map_values(f));
    assert(a.last() == without_marks(more));
}

/// A line of one byte per character comes out as its text when its end has come,
/// or when nothing follows any more; until then it is kept.
pub proof fn law_a_line_comes_out_when_it_ends(line: Seq<u8>, end: u8, codepage: u32)
    requires
        forall|i: int| 0 <= i < line.len() ==> #[trigger] line[i] != 10 && line[i] != 13,
        end == 10 || end == 13,
        trimmed(without_marks(text_8bit(line, codepage))).len() > 0,
        line.len() > 0,
    ensures
        ({
            let text = without_marks(text_8bit(line, codepage));
            &&& lines_of(line.push(end), TextEnc::EightBit, false, codepage) == seq![text]
            &&& left_over(line.push(end), TextEnc::EightBit, false).len() == 0
            &&& lines_of(line, TextEnc::EightBit, false, codepage).len() == 0
            &&& left_over(line, TextEnc::EightBit, false) == line
            &&& lines_of(line, TextEnc::EightBit, true, codepage) == seq![text]
        }),
{
    law_a_line_is_closed_by_its_end(line, end, ends_line_8());
    let f = |b: Seq<u8>| text_8bit(b, codepage);
    let t = text_8bit(line, codepage);
    let none = Seq::<Seq<char>>::empty();
    law_lines_with_something_are_shown(none, t);
    assert(seq![line].map_values(f) =~= none.push(t));
    assert(Seq::<Seq<u8>>::empty().map_values(f) =~= none);
    assert(Seq::<Seq<u8>>::empty().push(line) =~= seq![line]);
    assert(none.push(without_marks(t)) =~= seq![without_marks(t)]);
}

} // verus!
