//! Decoding the console output of system tools into lines.
use crate::text::{chars_of, from_utf8, is_blank, string_of, trimmed, views};
use crate::types::Platform;
use crate::utf16::{decoded, from_utf16_lossy, units, units_of};
use vstd::prelude::*;
use vstd::utf8::{decode_utf8, valid_utf8};

verus! {

#[derive(Debug, Clone, Copy, PartialEq, Eq, Structural)]
pub enum TextEnc {
    /// sfc.exe (and some other system tools) write UTF-16LE when redirected.
    Utf16Le,
    /// UTF-8 when valid, otherwise the system ANSI code page (GBK on Chinese
    /// Windows) - DISM, netsh, ipconfig, reg.
    EightBit,
}

// ---------------------------------------------------------------- sniffing --
/// How many bytes at odd positions are zero.
pub open spec fn odd_zeros(s: Seq<u8>) -> nat
    decreases s.len(),
{
    if s.len() == 0 {
        0
    } else if s.len() % 2 == 0 && s.last() == 0 {
        odd_zeros(s.drop_last()) + 1
    } else {
        odd_zeros(s.drop_last())
    }
}

/// A byte order mark, or zeros at six tenths of the odd positions or more
/// (ASCII text encoded as UTF-16LE), means UTF-16.
pub open spec fn sniffed(head: Seq<u8>) -> TextEnc {
    if head.len() >= 2 && head[0] == 0xFF && head[1] == 0xFE {
        TextEnc::Utf16Le
    } else if head.len() >= 4 && odd_zeros(head) * 10 >= (head.len() / 2) * 6 {
        TextEnc::Utf16Le
    } else {
        TextEnc::EightBit
    }
}

/// Decide from the first bytes of a stream.
pub fn sniff_encoding(head: &[u8]) -> (r: TextEnc)
    ensures
        r == sniffed(head@),
{
    if head.len() >= 2 && head[0] == 0xFF && head[1] == 0xFE {
        return TextEnc::Utf16Le;
    }
    if head.len() >= 4 {
        let n: usize = head.len();
        let mut zeros: u64 = 0;
        let mut i: usize = 0;
        while i < n
            invariant
                i <= n == head@.len(),
                zeros == odd_zeros(head@.take(i as int)),
                zeros <= i,
            decreases n - i,
        {
            assert(head@.take(i + 1).drop_last() =~= head@.take(i as int));
            if i % 2 == 1 && head[i] == 0 {
                zeros += 1;
            }
            i += 1;
        }
        assert(head@.take(n as int) =~= head@);
        if zeros as u128 * 10 >= (n / 2) as u128 * 6 {
            return TextEnc::Utf16Le;
        }
    }
    TextEnc::EightBit
}

// -------------------------------------------------------------- code pages --
/// The process's ANSI code page on Windows, or 65001 (UTF-8) elsewhere.
pub fn ansi_codepage(platform: Platform, windows: u32) -> (r: u32)
    ensures
        r == if platform is Windows {
            windows
        } else {
            65001
        },
{
    match platform {
        Platform::Windows => windows,
        _ => 65001,
    }
}

/// The label of the encoding of a code page; Western European where the page
/// is not known.
pub open spec fn codepage_label(cp: u32) -> Seq<char> {
    if cp == 932 {
        "shift_jis"@
    } else if cp == 936 {
        "gbk"@
    } else if cp == 949 {
        "euc-kr"@
    } else if cp == 950 {
        "big5"@
    } else if cp == 874 {
        "windows-874"@
    } else if cp == 1250 {
        "windows-1250"@
    } else if cp == 1251 {
        "windows-1251"@
    } else if cp == 1253 {
        "windows-1253"@
    } else if cp == 1254 {
        "windows-1254"@
    } else if cp == 1255 {
        "windows-1255"@
    } else if cp == 1256 {
        "windows-1256"@
    } else if cp == 1257 {
        "windows-1257"@
    } else if cp == 1258 {
        "windows-1258"@
    } else if cp == 65001 {
        "utf-8"@
    } else {
        "windows-1252"@
    }
}

pub fn encoding_for_codepage(cp: u32) -> (r: &'static str)
    ensures
        r@ == codepage_label(cp),
{
    match cp {
        932 => "shift_jis",
        936 => "gbk",
        949 => "euc-kr",
        950 => "big5",
        874 => "windows-874",
        1250 => "windows-1250",
        1251 => "windows-1251",
        1253 => "windows-1253",
        1254 => "windows-1254",
        1255 => "windows-1255",
        1256 => "windows-1256",
        1257 => "windows-1257",
        1258 => "windows-1258",
        65001 => "utf-8",
        _ => "windows-1252",
    }
}

/// What `encoding_rs` reads bytes as, under the encoding with the given label.
pub uninterp spec fn decoded_as(label: Seq<char>, bytes: Seq<u8>) -> Seq<char>;

/// Few enough bytes that the space for their text, with every byte replaced,
/// can be computed and reserved on any machine.
pub open spec fn decodable(len: nat) -> bool {
    len <= usize::MAX / 32
}

/// `encoding_rs::Encoding::for_label`, then `Encoding::decode` of the encoding
/// it finds. Every label of `codepage_label` is one of the Encoding Standard,
/// so an encoding is found; decoding replaces what is malformed and never
/// fails. It panics only where the size of its buffer overflows, which
/// `decodable` leaves out. What the characters are is left to the name.
#[verifier::external_body]
fn decode_with_label(label: &str, bytes: &[u8]) -> (r: String)
    requires
        exists|cp: u32| #[trigger] codepage_label(cp) == label@,
        decodable(bytes@.len()),
    ensures
        r@ == decoded_as(label@, bytes@),
{
    let encoding = encoding_rs::Encoding::for_label(label.as_bytes()).unwrap();
    encoding.decode(bytes).0.into_owned()
}

/// The text of one line of 8-bit output, given what the code page makes of it.
pub open spec fn utf8_or(bytes: Seq<u8>, paged: Seq<char>) -> Seq<char> {
    if valid_utf8(bytes) {
        decode_utf8(bytes)
    } else {
        paged
    }
}

/// The text of one line of 8-bit output under a code page.
pub open spec fn text_8bit(bytes: Seq<u8>, codepage: u32) -> Seq<char> {
    utf8_or(bytes, decoded_as(codepage_label(codepage), bytes))
}

/// Decode one line of 8-bit console output: valid UTF-8 as-is, otherwise
/// through the given code page (lossy, never fails).
pub fn decode_8bit_with(bytes: &[u8], codepage: u32) -> (r: String)
    requires
        decodable(bytes@.len()),
    ensures
        r@ == text_8bit(bytes@, codepage),
{
    match from_utf8(bytes) {
        Some(s) => s,
        None => decode_with_label(encoding_for_codepage(codepage), bytes),
    }
}

/// Decode under the code page of the process.
pub fn decode_8bit(bytes: &[u8], platform: Platform, windows: u32) -> (r: String)
    requires
        decodable(bytes@.len()),
    ensures
        r@ == text_8bit(
            bytes@,
            if platform is Windows {
                windows
            } else {
                65001
            },
        ),
{
    decode_8bit_with(bytes, ansi_codepage(platform, windows))
}

// ------------------------------------------------------------------- lines --
/// Cuts a row after each stop: the complete pieces (without the stops), and
/// the rest behind the last stop.
pub open spec fn pieces<T>(s: Seq<T>, stop: spec_fn(T) -> bool) -> (Seq<Seq<T>>, Seq<T>)
    decreases s.len(),
{
    if s.len() == 0 {
        (Seq::empty(), Seq::empty())
    } else {
        let (done, rest) = pieces(s.drop_last(), stop);
        if stop(s.last()) {
            (done.push(rest), Seq::empty())
        } else {
            (done, rest.push(s.last()))
        }
    }
}

/// CR and LF end a line.
pub open spec fn ends_line_8() -> spec_fn(u8) -> bool {
    |b: u8| b == 0x0A || b == 0x0D
}

pub open spec fn ends_line_16() -> spec_fn(u16) -> bool {
    |u: u16| u == 0x000A || u == 0x000D
}

/// A line without the byte order marks at its start.
pub open spec fn without_marks(s: Seq<char>) -> Seq<char>
    decreases s.len(),
{
    if s.len() > 0 && s[0] == '\u{FEFF}' {
        without_marks(s.skip(1))
    } else {
        s
    }
}

/// Something is left to show of a line.
pub open spec fn shows() -> spec_fn(Seq<char>) -> bool {
    |s: Seq<char>| trimmed(s).len() > 0
}

/// The lines of a console: marks are stripped, blank lines dropped.
pub open spec fn shown(lines: Seq<Seq<char>>) -> Seq<Seq<char>> {
    lines.map_values(|s: Seq<char>| without_marks(s)).filter(shows())
}

/// The complete pieces, and the rest too where everything is wanted and there
/// is a rest.
pub open spec fn emitted<T>(cut: (Seq<Seq<T>>, Seq<T>), flush: bool) -> Seq<Seq<T>> {
    if flush && cut.1.len() > 0 {
        cut.0.push(cut.1)
    } else {
        cut.0
    }
}

/// The lines at the front of a buffer.
pub open spec fn lines_of(bytes: Seq<u8>, enc: TextEnc, flush: bool, codepage: u32) -> Seq<
    Seq<char>,
> {
    match enc {
        TextEnc::EightBit => shown(
            emitted(pieces(bytes, ends_line_8()), flush).map_values(
                |b: Seq<u8>| text_8bit(b, codepage),
            ),
        ),
        TextEnc::Utf16Le => shown(
            emitted(pieces(units(bytes), ends_line_16()), flush).map_values(
                |u: Seq<u16>| decoded(u),
            ),
        ),
    }
}

/// What stays in the buffer once its lines are taken.
pub open spec fn left_over(bytes: Seq<u8>, enc: TextEnc, flush: bool) -> Seq<u8> {
    if flush {
        Seq::empty()
    } else {
        match enc {
            TextEnc::EightBit => pieces(bytes, ends_line_8()).1,
            TextEnc::Utf16Le => {
                let n = units(bytes).len() - pieces(units(bytes), ends_line_16()).1.len();
                bytes.skip(2 * n)
            },
        }
    }
}

/// The rest is the end of the row.
proof fn lemma_pieces_rest<T>(s: Seq<T>, stop: spec_fn(T) -> bool)
    ensures
        pieces(s, stop).1.len() <= s.len(),
        pieces(s, stop).1 == s.skip(s.len() - pieces(s, stop).1.len()),
    decreases s.len(),
{
    if s.len() > 0 {
        lemma_pieces_rest(s.drop_last(), stop);
        assert(pieces(s, stop).1 =~= s.skip(s.len() - pieces(s, stop).1.len()));
    } else {
        assert(pieces(s, stop).1 =~= s.skip(0));
    }
}

/// One more element.
proof fn lemma_pieces_step<T>(s: Seq<T>, stop: spec_fn(T) -> bool, i: int)
    requires
        0 <= i < s.len(),
    ensures
        pieces(s.take(i + 1), stop) == if stop(s[i]) {
            (pieces(s.take(i), stop).0.push(pieces(s.take(i), stop).1), Seq::empty())
        } else {
            (pieces(s.take(i), stop).0, pieces(s.take(i), stop).1.push(s[i]))
        },
{
    assert(s.take(i + 1).drop_last() =~= s.take(i));
    assert(s.take(i + 1).last() == s[i]);
}

proof fn lemma_shown_push(lines: Seq<Seq<char>>, x: Seq<char>)
    ensures
        shown(lines.push(x)) == if shows()(without_marks(x)) {
            shown(lines).push(without_marks(x))
        } else {
            shown(lines)
        },
{
    reveal(Seq::filter);
    let f = |s: Seq<char>| without_marks(s);
    let all = lines.push(x).map_values(f);
    assert(all.drop_last() =~= lines.map_values(f));
    assert(all.last() == without_marks(x));
}

/// `x` with its leading byte order marks stripped goes to the list, unless
/// nothing is left to show.
fn push_nonempty(out: &mut Vec<String>, line: String)
    ensures
        views(final(out)@) == if shows()(without_marks(line@)) {
            views(old(out)@).push(without_marks(line@))
        } else {
            views(old(out)@)
        },
{
    let cs: Vec<char> = chars_of(line.as_str());
    let n: usize = cs.len();
    let mut from: usize = 0;
    assert(cs@.skip(0) =~= cs@);
    while from < n && cs[from] == '\u{FEFF}'
        invariant
            from <= n == cs@.len(),
            without_marks(cs@.skip(from as int)) == without_marks(line@),
        decreases n - from,
    {
        assert(cs@.skip(from as int).skip(1) =~= cs@.skip(from + 1));
        from += 1;
    }
    let stripped: String = string_of(&cs, from, n);
    assert(stripped@ =~= cs@.skip(from as int));
    if !is_blank(stripped.as_str()) {
        out.push(stripped);
        assert(views(out@) =~= views(old(out)@).push(stripped@));
    }
}

fn subslice(bytes: &[u8], from: usize, to: usize) -> (r: Vec<u8>)
    requires
        from <= to <= bytes@.len(),
    ensures
        r@ == bytes@.subrange(from as int, to as int),
{
    let mut out: Vec<u8> = Vec::new();
    let mut i: usize = from;
    while i < to
        invariant
            from <= i <= to <= bytes@.len(),
            out@ == bytes@.subrange(from as int, i as int),
        decreases to - i,
    {
        out.push(bytes[i]);
        i += 1;
        assert(bytes@.subrange(from as int, i as int) =~= bytes@.subrange(
            from as int,
            i - 1,
        ).push(bytes@[i - 1]));
    }
    out
}

/// Split complete lines off the front of `buf` (CR, LF or CRLF terminated),
/// decode them, and leave the incomplete tail in place. `flush` also emits the
/// tail. Empty lines are dropped (they carry nothing for a console).
pub fn drain_lines(buf: &mut Vec<u8>, enc: TextEnc, flush: bool, codepage: u32) -> (r: Vec<String>)
    requires
        enc is EightBit ==> decodable(old(buf)@.len()),
    ensures
        views(r@) == lines_of(old(buf)@, enc, flush, codepage),
        final(buf)@ == left_over(old(buf)@, enc, flush),
{
    let mut out: Vec<String> = Vec::new();
    match enc {
        TextEnc::EightBit => {
            let start: usize = drain_8bit(buf, flush, codepage, &mut out);
            proof {
                lemma_pieces_rest(buf@, ends_line_8());
            }
            *buf = subslice(buf.as_slice(), start, buf.len());
            assert(buf@ =~= left_over(old(buf)@, enc, flush));
        },
        TextEnc::Utf16Le => {
            let all: Vec<u16> = units_of(buf.as_slice());
            let start: usize = drain_utf16(&all, flush, &mut out);
            proof {
                lemma_pieces_rest(all@, ends_line_16());
            }
            if flush {
                *buf = Vec::new();
            } else {
                let len: usize = buf.len();
                *buf = subslice(buf.as_slice(), start * 2, len);
            }
            assert(buf@ =~= left_over(old(buf)@, enc, flush));
        },
    }
    out
}

fn drain_8bit(bytes: &Vec<u8>, flush: bool, codepage: u32, out: &mut Vec<String>) -> (r: usize)
    requires
        old(out)@.len() == 0,
        decodable(bytes@.len()),
    ensures
        views(final(out)@) == lines_of(bytes@, TextEnc::EightBit, flush, codepage),
        r <= bytes@.len(),
        r == if flush {
            bytes@.len() as int
        } else {
            bytes@.len() - pieces(bytes@, ends_line_8()).1.len()
        },
{
    let ghost stop = ends_line_8();
    let ghost f = |b: Seq<u8>| text_8bit(b, codepage);
    let n: usize = bytes.len();
    let mut start: usize = 0;
    let mut i: usize = 0;
    proof {
        reveal(Seq::filter);
        assert(pieces(bytes@.take(0), stop).0.map_values(f) =~= Seq::empty());
        assert(shown(Seq::empty()) =~= Seq::empty());
        assert(views(out@) =~= Seq::empty());
    }
    while i < n
        invariant
            start <= i <= n == bytes@.len(),
            decodable(bytes@.len()),
            stop == ends_line_8(),
            f == (|b: Seq<u8>| text_8bit(b, codepage)),
            pieces(bytes@.take(i as int), stop).1 == bytes@.subrange(start as int, i as int),
            views(out@) == shown(pieces(bytes@.take(i as int), stop).0.map_values(f)),
        decreases n - i,
    {
        proof {
            lemma_pieces_step(bytes@, stop, i as int);
        }
        let ghost before = pieces(bytes@.take(i as int), stop);
        let ghost now = pieces(bytes@.take(i + 1), stop);
        if bytes[i] == 0x0A || bytes[i] == 0x0D {
            let line: Vec<u8> = subslice(bytes.as_slice(), start, i);
            push_nonempty(out, decode_8bit_with(line.as_slice(), codepage));
            proof {
                lemma_shown_push(before.0.map_values(f), f(before.1));
                assert(now.0.map_values(f) =~= before.0.map_values(f).push(f(before.1)));
            }
            start = i + 1;
            assert(now.1 =~= bytes@.subrange(start as int, i + 1));
        } else {
            assert(now.1 =~= bytes@.subrange(start as int, i + 1));
        }
        i += 1;
    }
    assert(bytes@.take(n as int) =~= bytes@);
    let ghost cut = pieces(bytes@, stop);
    assert(cut.1.len() == n - start);
    if flush && start < n {
        let line: Vec<u8> = subslice(bytes.as_slice(), start, n);
        push_nonempty(out, decode_8bit_with(line.as_slice(), codepage));
        proof {
            lemma_shown_push(cut.0.map_values(f), f(cut.1));
            assert(emitted(cut, flush).map_values(f) =~= cut.0.map_values(f).push(f(cut.1)));
        }
        start = n;
    }
    start
}

fn drain_utf16(all: &Vec<u16>, flush: bool, out: &mut Vec<String>) -> (r: usize)
    requires
        old(out)@.len() == 0,
    ensures
        views(final(out)@) == shown(
            emitted(pieces(all@, ends_line_16()), flush).map_values(|u: Seq<u16>| decoded(u)),
        ),
        r == all@.len() - pieces(all@, ends_line_16()).1.len() || flush,
        r <= all@.len(),
{
    let ghost stop = ends_line_16();
    let ghost f = |u: Seq<u16>| decoded(u);
    let n: usize = all.len();
    let mut start: usize = 0;
    let mut i: usize = 0;
    proof {
        reveal(Seq::filter);
        assert(pieces(all@.take(0), stop).0.map_values(f) =~= Seq::empty());
        assert(shown(Seq::empty()) =~= Seq::empty());
        assert(views(out@) =~= Seq::empty());
    }
    while i < n
        invariant
            start <= i <= n == all@.len(),
            stop == ends_line_16(),
            f == (|u: Seq<u16>| decoded(u)),
            pieces(all@.take(i as int), stop).1 == all@.subrange(start as int, i as int),
            views(out@) == shown(pieces(all@.take(i as int), stop).0.map_values(f)),
        decreases n - i,
    {
        proof {
            lemma_pieces_step(all@, stop, i as int);
        }
        let ghost before = pieces(all@.take(i as int), stop);
        let ghost now = pieces(all@.take(i + 1), stop);
        if all[i] == 0x000A || all[i] == 0x000D {
            push_nonempty(out, from_utf16_lossy(all.as_slice(), start, i));
            proof {
                lemma_shown_push(before.0.map_values(f), f(before.1));
                assert(now.0.map_values(f) =~= before.0.map_values(f).push(f(before.1)));
            }
            start = i + 1;
            assert(now.1 =~= all@.subrange(start as int, i + 1));
        } else {
            assert(now.1 =~= all@.subrange(start as int, i + 1));
        }
        i += 1;
    }
    assert(all@.take(n as int) =~= all@);
    let ghost cut = pieces(all@, stop);
    assert(cut.1.len() == n - start);
    if flush && start < n {
        push_nonempty(out, from_utf16_lossy(all.as_slice(), start, n));
        proof {
            lemma_shown_push(cut.0.map_values(f), f(cut.1));
            assert(emitted(cut, flush).map_values(f) =~= cut.0.map_values(f).push(f(cut.1)));
        }
        start = n;
    }
    start
}

// ------------------------------------------------------------- the stream --
/// Turns what comes through a pipe into lines: the encoding is decided once,
/// from the first bytes.
pub struct LinePump {
    pub buf: Vec<u8>,
    pub enc: Option<TextEnc>,
}

impl LinePump {
    pub fn new() -> (r: Self)
        ensures
            r.buf@ == Seq::<u8>::empty(),
            r.enc is None,
    {
        LinePump { buf: Vec::new(), enc: None }
    }

    /// The encoding, once enough bytes have come.
    pub open spec fn decided(enc: Option<TextEnc>, buf: Seq<u8>) -> Option<TextEnc> {
        if enc is None && buf.len() >= 32 {
            Some(sniffed(buf))
        } else {
            enc
        }
    }

    /// Takes the next bytes and gives the lines that are complete.
    pub fn feed(&mut self, chunk: &[u8], codepage: u32) -> (r: Vec<String>)
        requires
            decodable(old(self).buf@.len() + chunk@.len()),
        ensures
            final(self).enc == Self::decided(old(self).enc, old(self).buf@ + chunk@),
            match final(self).enc {
                Some(e) => {
                    &&& views(r@) == lines_of(old(self).buf@ + chunk@, e, false, codepage)
                    &&& final(self).buf@ == left_over(old(self).buf@ + chunk@, e, false)
                },
                None => r@.len() == 0 && final(self).buf@ == old(self).buf@ + chunk@,
            },
    {
        crate::codec::put_slice(&mut self.buf, chunk);
        if self.enc.is_none() && self.buf.len() >= 32 {
            self.enc = Some(sniff_encoding(self.buf.as_slice()));
        }
        match self.enc {
            Some(e) => drain_lines(&mut self.buf, e, false, codepage),
            None => Vec::new(),
        }
    }

    /// The pipe is closed: gives the lines that are left.
    pub fn finish(&mut self, codepage: u32) -> (r: Vec<String>)
        requires
            decodable(old(self).buf@.len()),
        ensures
            views(r@) == lines_of(
                old(self).buf@,
                match old(self).enc {
                    Some(e) => e,
                    None => sniffed(old(self).buf@),
                },
                true,
                codepage,
            ),
            final(self).buf@ == Seq::<u8>::empty(),
    {
        let e: TextEnc = match self.enc {
            Some(e) => e,
            None => sniff_encoding(self.buf.as_slice()),
        };
        drain_lines(&mut self.buf, e, true, codepage)
    }
}

// -------------------------------------------------------------------- laws --
/// Where a stream is cut into chunks makes no difference: the pieces of the
/// first part, followed by those of its rest and the second part together, are
/// the pieces of the whole.
pub proof fn law_chunks_do_not_matter<T>(a: Seq<T>, b: Seq<T>, stop: spec_fn(T) -> bool)
    ensures
        pieces(a + b, stop).0 == pieces(a, stop).0 + pieces(pieces(a, stop).1 + b, stop).0,
        pieces(a + b, stop).1 == pieces(pieces(a, stop).1 + b, stop).1,
    decreases b.len(),
{
    let rest = pieces(a, stop).1;
    if b.len() == 0 {
        lemma_rest_has_no_stop(a, stop);
        lemma_no_stop(rest, stop);
        assert(a + b =~= a);
        assert(rest + b =~= rest);
        assert(pieces(a, stop).0 + Seq::<Seq<T>>::empty() =~= pieces(a, stop).0);
    } else {
        law_chunks_do_not_matter(a, b.drop_last(), stop);
        assert((a + b).drop_last() =~= a + b.drop_last());
        assert((rest + b).drop_last() =~= rest + b.drop_last());
        assert((a + b).last() == b.last());
        assert((rest + b).last() == b.last());
        assert(pieces(a + b, stop).0 =~= pieces(a, stop).0 + pieces(rest + b, stop).0);
    }
}

proof fn lemma_rest_has_no_stop<T>(s: Seq<T>, stop: spec_fn(T) -> bool)
    ensures
        forall|i: int|
            0 <= i < pieces(s, stop).1.len() ==> !stop(#[trigger] pieces(s, stop).1[i]),
    decreases s.len(),
{
    if s.len() > 0 {
        lemma_rest_has_no_stop(s.drop_last(), stop);
        let before = pieces(s.drop_last(), stop).1;
        let now = pieces(s, stop).1;
        assert forall|i: int| 0 <= i < now.len() implies !stop(#[trigger] now[i]) by {
            if i < before.len() {
                assert(now[i] == before[i]);
            }
        }
    }
}

/// A row without a stop is its own rest.
proof fn lemma_no_stop<T>(s: Seq<T>, stop: spec_fn(T) -> bool)
    requires
        forall|i: int| 0 <= i < s.len() ==> !stop(#[trigger] s[i]),
    ensures
        pieces(s, stop) == (Seq::<Seq<T>>::empty(), s),
    decreases s.len(),
{
    if s.len() > 0 {
        lemma_no_stop(s.drop_last(), stop);
        assert(s.drop_last().push(s.last()) =~= s);
    } else {
        assert(s =~= Seq::empty());
    }
}

/// The elements of the pieces, one after the other.
pub open spec fn joined<T>(parts: Seq<Seq<T>>) -> Seq<T>
    decreases parts.len(),
{
    if parts.len() == 0 {
        Seq::empty()
    } else {
        joined(parts.drop_last()) + parts.last()
    }
}

pub open spec fn kept<T>(stop: spec_fn(T) -> bool) -> spec_fn(T) -> bool {
    |x: T| !stop(x)
}

/// Cutting loses nothing but the stops: pieces and rest, put together, are the
/// row without its stops.
pub proof fn law_only_terminators_are_lost<T>(s: Seq<T>, stop: spec_fn(T) -> bool)
    ensures
        joined(pieces(s, stop).0) + pieces(s, stop).1 == s.filter(kept(stop)),
    decreases s.len(),
{
    reveal(Seq::filter);
    if s.len() > 0 {
        let (done, rest) = pieces(s.drop_last(), stop);
        law_only_terminators_are_lost(s.drop_last(), stop);
        if stop(s.last()) {
            assert(done.push(rest).drop_last() =~= done);
            assert(joined(done.push(rest)) + Seq::<T>::empty() =~= joined(done) + rest);
        } else {
            assert(joined(done) + rest.push(s.last()) =~= (joined(done) + rest).push(s.last()));
        }
    } else {
        assert(joined(pieces(s, stop).0) + pieces(s, stop).1 =~= s.filter(kept(stop)));
    }
}

proof fn lemma_shown_add(a: Seq<Seq<char>>, b: Seq<Seq<char>>)
    ensures
        shown(a + b) == shown(a) + shown(b),
    decreases b.len(),
{
    if b.len() == 0 {
        reveal(Seq::filter);
        assert(a + b =~= a);
        assert(shown(b) =~= Seq::empty());
        assert(shown(a) + shown(b) =~= shown(a));
    } else {
        let c = b.drop_last();
        let x = b.last();
        lemma_shown_add(a, c);
        lemma_shown_push(a + c, x);
        lemma_shown_push(c, x);
        assert(a + b =~= (a + c).push(x));
        assert(b =~= c.push(x));
        assert(shown(a + b) =~= shown(a) + shown(b));
    }
}

proof fn lemma_lines_of_parts<T>(
    a: Seq<T>,
    b: Seq<T>,
    stop: spec_fn(T) -> bool,
    flush: bool,
    f: spec_fn(Seq<T>) -> Seq<char>,
)
    ensures
        shown(emitted(pieces(a + b, stop), flush).map_values(f)) == shown(
            emitted(pieces(a, stop), false).map_values(f),
        ) + shown(emitted(pieces(pieces(a, stop).1 + b, stop), flush).map_values(f)),
{
    law_chunks_do_not_matter(a, b, stop);
    let whole = emitted(pieces(a + b, stop), flush);
    let first = emitted(pieces(a, stop), false);
    let second = emitted(pieces(pieces(a, stop).1 + b, stop), flush);
    assert(whole =~= first + second);
    assert(whole.map_values(f) =~= first.map_values(f) + second.map_values(f));
    lemma_shown_add(first.map_values(f), second.map_values(f));
}

/// Reading a stream in two parts gives the same lines as reading it at once.
pub proof fn law_streaming_gives_the_same_lines(
    a: Seq<u8>,
    b: Seq<u8>,
    enc: TextEnc,
    flush: bool,
    codepage: u32,
)
    ensures
        lines_of(a + b, enc, flush, codepage) == lines_of(a, enc, false, codepage) + lines_of(
            left_over(a, enc, false) + b,
            enc,
            flush,
            codepage,
        ),
        left_over(a + b, enc, flush) == left_over(left_over(a, enc, false) + b, enc, flush),
{
    match enc {
        TextEnc::EightBit => {
            lemma_lines_of_parts(a, b, ends_line_8(), flush, |x: Seq<u8>| text_8bit(x, codepage));
            law_chunks_do_not_matter(a, b, ends_line_8());
        },
        TextEnc::Utf16Le => {
            let stop = ends_line_16();
            let rest = pieces(units(a), stop).1;
            let n = units(a).len() - rest.len();
            let x = units(a + b).skip(units(a).len() as int);
            let kept = left_over(a, enc, false);
            lemma_pieces_rest(units(a), stop);
            assert(units(a) + x =~= units(a + b)) by {
                assert forall|i: int| 0 <= i < units(a).len() implies units(a)[i] == #[trigger] units(
                    a + b,
                )[i] by {
                    assert((a + b)[2 * i] == a[2 * i]);
                    assert((a + b)[2 * i + 1] == a[2 * i + 1]);
                }
            }
            assert(kept + b =~= (a + b).skip(2 * n));
            assert(units(kept + b) =~= units(a + b).skip(n)) by {
                assert forall|i: int| 0 <= i < units(kept + b).len() implies units(kept + b)[i]
                    == #[trigger] units(a + b).skip(n)[i] by {
                    assert((kept + b)[2 * i] == (a + b)[2 * (i + n)]);
                    assert((kept + b)[2 * i + 1] == (a + b)[2 * (i + n) + 1]);
                }
            }
            assert(rest + x =~= units(a + b).skip(n));
            lemma_lines_of_parts(units(a), x, stop, flush, |u: Seq<u16>| decoded(u));
            law_chunks_do_not_matter(units(a), x, stop);
            lemma_pieces_rest(units(kept + b), stop);
            if !flush {
                let t = pieces(units(a + b), stop).1.len();
                assert((a + b).skip(2 * n).skip(2 * (units(kept + b).len() - t)) =~= (a + b).skip(
                    2 * (units(a + b).len() - t),
                ));
            }
        },
    }
}

} // verus!
