//! Percent-encoding for URL parameters.

use vstd::prelude::*;
use vstd::utf8::*;

verus! {

/// Whether a byte stands for itself in a URL: a letter, a digit, or one of `-_.~`.
pub open spec fn is_unreserved(b: u8) -> bool {
    ||| 'A' as u8 <= b <= 'Z' as u8
    ||| 'a' as u8 <= b <= 'z' as u8
    ||| '0' as u8 <= b <= '9' as u8
    ||| b == '-' as u8
    ||| b == '_' as u8
    ||| b == '.' as u8
    ||| b == '~' as u8
}

/// The upper-case hexadecimal digit for `d`.
pub open spec fn upper_hex(d: int) -> char {
    if d < 10 {
        ('0' as int + d) as char
    } else {
        ('A' as int + (d - 10)) as char
    }
}

/// How one byte is written: as itself, or as `%` and two hexadecimal digits.
pub open spec fn percent_byte(b: u8) -> Seq<char> {
    if is_unreserved(b) {
        seq![b as char]
    } else {
        seq!['%', upper_hex(b as int / 16), upper_hex(b as int % 16)]
    }
}

/// How a run of bytes is written.
pub open spec fn percent_of(bytes: Seq<u8>) -> Seq<char>
    decreases bytes.len(),
{
    if bytes.len() == 0 {
        Seq::<char>::empty()
    } else {
        percent_byte(bytes.first()) + percent_of(bytes.drop_first())
    }
}

/// The percent-encoding of a string, byte by byte of its UTF-8 form.
pub open spec fn urlenc_of(s: Seq<char>) -> Seq<char> {
    percent_of(encode_utf8(s))
}

fn hex_digit(d: u8) -> (c: char)
    requires
        d < 16,
    ensures
        c == upper_hex(d as int),
{
    if d < 10 {
        ('0' as u8 + d) as char
    } else {
        ('A' as u8 + (d - 10)) as char
    }
}

/// Percent-encodes a string.
pub fn urlenc(s: &str) -> (result: String)
    ensures
        result@ == urlenc_of(s@),
{
    let bytes = s.as_bytes();
    let mut result: String = String::new();
    let mut i: usize = 0;
    assert(bytes@.skip(0) == bytes@);
    while i < bytes.len()
        invariant
            i <= bytes.len(),
            percent_of(bytes@) == result@ + percent_of(bytes@.skip(i as int)),
        decreases bytes.len() - i,
    {
        let b: u8 = bytes[i];
        let ghost before = result@;
        if ('A' as u8 <= b && b <= 'Z' as u8) || ('a' as u8 <= b && b <= 'z' as u8) || ('0' as u8
            <= b && b <= '9' as u8) || b == '-' as u8 || b == '_' as u8 || b == '.' as u8 || b
            == '~' as u8 {
            result.push(b as char);
        } else {
            result.push('%');
            result.push(hex_digit(b / 16));
            result.push(hex_digit(b % 16));
        }
        proof {
            assert(bytes@.skip(i as int).drop_first() =~= bytes@.skip(i + 1));
            assert(result@ =~= before + percent_byte(b));
            assert(before + (percent_byte(b) + percent_of(bytes@.skip(i + 1))) =~= result@
                + percent_of(bytes@.skip(i + 1)));
        }
        i += 1;
    }
    assert(bytes@.skip(i as int) =~= Seq::<u8>::empty());
    assert(result@ + Seq::<char>::empty() =~= result@);
    result
}

spec fn hex_value(c: char) -> int {
    if '0' <= c <= '9' {
        c as int - '0' as int
    } else {
        c as int - 'A' as int + 10
    }
}

/// The bytes that percent-encoded text stands for.
spec fn percent_decode(s: Seq<char>) -> Seq<u8>
    decreases s.len(),
{
    if s.len() == 0 {
        Seq::<u8>::empty()
    } else if s.first() == '%' && s.len() >= 3 {
        seq![(hex_value(s[1]) * 16 + hex_value(s[2])) as u8] + percent_decode(s.skip(3))
    } else {
        seq![s.first() as u8] + percent_decode(s.drop_first())
    }
}

proof fn lemma_decode_inverts(bytes: Seq<u8>)
    ensures
        percent_decode(percent_of(bytes)) == bytes,
    decreases bytes.len(),
{
    if bytes.len() > 0 {
        let b = bytes.first();
        let tail = percent_of(bytes.drop_first());
        let all = percent_byte(b) + tail;
        lemma_decode_inverts(bytes.drop_first());
        if is_unreserved(b) {
            assert(all.drop_first() =~= tail);
        } else {
            assert(all.skip(3) =~= tail);
            assert(hex_value(upper_hex(b as int / 16)) == b as int / 16);
            assert(hex_value(upper_hex(b as int % 16)) == b as int % 16);
        }
        assert(percent_decode(all) =~= seq![b] + bytes.drop_first());
        assert(seq![b] + bytes.drop_first() =~= bytes);
    }
}

/// Two strings with the same encoding are equal: nothing is lost.
pub proof fn urlenc_is_injective(a: Seq<char>, b: Seq<char>)
    requires
        urlenc_of(a) == urlenc_of(b),
    ensures
        a == b,
{
    lemma_decode_inverts(encode_utf8(a));
    lemma_decode_inverts(encode_utf8(b));
    encode_utf8_decode_utf8(a);
    encode_utf8_decode_utf8(b);
}

/// An encoded string holds only characters that stand for themselves in a URL,
/// and percent signs.
pub proof fn urlenc_is_url_safe(s: Seq<char>)
    ensures
        forall|i: int|
            0 <= i < urlenc_of(s).len() ==> {
                let c = #[trigger] urlenc_of(s)[i];
                c <= '\u{7f}' && (c == '%' || is_unreserved(c as u8))
            },
{
    lemma_percent_safe(encode_utf8(s));
}

proof fn lemma_percent_safe(bytes: Seq<u8>)
    ensures
        forall|i: int|
            0 <= i < percent_of(bytes).len() ==> {
                let c = #[trigger] percent_of(bytes)[i];
                c <= '\u{7f}' && (c == '%' || is_unreserved(c as u8))
            },
    decreases bytes.len(),
{
    if bytes.len() > 0 {
        lemma_percent_safe(bytes.drop_first());
        let head = percent_byte(bytes.first());
        let tail = percent_of(bytes.drop_first());
        assert forall|i: int| 0 <= i < percent_of(bytes).len() implies ({
            let c = #[trigger] percent_of(bytes)[i];
            c <= '\u{7f}' && (c == '%' || is_unreserved(c as u8))
        }) by {
            if i < head.len() {
                assert(percent_of(bytes)[i] == head[i]);
            } else {
                assert(percent_of(bytes)[i] == tail[i - head.len()]);
            }
        }
    }
}

/// The value of a hexadecimal digit, upper case.
pub open spec fn hex_digit_value(c: char) -> int {
    if '0' <= c <= '9' {
        c as int - '0' as int
    } else if 'A' <= c <= 'F' {
        c as int - 'A' as int + 10
    } else {
        -1
    }
}

/// Each byte is written on its own, in order.
pub proof fn bytes_are_written_in_order(a: Seq<u8>, b: Seq<u8>)
    ensures
        percent_of(a + b) == percent_of(a) + percent_of(b),
    decreases a.len(),
{
    if a.len() == 0 {
        assert(a + b =~= b);
        assert(percent_of(a) + percent_of(b) =~= percent_of(b));
    } else {
        assert((a + b).first() == a.first());
        assert((a + b).drop_first() =~= a.drop_first() + b);
        bytes_are_written_in_order(a.drop_first(), b);
        assert(percent_of(a + b) =~= percent_of(a) + percent_of(b));
    }
}

/// A letter, a digit and `-`, `_`, `.` and `~` stand for themselves; every other byte is
/// a percent sign and two upper-case hexadecimal digits that stand for it.
pub proof fn byte_is_written_or_escaped(b: u8)
    ensures
        ({
            let c = b as char;
            let plain = 'A' <= c <= 'Z' || 'a' <= c <= 'z' || '0' <= c <= '9' || c == '-' || c
                == '_' || c == '.' || c == '~';
            let out = percent_of(seq![b]);
            if plain {
                out == seq![c]
            } else {
                &&& out.len() == 3
                &&& out[0] == '%'
                &&& 0 <= hex_digit_value(out[1]) < 16
                &&& 0 <= hex_digit_value(out[2]) < 16
                &&& hex_digit_value(out[1]) * 16 + hex_digit_value(out[2]) == b
            }
        }),
{
    let one = seq![b];
    assert(one.drop_first() =~= Seq::empty());
    assert(percent_of(one.drop_first()) =~= Seq::empty());
    assert(percent_of(one) =~= percent_byte(b));
    assert(0 <= b as int / 16 < 16 && 0 <= b as int % 16 < 16);
}

/// A string is written by the bytes of its UTF-8 form.
pub proof fn string_is_written_by_its_bytes(s: Seq<char>)
    ensures
        urlenc_of(s) == percent_of(encode_utf8(s)),
{
}

} // verus!
