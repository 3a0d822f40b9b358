//! Base64, in the standard alphabet with padding and in the URL-safe one without.

use vstd::prelude::*;
use vstd::utf8::*;

use crate::text::{
    chars_of, replace, replace_of, string_of, trim_end_char, trim_end_char_of,
};

verus! {

/// The character that stands for the six-bit value `d`.
pub open spec fn digit_char(d: int) -> char {
    if d < 26 {
        ('A' as int + d) as char
    } else if d < 52 {
        ('a' as int + (d - 26)) as char
    } else if d < 62 {
        ('0' as int + (d - 52)) as char
    } else if d == 62 {
        '+'
    } else {
        '/'
    }
}

/// The six-bit value that a byte of encoded text stands for. Padding counts as 0.
pub open spec fn digit_value(b: u8) -> Option<int> {
    if 'A' as u8 <= b <= 'Z' as u8 {
        Some(b - 'A' as u8)
    } else if 'a' as u8 <= b <= 'z' as u8 {
        Some(b - 'a' as u8 + 26)
    } else if '0' as u8 <= b <= '9' as u8 {
        Some(b - '0' as u8 + 52)
    } else if b == '+' as u8 {
        Some(62)
    } else if b == '/' as u8 {
        Some(63)
    } else if b == '=' as u8 {
        Some(0)
    } else {
        None
    }
}

/// The four characters for the 24-bit number `n`, of which the first `keep` are
/// digits and the others padding.
pub open spec fn group_chars(n: int, keep: int) -> Seq<char> {
    seq![
        digit_char(n / 262144),
        digit_char(n / 4096 % 64),
        if keep > 2 {
            digit_char(n / 64 % 64)
        } else {
            '='
        },
        if keep > 3 {
            digit_char(n % 64)
        } else {
            '='
        },
    ]
}

/// The encoding of `data`: four characters for every three bytes, padded at the end.
pub open spec fn encode_of(data: Seq<u8>) -> Seq<char>
    decreases data.len(),
{
    if data.len() == 0 {
        Seq::<char>::empty()
    } else if data.len() == 1 {
        group_chars(data[0] * 65536, 2)
    } else if data.len() == 2 {
        group_chars(data[0] * 65536 + data[1] * 256, 3)
    } else {
        group_chars(data[0] * 65536 + data[1] * 256 + data[2], 4) + encode_of(data.skip(3))
    }
}

/// What four bytes of encoded text decode to: three bytes, without the second
/// where the third byte of text is padding and without the third where the
/// fourth is. Nothing where a byte stands for no value.
pub open spec fn group_bytes(b0: u8, b1: u8, b2: u8, b3: u8) -> Option<Seq<u8>> {
    match (digit_value(b0), digit_value(b1), digit_value(b2), digit_value(b3)) {
        (Some(v0), Some(v1), Some(v2), Some(v3)) => {
            let n = v0 * 262144 + v1 * 4096 + v2 * 64 + v3;
            let second = if b2 == '=' as u8 {
                Seq::<u8>::empty()
            } else {
                seq![(n / 256 % 256) as u8]
            };
            let third = if b3 == '=' as u8 {
                Seq::<u8>::empty()
            } else {
                seq![(n % 256) as u8]
            };
            Some(seq![(n / 65536) as u8] + second + third)
        },
        _ => None,
    }
}

/// What encoded text without line endings decodes to, four bytes at a time.
pub open spec fn decode_groups(text: Seq<u8>) -> Option<Seq<u8>>
    decreases text.len(),
{
    if text.len() == 0 {
        Some(Seq::<u8>::empty())
    } else if text.len() < 4 {
        None
    } else {
        match (group_bytes(text[0], text[1], text[2], text[3]), decode_groups(text.skip(4))) {
            (Some(head), Some(tail)) => Some(head + tail),
            _ => None,
        }
    }
}

/// Whether a byte is neither a line feed nor a carriage return.
pub open spec fn not_line_end(b: u8) -> bool {
    b != '\n' as u8 && b != '\r' as u8
}

/// What encoded text decodes to; line endings in it do not count.
pub open spec fn decode_of(input: Seq<char>) -> Option<Seq<u8>> {
    decode_groups(encode_utf8(input).filter(|b: u8| not_line_end(b)))
}

fn push_digit(out: &mut String, d: u32)
    requires
        d < 64,
    ensures
        final(out)@ == old(out)@.push(digit_char(d as int)),
{
    let c: char = if d < 26 {
        ('A' as u8 + d as u8) as char
    } else if d < 52 {
        ('a' as u8 + (d - 26) as u8) as char
    } else if d < 62 {
        ('0' as u8 + (d - 52) as u8) as char
    } else if d == 62 {
        '+'
    } else {
        '/'
    };
    out.push(c);
}

/// Encodes bytes in the standard alphabet, with padding.
pub fn encode(data: &[u8]) -> (result: String)
    ensures
        result@ == encode_of(data@),
{
    let mut result: String = String::new();
    let mut i: usize = 0;
    assert(data@.skip(0) == data@);
    while i < data.len()
        invariant
            i <= data.len(),
            encode_of(data@) == result@ + encode_of(data@.skip(i as int)),
        decreases data.len() - i,
    {
        let left: usize = data.len() - i;
        let ghost rest = data@.skip(i as int);
        let ghost before = result@;
        let b0: u32 = data[i] as u32;
        let b1: u32 = if left > 1 {
            data[i + 1] as u32
        } else {
            0
        };
        let b2: u32 = if left > 2 {
            data[i + 2] as u32
        } else {
            0
        };
        let triple: u32 = b0 * 65536 + b1 * 256 + b2;
        push_digit(&mut result, triple / 262144);
        push_digit(&mut result, triple / 4096 % 64);
        if left > 1 {
            push_digit(&mut result, triple / 64 % 64);
        } else {
            result.push('=');
        }
        if left > 2 {
            push_digit(&mut result, triple % 64);
        } else {
            result.push('=');
        }
        let step: usize = if left > 3 {
            3
        } else {
            left
        };
        proof {
            let keep = if left > 2 {
                4int
            } else {
                left + 1
            };
            assert(result@ =~= before + group_chars(triple as int, keep));
            assert(data@.skip(i + step) =~= rest.skip(step as int));
            assert(step == left ==> data@.skip(i + step) =~= Seq::<u8>::empty());
            assert(encode_of(rest) =~= group_chars(triple as int, keep) + encode_of(
                data@.skip(i + step),
            ));
        }
        i += step;
    }
    assert(data@.skip(i as int) =~= Seq::<u8>::empty());
    result
}

/// The six-bit value of a byte of encoded text, or 255 where it has none.
fn value_of(b: u8) -> (v: u8)
    ensures
        match digit_value(b) {
            Some(d) => v == d && v < 64,
            None => v == 255,
        },
{
    if 'A' as u8 <= b && b <= 'Z' as u8 {
        b - 'A' as u8
    } else if 'a' as u8 <= b && b <= 'z' as u8 {
        b - 'a' as u8 + 26
    } else if '0' as u8 <= b && b <= '9' as u8 {
        b - '0' as u8 + 52
    } else if b == '+' as u8 {
        62
    } else if b == '/' as u8 {
        63
    } else if b == '=' as u8 {
        0
    } else {
        255
    }
}

fn without_line_ends(bytes: &[u8]) -> (out: Vec<u8>)
    ensures
        out@ == bytes@.filter(|b: u8| not_line_end(b)),
{
    let ghost keep = |b: u8| not_line_end(b);
    let mut out: Vec<u8> = Vec::new();
    let mut i: usize = 0;
    reveal(Seq::filter);
    assert(out@ =~= bytes@.take(0).filter(keep));
    while i < bytes.len()
        invariant
            i <= bytes.len(),
            keep == (|b: u8| not_line_end(b)),
            out@ == bytes@.take(i as int).filter(keep),
        decreases bytes.len() - i,
    {
        reveal(Seq::filter);
        let b: u8 = bytes[i];
        assert(bytes@.take(i + 1).drop_last() == bytes@.take(i as int));
        if b != '\n' as u8 && b != '\r' as u8 {
            out.push(b);
        }
        i += 1;
    }
    assert(bytes@.take(bytes@.len() as int) == bytes@);
    out
}

/// Decodes text in the standard alphabet. Line endings are skipped; the rest
/// must be groups of four characters of the alphabet or padding.
pub fn decode(input: &str) -> (result: Option<Vec<u8>>)
    ensures
        match decode_of(input@) {
            Some(data) => result matches Some(r) && r@ == data,
            None => result is None,
        },
{
    let bytes = without_line_ends(input.as_bytes());
    let mut result: Vec<u8> = Vec::new();
    let mut i: usize = 0;
    assert(bytes@.skip(0) == bytes@);
    while i < bytes.len()
        invariant
            i <= bytes.len(),
            bytes@ == encode_utf8(input@).filter(|b: u8| not_line_end(b)),
            match decode_groups(bytes@.skip(i as int)) {
                Some(tail) => decode_groups(bytes@) == Some(result@ + tail),
                None => decode_groups(bytes@) is None,
            },
        decreases bytes.len() - i,
    {
        let ghost rest = bytes@.skip(i as int);
        let ghost before = result@;
        if bytes.len() - i < 4 {
            return None;
        }
        let v0: u8 = value_of(bytes[i]);
        let v1: u8 = value_of(bytes[i + 1]);
        let v2: u8 = value_of(bytes[i + 2]);
        let v3: u8 = value_of(bytes[i + 3]);
        if v0 == 255 || v1 == 255 || v2 == 255 || v3 == 255 {
            return None;
        }
        let triple: u32 = v0 as u32 * 262144 + v1 as u32 * 4096 + v2 as u32 * 64 + v3 as u32;
        result.push((triple / 65536) as u8);
        if bytes[i + 2] != '=' as u8 {
            result.push((triple / 256 % 256) as u8);
        }
        if bytes[i + 3] != '=' as u8 {
            result.push((triple % 256) as u8);
        }
        proof {
            let head = group_bytes(rest[0], rest[1], rest[2], rest[3])->0;
            assert(result@ =~= before + head);
            assert(rest.skip(4) =~= bytes@.skip(i + 4));
            if let Some(tail) = decode_groups(rest.skip(4)) {
                assert(before + (head + tail) =~= result@ + tail);
            }
        }
        i += 4;
    }
    assert(bytes@.skip(i as int) =~= Seq::<u8>::empty());
    assert(result@ + Seq::<u8>::empty() =~= result@);
    Some(result)
}

/// The URL-safe encoding of `data`: no padding, `-` for `+` and `_` for `/`.
pub open spec fn url_encode_of(data: Seq<u8>) -> Seq<char> {
    replace_of(replace_of(trim_end_char_of(encode_of(data), '='), '+', '-'), '/', '_')
}

/// Encodes bytes in the URL-safe alphabet, without padding.
pub fn base64_url_encode(data: &[u8]) -> (result: String)
    ensures
        result@ == url_encode_of(data@),
{
    let standard = chars_of(encode(data).as_str());
    let unpadded = trim_end_char(standard.as_slice(), '=');
    let dashed = replace(unpadded, '+', '-');
    let scored = replace(dashed.as_slice(), '/', '_');
    string_of(scored.as_slice())
}

/// How many padding characters bring `n` bytes to a multiple of four.
pub open spec fn padding(n: nat) -> nat {
    ((4 - n % 4) % 4) as nat
}

/// `s` with padding up to a multiple of four bytes.
pub open spec fn padded(s: Seq<char>) -> Seq<char> {
    s + Seq::new(padding(encode_utf8(s).len()), |i: int| '=')
}

/// What text in the URL-safe alphabet decodes to.
pub open spec fn url_decode_of(input: Seq<char>) -> Option<Seq<u8>> {
    decode_of(padded(replace_of(replace_of(input, '-', '+'), '_', '/')))
}

/// Decodes text in the URL-safe alphabet; padding may be left out.
pub fn base64_url_decode(input: &str) -> (result: Option<Vec<u8>>)
    ensures
        match url_decode_of(input@) {
            Some(data) => result matches Some(r) && r@ == data,
            None => result is None,
        },
{
    let given = chars_of(input);
    let plus = replace(given.as_slice(), '-', '+');
    let standard = replace(plus.as_slice(), '_', '/');
    let mut s: String = string_of(standard.as_slice());
    let ghost bare = s@;
    let length: usize = s.as_str().as_bytes().len();
    let missing: usize = (4 - length % 4) % 4;
    let mut i: usize = 0;
    while i < missing
        invariant
            i <= missing,
            s@ == bare + Seq::new(i as nat, |k: int| '='),
        decreases missing - i,
    {
        s.push('=');
        i += 1;
        assert(s@ =~= bare + Seq::new(i as nat, |k: int| '='));
    }
    assert(s@ =~= padded(bare));
    decode(s.as_str())
}

/// Whether `c` is a digit of the standard alphabet or padding.
spec fn is_base64(c: char) -> bool {
    'A' <= c <= 'Z' || 'a' <= c <= 'z' || '0' <= c <= '9' || c == '+' || c == '/' || c == '='
}

spec fn all_base64(s: Seq<char>) -> bool {
    forall|i: int| 0 <= i < s.len() ==> #[trigger] is_base64(s[i])
}

proof fn lemma_digit(d: int)
    requires
        0 <= d < 64,
    ensures
        is_base64(digit_char(d)),
        digit_char(d) != '=',
        digit_value(digit_char(d) as u8) == Some(d),
        digit_char(d) as u8 != '=' as u8,
{
}

/// A 24-bit number is made of its four six-bit digits.
proof fn lemma_four_digits(n: int)
    requires
        0 <= n < 16777216,
    ensures
        0 <= n / 262144 < 64,
        n == n / 262144 * 262144 + n / 4096 % 64 * 4096 + n / 64 % 64 * 64 + n % 64,
        n % 256 == 0 ==> n % 64 == 0,
        n % 65536 == 0 ==> n / 64 % 64 == 0,
{
    assert(n / 4096 == n / 64 / 64);
    assert(n / 262144 == n / 4096 / 64);
    let q1 = n / 64;
    let q2 = q1 / 64;
    assert(n == q1 * 64 + n % 64);
    assert(q1 == q2 * 64 + q1 % 64);
    assert(q2 == q2 / 64 * 64 + q2 % 64);
    if n % 65536 == 0 {
        let k = n / 65536;
        assert(n == k * 65536);
        assert(q1 == k * 1024);
    }
}

proof fn lemma_group_inverts(n: int, keep: int)
    requires
        0 <= n < 16777216,
        2 <= keep <= 4,
        keep <= 2 ==> n % 65536 == 0,
        keep <= 3 ==> n % 256 == 0,
    ensures
        all_base64(group_chars(n, keep)),
        group_chars(n, keep).len() == 4,
        ({
            let c = group_chars(n, keep);
            group_bytes(c[0] as u8, c[1] as u8, c[2] as u8, c[3] as u8) == Some(
                seq![(n / 65536) as u8, (n / 256 % 256) as u8, (n % 256) as u8].take(keep - 1),
            )
        }),
{
    lemma_four_digits(n);
    let d0 = n / 262144;
    let d1 = n / 4096 % 64;
    let d2 = n / 64 % 64;
    let d3 = n % 64;
    lemma_digit(d0);
    lemma_digit(d1);
    lemma_digit(d2);
    lemma_digit(d3);
    let c = group_chars(n, keep);
    let v2 = digit_value(c[2] as u8)->0;
    let v3 = digit_value(c[3] as u8)->0;
    assert(v2 == d2);
    assert(v3 == d3);
    let all = seq![(n / 65536) as u8, (n / 256 % 256) as u8, (n % 256) as u8];
    let got = group_bytes(c[0] as u8, c[1] as u8, c[2] as u8, c[3] as u8);
    assert(got is Some);
    assert(d0 * 262144 + d1 * 4096 + v2 * 64 + v3 == n);
    assert(got->0 =~= all.take(keep - 1));
}

/// How many of the first four characters of an encoding are digits.
spec fn first_keep(data: Seq<u8>) -> int {
    if data.len() > 2 {
        4
    } else {
        data.len() as int + 1
    }
}

/// The number that the first four characters of an encoding stand for.
spec fn first_number(data: Seq<u8>) -> int {
    let second = if data.len() > 1 {
        data[1] as int
    } else {
        0
    };
    let third = if data.len() > 2 {
        data[2] as int
    } else {
        0
    };
    data[0] * 65536 + second * 256 + third
}

/// What the encoding goes on with after its first four characters.
spec fn after_first(data: Seq<u8>) -> Seq<u8> {
    if data.len() > 2 {
        data.skip(3)
    } else {
        Seq::<u8>::empty()
    }
}

spec fn low_bytes(s: Seq<char>) -> Seq<u8> {
    s.map_values(|c: char| c as u8)
}

/// An encoding is its first four characters and the encoding of the rest.
proof fn lemma_encode_step(data: Seq<u8>)
    requires
        data.len() > 0,
    ensures
        encode_of(data) == group_chars(first_number(data), first_keep(data)) + encode_of(
            after_first(data),
        ),
        group_chars(first_number(data), first_keep(data)).len() == 4,
        2 <= first_keep(data) <= 4,
        0 <= first_number(data) < 16777216,
        first_keep(data) <= 3 ==> first_number(data) % 256 == 0,
        first_keep(data) <= 2 ==> first_number(data) % 65536 == 0,
        after_first(data).len() < data.len(),
        first_keep(data) < 4 ==> encode_of(after_first(data)).len() == 0,
{
    let group = group_chars(first_number(data), first_keep(data));
    if data.len() <= 2 {
        assert(group + Seq::<char>::empty() =~= group);
    }
}

proof fn lemma_first_bytes(data: Seq<u8>)
    requires
        data.len() > 0,
    ensures
        ({
            let n = first_number(data);
            seq![(n / 65536) as u8, (n / 256 % 256) as u8, (n % 256) as u8].take(
                first_keep(data) - 1,
            ) + after_first(data)
        }) == data,
{
    let n = first_number(data);
    let second = if data.len() > 1 {
        data[1] as int
    } else {
        0
    };
    let third = if data.len() > 2 {
        data[2] as int
    } else {
        0
    };
    assert(n / 65536 == data[0]);
    assert(n / 256 == data[0] * 256 + second);
    assert(n / 256 % 256 == second);
    assert(n % 256 == third);
    let head = seq![(n / 65536) as u8, (n / 256 % 256) as u8, (n % 256) as u8].take(
        first_keep(data) - 1,
    );
    assert(head + after_first(data) =~= data);
}

proof fn lemma_decode_concat(group: Seq<char>, tail: Seq<char>, head: Seq<u8>, rest: Seq<u8>)
    requires
        group.len() == 4,
        all_base64(group),
        all_base64(tail),
        tail.len() % 4 == 0,
        group_bytes(group[0] as u8, group[1] as u8, group[2] as u8, group[3] as u8) == Some(head),
        decode_groups(low_bytes(tail)) == Some(rest),
    ensures
        all_base64(group + tail),
        (group + tail).len() % 4 == 0,
        decode_groups(low_bytes(group + tail)) == Some(head + rest),
{
    let e = group + tail;
    assert forall|i: int| 0 <= i < e.len() implies #[trigger] is_base64(e[i]) by {
        if i < 4 {
            assert(is_base64(group[i]));
        } else {
            assert(is_base64(tail[i - 4]));
        }
    }
    let bytes = low_bytes(e);
    assert(bytes.skip(4) =~= low_bytes(tail));
    assert(bytes[0] == group[0] as u8);
    assert(bytes[1] == group[1] as u8);
    assert(bytes[2] == group[2] as u8);
    assert(bytes[3] == group[3] as u8);
}

proof fn lemma_encode_decodes(data: Seq<u8>)
    ensures
        all_base64(encode_of(data)),
        encode_of(data).len() % 4 == 0,
        decode_groups(low_bytes(encode_of(data))) == Some(data),
    decreases data.len(),
{
    if data.len() == 0 {
        assert(low_bytes(encode_of(data)) =~= Seq::<u8>::empty());
    } else {
        let n = first_number(data);
        let keep = first_keep(data);
        let rest = after_first(data);
        let head = seq![(n / 65536) as u8, (n / 256 % 256) as u8, (n % 256) as u8].take(keep - 1);
        lemma_encode_step(data);
        lemma_group_inverts(n, keep);
        lemma_encode_decodes(rest);
        lemma_first_bytes(data);
        lemma_decode_concat(group_chars(n, keep), encode_of(rest), head, rest);
    }
}

/// Without its padding an encoding is at most two characters shorter and holds
/// no padding.
proof fn lemma_encode_padding(data: Seq<u8>)
    ensures
        ({
            let e = encode_of(data);
            let t = trim_end_char_of(e, '=');
            &&& t.len() <= e.len() <= t.len() + 2
            &&& data.len() > 0 ==> t.len() > 0
            &&& t == e.take(t.len() as int)
            &&& forall|i: int| t.len() <= i < e.len() ==> #[trigger] e[i] == '='
            &&& forall|i: int| 0 <= i < t.len() ==> #[trigger] t[i] != '='
        }),
    decreases data.len(),
{
    let e = encode_of(data);
    if data.len() == 0 {
        assert(e.take(0) =~= e);
    } else {
        lemma_encode_step(data);
        let n = first_number(data);
        let keep = first_keep(data);
        let group = group_chars(n, keep);
        let tail = encode_of(after_first(data));
        lemma_encode_padding(after_first(data));
        lemma_trim_group(n, keep);
        if tail.len() == 0 {
            assert(e =~= group);
        } else {
            let t = trim_end_char_of(tail, '=');
            assert(t.len() > 0) by {
                if after_first(data).len() == 0 {
                    assert(tail.len() == 0);
                }
            }
            lemma_trim_concat(group, tail, '=');
            assert(group.take(4) =~= group);
            assert(e.take(4 + t.len() as int) =~= group + t);
            assert forall|i: int| 4 + t.len() <= i < e.len() implies #[trigger] e[i] == '=' by {
                assert(tail[i - 4] == '=');
            }
            assert forall|i: int| 0 <= i < 4 + t.len() implies #[trigger] (group + t)[i] != '=' by {
                if i >= 4 {
                    assert(t[i - 4] != '=');
                } else {
                    assert(group.take(4)[i] != '=');
                }
            }
        }
    }
}

proof fn lemma_trim_concat(a: Seq<char>, b: Seq<char>, c: char)
    ensures
        trim_end_char_of(b, c).len() > 0 ==> trim_end_char_of(a + b, c) == a + trim_end_char_of(
            b,
            c,
        ),
    decreases b.len(),
{
    if b.len() > 0 {
        lemma_trim_concat(a, b.drop_last(), c);
        assert((a + b).drop_last() =~= a + b.drop_last());
    }
}

proof fn lemma_trim_group(n: int, keep: int)
    requires
        0 <= n < 16777216,
        2 <= keep <= 4,
    ensures
        trim_end_char_of(group_chars(n, keep), '=') == group_chars(n, keep).take(keep),
        forall|i: int| 0 <= i < keep ==> #[trigger] group_chars(n, keep).take(keep)[i] != '=',
        forall|i: int| keep <= i < 4 ==> #[trigger] group_chars(n, keep)[i] == '=',
{
    lemma_four_digits(n);
    lemma_digit(n / 262144);
    lemma_digit(n / 4096 % 64);
    lemma_digit(n / 64 % 64);
    lemma_digit(n % 64);
    reveal_with_fuel(trim_end_char_of, 4);
    let c = group_chars(n, keep);
    assert(c.take(4) =~= c);
    assert(c.drop_last() =~= c.take(3));
    assert(c.drop_last().drop_last() =~= c.take(2));
}

proof fn lemma_base64_text(s: Seq<char>)
    requires
        all_base64(s),
    ensures
        encode_utf8(s) == low_bytes(s),
        encode_utf8(s).filter(|b: u8| not_line_end(b)) == low_bytes(s),
{
    assert forall|i: int| 0 <= i < s.len() implies '\0' <= #[trigger] s[i] <= '\u{7f}' by {
        assert(is_base64(s[i]));
    }
    is_ascii_chars_encode_utf8(s);
    assert(encode_utf8(s) =~= low_bytes(s));
    let bytes = low_bytes(s);
    assert forall|i: int| 0 <= i < bytes.len() implies not_line_end(#[trigger] bytes[i]) by {
        assert(is_base64(s[i]));
    }
    lemma_filter_all(bytes);
}

proof fn lemma_filter_all(bytes: Seq<u8>)
    requires
        forall|i: int| 0 <= i < bytes.len() ==> not_line_end(#[trigger] bytes[i]),
    ensures
        bytes.filter(|b: u8| not_line_end(b)) == bytes,
    decreases bytes.len(),
{
    reveal(Seq::filter);
    if bytes.len() > 0 {
        lemma_filter_all(bytes.drop_last());
        assert(bytes.drop_last().push(bytes.last()) =~= bytes);
    }
}

/// Decoding what was encoded gives the data back, whatever the data.
pub proof fn decode_inverts_encode(data: Seq<u8>)
    ensures
        decode_of(encode_of(data)) == Some(data),
{
    lemma_encode_decodes(data);
    lemma_base64_text(encode_of(data));
}

/// Undoing the two replacements and padding again restores the padded text.
proof fn lemma_url_restores(e: Seq<char>, t: Seq<char>)
    requires
        all_base64(e),
        e.len() % 4 == 0,
        t.len() <= e.len() <= t.len() + 2,
        t == e.take(t.len() as int),
        forall|i: int| t.len() <= i < e.len() ==> #[trigger] e[i] == '=',
    ensures
        ({
            let u = replace_of(replace_of(t, '+', '-'), '/', '_');
            padded(replace_of(replace_of(u, '-', '+'), '_', '/')) == e
        }),
{
    let u = replace_of(replace_of(t, '+', '-'), '/', '_');
    let back = replace_of(replace_of(u, '-', '+'), '_', '/');
    assert forall|i: int| 0 <= i < t.len() implies #[trigger] is_base64(t[i]) by {
        assert(is_base64(e[i]));
    }
    assert forall|i: int| 0 <= i < t.len() implies back[i] == t[i] by {
        assert(is_base64(t[i]));
    }
    assert(back =~= t);
    lemma_base64_text(t);
    assert(padding(t.len()) == e.len() - t.len());
    assert(padded(t) =~= e);
}

/// Decoding what was encoded in the URL-safe alphabet gives the data back,
/// whatever the data.
pub proof fn url_decode_inverts_url_encode(data: Seq<u8>)
    ensures
        url_decode_of(url_encode_of(data)) == Some(data),
{
    lemma_encode_decodes(data);
    lemma_encode_padding(data);
    lemma_url_restores(encode_of(data), trim_end_char_of(encode_of(data), '='));
    decode_inverts_encode(data);
}

/// The URL-safe encoding holds letters, digits, `-` and `_` only.
pub proof fn url_encoding_is_url_safe(data: Seq<u8>)
    ensures
        forall|i: int|
            0 <= i < url_encode_of(data).len() ==> {
                let c = #[trigger] url_encode_of(data)[i];
                'A' <= c <= 'Z' || 'a' <= c <= 'z' || '0' <= c <= '9' || c == '-' || c == '_'
            },
{
    lemma_encode_decodes(data);
    lemma_encode_padding(data);
    let e = encode_of(data);
    let t = trim_end_char_of(e, '=');
    assert forall|i: int| 0 <= i < url_encode_of(data).len() implies ({
        let c = #[trigger] url_encode_of(data)[i];
        'A' <= c <= 'Z' || 'a' <= c <= 'z' || '0' <= c <= '9' || c == '-' || c == '_'
    }) by {
        assert(is_base64(e[i]));
        assert(t[i] == e[i]);
        assert(t[i] != '=');
    }
}

/// The digits are those of the alphabet, in its order.
pub proof fn digits_follow_the_alphabet(d: int)
    requires
        0 <= d < 64,
    ensures
        digit_char(d)
            == "ABCDEFGHIJKLMNOPQRSTUVWXYZabcdefghijklmnopqrstuvwxyz0123456789+/"@[d],
{
    reveal_strlit("ABCDEFGHIJKLMNOPQRSTUVWXYZabcdefghijklmnopqrstuvwxyz0123456789+/");
}

/// Three bytes are written as four characters, which stand for six bits each, the
/// highest first.
pub proof fn three_bytes_are_four_characters(a: u8, b: u8, c: u8)
    ensures
        ({
            let n = a * 65536 + b * 256 + c;
            let alphabet =
                "ABCDEFGHIJKLMNOPQRSTUVWXYZabcdefghijklmnopqrstuvwxyz0123456789+/"@;
            encode_of(seq![a, b, c]) == seq![
                alphabet[n / 262144],
                alphabet[n / 4096 % 64],
                alphabet[n / 64 % 64],
                alphabet[n % 64],
            ]
        }),
{
    let n = a * 65536 + b * 256 + c;
    lemma_four_digits(n);
    digits_follow_the_alphabet(n / 262144);
    digits_follow_the_alphabet(n / 4096 % 64);
    digits_follow_the_alphabet(n / 64 % 64);
    digits_follow_the_alphabet(n % 64);
    assert(seq![a, b, c].skip(3) =~= Seq::empty());
    assert(encode_of(seq![a, b, c].skip(3)) =~= Seq::empty());
    assert(encode_of(seq![a, b, c]) =~= group_chars(n, 4));
}

proof fn lemma_group_is_padded(n: int)
    ensures
        group_chars(n, 2) == group_chars(n, 4).take(2) + seq!['=', '='],
        group_chars(n, 3) == group_chars(n, 4).take(3) + seq!['='],
{
    assert(group_chars(n, 2) =~= group_chars(n, 4).take(2) + seq!['=', '=']);
    assert(group_chars(n, 3) =~= group_chars(n, 4).take(3) + seq!['=']);
}

proof fn lemma_encode_three(data: Seq<u8>)
    requires
        data.len() == 3,
    ensures
        encode_of(data) == group_chars(data[0] * 65536 + data[1] * 256 + data[2], 4),
{
    let n = data[0] * 65536 + data[1] * 256 + data[2];
    assert(data.skip(3).len() == 0);
    assert(encode_of(data.skip(3)) =~= Seq::<char>::empty());
    assert(encode_of(data) == group_chars(n, 4) + encode_of(data.skip(3)));
    assert(group_chars(n, 4) + Seq::<char>::empty() =~= group_chars(n, 4));
}

/// One or two bytes at the end are written as if zero bytes followed, with padding in
/// place of the characters that stand for those alone.
pub proof fn last_bytes_are_padded(a: u8, b: u8)
    ensures
        encode_of(seq![a]) == encode_of(seq![a, 0u8, 0u8]).take(2) + seq!['=', '='],
        encode_of(seq![a, b]) == encode_of(seq![a, b, 0u8]).take(3) + seq!['='],
{
    lemma_encode_three(seq![a, 0u8, 0u8]);
    lemma_encode_three(seq![a, b, 0u8]);
    lemma_group_is_padded(a * 65536);
    lemma_group_is_padded(a * 65536 + b * 256);
}

/// Bytes are written three by three, in order.
pub proof fn groups_are_written_in_order(a: Seq<u8>, b: Seq<u8>)
    requires
        a.len() % 3 == 0,
    ensures
        encode_of(a + b) == encode_of(a) + encode_of(b),
    decreases a.len(),
{
    if a.len() == 0 {
        assert(a + b =~= b);
        assert(encode_of(a) + encode_of(b) =~= encode_of(b));
    } else {
        assert((a + b).skip(3) =~= a.skip(3) + b);
        groups_are_written_in_order(a.skip(3), b);
        assert(encode_of(a + b) =~= encode_of(a) + encode_of(b));
    }
}

/// A byte that is no digit of the alphabet, no padding and no line ending makes the
/// whole text unreadable, and so does a group that is not complete.
pub proof fn odd_text_is_not_decoded(text: Seq<u8>, i: int)
    requires
        0 <= i < text.len(),
        ({
            let c = text[i] as char;
            !('A' <= c <= 'Z' || 'a' <= c <= 'z' || '0' <= c <= '9' || c == '+' || c == '/' || c
                == '=')
        }) || text.len() % 4 != 0,
    ensures
        decode_groups(text) is None,
    decreases text.len(),
{
    if text.len() >= 4 {
        let rest = text.skip(4);
        if text.len() % 4 != 0 {
            odd_text_is_not_decoded(rest, 0);
        } else if i >= 4 {
            assert(rest[i - 4] == text[i]);
            odd_text_is_not_decoded(rest, i - 4);
        }
    }
}

/// Line endings count for nothing, wherever they stand.
pub proof fn line_endings_are_skipped(a: Seq<char>, end: char, b: Seq<char>)
    requires
        end == '\n' || end == '\r',
    ensures
        decode_of(a.push(end) + b) == decode_of(a + b),
{
    let p = |x: u8| not_line_end(x);
    reveal(Seq::filter);
    let one = seq![end];
    assert(a.push(end) + b =~= a + (one + b));
    lemma_encode_joined(a, one + b);
    lemma_encode_joined(one, b);
    lemma_encode_joined(a, b);
    is_ascii_chars_encode_utf8(one);
    assert(encode_utf8(one) =~= seq![end as u8]);
    let ea = encode_utf8(a);
    let eb = encode_utf8(b);
    let e1 = encode_utf8(one);
    assert(e1.drop_last() =~= Seq::empty());
    assert(e1.drop_last().filter(p) =~= Seq::empty());
    assert(e1.filter(p) =~= Seq::empty());
    Seq::filter_distributes_over_add(ea, e1 + eb, p);
    Seq::filter_distributes_over_add(e1, eb, p);
    Seq::filter_distributes_over_add(ea, eb, p);
    assert(Seq::<u8>::empty() + eb.filter(p) =~= eb.filter(p));
}

proof fn lemma_encode_joined(a: Seq<char>, b: Seq<char>)
    ensures
        encode_utf8(a + b) == encode_utf8(a) + encode_utf8(b),
    decreases a.len(),
{
    if a.len() == 0 {
        assert(a + b =~= b);
        assert(encode_utf8(a) + encode_utf8(b) =~= encode_utf8(b));
    } else {
        assert((a + b)[0] == a[0]);
        assert((a + b).drop_first() =~= a.drop_first() + b);
        lemma_encode_joined(a.drop_first(), b);
        assert(encode_utf8(a + b) =~= encode_utf8(a) + encode_utf8(b));
    }
}

/// The URL-safe form is the standard form with `-` and `_` in place of `+` and `/`, and
/// without its padding.
pub proof fn url_safe_form_is_the_standard_form(data: Seq<u8>, i: int)
    requires
        0 <= i < url_encode_of(data).len(),
    ensures
        url_encode_of(data).len() <= encode_of(data).len() <= url_encode_of(data).len() + 2,
        url_encode_of(data)[i] == if encode_of(data)[i] == '+' {
            '-'
        } else if encode_of(data)[i] == '/' {
            '_'
        } else {
            encode_of(data)[i]
        },
{
    lemma_encode_padding(data);
    lemma_encode_decodes(data);
    let t = trim_end_char_of(encode_of(data), '=');
    assert(t[i] == encode_of(data)[i]);
    assert(is_base64(encode_of(data)[i]));
}

/// Text with an ASCII character that is no digit of the alphabet, no padding and no line
/// ending stands for nothing.
pub proof fn odd_character_is_not_decoded(a: Seq<char>, c: char, b: Seq<char>)
    requires
        c as int <= 127,
        !('A' <= c <= 'Z' || 'a' <= c <= 'z' || '0' <= c <= '9' || c == '+' || c == '/' || c == '='
            || c == '\n' || c == '\r'),
    ensures
        decode_of(a.push(c) + b) is None,
{
    let p = |x: u8| not_line_end(x);
    reveal(Seq::filter);
    let one = seq![c];
    assert(a.push(c) + b =~= a + (one + b));
    lemma_encode_joined(a, one + b);
    lemma_encode_joined(one, b);
    is_ascii_chars_encode_utf8(one);
    let ea = encode_utf8(a);
    let eb = encode_utf8(b);
    let e1 = encode_utf8(one);
    assert(e1 =~= seq![c as u8]);
    assert(e1.drop_last() =~= Seq::empty());
    assert(e1.drop_last().filter(p) =~= Seq::empty());
    assert(e1.filter(p) =~= e1);
    Seq::filter_distributes_over_add(ea, e1 + eb, p);
    Seq::filter_distributes_over_add(e1, eb, p);
    let text = ea.filter(p) + (e1 + eb.filter(p));
    assert(text[ea.filter(p).len() as int] == c as u8);
    odd_text_is_not_decoded(text, ea.filter(p).len() as int);
}

/// Four digits stand for three bytes, whatever the digits; with one padding character at
/// the end they stand for the first two, and with two of them for the first.
pub proof fn four_digits_are_three_bytes(v0: int, v1: int, v2: int, v3: int)
    requires
        0 <= v0 < 64,
        0 <= v1 < 64,
        0 <= v2 < 64,
        0 <= v3 < 64,
    ensures
        ({
            let alphabet =
                "ABCDEFGHIJKLMNOPQRSTUVWXYZabcdefghijklmnopqrstuvwxyz0123456789+/"@;
            let n = v0 * 262144 + v1 * 4096 + v2 * 64 + v3;
            let c0 = alphabet[v0] as u8;
            let c1 = alphabet[v1] as u8;
            let c2 = alphabet[v2] as u8;
            let c3 = alphabet[v3] as u8;
            let pad = '=' as u8;
            &&& decode_groups(seq![c0, c1, c2, c3]) == Some(
                seq![(n / 65536) as u8, (n / 256 % 256) as u8, (n % 256) as u8],
            )
            &&& decode_groups(seq![c0, c1, c2, pad]) == Some(
                seq![(n / 65536) as u8, (n / 256 % 256) as u8],
            )
            &&& decode_groups(seq![c0, c1, pad, pad]) == Some(seq![(n / 65536) as u8])
        }),
{
    digits_follow_the_alphabet(v0);
    digits_follow_the_alphabet(v1);
    digits_follow_the_alphabet(v2);
    digits_follow_the_alphabet(v3);
    lemma_digit(v0);
    lemma_digit(v1);
    lemma_digit(v2);
    lemma_digit(v3);
    lemma_read_digits(
        digit_char(v0) as u8,
        digit_char(v1) as u8,
        digit_char(v2) as u8,
        digit_char(v3) as u8,
        v0,
        v1,
        v2,
        v3,
    );
}

proof fn lemma_read_digits(
    c0: u8,
    c1: u8,
    c2: u8,
    c3: u8,
    v0: int,
    v1: int,
    v2: int,
    v3: int,
)
    requires
        0 <= v0 < 64,
        0 <= v1 < 64,
        0 <= v2 < 64,
        0 <= v3 < 64,
        digit_value(c0) == Some(v0),
        digit_value(c1) == Some(v1),
        digit_value(c2) == Some(v2),
        digit_value(c3) == Some(v3),
        c2 != '=' as u8,
        c3 != '=' as u8,
    ensures
        ({
            let n = v0 * 262144 + v1 * 4096 + v2 * 64 + v3;
            let pad = '=' as u8;
            &&& decode_groups(seq![c0, c1, c2, c3]) == Some(
                seq![(n / 65536) as u8, (n / 256 % 256) as u8, (n % 256) as u8],
            )
            &&& decode_groups(seq![c0, c1, c2, pad]) == Some(
                seq![(n / 65536) as u8, (n / 256 % 256) as u8],
            )
            &&& decode_groups(seq![c0, c1, pad, pad]) == Some(seq![(n / 65536) as u8])
        }),
{
    let pad = '=' as u8;
    let n = v0 * 262144 + v1 * 4096 + v2 * 64 + v3;
    let n1 = v0 * 262144 + v1 * 4096 + v2 * 64 + 0;
    let n2 = v0 * 262144 + v1 * 4096 + 0 * 64 + 0;
    lemma_high_bytes(v0, v1, v2, v3);
    lemma_one_group(c0, c1, c2, c3);
    lemma_one_group(c0, c1, c2, pad);
    lemma_one_group(c0, c1, pad, pad);
    assert(digit_value(pad) == Some(0int));
    assert(group_bytes(c0, c1, c2, c3)->0 =~= seq![
        (n / 65536) as u8,
        (n / 256 % 256) as u8,
        (n % 256) as u8,
    ]);
    assert(group_bytes(c0, c1, c2, pad)->0 =~= seq![(n1 / 65536) as u8, (n1 / 256 % 256) as u8]);
    assert(group_bytes(c0, c1, pad, pad)->0 =~= seq![(n2 / 65536) as u8]);
}

proof fn lemma_high_bytes(v0: int, v1: int, v2: int, v3: int)
    requires
        0 <= v0 < 64,
        0 <= v1 < 64,
        0 <= v2 < 64,
        0 <= v3 < 64,
    ensures
        ({
            let n = v0 * 262144 + v1 * 4096 + v2 * 64 + v3;
            let n1 = v0 * 262144 + v1 * 4096 + v2 * 64;
            let n2 = v0 * 262144 + v1 * 4096;
            &&& n1 / 65536 == n / 65536
            &&& n1 / 256 == n / 256
            &&& n2 / 65536 == n / 65536
        }),
{
    let high = v0 * 4096 + v1 * 64 + v2;
    assert((high * 64) / 256 == high / 4);
    assert((high * 64 + v3) / 256 == high / 4);
    let top = v0 * 64 + v1;
    assert((top * 4096) / 65536 == top / 16);
    assert((top * 4096 + v2 * 64) / 65536 == top / 16);
    assert((top * 4096 + v2 * 64 + v3) / 65536 == top / 16);
}

proof fn lemma_one_group(b0: u8, b1: u8, b2: u8, b3: u8)
    ensures
        decode_groups(seq![b0, b1, b2, b3]) == group_bytes(b0, b1, b2, b3),
{
    let text = seq![b0, b1, b2, b3];
    assert(text.skip(4).len() == 0);
    assert(decode_groups(text.skip(4)) == Some(Seq::<u8>::empty()));
    if let Some(head) = group_bytes(b0, b1, b2, b3) {
        assert(head + Seq::<u8>::empty() =~= head);
    }
}

/// Text is read four characters at a time, in order, and is unreadable where one part is.
pub proof fn groups_are_read_in_order(a: Seq<u8>, b: Seq<u8>)
    requires
        a.len() % 4 == 0,
    ensures
        decode_groups(a + b) == match (decode_groups(a), decode_groups(b)) {
            (Some(x), Some(y)) => Some(x + y),
            _ => None,
        },
    decreases a.len(),
{
    if a.len() == 0 {
        assert(a + b =~= b);
        if let Some(y) = decode_groups(b) {
            assert(Seq::<u8>::empty() + y =~= y);
        }
    } else {
        assert((a + b).skip(4) =~= a.skip(4) + b);
        groups_are_read_in_order(a.skip(4), b);
        match (
            group_bytes(a[0], a[1], a[2], a[3]),
            decode_groups(a.skip(4)),
            decode_groups(b),
        ) {
            (Some(h), Some(x), Some(y)) => {
                assert(h + (x + y) =~= (h + x) + y);
            },
            _ => {},
        }
    }
}

/// What is in the standard alphabet, padded or not, is read as well.
pub proof fn standard_form_is_read_too(data: Seq<u8>)
    ensures
        url_decode_of(encode_of(data)) == Some(data),
{
    let e = encode_of(data);
    lemma_encode_decodes(data);
    lemma_standard_form_stays(e);
    decode_inverts_encode(data);
}

proof fn lemma_standard_form_stays(e: Seq<char>)
    requires
        all_base64(e),
        e.len() % 4 == 0,
    ensures
        padded(replace_of(replace_of(e, '-', '+'), '_', '/')) == e,
{
    let r = replace_of(replace_of(e, '-', '+'), '_', '/');
    assert forall|i: int| 0 <= i < e.len() implies r[i] == e[i] by {
        assert(is_base64(e[i]));
        assert(e[i] != '-' && e[i] != '_');
    }
    assert(r =~= e);
    lemma_base64_text(e);
    assert(encode_utf8(e).len() == e.len());
    assert(padding(e.len()) == 0);
    assert(padded(e) =~= e);
}

} // verus!
