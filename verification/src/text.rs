//! Text as a sequence of characters: splitting, trimming, searching and numbers.

use vstd::prelude::*;
use vstd::slice::slice_subrange;

verus! {

/// `String::push` appends the given character to the end of the string.
pub assume_specification[ String::push ](s: &mut String, c: char)
    ensures
        final(s)@ == old(s)@.push(c),
;

/// The characters of a string, in order.
pub fn chars_of(s: &str) -> (out: Vec<char>)
    ensures
        out@ == s@,
{
    let mut out: Vec<char> = Vec::new();
    for c in it: s.chars()
        invariant
            it.seq() == s@,
            out@ == s@.take(it.index() as int),
    {
        out.push(c);
    }
    assert(s@.take(s@.len() as int) == s@);
    out
}

/// The string made of the given characters.
pub fn string_of(chars: &[char]) -> (out: String)
    ensures
        out@ == chars@,
{
    let mut out: String = String::new();
    let mut i: usize = 0;
    while i < chars.len()
        invariant
            i <= chars.len(),
            out@ == chars@.take(i as int),
        decreases chars.len() - i,
    {
        out.push(chars[i]);
        i += 1;
    }
    assert(chars@.take(chars@.len() as int) == chars@);
    out
}

/// What an optional text holds.
pub open spec fn owned_view(text: Option<String>) -> Option<Seq<char>> {
    match text {
        Some(s) => Some(s@),
        None => None,
    }
}

/// What an optional borrowed text holds.
pub open spec fn borrowed_view(text: Option<&str>) -> Option<Seq<char>> {
    match text {
        Some(s) => Some(s@),
        None => None,
    }
}

/// Whether two strings hold the same characters.
pub fn same(a: &str, b: &str) -> (yes: bool)
    ensures
        yes == (a@ == b@),
{
    a.to_owned() == b.to_owned()
}

/// The characters with the Unicode property `White_Space`.
pub open spec fn is_space(c: char) -> bool {
    ||| '\u{9}' <= c <= '\u{d}'
    ||| c == ' '
    ||| c == '\u{85}'
    ||| c == '\u{a0}'
    ||| c == '\u{1680}'
    ||| '\u{2000}' <= c <= '\u{200a}'
    ||| c == '\u{2028}'
    ||| c == '\u{2029}'
    ||| c == '\u{202f}'
    ||| c == '\u{205f}'
    ||| c == '\u{3000}'
}

/// Whether a character has the Unicode property `White_Space`.
pub fn white_space(c: char) -> (yes: bool)
    ensures
        yes == is_space(c),
{
    ('\u{9}' <= c && c <= '\u{d}') || c == ' ' || c == '\u{85}' || c == '\u{a0}' || c == '\u{1680}'
        || ('\u{2000}' <= c && c <= '\u{200a}') || c == '\u{2028}' || c == '\u{2029}'
        || c == '\u{202f}' || c == '\u{205f}' || c == '\u{3000}'
}

/// `s` without the white space at its start.
pub open spec fn trim_start_of(s: Seq<char>) -> Seq<char>
    decreases s.len(),
{
    if s.len() > 0 && is_space(s.first()) {
        trim_start_of(s.drop_first())
    } else {
        s
    }
}

/// `s` without the white space at its end.
pub open spec fn trim_end_of(s: Seq<char>) -> Seq<char>
    decreases s.len(),
{
    if s.len() > 0 && is_space(s.last()) {
        trim_end_of(s.drop_last())
    } else {
        s
    }
}

/// `s` without the white space at both ends.
pub open spec fn trim_of(s: Seq<char>) -> Seq<char> {
    trim_end_of(trim_start_of(s))
}

/// The part of `s` between the white space at its ends.
pub fn trim(s: &[char]) -> (out: &[char])
    ensures
        out@ == trim_of(s@),
{
    let mut i: usize = 0;
    assert(s@.skip(0) == s@);
    while i < s.len() && white_space(s[i])
        invariant
            i <= s.len(),
            trim_start_of(s@) == trim_start_of(s@.skip(i as int)),
        decreases s.len() - i,
    {
        assert(s@.skip(i as int).drop_first() == s@.skip(i + 1));
        i += 1;
    }
    let ghost body = s@.skip(i as int);
    assert(trim_start_of(s@) == body);
    let mut j: usize = s.len();
    assert(body.take(j - i) == body);
    while i < j && white_space(s[j - 1])
        invariant
            i <= j <= s.len(),
            body == s@.skip(i as int),
            trim_end_of(body) == trim_end_of(body.take(j - i)),
        decreases j,
    {
        assert(body.take(j - i).drop_last() == body.take(j - 1 - i));
        assert(body.take(j - i).last() == s@[j - 1]);
        j -= 1;
    }
    let out = slice_subrange(s, i, j);
    assert(out@ == body.take(j - i));
    proof {
        if i < j {
            assert(body.take(j - i).last() == s@[j - 1]);
        }
    }
    out
}

/// `s` cut at every occurrence of `c`; there is one piece more than occurrences.
pub open spec fn split_of(s: Seq<char>, c: char) -> Seq<Seq<char>>
    decreases s.len(),
{
    if s.len() == 0 {
        seq![Seq::<char>::empty()]
    } else {
        let before = split_of(s.drop_last(), c);
        if s.last() == c {
            before.push(Seq::<char>::empty())
        } else {
            before.drop_last().push(before.last().push(s.last()))
        }
    }
}

/// What a list of character slices holds.
pub open spec fn pieces(v: Seq<&[char]>) -> Seq<Seq<char>> {
    v.map_values(|p: &[char]| p@)
}

proof fn lemma_pieces_push(v: Seq<&[char]>, p: &[char])
    ensures
        pieces(v.push(p)) == pieces(v).push(p@),
{
    assert(pieces(v.push(p)) =~= pieces(v).push(p@));
}

/// Cuts `s` at every occurrence of `c`.
pub fn split<'a>(s: &'a [char], c: char) -> (out: Vec<&'a [char]>)
    ensures
        pieces(out@) == split_of(s@, c),
{
    let mut out: Vec<&'a [char]> = Vec::new();
    let mut start: usize = 0;
    let mut i: usize = 0;
    assert(s@.take(0) == Seq::<char>::empty());
    assert(split_of(s@.take(0), c) == pieces(out@).push(s@.subrange(0, 0)));
    while i < s.len()
        invariant
            start <= i <= s.len(),
            split_of(s@.take(i as int), c) == pieces(out@).push(
                s@.subrange(start as int, i as int),
            ),
        decreases s.len() - i,
    {
        let ghost before = pieces(out@).push(s@.subrange(start as int, i as int));
        assert(s@.take(i + 1).drop_last() == s@.take(i as int));
        assert(s@.take(i + 1).last() == s@[i as int]);
        if s[i] == c {
            let piece = slice_subrange(s, start, i);
            proof {
                lemma_pieces_push(out@, piece);
            }
            out.push(piece);
            start = i + 1;
            assert(s@.subrange(start as int, i + 1) == Seq::<char>::empty());
        } else {
            assert(before.drop_last() == pieces(out@));
            assert(s@.subrange(start as int, i + 1) == s@.subrange(start as int, i as int).push(
                s@[i as int],
            ));
        }
        i += 1;
    }
    let piece = slice_subrange(s, start, s.len());
    proof {
        lemma_pieces_push(out@, piece);
        assert(s@.take(s@.len() as int) == s@);
    }
    out.push(piece);
    out
}

/// The runs of characters between white space, in order; none is empty.
pub open spec fn words_of(s: Seq<char>) -> Seq<Seq<char>>
    decreases s.len(),
{
    if s.len() == 0 {
        Seq::<Seq<char>>::empty()
    } else {
        let before = words_of(s.drop_last());
        if is_space(s.last()) {
            before
        } else if s.len() == 1 || is_space(s[s.len() - 2]) {
            before.push(seq![s.last()])
        } else {
            before.drop_last().push(before.last().push(s.last()))
        }
    }
}

/// The runs of characters between white space.
pub fn words<'a>(s: &'a [char]) -> (out: Vec<&'a [char]>)
    ensures
        pieces(out@) == words_of(s@),
{
    let mut out: Vec<&'a [char]> = Vec::new();
    let mut start: usize = 0;
    let mut i: usize = 0;
    let mut inside: bool = false;
    assert(s@.take(0) == Seq::<char>::empty());
    assert(pieces(out@) =~= Seq::<Seq<char>>::empty());
    while i < s.len()
        invariant
            start <= i <= s.len(),
            inside == (i > 0 && !is_space(s@[i - 1])),
            words_of(s@.take(i as int)) == if inside {
                pieces(out@).push(s@.subrange(start as int, i as int))
            } else {
                pieces(out@)
            },
        decreases s.len() - i,
    {
        let ghost now = s@.take(i + 1);
        assert(now.drop_last() == s@.take(i as int));
        assert(now.last() == s@[i as int]);
        assert(i > 0 ==> now[now.len() - 2] == s@[i - 1]);
        if white_space(s[i]) {
            if inside {
                let piece = slice_subrange(s, start, i);
                proof {
                    lemma_pieces_push(out@, piece);
                }
                out.push(piece);
            }
            inside = false;
        } else if inside {
            assert(pieces(out@).push(s@.subrange(start as int, i as int)).drop_last() == pieces(
                out@,
            ));
            assert(s@.subrange(start as int, i + 1) == s@.subrange(start as int, i as int).push(
                s@[i as int],
            ));
        } else {
            start = i;
            inside = true;
            assert(s@.subrange(start as int, i + 1) == seq![s@[i as int]]);
        }
        i += 1;
    }
    assert(s@.take(s@.len() as int) == s@);
    if inside {
        let piece = slice_subrange(s, start, s.len());
        proof {
            lemma_pieces_push(out@, piece);
        }
        out.push(piece);
    }
    out
}

/// `line` without the carriage return that may end it.
pub open spec fn without_return(line: Seq<char>) -> Seq<char> {
    if line.len() > 0 && line.last() == '\r' {
        line.drop_last()
    } else {
        line
    }
}

/// The lines of a text. A line ends with a line feed, or with a carriage return
/// and a line feed; the ending of the last line may be left out.
pub open spec fn lines_of(s: Seq<char>) -> Seq<Seq<char>> {
    let parts = split_of(s, '\n');
    let ended = parts.drop_last().map_values(|line: Seq<char>| without_return(line));
    if parts.last().len() == 0 {
        ended
    } else {
        ended.push(parts.last())
    }
}

/// The lines of a text, without their endings.
pub fn lines<'a>(s: &'a [char]) -> (out: Vec<&'a [char]>)
    ensures
        pieces(out@) == lines_of(s@),
{
    let parts = split(s, '\n');
    let ghost all = split_of(s@, '\n');
    proof {
        lemma_split_not_empty(s@, '\n');
        assert(pieces(parts@).len() == parts@.len());
    }
    let last: usize = parts.len() - 1;
    let mut out: Vec<&'a [char]> = Vec::new();
    let mut i: usize = 0;
    let ghost ended = all.drop_last().map_values(|line: Seq<char>| without_return(line));
    assert(pieces(out@) =~= ended.take(0));
    while i < last
        invariant
            i <= last,
            last == parts.len() - 1,
            all == pieces(parts@),
            ended == all.drop_last().map_values(|line: Seq<char>| without_return(line)),
            pieces(out@) == ended.take(i as int),
        decreases last - i,
    {
        let line = parts[i];
        let n: usize = line.len();
        assert(all[i as int] == line@);
        let piece = if n > 0 && line[n - 1] == '\r' {
            slice_subrange(line, 0, n - 1)
        } else {
            line
        };
        assert(piece@ == without_return(line@));
        proof {
            lemma_pieces_push(out@, piece);
        }
        out.push(piece);
        assert(ended.take(i + 1) == ended.take(i as int).push(without_return(line@)));
        i += 1;
    }
    assert(ended.take(last as int) == ended);
    assert(all.last() == parts@[last as int]@);
    if parts[last].len() != 0 {
        proof {
            lemma_pieces_push(out@, parts@[last as int]);
        }
        out.push(parts[last]);
    }
    out
}

proof fn lemma_split_not_empty(s: Seq<char>, c: char)
    ensures
        split_of(s, c).len() > 0,
    decreases s.len(),
{
    if s.len() > 0 {
        lemma_split_not_empty(s.drop_last(), c);
    }
}

/// What stands before and after the first occurrence of `c`, if there is one.
pub open spec fn split_once_of(s: Seq<char>, c: char) -> Option<(Seq<char>, Seq<char>)> {
    match s.index_of_first(c) {
        Some(i) => Some((s.take(i), s.skip(i + 1))),
        None => None,
    }
}

/// Cuts `s` at the first occurrence of `c`.
pub fn split_once<'a>(s: &'a [char], c: char) -> (out: Option<(&'a [char], &'a [char])>)
    ensures
        match split_once_of(s@, c) {
            Some(parts) => out matches Some(o) && o.0@ == parts.0 && o.1@ == parts.1,
            None => out is None,
        },
{
    let mut i: usize = 0;
    while i < s.len()
        invariant
            i <= s.len(),
            forall|k: int| 0 <= k < i ==> s@[k] != c,
        decreases s.len() - i,
    {
        if s[i] == c {
            proof {
                s@.index_of_first_ensures(c);
                let first = s@.index_of_first(c)->0;
                assert(s@.contains(s@[i as int]));
                assert(s@[first] == c);
                assert(first == i);
            }
            let head = slice_subrange(s, 0, i);
            let tail = slice_subrange(s, i + 1, s.len());
            assert(head@ == s@.take(i as int));
            assert(tail@ == s@.skip(i + 1));
            return Some((head, tail));
        }
        i += 1;
    }
    proof {
        s@.index_of_first_ensures(c);
        assert(!s@.contains(c));
    }
    None
}

/// `s` without the occurrences of `c` at its end.
pub open spec fn trim_end_char_of(s: Seq<char>, c: char) -> Seq<char>
    decreases s.len(),
{
    if s.len() > 0 && s.last() == c {
        trim_end_char_of(s.drop_last(), c)
    } else {
        s
    }
}

/// Drops the occurrences of `c` at the end of `s`.
pub fn trim_end_char(s: &[char], c: char) -> (out: &[char])
    ensures
        out@ == trim_end_char_of(s@, c),
{
    let mut j: usize = s.len();
    assert(s@.take(j as int) == s@);
    while j > 0 && s[j - 1] == c
        invariant
            j <= s.len(),
            trim_end_char_of(s@, c) == trim_end_char_of(s@.take(j as int), c),
        decreases j,
    {
        assert(s@.take(j as int).drop_last() == s@.take(j - 1));
        j -= 1;
    }
    let out = slice_subrange(s, 0, j);
    assert(out@ == s@.take(j as int));
    out
}

/// `s` with `to` in the place of every `from`.
pub open spec fn replace_of(s: Seq<char>, from: char, to: char) -> Seq<char> {
    s.map_values(|c: char| if c == from { to } else { c })
}

/// Puts `to` in the place of every `from`.
pub fn replace(s: &[char], from: char, to: char) -> (out: Vec<char>)
    ensures
        out@ == replace_of(s@, from, to),
{
    let mut out: Vec<char> = Vec::new();
    let mut i: usize = 0;
    while i < s.len()
        invariant
            i <= s.len(),
            out@ == replace_of(s@.take(i as int), from, to),
        decreases s.len() - i,
    {
        out.push(if s[i] == from { to } else { s[i] });
        assert(s@.take(i + 1) == s@.take(i as int).push(s@[i as int]));
        assert(out@ =~= replace_of(s@.take(i + 1), from, to));
        i += 1;
    }
    assert(s@.take(s@.len() as int) == s@);
    out
}

/// Whether `c` is one of the digits `0` to `9`.
pub open spec fn is_digit(c: char) -> bool {
    '0' <= c <= '9'
}

/// The number that a run of decimal digits stands for.
pub open spec fn decimal_of(digits: Seq<char>) -> nat
    decreases digits.len(),
{
    if digits.len() == 0 {
        0
    } else {
        decimal_of(digits.drop_last()) * 10 + (digits.last() as nat - '0' as nat) as nat
    }
}

/// Whether `s` is at least one decimal digit and nothing else.
pub open spec fn is_number(s: Seq<char>) -> bool {
    s.len() > 0 && forall|i: int| 0 <= i < s.len() ==> is_digit(#[trigger] s[i])
}

/// `s` without the plus sign that may start it.
pub open spec fn without_plus(s: Seq<char>) -> Seq<char> {
    if s.len() > 0 && s.first() == '+' {
        s.drop_first()
    } else {
        s
    }
}

/// The number at most `max` that `s` stands for: decimal digits, with a plus
/// sign before them or not.
pub open spec fn unsigned_of(s: Seq<char>, max: nat) -> Option<nat> {
    let digits = without_plus(s);
    if is_number(digits) && decimal_of(digits) <= max {
        Some(decimal_of(digits))
    } else {
        None
    }
}

/// The 64-bit signed number that `s` stands for: decimal digits, with a plus or
/// a minus sign before them or not.
pub open spec fn signed_of(s: Seq<char>) -> Option<int> {
    if s.len() > 0 && s.first() == '-' {
        let digits = s.drop_first();
        if is_number(digits) && -decimal_of(digits) >= i64::MIN {
            Some(-decimal_of(digits))
        } else {
            None
        }
    } else {
        match unsigned_of(s, i64::MAX as nat) {
            Some(n) => Some(n as int),
            None => None,
        }
    }
}

proof fn lemma_decimal_grows(digits: Seq<char>, n: int)
    requires
        0 <= n <= digits.len(),
    ensures
        decimal_of(digits.take(n)) <= decimal_of(digits),
    decreases digits.len() - n,
{
    if n == digits.len() {
        assert(digits.take(n) == digits);
    } else {
        lemma_decimal_grows(digits, n + 1);
        assert(digits.take(n + 1).drop_last() == digits.take(n));
    }
}

/// Reads a number at most `max` of digits alone.
pub fn parse_digits(s: &[char], max: u64) -> (out: Option<u64>)
    ensures
        out is Some <==> is_number(s@) && decimal_of(s@) <= max,
        out is Some ==> out->0 == decimal_of(s@),
{
    if s.len() == 0 {
        return None;
    }
    let mut value: u64 = 0;
    let mut i: usize = 0;
    assert(decimal_of(s@.take(0)) == 0);
    while i < s.len()
        invariant
            i <= s.len(),
            forall|k: int| 0 <= k < i ==> is_digit(#[trigger] s@[k]),
            value == decimal_of(s@.take(i as int)),
            value <= max,
        decreases s.len() - i,
    {
        let c: char = s[i];
        if !('0' <= c && c <= '9') {
            assert(!is_digit(s@[i as int]));
            return None;
        }
        let digit: u64 = c as u64 - '0' as u64;
        let next: u128 = value as u128 * 10 + digit as u128;
        proof {
            assert(s@.take(i + 1).drop_last() == s@.take(i as int));
            lemma_decimal_grows(s@, i + 1);
        }
        if next > max as u128 {
            return None;
        }
        value = next as u64;
        i += 1;
    }
    assert(s@.take(s@.len() as int) == s@);
    Some(value)
}

/// Reads an unsigned number at most `max`.
pub fn parse_unsigned(s: &[char], max: u64) -> (out: Option<u64>)
    ensures
        match unsigned_of(s@, max as nat) {
            Some(n) => out == Some(n as u64) && n <= max,
            None => out is None,
        },
{
    if s.len() > 0 && s[0] == '+' {
        let rest = slice_subrange(s, 1, s.len());
        assert(rest@ == s@.drop_first());
        parse_digits(rest, max)
    } else {
        parse_digits(s, max)
    }
}

/// Reads a 64-bit signed number.
pub fn parse_signed(s: &[char]) -> (out: Option<i64>)
    ensures
        match signed_of(s@) {
            Some(n) => out == Some(n as i64) && i64::MIN <= n <= i64::MAX,
            None => out is None,
        },
{
    if s.len() > 0 && s[0] == '-' {
        let rest = slice_subrange(s, 1, s.len());
        assert(rest@ == s@.drop_first());
        match parse_digits(rest, 0x8000_0000_0000_0000u64) {
            Some(n) => {
                let wide: i128 = 0 - n as i128;
                Some(wide as i64)
            },
            None => None,
        }
    } else {
        match parse_unsigned(s, i64::MAX as u64) {
            Some(n) => Some(n as i64),
            None => None,
        }
    }
}

/// Whether `pattern` stands in `s` at position `at`.
pub open spec fn occurs_at(s: Seq<char>, pattern: Seq<char>, at: int) -> bool {
    0 <= at <= s.len() - pattern.len() && s.subrange(at, at + pattern.len()) == pattern
}

/// Whether `pattern` stands anywhere in `s`.
pub open spec fn contains_text(s: Seq<char>, pattern: Seq<char>) -> bool {
    exists|at: int| occurs_at(s, pattern, at)
}

/// Whether two runs of characters are equal.
pub fn same_chars(a: &[char], b: &[char]) -> (yes: bool)
    ensures
        yes == (a@ == b@),
{
    if a.len() != b.len() {
        return false;
    }
    let mut i: usize = 0;
    while i < a.len()
        invariant
            i <= a.len(),
            a.len() == b.len(),
            forall|k: int| 0 <= k < i ==> a@[k] == b@[k],
        decreases a.len() - i,
    {
        if a[i] != b[i] {
            return false;
        }
        i += 1;
    }
    assert(a@ =~= b@);
    true
}

/// The first position from `from` on at which `pattern` stands.
pub fn find_from(s: &[char], pattern: &[char], from: usize) -> (out: Option<usize>)
    requires
        from <= s@.len(),
    ensures
        match out {
            Some(at) => from <= at && occurs_at(s@, pattern@, at as int) && forall|k: int|
                from <= k < at ==> !occurs_at(s@, pattern@, k),
            None => forall|k: int| from <= k ==> !occurs_at(s@, pattern@, k),
        },
{
    if pattern.len() > s.len() {
        return None;
    }
    let last: usize = s.len() - pattern.len();
    let mut at: usize = from;
    while at <= last
        invariant
            from <= at,
            last + pattern.len() == s.len(),
            forall|k: int| from <= k < at ==> !occurs_at(s@, pattern@, k),
        decreases last + 1 - at,
    {
        if same_chars(slice_subrange(s, at, at + pattern.len()), pattern) {
            return Some(at);
        }
        if at == last {
            return None;
        }
        at += 1;
    }
    None
}

/// Whether the characters of `pattern` stand together in `s`.
pub fn contains(s: &[char], pattern: &str) -> (yes: bool)
    ensures
        yes == contains_text(s@, pattern@),
{
    let wanted = chars_of(pattern);
    match find_from(s, wanted.as_slice(), 0) {
        Some(at) => {
            assert(occurs_at(s@, pattern@, at as int));
            true
        },
        None => false,
    }
}

/// Whether `s` starts with the characters of `pattern`.
pub fn starts_with(s: &[char], pattern: &str) -> (yes: bool)
    ensures
        yes == pattern@.is_prefix_of(s@),
{
    let wanted = chars_of(pattern);
    if wanted.len() > s.len() {
        return false;
    }
    same_chars(slice_subrange(s, 0, wanted.len()), wanted.as_slice())
}

/// A trimmed text has no white space at either end.
pub proof fn trimmed_ends(s: Seq<char>)
    ensures
        trim_of(s).len() > 0 ==> !is_space(trim_of(s).first()) && !is_space(trim_of(s).last()),
{
    lemma_trim_start(s);
    lemma_trim_end(trim_start_of(s));
}

proof fn lemma_trim_start(s: Seq<char>)
    ensures
        trim_start_of(s).len() > 0 ==> !is_space(trim_start_of(s).first()),
    decreases s.len(),
{
    if s.len() > 0 && is_space(s.first()) {
        lemma_trim_start(s.drop_first());
    }
}

proof fn lemma_trim_end(s: Seq<char>)
    ensures
        trim_end_of(s).len() > 0 ==> !is_space(trim_end_of(s).last()) && trim_end_of(s).first()
            == s.first(),
    decreases s.len(),
{
    if s.len() > 0 && is_space(s.last()) {
        lemma_trim_end(s.drop_last());
    }
}

/// A text with no white space at either end stays as it is.
pub proof fn trim_keeps(s: Seq<char>)
    requires
        s.len() > 0 ==> !is_space(s.first()) && !is_space(s.last()),
    ensures
        trim_of(s) == s,
{
}

/// A trimmed text holds no character that the text did not hold.
pub proof fn trim_only_drops(s: Seq<char>, c: char)
    requires
        trim_of(s).contains(c),
    ensures
        s.contains(c),
{
    lemma_trim_end_drops(trim_start_of(s), c);
    lemma_trim_start_drops(s, c);
}

proof fn lemma_trim_start_drops(s: Seq<char>, c: char)
    requires
        trim_start_of(s).contains(c),
    ensures
        s.contains(c),
    decreases s.len(),
{
    if s.len() > 0 && is_space(s.first()) {
        lemma_trim_start_drops(s.drop_first(), c);
        let i = choose|i: int| 0 <= i < s.drop_first().len() && s.drop_first()[i] == c;
        assert(s[i + 1] == c);
    }
}

proof fn lemma_trim_end_drops(s: Seq<char>, c: char)
    requires
        trim_end_of(s).contains(c),
    ensures
        s.contains(c),
    decreases s.len(),
{
    if s.len() > 0 && is_space(s.last()) {
        lemma_trim_end_drops(s.drop_last(), c);
        let i = choose|i: int| 0 <= i < s.drop_last().len() && s.drop_last()[i] == c;
        assert(s[i] == c);
    }
}

/// A text without the separator is one piece.
pub proof fn split_keeps_unmarked(s: Seq<char>, c: char)
    requires
        !s.contains(c),
    ensures
        split_of(s, c) == seq![s],
    decreases s.len(),
{
    if s.len() > 0 {
        let before = s.drop_last();
        assert forall|i: int| 0 <= i < before.len() implies before[i] != c by {
            assert(s[i] == before[i]);
        }
        split_keeps_unmarked(before, c);
        assert(s.last() == s[s.len() - 1]);
        assert(before.push(s.last()) =~= s);
        assert(split_of(before, c).drop_last() =~= Seq::empty());
        assert(split_of(s, c) =~= seq![s]);
    } else {
        assert(s =~= Seq::empty());
    }
}

/// Two texts joined by the separator have the pieces of both.
pub proof fn split_of_joined(a: Seq<char>, b: Seq<char>, c: char)
    ensures
        split_of(a.push(c) + b, c) == split_of(a, c) + split_of(b, c),
    decreases b.len(),
{
    let all = a.push(c) + b;
    if b.len() == 0 {
        assert(all =~= a.push(c));
        assert(a.push(c).drop_last() =~= a);
        assert(split_of(all, c) =~= split_of(a, c) + split_of(b, c));
    } else {
        split_of_joined(a, b.drop_last(), c);
        assert(all.drop_last() =~= a.push(c) + b.drop_last());
        assert(all.last() == b.last());
        lemma_split_not_empty(b.drop_last(), c);
        assert(split_of(all, c) =~= split_of(a, c) + split_of(b, c));
    }
}

/// Whether a text is white space alone.
pub open spec fn is_blank(s: Seq<char>) -> bool {
    forall|i: int| 0 <= i < s.len() ==> is_space(#[trigger] s[i])
}

/// Whether a text is a word: not empty, and without white space.
pub open spec fn is_one_word(s: Seq<char>) -> bool {
    s.len() > 0 && forall|i: int| 0 <= i < s.len() ==> !is_space(#[trigger] s[i])
}

proof fn lemma_trim_start_pads(a: Seq<char>, s: Seq<char>)
    requires
        is_blank(a),
    ensures
        trim_start_of(a + s) == trim_start_of(s),
    decreases a.len(),
{
    if a.len() == 0 {
        assert(a + s =~= s);
    } else {
        let rest = a.drop_first();
        assert(is_space(a[0]));
        assert forall|i: int| 0 <= i < rest.len() implies is_space(#[trigger] rest[i]) by {
            assert(is_space(a[i + 1]));
        }
        assert((a + s).drop_first() =~= rest + s);
        lemma_trim_start_pads(rest, s);
    }
}

proof fn lemma_trim_end_pads(s: Seq<char>, b: Seq<char>)
    requires
        is_blank(b),
    ensures
        trim_end_of(s + b) == trim_end_of(s),
    decreases b.len(),
{
    if b.len() == 0 {
        assert(s + b =~= s);
    } else {
        let rest = b.drop_last();
        assert(is_space(b[b.len() - 1]));
        assert forall|i: int| 0 <= i < rest.len() implies is_space(#[trigger] rest[i]) by {
            assert(is_space(b[i]));
        }
        assert((s + b).drop_last() =~= s + rest);
        lemma_trim_end_pads(s, rest);
    }
}

/// Trimming takes the white space at both ends away and nothing else: a text that
/// neither starts nor ends with white space comes out of any padding unchanged.
pub proof fn trim_undoes_padding(a: Seq<char>, s: Seq<char>, b: Seq<char>)
    requires
        is_blank(a),
        is_blank(b),
        s.len() > 0 ==> !is_space(s.first()) && !is_space(s.last()),
    ensures
        trim_of(a + s + b) == s,
{
    assert(a + s + b =~= a + (s + b));
    lemma_trim_start_pads(a, s + b);
    if s.len() > 0 {
        assert((s + b).first() == s.first());
        assert(trim_start_of(s + b) == s + b);
        lemma_trim_end_pads(s, b);
    } else {
        assert(s + b =~= b);
        assert(b =~= b + Seq::empty());
        lemma_trim_start_pads(b, Seq::empty());
        assert(trim_of(a + s + b) =~= s);
    }
}

/// The decimal digits of a number.
pub open spec fn digits_of(n: nat) -> Seq<char>
    decreases n,
{
    if n < 10 {
        seq![('0' as int + n) as char]
    } else {
        digits_of(n / 10).push(('0' as int + n % 10) as char)
    }
}

/// What is written in decimal is read back: digits, in number not zero, that stand
/// for the number.
pub proof fn digits_stand_for_their_number(n: nat)
    ensures
        is_number(digits_of(n)),
        decimal_of(digits_of(n)) == n,
        is_one_word(digits_of(n)),
        forall|i: int| 0 <= i < digits_of(n).len() ==> '0' <= #[trigger] digits_of(n)[i] <= '9',
    decreases n,
{
    let d = digits_of(n);
    if n < 10 {
        assert(d.drop_last() =~= Seq::empty());
        assert(decimal_of(d.drop_last()) == 0);
    } else {
        digits_stand_for_their_number(n / 10);
        assert(d.drop_last() =~= digits_of(n / 10));
        assert forall|i: int| 0 <= i < d.len() implies '0' <= #[trigger] d[i] <= '9' by {
            if i < d.len() - 1 {
                assert(d[i] == digits_of(n / 10)[i]);
            }
        }
    }
    assert forall|i: int| 0 <= i < d.len() implies is_digit(#[trigger] d[i]) by {}
    assert forall|i: int| 0 <= i < d.len() implies !is_space(#[trigger] d[i]) by {}
}

/// Every unsigned number that fits is read back from its digits, with or without
/// a plus sign, and one that does not fit is not read.
pub proof fn unsigned_is_read_back(n: nat, max: nat)
    ensures
        unsigned_of(digits_of(n), max) == if n <= max {
            Some(n)
        } else {
            None
        },
        unsigned_of(seq!['+'] + digits_of(n), max) == if n <= max {
            Some(n)
        } else {
            None
        },
{
    digits_stand_for_their_number(n);
    assert(digits_of(n)[0] != '+');
    assert((seq!['+'] + digits_of(n)).drop_first() =~= digits_of(n));
}

/// Every signed number of 64 bits is read back from its digits and its sign.
pub proof fn signed_is_read_back(n: nat)
    ensures
        signed_of(digits_of(n)) == if n <= i64::MAX {
            Some(n as int)
        } else {
            None
        },
        signed_of(seq!['-'] + digits_of(n)) == if n <= 0x8000_0000_0000_0000 {
            Some(-n)
        } else {
            None
        },
{
    digits_stand_for_their_number(n);
    unsigned_is_read_back(n, i64::MAX as nat);
    assert(digits_of(n)[0] != '-');
    assert((seq!['-'] + digits_of(n)).drop_first() =~= digits_of(n));
}

/// A text with a character that is no digit behind its first is no number.
pub proof fn only_digits_are_numbers(s: Seq<char>, i: int, max: nat)
    requires
        0 < i < s.len(),
        !('0' <= s[i] <= '9'),
    ensures
        unsigned_of(s, max) is None,
        signed_of(s) is None,
{
    assert(!is_digit(s[i]));
    let rest = s.drop_first();
    assert(!is_digit(rest[i - 1]));
    assert(!is_number(s));
    assert(!is_number(rest));
}

proof fn lemma_words_not_empty(s: Seq<char>)
    requires
        s.len() > 0,
        !is_space(s.last()),
    ensures
        words_of(s).len() > 0,
{
}

/// A word is the only word in it, and white space holds none.
pub proof fn word_stands_alone(w: Seq<char>)
    ensures
        is_one_word(w) ==> words_of(w) == seq![w],
        is_blank(w) ==> words_of(w) == Seq::<Seq<char>>::empty(),
    decreases w.len(),
{
    if w.len() > 0 {
        let before = w.drop_last();
        word_stands_alone(before);
        assert(w.last() == w[w.len() - 1]);
        if is_one_word(w) {
            assert(!is_space(w[w.len() - 1]));
            if w.len() == 1 {
                assert(w =~= seq![w.last()]);
                assert(words_of(before) =~= Seq::empty());
            } else {
                assert forall|i: int| 0 <= i < before.len() implies !is_space(
                    #[trigger] before[i],
                ) by {
                    assert(!is_space(w[i]));
                }
                assert(!is_space(w[w.len() - 2]));
                assert(before.push(w.last()) =~= w);
                assert(words_of(before).drop_last() =~= Seq::empty());
            }
            assert(words_of(w) =~= seq![w]);
        }
        if is_blank(w) {
            assert forall|i: int| 0 <= i < before.len() implies is_space(#[trigger] before[i]) by {
                assert(is_space(w[i]));
            }
            assert(is_space(w[w.len() - 1]));
        }
    }
}

/// Two texts with white space between them have the words of both.
pub proof fn words_of_joined(a: Seq<char>, space: char, b: Seq<char>)
    requires
        is_space(space),
    ensures
        words_of(a.push(space) + b) == words_of(a) + words_of(b),
    decreases b.len(),
{
    let all = a.push(space) + b;
    if b.len() == 0 {
        assert(all =~= a.push(space));
        assert(all.drop_last() =~= a);
        assert(words_of(all) =~= words_of(a) + words_of(b));
    } else {
        let before = b.drop_last();
        words_of_joined(a, space, before);
        assert(all.drop_last() =~= a.push(space) + before);
        assert(all.last() == b.last());
        if b.len() == 1 {
            assert(all[all.len() - 2] == space);
            assert(words_of(before) =~= Seq::empty());
        } else {
            assert(all[all.len() - 2] == b[b.len() - 2]);
            if !is_space(b.last()) && !is_space(b[b.len() - 2]) {
                lemma_words_not_empty(before);
            }
        }
        assert(words_of(all) =~= words_of(a) + words_of(b));
    }
}

/// A line feed ends a line: what stands before it and what follows have their own
/// lines.
pub proof fn lines_of_joined(a: Seq<char>, b: Seq<char>)
    ensures
        lines_of(a.push('\n') + b) == lines_of(a.push('\n')) + lines_of(b),
{
    split_of_joined(a, b, '\n');
    split_of_joined(a, Seq::empty(), '\n');
    assert(a.push('\n') + Seq::<char>::empty() =~= a.push('\n'));
    lemma_split_not_empty(a, '\n');
    lemma_split_not_empty(b, '\n');
    let pa = split_of(a, '\n');
    let pb = split_of(b, '\n');
    assert((pa + pb).drop_last() =~= pa + pb.drop_last());
    assert((pa + pb).last() == pb.last());
    assert((pa + seq![Seq::<char>::empty()]).drop_last() =~= pa);
    let f = |line: Seq<char>| without_return(line);
    assert((pa + pb.drop_last()).map_values(f) =~= pa.map_values(f) + pb.drop_last().map_values(f));
    assert(lines_of(a.push('\n') + b) =~= lines_of(a.push('\n')) + lines_of(b));
}

/// One line: it ends with a line feed, with a carriage return and a line feed, or
/// with the text; its ending is not part of it.
pub proof fn line_stands_alone(line: Seq<char>)
    requires
        !line.contains('\n'),
    ensures
        line.len() == 0 || line.last() != '\r' ==> lines_of(line.push('\n')) == seq![line],
        lines_of(line.push('\r').push('\n')) == seq![line],
        line.len() > 0 ==> lines_of(line) == seq![line],
        lines_of(Seq::empty()) == Seq::<Seq<char>>::empty(),
{
    let returned = line.push('\r');
    assert forall|i: int| 0 <= i < returned.len() implies returned[i] != '\n' by {
        if i < line.len() {
            assert(returned[i] == line[i]);
        }
    }
    lemma_one_line(line);
    lemma_one_line(returned);
    assert(returned.drop_last() =~= line);
    split_keeps_unmarked(line, '\n');
    split_keeps_unmarked(Seq::empty(), '\n');
    assert(lines_of(Seq::empty()) =~= Seq::empty());
    assert(seq![line].drop_last() =~= Seq::empty());
    if line.len() > 0 {
        assert(lines_of(line) =~= seq![line]);
    }
}

proof fn lemma_one_line(line: Seq<char>)
    requires
        !line.contains('\n'),
    ensures
        lines_of(line.push('\n')) == seq![without_return(line)],
{
    split_of_joined(line, Seq::empty(), '\n');
    assert(line.push('\n') + Seq::<char>::empty() =~= line.push('\n'));
    split_keeps_unmarked(line, '\n');
    let parts = split_of(line.push('\n'), '\n');
    assert(parts =~= seq![line, Seq::<char>::empty()]);
    assert(parts.drop_last() =~= seq![line]);
    assert(lines_of(line.push('\n')) =~= seq![without_return(line)]);
}

/// A text is cut in two at the first separator, and not at all where there is none.
pub proof fn cut_at_the_first(a: Seq<char>, b: Seq<char>, c: char)
    requires
        !a.contains(c),
    ensures
        split_once_of(a.push(c) + b, c) == Some((a, b)),
        split_once_of(a, c) is None,
{
    let all = a.push(c) + b;
    let n = a.len() as int;
    assert(all[n] == c);
    assert(all.contains(c));
    all.index_of_first_ensures(c);
    a.index_of_first_ensures(c);
    assert forall|i: int| 0 <= i < n implies all[i] != c by {
        assert(all[i] == a[i]);
    }
    assert(all.index_of_first(c) == Some(n));
    assert(all.take(n) =~= a);
    assert(all.skip(n + 1) =~= b);
}

/// All of a character at the end is taken away, however often it stands there, and
/// nothing else.
pub proof fn end_characters_are_dropped(s: Seq<char>, c: char, n: nat)
    requires
        s.len() > 0 ==> s.last() != c,
    ensures
        trim_end_char_of(s + Seq::new(n, |i: int| c), c) == s,
    decreases n,
{
    let all = s + Seq::new(n, |i: int| c);
    if n == 0 {
        assert(all =~= s);
    } else {
        assert(all.drop_last() =~= s + Seq::new((n - 1) as nat, |i: int| c));
        end_characters_are_dropped(s, c, (n - 1) as nat);
    }
}

/// A text is found wherever it stands, and what is found does stand there.
pub proof fn found_where_it_stands(a: Seq<char>, pattern: Seq<char>, b: Seq<char>)
    ensures
        contains_text(a + pattern + b, pattern),
        forall|s: Seq<char>| #[trigger]
            contains_text(s, pattern) ==> exists|x: Seq<char>, y: Seq<char>|
                s == #[trigger] ((x + pattern) + y),
{
    let all = a + pattern + b;
    assert(all.subrange(a.len() as int, a.len() as int + pattern.len()) =~= pattern);
    assert(occurs_at(all, pattern, a.len() as int));
    assert forall|s: Seq<char>| #[trigger] contains_text(s, pattern) implies exists|
        x: Seq<char>,
        y: Seq<char>,
    | s == #[trigger] ((x + pattern) + y) by {
        let at = choose|at: int| occurs_at(s, pattern, at);
        let x = s.take(at);
        let y = s.skip(at + pattern.len());
        assert((x + pattern) + y =~= s) by {
            assert(s.subrange(at, at + pattern.len()) == pattern);
            assert forall|i: int| 0 <= i < s.len() implies s[i] == ((x + pattern) + y)[i] by {
                if at <= i < at + pattern.len() {
                    assert(pattern[i - at] == s.subrange(at, at + pattern.len())[i - at]);
                }
            }
        }
    }
}

/// White space of any length between two texts parts their words, and at an end of a
/// text it counts for nothing.
pub proof fn words_of_padded(a: Seq<char>, pad: Seq<char>, b: Seq<char>)
    requires
        is_blank(pad),
        pad.len() > 0 || a.len() == 0 || b.len() == 0,
    ensures
        words_of(a + pad + b) == words_of(a) + words_of(b),
    decreases pad.len(),
{
    if pad.len() == 0 {
        if a.len() == 0 {
            assert(a + pad + b =~= b);
            assert(words_of(a) + words_of(b) =~= words_of(b));
        } else {
            assert(a + pad + b =~= a);
            assert(words_of(a) + words_of(b) =~= words_of(a));
        }
    } else {
        let shorter = pad.drop_last();
        assert(is_space(pad[pad.len() - 1]));
        assert forall|i: int| 0 <= i < shorter.len() implies is_space(#[trigger] shorter[i]) by {
            assert(is_space(pad[i]));
        }
        assert(a + pad + b =~= (a + shorter).push(pad.last()) + b);
        words_of_joined(a + shorter, pad.last(), b);
        words_of_padded(a, shorter, Seq::empty());
        assert(a + shorter + Seq::<char>::empty() =~= a + shorter);
        assert(words_of(a) + words_of(Seq::empty()) =~= words_of(a));
    }
}

/// The characters that count as white space are those of Unicode's property of that
/// name, and no others; no visible ASCII character is among them.
pub proof fn white_space_is_that_of_unicode(c: char)
    ensures
        is_space(c) <==> seq![
            0x9int,
            0xa,
            0xb,
            0xc,
            0xd,
            0x20,
            0x85,
            0xa0,
            0x1680,
            0x2000,
            0x2001,
            0x2002,
            0x2003,
            0x2004,
            0x2005,
            0x2006,
            0x2007,
            0x2008,
            0x2009,
            0x200a,
            0x2028,
            0x2029,
            0x202f,
            0x205f,
            0x3000,
        ].contains(c as int),
        '!' <= c <= '~' ==> !is_space(c),
{
    let points = seq![
        0x9int,
        0xa,
        0xb,
        0xc,
        0xd,
        0x20,
        0x85,
        0xa0,
        0x1680,
        0x2000,
        0x2001,
        0x2002,
        0x2003,
        0x2004,
        0x2005,
        0x2006,
        0x2007,
        0x2008,
        0x2009,
        0x200a,
        0x2028,
        0x2029,
        0x202f,
        0x205f,
        0x3000,
    ];
    let n = c as int;
    if is_space(c) {
        let at: int = if 0x9 <= n <= 0xd {
            n - 0x9
        } else if n == 0x20 {
            5
        } else if n == 0x85 {
            6
        } else if n == 0xa0 {
            7
        } else if n == 0x1680 {
            8
        } else if 0x2000 <= n <= 0x200a {
            n - 0x2000 + 9
        } else if n == 0x2028 {
            20
        } else if n == 0x2029 {
            21
        } else if n == 0x202f {
            22
        } else if n == 0x205f {
            23
        } else {
            24
        };
        assert(points[at] == n);
    }
}

/// A digit behind a number makes it ten times as large and adds the digit, so that
/// zeros in front of a number do not count. What stands for no number stays so.
pub proof fn digit_adds_a_place(s: Seq<char>, c: char, max: nat)
    requires
        '0' <= c <= '9',
        forall|i: int| 0 <= i < s.len() ==> '0' <= #[trigger] s[i] <= '9',
    ensures
        decimal_of(Seq::empty()) == 0,
        decimal_of(s.push(c)) == 10 * decimal_of(s) + (c as int - '0' as int),
        unsigned_of(s.push(c), max) == if decimal_of(s.push(c)) <= max {
            Some(decimal_of(s.push(c)))
        } else {
            None
        },
        signed_of(s.push(c)) == if decimal_of(s.push(c)) <= i64::MAX {
            Some(decimal_of(s.push(c)) as int)
        } else {
            None
        },
{
    let all = s.push(c);
    assert(all.drop_last() =~= s);
    assert forall|i: int| 0 <= i < all.len() implies is_digit(#[trigger] all[i]) by {
        if i < s.len() {
            assert(all[i] == s[i]);
        }
    }
    assert(all.first() != '+' && all.first() != '-') by {
        assert(is_digit(all[0]));
    }
    assert(is_number(all));
}

/// One sign may stand before a number, and nothing else but a digit: a plus sign changes
/// nothing, a minus sign takes a signed number below zero, and a sign alone is no number.
pub proof fn sign_stands_before_a_number(s: Seq<char>, c: char, max: nat)
    requires
        !('0' <= c <= '9'),
    ensures
        unsigned_of(Seq::empty(), max) is None,
        signed_of(Seq::empty()) is None,
        c != '+' ==> unsigned_of(seq![c] + s, max) is None,
        c != '+' && c != '-' ==> signed_of(seq![c] + s) is None,
        unsigned_of(seq!['+'], max) is None && signed_of(seq!['+']) is None,
        signed_of(seq!['-']) is None,
        s.len() > 0 && s[0] != '+' ==> unsigned_of(seq!['+'] + s, max) == unsigned_of(s, max),
        s.len() > 0 && s[0] != '+' && s[0] != '-' ==> signed_of(seq!['+'] + s) == signed_of(s),
        s.len() > 0 && s[0] != '+' && s[0] != '-' ==> signed_of(seq!['-'] + s) == match unsigned_of(
            s,
            0x8000_0000_0000_0000,
        ) {
            Some(n) => Some(-(n as int)),
            None => None,
        },
{
    let all = seq![c] + s;
    assert(all[0] == c);
    assert(!is_digit(all[0]));
    assert(!is_number(all));
    assert((seq!['+'] + s).drop_first() =~= s);
    assert((seq!['-'] + s).drop_first() =~= s);
    assert(seq!['+'].drop_first() =~= Seq::empty());
    assert(seq!['-'].drop_first() =~= Seq::empty());
    assert(!is_number(Seq::<char>::empty()));
}

/// Each character is replaced for itself: the one that is to go by the other, and every
/// other by itself.
pub proof fn characters_are_replaced_one_by_one(s: Seq<char>, from: char, to: char, i: int)
    requires
        0 <= i < s.len(),
    ensures
        replace_of(s, from, to).len() == s.len(),
        s[i] == from ==> replace_of(s, from, to)[i] == to,
        s[i] != from ==> replace_of(s, from, to)[i] == s[i],
{
}

} // verus!
