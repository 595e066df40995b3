//! Character-level helpers: splitting on a separator, decimal integers.
use vstd::prelude::*;

verus! {

/// The pieces of `s` between the leftmost, non-overlapping occurrences of
/// `sep`, given that the piece under construction began at `start` and that no
/// occurrence begins in `start..pos`.
pub open spec fn split_from(s: Seq<char>, sep: Seq<char>, start: int, pos: int) -> Seq<Seq<char>>
    recommends
        sep.len() > 0,
        0 <= start <= pos <= s.len(),
    decreases s.len() - pos,
{
    if sep.len() == 0 || pos < 0 || pos + sep.len() > s.len() {
        seq![s.subrange(start, s.len() as int)]
    } else if s.subrange(pos, pos + sep.len()) == sep {
        seq![s.subrange(start, pos)] + split_from(s, sep, pos + sep.len(), pos + sep.len())
    } else {
        split_from(s, sep, start, pos + 1)
    }
}

/// `s` split on every occurrence of the separator `sep`, leftmost first; an
/// empty separator occurs nowhere. The result always holds at least one
/// piece.
pub open spec fn split(s: Seq<char>, sep: Seq<char>) -> Seq<Seq<char>> {
    split_from(s, sep, 0, 0)
}

/// The views of a vector of strings.
pub open spec fn texts(v: Seq<String>) -> Seq<Seq<char>> {
    v.map_values(|s: String| s@)
}

/// `String::push` appends one character.
pub assume_specification[ String::push ](s: &mut String, ch: char)
    ensures
        final(s)@ == old(s)@.push(ch),
;

/// The characters of `s`, in order.
pub fn chars_of(s: &str) -> (v: Vec<char>)
    ensures
        v@ == s@,
{
    let mut v: Vec<char> = Vec::new();
    for c in it: s.chars()
        invariant
            v@ == s@.take(it.index() as int),
            it.seq() == s@,
    {
        v.push(c);
    }
    v
}

/// The string made of `chars[from..to]`.
pub fn string_of(chars: &Vec<char>, from: usize, to: usize) -> (s: String)
    requires
        from <= to <= chars.len(),
    ensures
        s@ == chars@.subrange(from as int, to as int),
{
    let mut s = String::new();
    let mut i: usize = from;
    while i < to
        invariant
            from <= i <= to <= chars.len(),
            s@ == chars@.subrange(from as int, i as int),
        decreases to - i,
    {
        s.push(chars[i]);
        i = i + 1;
    }
    s
}

/// Whether `sep` occurs in `s` at position `pos`.
pub fn occurs_at(s: &Vec<char>, sep: &Vec<char>, pos: usize) -> (r: bool)
    requires
        pos + sep.len() <= s.len(),
    ensures
        r == (s@.subrange(pos as int, pos + sep.len()) == sep@),
{
    let mut k: usize = 0;
    while k < sep.len()
        invariant
            k <= sep.len(),
            pos + sep.len() <= s.len(),
            s@.subrange(pos as int, pos + k) == sep@.take(k as int),
        decreases sep.len() - k,
    {
        if s[pos + k] != sep[k] {
            assert(s@.subrange(pos as int, pos + sep.len())[k as int] != sep@[k as int]);
            return false;
        }
        assert(s@.subrange(pos as int, pos + k + 1) =~= s@.subrange(pos as int, pos + k).push(
            s@[pos + k],
        ));
        assert(sep@.take(k + 1) =~= sep@.take(k as int).push(sep@[k as int]));
        k = k + 1;
    }
    assert(sep@.take(k as int) =~= sep@);
    true
}

/// Splits `s` on every occurrence of `sep`, as `str::split` does for a
/// non-empty pattern. An empty separator occurs nowhere.
pub fn split_chars(s: &Vec<char>, sep: &Vec<char>) -> (pieces: Vec<String>)
    ensures
        texts(pieces@) == split(s@, sep@),
        pieces.len() >= 1,
{
    let mut pieces: Vec<String> = Vec::new();
    let mut start: usize = 0;
    let mut pos: usize = 0;
    while 0 < sep.len() && sep.len() <= s.len() && pos <= s.len() - sep.len()
        invariant
            start <= pos <= s.len(),
            texts(pieces@) + split_from(s@, sep@, start as int, pos as int) == split(s@, sep@),
        decreases s.len() - pos,
    {
        if occurs_at(s, sep, pos) {
            let piece = string_of(s, start, pos);
            assert(texts(pieces@.push(piece)) =~= texts(pieces@) + seq![piece@]);
            pieces.push(piece);
            pos = pos + sep.len();
            start = pos;
        } else {
            pos = pos + 1;
        }
    }
    let piece = string_of(s, start, s.len());
    assert(texts(pieces@.push(piece)) =~= texts(pieces@) + seq![piece@]);
    pieces.push(piece);
    pieces
}

/// The pieces joined, with `sep` between each two.
pub open spec fn joined(pieces: Seq<Seq<char>>, sep: Seq<char>) -> Seq<char>
    decreases pieces.len(),
{
    if pieces.len() == 0 {
        Seq::empty()
    } else if pieces.len() == 1 {
        pieces[0]
    } else {
        pieces[0] + sep + joined(pieces.drop_first(), sep)
    }
}

/// Whether `piece`, read from `pos` on, departs from `sep` at a character
/// of its own.
pub open spec fn departs_at(piece: Seq<char>, sep: Seq<char>, pos: int) -> bool {
    exists|k: int|
        0 <= k < sep.len() && pos + k < piece.len() && piece[pos + k] != #[trigger] sep[k]
}

/// Whether no occurrence of `sep` can begin within `piece`, whatever
/// follows it.
pub open spec fn free_of(piece: Seq<char>, sep: Seq<char>) -> bool {
    forall|pos: int| 0 <= pos < piece.len() ==> #[trigger] departs_at(piece, sep, pos)
}

/// Scanning over positions at which the separator does not occur finds no
/// piece.
pub proof fn lemma_split_scan(s: Seq<char>, sep: Seq<char>, start: int, pos: int, upto: int)
    requires
        sep.len() > 0,
        0 <= pos <= upto <= s.len(),
        forall|q: int|
            pos <= q < upto && q + sep.len() <= s.len() ==> #[trigger] s.subrange(q, q + sep.len())
                != sep,
    ensures
        split_from(s, sep, start, pos) == split_from(s, sep, start, upto),
    decreases upto - pos,
{
    if pos < upto {
        if pos + sep.len() > s.len() {
        } else {
            assert(s.subrange(pos, pos + sep.len()) != sep);
            lemma_split_scan(s, sep, start, pos + 1, upto);
        }
    }
}

/// Splitting does not depend on what comes before the piece under
/// construction.
pub proof fn lemma_split_shift(prefix: Seq<char>, s: Seq<char>, sep: Seq<char>, start: int, pos: int)
    requires
        sep.len() > 0,
        0 <= start <= pos <= s.len(),
    ensures
        split_from(prefix + s, sep, prefix.len() + start, prefix.len() + pos) == split_from(
            s,
            sep,
            start,
            pos,
        ),
    decreases s.len() - pos,
{
    let whole = prefix + s;
    let shift = prefix.len() as int;
    assert(whole.subrange(shift + start, whole.len() as int) =~= s.subrange(
        start,
        s.len() as int,
    ));
    if pos + sep.len() <= s.len() {
        assert(whole.subrange(shift + pos, shift + pos + sep.len()) =~= s.subrange(
            pos,
            pos + sep.len(),
        ));
        assert(whole.subrange(shift + start, shift + pos) =~= s.subrange(start, pos));
        if s.subrange(pos, pos + sep.len()) == sep {
            lemma_split_shift(prefix, s, sep, pos + sep.len(), pos + sep.len());
        } else {
            lemma_split_shift(prefix, s, sep, start, pos + 1);
        }
    }
}

/// Within a piece that is free of the separator, followed by anything, the
/// separator does not occur.
pub proof fn lemma_no_occurrence(piece: Seq<char>, rest: Seq<char>, sep: Seq<char>)
    requires
        free_of(piece, sep),
    ensures
        forall|q: int|
            0 <= q < piece.len() && q + sep.len() <= (piece + rest).len() ==> #[trigger] (piece
                + rest).subrange(q, q + sep.len()) != sep,
{
    let whole = piece + rest;
    assert forall|q: int| 0 <= q < piece.len() && q + sep.len() <= whole.len() implies #[trigger] whole.subrange(
        q,
        q + sep.len(),
    ) != sep by {
        assert(departs_at(piece, sep, q));
        let k = choose|k: int|
            0 <= k < sep.len() && q + k < piece.len() && piece[q + k] != #[trigger] sep[k];
        assert(whole.subrange(q, q + sep.len())[k] == piece[q + k]);
    }
}

/// Splitting what was joined gives the pieces back, where each piece is
/// free of the separator.
pub proof fn lemma_split_joined(pieces: Seq<Seq<char>>, sep: Seq<char>)
    requires
        sep.len() > 0,
        pieces.len() >= 1,
        forall|i: int| 0 <= i < pieces.len() ==> free_of(#[trigger] pieces[i], sep),
    ensures
        split(joined(pieces, sep), sep) == pieces,
    decreases pieces.len(),
{
    let first = pieces[0];
    let text = joined(pieces, sep);
    if pieces.len() == 1 {
        lemma_no_occurrence(first, Seq::empty(), sep);
        assert(first + Seq::<char>::empty() =~= first);
        lemma_split_scan(text, sep, 0, 0, text.len() as int);
        assert(text.subrange(0, text.len() as int) =~= text);
        assert(split(text, sep) =~= pieces);
    } else {
        let others = pieces.drop_first();
        let tail = joined(others, sep);
        assert forall|i: int| 0 <= i < others.len() implies free_of(#[trigger] others[i], sep) by {
            assert(others[i] == pieces[i + 1]);
        }
        lemma_split_joined(others, sep);
        let at = first.len() as int;
        assert(text =~= first + (sep + tail));
        lemma_no_occurrence(first, sep + tail, sep);
        lemma_split_scan(text, sep, 0, 0, at);
        assert(text.subrange(at, at + sep.len()) =~= sep);
        assert(text.subrange(0, at) =~= first);
        assert(text =~= (first + sep) + tail);
        lemma_split_shift(first + sep, tail, sep, 0, 0);
        assert(split(text, sep) =~= seq![first] + others);
        assert(seq![first] + others =~= pieces);
    }
}

/// Whether `c` is one of the ten ASCII decimal digits.
pub open spec fn is_digit(c: char) -> bool {
    '0' <= c && c <= '9'
}

/// Whether every character of `s` is a decimal digit.
pub open spec fn all_digits(s: Seq<char>) -> bool {
    forall|i: int| 0 <= i < s.len() ==> is_digit(#[trigger] s[i])
}

/// The number that a decimal digit stands for.
pub open spec fn digit_value(c: char) -> int {
    c as u32 - '0' as u32
}

/// The number written by the digits `s`, most significant first.
pub open spec fn digits_value(s: Seq<char>) -> int
    decreases s.len(),
{
    if s.len() == 0 {
        0
    } else {
        digits_value(s.drop_last()) * 10 + digit_value(s.last())
    }
}

/// What a decimal integer of 64 bits reads as: an optional sign (`+` or `-`),
/// then one or more digits and nothing else; `None` where the text has another
/// shape or the number does not fit.
pub open spec fn parse_integer(s: Seq<char>) -> Option<i64> {
    let signed = s.len() > 0 && (s[0] == '-' || s[0] == '+');
    let body = if signed {
        s.skip(1)
    } else {
        s
    };
    let value = if signed && s[0] == '-' {
        -digits_value(body)
    } else {
        digits_value(body)
    };
    if body.len() > 0 && all_digits(body) && i64::MIN <= value <= i64::MAX {
        Some(value as i64)
    } else {
        None
    }
}

/// The digit that stands for `d`, for `d` below ten.
pub open spec fn digit_char(d: int) -> char {
    seq!['0', '1', '2', '3', '4', '5', '6', '7', '8', '9'][d]
}

/// The decimal digits of `n`, without leading zeros.
pub open spec fn decimal(n: nat) -> Seq<char>
    decreases n,
{
    if n < 10 {
        seq![digit_char(n as int)]
    } else {
        decimal(n / 10).push(digit_char((n % 10) as int))
    }
}

/// The decimal text of an integer: a minus sign for a negative number, then
/// its digits.
pub open spec fn format_integer(v: int) -> Seq<char> {
    if v < 0 {
        seq!['-'] + decimal((-v) as nat)
    } else {
        decimal(v as nat)
    }
}

/// Each digit stands for its own number.
pub proof fn lemma_digit_char(d: int)
    requires
        0 <= d < 10,
    ensures
        is_digit(digit_char(d)),
        digit_value(digit_char(d)) == d,
{
    if d == 0 {
    } else if d == 1 {
    } else if d == 2 {
    } else if d == 3 {
    } else if d == 4 {
    } else if d == 5 {
    } else if d == 6 {
    } else if d == 7 {
    } else if d == 8 {
    } else {
    }
}

/// A prefix of a digit string never reads as more than the whole string.
pub proof fn lemma_digits_value_prefix(s: Seq<char>, k: int)
    requires
        all_digits(s),
        0 <= k <= s.len(),
    ensures
        0 <= digits_value(s.take(k)) <= digits_value(s),
    decreases s.len(),
{
    if k == s.len() {
        assert(s.take(k) =~= s);
        if s.len() > 0 {
            lemma_digits_value_prefix(s.drop_last(), k - 1);
        }
    } else {
        assert(s.drop_last().take(k) =~= s.take(k));
        lemma_digits_value_prefix(s.drop_last(), k);
    }
}

/// The digits of a number are digits, and read back as that number.
pub proof fn lemma_decimal_reads_back(n: nat)
    ensures
        decimal(n).len() >= 1,
        all_digits(decimal(n)),
        digits_value(decimal(n)) == n,
    decreases n,
{
    if n < 10 {
        lemma_digit_char(n as int);
        assert(decimal(n).drop_last() =~= Seq::<char>::empty());
        assert(digits_value(Seq::<char>::empty()) == 0);
        assert(decimal(n).last() == digit_char(n as int));
    } else {
        lemma_decimal_reads_back(n / 10);
        lemma_digit_char((n % 10) as int);
        assert(decimal(n).drop_last() =~= decimal(n / 10));
        assert(decimal(n).last() == digit_char((n % 10) as int));
    }
}

/// Every 64-bit integer reads back from its decimal text.
pub proof fn lemma_parse_format(v: i64)
    ensures
        parse_integer(format_integer(v as int)) == Some(v),
{
    let text = format_integer(v as int);
    if v < 0 {
        lemma_decimal_reads_back((-v) as nat);
        assert(text.skip(1) =~= decimal((-v) as nat));
    } else {
        lemma_decimal_reads_back(v as nat);
        assert(is_digit(decimal(v as nat)[0]));
        assert(text[0] != '-' && text[0] != '+');
    }
}

/// Reads a decimal integer of 64 bits, as `str::parse::<i64>` does.
pub fn parse_i64(text: &str) -> (r: Option<i64>)
    ensures
        r == parse_integer(text@),
{
    let chars = chars_of(text);
    let n: usize = chars.len();
    if n == 0 {
        return None;
    }
    let negative: bool = chars[0] == '-';
    let first: usize = if chars[0] == '-' || chars[0] == '+' {
        1
    } else {
        0
    };
    if first == n {
        return None;
    }
    let ghost body = chars@.skip(first as int);
    let limit: u64 = if negative {
        9223372036854775808
    } else {
        9223372036854775807
    };
    let mut magnitude: u64 = 0;
    let mut i: usize = first;
    while i < n
        invariant
            first <= i <= n,
            n == chars.len(),
            chars@ == text@,
            negative == (chars@[0] == '-'),
            first == (if chars@[0] == '-' || chars@[0] == '+' { 1usize } else { 0usize }),
            limit == (if negative { 9223372036854775808u64 } else { 9223372036854775807u64 }),
            body == chars@.skip(first as int),
            all_digits(body.take(i - first)),
            magnitude == digits_value(body.take(i - first)),
            magnitude <= limit,
        decreases n - i,
    {
        let c: char = chars[i];
        if c < '0' || c > '9' {
            assert(!is_digit(body[i - first]));
            assert(body =~= (if first == 1 { text@.skip(1) } else { text@ }));
            return None;
        }
        let d: u64 = (c as u32 - '0' as u32) as u64;
        assert(d == digit_value(c) && d <= 9);
        assert(body.take(i - first + 1).drop_last() =~= body.take(i - first));
        assert(body.take(i - first + 1).last() == c);
        if magnitude > (limit - d) / 10 {
            proof {
                assert(body =~= (if first == 1 { text@.skip(1) } else { text@ }));
                assert(digits_value(body.take(i - first + 1)) == magnitude * 10 + d);
                assert(magnitude * 10 + d > limit);
                if all_digits(body) {
                    lemma_digits_value_prefix(body, i - first + 1);
                }
            }
            return None;
        }
        magnitude = magnitude * 10 + d;
        i = i + 1;
    }
    assert(body.take(n - first) =~= body);
    assert(body =~= (if first == 1 { text@.skip(1) } else { text@ }));
    if negative {
        if magnitude == 9223372036854775808 {
            Some(i64::MIN)
        } else {
            Some(-(magnitude as i64))
        }
    } else {
        Some(magnitude as i64)
    }
}

/// The decimal text of `n`.
pub fn decimal_string(n: u64) -> (s: String)
    ensures
        s@ == decimal(n as nat),
    decreases n,
{
    let digits: [char; 10] = ['0', '1', '2', '3', '4', '5', '6', '7', '8', '9'];
    if n < 10 {
        let mut s = String::new();
        s.push(digits[n as usize]);
        assert(s@ =~= decimal(n as nat));
        s
    } else {
        let mut s = decimal_string(n / 10);
        s.push(digits[(n % 10) as usize]);
        s
    }
}

} // verus!
