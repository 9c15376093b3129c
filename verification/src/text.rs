//! Byte-level and character-level helpers on UTF-8 text.
//!
//! A `&str` is modelled by its characters (`s@`) and by its encoding
//! (`s.spec_bytes()`); offsets are positions in the encoding.
use vstd::prelude::*;
use vstd::string::*;
use vstd::utf8::*;

verus! {

/// The byte that ends a line.
pub const NEWLINE: u8 = 0x0a;

/// `String::push` appends one character.
pub assume_specification[ String::push ](s: &mut String, c: char)
    ensures
        final(s)@ == old(s)@.push(c),
;

/// The encoding of a concatenation is the concatenation of the encodings.
pub proof fn lemma_encode_concat(a: Seq<char>, b: Seq<char>)
    ensures
        encode_utf8(a + b) == encode_utf8(a) + encode_utf8(b),
    decreases a.len(),
{
    if a.len() == 0 {
        assert(a + b =~= b);
        assert(encode_utf8(a) + encode_utf8(b) =~= encode_utf8(b));
    } else {
        assert((a + b).drop_first() =~= a.drop_first() + b);
        lemma_encode_concat(a.drop_first(), b);
        assert(encode_utf8(a + b) =~= encode_utf8(a) + encode_utf8(b));
    }
}

/// Two texts with the same encoding are the same text.
pub proof fn lemma_encode_injective(a: Seq<char>, b: Seq<char>)
    requires
        encode_utf8(a) == encode_utf8(b),
    ensures
        a == b,
{
    encode_utf8_decode_utf8(a);
    encode_utf8_decode_utf8(b);
}

/// The encoding of one character.
pub proof fn lemma_encode_one(c: char)
    ensures
        encode_utf8(seq![c]) == encode_scalar(c as u32),
        1 <= encode_scalar(c as u32).len() <= 4,
{
    reveal_with_fuel(encode_utf8, 2);
    assert(encode_utf8(seq![c]) =~= encode_scalar(c as u32));
}

/// A text is encoded in at least as many bytes as it has characters.
pub proof fn lemma_encode_len(a: Seq<char>)
    ensures
        a.len() <= encode_utf8(a).len() <= 4 * a.len(),
    decreases a.len(),
{
    if a.len() > 0 {
        lemma_encode_len(a.drop_first());
    }
}

/// The byte after an ASCII character is a character boundary.
pub proof fn lemma_boundary_after_ascii(bytes: Seq<u8>, i: int)
    requires
        valid_utf8(bytes),
        0 <= i < bytes.len(),
        bytes[i] < 0x80,
    ensures
        is_char_boundary(bytes, i),
        is_char_boundary(bytes, i + 1),
    decreases bytes.len(),
{
    is_char_boundary_iff_not_is_continuation_byte(bytes, i);
    reveal_with_fuel(is_char_boundary, 2);
    if i > 0 {
        let n = length_of_first_scalar(bytes);
        lemma_boundary_after_ascii(pop_first_scalar(bytes), i - n);
    }
}

/// A boundary of a text is a boundary of each of its prefixes that reach it.
pub proof fn lemma_boundary_in_prefix(bytes: Seq<u8>, i: int, end: int)
    requires
        valid_utf8(bytes),
        is_char_boundary(bytes, i),
        is_char_boundary(bytes, end),
        0 <= i <= end <= bytes.len(),
    ensures
        valid_utf8(bytes.subrange(0, end)),
        is_char_boundary(bytes.subrange(0, end), i),
{
    valid_utf8_split(bytes, end);
    let p = bytes.subrange(0, end);
    if i < end {
        is_char_boundary_iff_not_is_continuation_byte(bytes, i);
        is_char_boundary_iff_not_is_continuation_byte(p, i);
        assert(p[i] == bytes[i]);
    } else {
        is_char_boundary_start_end_of_seq(p);
    }
}

/// A boundary lies inside the text.
pub proof fn lemma_boundary_in_range(bytes: Seq<u8>, i: int)
    requires
        valid_utf8(bytes),
        is_char_boundary(bytes, i),
    ensures
        0 <= i <= bytes.len(),
{
}

/// The part of `source` between two character boundaries.
pub fn slice<'a>(source: &'a str, start: usize, end: usize) -> (r: &'a str)
    requires
        start <= end,
        is_char_boundary(source.spec_bytes(), start as int),
        is_char_boundary(source.spec_bytes(), end as int),
    ensures
        r.spec_bytes() == source.spec_bytes().subrange(start as int, end as int),
{
    proof {
        encode_utf8_valid_utf8(source@);
        lemma_boundary_in_range(source.spec_bytes(), end as int);
        lemma_boundary_in_prefix(source.spec_bytes(), start as int, end as int);
    }
    let (head, _rest) = source.split_at(end);
    let (_skipped, part) = head.split_at(start);
    proof {
        assert(part.spec_bytes() =~= source.spec_bytes().subrange(start as int, end as int));
    }
    part
}

/// Whether two texts are equal.
pub fn str_eq(a: &str, b: &str) -> (r: bool)
    ensures
        r == (a@ == b@),
{
    let x = a.as_bytes();
    let y = b.as_bytes();
    if x.len() != y.len() {
        return false;
    }
    let mut i: usize = 0;
    while i < x.len()
        invariant
            x@ == a.spec_bytes(),
            y@ == b.spec_bytes(),
            x@.len() == y@.len(),
            i <= x@.len(),
            forall|j: int| 0 <= j < i ==> x@[j] == y@[j],
        decreases x@.len() - i,
    {
        if x[i] != y[i] {
            return false;
        }
        i = i + 1;
    }
    proof {
        assert(x@ =~= y@);
        lemma_encode_injective(a@, b@);
    }
    true
}

/// Whether `bytes` begins with `prefix`.
pub open spec fn has_prefix(bytes: Seq<u8>, prefix: Seq<u8>) -> bool {
    prefix.len() <= bytes.len() && bytes.subrange(0, prefix.len() as int) == prefix
}

/// Whether `bytes` ends with `suffix`.
pub open spec fn has_suffix(bytes: Seq<u8>, suffix: Seq<u8>) -> bool {
    suffix.len() <= bytes.len() && bytes.subrange(
        bytes.len() - suffix.len(),
        bytes.len() as int,
    ) == suffix
}

/// Whether the bytes of `x` from `at` on begin with `y`.
pub open spec fn occurs_at(x: Seq<u8>, y: Seq<u8>, at: int) -> bool {
    0 <= at && at + y.len() <= x.len() && x.subrange(at, at + y.len()) == y
}

/// Tests whether `y` stands in `x` at position `at`.
pub fn bytes_at(x: &[u8], y: &[u8], at: usize) -> (r: bool)
    ensures
        r == occurs_at(x@, y@, at as int),
{
    if at > x.len() || y.len() > x.len() - at {
        return false;
    }
    let mut i: usize = 0;
    while i < y.len()
        invariant
            at + y@.len() <= x.len(),
            x.len() == x@.len(),
            i <= y@.len(),
            forall|j: int| 0 <= j < i ==> x@[at + j] == y@[j],
        decreases y@.len() - i,
    {
        if x[at + i] != y[i] {
            assert(x@.subrange(at as int, at + y@.len())[i as int] == x@[at + i]);
            return false;
        }
        i = i + 1;
    }
    assert(x@.subrange(at as int, at + y@.len()) =~= y@);
    true
}

/// Whether `s` begins with `prefix`.
pub fn starts_with(s: &str, prefix: &str) -> (r: bool)
    ensures
        r == has_prefix(s.spec_bytes(), prefix.spec_bytes()),
{
    bytes_at(s.as_bytes(), prefix.as_bytes(), 0)
}

/// Whether `s` ends with `suffix`.
pub fn ends_with(s: &str, suffix: &str) -> (r: bool)
    ensures
        r == has_suffix(s.spec_bytes(), suffix.spec_bytes()),
{
    let x = s.as_bytes();
    let y = suffix.as_bytes();
    if y.len() > x.len() {
        return false;
    }
    bytes_at(x, y, x.len() - y.len())
}

/// Where the line that holds `offset` starts: after the last newline before it.
pub open spec fn line_start(bytes: Seq<u8>, offset: int) -> int
    decreases offset,
{
    if offset <= 0 {
        0
    } else if bytes[offset - 1] == NEWLINE {
        offset
    } else {
        line_start(bytes, offset - 1)
    }
}

/// Where the line that holds `offset` ends: the first newline at or after it,
/// or the end of the text.
pub open spec fn line_end(bytes: Seq<u8>, offset: int) -> int
    decreases bytes.len() - offset,
{
    if offset >= bytes.len() {
        bytes.len() as int
    } else if bytes[offset] == NEWLINE {
        offset
    } else {
        line_end(bytes, offset + 1)
    }
}

/// A line starts at the beginning of the text or right after a newline, and
/// no newline stands between its start and the offset.
pub proof fn lemma_line_start(bytes: Seq<u8>, offset: int)
    requires
        0 <= offset <= bytes.len(),
    ensures
        0 <= line_start(bytes, offset) <= offset,
        line_start(bytes, offset) == 0 || bytes[line_start(bytes, offset) - 1] == NEWLINE,
        forall|i: int| line_start(bytes, offset) <= i < offset ==> bytes[i] != NEWLINE,
        line_start(bytes, line_start(bytes, offset)) == line_start(bytes, offset),
    decreases offset,
{
    if offset > 0 && bytes[offset - 1] != NEWLINE {
        lemma_line_start(bytes, offset - 1);
    }
}

/// A line ends at the end of the text or at a newline, and no newline stands
/// between the offset and that end.
pub proof fn lemma_line_end(bytes: Seq<u8>, offset: int)
    requires
        0 <= offset <= bytes.len(),
    ensures
        offset <= line_end(bytes, offset) <= bytes.len(),
        line_end(bytes, offset) == bytes.len() || bytes[line_end(bytes, offset)] == NEWLINE,
        forall|i: int| offset <= i < line_end(bytes, offset) ==> bytes[i] != NEWLINE,
        line_end(bytes, line_end(bytes, offset)) == line_end(bytes, offset),
    decreases bytes.len() - offset,
{
    if offset < bytes.len() && bytes[offset] != NEWLINE {
        lemma_line_end(bytes, offset + 1);
    }
}

/// Line starts and ends of valid text are character boundaries.
pub proof fn lemma_line_boundaries(bytes: Seq<u8>, offset: int)
    requires
        valid_utf8(bytes),
        0 <= offset <= bytes.len(),
    ensures
        is_char_boundary(bytes, line_start(bytes, offset)),
        is_char_boundary(bytes, line_end(bytes, offset)),
{
    lemma_line_start(bytes, offset);
    lemma_line_end(bytes, offset);
    is_char_boundary_start_end_of_seq(bytes);
    let s = line_start(bytes, offset);
    let e = line_end(bytes, offset);
    if s > 0 {
        lemma_boundary_after_ascii(bytes, s - 1);
    }
    if e < bytes.len() {
        lemma_boundary_after_ascii(bytes, e);
    }
}

/// Line starts do not decrease as the offset grows.
pub proof fn lemma_line_start_monotonic(bytes: Seq<u8>, a: int, b: int)
    requires
        0 <= a <= b <= bytes.len(),
    ensures
        line_start(bytes, a) <= line_start(bytes, b),
    decreases b,
{
    lemma_line_start(bytes, a);
    if a < b && bytes[b - 1] != NEWLINE {
        lemma_line_start_monotonic(bytes, a, b - 1);
    }
}

/// Line ends do not decrease as the offset grows.
pub proof fn lemma_line_end_monotonic(bytes: Seq<u8>, a: int, b: int)
    requires
        0 <= a <= b <= bytes.len(),
    ensures
        line_end(bytes, a) <= line_end(bytes, b),
    decreases bytes.len() - a,
{
    lemma_line_end(bytes, b);
    if a < b && bytes[a] != NEWLINE {
        lemma_line_end_monotonic(bytes, a + 1, b);
    }
}

/// The parts of `bytes` from `start` on that separators divide, the first of
/// them read up to `i`.
pub open spec fn split_parts(bytes: Seq<u8>, separator: u8, start: int, i: int) -> Seq<Seq<u8>>
    decreases bytes.len() - i,
{
    if i >= bytes.len() {
        seq![bytes.subrange(start, bytes.len() as int)]
    } else if bytes[i] == separator {
        seq![bytes.subrange(start, i)] + split_parts(bytes, separator, i + 1, i + 1)
    } else {
        split_parts(bytes, separator, start, i + 1)
    }
}

/// The encodings of several texts.
pub open spec fn encodings(parts: Seq<&str>) -> Seq<Seq<u8>> {
    parts.map_values(|part: &str| part.spec_bytes())
}

/// Splits a text at every occurrence of an ASCII separator.
pub fn split<'a>(s: &'a str, separator: u8) -> (parts: Vec<&'a str>)
    requires
        separator < 0x80,
    ensures
        encodings(parts@) == split_parts(s.spec_bytes(), separator, 0, 0),
        parts@.len() >= 1,
{
    let bytes = s.as_bytes();
    let mut parts: Vec<&'a str> = Vec::new();
    let mut start: usize = 0;
    let mut i: usize = 0;
    proof {
        encode_utf8_valid_utf8(s@);
        is_char_boundary_start_end_of_seq(bytes@);
        assert(encodings(parts@) + split_parts(bytes@, separator, 0, 0) =~= split_parts(
            bytes@,
            separator,
            0,
            0,
        ));
    }
    while i < bytes.len()
        invariant
            separator < 0x80,
            bytes@ == s.spec_bytes(),
            valid_utf8(bytes@),
            start <= i <= bytes@.len(),
            is_char_boundary(bytes@, start as int),
            split_parts(bytes@, separator, 0, 0) == encodings(parts@) + split_parts(
                bytes@,
                separator,
                start as int,
                i as int,
            ),
        decreases bytes@.len() - i,
    {
        if bytes[i] == separator {
            proof {
                lemma_boundary_after_ascii(bytes@, i as int);
            }
            let ghost before = parts@;
            let part = slice(s, start, i);
            parts.push(part);
            proof {
                assert(encodings(parts@) =~= encodings(before).push(part.spec_bytes()));
                assert(split_parts(bytes@, separator, 0, 0) =~= encodings(parts@) + split_parts(
                    bytes@,
                    separator,
                    i + 1,
                    i + 1,
                ));
            }
            start = i + 1;
        }
        i = i + 1;
    }
    proof {
        is_char_boundary_start_end_of_seq(bytes@);
    }
    let ghost before = parts@;
    let part = slice(s, start, bytes.len());
    parts.push(part);
    assert(encodings(parts@) =~= encodings(before).push(part.spec_bytes()));
    assert(encodings(parts@) =~= split_parts(bytes@, separator, 0, 0));
    parts
}

/// The decimal digit `d`.
pub open spec fn digit(d: nat) -> char {
    ('0' as u32 + d) as char
}

/// The decimal notation of a number, without leading zeros.
pub open spec fn decimal(n: nat) -> Seq<char>
    decreases n,
{
    if n < 10 {
        seq![digit(n)]
    } else {
        decimal(n / 10).push(digit(n % 10))
    }
}

/// Appends the decimal notation of `n`.
pub fn push_decimal(out: &mut String, n: u64)
    ensures
        final(out)@ == old(out)@ + decimal(n as nat),
    decreases n,
{
    if n >= 10 {
        push_decimal(out, n / 10);
    }
    let d: u64 = n % 10;
    let c: char = if d == 0 {
        '0'
    } else if d == 1 {
        '1'
    } else if d == 2 {
        '2'
    } else if d == 3 {
        '3'
    } else if d == 4 {
        '4'
    } else if d == 5 {
        '5'
    } else if d == 6 {
        '6'
    } else if d == 7 {
        '7'
    } else if d == 8 {
        '8'
    } else {
        '9'
    };
    out.push(c);
    assert(out@ =~= old(out)@ + decimal(n as nat));
}

/// Whether a byte is an ASCII decimal digit.
pub open spec fn is_digit(b: u8) -> bool {
    0x30 <= b <= 0x39
}

/// The number that a run of decimal digits denotes.
pub open spec fn digits_value(bytes: Seq<u8>) -> nat
    decreases bytes.len(),
{
    if bytes.len() == 0 {
        0
    } else {
        digits_value(bytes.drop_last()) * 10 + (bytes.last() - 0x30) as nat
    }
}

/// The digits of a number that may carry a plus sign in front.
pub open spec fn unsigned_digits(bytes: Seq<u8>) -> Seq<u8> {
    if bytes.len() > 0 && bytes[0] == 0x2b {
        bytes.subrange(1, bytes.len() as int)
    } else {
        bytes
    }
}

/// The unsigned number that a text denotes, when it is at most `max`: an
/// optional plus sign and at least one digit, and nothing else.
pub open spec fn parsed_unsigned(bytes: Seq<u8>, max: nat) -> Option<nat> {
    let digits = unsigned_digits(bytes);
    if digits.len() > 0 && (forall|i: int| 0 <= i < digits.len() ==> is_digit(#[trigger] digits[i]))
        && digits_value(digits) <= max {
        Some(digits_value(digits))
    } else {
        None
    }
}

proof fn lemma_digits_value_monotonic(bytes: Seq<u8>, i: int)
    requires
        0 <= i <= bytes.len(),
        forall|j: int| 0 <= j < bytes.len() ==> is_digit(#[trigger] bytes[j]),
    ensures
        digits_value(bytes.subrange(0, i)) <= digits_value(bytes),
    decreases bytes.len(),
{
    if i == bytes.len() {
        assert(bytes.subrange(0, i) =~= bytes);
    } else {
        let shorter = bytes.drop_last();
        assert(shorter.subrange(0, i) =~= bytes.subrange(0, i));
        assert forall|j: int| 0 <= j < shorter.len() implies is_digit(#[trigger] shorter[j]) by {
            assert(shorter[j] == bytes[j]);
        }
        lemma_digits_value_monotonic(shorter, i);
        assert(is_digit(bytes[bytes.len() - 1]));
    }
}

/// Reads an unsigned number no larger than `max`.
fn parse_unsigned(bytes: &[u8], max: u64) -> (r: Option<u64>)
    ensures
        match r {
            Some(n) => parsed_unsigned(bytes@, max as nat) == Some(n as nat),
            None => parsed_unsigned(bytes@, max as nat) is None,
        },
{
    let first: usize = if bytes.len() > 0 && bytes[0] == 0x2b {
        1
    } else {
        0
    };
    let ghost digits = unsigned_digits(bytes@);
    assert(digits =~= bytes@.subrange(first as int, bytes@.len() as int));
    if first == bytes.len() {
        return None;
    }
    let mut value: u64 = 0;
    let mut i: usize = first;
    while i < bytes.len()
        invariant
            first <= i <= bytes@.len(),
            digits == bytes@.subrange(first as int, bytes@.len() as int),
            digits == unsigned_digits(bytes@),
            forall|j: int| 0 <= j < i - first ==> is_digit(#[trigger] digits[j]),
            value == digits_value(digits.subrange(0, i - first)),
            value <= max,
        decreases bytes@.len() - i,
    {
        let b: u8 = bytes[i];
        assert(b == digits[i - first]);
        if b < 0x30 || b > 0x39 {
            assert(!is_digit(digits[i - first]));
            return None;
        }
        let ghost prefix = digits.subrange(0, i - first + 1);
        assert(prefix.drop_last() =~= digits.subrange(0, i - first));
        let d: u64 = (b - 0x30) as u64;
        let fits = match value.checked_mul(10) {
            Some(tens) => match tens.checked_add(d) {
                Some(next) => next <= max,
                None => false,
            },
            None => false,
        };
        if !fits {
            proof {
                assert(digits_value(prefix) > max);
                if forall|j: int| 0 <= j < digits.len() ==> is_digit(#[trigger] digits[j]) {
                    lemma_digits_value_monotonic(digits, i - first + 1);
                }
            }
            return None;
        }
        value = value * 10 + d;
        i = i + 1;
    }
    assert(digits.subrange(0, i - first) =~= digits);
    Some(value)
}

/// Reads a `u32` as the standard library does: an optional plus sign and
/// decimal digits whose value fits.
pub fn parse_u32(s: &str) -> (r: Option<u32>)
    ensures
        match r {
            Some(n) => parsed_unsigned(s.spec_bytes(), u32::MAX as nat) == Some(n as nat),
            None => parsed_unsigned(s.spec_bytes(), u32::MAX as nat) is None,
        },
{
    match parse_unsigned(s.as_bytes(), 0xffff_ffff) {
        Some(n) => Some(n as u32),
        None => None,
    }
}

/// Reads a `usize` as the standard library does.
pub fn parse_usize(s: &str) -> (r: Option<usize>)
    ensures
        match r {
            Some(n) => parsed_unsigned(s.spec_bytes(), usize::MAX as nat) == Some(n as nat),
            None => parsed_unsigned(s.spec_bytes(), usize::MAX as nat) is None,
        },
{
    match parse_unsigned(s.as_bytes(), usize::MAX as u64) {
        Some(n) => Some(n as usize),
        None => None,
    }
}

/// The first position from `from` on at which `y` stands in `x`.
pub open spec fn first_occurrence(x: Seq<u8>, y: Seq<u8>, from: int) -> Option<int>
    decreases x.len() - from + 1,
{
    if from < 0 || from > x.len() {
        None
    } else if occurs_at(x, y, from) {
        Some(from)
    } else {
        first_occurrence(x, y, from + 1)
    }
}

/// Finds the first position from `from` on at which `y` stands in `x`.
pub fn find_bytes(x: &[u8], y: &[u8], from: usize) -> (r: Option<usize>)
    ensures
        match r {
            Some(i) => first_occurrence(x@, y@, from as int) == Some(i as int) && from <= i
                && i + y@.len() <= x@.len() && occurs_at(x@, y@, i as int),
            None => first_occurrence(x@, y@, from as int) is None,
        },
{
    let len: usize = x.len();
    if from > len {
        return None;
    }
    let mut i: usize = from;
    loop
        invariant
            from <= i <= len,
            len == x@.len(),
            first_occurrence(x@, y@, from as int) == first_occurrence(x@, y@, i as int),
        decreases len - i,
    {
        if bytes_at(x, y, i) {
            return Some(i);
        }
        if i == len {
            assert(first_occurrence(x@, y@, i + 1) is None);
            return None;
        }
        i = i + 1;
    }
}

/// The first position of a byte from `i` on, or the end.
pub open spec fn first_byte(bytes: Seq<u8>, b: u8, i: int) -> int
    decreases bytes.len() - i,
{
    if i >= bytes.len() {
        bytes.len() as int
    } else if bytes[i] == b {
        i
    } else {
        first_byte(bytes, b, i + 1)
    }
}

/// Finds a byte from `from` on.
pub fn find_byte(bytes: &[u8], b: u8, from: usize) -> (r: usize)
    requires
        from <= bytes@.len(),
    ensures
        r == first_byte(bytes@, b, from as int),
        from <= r <= bytes@.len(),
        r < bytes@.len() ==> bytes@[r as int] == b,
{
    let mut i: usize = from;
    while i < bytes.len() && bytes[i] != b
        invariant
            from <= i <= bytes@.len(),
            first_byte(bytes@, b, from as int) == first_byte(bytes@, b, i as int),
        decreases bytes@.len() - i,
    {
        i = i + 1;
    }
    i
}

/// Where a byte is found: at the first position that holds it.
pub proof fn lemma_first_byte(bytes: Seq<u8>, b: u8, from: int, at: int)
    requires
        0 <= from <= at <= bytes.len(),
        at == bytes.len() || bytes[at] == b,
        forall|i: int| from <= i < at ==> bytes[i] != b,
    ensures
        first_byte(bytes, b, from) == at,
    decreases at - from,
{
    if from < at {
        lemma_first_byte(bytes, b, from + 1, at);
    }
}

/// Writing a number and reading it back gives the number.
pub proof fn law_parse_decimal(n: nat, max: nat)
    requires
        n <= max,
    ensures
        parsed_unsigned(encode_utf8(decimal(n)), max) == Some(n),
{
    lemma_decimal_ascii(n);
    let bytes = encode_utf8(decimal(n));
    assert(unsigned_digits(bytes) == bytes) by {
        assert(is_digit(bytes[0]));
    }
}

/// The notation of a number is made of digits that denote it.
pub proof fn lemma_decimal_ascii(n: nat)
    ensures
        encode_utf8(decimal(n)).len() > 0,
        forall|i: int|
            0 <= i < encode_utf8(decimal(n)).len() ==> is_digit(
                #[trigger] encode_utf8(decimal(n))[i],
            ),
        digits_value(encode_utf8(decimal(n))) == n,
    decreases n,
{
    let c = digit(n % 10);
    let d = (n % 10) as u8;
    let byte = (0x30 + d) as u8;
    lemma_encode_one(c);
    assert(leading_byte_width_1(c as u32) == byte) by {
        let s = c as u32;
        assert(s == 0x30 + d as u32);
        assert((s & 0x7f) as u8 == s as u8) by (bit_vector)
            requires
                s < 0x80,
        ;
    }
    assert(encode_scalar(c as u32) =~= seq![byte]);
    if n < 10 {
        assert(n % 10 == n);
        reveal_with_fuel(digits_value, 2);
        assert(seq![byte].drop_last() =~= Seq::<u8>::empty());
    } else {
        lemma_decimal_ascii(n / 10);
        let rest = encode_utf8(decimal(n / 10));
        assert(decimal(n) =~= decimal(n / 10) + seq![c]);
        lemma_encode_concat(decimal(n / 10), seq![c]);
        let bytes = encode_utf8(decimal(n));
        assert(bytes =~= rest.push(byte));
        assert(bytes.drop_last() =~= rest);
        assert forall|i: int| 0 <= i < bytes.len() implies is_digit(#[trigger] bytes[i]) by {
            if i < rest.len() {
                assert(bytes[i] == rest[i]);
                assert(is_digit(rest[i]));
            }
        }
    }
}

/// Whether a character is white space: whether it has Unicode's property
/// `White_Space`.
pub open spec fn whitespace(c: char) -> bool {
    ||| '\u{9}' <= c <= '\u{d}'
    ||| c == ' '
    ||| c == '\u{85}'
    ||| c == '\u{a0}'
    ||| c == '\u{1680}'
    ||| '\u{2000}' <= c <= '\u{200a}'
    ||| c == '\u{2028}'
    ||| c == '\u{2029}'
    ||| c == '\u{202f}'
    ||| c == '\u{205f}'
    ||| c == '\u{3000}'
}

/// Tests whether a character is white space.
fn is_whitespace(c: char) -> (r: bool)
    ensures
        r == whitespace(c),
{
    ('\u{9}' <= c && c <= '\u{d}') || c == ' ' || c == '\u{85}' || c == '\u{a0}' || c
        == '\u{1680}' || ('\u{2000}' <= c && c <= '\u{200a}') || c == '\u{2028}' || c
        == '\u{2029}' || c == '\u{202f}' || c == '\u{205f}' || c == '\u{3000}'
}

/// Whether nothing of a text is left when it is trimmed.
pub open spec fn blank(text: Seq<char>) -> bool {
    forall|i: int| 0 <= i < text.len() ==> whitespace(#[trigger] text[i])
}

/// Tests whether nothing of a text is left when it is trimmed.
pub fn is_blank(text: &str) -> (r: bool)
    ensures
        r == blank(text@),
{
    let len: usize = text.unicode_len();
    let mut i: usize = 0;
    while i < len
        invariant
            i <= len == text@.len(),
            forall|k: int| 0 <= k < i ==> whitespace(#[trigger] text@[k]),
        decreases len - i,
    {
        if !is_whitespace(text.get_char(i)) {
            return false;
        }
        i = i + 1;
    }
    true
}

/// A text without the white space at its ends.
pub open spec fn trimmed(text: Seq<char>) -> Seq<char>
    decreases text.len(),
{
    if text.len() == 0 {
        text
    } else if whitespace(text[0]) {
        trimmed(text.drop_first())
    } else if whitespace(text.last()) {
        trimmed(text.drop_last())
    } else {
        text
    }
}

/// Takes the white space off the ends of a text.
pub fn trim(text: &str) -> (r: String)
    ensures
        r@ == trimmed(text@),
{
    let len: usize = text.unicode_len();
    let mut start: usize = 0;
    assert(text@.subrange(0, len as int) =~= text@);
    while start < len && is_whitespace(text.get_char(start))
        invariant
            start <= len == text@.len(),
            trimmed(text@) == trimmed(text@.subrange(start as int, len as int)),
        decreases len - start,
    {
        proof {
            let rest = text@.subrange(start as int, len as int);
            assert(rest[0] == text@[start as int]);
            assert(rest.drop_first() =~= text@.subrange(start + 1, len as int));
        }
        start = start + 1;
    }
    let mut end: usize = len;
    while end > start && is_whitespace(text.get_char(end - 1))
        invariant
            start <= end <= len == text@.len(),
            start < end ==> !whitespace(text@[start as int]),
            trimmed(text@) == trimmed(text@.subrange(start as int, end as int)),
        decreases end,
    {
        proof {
            let rest = text@.subrange(start as int, end as int);
            assert(rest[0] == text@[start as int]);
            assert(rest.last() == text@[end - 1]);
            assert(rest.drop_last() =~= text@.subrange(start as int, end - 1));
        }
        end = end - 1;
    }
    let ghost kept = text@.subrange(start as int, end as int);
    proof {
        if start < end {
            assert(kept[0] == text@[start as int]);
            assert(kept.last() == text@[end - 1]);
        }
        assert(trimmed(kept) == kept);
    }
    let mut r = String::new();
    let mut i: usize = start;
    while i < end
        invariant
            start <= i <= end <= len == text@.len(),
            r@ == text@.subrange(start as int, i as int),
        decreases end - i,
    {
        r.push(text.get_char(i));
        i = i + 1;
        assert(r@ =~= text@.subrange(start as int, i as int));
    }
    r
}

/// Trimming leaves nothing to trim.
pub proof fn law_trim_twice(text: Seq<char>)
    ensures
        trimmed(trimmed(text)) == trimmed(text),
    decreases text.len(),
{
    if text.len() > 0 {
        if whitespace(text[0]) {
            law_trim_twice(text.drop_first());
        } else if whitespace(text.last()) {
            law_trim_twice(text.drop_last());
        }
    }
}

/// Whether a text holds another as one piece.
#[verifier::opaque]
pub open spec fn holds(text: Seq<u8>, part: Seq<u8>) -> bool {
    exists|at: int|
        0 <= at && at + part.len() <= text.len() && #[trigger] text.subrange(
            at,
            at + part.len(),
        ) == part
}

/// A text holds what any of three texts that it is made of holds.
pub proof fn lemma_holds(before: Seq<u8>, text: Seq<u8>, after: Seq<u8>, part: Seq<u8>)
    requires
        holds(text, part),
    ensures
        holds(before + text + after, part),
{
    reveal(holds);
    let at = choose|at: int|
        0 <= at && at + part.len() <= text.len() && #[trigger] text.subrange(at, at + part.len())
            == part;
    let all = before + text + after;
    let there = before.len() + at;
    assert(all.subrange(there, there + part.len()) =~= text.subrange(at, at + part.len()));
}

/// A text holds itself and each of its parts.
pub proof fn lemma_holds_part(text: Seq<u8>, start: int, end: int)
    requires
        0 <= start <= end <= text.len(),
    ensures
        holds(text, text.subrange(start, end)),
{
    reveal(holds);
    assert(text.subrange(start, start + (end - start)) == text.subrange(start, end));
}

/// A text holds itself.
pub proof fn lemma_holds_itself(text: Seq<u8>)
    ensures
        holds(text, text),
{
    lemma_holds_part(text, 0, text.len() as int);
    assert(text.subrange(0, text.len() as int) =~= text);
}

/// Splitting loses nothing: the parts, each followed by the separator, are the text
/// followed by one, and no part holds the separator.
pub proof fn law_split_loses_nothing(bytes: Seq<u8>, separator: u8)
    ensures
        split_parts(bytes, separator, 0, 0).map_values(
            |part: Seq<u8>| part.push(separator),
        ).flatten() == bytes.push(separator),
        forall|k: int|
            0 <= k < split_parts(bytes, separator, 0, 0).len() ==> !(#[trigger] split_parts(
                bytes,
                separator,
                0,
                0,
            )[k]).contains(separator),
{
    lemma_split_from(bytes, separator, 0, 0);
    assert(bytes.skip(0) =~= bytes);
}

proof fn lemma_split_from(bytes: Seq<u8>, separator: u8, start: int, i: int)
    requires
        0 <= start <= i <= bytes.len(),
        forall|j: int| start <= j < i ==> bytes[j] != separator,
    ensures
        split_parts(bytes, separator, start, i).map_values(
            |part: Seq<u8>| part.push(separator),
        ).flatten() == bytes.skip(start).push(separator),
        forall|k: int|
            0 <= k < split_parts(bytes, separator, start, i).len() ==> !(#[trigger] split_parts(
                bytes,
                separator,
                start,
                i,
            )[k]).contains(separator),
    decreases bytes.len() - i,
{
    let ended = |part: Seq<u8>| part.push(separator);
    let parts = split_parts(bytes, separator, start, i);
    if i >= bytes.len() {
        let part = bytes.subrange(start, bytes.len() as int);
        assert(parts == seq![part]);
        assert(parts.map_values(ended) =~= seq![part.push(separator)]);
        seq![part.push(separator)].lemma_flatten_one_element();
        assert(part =~= bytes.skip(start));
    } else if bytes[i] == separator {
        let part = bytes.subrange(start, i);
        let rest = split_parts(bytes, separator, i + 1, i + 1);
        lemma_split_from(bytes, separator, i + 1, i + 1);
        assert(parts == seq![part] + rest);
        assert(parts.map_values(ended) =~= seq![part.push(separator)] + rest.map_values(ended));
        vstd::seq_lib::lemma_flatten_concat(
            seq![part.push(separator)],
            rest.map_values(ended),
        );
        seq![part.push(separator)].lemma_flatten_one_element();
        assert(part.push(separator) + bytes.skip(i + 1).push(separator) =~= bytes.skip(
            start,
        ).push(separator));
        assert forall|k: int| 0 <= k < parts.len() implies !(#[trigger] parts[k]).contains(
            separator,
        ) by {
            if k > 0 {
                assert(parts[k] == rest[k - 1]);
            }
        }
    } else {
        lemma_split_from(bytes, separator, start, i + 1);
    }
}

/// What is found is the first occurrence, and nothing is found only where there is
/// none.
pub proof fn law_first_occurrence(x: Seq<u8>, y: Seq<u8>, from: int)
    requires
        0 <= from,
    ensures
        match first_occurrence(x, y, from) {
            Some(i) => {
                &&& from <= i <= x.len() - y.len()
                &&& x.subrange(i, i + y.len()) == y
                &&& forall|j: int|
                    from <= j < i ==> #[trigger] x.subrange(j, j + y.len()) != y
            },
            None => forall|j: int|
                from <= j <= x.len() - y.len() ==> #[trigger] x.subrange(j, j + y.len()) != y,
        },
    decreases x.len() - from + 1,
{
    if from <= x.len() && !occurs_at(x, y, from) {
        law_first_occurrence(x, y, from + 1);
    }
}

/// A byte is found at the first position that holds it; the end stands for none.
pub proof fn law_first_byte(bytes: Seq<u8>, b: u8, from: int)
    requires
        0 <= from <= bytes.len(),
    ensures
        from <= first_byte(bytes, b, from) <= bytes.len(),
        first_byte(bytes, b, from) < bytes.len() ==> bytes[first_byte(bytes, b, from)] == b,
        forall|i: int| from <= i < first_byte(bytes, b, from) ==> bytes[i] != b,
    decreases bytes.len() - from,
{
    if from < bytes.len() && bytes[from] != b {
        law_first_byte(bytes, b, from + 1);
    }
}

/// Whether a text stands in another one with nothing but white space around it.
pub open spec fn is_padded(text: Seq<char>, before: Seq<char>, middle: Seq<char>, after: Seq<char>) -> bool {
    text == before + middle + after && blank(before) && blank(after)
}

/// Trimming takes white space off both ends and nothing else, and all of it.
pub proof fn law_trim_takes_white_space(text: Seq<char>)
    ensures
        exists|before: Seq<char>, after: Seq<char>| #[trigger]
            is_padded(text, before, trimmed(text), after),
        trimmed(text).len() > 0 ==> !whitespace(trimmed(text)[0]) && !whitespace(
            trimmed(text).last(),
        ),
    decreases text.len(),
{
    if text.len() == 0 {
        assert(is_padded(text, Seq::empty(), trimmed(text), Seq::empty())) by {
            assert(Seq::<char>::empty() + text + Seq::<char>::empty() =~= text);
        }
    } else if whitespace(text[0]) {
        law_trim_takes_white_space(text.drop_first());
        let (before, after) = choose|before: Seq<char>, after: Seq<char>| #[trigger]
            is_padded(text.drop_first(), before, trimmed(text), after);
        let more = seq![text[0]] + before;
        assert(more + trimmed(text) + after =~= seq![text[0]] + text.drop_first());
        assert(seq![text[0]] + text.drop_first() =~= text);
        assert(is_padded(text, more, trimmed(text), after));
    } else if whitespace(text.last()) {
        law_trim_takes_white_space(text.drop_last());
        let (before, after) = choose|before: Seq<char>, after: Seq<char>| #[trigger]
            is_padded(text.drop_last(), before, trimmed(text), after);
        let more = after.push(text.last());
        assert(before + trimmed(text) + more =~= text.drop_last().push(text.last()));
        assert(text.drop_last().push(text.last()) =~= text);
        assert(is_padded(text, before, trimmed(text), more));
    } else {
        assert(is_padded(text, Seq::empty(), trimmed(text), Seq::empty())) by {
            assert(Seq::<char>::empty() + text + Seq::<char>::empty() =~= text);
        }
    }
}

/// What is put in front of a text is a prefix of the whole, what is put behind it a
/// suffix, and there are no other prefixes and suffixes.
pub proof fn law_prefix_and_suffix(a: Seq<u8>, b: Seq<u8>, whole: Seq<u8>)
    ensures
        has_prefix(a + b, a),
        has_suffix(a + b, b),
        has_prefix(whole, a) ==> whole == a + whole.skip(a.len() as int),
        has_suffix(whole, b) ==> whole == whole.take(whole.len() - b.len()) + b,
{
    assert((a + b).subrange(0, a.len() as int) =~= a);
    assert((a + b).subrange((a + b).len() - b.len(), (a + b).len() as int) =~= b);
    if has_prefix(whole, a) {
        assert(whole =~= whole.subrange(0, a.len() as int) + whole.skip(a.len() as int));
    }
    if has_suffix(whole, b) {
        assert(whole =~= whole.take(whole.len() - b.len()) + whole.subrange(
            whole.len() - b.len(),
            whole.len() as int,
        ));
    }
}

/// The notation of a number has only the digits from 0 to 9, and no zero in front but
/// for zero itself.
pub proof fn law_decimal_digits(n: nat)
    ensures
        decimal(n).len() > 0,
        forall|i: int| 0 <= i < decimal(n).len() ==> '0' <= #[trigger] decimal(n)[i] <= '9',
        decimal(n)[0] == '0' <==> n == 0,
        n == 0 ==> decimal(n).len() == 1,
    decreases n,
{
    if n >= 10 {
        law_decimal_digits(n / 10);
        assert(decimal(n)[0] == decimal(n / 10)[0]);
    }
}

/// Another digit behind a number makes it ten times as large and adds the digit.
pub proof fn law_decimal_step(n: nat, d: nat)
    requires
        n > 0,
        d < 10,
    ensures
        decimal(10 * n + d).len() == decimal(n).len() + 1,
        decimal(10 * n + d).drop_last() == decimal(n),
        decimal(10 * n + d).last() as u32 == '0' as u32 + d,
{
    assert((10 * n + d) / 10 == n);
    assert((10 * n + d) % 10 == d);
    assert(decimal(10 * n + d).drop_last() =~= decimal(n));
}

} // verus!
