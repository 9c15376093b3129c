//! Wire codec for the page-image preview protocol.
//!
//! Frames are **binary**: an ASCII header up to the first `\n`, then a payload.
//! Parsing therefore works over `&[u8]` and must not go through `str`, since a
//! `raw` payload is arbitrary bytes.
//!
//! Numbers with a fraction are carried by the bits of their single-precision
//! representation, or as text where they are only passed on.
use crate::text::{
    bytes_at, decimal, encodings, has_prefix, is_digit, law_parse_decimal, lemma_encode_concat,
    lemma_encode_injective, lemma_encode_one, parse_u32, parsed_unsigned, push_decimal,
    slice, split, split_parts, str_eq, NEWLINE,
};
use std::ops::Range;
use vstd::prelude::*;
use vstd::string::*;
use vstd::utf8::*;

verus! {

/// WebSocket subprotocol that selects this protocol at connect.
///
/// The server echoes it when the mode is available and refuses the upgrade
/// otherwise, so a refused upgrade means that the server is too old rather than
/// that the connection failed.
pub const SUBPROTOCOL: &'static str = "tinymist-page-image-v1";

/// Largest frame we will accept, matching the server's own raster budget.
///
/// The header is the only description of the payload, so an implausible length
/// must be rejected before it becomes an allocation.
pub const MAX_FRAME_BYTES: usize = 0x1000_0000;

/// Identifies a page by the inputs that determine its rendering.
///
/// Opaque and fixed-width: the value only ever has to round-trip and compare,
/// and a collision would draw the *wrong page* with no detectable error, so it
/// is stored whole rather than narrowed.
#[derive(Clone, Copy, PartialEq, Eq, Hash, Debug, PartialOrd, Ord, Structural)]
pub struct ContentId(pub u128);

/// The hexadecimal digit `d`, in lower case.
pub open spec fn hex_digit(d: nat) -> char {
    if d < 10 {
        ('0' as u32 + d) as char
    } else {
        ('a' as u32 + (d - 10)) as char
    }
}

/// The last `width` hexadecimal digits of a number.
pub open spec fn hex_digits(n: nat, width: nat) -> Seq<char>
    decreases width,
{
    if width == 0 {
        Seq::empty()
    } else {
        hex_digits(n / 16, (width - 1) as nat).push(hex_digit(n % 16))
    }
}

/// The value of a hexadecimal digit in either case.
pub open spec fn hex_value(b: u8) -> Option<nat> {
    if 0x30 <= b <= 0x39 {
        Some((b - 0x30) as nat)
    } else if 0x61 <= b <= 0x66 {
        Some((b - 0x61 + 10) as nat)
    } else if 0x41 <= b <= 0x46 {
        Some((b - 0x41 + 10) as nat)
    } else {
        None
    }
}

/// The number that hexadecimal digits denote.
pub open spec fn hex_number(bytes: Seq<u8>) -> nat
    decreases bytes.len(),
{
    if bytes.len() == 0 {
        0
    } else {
        hex_number(bytes.drop_last()) * 16 + hex_value(bytes.last())->0
    }
}

/// The content id that a text denotes: 32 hexadecimal digits.
pub open spec fn parsed_id(bytes: Seq<u8>) -> Option<nat> {
    if bytes.len() == 32 && forall|i: int|
        0 <= i < bytes.len() ==> hex_value(#[trigger] bytes[i]) is Some {
        Some(hex_number(bytes))
    } else {
        None
    }
}

/// Sixteen to the power `n`.
pub open spec fn pow16(n: nat) -> nat
    decreases n,
{
    if n == 0 {
        1
    } else {
        16 * pow16((n - 1) as nat)
    }
}

proof fn lemma_hex_number_bound(bytes: Seq<u8>)
    requires
        forall|i: int| 0 <= i < bytes.len() ==> hex_value(#[trigger] bytes[i]) is Some,
    ensures
        hex_number(bytes) < pow16(bytes.len()),
    decreases bytes.len(),
{
    if bytes.len() > 0 {
        let shorter = bytes.drop_last();
        assert forall|i: int| 0 <= i < shorter.len() implies hex_value(
            #[trigger] shorter[i],
        ) is Some by {
            assert(shorter[i] == bytes[i]);
        }
        lemma_hex_number_bound(shorter);
        assert(hex_value(bytes[bytes.len() - 1]) is Some);
    }
}

proof fn lemma_pow16_monotonic(a: nat, b: nat)
    requires
        a <= b,
    ensures
        pow16(a) <= pow16(b),
    decreases b,
{
    if a < b {
        lemma_pow16_monotonic(a, (b - 1) as nat);
    }
}

proof fn lemma_pow16_32()
    ensures
        pow16(32) == u128::MAX + 1,
{
    reveal_with_fuel(pow16, 33);
}

/// Appends the last `width` hexadecimal digits of a number.
fn push_hex(out: &mut String, n: u128, width: u32)
    ensures
        final(out)@ == old(out)@ + hex_digits(n as nat, width as nat),
    decreases width,
{
    if width == 0 {
        assert(out@ =~= old(out)@ + hex_digits(n as nat, 0));
        return;
    }
    push_hex(out, n / 16, width - 1);
    let d: u128 = n % 16;
    let c: char = if d == 0 {
        '0'
    } else if d == 1 {
        '1'
    } else if d == 2 {
        '2'
    } else if d == 3 {
        '3'
    } else if d == 4 {
        '4'
    } else if d == 5 {
        '5'
    } else if d == 6 {
        '6'
    } else if d == 7 {
        '7'
    } else if d == 8 {
        '8'
    } else if d == 9 {
        '9'
    } else if d == 10 {
        'a'
    } else if d == 11 {
        'b'
    } else if d == 12 {
        'c'
    } else if d == 13 {
        'd'
    } else if d == 14 {
        'e'
    } else {
        'f'
    };
    out.push(c);
    assert(out@ =~= old(out)@ + hex_digits(n as nat, width as nat));
}

impl ContentId {
    /// The id as 32 hexadecimal digits.
    pub fn to_string(&self) -> (s: String)
        ensures
            s@ == hex_digits(self.0 as nat, 32),
    {
        let mut s = String::new();
        push_hex(&mut s, self.0, 32);
        assert(s@ =~= hex_digits(self.0 as nat, 32));
        s
    }

    /// Reads an id: 32 hexadecimal digits and nothing else.
    pub fn from_str(s: &str) -> (r: Option<Self>)
        ensures
            match r {
                Some(id) => parsed_id(s.spec_bytes()) == Some(id.0 as nat),
                None => parsed_id(s.spec_bytes()) is None,
            },
    {
        let bytes = s.as_bytes();
        if bytes.len() != 32 {
            return None;
        }
        let mut value: u128 = 0;
        let mut i: usize = 0;
        assert(bytes@.take(0) =~= Seq::<u8>::empty());
        while i < 32
            invariant
                i <= 32,
                bytes@.len() == 32,
                bytes@ == s.spec_bytes(),
                value == hex_number(bytes@.take(i as int)),
                forall|j: int| 0 <= j < i ==> hex_value(#[trigger] bytes@[j]) is Some,
            decreases 32 - i,
        {
            let b: u8 = bytes[i];
            let d: u8 = if 0x30 <= b && b <= 0x39 {
                b - 0x30
            } else if 0x61 <= b && b <= 0x66 {
                b - 0x61 + 10
            } else if 0x41 <= b && b <= 0x46 {
                b - 0x41 + 10
            } else {
                assert(hex_value(bytes@[i as int]) is None);
                return None;
            };
            proof {
                let next = bytes@.take(i + 1);
                assert(next.drop_last() =~= bytes@.take(i as int));
                assert(next.last() == b);
                assert forall|j: int| 0 <= j < next.len() implies hex_value(
                    #[trigger] next[j],
                ) is Some by {
                    assert(next[j] == bytes@[j]);
                }
                lemma_hex_number_bound(next);
                lemma_pow16_monotonic((i + 1) as nat, 32);
                lemma_pow16_32();
            }
            value = value * 16 + d as u128;
            i = i + 1;
        }
        assert(bytes@.take(32) =~= bytes@);
        Some(ContentId(value))
    }
}

/// Writing an id and reading it back gives the id.
pub proof fn law_content_id_round_trip(id: ContentId)
    ensures
        parsed_id(encode_utf8(hex_digits(id.0 as nat, 32))) == Some(id.0 as nat),
{
    lemma_pow16_32();
    lemma_hex_digits(id.0 as nat, 32);
}

proof fn lemma_hex_digits(n: nat, width: nat)
    requires
        n < pow16(width),
    ensures
        encode_utf8(hex_digits(n, width)).len() == width,
        forall|i: int|
            0 <= i < width ==> hex_value(
                #[trigger] encode_utf8(hex_digits(n, width))[i],
            ) is Some,
        hex_number(encode_utf8(hex_digits(n, width))) == n,
    decreases width,
{
    if width > 0 {
        let rest = (width - 1) as nat;
        lemma_hex_digits(n / 16, rest);
        let c = hex_digit(n % 16);
        let before = hex_digits(n / 16, rest);
        assert(hex_digits(n, width) =~= before + seq![c]);
        lemma_encode_concat(before, seq![c]);
        lemma_encode_one(c);
        let b = c as u8;
        assert(leading_byte_width_1(c as u32) == b) by {
            let s = c as u32;
            assert((s & 0x7f) as u8 == s as u8) by (bit_vector)
                requires
                    s < 0x80,
            ;
        }
        assert(encode_scalar(c as u32) =~= seq![b]);
        let bytes = encode_utf8(hex_digits(n, width));
        assert(bytes =~= encode_utf8(before).push(b));
        assert(bytes.drop_last() =~= encode_utf8(before));
        assert(hex_value(b) == Some(n % 16));
        assert forall|i: int| 0 <= i < width implies hex_value(#[trigger] bytes[i]) is Some by {
            if i < rest {
                assert(bytes[i] == encode_utf8(before)[i]);
            }
        }
    }
}

/// A hexadecimal digit in lower case.
pub open spec fn lower_case(c: char) -> char {
    if 'A' <= c <= 'F' {
        (c as u32 + 32) as char
    } else {
        c
    }
}

/// Reading an id and writing it gives the text in lower case.
pub proof fn law_content_id_text_round_trip(text: Seq<char>)
    requires
        parsed_id(encode_utf8(text)) is Some,
    ensures
        hex_digits(parsed_id(encode_utf8(text))->0, 32) == text.map_values(
            |c: char| lower_case(c),
        ),
{
    lemma_ascii_text(text);
    is_ascii_chars_encode_utf8(text);
    lemma_hex_text(text);
}

/// A text whose bytes are all below the non-ASCII range is ASCII.
proof fn lemma_ascii_text(text: Seq<char>)
    requires
        forall|i: int|
            0 <= i < encode_utf8(text).len() ==> hex_value(
                #[trigger] encode_utf8(text)[i],
            ) is Some,
    ensures
        is_ascii_chars(text),
    decreases text.len(),
{
    if text.len() > 0 {
        let bytes = encode_utf8(text);
        let head = encode_scalar(text[0] as u32);
        let tail = encode_utf8(text.drop_first());
        lemma_encode_one(text[0]);
        assert(bytes =~= head + tail);
        assert(hex_value(bytes[0]) is Some);
        encode_utf8_first_scalar(text);
        assert(bytes[0] < 0x80);
        assert(head.len() == 1);
        let first = bytes[0];
        assert(decode_first_scalar(bytes) == (first & 0x7f) as u32);
        assert((first & 0x7f) as u32 == first as u32) by (bit_vector)
            requires
                first < 0x80,
        ;
        char_u32_cast(text[0], first as u32);
        assert(text[0] == (first as u32) as char);
        assert forall|i: int| 0 <= i < tail.len() implies hex_value(#[trigger] tail[i]) is Some by {
            assert(tail[i] == bytes[i + 1]);
        }
        lemma_ascii_text(text.drop_first());
        assert forall|i: int| 0 <= i < text.len() implies '\0' <= #[trigger] text[i]
            <= '\u{7f}' by {
            if i > 0 {
                assert(text[i] == text.drop_first()[i - 1]);
            }
        }
    }
}

proof fn lemma_hex_text(text: Seq<char>)
    requires
        is_ascii_chars(text),
        forall|i: int|
            0 <= i < encode_utf8(text).len() ==> hex_value(
                #[trigger] encode_utf8(text)[i],
            ) is Some,
    ensures
        hex_digits(hex_number(encode_utf8(text)), text.len()) == text.map_values(
            |c: char| lower_case(c),
        ),
    decreases text.len(),
{
    let bytes = encode_utf8(text);
    is_ascii_chars_encode_utf8(text);
    if text.len() > 0 {
        let shorter = text.drop_last();
        assert forall|i: int| 0 <= i < shorter.len() implies '\0' <= #[trigger] shorter[i]
            <= '\u{7f}' by {
            assert(shorter[i] == text[i]);
        }
        is_ascii_chars_encode_utf8(shorter);
        assert(encode_utf8(shorter) =~= bytes.drop_last()) by {
            assert forall|i: int| 0 <= i < shorter.len() implies encode_utf8(shorter)[i]
                == bytes[i] by {
                assert(shorter[i] == text[i]);
                assert(shorter[i] as u8 == encode_utf8(shorter)[i]);
                assert(text[i] as u8 == bytes[i]);
            }
        }
        assert forall|i: int| 0 <= i < encode_utf8(shorter).len() implies hex_value(
            #[trigger] encode_utf8(shorter)[i],
        ) is Some by {
            assert(encode_utf8(shorter)[i] == bytes[i]);
        }
        lemma_hex_text(shorter);
        let n = hex_number(bytes);
        let b = bytes.last();
        assert(hex_value(bytes[bytes.len() - 1]) is Some);
        assert(text[text.len() - 1] as u8 == b);
        assert(hex_value(b)->0 < 16);
        assert(n / 16 == hex_number(bytes.drop_last()) && n % 16 == hex_value(b)->0);
        let lower = |c: char| lower_case(c);
        assert(hex_digit(n % 16) == lower_case(text.last()));
        assert(hex_digits(n, text.len()) =~= text.map_values(lower)) by {
            assert(text.map_values(lower).drop_last() =~= shorter.map_values(lower));
        }
    } else {
        assert(hex_digits(hex_number(bytes), 0) =~= text.map_values(|c: char| lower_case(c)));
    }
}

/// How page images are encoded on the wire.
#[derive(Clone, Copy, PartialEq, Eq, Debug, Structural)]
pub enum Encoding {
    /// The renderer's native buffer: RGBA8, premultiplied, tightly packed.
    Raw,
    /// PNG, for links where raw images are not viable.
    Png,
}

impl Encoding {
    /// The name of an encoding on the wire.
    pub open spec fn name(&self) -> Seq<char> {
        match self {
            Encoding::Raw => "raw"@,
            Encoding::Png => "png"@,
        }
    }

    /// Reads the name of an encoding.
    pub fn parse(text: &str) -> (r: Option<Self>)
        ensures
            match r {
                Some(encoding) => text@ == encoding.name(),
                None => text@ != "raw"@ && text@ != "png"@,
            },
    {
        if str_eq(text, "raw") {
            Some(Encoding::Raw)
        } else if str_eq(text, "png") {
            Some(Encoding::Png)
        } else {
            None
        }
    }

    pub fn as_str(self) -> (r: &'static str)
        ensures
            r@ == self.name(),
    {
        match self {
            Encoding::Raw => "raw",
            Encoding::Png => "png",
        }
    }
}

/// The two names of encodings differ, so reading a name gives the encoding back.
pub proof fn law_encoding_names_differ()
    ensures
        Encoding::Raw.name() != Encoding::Png.name(),
{
    reveal_strlit("raw");
    reveal_strlit("png");
    assert("raw"@[0] != "png"@[0]);
}

/// One row of a `pages` delta. Sizes are the bits of single-precision numbers.
///
/// The `Option`s are load-bearing: `None` means *unchanged*, not *absent*.
/// Collapsing them to defaults would clear geometry on every keystroke.
#[derive(Clone, Copy, Debug, PartialEq, Eq, Structural)]
pub struct TableEntryDelta {
    pub index: usize,
    pub width: Option<u32>,
    pub height: Option<u32>,
    pub content: Option<ContentId>,
}

/// The header of an image.
#[derive(Debug)]
pub struct ImageHeader {
    pub content: ContentId,
    pub px_width: u32,
    pub px_height: u32,
    /// The scale that the image was rendered at, as the server wrote it.
    pub scale: String,
    pub encoding: Encoding,
    /// Where the image data lies in the frame.
    pub payload: Range<usize>,
}

/// A frame from the server. Bodies and payloads are left as ranges into the
/// buffer that the frame was parsed from, so that no megabytes are copied.
#[derive(Debug)]
pub enum Frame {
    /// A change of the page table, described by a JSON body.
    Pages { body: Range<usize> },
    /// A page image.
    Image(ImageHeader),
    /// A page that will not render, described by a JSON body.
    Error { body: Range<usize> },
}

/// Why an image header is refused.
#[derive(Clone, Copy, Debug, PartialEq, Eq, Structural)]
pub enum ImageHeaderError {
    ContentId,
    MissingWidth,
    Width,
    MissingHeight,
    Height,
    MissingScale,
    Scale,
    MissingEncoding,
    Encoding,
    /// The size of the image exceeds the address range.
    Overflow,
    /// The payload of a raw image does not have the size that the header says.
    PayloadLength,
}

/// Why a frame is refused.
#[derive(Clone, Copy, Debug, PartialEq, Eq, Structural)]
pub enum FrameError {
    TooLarge,
    NoTerminator,
    HeaderNotUtf8,
    Image(ImageHeaderError),
}

/// `std::str::from_utf8`: the text that bytes encode, if they are valid UTF-8.
#[verifier::external_body]
fn utf8_text(bytes: &[u8]) -> (r: Option<&str>)
    ensures
        match r {
            Some(text) => valid_utf8(bytes@) && text.spec_bytes() == bytes@,
            None => !valid_utf8(bytes@),
        },
{
    std::str::from_utf8(bytes).ok()
}

/// Whether bytes are digits.
pub open spec fn all_digits(bytes: Seq<u8>) -> bool {
    forall|i: int| 0 <= i < bytes.len() ==> is_digit(#[trigger] bytes[i])
}

/// Bytes without a sign in front.
pub open spec fn unsigned(bytes: Seq<u8>) -> Seq<u8> {
    if bytes.len() > 0 && (bytes[0] == 0x2b || bytes[0] == 0x2d) {
        bytes.skip(1)
    } else {
        bytes
    }
}

/// The first position from `i` on of one of two bytes, or the end.
pub open spec fn position_of(bytes: Seq<u8>, a: u8, b: u8, i: int) -> int
    decreases bytes.len() - i,
{
    if i >= bytes.len() {
        bytes.len() as int
    } else if bytes[i] == a || bytes[i] == b {
        i
    } else {
        position_of(bytes, a, b, i + 1)
    }
}

/// Whether bytes are digits with at most one point among them, and at least one
/// digit.
pub open spec fn is_mantissa(bytes: Seq<u8>) -> bool {
    let point = position_of(bytes, 0x2e, 0x2e, 0);
    if point < bytes.len() {
        &&& all_digits(bytes.take(point))
        &&& all_digits(bytes.skip(point + 1))
        &&& bytes.len() >= 2
    } else {
        all_digits(bytes) && bytes.len() >= 1
    }
}

/// Whether bytes are a number in decimal notation, with an optional exponent.
pub open spec fn is_number(bytes: Seq<u8>) -> bool {
    let exponent = position_of(bytes, 0x65, 0x45, 0);
    if exponent < bytes.len() {
        let digits = unsigned(bytes.skip(exponent + 1));
        &&& is_mantissa(bytes.take(exponent))
        &&& all_digits(digits)
        &&& digits.len() >= 1
    } else {
        is_mantissa(bytes)
    }
}

/// A byte with ASCII letters in lower case.
pub open spec fn lower(b: u8) -> u8 {
    if 0x41 <= b <= 0x5a {
        (b + 0x20) as u8
    } else {
        b
    }
}

/// Whether bytes spell a word, in either case.
pub open spec fn spells(bytes: Seq<u8>, word: Seq<u8>) -> bool {
    bytes.len() == word.len() && forall|i: int|
        0 <= i < bytes.len() ==> lower(#[trigger] bytes[i]) == word[i]
}

/// Whether a text denotes a floating-point number: an optional sign, and then a
/// decimal number, an infinity or not-a-number.
pub open spec fn is_float(bytes: Seq<u8>) -> bool {
    let rest = unsigned(bytes);
    ||| is_number(rest)
    ||| spells(rest, seq![0x69, 0x6e, 0x66])
    ||| spells(rest, seq![0x69, 0x6e, 0x66, 0x69, 0x6e, 0x69, 0x74, 0x79])
    ||| spells(rest, seq![0x6e, 0x61, 0x6e])
}

/// Tests whether the bytes from `start` to `end` are digits.
fn check_digits(bytes: &[u8], start: usize, end: usize) -> (r: bool)
    requires
        start <= end <= bytes@.len(),
    ensures
        r == all_digits(bytes@.subrange(start as int, end as int)),
{
    let ghost part = bytes@.subrange(start as int, end as int);
    let mut i: usize = start;
    while i < end
        invariant
            start <= i <= end <= bytes@.len(),
            part == bytes@.subrange(start as int, end as int),
            forall|j: int| 0 <= j < i - start ==> is_digit(#[trigger] part[j]),
        decreases end - i,
    {
        if bytes[i] < 0x30 || bytes[i] > 0x39 {
            assert(!is_digit(part[i - start]));
            return false;
        }
        i = i + 1;
    }
    true
}

/// Finds one of two bytes before `end`.
fn find_either(bytes: &[u8], a: u8, b: u8, start: usize, end: usize) -> (r: usize)
    requires
        start <= end <= bytes@.len(),
    ensures
        start <= r <= end,
        r - start == position_of(bytes@.subrange(start as int, end as int), a, b, 0),
{
    let ghost part = bytes@.subrange(start as int, end as int);
    let mut i: usize = start;
    while i < end
        invariant
            start <= i <= end <= bytes@.len(),
            part == bytes@.subrange(start as int, end as int),
            position_of(part, a, b, 0) == position_of(part, a, b, i - start),
        decreases end - i,
    {
        assert(part[i - start] == bytes@[i as int]);
        if bytes[i] == a || bytes[i] == b {
            return i;
        }
        i = i + 1;
    }
    i
}

/// Tests whether the bytes from `start` to `end` are a mantissa.
fn check_mantissa(bytes: &[u8], start: usize, end: usize) -> (r: bool)
    requires
        start <= end <= bytes@.len(),
    ensures
        r == is_mantissa(bytes@.subrange(start as int, end as int)),
{
    let ghost part = bytes@.subrange(start as int, end as int);
    let point = find_either(bytes, 0x2e, 0x2e, start, end);
    assert(part.take(point - start) =~= bytes@.subrange(start as int, point as int));
    if point < end {
        assert(part.skip(point - start + 1) =~= bytes@.subrange(point + 1, end as int));
        check_digits(bytes, start, point) && check_digits(bytes, point + 1, end) && end - start >= 2
    } else {
        check_digits(bytes, start, end) && end - start >= 1
    }
}

/// Tests whether the bytes from `start` on spell a word.
fn check_word(bytes: &[u8], start: usize, word: &[u8]) -> (r: bool)
    requires
        start <= bytes@.len(),
    ensures
        r == spells(bytes@.skip(start as int), word@),
{
    let ghost rest = bytes@.skip(start as int);
    if bytes.len() - start != word.len() {
        return false;
    }
    let mut i: usize = 0;
    while i < word.len()
        invariant
            i <= word@.len(),
            start + word@.len() == bytes.len(),
            bytes.len() == bytes@.len(),
            rest == bytes@.skip(start as int),
            forall|j: int| 0 <= j < i ==> lower(#[trigger] rest[j]) == word@[j],
        decreases word@.len() - i,
    {
        let b: u8 = bytes[start + i];
        assert(rest[i as int] == b);
        let lowered: u8 = if 0x41 <= b && b <= 0x5a {
            b + 0x20
        } else {
            b
        };
        if lowered != word[i] {
            return false;
        }
        i = i + 1;
    }
    true
}

/// Tests whether a text denotes a floating-point number.
fn check_float(text: &str) -> (r: bool)
    ensures
        r == is_float(text.spec_bytes()),
{
    let bytes = text.as_bytes();
    let start: usize = if bytes.len() > 0 && (bytes[0] == 0x2b || bytes[0] == 0x2d) {
        1
    } else {
        0
    };
    let end: usize = bytes.len();
    let ghost rest = bytes@.skip(start as int);
    assert(unsigned(bytes@) =~= rest);
    assert(rest =~= bytes@.subrange(start as int, end as int));
    let exponent = find_either(bytes, 0x65, 0x45, start, end);
    assert(rest.take(exponent - start) =~= bytes@.subrange(start as int, exponent as int));
    let number = if exponent < end {
        let signed = exponent + 1 < end && (bytes[exponent + 1] == 0x2b || bytes[exponent + 1]
            == 0x2d);
        let first: usize = if signed {
            exponent + 2
        } else {
            exponent + 1
        };
        assert(unsigned(rest.skip(exponent - start + 1)) =~= bytes@.subrange(
            first as int,
            end as int,
        ));
        check_mantissa(bytes, start, exponent) && check_digits(bytes, first, end) && end > first
    } else {
        check_mantissa(bytes, start, end)
    };
    let inf: [u8; 3] = [0x69, 0x6e, 0x66];
    let infinity: [u8; 8] = [0x69, 0x6e, 0x66, 0x69, 0x6e, 0x69, 0x74, 0x79];
    let nan: [u8; 3] = [0x6e, 0x61, 0x6e];
    assert(inf@ =~= seq![0x69, 0x6e, 0x66]);
    assert(infinity@ =~= seq![0x69, 0x6e, 0x66, 0x69, 0x6e, 0x69, 0x74, 0x79]);
    assert(nan@ =~= seq![0x6e, 0x61, 0x6e]);
    number || check_word(bytes, start, &inf) || check_word(bytes, start, &infinity) || check_word(
        bytes,
        start,
        &nan,
    )
}

/// What the fields of an image header say, up to its text fields: the id, the
/// width, the height and the encoding, or the first thing wrong with them.
pub open spec fn image_outcome(
    fields: Seq<Seq<u8>>,
    payload_len: int,
) -> Result<(nat, nat, nat, Encoding), ImageHeaderError> {
    let max = u32::MAX as nat;
    if parsed_id(fields[0]) is None {
        Err(ImageHeaderError::ContentId)
    } else if fields.len() < 2 {
        Err(ImageHeaderError::MissingWidth)
    } else if parsed_unsigned(fields[1], max) is None {
        Err(ImageHeaderError::Width)
    } else if fields.len() < 3 {
        Err(ImageHeaderError::MissingHeight)
    } else if parsed_unsigned(fields[2], max) is None {
        Err(ImageHeaderError::Height)
    } else if fields.len() < 4 {
        Err(ImageHeaderError::MissingScale)
    } else if !is_float(fields[3]) {
        Err(ImageHeaderError::Scale)
    } else if fields.len() < 5 {
        Err(ImageHeaderError::MissingEncoding)
    } else {
        let id = parsed_id(fields[0])->0;
        let width = parsed_unsigned(fields[1], max)->0;
        let height = parsed_unsigned(fields[2], max)->0;
        if fields[4] == "raw".spec_bytes() {
            if width * height * 4 > usize::MAX {
                Err(ImageHeaderError::Overflow)
            } else if payload_len != width * height * 4 {
                Err(ImageHeaderError::PayloadLength)
            } else {
                Ok((id, width, height, Encoding::Raw))
            }
        } else if fields[4] == "png".spec_bytes() {
            Ok((id, width, height, Encoding::Png))
        } else {
            Err(ImageHeaderError::Encoding)
        }
    }
}

/// Whether a parsed header is what the fields say.
pub open spec fn is_image(
    header: ImageHeader,
    fields: Seq<Seq<u8>>,
    body: int,
    frame_len: int,
) -> bool {
    &&& image_outcome(fields, frame_len - body) == Ok::<_, ImageHeaderError>(
        (
            header.content.0 as nat,
            header.px_width as nat,
            header.px_height as nat,
            header.encoding,
        ),
    )
    &&& encode_utf8(header.scale@) == fields[3]
    &&& header.payload.start == body
    &&& header.payload.end == frame_len
}

/// Reads the fields of an image header. The header is the only description of
/// the payload's shape, so a raw payload must have exactly the size it says.
/// The scale is taken from the header rather than assumed: an image requested
/// before a zoom can arrive after it.
pub fn parse_image_header(rest: &str, body: usize, frame_len: usize) -> (r: Result<
    ImageHeader,
    ImageHeaderError,
>)
    requires
        body <= frame_len,
    ensures
        match r {
            Ok(header) => is_image(
                header,
                split_parts(rest.spec_bytes(), 0x3a, 0, 0),
                body as int,
                frame_len as int,
            ),
            Err(error) => image_outcome(
                split_parts(rest.spec_bytes(), 0x3a, 0, 0),
                frame_len - body,
            ) == Err::<(nat, nat, nat, Encoding), _>(error),
        },
{
    let fields = split(rest, 0x3a);
    let ghost parts = split_parts(rest.spec_bytes(), 0x3a, 0, 0);
    assert forall|i: int| 0 <= i < parts.len() implies parts[i] == (
    #[trigger] fields@[i]).spec_bytes() by {
        assert(encodings(fields@)[i] == fields@[i].spec_bytes());
    }
    let content = match ContentId::from_str(fields[0]) {
        Some(content) => content,
        None => {
            return Err(ImageHeaderError::ContentId);
        },
    };
    if fields.len() < 2 {
        return Err(ImageHeaderError::MissingWidth);
    }
    let px_width: u32 = match parse_u32(fields[1]) {
        Some(width) => width,
        None => {
            return Err(ImageHeaderError::Width);
        },
    };
    if fields.len() < 3 {
        return Err(ImageHeaderError::MissingHeight);
    }
    let px_height: u32 = match parse_u32(fields[2]) {
        Some(height) => height,
        None => {
            return Err(ImageHeaderError::Height);
        },
    };
    if fields.len() < 4 {
        return Err(ImageHeaderError::MissingScale);
    }
    if !check_float(fields[3]) {
        return Err(ImageHeaderError::Scale);
    }
    if fields.len() < 5 {
        return Err(ImageHeaderError::MissingEncoding);
    }
    proof {
        if fields@[4].spec_bytes() == "raw".spec_bytes() {
            lemma_encode_injective(fields@[4]@, "raw"@);
        }
        if fields@[4].spec_bytes() == "png".spec_bytes() {
            lemma_encode_injective(fields@[4]@, "png"@);
        }
        law_encoding_names_differ();
    }
    let encoding = match Encoding::parse(fields[4]) {
        Some(encoding) => encoding,
        None => {
            return Err(ImageHeaderError::Encoding);
        },
    };
    let scale = fields[3].to_owned();
    if encoding == Encoding::Raw {
        let width: u64 = px_width as u64;
        let height: u64 = px_height as u64;
        assert(width * height <= 0xffff_ffff * 0xffff_ffff) by (nonlinear_arith)
            requires
                width <= 0xffff_ffff,
                height <= 0xffff_ffff,
        ;
        let expected: u128 = (width * height) as u128 * 4;
        if expected > usize::MAX as u128 {
            return Err(ImageHeaderError::Overflow);
        }
        if (frame_len - body) as u128 != expected {
            return Err(ImageHeaderError::PayloadLength);
        }
    }
    Ok(ImageHeader { content, px_width, px_height, scale, encoding, payload: body..frame_len })
}

/// The position of the first newline from `i` on, or the end.
pub open spec fn header_end(frame: Seq<u8>, i: int) -> int
    decreases frame.len() - i,
{
    if i >= frame.len() {
        frame.len() as int
    } else if frame[i] == NEWLINE {
        i
    } else {
        header_end(frame, i + 1)
    }
}

/// The bytes of the header.
pub open spec fn header_of(frame: Seq<u8>) -> Seq<u8> {
    frame.take(header_end(frame, 0))
}

/// Whether a header is that of an image.
pub open spec fn is_image_header(header: Seq<u8>) -> bool {
    has_prefix(header, "image:".spec_bytes())
}

/// Whether the frame is well-formed up to its header.
pub open spec fn has_header(frame: Seq<u8>) -> bool {
    &&& frame.len() <= MAX_FRAME_BYTES
    &&& header_end(frame, 0) < frame.len()
    &&& valid_utf8(header_of(frame))
}

/// The fields of an image header.
pub open spec fn image_fields(header: Seq<u8>) -> Seq<Seq<u8>> {
    split_parts(header.skip(6), 0x3a, 0, 0)
}

/// Parses one frame.
///
/// Returns `Ok(None)` for a frame this client does not recognize, which is not
/// an error: the server may add message kinds, and an unknown one is ignorable
/// by construction since every kind is self-contained.
pub fn parse_frame(frame: &[u8]) -> (r: Result<Option<Frame>, FrameError>)
    ensures
        match r {
            Err(FrameError::TooLarge) => frame@.len() > MAX_FRAME_BYTES,
            Err(FrameError::NoTerminator) => frame@.len() <= MAX_FRAME_BYTES && header_end(
                frame@,
                0,
            ) == frame@.len(),
            Err(FrameError::HeaderNotUtf8) => {
                &&& frame@.len() <= MAX_FRAME_BYTES
                &&& header_end(frame@, 0) < frame@.len()
                &&& !valid_utf8(header_of(frame@))
            },
            Err(FrameError::Image(error)) => {
                &&& has_header(frame@)
                &&& is_image_header(header_of(frame@))
                &&& image_outcome(
                    image_fields(header_of(frame@)),
                    frame@.len() - header_end(frame@, 0) - 1,
                ) == Err::<(nat, nat, nat, Encoding), _>(error)
            },
            Ok(Some(Frame::Image(header))) => {
                &&& has_header(frame@)
                &&& is_image_header(header_of(frame@))
                &&& is_image(
                    header,
                    image_fields(header_of(frame@)),
                    header_end(frame@, 0) + 1,
                    frame@.len() as int,
                )
            },
            Ok(Some(Frame::Pages { body })) => {
                &&& has_header(frame@)
                &&& header_of(frame@) == "pages".spec_bytes()
                &&& body.start == header_end(frame@, 0) + 1
                &&& body.end == frame@.len()
            },
            Ok(Some(Frame::Error { body })) => {
                &&& has_header(frame@)
                &&& header_of(frame@) == "error".spec_bytes()
                &&& body.start == header_end(frame@, 0) + 1
                &&& body.end == frame@.len()
            },
            Ok(None) => {
                &&& has_header(frame@)
                &&& !is_image_header(header_of(frame@))
                &&& header_of(frame@) != "pages".spec_bytes()
                &&& header_of(frame@) != "error".spec_bytes()
            },
        },
{
    if frame.len() > MAX_FRAME_BYTES {
        return Err(FrameError::TooLarge);
    }
    let mut end: usize = 0;
    while end < frame.len() && frame[end] != NEWLINE
        invariant
            end <= frame@.len(),
            header_end(frame@, 0) == header_end(frame@, end as int),
        decreases frame@.len() - end,
    {
        end = end + 1;
    }
    if end == frame.len() {
        return Err(FrameError::NoTerminator);
    }
    let bytes = vstd::slice::slice_subrange(frame, 0, end);
    assert(bytes@ =~= header_of(frame@));
    let header = match utf8_text(bytes) {
        Some(header) => header,
        None => {
            return Err(FrameError::HeaderNotUtf8);
        },
    };
    let body: usize = end + 1;
    proof {
        lemma_header_literals();
    }
    if bytes_at(bytes, "image:".as_bytes(), 0) {
        assert(is_image_header(bytes@));
        proof {
            assert("image:".spec_bytes().len() == 6);
            assert(bytes@.subrange(0, 6)[5] == "image:".spec_bytes()[5]);
            crate::text::lemma_boundary_after_ascii(bytes@, 5);
            is_char_boundary_start_end_of_seq(bytes@);
        }
        let rest = slice(header, 6, bytes.len());
        assert(rest.spec_bytes() =~= bytes@.skip(6));
        return match parse_image_header(rest, body, frame.len()) {
            Ok(header) => Ok(Some(Frame::Image(header))),
            Err(error) => Err(FrameError::Image(error)),
        };
    }
    assert(!is_image_header(bytes@));
    if str_eq(header, "pages") {
        return Ok(Some(Frame::Pages { body: body..frame.len() }));
    }
    if str_eq(header, "error") {
        return Ok(Some(Frame::Error { body: body..frame.len() }));
    }
    proof {
        if bytes@ == "pages".spec_bytes() {
            lemma_encode_injective(header@, "pages"@);
        }
        if bytes@ == "error".spec_bytes() {
            lemma_encode_injective(header@, "error"@);
        }
    }
    Ok(None)
}

/// What the header literals are made of.
proof fn lemma_header_literals()
    ensures
        "image:".spec_bytes().len() == 6,
        "image:".spec_bytes()[5] == 0x3a,
{
    reveal_strlit("image:");
    assert("image:".is_ascii());
    is_ascii_spec_bytes("image:");
    assert("image:".spec_bytes() =~= Seq::new("image:"@.len(), |i: int| "image:"@[i] as u8));
    assert("image:"@[5] == ':');
}

/// A message to the server.
#[derive(Debug)]
pub enum ClientMessage {
    /// The standing subscription. Wholly replaces its predecessor.
    View {
        visible: Vec<usize>,
        prefetch: Vec<usize>,
        cached: Vec<usize>,
        /// The scale as a JSON number.
        scale: String,
        encoding: Encoding,
    },
    /// Re-send these page indices regardless of what the server believes we
    /// hold. Defined for robustness; this client honors its retention contract
    /// and does not send it.
    WantPages(Vec<usize>),
}

/// Numbers separated by commas, from `k` on.
pub open spec fn listed_from(indices: Seq<usize>, k: int) -> Seq<char>
    decreases indices.len() - k,
{
    if k >= indices.len() {
        Seq::empty()
    } else if k == indices.len() - 1 {
        decimal(indices[k] as nat)
    } else {
        decimal(indices[k] as nat) + seq![','] + listed_from(indices, k + 1)
    }
}

/// Numbers as a JSON array.
pub open spec fn json_array(indices: Seq<usize>) -> Seq<char> {
    seq!['['] + listed_from(indices, 0) + seq![']']
}

/// Appends numbers as a JSON array.
fn push_array(out: &mut String, indices: &Vec<usize>)
    ensures
        final(out)@ == old(out)@ + json_array(indices@),
{
    let ghost before = out@;
    out.push('[');
    let mut k: usize = 0;
    assert(out@ + listed_from(indices@, 0) =~= before + seq!['['] + listed_from(indices@, 0));
    while k < indices.len()
        invariant
            k <= indices@.len(),
            out@ + listed_from(indices@, k as int) == before + seq!['['] + listed_from(indices@, 0),
        decreases indices@.len() - k,
    {
        let ghost sofar = out@;
        push_decimal(out, indices[k] as u64);
        if k + 1 < indices.len() {
            out.push(',');
        }
        assert(out@ + listed_from(indices@, k + 1) =~= sofar + listed_from(indices@, k as int));
        k = k + 1;
    }
    let ghost inner = out@;
    out.push(']');
    assert(out@ =~= before + json_array(indices@));
}

impl ClientMessage {
    /// The message on the wire: its kind on a line, then a JSON object.
    pub open spec fn encoded(&self) -> Seq<char> {
        match self {
            ClientMessage::View { visible, prefetch, cached, scale, encoding } => "view\n{\"cached\":"@
                + json_array(cached@) + ",\"encoding\":\""@ + encoding.name()
                + "\",\"opaque\":true,\"prefetch\":"@ + json_array(prefetch@) + ",\"scale\":"@ + scale@
                + ",\"visible\":"@ + json_array(visible@) + "}"@,
            ClientMessage::WantPages(indices) => "want-page\n{\"i\":"@ + json_array(indices@)
                + "}"@,
        }
    }

    /// Writes the message. A view asks the server to composite onto white: the
    /// bare channel swap of decoding is only correct because of this.
    pub fn encode(&self) -> (s: String)
        ensures
            s@ == self.encoded(),
    {
        match self {
            ClientMessage::View { visible, prefetch, cached, scale, encoding } => {
                let mut s = "view\n{\"cached\":".to_owned();
                push_array(&mut s, cached);
                s.append(",\"encoding\":\"");
                s.append(encoding.as_str());
                s.append("\",\"opaque\":true,\"prefetch\":");
                push_array(&mut s, prefetch);
                s.append(",\"scale\":");
                s.append(scale.as_str());
                s.append(",\"visible\":");
                push_array(&mut s, visible);
                s.append("}");
                s
            },
            ClientMessage::WantPages(indices) => {
                let mut s = "want-page\n{\"i\":".to_owned();
                push_array(&mut s, indices);
                s.append("}");
                s
            },
        }
    }
}

/// A header ends at the first newline; the end of the frame stands for none.
pub proof fn law_header_ends_at_newline(frame: Seq<u8>, from: int)
    requires
        0 <= from <= frame.len(),
    ensures
        from <= header_end(frame, from) <= frame.len(),
        header_end(frame, from) < frame.len() ==> frame[header_end(frame, from)] == NEWLINE,
        forall|i: int| from <= i < header_end(frame, from) ==> frame[i] != NEWLINE,
    decreases frame.len() - from,
{
    if from < frame.len() {
        law_header_ends_at_newline(frame, from + 1);
    }
}

/// The fields that are written for an image are read back. A raw payload must have
/// four bytes for each pixel.
pub proof fn law_image_header_read_back(
    id: ContentId,
    width: u32,
    height: u32,
    scale: Seq<u8>,
    payload_len: int,
)
    requires
        is_float(scale),
        width * height * 4 <= usize::MAX,
    ensures
        image_outcome(
            seq![
                encode_utf8(hex_digits(id.0 as nat, 32)),
                encode_utf8(decimal(width as nat)),
                encode_utf8(decimal(height as nat)),
                scale,
                "png".spec_bytes(),
            ],
            payload_len,
        ) == Ok::<_, ImageHeaderError>((id.0 as nat, width as nat, height as nat, Encoding::Png)),
        image_outcome(
            seq![
                encode_utf8(hex_digits(id.0 as nat, 32)),
                encode_utf8(decimal(width as nat)),
                encode_utf8(decimal(height as nat)),
                scale,
                "raw".spec_bytes(),
            ],
            payload_len,
        ) == if payload_len == width * height * 4 {
            Ok((id.0 as nat, width as nat, height as nat, Encoding::Raw))
        } else {
            Err(ImageHeaderError::PayloadLength)
        },
{
    law_content_id_round_trip(id);
    law_parse_decimal(width as nat, u32::MAX as nat);
    law_parse_decimal(height as nat, u32::MAX as nat);
    law_encoding_names_differ();
    if "raw".spec_bytes() == "png".spec_bytes() {
        lemma_encode_injective("raw"@, "png"@);
    }
}

/// An image header is accepted only with five fields, of which the first is an id, the
/// next two are numbers, and the fourth is one with a fraction.
pub proof fn law_image_fields(fields: Seq<Seq<u8>>, payload_len: int)
    ensures
        image_outcome(fields, payload_len) matches Ok((id, width, height, encoding)) ==> {
            &&& fields.len() >= 5
            &&& parsed_id(fields[0]) == Some(id)
            &&& parsed_unsigned(fields[1], u32::MAX as nat) == Some(width)
            &&& parsed_unsigned(fields[2], u32::MAX as nat) == Some(height)
            &&& is_float(fields[3])
            &&& fields[4] == encode_utf8(encoding.name())
            &&& encoding == Encoding::Raw ==> payload_len == width * height * 4
        },
{
}

proof fn lemma_position_from(bytes: Seq<u8>, a: u8, b: u8, from: int)
    requires
        0 <= from <= bytes.len(),
    ensures
        from <= position_of(bytes, a, b, from) <= bytes.len(),
        position_of(bytes, a, b, from) < bytes.len() ==> bytes[position_of(bytes, a, b, from)] == a
            || bytes[position_of(bytes, a, b, from)] == b,
        forall|i: int|
            from <= i < position_of(bytes, a, b, from) ==> bytes[i] != a && bytes[i] != b,
    decreases bytes.len() - from,
{
    if from < bytes.len() {
        lemma_position_from(bytes, a, b, from + 1);
    }
}

proof fn lemma_mantissa(whole: Seq<u8>, fraction: Seq<u8>)
    requires
        all_digits(whole),
        all_digits(fraction),
    ensures
        whole.len() > 0 ==> is_mantissa(whole),
        whole.len() + fraction.len() > 0 ==> is_mantissa(whole + seq![0x2eu8] + fraction),
{
    lemma_position_from(whole, 0x2e, 0x2e, 0);
    let both = whole + seq![0x2eu8] + fraction;
    lemma_position_from(both, 0x2e, 0x2e, 0);
    let point = position_of(both, 0x2e, 0x2e, 0);
    if point < whole.len() {
        assert(both[point] == whole[point]);
    }
    assert(both[whole.len() as int] == 0x2e);
    assert(point == whole.len());
    assert(both.take(point) =~= whole);
    assert(both.skip(point + 1) =~= fraction);
}

/// Digits, with a point among them and a sign in front or without, and with an exponent
/// or without, are a number; nothing at all is none.
pub proof fn law_decimal_numbers(
    whole: Seq<u8>,
    fraction: Seq<u8>,
    exponent: Seq<u8>,
    sign: u8,
)
    requires
        all_digits(whole),
        all_digits(fraction),
        all_digits(exponent),
        whole.len() > 0,
        exponent.len() > 0,
        sign == 0x2b || sign == 0x2d,
    ensures
        is_float(whole),
        is_float(whole + seq![0x2eu8] + fraction),
        is_float(seq![sign] + (whole + seq![0x2eu8] + fraction)),
        is_float(whole + seq![0x65u8] + exponent),
        !is_float(Seq::empty()),
        !is_float(seq![0x2eu8]),
{
    lemma_mantissa(whole, fraction);
    let both = whole + seq![0x2eu8] + fraction;
    let raised = whole + seq![0x65u8] + exponent;
    assert forall|i: int| 0 <= i < both.len() implies #[trigger] both[i] == 0x2e || is_digit(
        both[i],
    ) by {
        if i < whole.len() {
            assert(both[i] == whole[i]);
        } else if i > whole.len() {
            assert(both[i] == fraction[i - whole.len() - 1]);
        }
    }
    lemma_position_from(whole, 0x65, 0x45, 0);
    lemma_position_from(both, 0x65, 0x45, 0);
    lemma_position_from(raised, 0x65, 0x45, 0);
    let at = position_of(raised, 0x65, 0x45, 0);
    if at < whole.len() {
        assert(raised[at] == whole[at]);
    }
    assert(raised[whole.len() as int] == 0x65);
    assert(at == whole.len());
    assert(raised.take(at) =~= whole);
    assert(raised.skip(at + 1) =~= exponent);
    assert(unsigned(exponent) == exponent) by {
        assert(is_digit(exponent[0]));
    }
    assert(unsigned(whole) == whole) by {
        assert(is_digit(whole[0]));
    }
    assert(unsigned(both) == both) by {
        assert(both[0] == whole[0] && is_digit(whole[0]));
    }
    assert(unsigned(raised) == raised) by {
        assert(raised[0] == whole[0] && is_digit(whole[0]));
    }
    assert((seq![sign] + both).skip(1) =~= both);
    assert(unsigned(seq![sign] + both) == both);
    let nothing = Seq::<u8>::empty();
    lemma_position_from(nothing, 0x65, 0x45, 0);
    lemma_position_from(nothing, 0x2e, 0x2e, 0);
    let point = seq![0x2eu8];
    lemma_position_from(point, 0x65, 0x45, 0);
    lemma_position_from(point, 0x2e, 0x2e, 0);
}

/// The numbers of a list stand one after another with commas between them.
pub proof fn law_listed_numbers(indices: Seq<usize>, k: int)
    requires
        0 <= k < indices.len(),
    ensures
        listed_from(indices, k).push(',') == indices.skip(k).map_values(
            |index: usize| decimal(index as nat).push(','),
        ).flatten(),
    decreases indices.len() - k,
{
    let written = |index: usize| decimal(index as nat).push(',');
    let rest = indices.skip(k).map_values(written);
    assert(rest.first() == decimal(indices[k] as nat).push(','));
    assert(rest.drop_first() =~= indices.skip(k + 1).map_values(written));
    assert(rest.flatten() == rest.first() + rest.drop_first().flatten());
    if k < indices.len() - 1 {
        law_listed_numbers(indices, k + 1);
        assert(listed_from(indices, k).push(',') =~= decimal(indices[k] as nat).push(',')
            + listed_from(indices, k + 1).push(','));
    } else {
        assert(rest.drop_first() =~= Seq::empty());
        assert(rest.drop_first().flatten() =~= Seq::empty());
        assert(decimal(indices[k] as nat).push(',') + Seq::<char>::empty()
            =~= decimal(indices[k] as nat).push(','));
    }
}

/// A view says under `cached`, `prefetch` and `visible` which pages the client has,
/// which it may need next and which it shows.
pub proof fn law_view_lists_pages(
    visible: Vec<usize>,
    prefetch: Vec<usize>,
    cached: Vec<usize>,
    scale: String,
    encoding: Encoding,
)
    ensures
        ({
            let view = ClientMessage::View { visible, prefetch, cached, scale, encoding };
            let start = "view\n{\"cached\":"@ + json_array(cached@);
            let middle = "\"opaque\":true,\"prefetch\":"@ + json_array(prefetch@) + ",\"scale\":"@
                + scale@;
            let end = ",\"visible\":"@ + json_array(visible@) + "}"@;
            view.encoded() == start + (",\"encoding\":\""@ + encoding.name() + "\","@) + middle
                + end
        }),
{
    reveal_strlit("\",\"opaque\":true,\"prefetch\":");
    reveal_strlit("\"opaque\":true,\"prefetch\":");
    reveal_strlit("\",");
    assert("\",\"opaque\":true,\"prefetch\":"@ =~= "\","@ + "\"opaque\":true,\"prefetch\":"@);
    let view = ClientMessage::View { visible, prefetch, cached, scale, encoding };
    let start = "view\n{\"cached\":"@ + json_array(cached@);
    let middle = "\"opaque\":true,\"prefetch\":"@ + json_array(prefetch@) + ",\"scale\":"@ + scale@;
    let end = ",\"visible\":"@ + json_array(visible@) + "}"@;
    assert(view.encoded() =~= start + (",\"encoding\":\""@ + encoding.name() + "\","@) + middle
        + end);
}

} // verus!
