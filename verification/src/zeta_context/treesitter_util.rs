//! Byte ranges, lines and points of source text.
use crate::paths::{is_portable, path_extension, path_extension_of};
use crate::text::{
    decimal, is_digit, law_parse_decimal, lemma_decimal_ascii, lemma_encode_concat,
    lemma_encode_one, lemma_line_boundaries,
    lemma_line_end, lemma_line_start, line_end, line_start, parse_u32, parsed_unsigned,
    push_decimal, split, split_parts, str_eq, NEWLINE,
};
use crate::zeta_context::zed_code::{
    capture_names, is_outline_config, load_queries, query_text, text_of, texts, Language,
    LanguageError, LanguageName, Point,
};
use std::ops::{Range, Sub};
use tree_sitter::Language as Grammar;
use vstd::prelude::*;
use vstd::std_specs::cmp::{OrdSpec, PartialOrdIs, PartialOrdSpec};
use vstd::std_specs::ops::SubSpec;
use vstd::string::*;
use vstd::utf8::*;

verus! {

/// Whether `a` covers `b`.
pub fn range_is_superset_of<T: PartialOrd>(a: &Range<T>, b: &Range<T>) -> (r: bool)
    ensures
        T::obeys_partial_cmp_spec() ==> r == (a.start.is_le(&b.start) && a.end.is_ge(&b.end)),
{
    a.start <= b.start && a.end >= b.end
}

/// The greater of two values, the second where they are equal.
pub open spec fn greater_of<T: Ord>(a: T, b: T) -> T {
    match b.cmp_spec(&a) {
        std::cmp::Ordering::Less => a,
        _ => b,
    }
}

/// The smaller of two values, the first where they are equal.
pub open spec fn smaller_of<T: Ord>(a: T, b: T) -> T {
    match b.cmp_spec(&a) {
        std::cmp::Ordering::Less => b,
        _ => a,
    }
}

/// Values of the type are ordered as its traits declare, and cloning keeps them.
pub open spec fn lawful_order<T: Ord + Clone>() -> bool {
    &&& T::obeys_cmp_spec()
    &&& T::obeys_partial_cmp_spec()
    &&& forall|x: T, y: T| #[trigger] cloned(x, y) ==> x == y
}

/// What two ranges share, where that is not empty.
pub open spec fn intersection_of<T: Ord>(a: Range<T>, b: Range<T>) -> Option<Range<T>> {
    let start = greater_of(a.start, b.start);
    let end = smaller_of(a.end, b.end);
    if start.is_lt(&end) {
        Some(Range { start, end })
    } else {
        None
    }
}

/// What two ranges share, where that is not empty.
pub fn range_intersection<T: Ord + Clone>(a: &Range<T>, b: &Range<T>) -> (r: Option<Range<T>>)
    ensures
        lawful_order::<T>() ==> r == intersection_of(*a, *b),
{
    let (a_start, b_start) = (a.start.clone(), b.start.clone());
    let (a_end, b_end) = (a.end.clone(), b.end.clone());
    assert(cloned(a.start, a_start) && cloned(b.start, b_start));
    assert(cloned(a.end, a_end) && cloned(b.end, b_end));
    let start = a_start.max(b_start);
    let end = a_end.min(b_end);
    if start < end {
        Some(Range { start, end })
    } else {
        None
    }
}

/// Whether the order of a type is total: of two values one is less or they are the
/// same, and both comparisons agree.
pub open spec fn total_order<T: Ord>() -> bool {
    &&& forall|x: T, y: T|
        #[trigger] x.cmp_spec(&y) == std::cmp::Ordering::Equal <==> x == y
    &&& forall|x: T, y: T|
        #[trigger] x.cmp_spec(&y) == std::cmp::Ordering::Less <==> y.cmp_spec(&x)
            == std::cmp::Ordering::Greater
    &&& forall|x: T, y: T, z: T|
        #[trigger] x.cmp_spec(&y) == std::cmp::Ordering::Less && #[trigger] y.cmp_spec(&z)
            == std::cmp::Ordering::Less ==> x.cmp_spec(&z) == std::cmp::Ordering::Less
    &&& forall|x: T, y: T| #[trigger] x.partial_cmp_spec(&y) == Some(x.cmp_spec(&y))
}

/// Whether a value lies in a range.
pub open spec fn lies_in<T: Ord>(x: T, range: Range<T>) -> bool {
    !x.is_lt(&range.start) && x.is_lt(&range.end)
}

/// It does not matter which of two ranges comes first.
pub proof fn law_intersection_commutes<T: Ord>(a: Range<T>, b: Range<T>)
    requires
        total_order::<T>(),
    ensures
        intersection_of(a, b) == intersection_of(b, a),
{
    assert(a.start.cmp_spec(&b.start) == std::cmp::Ordering::Less <==> b.start.cmp_spec(&a.start)
        == std::cmp::Ordering::Greater);
    assert(b.start.cmp_spec(&a.start) == std::cmp::Ordering::Equal <==> b.start == a.start);
    assert(a.end.cmp_spec(&b.end) == std::cmp::Ordering::Less <==> b.end.cmp_spec(&a.end)
        == std::cmp::Ordering::Greater);
    assert(b.end.cmp_spec(&a.end) == std::cmp::Ordering::Equal <==> b.end == a.end);
    assert(greater_of(a.start, b.start) == greater_of(b.start, a.start));
    assert(smaller_of(a.end, b.end) == smaller_of(b.end, a.end));
}

/// A value lies in both ranges exactly if it lies in what they share.
pub proof fn law_intersection_is_what_is_shared<T: Ord>(a: Range<T>, b: Range<T>, x: T)
    requires
        total_order::<T>(),
    ensures
        lies_in(x, a) && lies_in(x, b) <==> intersection_of(a, b) is Some && lies_in(
            x,
            intersection_of(a, b)->0,
        ),
        intersection_of(a, b) matches Some(shared) ==> shared.start.is_lt(&shared.end),
{
    let start = greater_of(a.start, b.start);
    let end = smaller_of(a.end, b.end);
    lemma_order(x, a.start);
    lemma_order(x, b.start);
    lemma_order(x, a.end);
    lemma_order(x, b.end);
    lemma_order(a.start, b.start);
    lemma_order(a.end, b.end);
    lemma_order(start, end);
    lemma_chain(x, a.start, b.start);
    lemma_chain(x, b.start, a.start);
    lemma_chain(x, a.end, b.end);
    lemma_chain(x, b.end, a.end);
    lemma_chain(start, x, end);
}

/// Offsets are ordered so.
pub proof fn law_offsets_are_ordered()
    ensures
        total_order::<usize>(),
{
}

/// Of two values exactly one comparison holds, in both notations.
proof fn lemma_order<T: Ord>(x: T, y: T)
    requires
        total_order::<T>(),
    ensures
        x.is_lt(&y) <==> x.cmp_spec(&y) == std::cmp::Ordering::Less,
        y.is_lt(&x) <==> y.cmp_spec(&x) == std::cmp::Ordering::Less,
        x.cmp_spec(&y) == std::cmp::Ordering::Equal <==> x == y,
        y.cmp_spec(&x) == std::cmp::Ordering::Equal <==> x == y,
        x.cmp_spec(&y) == std::cmp::Ordering::Less <==> y.cmp_spec(&x)
            == std::cmp::Ordering::Greater,
        y.cmp_spec(&x) == std::cmp::Ordering::Less <==> x.cmp_spec(&y)
            == std::cmp::Ordering::Greater,
{
    assert(x.partial_cmp_spec(&y) == Some(x.cmp_spec(&y)));
    assert(y.partial_cmp_spec(&x) == Some(y.cmp_spec(&x)));
}

/// A value less than a second one, which is not above a third, is less than the
/// third, and so from the other side.
proof fn lemma_chain<T: Ord>(x: T, y: T, z: T)
    requires
        total_order::<T>(),
    ensures
        x.cmp_spec(&y) == std::cmp::Ordering::Less && !(z.cmp_spec(&y)
            == std::cmp::Ordering::Less) ==> x.cmp_spec(&z) == std::cmp::Ordering::Less,
        !(y.cmp_spec(&x) == std::cmp::Ordering::Less) && y.cmp_spec(&z)
            == std::cmp::Ordering::Less ==> x.cmp_spec(&z) == std::cmp::Ordering::Less,
{
    lemma_order(x, y);
    lemma_order(y, z);
    lemma_order(x, z);
}

/// The distance between the ends of a range.
pub fn range_size<T: Sub<Output = T>>(range: Range<T>) -> (r: T)
    requires
        range.end.sub_req(range.start),
    ensures
        T::obeys_sub_spec() ==> r == range.end.sub_spec(range.start),
{
    range.end - range.start
}

/// The number of line breaks in the first `i` characters.
pub open spec fn row_at(chars: Seq<char>, i: int) -> nat
    decreases i,
{
    if i <= 0 {
        0
    } else {
        row_at(chars, i - 1) + if chars[i - 1] == '\n' {
            1nat
        } else {
            0nat
        }
    }
}

/// The number of characters between the last line break before `i` and `i`.
pub open spec fn column_at(chars: Seq<char>, i: int) -> nat
    decreases i,
{
    if i <= 0 || chars[i - 1] == '\n' {
        0
    } else {
        column_at(chars, i - 1) + 1
    }
}

/// Whether the character position `i` has the given row and column.
pub open spec fn is_at(chars: Seq<char>, i: int, point: Point) -> bool {
    row_at(chars, i) == point.row && column_at(chars, i) == point.column
}

/// The byte offset of the character position `i`.
pub open spec fn byte_offset(chars: Seq<char>, i: int) -> nat {
    encode_utf8(chars.subrange(0, i)).len()
}

/// The first character position, from `from` on, that is at the point or that
/// ends its row; the end of the text where there is none.
pub open spec fn point_index(chars: Seq<char>, point: Point, from: int) -> int
    decreases chars.len() - from,
{
    if from >= chars.len() {
        chars.len() as int
    } else if is_at(chars, from, point) || (chars[from] == '\n' && row_at(chars, from)
        == point.row) {
        from
    } else {
        point_index(chars, point, from + 1)
    }
}

/// The first character position, from `from` on, whose byte offset is not
/// below `offset`; the end of the text where there is none.
pub open spec fn offset_index(chars: Seq<char>, offset: int, from: int) -> int
    decreases chars.len() - from,
{
    if from >= chars.len() {
        chars.len() as int
    } else if byte_offset(chars, from) >= offset {
        from
    } else {
        offset_index(chars, offset, from + 1)
    }
}

/// Rows and columns are bounded by the position they belong to.
proof fn lemma_point_bounds(chars: Seq<char>, i: int)
    requires
        0 <= i <= chars.len(),
    ensures
        row_at(chars, i) <= i,
        column_at(chars, i) <= i,
    decreases i,
{
    if i > 0 {
        lemma_point_bounds(chars, i - 1);
    }
}

/// One character further on, the byte offset grows by its encoded length.
proof fn lemma_byte_offset_step(chars: Seq<char>, i: int)
    requires
        0 <= i < chars.len(),
    ensures
        byte_offset(chars, i + 1) == byte_offset(chars, i) + encode_scalar(chars[i] as u32).len(),
        byte_offset(chars, i) < byte_offset(chars, i + 1),
{
    let prefix = chars.subrange(0, i);
    assert(chars.subrange(0, i + 1) =~= prefix + seq![chars[i]]);
    lemma_encode_concat(prefix, seq![chars[i]]);
    lemma_encode_one(chars[i]);
}

/// Byte offsets grow with the character position.
proof fn lemma_byte_offset_monotonic(chars: Seq<char>, i: int, j: int)
    requires
        0 <= i <= j <= chars.len(),
    ensures
        byte_offset(chars, i) <= byte_offset(chars, j),
        i < j ==> byte_offset(chars, i) < byte_offset(chars, j),
    decreases j - i,
{
    if i < j {
        lemma_byte_offset_monotonic(chars, i, j - 1);
        lemma_byte_offset_step(chars, j - 1);
    }
}

/// The number of bytes that encode a character.
fn char_len(c: char) -> (n: usize)
    ensures
        n == encode_scalar(c as u32).len(),
{
    let v: u32 = c as u32;
    if v <= 0x7f {
        1
    } else if v <= 0x7ff {
        2
    } else if v <= 0xffff {
        3
    } else {
        4
    }
}

/// The byte offset of a point. A column beyond the end of its line stands for
/// that end, and a row beyond the last stands for the end of the text.
pub fn offset_from_point(source: &str, point: Point) -> (offset: usize)
    requires
        source@.len() <= u32::MAX,
    ensures
        offset == byte_offset(source@, point_index(source@, point, 0)),
{
    let total = source.len();
    let mut offset: usize = 0;
    let mut current_row: u32 = 0;
    let mut current_col: u32 = 0;
    assert(source@.subrange(0, 0) =~= Seq::<char>::empty());
    assert(source@.subrange(0, source@.len() as int) =~= source@);
    let bytes = source.as_bytes();
    assert(bytes.len() == source.spec_bytes().len());
    for ch in it: source.chars()
        invariant
            it.seq() == source@,
            source@.len() <= u32::MAX,
            bytes@ == source.spec_bytes(),
            bytes.len() == bytes@.len(),
            source@.subrange(0, source@.len() as int) == source@,
            current_row == row_at(source@, it.index() as int),
            current_col == column_at(source@, it.index() as int),
            offset == byte_offset(source@, it.index() as int),
            point_index(source@, point, 0) == point_index(source@, point, it.index() as int),
    {
        let ghost i: int = it.index() as int;
        if current_row == point.row && current_col == point.column {
            return offset;
        }
        proof {
            lemma_point_bounds(source@, i);
            lemma_byte_offset_step(source@, i);
            lemma_byte_offset_monotonic(source@, i + 1, source@.len() as int);
        }
        if ch == '\n' {
            if current_row == point.row {
                return offset;
            }
            current_row = current_row + 1;
            current_col = 0;
        } else {
            current_col = current_col + 1;
        }
        offset = offset + char_len(ch);
    }
    offset
}

/// The point of the first character whose byte offset is not below `offset`,
/// or of the end of the text.
pub fn point_from_offset(source: &str, offset: usize) -> (point: Point)
    requires
        source@.len() <= u32::MAX,
    ensures
        is_at(source@, offset_index(source@, offset as int, 0), point),
{
    let mut current_offset: usize = 0;
    let mut current_row: u32 = 0;
    let mut current_col: u32 = 0;
    assert(source@.subrange(0, 0) =~= Seq::<char>::empty());
    assert(source@.subrange(0, source@.len() as int) =~= source@);
    let bytes = source.as_bytes();
    for ch in it: source.chars()
        invariant
            it.seq() == source@,
            source@.len() <= u32::MAX,
            bytes@ == source.spec_bytes(),
            bytes.len() == bytes@.len(),
            source@.subrange(0, source@.len() as int) == source@,
            current_row == row_at(source@, it.index() as int),
            current_col == column_at(source@, it.index() as int),
            current_offset == byte_offset(source@, it.index() as int),
            offset_index(source@, offset as int, 0) == offset_index(
                source@,
                offset as int,
                it.index() as int,
            ),
    {
        let ghost i: int = it.index() as int;
        if current_offset >= offset {
            return Point::new(current_row, current_col);
        }
        proof {
            lemma_point_bounds(source@, i);
            lemma_byte_offset_step(source@, i);
            lemma_byte_offset_monotonic(source@, i + 1, source@.len() as int);
        }
        if ch == '\n' {
            current_row = current_row + 1;
            current_col = 0;
        } else {
            current_col = current_col + 1;
        }
        current_offset = current_offset + char_len(ch);
    }
    Point::new(current_row, current_col)
}

/// The points of both ends of a byte range.
pub fn point_range_from_offset_range(source: &str, range: Range<usize>) -> (r: Range<Point>)
    requires
        source@.len() <= u32::MAX,
    ensures
        is_at(source@, offset_index(source@, range.start as int, 0), r.start),
        is_at(source@, offset_index(source@, range.end as int, 0), r.end),
{
    let start = point_from_offset(source, range.start);
    let end = point_from_offset(source, range.end);
    start..end
}

/// Expands the range to begin and end at line boundaries.
pub fn expand_range_to_line_boundaries(source: &str, range: Range<usize>) -> (r: Range<usize>)
    requires
        is_char_boundary(source.spec_bytes(), range.start as int),
        is_char_boundary(source.spec_bytes(), range.end as int),
    ensures
        r.start == line_start(source.spec_bytes(), range.start as int),
        r.end == line_end(source.spec_bytes(), range.end as int),
        r.start <= range.start,
        range.end <= r.end <= source.spec_bytes().len(),
        is_char_boundary(source.spec_bytes(), r.start as int),
        is_char_boundary(source.spec_bytes(), r.end as int),
{
    proof {
        encode_utf8_valid_utf8(source@);
        lemma_line_boundaries(source.spec_bytes(), range.start as int);
        lemma_line_boundaries(source.spec_bytes(), range.end as int);
        lemma_line_start(source.spec_bytes(), range.start as int);
        lemma_line_end(source.spec_bytes(), range.end as int);
    }
    let start = line_start_from_offset(source, range.start);
    let end = line_end_from_offset(source, range.end);
    start..end
}

/// Finds the offset of the start of the line containing the given offset.
pub fn line_start_from_offset(source: &str, offset: usize) -> (r: usize)
    requires
        is_char_boundary(source.spec_bytes(), offset as int),
    ensures
        r == line_start(source.spec_bytes(), offset as int),
{
    proof {
        encode_utf8_valid_utf8(source@);
    }
    let bytes = source.as_bytes();
    let mut i: usize = offset;
    while i > 0
        invariant_except_break
            line_start(bytes@, offset as int) == line_start(bytes@, i as int),
            i <= bytes@.len(),
        ensures
            i == line_start(bytes@, offset as int),
        decreases i,
    {
        if bytes[i - 1] == NEWLINE {
            break;
        }
        i = i - 1;
    }
    i
}

/// Finds the offset of the newline at the end of the line containing the given offset.
pub fn line_end_from_offset(source: &str, offset: usize) -> (r: usize)
    requires
        is_char_boundary(source.spec_bytes(), offset as int),
    ensures
        r == line_end(source.spec_bytes(), offset as int),
{
    proof {
        encode_utf8_valid_utf8(source@);
    }
    find_newline(source.as_bytes(), offset)
}

/// The first newline at or after `from`, or the end of the text.
pub fn find_newline(bytes: &[u8], from: usize) -> (r: usize)
    requires
        from <= bytes@.len(),
    ensures
        r == line_end(bytes@, from as int),
{
    let mut i: usize = from;
    while i < bytes.len()
        invariant_except_break
            line_end(bytes@, from as int) == line_end(bytes@, i as int),
            i <= bytes@.len(),
        ensures
            i == line_end(bytes@, from as int),
        decreases bytes@.len() - i,
    {
        if bytes[i] == NEWLINE {
            break;
        }
        i = i + 1;
    }
    i
}

/// Where the row that lies `row` rows below the line at `from` starts, if the
/// text has that many.
pub open spec fn row_start(bytes: Seq<u8>, from: int, row: nat) -> Option<int>
    decreases row,
{
    if row == 0 {
        Some(from)
    } else {
        let end = line_end(bytes, from);
        if end < bytes.len() {
            row_start(bytes, end + 1, (row - 1) as nat)
        } else {
            None
        }
    }
}

/// The byte length of a row without its newline, and zero for a row that the
/// text does not have.
pub open spec fn row_len(bytes: Seq<u8>, row: nat) -> int {
    match row_start(bytes, 0, row) {
        Some(start) => line_end(bytes, start) - start,
        None => 0,
    }
}

/// Finds the byte length of the line containing the given row.
pub fn line_len(source: &str, row: u32) -> (r: usize)
    ensures
        r == row_len(source.spec_bytes(), row as nat),
        r <= source.spec_bytes().len(),
{
    let bytes = source.as_bytes();
    let mut current_row: u32 = 0;
    let mut start: usize = 0;
    while current_row < row
        invariant
            current_row <= row,
            start <= bytes@.len(),
            bytes@ == source.spec_bytes(),
            row_start(bytes@, 0, row as nat) == row_start(
                bytes@,
                start as int,
                (row - current_row) as nat,
            ),
        decreases row - current_row,
    {
        let end = find_newline(bytes, start);
        proof {
            lemma_line_end(bytes@, start as int);
        }
        if end >= bytes.len() {
            return 0;
        }
        start = end + 1;
        current_row = current_row + 1;
    }
    proof {
        lemma_line_end(bytes@, start as int);
    }
    find_newline(bytes, start) - start
}

/// A place in a source file.
#[derive(Debug, Clone)]
pub struct SourceLocation {
    pub path: String,
    pub point: Point,
}

/// Why a text is no source location.
#[derive(Debug)]
pub enum SourceLocationError {
    /// The text is not made of three parts.
    Format(String),
    /// The second part is no line number.
    Line(String),
    /// The third part is no column number.
    Column(String),
}

impl SourceLocation {
    /// The path, the line and the column, counted from one and joined by colons.
    pub open spec fn displayed(&self) -> Seq<char> {
        self.path@ + seq![':'] + decimal((self.point.row + 1) as nat) + seq![':'] + decimal(
            (self.point.column + 1) as nat,
        )
    }

    pub fn to_string(&self) -> (s: String)
        requires
            self.point.row < u32::MAX,
            self.point.column < u32::MAX,
        ensures
            s@ == self.displayed(),
    {
        let mut s = self.path.clone();
        s.push(':');
        push_decimal(&mut s, self.point.row as u64 + 1);
        s.push(':');
        push_decimal(&mut s, self.point.column as u64 + 1);
        assert(s@ =~= self.displayed());
        s
    }

    /// Reads `path:line:column`, the line and the column counted from one. A
    /// zero is read as one.
    pub fn from_str(s: &str) -> (r: Result<Self, SourceLocationError>)
        ensures
            match r {
                Ok(location) => {
                    let parts = split_parts(s.spec_bytes(), 0x3a, 0, 0);
                    &&& parts.len() == 3
                    &&& parsed_unsigned(parts[1], u32::MAX as nat) is Some
                    &&& parsed_unsigned(parts[2], u32::MAX as nat) is Some
                    &&& encode_utf8(location.path@) == parts[0]
                    &&& location.point.row == zero_based(
                        parsed_unsigned(parts[1], u32::MAX as nat)->0,
                    )
                    &&& location.point.column == zero_based(
                        parsed_unsigned(parts[2], u32::MAX as nat)->0,
                    )
                },
                Err(SourceLocationError::Format(text)) => {
                    &&& split_parts(s.spec_bytes(), 0x3a, 0, 0).len() != 3
                    &&& text@ == s@
                },
                Err(SourceLocationError::Line(text)) => {
                    let parts = split_parts(s.spec_bytes(), 0x3a, 0, 0);
                    &&& parts.len() == 3
                    &&& parsed_unsigned(parts[1], u32::MAX as nat) is None
                    &&& encode_utf8(text@) == parts[1]
                },
                Err(SourceLocationError::Column(text)) => {
                    let parts = split_parts(s.spec_bytes(), 0x3a, 0, 0);
                    &&& parts.len() == 3
                    &&& parsed_unsigned(parts[1], u32::MAX as nat) is Some
                    &&& parsed_unsigned(parts[2], u32::MAX as nat) is None
                    &&& encode_utf8(text@) == parts[2]
                },
            },
    {
        let parts = split(s, 0x3a);
        if parts.len() != 3 {
            return Err(SourceLocationError::Format(s.to_owned()));
        }
        let line: u32 = match parse_u32(parts[1]) {
            Some(line) => line,
            None => {
                return Err(SourceLocationError::Line(parts[1].to_owned()));
            },
        };
        let column: u32 = match parse_u32(parts[2]) {
            Some(column) => column,
            None => {
                return Err(SourceLocationError::Column(parts[2].to_owned()));
            },
        };
        Ok(
            SourceLocation {
                path: parts[0].to_owned(),
                point: Point::new(line.saturating_sub(1), column.saturating_sub(1)),
            },
        )
    }
}

/// A number counted from one, counted from zero.
pub open spec fn zero_based(n: nat) -> nat {
    if n == 0 {
        0
    } else {
        (n - 1) as nat
    }
}

impl SourceLocationError {
    /// The message for a user.
    pub fn to_string(&self) -> (s: String)
        ensures
            s@ == match self {
                SourceLocationError::Format(text) =>
                    "Invalid source location format. Expected 'file.rs:line:column', got '"@
                    + text@ + "'"@,
                SourceLocationError::Line(text) => "Invalid line number: '"@ + text@ + "'"@,
                SourceLocationError::Column(text) => "Invalid column number: '"@ + text@ + "'"@,
            },
    {
        let (start, text) = match self {
            SourceLocationError::Format(text) => (
                "Invalid source location format. Expected 'file.rs:line:column', got '",
                text,
            ),
            SourceLocationError::Line(text) => ("Invalid line number: '", text),
            SourceLocationError::Column(text) => ("Invalid column number: '", text),
        };
        let mut s = start.to_owned();
        s.append(text.as_str());
        s.append("'");
        s
    }
}

/// Up to the first separator a text is one part.
proof fn lemma_first_part(bytes: Seq<u8>, separator: u8, start: int, i: int, k: int)
    requires
        0 <= i <= k < bytes.len(),
        bytes[k] == separator,
        forall|j: int| i <= j < k ==> bytes[j] != separator,
    ensures
        split_parts(bytes, separator, start, i) == seq![bytes.subrange(start, k)] + split_parts(
            bytes,
            separator,
            k + 1,
            k + 1,
        ),
    decreases k - i,
{
    if i < k {
        lemma_first_part(bytes, separator, start, i + 1, k);
    }
}

/// After the last separator a text is one part.
proof fn lemma_last_part(bytes: Seq<u8>, separator: u8, start: int, i: int)
    requires
        0 <= i <= bytes.len(),
        forall|j: int| i <= j < bytes.len() ==> bytes[j] != separator,
    ensures
        split_parts(bytes, separator, start, i) == seq![
            bytes.subrange(start, bytes.len() as int),
        ],
    decreases bytes.len() - i,
{
    if i < bytes.len() {
        lemma_last_part(bytes, separator, start, i + 1);
    }
}

/// A source location that is written out is read back as it was, if its path has no
/// colon.
pub proof fn law_location_round_trip(location: SourceLocation)
    requires
        location.point.row < u32::MAX,
        location.point.column < u32::MAX,
        forall|i: int|
            0 <= i < encode_utf8(location.path@).len() ==> #[trigger] encode_utf8(
                location.path@,
            )[i] != 0x3a,
    ensures
        ({
            let parts = split_parts(encode_utf8(location.displayed()), 0x3a, 0, 0);
            &&& parts.len() == 3
            &&& parts[0] == encode_utf8(location.path@)
            &&& parsed_unsigned(parts[1], u32::MAX as nat) == Some(
                (location.point.row + 1) as nat,
            )
            &&& parsed_unsigned(parts[2], u32::MAX as nat) == Some(
                (location.point.column + 1) as nat,
            )
        }),
{
    let row = (location.point.row + 1) as nat;
    let column = (location.point.column + 1) as nat;
    let path = encode_utf8(location.path@);
    let r = encode_utf8(decimal(row));
    let c = encode_utf8(decimal(column));
    lemma_encode_one(':');
    let colon = encode_utf8(seq![':']);
    assert(colon =~= seq![0x3au8]) by {
        assert((0x3au32 & 0x7fu32) as u8 == 0x3au8) by (bit_vector);
    }
    let head = location.path@ + seq![':'];
    lemma_encode_concat(location.path@, seq![':']);
    lemma_encode_concat(head, decimal(row));
    lemma_encode_concat(head + decimal(row), seq![':']);
    lemma_encode_concat(head + decimal(row) + seq![':'], decimal(column));
    let bytes = encode_utf8(location.displayed());
    assert(bytes == path + colon + r + colon + c);
    lemma_decimal_ascii(row);
    lemma_decimal_ascii(column);
    let first = path.len() as int;
    let second = first + 1 + r.len();
    assert(bytes[first] == 0x3a);
    assert(bytes[second] == 0x3a);
    assert forall|j: int| 0 <= j < first implies bytes[j] != 0x3a by {
        assert(bytes[j] == path[j]);
    }
    assert forall|j: int| first + 1 <= j < second implies bytes[j] != 0x3a by {
        assert(bytes[j] == r[j - first - 1]);
        assert(is_digit(r[j - first - 1]));
    }
    assert forall|j: int| second + 1 <= j < bytes.len() implies bytes[j] != 0x3a by {
        assert(bytes[j] == c[j - second - 1]);
        assert(is_digit(c[j - second - 1]));
    }
    lemma_first_part(bytes, 0x3a, 0, 0, first);
    lemma_first_part(bytes, 0x3a, first + 1, first + 1, second);
    lemma_last_part(bytes, 0x3a, second + 1, second + 1);
    assert(bytes.subrange(0, first) =~= path);
    assert(bytes.subrange(first + 1, second) =~= r);
    assert(bytes.subrange(second + 1, bytes.len() as int) =~= c);
    law_parse_decimal(row, u32::MAX as nat);
    law_parse_decimal(column, u32::MAX as nat);
}

/// Whether a language handles files with an extension.
pub open spec fn has_extension(language: Language, extension: Seq<char>) -> bool {
    exists|k: int|
        0 <= k < language.extensions@.len() && (#[trigger] language.extensions@[k])@ == extension
}

/// Tests whether a language handles files with an extension.
fn check_extension(language: &Language, extension: &str) -> (r: bool)
    ensures
        r == has_extension(*language, extension@),
{
    let mut k: usize = 0;
    while k < language.extensions.len()
        invariant
            k <= language.extensions@.len(),
            forall|j: int| 0 <= j < k ==> (#[trigger] language.extensions@[j])@ != extension@,
        decreases language.extensions@.len() - k,
    {
        if str_eq(language.extensions[k].as_str(), extension) {
            return true;
        }
        k = k + 1;
    }
    false
}

/// The first language from `k` on that handles files with an extension.
pub open spec fn first_with_extension(
    languages: Seq<Language>,
    extension: Seq<char>,
    k: int,
) -> Option<int>
    decreases languages.len() - k,
{
    if k >= languages.len() {
        None
    } else if has_extension(languages[k], extension) {
        Some(k)
    } else {
        first_with_extension(languages, extension, k + 1)
    }
}

/// The first language from `k` on that has a name.
pub open spec fn first_with_name(languages: Seq<Language>, name: Seq<char>, k: int) -> Option<int>
    decreases languages.len() - k,
{
    if k >= languages.len() {
        None
    } else if languages[k].name.0@ == name {
        Some(k)
    } else {
        first_with_name(languages, name, k + 1)
    }
}

/// The first language that handles files with an extension.
pub fn language_for_extension<'a>(languages: &'a Vec<Language>, extension: &str) -> (r: Option<
    &'a Language,
>)
    ensures
        match first_with_extension(languages@, extension@, 0) {
            Some(k) => r == Some(&languages@[k]),
            None => r is None,
        },
{
    let mut k: usize = 0;
    while k < languages.len()
        invariant
            k <= languages@.len(),
            first_with_extension(languages@, extension@, 0) == first_with_extension(
                languages@,
                extension@,
                k as int,
            ),
        decreases languages@.len() - k,
    {
        if check_extension(&languages[k], extension) {
            return Some(&languages[k]);
        }
        k = k + 1;
    }
    None
}

/// The first language that has a name.
pub fn language_for_name<'a>(languages: &'a Vec<Language>, name: &LanguageName) -> (r: Option<
    &'a Language,
>)
    ensures
        match first_with_name(languages@, name.0@, 0) {
            Some(k) => r == Some(&languages@[k]),
            None => r is None,
        },
{
    let mut k: usize = 0;
    while k < languages.len()
        invariant
            k <= languages@.len(),
            first_with_name(languages@, name.0@, 0) == first_with_name(
                languages@,
                name.0@,
                k as int,
            ),
        decreases languages@.len() - k,
    {
        if str_eq(languages[k].name.0.as_str(), name.0.as_str()) {
            return Some(&languages[k]);
        }
        k = k + 1;
    }
    None
}

/// The first language that handles a file, by the extension of its path.
pub fn language_for_file<'a>(languages: &'a Vec<Language>, path: &str) -> (r: Option<
    &'a Language,
>)
    ensures
        is_portable(path@) ==> match path_extension_of(path@) {
            Some(extension) => match first_with_extension(languages@, extension, 0) {
                Some(k) => r == Some(&languages@[k]),
                None => r is None,
            },
            None => r is None,
        },
        r is None || exists|extension: Seq<char>|
            {
                &&& #[trigger] first_with_extension(languages@, extension, 0) is Some
                &&& r == Some(&languages@[first_with_extension(languages@, extension, 0)->0])
            },
{
    match path_extension(path) {
        Some(extension) => language_for_extension(languages, extension.as_str()),
        None => None,
    }
}

/// A language under its name, with the queries that the assets hold for it.
pub fn load_language(
    name: &str,
    extensions: &[&str],
    ts_language: Grammar,
    supports_references: bool,
    assets: &Vec<(String, String)>,
) -> (r: Result<Language, LanguageError>)
    ensures
        r is Ok <==> queries_accepted(ts_language, name.spec_bytes(), assets@),
        r matches Ok(language) ==> is_loaded(
            language,
            name@,
            extensions@.map_values(|e: &str| e@),
            ts_language,
            supports_references,
            assets@,
        ),
{
    let mut suffixes: Vec<String> = Vec::new();
    let mut k: usize = 0;
    while k < extensions.len()
        invariant
            k <= extensions@.len(),
            suffixes@.len() == k,
            forall|j: int| 0 <= j < k ==> (#[trigger] suffixes@[j])@ == extensions@[j]@,
        decreases extensions@.len() - k,
    {
        suffixes.push(extensions[k].to_owned());
        k = k + 1;
    }
    assert(texts(suffixes@) =~= extensions@.map_values(|e: &str| e@));
    let language = Language {
        name: LanguageName(name.to_owned()),
        extensions: suffixes,
        ts_language,
        outline_config: None,
        highlights_query: None,
        supports_references,
    };
    language.with_queries(load_queries(name, assets))
}

/// Whether a language has the given parts, and the queries that the assets hold for
/// it.
pub open spec fn is_loaded(
    language: Language,
    name: Seq<char>,
    extensions: Seq<Seq<char>>,
    ts_language: Grammar,
    supports_references: bool,
    assets: Seq<(String, String)>,
) -> bool {
    let highlights = query_text(
        assets,
        encode_utf8(name),
        "highlights".spec_bytes(),
        assets.len(),
    );
    let outline = query_text(assets, encode_utf8(name), "outline".spec_bytes(), assets.len());
    &&& language.name.0@ == name
    &&& texts(language.extensions@) == extensions
    &&& language.ts_language == ts_language
    &&& language.supports_references == supports_references
    &&& text_of(language.highlights_query) == highlights
    &&& match outline {
        Some(query) => is_outline_config(
            language.outline_config,
            None,
            capture_names(ts_language, query)->0,
            query,
        ),
        None => language.outline_config is None,
    }
}

/// Whether the queries that the assets hold for a language suit its grammar.
pub open spec fn queries_accepted(
    ts_language: Grammar,
    name: Seq<u8>,
    assets: Seq<(String, String)>,
) -> bool {
    let outline = query_text(assets, name, "outline".spec_bytes(), assets.len());
    let highlights = query_text(assets, name, "highlights".spec_bytes(), assets.len());
    &&& outline matches Some(query) ==> capture_names(ts_language, query) is Some
    &&& highlights matches Some(query) ==> capture_names(ts_language, query) is Some
}

/// Expanding to line boundaries twice is expanding once, and the lines cover
/// the range.
pub proof fn law_expand_idempotent(bytes: Seq<u8>, start: int, end: int)
    requires
        0 <= start <= bytes.len(),
        0 <= end <= bytes.len(),
    ensures
        line_start(bytes, line_start(bytes, start)) == line_start(bytes, start),
        line_end(bytes, line_end(bytes, end)) == line_end(bytes, end),
        line_start(bytes, start) <= start,
        end <= line_end(bytes, end),
{
    lemma_line_start(bytes, start);
    lemma_line_end(bytes, end);
}

/// The row of a later position is not smaller, and is greater once a line
/// break lies between; within a row the column tells positions apart.
proof fn lemma_points_distinct(chars: Seq<char>, i: int, j: int)
    requires
        0 <= i < j <= chars.len(),
    ensures
        row_at(chars, i) <= row_at(chars, j),
        row_at(chars, i) == row_at(chars, j) ==> column_at(chars, i) < column_at(chars, j)
            && chars[i] != '\n',
    decreases j - i,
{
    if i < j - 1 {
        lemma_points_distinct(chars, i, j - 1);
    }
}

/// The point of a position leads back to its byte offset, and the byte offset
/// of a position leads back to its point.
pub proof fn law_point_offset_round_trip(chars: Seq<char>, i: int, point: Point)
    requires
        0 <= i <= chars.len(),
        is_at(chars, i, point),
    ensures
        point_index(chars, point, 0) == i,
        offset_index(chars, byte_offset(chars, i) as int, 0) == i,
{
    lemma_round_trip_from(chars, i, point, 0);
}

proof fn lemma_round_trip_from(chars: Seq<char>, i: int, point: Point, from: int)
    requires
        0 <= from <= i <= chars.len(),
        is_at(chars, i, point),
    ensures
        point_index(chars, point, from) == i,
        offset_index(chars, byte_offset(chars, i) as int, from) == i,
    decreases i - from,
{
    lemma_byte_offset_monotonic(chars, from, i);
    if from < i {
        lemma_points_distinct(chars, from, i);
        lemma_round_trip_from(chars, i, point, from + 1);
    }
}

/// The row of a position is the number of line breaks before it.
pub proof fn law_row_counts_line_breaks(chars: Seq<char>, i: int)
    requires
        0 <= i <= chars.len(),
    ensures
        row_at(chars, i) == chars.take(i).filter(|c: char| c == '\n').len(),
    decreases i,
{
    reveal(Seq::filter);
    if i > 0 {
        law_row_counts_line_breaks(chars, i - 1);
        assert(chars.take(i).drop_last() =~= chars.take(i - 1));
    }
}

/// The column of a position is its distance from the start of its line, which is the
/// start of the text or follows a line break.
pub proof fn law_column_counts_from_line_start(chars: Seq<char>, i: int)
    requires
        0 <= i <= chars.len(),
    ensures
        column_at(chars, i) <= i,
        column_at(chars, i) == i || chars[i - column_at(chars, i) - 1] == '\n',
        forall|j: int| i - column_at(chars, i) <= j < i ==> chars[j] != '\n',
    decreases i,
{
    if i > 0 && chars[i - 1] != '\n' {
        law_column_counts_from_line_start(chars, i - 1);
    }
}

/// A point stands for the first position that has its row and column or ends its
/// row; where there is none, for the end of the text.
pub proof fn law_points_are_clamped(chars: Seq<char>, point: Point)
    ensures
        ({
            let i = point_index(chars, point, 0);
            &&& 0 <= i <= chars.len()
            &&& i < chars.len() ==> row_at(chars, i) == point.row && (column_at(chars, i)
                == point.column || chars[i] == '\n')
            &&& forall|j: int|
                0 <= j < i ==> #[trigger] row_at(chars, j) != point.row || (column_at(chars, j)
                    != point.column && chars[j] != '\n')
        }),
{
    lemma_clamped_from(chars, point, 0);
}

proof fn lemma_clamped_from(chars: Seq<char>, point: Point, from: int)
    requires
        0 <= from <= chars.len(),
    ensures
        ({
            let i = point_index(chars, point, from);
            &&& from <= i <= chars.len()
            &&& i < chars.len() ==> row_at(chars, i) == point.row && (column_at(chars, i)
                == point.column || chars[i] == '\n')
            &&& forall|j: int|
                from <= j < i ==> #[trigger] row_at(chars, j) != point.row || (column_at(chars, j)
                    != point.column && chars[j] != '\n')
        }),
    decreases chars.len() - from,
{
    if from < chars.len() && !(is_at(chars, from, point) || (chars[from] == '\n' && row_at(
        chars,
        from,
    ) == point.row)) {
        lemma_clamped_from(chars, point, from + 1);
    }
}

/// An offset stands for the first position that is not before it; where there is
/// none, for the end of the text.
pub proof fn law_offsets_are_rounded_up(chars: Seq<char>, offset: int)
    ensures
        ({
            let i = offset_index(chars, offset, 0);
            &&& 0 <= i <= chars.len()
            &&& i < chars.len() ==> encode_utf8(chars.take(i)).len() >= offset
            &&& forall|j: int|
                0 <= j < i ==> encode_utf8(#[trigger] chars.take(j)).len() < offset
        }),
{
    lemma_rounded_from(chars, offset, 0);
    let i = offset_index(chars, offset, 0);
    assert(chars.take(i) =~= chars.subrange(0, i));
    assert forall|j: int| 0 <= j < i implies encode_utf8(#[trigger] chars.take(j)).len()
        < offset by {
        assert(chars.take(j) =~= chars.subrange(0, j));
        assert(byte_offset(chars, j) < offset);
    }
}

proof fn lemma_rounded_from(chars: Seq<char>, offset: int, from: int)
    requires
        0 <= from <= chars.len(),
    ensures
        ({
            let i = offset_index(chars, offset, from);
            &&& from <= i <= chars.len()
            &&& i < chars.len() ==> byte_offset(chars, i) >= offset
            &&& forall|j: int| from <= j < i ==> #[trigger] byte_offset(chars, j) < offset
        }),
    decreases chars.len() - from,
{
    if from < chars.len() && byte_offset(chars, from) < offset {
        lemma_rounded_from(chars, offset, from + 1);
    }
}

/// A row starts behind as many newlines as its number says, and there is none where
/// the text has fewer.
pub proof fn law_rows_follow_newlines(bytes: Seq<u8>, row: nat)
    ensures
        match row_start(bytes, 0, row) {
            Some(start) => {
                &&& 0 <= start <= bytes.len()
                &&& start == 0 || bytes[start - 1] == NEWLINE
                &&& bytes.take(start).filter(|b: u8| b == NEWLINE).len() == row
            },
            None => bytes.filter(|b: u8| b == NEWLINE).len() < row,
        },
{
    lemma_rows_from(bytes, 0, row);
    assert(bytes.skip(0) =~= bytes);
    if let Some(start) = row_start(bytes, 0, row) {
        assert(bytes.take(start) =~= bytes.subrange(0, start));
    }
}

proof fn lemma_rows_from(bytes: Seq<u8>, from: int, row: nat)
    requires
        0 <= from <= bytes.len(),
    ensures
        match row_start(bytes, from, row) {
            Some(start) => {
                &&& from <= start <= bytes.len()
                &&& start == from || bytes[start - 1] == NEWLINE
                &&& bytes.subrange(from, start).filter(|b: u8| b == NEWLINE).len() == row
            },
            None => bytes.skip(from).filter(|b: u8| b == NEWLINE).len() < row,
        },
    decreases row,
{
    reveal(Seq::filter);
    let is_break = |b: u8| b == NEWLINE;
    if row == 0 {
        assert(bytes.subrange(from, from) =~= Seq::empty());
    } else {
        let end = line_end(bytes, from);
        lemma_line_end(bytes, from);
        lemma_nothing_kept(bytes.subrange(from, end));
        if end < bytes.len() {
            lemma_rows_from(bytes, end + 1, (row - 1) as nat);
            let line = bytes.subrange(from, end + 1);
            assert(line.drop_last() =~= bytes.subrange(from, end));
            assert(line.filter(is_break).len() == 1);
            match row_start(bytes, end + 1, (row - 1) as nat) {
                Some(start) => {
                    let rest = bytes.subrange(end + 1, start);
                    Seq::filter_distributes_over_add(line, rest, is_break);
                    assert(line + rest =~= bytes.subrange(from, start));
                },
                None => {
                    let rest = bytes.skip(end + 1);
                    Seq::filter_distributes_over_add(line, rest, is_break);
                    assert(line + rest =~= bytes.skip(from));
                },
            }
        } else {
            assert(bytes.subrange(from, end) =~= bytes.skip(from));
        }
    }
}

proof fn lemma_nothing_kept(line: Seq<u8>)
    requires
        forall|i: int| 0 <= i < line.len() ==> line[i] != NEWLINE,
    ensures
        line.filter(|b: u8| b == NEWLINE).len() == 0,
    decreases line.len(),
{
    reveal(Seq::filter);
    if line.len() > 0 {
        lemma_nothing_kept(line.drop_last());
    }
}

/// The language of an extension is the first one that lists it, and there is none
/// only where no language lists it.
pub proof fn law_first_language_with_extension(languages: Seq<Language>, extension: Seq<char>, from: int)
    requires
        0 <= from,
    ensures
        match first_with_extension(languages, extension, from) {
            Some(k) => {
                &&& from <= k < languages.len()
                &&& texts(languages[k].extensions@).contains(extension)
                &&& forall|j: int|
                    from <= j < k ==> !texts((#[trigger] languages[j]).extensions@).contains(
                        extension,
                    )
            },
            None => forall|j: int|
                from <= j < languages.len() ==> !texts(
                    (#[trigger] languages[j]).extensions@,
                ).contains(extension),
        },
    decreases languages.len() - from,
{
    if from < languages.len() {
        let listed = languages[from].extensions@;
        if has_extension(languages[from], extension) {
            let k = choose|k: int|
                0 <= k < listed.len() && (#[trigger] listed[k])@ == extension;
            assert(texts(listed)[k] == extension);
        } else {
            assert forall|k: int| 0 <= k < texts(listed).len() implies #[trigger] texts(listed)[k]
                != extension by {
                assert(listed[k]@ == texts(listed)[k]);
            }
            law_first_language_with_extension(languages, extension, from + 1);
        }
    }
}

/// The language of a name is the first one that has it, and there is none only where
/// no language has it.
pub proof fn law_first_language_with_name(languages: Seq<Language>, name: Seq<char>, from: int)
    requires
        0 <= from,
    ensures
        match first_with_name(languages, name, from) {
            Some(k) => {
                &&& from <= k < languages.len()
                &&& languages[k].name.0@ == name
                &&& forall|j: int| from <= j < k ==> (#[trigger] languages[j]).name.0@ != name
            },
            None => forall|j: int|
                from <= j < languages.len() ==> (#[trigger] languages[j]).name.0@ != name,
        },
    decreases languages.len() - from,
{
    if from < languages.len() && languages[from].name.0@ != name {
        law_first_language_with_name(languages, name, from + 1);
    }
}

/// Counting from one and then from zero gives a number back.
pub proof fn law_counting_from_zero(n: nat)
    ensures
        zero_based(n + 1) == n,
        zero_based(0) == 0,
{
}

} // verus!
