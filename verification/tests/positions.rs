//! Positions and differences.
use std::cmp::Ordering;
use zed_parts::multi_buffer::position::{
    Offset as BufferOffset, Point as BufferPoint, Row as BufferRow,
};
use zed_parts::rope::delta::{DeltaColumn, DeltaOffset, DeltaPoint, DeltaRow, SaturatingSub};
use zed_parts::rope::position::{Column, Offset, OffsetRangeExt, Point, Row, Utf16};
use zed_parts::rope::spaces::{self, to_inner};
use zed_parts::rope::type_path::short_name;

struct Rope;

fn delta(row: u32, column: u32) -> DeltaPoint {
    DeltaPoint::new(row, column)
}

fn point(row: u32, column: u32) -> Point<Rope> {
    Point::new(row, column)
}

#[test]
fn point_to_delta() {
    assert_eq!(point(1, 2).to_delta(), delta(1, 2));
    assert!(Point::<Rope>::from((1, 2)) == point(1, 2));
}

#[test]
fn differences_in_rows_start_columns_anew() {
    assert_eq!(delta(1, 5) + delta(0, 2), delta(1, 7));
    assert_eq!(delta(1, 5) + delta(2, 3), delta(3, 3));
    assert_eq!(delta(1, 5) + &delta(2, 3), delta(3, 3));
    assert_eq!(delta(3, 4) - delta(3, 1), delta(0, 3));
    assert_eq!(delta(3, 4) - delta(1, 9), delta(2, 4));
    assert_eq!(delta(3, 4) - &delta(1, 9), delta(2, 4));
    let mut sum = delta(1, 5);
    sum.add_assign(delta(2, 3));
    assert_eq!(sum, delta(3, 3));
    assert_eq!(delta(1, 5).saturating_sub(delta(1, 6)), DeltaPoint::zero());
    assert_eq!(delta(2, 0).saturating_sub(delta(1, 6)), delta(1, 0));
    assert!(DeltaPoint::default().is_zero() && !delta(0, 1).is_zero());
}

#[test]
fn difference_leads_there_and_back() {
    for (from, to) in [(delta(0, 3), delta(0, 7)), (delta(1, 9), delta(4, 2))] {
        assert_eq!(from + (to - from), to);
    }
    assert_eq!((delta(1, 9) + delta(3, 2)) - delta(1, 9), delta(3, 2));
    let (a, b, c) = (delta(1, 2), delta(0, 3), delta(2, 4));
    assert_eq!((a + b) + c, a + (b + c));
}

#[test]
fn points_are_ordered_by_rows_first() {
    assert!(delta(1, 9) < delta(2, 0));
    assert!(delta(2, 1) > delta(2, 0));
    assert_eq!(delta(2, 1).partial_cmp(&delta(2, 1)), Some(Ordering::Equal));
    assert_eq!(delta(1, 9).cmp(&delta(2, 0)), Ordering::Less);
    assert!(point(1, 9) < point(2, 0));
    assert!(DeltaPoint::max_value() > delta(u32::MAX, 0));
}

#[test]
fn counts_add_and_subtract() {
    assert_eq!(DeltaRow::new(2) + DeltaRow::from(3), DeltaRow::new(5));
    assert_eq!(DeltaColumn::new(5) - DeltaColumn::new(3), DeltaColumn::new(2));
    assert_eq!(DeltaOffset::new(5).saturating_sub(DeltaOffset::new(7)), DeltaOffset::zero());
    let mut offset = DeltaOffset::new(5);
    offset.add_assign(DeltaOffset::new(2));
    offset.sub_assign(DeltaOffset::new(3));
    assert_eq!(offset, DeltaOffset::new(4));
    assert!(DeltaRow::zero().is_zero() && DeltaRow::max_value().count == u32::MAX);
}

#[test]
fn positions_move_by_differences() {
    assert!(point(1, 5) + delta(1, 2) == point(2, 2));
    assert!(point(2, 2) - delta(1, 9) == point(1, 2));
    assert_eq!(point(2, 2) - point(1, 9), delta(1, 2));
    assert_eq!(SaturatingSub::<Point<Rope>>::saturating_sub(point(1, 0), point(2, 0)), delta(0, 0));
    assert!(SaturatingSub::<DeltaPoint>::saturating_sub(point(1, 0), delta(2, 0)).is_zero());
    let row = Row::<Rope>::new(4);
    assert!(row + DeltaRow::new(1) == Row::new(5));
    assert_eq!(row - Row::new(1), DeltaRow::new(3));
    let mut column = Column::<Rope>::new(4);
    column.sub_assign(DeltaColumn::new(4));
    assert!(column.is_zero());
    let mut offset = Offset::<Rope>::from(4usize);
    offset.add_assign(DeltaOffset::new(2));
    assert_eq!(offset.to_delta(), DeltaOffset::new(6));
    let range = Offset::<Rope>::new(1)..Offset::new(3);
    assert_eq!(range.to_usize(), 1..3);
    let rows = Point::<Rope>::row_range(Row::new(1)..Row::new(2));
    assert!(rows.start == point(1, 0) && rows.end == point(2, 0));
    let utf16 = Utf16::<Row<Rope>>::from(3u32);
    assert!(utf16.0 == Row::new(3));
    let copy = row.clone();
    assert!(copy == row);
}

#[test]
fn positions_have_short_names() {
    assert_eq!(short_name("a::b::C"), "C");
    assert_eq!(short_name("C"), "C");
    assert_eq!(short_name("a:::C"), ":C");
    let path = "positions::Rope";
    assert_eq!(point(1, 2).debug_text(path), "RopePoint(1, 2)");
    assert_eq!(Row::<Rope>::new(7).debug_text(path), "RopeRow(7)");
    assert_eq!(Column::<Rope>::new(7).debug_text(path), "RopeColumn(7)");
    assert_eq!(Offset::<Rope>::new(7).debug_text(path), "RopeOffset(7)");
    assert_eq!(BufferOffset::<Rope>::new(7).debug_text(path), "RopeOffset(7)");
    assert_eq!(BufferPoint::<Rope>::new(7, 8).debug_text(path), "RopePoint(7, 8)");
    assert_eq!(BufferRow::<Rope>::new(7).debug_text(path), "RopeRow(7)");
}

#[test]
fn buffer_positions_compute() {
    let a = BufferOffset::<Rope>::new(5);
    assert!(a.saturating_sub(BufferOffset::new(9)).is_zero());
    assert_eq!((a - BufferOffset::new(2)).value, 3);
    assert_eq!((a + BufferOffset::new(2)).to_string(), "7");
    assert!(BufferOffset::<Rope>::zero() < a);
    let p = BufferPoint::<Rope>::new(1, 5);
    assert!(p + BufferPoint::new(2, 3) == BufferPoint::new(3, 3));
    assert!(BufferPoint::new(3, 3) - p == BufferPoint::<Rope>::new(2, 3));
    assert_eq!((p.row(), p.column()), (1, 5));
    assert!(BufferPoint::<Rope>::default().is_zero());
    let mut row = BufferRow::<Rope>::new(4);
    row.sub_assign(BufferRow::new(1));
    assert_eq!(row.to_string(), "3");
    let mut moved = p;
    moved.add_assign(BufferPoint::new(0, 1));
    assert!(moved == BufferPoint::new(1, 6));
}

#[test]
fn inner_points_start_at_the_origin() {
    let at = |row: u32, column: u32| spaces::Point {
        row: spaces::Row { number: row, phantom: std::marker::PhantomData },
        column: spaces::Chars { char_len: column, phantom: std::marker::PhantomData },
    };
    let origin = spaces::Point::<spaces::Origin<spaces::Delta, spaces::Buffer>> {
        row: spaces::Row { number: 1, phantom: std::marker::PhantomData },
        column: spaces::Chars { char_len: 2, phantom: std::marker::PhantomData },
    };
    let inner = to_inner(origin, at(3, 7));
    assert_eq!((inner.row.number, inner.column.char_len), (2, 5));
    assert_eq!(spaces::Offset::<spaces::Buffer>::new(4).byte_len, 4);
}
