//! Positions in a text of some kind: `T` says in which.
use crate::rope::delta::{
    law_saturating_difference, DeltaColumn, DeltaOffset, DeltaPoint, DeltaRow, SaturatingSub,
};
use crate::rope::type_path::{is_last_part, short_name};
use crate::text::{decimal, push_decimal};
use std::cmp::Ordering;
use std::marker::PhantomData;
use std::ops::{Add, Range, Sub};
use vstd::prelude::*;
use vstd::std_specs::cmp::{
    PartialEqSpec, PartialEqSpecImpl, PartialOrdSpec, PartialOrdSpecImpl,
};
use vstd::std_specs::convert::{FromSpecImpl, IntoSpec};
use vstd::std_specs::ops::{AddSpec, AddSpecImpl, SubSpec, SubSpecImpl};
use vstd::string::*;

verus! {

/// A number of bytes.
#[derive(Clone, Copy, Debug, Eq, Hash, PartialEq, PartialOrd, Ord, Structural)]
pub struct Bytes(pub u32);

/// A position or a count in UTF-8 code units.
#[derive(Clone, Copy, Debug, Eq, Hash, PartialEq, PartialOrd, Ord)]
pub struct Utf8<T>(pub T);

/// A position or a count in UTF-16 code units.
#[derive(Clone, Copy, Debug, Eq, Hash, PartialEq, PartialOrd, Ord)]
pub struct Utf16<T>(pub T);

/// A zero-indexed point in a text buffer consisting of a row and column.
pub struct Point<T> {
    pub row: Row<T>,
    pub column: Column<T>,
}

pub struct Row<T> {
    pub number: u32,
    pub phantom: PhantomData<T>,
}

pub struct Column<T> {
    pub number: u32,
    pub phantom: PhantomData<T>,
}

pub struct Offset<T> {
    pub position: usize,
    pub phantom: PhantomData<T>,
}

/// A range of positions as a range of numbers.
pub trait OffsetRangeExt: Sized {
    spec fn numbers(self) -> Range<usize>;

    fn to_usize(self) -> (r: Range<usize>)
        ensures
            r == self.numbers(),
    ;
}

impl<T> OffsetRangeExt for Range<Offset<T>> {
    open spec fn numbers(self) -> Range<usize> {
        self.start.position..self.end.position
    }

    fn to_usize(self) -> (r: Range<usize>) {
        self.start.position..self.end.position
    }
}

impl<T> Point<T> {
    /// The difference from the start of the text.
    pub open spec fn delta(self) -> DeltaPoint {
        DeltaPoint {
            row: DeltaRow { count: self.row.number },
            column: DeltaColumn { count: self.column.number },
        }
    }

    /// The point at a difference from the start of the text.
    pub open spec fn at(delta: DeltaPoint) -> Self {
        Point { row: Row::at(delta.row), column: Column::at(delta.column) }
    }

    pub fn zero() -> (r: Self)
        ensures
            r.delta() == DeltaPoint::nothing(),
    {
        Point { row: Row::new(0), column: Column::new(0) }
    }

    pub fn max_value() -> (r: Self)
        ensures
            r.row.number == u32::MAX,
            r.column.number == u32::MAX,
    {
        Point { row: Row::new(u32::MAX), column: Column::new(u32::MAX) }
    }

    pub fn new<R, C>(row: R, column: C) -> (r: Self) where
        R: IntoSpec<Row<T>>,
        C: IntoSpec<Column<T>>,

        ensures
            R::obeys_into_spec() ==> r.row == row.into_spec(),
            C::obeys_into_spec() ==> r.column == column.into_spec(),
    {
        Point { row: row.into(), column: column.into() }
    }

    /// The starts of two rows.
    pub fn row_range(range: Range<Row<T>>) -> (r: Range<Self>)
        ensures
            r.start.row == range.start,
            r.start.column.number == 0,
            r.end.row == range.end,
            r.end.column.number == 0,
    {
        Point { row: range.start, column: Column::new(0) }..Point {
            row: range.end,
            column: Column::new(0),
        }
    }

    pub fn is_zero(self) -> (r: bool)
        ensures
            r == (self.delta() == DeltaPoint::nothing()),
    {
        self == Point::zero()
    }

    pub fn to_delta(self) -> (r: DeltaPoint)
        ensures
            r == self.delta(),
    {
        DeltaPoint { row: self.row.to_delta(), column: self.column.to_delta() }
    }

    /// Only a difference from the start of the text is a position, so callers add
    /// differences to positions instead.
    fn from_delta(delta: DeltaPoint) -> (r: Self)
        ensures
            r == Point::<T>::at(delta),
    {
        Point { row: Row::from_delta(delta.row), column: Column::from_delta(delta.column) }
    }

    pub fn add_assign(&mut self, delta: DeltaPoint)
        requires
            old(self).delta().can_add(delta),
        ensures
            final(self).delta() == old(self).delta().plus(delta),
    {
        *self = *self + delta;
    }

    pub fn sub_assign(&mut self, delta: DeltaPoint)
        requires
            !old(self).delta().is_before(delta),
        ensures
            final(self).delta() == old(self).delta().minus(delta),
    {
        *self = *self - delta;
    }

    /// The point as text for developers, after the name of the kind of text,
    /// whose path is given.
    pub fn debug_text(&self, type_path: &str) -> (s: String)
        ensures
            exists|name: Seq<char>|
                #[trigger] is_last_part(name, type_path@) && s@ == name + "Point("@ + decimal(
                    self.row.number as nat,
                ) + ", "@ + decimal(self.column.number as nat) + ")"@,
    {
        let name = short_name(type_path);
        let mut s = name.to_owned();
        s.append("Point(");
        push_decimal(&mut s, self.row.number as u64);
        s.append(", ");
        push_decimal(&mut s, self.column.number as u64);
        s.append(")");
        assert(is_last_part(name@, type_path@));
        s
    }
}

impl<T> Row<T> {
    /// The position at a difference from the start.
    pub open spec fn at(delta: DeltaRow) -> Self {
        Row { number: delta.count, phantom: PhantomData }
    }

    pub fn new(row_number: u32) -> (r: Self)
        ensures
            r.number == row_number,
            r == Row::<T>::at(DeltaRow { count: row_number }),
    {
        Row { number: row_number, phantom: PhantomData }
    }

    pub fn is_zero(self) -> (r: bool)
        ensures
            r == (self.number == 0),
    {
        self.number == 0
    }

    pub fn to_delta(self) -> (r: DeltaRow)
        ensures
            r.count == self.number,
    {
        DeltaRow { count: self.number }
    }

    fn from_delta(delta: DeltaRow) -> (r: Self)
        ensures
            r == Row::<T>::at(delta),
    {
        Row::new(delta.count)
    }

    pub fn add_assign(&mut self, delta: DeltaRow)
        requires
            old(self).number + delta.count <= u32::MAX,
        ensures
            final(self).number == old(self).number + delta.count,
    {
        *self = *self + delta;
    }

    pub fn sub_assign(&mut self, delta: DeltaRow)
        requires
            delta.count <= old(self).number,
        ensures
            final(self).number == old(self).number - delta.count,
    {
        *self = *self - delta;
    }

    /// The position as text for developers, after the name of the kind of text,
    /// whose path is given.
    pub fn debug_text(&self, type_path: &str) -> (s: String)
        ensures
            exists|name: Seq<char>|
                #[trigger] is_last_part(name, type_path@) && s@ == name + "Row("@ + decimal(
                    self.number as nat,
                ) + ")"@,
    {
        let name = short_name(type_path);
        let mut s = name.to_owned();
        s.append("Row(");
        push_decimal(&mut s, self.number as u64);
        s.append(")");
        assert(is_last_part(name@, type_path@));
        s
    }
}

impl<T> Column<T> {
    /// The position at a difference from the start.
    pub open spec fn at(delta: DeltaColumn) -> Self {
        Column { number: delta.count, phantom: PhantomData }
    }

    pub fn new(column_number: u32) -> (r: Self)
        ensures
            r.number == column_number,
            r == Column::<T>::at(DeltaColumn { count: column_number }),
    {
        Column { number: column_number, phantom: PhantomData }
    }

    pub fn is_zero(self) -> (r: bool)
        ensures
            r == (self.number == 0),
    {
        self.number == 0
    }

    pub fn to_delta(self) -> (r: DeltaColumn)
        ensures
            r.count == self.number,
    {
        DeltaColumn { count: self.number }
    }

    fn from_delta(delta: DeltaColumn) -> (r: Self)
        ensures
            r == Column::<T>::at(delta),
    {
        Column::new(delta.count)
    }

    pub fn add_assign(&mut self, delta: DeltaColumn)
        requires
            old(self).number + delta.count <= u32::MAX,
        ensures
            final(self).number == old(self).number + delta.count,
    {
        *self = *self + delta;
    }

    pub fn sub_assign(&mut self, delta: DeltaColumn)
        requires
            delta.count <= old(self).number,
        ensures
            final(self).number == old(self).number - delta.count,
    {
        *self = *self - delta;
    }

    /// The position as text for developers, after the name of the kind of text,
    /// whose path is given.
    pub fn debug_text(&self, type_path: &str) -> (s: String)
        ensures
            exists|name: Seq<char>|
                #[trigger] is_last_part(name, type_path@) && s@ == name + "Column("@ + decimal(
                    self.number as nat,
                ) + ")"@,
    {
        let name = short_name(type_path);
        let mut s = name.to_owned();
        s.append("Column(");
        push_decimal(&mut s, self.number as u64);
        s.append(")");
        assert(is_last_part(name@, type_path@));
        s
    }
}

impl<T> Offset<T> {
    /// The position at a difference from the start.
    pub open spec fn at(delta: DeltaOffset) -> Self {
        Offset { position: delta.count, phantom: PhantomData }
    }

    pub fn new(byte_position: usize) -> (r: Self)
        ensures
            r.position == byte_position,
            r == Offset::<T>::at(DeltaOffset { count: byte_position }),
    {
        Offset { position: byte_position, phantom: PhantomData }
    }

    pub fn is_zero(self) -> (r: bool)
        ensures
            r == (self.position == 0),
    {
        self.position == 0
    }

    pub fn to_delta(self) -> (r: DeltaOffset)
        ensures
            r.count == self.position,
    {
        DeltaOffset { count: self.position }
    }

    fn from_delta(delta: DeltaOffset) -> (r: Self)
        ensures
            r == Offset::<T>::at(delta),
    {
        Offset::new(delta.count)
    }

    pub fn add_assign(&mut self, delta: DeltaOffset)
        requires
            old(self).position + delta.count <= usize::MAX,
        ensures
            final(self).position == old(self).position + delta.count,
    {
        *self = *self + delta;
    }

    pub fn sub_assign(&mut self, delta: DeltaOffset)
        requires
            delta.count <= old(self).position,
        ensures
            final(self).position == old(self).position - delta.count,
    {
        *self = *self - delta;
    }

    /// The position as text for developers, after the name of the kind of text,
    /// whose path is given.
    pub fn debug_text(&self, type_path: &str) -> (s: String)
        ensures
            exists|name: Seq<char>|
                #[trigger] is_last_part(name, type_path@) && s@ == name + "Offset("@ + decimal(
                    self.position as nat,
                ) + ")"@,
    {
        let name = short_name(type_path);
        let mut s = name.to_owned();
        s.append("Offset(");
        push_decimal(&mut s, self.position as u64);
        s.append(")");
        assert(is_last_part(name@, type_path@));
        s
    }
}

impl<T> From<(u32, u32)> for Point<T> {
    fn from(point: (u32, u32)) -> (r: Self) {
        Point { row: Row::new(point.0), column: Column::new(point.1) }
    }
}

impl<T> FromSpecImpl<(u32, u32)> for Point<T> {
    open spec fn obeys_from_spec() -> bool {
        true
    }

    open spec fn from_spec(point: (u32, u32)) -> Self {
        Point::at(
            DeltaPoint {
                row: DeltaRow { count: point.0 },
                column: DeltaColumn { count: point.1 },
            },
        )
    }
}

impl<T> From<u32> for Row<T> {
    fn from(row_number: u32) -> (r: Self) {
        Row::new(row_number)
    }
}

impl<T> FromSpecImpl<u32> for Row<T> {
    open spec fn obeys_from_spec() -> bool {
        true
    }

    open spec fn from_spec(row_number: u32) -> Self {
        Row::at(DeltaRow { count: row_number })
    }
}

impl<T> From<u32> for Column<T> {
    fn from(column_number: u32) -> (r: Self) {
        Column::new(column_number)
    }
}

impl<T> FromSpecImpl<u32> for Column<T> {
    open spec fn obeys_from_spec() -> bool {
        true
    }

    open spec fn from_spec(column_number: u32) -> Self {
        Column::at(DeltaColumn { count: column_number })
    }
}

impl<T> From<usize> for Offset<T> {
    fn from(byte_position: usize) -> (r: Self) {
        Offset::new(byte_position)
    }
}

impl<T> FromSpecImpl<usize> for Offset<T> {
    open spec fn obeys_from_spec() -> bool {
        true
    }

    open spec fn from_spec(byte_position: usize) -> Self {
        Offset::at(DeltaOffset { count: byte_position })
    }
}

impl<T> From<(u32, u32)> for Utf16<Point<T>> {
    fn from(point: (u32, u32)) -> (r: Self) {
        Utf16(Point { row: Row::new(point.0), column: Column::new(point.1) })
    }
}

impl<T> FromSpecImpl<(u32, u32)> for Utf16<Point<T>> {
    open spec fn obeys_from_spec() -> bool {
        true
    }

    open spec fn from_spec(point: (u32, u32)) -> Self {
        Utf16(Point::at(
            DeltaPoint {
                row: DeltaRow { count: point.0 },
                column: DeltaColumn { count: point.1 },
            },
        ))
    }
}

impl<T> From<u32> for Utf16<Row<T>> {
    fn from(row_number: u32) -> (r: Self) {
        Utf16(Row::new(row_number))
    }
}

impl<T> FromSpecImpl<u32> for Utf16<Row<T>> {
    open spec fn obeys_from_spec() -> bool {
        true
    }

    open spec fn from_spec(row_number: u32) -> Self {
        Utf16(Row::at(DeltaRow { count: row_number }))
    }
}

impl<T> From<u32> for Utf16<Column<T>> {
    fn from(column_number: u32) -> (r: Self) {
        Utf16(Column::new(column_number))
    }
}

impl<T> FromSpecImpl<u32> for Utf16<Column<T>> {
    open spec fn obeys_from_spec() -> bool {
        true
    }

    open spec fn from_spec(column_number: u32) -> Self {
        Utf16(Column::at(DeltaColumn { count: column_number }))
    }
}

impl<T> From<usize> for Utf16<Offset<T>> {
    fn from(byte_position: usize) -> (r: Self) {
        Utf16(Offset::new(byte_position))
    }
}

impl<T> FromSpecImpl<usize> for Utf16<Offset<T>> {
    open spec fn obeys_from_spec() -> bool {
        true
    }

    open spec fn from_spec(byte_position: usize) -> Self {
        Utf16(Offset::at(DeltaOffset { count: byte_position }))
    }
}

impl<T> Copy for Point<T> {

}

impl<T> Clone for Point<T> {
    fn clone(&self) -> (r: Self)
        ensures
            r == *self,
    {
        *self
    }
}

impl<T> Copy for Row<T> {

}

impl<T> Clone for Row<T> {
    fn clone(&self) -> (r: Self)
        ensures
            r == *self,
    {
        *self
    }
}

impl<T> Copy for Column<T> {

}

impl<T> Clone for Column<T> {
    fn clone(&self) -> (r: Self)
        ensures
            r == *self,
    {
        *self
    }
}

impl<T> Copy for Offset<T> {

}

impl<T> Clone for Offset<T> {
    fn clone(&self) -> (r: Self)
        ensures
            r == *self,
    {
        *self
    }
}

impl<T> Default for Point<T> {
    fn default() -> (r: Self)
        ensures
            r.delta() == DeltaPoint::nothing(),
    {
        Point::zero()
    }
}

impl<T> Default for Row<T> {
    fn default() -> (r: Self)
        ensures
            r.number == 0,
    {
        Row::new(0)
    }
}

impl<T> Default for Column<T> {
    fn default() -> (r: Self)
        ensures
            r.number == 0,
    {
        Column::new(0)
    }
}

impl<T> Default for Offset<T> {
    fn default() -> (r: Self)
        ensures
            r.position == 0,
    {
        Offset::new(0)
    }
}

impl<T> PartialEq for Point<T> {
    fn eq(&self, other: &Self) -> (r: bool) {
        self.row.number == other.row.number && self.column.number == other.column.number
    }
}

impl<T> PartialEqSpecImpl for Point<T> {
    open spec fn obeys_eq_spec() -> bool {
        true
    }

    open spec fn eq_spec(&self, other: &Self) -> bool {
        self.row.number == other.row.number && self.column.number == other.column.number
    }
}

impl<T> Eq for Point<T> {

}

impl<T> PartialEq for Row<T> {
    fn eq(&self, other: &Self) -> (r: bool) {
        self.number == other.number
    }
}

impl<T> PartialEqSpecImpl for Row<T> {
    open spec fn obeys_eq_spec() -> bool {
        true
    }

    open spec fn eq_spec(&self, other: &Self) -> bool {
        self.number == other.number
    }
}

impl<T> Eq for Row<T> {

}

impl<T> PartialEq for Column<T> {
    fn eq(&self, other: &Self) -> (r: bool) {
        self.number == other.number
    }
}

impl<T> PartialEqSpecImpl for Column<T> {
    open spec fn obeys_eq_spec() -> bool {
        true
    }

    open spec fn eq_spec(&self, other: &Self) -> bool {
        self.number == other.number
    }
}

impl<T> Eq for Column<T> {

}

impl<T> PartialEq for Offset<T> {
    fn eq(&self, other: &Self) -> (r: bool) {
        self.position == other.position
    }
}

impl<T> PartialEqSpecImpl for Offset<T> {
    open spec fn obeys_eq_spec() -> bool {
        true
    }

    open spec fn eq_spec(&self, other: &Self) -> bool {
        self.position == other.position
    }
}

impl<T> Eq for Offset<T> {

}

impl<T> PartialOrd for Point<T> {
    fn partial_cmp(&self, other: &Self) -> (r: Option<Ordering>) {
        if self.row.number < other.row.number {
            Some(Ordering::Less)
        } else if self.row.number > other.row.number {
            Some(Ordering::Greater)
        } else if self.column.number < other.column.number {
            Some(Ordering::Less)
        } else if self.column.number > other.column.number {
            Some(Ordering::Greater)
        } else {
            Some(Ordering::Equal)
        }
    }
}

impl<T> PartialOrdSpecImpl for Point<T> {
    open spec fn obeys_partial_cmp_spec() -> bool {
        true
    }

    open spec fn partial_cmp_spec(&self, other: &Self) -> Option<Ordering> {
        if self.row.number < other.row.number {
            Some(Ordering::Less)
        } else if self.row.number > other.row.number {
            Some(Ordering::Greater)
        } else if self.column.number < other.column.number {
            Some(Ordering::Less)
        } else if self.column.number > other.column.number {
            Some(Ordering::Greater)
        } else {
            Some(Ordering::Equal)
        }
    }
}

impl<T> PartialOrd for Row<T> {
    fn partial_cmp(&self, other: &Self) -> (r: Option<Ordering>) {
        if self.number < other.number {
            Some(Ordering::Less)
        } else if self.number > other.number {
            Some(Ordering::Greater)
        } else {
            Some(Ordering::Equal)
        }
    }
}

impl<T> PartialOrdSpecImpl for Row<T> {
    open spec fn obeys_partial_cmp_spec() -> bool {
        true
    }

    open spec fn partial_cmp_spec(&self, other: &Self) -> Option<Ordering> {
        if self.number < other.number {
            Some(Ordering::Less)
        } else if self.number > other.number {
            Some(Ordering::Greater)
        } else {
            Some(Ordering::Equal)
        }
    }
}

impl<T> PartialOrd for Column<T> {
    fn partial_cmp(&self, other: &Self) -> (r: Option<Ordering>) {
        if self.number < other.number {
            Some(Ordering::Less)
        } else if self.number > other.number {
            Some(Ordering::Greater)
        } else {
            Some(Ordering::Equal)
        }
    }
}

impl<T> PartialOrdSpecImpl for Column<T> {
    open spec fn obeys_partial_cmp_spec() -> bool {
        true
    }

    open spec fn partial_cmp_spec(&self, other: &Self) -> Option<Ordering> {
        if self.number < other.number {
            Some(Ordering::Less)
        } else if self.number > other.number {
            Some(Ordering::Greater)
        } else {
            Some(Ordering::Equal)
        }
    }
}

impl<T> PartialOrd for Offset<T> {
    fn partial_cmp(&self, other: &Self) -> (r: Option<Ordering>) {
        if self.position < other.position {
            Some(Ordering::Less)
        } else if self.position > other.position {
            Some(Ordering::Greater)
        } else {
            Some(Ordering::Equal)
        }
    }
}

impl<T> PartialOrdSpecImpl for Offset<T> {
    open spec fn obeys_partial_cmp_spec() -> bool {
        true
    }

    open spec fn partial_cmp_spec(&self, other: &Self) -> Option<Ordering> {
        if self.position < other.position {
            Some(Ordering::Less)
        } else if self.position > other.position {
            Some(Ordering::Greater)
        } else {
            Some(Ordering::Equal)
        }
    }
}

impl<T> Add<DeltaPoint> for Point<T> {
    type Output = Point<T>;

    fn add(self, other: DeltaPoint) -> (r: Point<T>) {
        Self::from_delta(self.to_delta() + other)
    }
}

impl<T> AddSpecImpl<DeltaPoint> for Point<T> {
    open spec fn obeys_add_spec() -> bool {
        true
    }

    open spec fn add_req(self, other: DeltaPoint) -> bool {
        self.delta().can_add(other)
    }

    open spec fn add_spec(self, other: DeltaPoint) -> Point<T> {
        Point::at(self.delta().plus(other))
    }
}

impl<T> Sub<DeltaPoint> for Point<T> {
    type Output = Point<T>;

    fn sub(self, other: DeltaPoint) -> (r: Point<T>) {
        Self::from_delta(self.to_delta() - other)
    }
}

impl<T> SubSpecImpl<DeltaPoint> for Point<T> {
    open spec fn obeys_sub_spec() -> bool {
        true
    }

    open spec fn sub_req(self, other: DeltaPoint) -> bool {
        !self.delta().is_before(other)
    }

    open spec fn sub_spec(self, other: DeltaPoint) -> Point<T> {
        Point::at(self.delta().minus(other))
    }
}

impl<T> Sub<Point<T>> for Point<T> {
    type Output = DeltaPoint;

    fn sub(self, other: Point<T>) -> (r: DeltaPoint) {
        self.to_delta() - other.to_delta()
    }
}

impl<T> SubSpecImpl<Point<T>> for Point<T> {
    open spec fn obeys_sub_spec() -> bool {
        true
    }

    open spec fn sub_req(self, other: Point<T>) -> bool {
        !self.delta().is_before(other.delta())
    }

    open spec fn sub_spec(self, other: Point<T>) -> DeltaPoint {
        self.delta().minus(other.delta())
    }
}

impl<T> Add<DeltaRow> for Row<T> {
    type Output = Row<T>;

    fn add(self, other: DeltaRow) -> (r: Row<T>) {
        Row::new(self.number + other.count)
    }
}

impl<T> AddSpecImpl<DeltaRow> for Row<T> {
    open spec fn obeys_add_spec() -> bool {
        true
    }

    open spec fn add_req(self, other: DeltaRow) -> bool {
        self.number + other.count <= u32::MAX
    }

    open spec fn add_spec(self, other: DeltaRow) -> Row<T> {
        Row::at(DeltaRow { count: (self.number + other.count) as u32 })
    }
}

impl<T> Sub<DeltaRow> for Row<T> {
    type Output = Row<T>;

    fn sub(self, other: DeltaRow) -> (r: Row<T>) {
        Row::new(self.number - other.count)
    }
}

impl<T> SubSpecImpl<DeltaRow> for Row<T> {
    open spec fn obeys_sub_spec() -> bool {
        true
    }

    open spec fn sub_req(self, other: DeltaRow) -> bool {
        other.count <= self.number
    }

    open spec fn sub_spec(self, other: DeltaRow) -> Row<T> {
        Row::at(DeltaRow { count: (self.number - other.count) as u32 })
    }
}

impl<T> Sub<Row<T>> for Row<T> {
    type Output = DeltaRow;

    fn sub(self, other: Row<T>) -> (r: DeltaRow) {
        self.to_delta() - other.to_delta()
    }
}

impl<T> SubSpecImpl<Row<T>> for Row<T> {
    open spec fn obeys_sub_spec() -> bool {
        true
    }

    open spec fn sub_req(self, other: Row<T>) -> bool {
        other.number <= self.number
    }

    open spec fn sub_spec(self, other: Row<T>) -> DeltaRow {
        DeltaRow { count: (self.number - other.number) as u32 }
    }
}

impl<T> Add<DeltaColumn> for Column<T> {
    type Output = Column<T>;

    fn add(self, other: DeltaColumn) -> (r: Column<T>) {
        Column::new(self.number + other.count)
    }
}

impl<T> AddSpecImpl<DeltaColumn> for Column<T> {
    open spec fn obeys_add_spec() -> bool {
        true
    }

    open spec fn add_req(self, other: DeltaColumn) -> bool {
        self.number + other.count <= u32::MAX
    }

    open spec fn add_spec(self, other: DeltaColumn) -> Column<T> {
        Column::at(DeltaColumn { count: (self.number + other.count) as u32 })
    }
}

impl<T> Sub<DeltaColumn> for Column<T> {
    type Output = Column<T>;

    fn sub(self, other: DeltaColumn) -> (r: Column<T>) {
        Column::new(self.number - other.count)
    }
}

impl<T> SubSpecImpl<DeltaColumn> for Column<T> {
    open spec fn obeys_sub_spec() -> bool {
        true
    }

    open spec fn sub_req(self, other: DeltaColumn) -> bool {
        other.count <= self.number
    }

    open spec fn sub_spec(self, other: DeltaColumn) -> Column<T> {
        Column::at(DeltaColumn { count: (self.number - other.count) as u32 })
    }
}

impl<T> Sub<Column<T>> for Column<T> {
    type Output = DeltaColumn;

    fn sub(self, other: Column<T>) -> (r: DeltaColumn) {
        self.to_delta() - other.to_delta()
    }
}

impl<T> SubSpecImpl<Column<T>> for Column<T> {
    open spec fn obeys_sub_spec() -> bool {
        true
    }

    open spec fn sub_req(self, other: Column<T>) -> bool {
        other.number <= self.number
    }

    open spec fn sub_spec(self, other: Column<T>) -> DeltaColumn {
        DeltaColumn { count: (self.number - other.number) as u32 }
    }
}

impl<T> Add<DeltaOffset> for Offset<T> {
    type Output = Offset<T>;

    fn add(self, other: DeltaOffset) -> (r: Offset<T>) {
        Offset::new(self.position + other.count)
    }
}

impl<T> AddSpecImpl<DeltaOffset> for Offset<T> {
    open spec fn obeys_add_spec() -> bool {
        true
    }

    open spec fn add_req(self, other: DeltaOffset) -> bool {
        self.position + other.count <= usize::MAX
    }

    open spec fn add_spec(self, other: DeltaOffset) -> Offset<T> {
        Offset::at(DeltaOffset { count: (self.position + other.count) as usize })
    }
}

impl<T> Sub<DeltaOffset> for Offset<T> {
    type Output = Offset<T>;

    fn sub(self, other: DeltaOffset) -> (r: Offset<T>) {
        Offset::new(self.position - other.count)
    }
}

impl<T> SubSpecImpl<DeltaOffset> for Offset<T> {
    open spec fn obeys_sub_spec() -> bool {
        true
    }

    open spec fn sub_req(self, other: DeltaOffset) -> bool {
        other.count <= self.position
    }

    open spec fn sub_spec(self, other: DeltaOffset) -> Offset<T> {
        Offset::at(DeltaOffset { count: (self.position - other.count) as usize })
    }
}

impl<T> Sub<Offset<T>> for Offset<T> {
    type Output = DeltaOffset;

    fn sub(self, other: Offset<T>) -> (r: DeltaOffset) {
        self.to_delta() - other.to_delta()
    }
}

impl<T> SubSpecImpl<Offset<T>> for Offset<T> {
    open spec fn obeys_sub_spec() -> bool {
        true
    }

    open spec fn sub_req(self, other: Offset<T>) -> bool {
        other.position <= self.position
    }

    open spec fn sub_spec(self, other: Offset<T>) -> DeltaOffset {
        DeltaOffset { count: (self.position - other.position) as usize }
    }
}

impl<T> SaturatingSub<DeltaPoint> for Point<T> {
    type Output = Point<T>;

    open spec fn saturating_sub_spec(self, rhs: DeltaPoint) -> Point<T> {
        Point::at(self.delta().saturating_sub_spec(rhs))
    }

    fn saturating_sub(self, rhs: DeltaPoint) -> (r: Point<T>) {
        Self::from_delta(self.to_delta().saturating_sub(rhs))
    }
}

impl<T> SaturatingSub<Point<T>> for Point<T> {
    type Output = DeltaPoint;

    open spec fn saturating_sub_spec(self, rhs: Point<T>) -> DeltaPoint {
        self.delta().saturating_sub_spec(rhs.delta())
    }

    fn saturating_sub(self, rhs: Point<T>) -> (r: DeltaPoint) {
        self.to_delta().saturating_sub(rhs.to_delta())
    }
}

impl<T> SaturatingSub<DeltaRow> for Row<T> {
    type Output = Row<T>;

    open spec fn saturating_sub_spec(self, rhs: DeltaRow) -> Row<T> {
        Row::at((DeltaRow { count: self.number }).saturating_sub_spec(rhs))
    }

    fn saturating_sub(self, rhs: DeltaRow) -> (r: Row<T>) {
        Self::from_delta(self.to_delta().saturating_sub(rhs))
    }
}

impl<T> SaturatingSub<Row<T>> for Row<T> {
    type Output = DeltaRow;

    open spec fn saturating_sub_spec(self, rhs: Row<T>) -> DeltaRow {
        (DeltaRow { count: self.number }).saturating_sub_spec(DeltaRow { count: rhs.number })
    }

    fn saturating_sub(self, rhs: Row<T>) -> (r: DeltaRow) {
        self.to_delta().saturating_sub(rhs.to_delta())
    }
}

impl<T> SaturatingSub<DeltaColumn> for Column<T> {
    type Output = Column<T>;

    open spec fn saturating_sub_spec(self, rhs: DeltaColumn) -> Column<T> {
        Column::at((DeltaColumn { count: self.number }).saturating_sub_spec(rhs))
    }

    fn saturating_sub(self, rhs: DeltaColumn) -> (r: Column<T>) {
        Self::from_delta(self.to_delta().saturating_sub(rhs))
    }
}

impl<T> SaturatingSub<Column<T>> for Column<T> {
    type Output = DeltaColumn;

    open spec fn saturating_sub_spec(self, rhs: Column<T>) -> DeltaColumn {
        (DeltaColumn { count: self.number }).saturating_sub_spec(DeltaColumn { count: rhs.number })
    }

    fn saturating_sub(self, rhs: Column<T>) -> (r: DeltaColumn) {
        self.to_delta().saturating_sub(rhs.to_delta())
    }
}

impl<T> SaturatingSub<DeltaOffset> for Offset<T> {
    type Output = Offset<T>;

    open spec fn saturating_sub_spec(self, rhs: DeltaOffset) -> Offset<T> {
        Offset::at((DeltaOffset { count: self.position }).saturating_sub_spec(rhs))
    }

    fn saturating_sub(self, rhs: DeltaOffset) -> (r: Offset<T>) {
        Self::from_delta(self.to_delta().saturating_sub(rhs))
    }
}

impl<T> SaturatingSub<Offset<T>> for Offset<T> {
    type Output = DeltaOffset;

    open spec fn saturating_sub_spec(self, rhs: Offset<T>) -> DeltaOffset {
        (DeltaOffset { count: self.position }).saturating_sub_spec(DeltaOffset { count: rhs.position })
    }

    fn saturating_sub(self, rhs: Offset<T>) -> (r: DeltaOffset) {
        self.to_delta().saturating_sub(rhs.to_delta())
    }
}

/// A point is its difference from the start of the text, and the other way round.
pub proof fn law_delta_round_trip<T>(point: Point<T>, delta: DeltaPoint)
    ensures
        Point::<T>::at(delta).delta() == delta,
        Point::<T>::at(point.delta()) == point,
{
}

/// The difference between two points takes the first to the second.
pub proof fn law_difference_of_points<T>(from: Point<T>, to: Point<T>)
    requires
        !to.delta().is_before(from.delta()),
    ensures
        Point::<T>::at(from.delta().plus(to.delta().minus(from.delta()))) == to,
{
}

/// Rows, columns and offsets are moved, told apart and ordered as numbers.
pub proof fn law_positions_are_numbers<T>(
    a: Row<T>,
    b: Row<T>,
    rows: DeltaRow,
    c: Column<T>,
    d: Column<T>,
    columns: DeltaColumn,
)
    ensures
        AddSpec::add_req(a, rows) ==> AddSpec::add_spec(a, rows).number == a.number + rows.count,
        SubSpec::sub_req(a, rows) ==> SubSpec::sub_spec(a, rows).number == a.number - rows.count,
        SubSpec::sub_req(a, b) ==> SubSpec::sub_spec(a, b).count == a.number - b.number,
        PartialOrdSpec::partial_cmp_spec(&a, &b) == Some(Ordering::Less) <==> a.number < b.number,
        PartialEqSpec::eq_spec(&a, &b) <==> a.number == b.number,
        AddSpec::add_req(c, columns) ==> AddSpec::add_spec(c, columns).number == c.number
            + columns.count,
        SubSpec::sub_req(c, columns) ==> SubSpec::sub_spec(c, columns).number == c.number
            - columns.count,
        SubSpec::sub_req(c, d) ==> SubSpec::sub_spec(c, d).count == c.number - d.number,
        PartialOrdSpec::partial_cmp_spec(&c, &d) == Some(Ordering::Less) <==> c.number < d.number,
        PartialEqSpec::eq_spec(&c, &d) <==> c.number == d.number,
{
}

/// Offsets are moved, told apart and ordered as numbers.
pub proof fn law_offsets_are_numbers<T>(a: Offset<T>, b: Offset<T>, bytes: DeltaOffset)
    ensures
        AddSpec::add_req(a, bytes) ==> AddSpec::add_spec(a, bytes).position == a.position
            + bytes.count,
        SubSpec::sub_req(a, bytes) ==> SubSpec::sub_spec(a, bytes).position == a.position
            - bytes.count,
        SubSpec::sub_req(a, b) ==> SubSpec::sub_spec(a, b).count == a.position - b.position,
        PartialOrdSpec::partial_cmp_spec(&a, &b) == Some(Ordering::Less) <==> a.position
            < b.position,
        PartialEqSpec::eq_spec(&a, &b) <==> a.position == b.position,
{
}

/// Taking more off a position than lies before it leads to the start of the text, and
/// the difference from a later position is nothing.
pub proof fn law_saturating_positions<T>(
    point: Point<T>,
    other: Point<T>,
    row: Row<T>,
    rows: DeltaRow,
    column: Column<T>,
    columns: DeltaColumn,
    offset: Offset<T>,
    bytes: DeltaOffset,
)
    ensures
        point.delta().is_before(other.delta()) ==> SaturatingSub::saturating_sub_spec(
            point,
            other,
        ) == DeltaPoint::nothing(),
        !point.delta().is_before(other.delta()) ==> Point::<T>::at(
            other.delta().plus(SaturatingSub::saturating_sub_spec(point, other)),
        ) == point,
        SaturatingSub::saturating_sub_spec(row, rows).number == if rows.count <= row.number {
            row.number - rows.count
        } else {
            0
        },
        SaturatingSub::saturating_sub_spec(column, columns).number == if columns.count
            <= column.number {
            column.number - columns.count
        } else {
            0
        },
        SaturatingSub::saturating_sub_spec(offset, bytes).position == if bytes.count
            <= offset.position {
            offset.position - bytes.count
        } else {
            0
        },
{
    law_saturating_difference(point.delta(), other.delta());
    law_delta_round_trip(point, point.delta());
}

/// Points are ordered by rows first, and are equal if both their numbers are.
pub proof fn law_points_are_ordered<T>(a: Point<T>, b: Point<T>)
    ensures
        PartialOrdSpec::partial_cmp_spec(&a, &b) == Some(Ordering::Less) <==> a.row.number
            < b.row.number || (a.row.number == b.row.number && a.column.number < b.column.number),
        PartialEqSpec::eq_spec(&a, &b) <==> a.row.number == b.row.number && a.column.number
            == b.column.number,
        PartialOrdSpec::partial_cmp_spec(&a, &b) == Some(Ordering::Equal) <==> PartialEqSpec::eq_spec(
            &a,
            &b,
        ),
{
}

} // verus!
