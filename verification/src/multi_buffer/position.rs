//! Positions in a buffer made of parts of others: `T` says in which buffer.
use crate::rope::type_path::{is_last_part, short_name};
use crate::text::{decimal, push_decimal};
use std::cmp::Ordering;
use std::marker::PhantomData;
use std::ops::{Add, Sub};
use vstd::prelude::*;
use vstd::std_specs::cmp::{
    PartialEqSpec, PartialEqSpecImpl, PartialOrdSpec, PartialOrdSpecImpl,
};
use vstd::std_specs::ops::{AddSpec, AddSpecImpl, SubSpec, SubSpecImpl};
use vstd::string::*;

verus! {

/// A row and a column of a text.
#[derive(Clone, Copy, Debug, Eq, Hash, PartialEq, Structural)]
pub struct TextPoint {
    pub row: u32,
    pub column: u32,
}

impl TextPoint {
    /// Whether a point comes before another one: by rows first.
    pub open spec fn is_before(self, other: Self) -> bool {
        self.row < other.row || (self.row == other.row && self.column < other.column)
    }

    /// The point at a distance: one of rows starts its columns anew.
    pub open spec fn plus(self, other: Self) -> Self {
        if other.row == 0 {
            TextPoint { row: self.row, column: (self.column + other.column) as u32 }
        } else {
            TextPoint { row: (self.row + other.row) as u32, column: other.column }
        }
    }

    pub open spec fn can_add(self, other: Self) -> bool {
        if other.row == 0 {
            self.column + other.column <= u32::MAX
        } else {
            self.row + other.row <= u32::MAX
        }
    }

    /// The distance from an earlier point.
    pub open spec fn minus(self, other: Self) -> Self {
        if self.row == other.row {
            TextPoint { row: 0, column: (self.column - other.column) as u32 }
        } else {
            TextPoint { row: (self.row - other.row) as u32, column: self.column }
        }
    }

    fn sum(self, other: Self) -> (r: Self)
        requires
            self.can_add(other),
        ensures
            r == self.plus(other),
    {
        if other.row == 0 {
            TextPoint { row: self.row, column: self.column + other.column }
        } else {
            TextPoint { row: self.row + other.row, column: other.column }
        }
    }

    fn difference(self, other: Self) -> (r: Self)
        requires
            !self.is_before(other),
        ensures
            r == self.minus(other),
    {
        if self.row == other.row {
            TextPoint { row: 0, column: self.column - other.column }
        } else {
            TextPoint { row: self.row - other.row, column: self.column }
        }
    }
}

pub struct Offset<T> {
    pub value: usize,
    pub marker: PhantomData<T>,
}

pub struct Point<T> {
    pub value: TextPoint,
    pub marker: PhantomData<T>,
}

pub struct Row<T> {
    pub value: u32,
    pub marker: PhantomData<T>,
}

impl<T> Offset<T> {
    /// The position with a value.
    pub open spec fn at(value: usize) -> Self {
        Offset { value, marker: PhantomData }
    }

    pub fn new(offset: usize) -> (r: Self)
        ensures
            r == Offset::<T>::at(offset),
    {
        Offset { value: offset, marker: PhantomData }
    }

    pub fn saturating_sub(self, n: Offset<T>) -> (r: Self)
        ensures
            r.value == if self.value >= n.value {
                self.value - n.value
            } else {
                0
            },
    {
        if self.value >= n.value {
            Offset::new(self.value - n.value)
        } else {
            Offset::new(0)
        }
    }

    pub fn zero() -> (r: Self)
        ensures
            r.value == 0,
    {
        Offset::new(0)
    }

    pub fn is_zero(&self) -> (r: bool)
        ensures
            r == (self.value == 0),
    {
        self.value == 0
    }

    pub fn add_assign(&mut self, other: Self)
        requires
            old(self).value + other.value <= usize::MAX,
        ensures
            final(self).value == old(self).value + other.value,
    {
        *self = *self + other;
    }

    pub fn sub_assign(&mut self, other: Self)
        requires
            other.value <= old(self).value,
        ensures
            final(self).value == old(self).value - other.value,
    {
        *self = *self - other;
    }

    /// The position as text for developers, after the name of the kind of buffer,
    /// whose path is given.
    pub fn debug_text(&self, type_path: &str) -> (s: String)
        ensures
            exists|name: Seq<char>|
                #[trigger] is_last_part(name, type_path@) && s@ == name
                    + "Offset("@ + decimal(self.value as nat) + ")"@,
    {
        let name = short_name(type_path);
        let mut s = name.to_owned();
        s.append("Offset(");
        push_decimal(&mut s, self.value as u64);
        s.append(")");
        assert(is_last_part(name@, type_path@));
        s
    }

    /// The position as a number.
    pub fn to_string(&self) -> (s: String)
        ensures
            s@ == decimal(self.value as nat),
    {
        let mut s = String::new();
        push_decimal(&mut s, self.value as u64);
        assert(s@ =~= decimal(self.value as nat));
        s
    }
}

impl<T> Point<T> {
    /// The position with a value.
    pub open spec fn at(value: TextPoint) -> Self {
        Point { value, marker: PhantomData }
    }

    pub fn new(row: u32, column: u32) -> (r: Self)
        ensures
            r == Point::<T>::at(TextPoint { row, column }),
    {
        Point { value: TextPoint { row, column }, marker: PhantomData }
    }

    pub fn wrap(point: TextPoint) -> (r: Self)
        ensures
            r == Point::<T>::at(point),
    {
        Point { value: point, marker: PhantomData }
    }

    pub fn row(&self) -> (r: u32)
        ensures
            r == self.value.row,
    {
        self.value.row
    }

    pub fn column(&self) -> (r: u32)
        ensures
            r == self.value.column,
    {
        self.value.column
    }

    pub fn zero() -> (r: Self)
        ensures
            r.value == (TextPoint { row: 0, column: 0 }),
    {
        Point::new(0, 0)
    }

    pub fn is_zero(&self) -> (r: bool)
        ensures
            r == (self.value == TextPoint { row: 0, column: 0 }),
    {
        self.value.row == 0 && self.value.column == 0
    }

    pub fn add_assign(&mut self, other: Self)
        requires
            old(self).value.can_add(other.value),
        ensures
            final(self).value == old(self).value.plus(other.value),
    {
        *self = *self + other;
    }

    /// The position as text for developers, after the name of the kind of buffer,
    /// whose path is given.
    pub fn debug_text(&self, type_path: &str) -> (s: String)
        ensures
            exists|name: Seq<char>|
                #[trigger] is_last_part(name, type_path@) && s@ == name
                    + "Point("@ + decimal(self.value.row as nat)
                    + ", "@ + decimal(self.value.column as nat) + ")"@,
    {
        let name = short_name(type_path);
        let mut s = name.to_owned();
        s.append("Point(");
        push_decimal(&mut s, self.value.row as u64);
        s.append(", ");
        push_decimal(&mut s, self.value.column as u64);
        s.append(")");
        assert(is_last_part(name@, type_path@));
        s
    }
}

impl<T> Row<T> {
    /// The position with a value.
    pub open spec fn at(value: u32) -> Self {
        Row { value, marker: PhantomData }
    }

    pub fn new(row: u32) -> (r: Self)
        ensures
            r == Row::<T>::at(row),
    {
        Row { value: row, marker: PhantomData }
    }

    pub fn sub_assign(&mut self, other: Self)
        requires
            other.value <= old(self).value,
        ensures
            final(self).value == old(self).value - other.value,
    {
        *self = Row::new(self.value - other.value);
    }

    /// The position as text for developers, after the name of the kind of buffer,
    /// whose path is given.
    pub fn debug_text(&self, type_path: &str) -> (s: String)
        ensures
            exists|name: Seq<char>|
                #[trigger] is_last_part(name, type_path@) && s@ == name
                    + "Row("@ + decimal(self.value as nat) + ")"@,
    {
        let name = short_name(type_path);
        let mut s = name.to_owned();
        s.append("Row(");
        push_decimal(&mut s, self.value as u64);
        s.append(")");
        assert(is_last_part(name@, type_path@));
        s
    }

    /// The position as a number.
    pub fn to_string(&self) -> (s: String)
        ensures
            s@ == decimal(self.value as nat),
    {
        let mut s = String::new();
        push_decimal(&mut s, self.value as u64);
        assert(s@ =~= decimal(self.value as nat));
        s
    }
}

impl<T> Copy for Offset<T> {

}

impl<T> Clone for Offset<T> {
    fn clone(&self) -> (r: Self)
        ensures
            r == *self,
    {
        *self
    }
}

impl<T> Default for Offset<T> {
    fn default() -> (r: Self)
        ensures
            r.value == 0,
    {
        Offset::new(0)
    }
}

impl<T> PartialEq for Offset<T> {
    fn eq(&self, other: &Self) -> (r: bool) {
        self.value == other.value
    }
}

impl<T> PartialEqSpecImpl for Offset<T> {
    open spec fn obeys_eq_spec() -> bool {
        true
    }

    open spec fn eq_spec(&self, other: &Self) -> bool {
        self.value == other.value
    }
}

impl<T> Eq for Offset<T> {

}

impl<T> PartialOrd for Offset<T> {
    fn partial_cmp(&self, other: &Self) -> (r: Option<Ordering>) {
        if self.value < other.value {
            Some(Ordering::Less)
        } else if self.value > other.value {
            Some(Ordering::Greater)
        } else {
            Some(Ordering::Equal)
        }
    }
}

impl<T> PartialOrdSpecImpl for Offset<T> {
    open spec fn obeys_partial_cmp_spec() -> bool {
        true
    }

    open spec fn partial_cmp_spec(&self, other: &Self) -> Option<Ordering> {
        if self.value < other.value {
            Some(Ordering::Less)
        } else if self.value > other.value {
            Some(Ordering::Greater)
        } else {
            Some(Ordering::Equal)
        }
    }
}

impl<T> Copy for Point<T> {

}

impl<T> Clone for Point<T> {
    fn clone(&self) -> (r: Self)
        ensures
            r == *self,
    {
        *self
    }
}

impl<T> Default for Point<T> {
    fn default() -> (r: Self)
        ensures
            r.value == (TextPoint { row: 0, column: 0 }),
    {
        Point::zero()
    }
}

impl<T> PartialEq for Point<T> {
    fn eq(&self, other: &Self) -> (r: bool) {
        self.value == other.value
    }
}

impl<T> PartialEqSpecImpl for Point<T> {
    open spec fn obeys_eq_spec() -> bool {
        true
    }

    open spec fn eq_spec(&self, other: &Self) -> bool {
        self.value == other.value
    }
}

impl<T> Eq for Point<T> {

}

impl<T> PartialOrd for Point<T> {
    fn partial_cmp(&self, other: &Self) -> (r: Option<Ordering>) {
        if self.value.row < other.value.row {
            Some(Ordering::Less)
        } else if self.value.row > other.value.row {
            Some(Ordering::Greater)
        } else if self.value.column < other.value.column {
            Some(Ordering::Less)
        } else if self.value.column > other.value.column {
            Some(Ordering::Greater)
        } else {
            Some(Ordering::Equal)
        }
    }
}

impl<T> PartialOrdSpecImpl for Point<T> {
    open spec fn obeys_partial_cmp_spec() -> bool {
        true
    }

    open spec fn partial_cmp_spec(&self, other: &Self) -> Option<Ordering> {
        if self.value.row < other.value.row {
            Some(Ordering::Less)
        } else if self.value.row > other.value.row {
            Some(Ordering::Greater)
        } else if self.value.column < other.value.column {
            Some(Ordering::Less)
        } else if self.value.column > other.value.column {
            Some(Ordering::Greater)
        } else {
            Some(Ordering::Equal)
        }
    }
}

impl<T> Copy for Row<T> {

}

impl<T> Clone for Row<T> {
    fn clone(&self) -> (r: Self)
        ensures
            r == *self,
    {
        *self
    }
}

impl<T> Default for Row<T> {
    fn default() -> (r: Self)
        ensures
            r.value == 0,
    {
        Row::new(0)
    }
}

impl<T> PartialEq for Row<T> {
    fn eq(&self, other: &Self) -> (r: bool) {
        self.value == other.value
    }
}

impl<T> PartialEqSpecImpl for Row<T> {
    open spec fn obeys_eq_spec() -> bool {
        true
    }

    open spec fn eq_spec(&self, other: &Self) -> bool {
        self.value == other.value
    }
}

impl<T> Eq for Row<T> {

}

impl<T> PartialOrd for Row<T> {
    fn partial_cmp(&self, other: &Self) -> (r: Option<Ordering>) {
        if self.value < other.value {
            Some(Ordering::Less)
        } else if self.value > other.value {
            Some(Ordering::Greater)
        } else {
            Some(Ordering::Equal)
        }
    }
}

impl<T> PartialOrdSpecImpl for Row<T> {
    open spec fn obeys_partial_cmp_spec() -> bool {
        true
    }

    open spec fn partial_cmp_spec(&self, other: &Self) -> Option<Ordering> {
        if self.value < other.value {
            Some(Ordering::Less)
        } else if self.value > other.value {
            Some(Ordering::Greater)
        } else {
            Some(Ordering::Equal)
        }
    }
}

impl<T> Add<Offset<T>> for Offset<T> {
    type Output = Offset<T>;

    fn add(self, other: Offset<T>) -> (r: Offset<T>) {
        Offset::new(self.value + other.value)
    }
}

impl<T> AddSpecImpl<Offset<T>> for Offset<T> {
    open spec fn obeys_add_spec() -> bool {
        true
    }

    open spec fn add_req(self, other: Offset<T>) -> bool {
        self.value + other.value <= usize::MAX
    }

    open spec fn add_spec(self, other: Offset<T>) -> Offset<T> {
        Offset::at((self.value + other.value) as usize)
    }
}

impl<T> Add<Point<T>> for Point<T> {
    type Output = Point<T>;

    fn add(self, other: Point<T>) -> (r: Point<T>) {
        Point::wrap(self.value.sum(other.value))
    }
}

impl<T> AddSpecImpl<Point<T>> for Point<T> {
    open spec fn obeys_add_spec() -> bool {
        true
    }

    open spec fn add_req(self, other: Point<T>) -> bool {
        self.value.can_add(other.value)
    }

    open spec fn add_spec(self, other: Point<T>) -> Point<T> {
        Point::at(self.value.plus(other.value))
    }
}

impl<T> Sub<Offset<T>> for Offset<T> {
    type Output = Offset<T>;

    fn sub(self, other: Offset<T>) -> (r: Offset<T>) {
        Offset::new(self.value - other.value)
    }
}

impl<T> SubSpecImpl<Offset<T>> for Offset<T> {
    open spec fn obeys_sub_spec() -> bool {
        true
    }

    open spec fn sub_req(self, other: Offset<T>) -> bool {
        other.value <= self.value
    }

    open spec fn sub_spec(self, other: Offset<T>) -> Offset<T> {
        Offset::at((self.value - other.value) as usize)
    }
}

impl<T> Sub<Point<T>> for Point<T> {
    type Output = Point<T>;

    fn sub(self, other: Point<T>) -> (r: Point<T>) {
        Point::wrap(self.value.difference(other.value))
    }
}

impl<T> SubSpecImpl<Point<T>> for Point<T> {
    open spec fn obeys_sub_spec() -> bool {
        true
    }

    open spec fn sub_req(self, other: Point<T>) -> bool {
        !self.value.is_before(other.value)
    }

    open spec fn sub_spec(self, other: Point<T>) -> Point<T> {
        Point::at(self.value.minus(other.value))
    }
}

/// The distance between two points takes the first to the second, and what was
/// added can be had back.
pub proof fn law_sum_and_difference(a: TextPoint, b: TextPoint)
    ensures
        !b.is_before(a) ==> a.can_add(b.minus(a)) && a.plus(b.minus(a)) == b,
        a.can_add(b) ==> !a.plus(b).is_before(a) && a.plus(b).minus(a) == b,
{
}

/// Offsets are added and taken off as numbers, and positions are ordered by their
/// values, points by rows first.
pub proof fn law_positions_are_ordered<T>(
    a: Offset<T>,
    b: Offset<T>,
    c: Point<T>,
    d: Point<T>,
    e: Row<T>,
    f: Row<T>,
)
    ensures
        AddSpec::add_req(a, b) ==> AddSpec::add_spec(a, b).value == a.value + b.value,
        SubSpec::sub_req(a, b) ==> SubSpec::sub_spec(a, b).value == a.value - b.value,
        PartialOrdSpec::partial_cmp_spec(&a, &b) == Some(Ordering::Less) <==> a.value < b.value,
        PartialEqSpec::eq_spec(&a, &b) <==> a.value == b.value,
        PartialOrdSpec::partial_cmp_spec(&c, &d) == Some(Ordering::Less) <==> c.value.row
            < d.value.row || (c.value.row == d.value.row && c.value.column < d.value.column),
        PartialEqSpec::eq_spec(&c, &d) <==> c.value.row == d.value.row && c.value.column
            == d.value.column,
        PartialOrdSpec::partial_cmp_spec(&e, &f) == Some(Ordering::Less) <==> e.value < f.value,
        PartialEqSpec::eq_spec(&e, &f) <==> e.value == f.value,
{
}

} // verus!
