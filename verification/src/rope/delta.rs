//! Differences between positions in a text.
use std::cmp::Ordering;
use std::ops::{Add, Sub};
use vstd::prelude::*;
use vstd::std_specs::cmp::{PartialOrdSpec, PartialOrdSpecImpl};
use vstd::std_specs::convert::{FromSpecImpl, IntoSpec};
use vstd::std_specs::ops::{AddSpec, AddSpecImpl, SubSpec, SubSpecImpl};

verus! {

/// Subtraction that stops at zero.
pub trait SaturatingSub<Rhs>: Sized {
    type Output;

    spec fn saturating_sub_spec(self, rhs: Rhs) -> Self::Output;

    fn saturating_sub(self, rhs: Rhs) -> (r: Self::Output)
        ensures
            r == self.saturating_sub_spec(rhs),
    ;
}

/// A zero-indexed non-negative difference in points in a text buffer consisting of
/// a row and column.
#[derive(Clone, Copy, Debug, Eq, Hash, PartialEq, Ord, Structural)]
pub struct DeltaPoint {
    pub row: DeltaRow,
    pub column: DeltaColumn,
}

#[derive(Clone, Copy, Debug, Eq, Hash, PartialEq, Ord, Structural)]
pub struct DeltaRow {
    pub count: u32,
}

#[derive(Clone, Copy, Debug, Eq, Hash, PartialEq, Ord, Structural)]
pub struct DeltaColumn {
    pub count: u32,
}

#[derive(Clone, Copy, Debug, Eq, Hash, PartialEq, Ord, Structural)]
pub struct DeltaOffset {
    pub count: usize,
}

impl DeltaPoint {
    /// No difference.
    pub open spec fn nothing() -> Self {
        DeltaPoint { row: DeltaRow { count: 0 }, column: DeltaColumn { count: 0 } }
    }

    /// Whether the difference comes before another one: by rows first.
    pub open spec fn is_before(self, other: Self) -> bool {
        self.row.count < other.row.count || (self.row.count == other.row.count
            && self.column.count < other.column.count)
    }

    pub fn zero() -> (r: Self)
        ensures
            r == DeltaPoint::nothing(),
    {
        DeltaPoint { row: DeltaRow { count: 0 }, column: DeltaColumn { count: 0 } }
    }

    pub fn max_value() -> (r: Self)
        ensures
            r.row.count == u32::MAX,
            r.column.count == u32::MAX,
    {
        DeltaPoint { row: DeltaRow::max_value(), column: DeltaColumn::max_value() }
    }

    pub fn new<R, C>(row: R, column: C) -> (r: Self) where
        R: IntoSpec<DeltaRow>,
        C: IntoSpec<DeltaColumn>,

        ensures
            R::obeys_into_spec() ==> r.row == row.into_spec(),
            C::obeys_into_spec() ==> r.column == column.into_spec(),
    {
        DeltaPoint { row: row.into(), column: column.into() }
    }

    pub fn is_zero(self) -> (r: bool)
        ensures
            r == (self == DeltaPoint::nothing()),
    {
        self == DeltaPoint::zero()
    }

    /// The sum: a difference in rows starts its columns anew.
    pub open spec fn plus(self, other: Self) -> Self {
        if other.row.count == 0 {
            DeltaPoint {
                row: self.row,
                column: DeltaColumn { count: (self.column.count + other.column.count) as u32 },
            }
        } else {
            DeltaPoint {
                row: DeltaRow { count: (self.row.count + other.row.count) as u32 },
                column: other.column,
            }
        }
    }

    /// Whether the sum can be represented.
    pub open spec fn can_add(self, other: Self) -> bool {
        if other.row.count == 0 {
            self.column.count + other.column.count <= u32::MAX
        } else {
            self.row.count + other.row.count <= u32::MAX
        }
    }

    /// What is to be added to `other` to get here.
    pub open spec fn minus(self, other: Self) -> Self {
        if self.row == other.row {
            DeltaPoint {
                row: DeltaRow { count: 0 },
                column: DeltaColumn { count: (self.column.count - other.column.count) as u32 },
            }
        } else {
            DeltaPoint {
                row: DeltaRow { count: (self.row.count - other.row.count) as u32 },
                column: self.column,
            }
        }
    }

    pub fn add_assign(&mut self, other: Self)
        requires
            old(self).can_add(other),
        ensures
            *final(self) == old(self).plus(other),
    {
        if other.row.count == 0 {
            self.column.add_assign(other.column);
        } else {
            self.row.add_assign(other.row);
            self.column = other.column;
        }
    }
}

impl DeltaRow {
    pub fn zero() -> (r: Self)
        ensures
            r.count == 0,
    {
        DeltaRow { count: 0 }
    }

    pub fn max_value() -> (r: Self)
        ensures
            r.count == u32::MAX,
    {
        DeltaRow { count: u32::MAX }
    }

    pub fn new(row: u32) -> (r: Self)
        ensures
            r == (DeltaRow { count: row }),
    {
        DeltaRow { count: row }
    }

    pub fn is_zero(&self) -> (r: bool)
        ensures
            r == (self.count == 0),
    {
        self.count == 0
    }

    pub fn add_assign(&mut self, other: Self)
        requires
            old(self).count + other.count <= u32::MAX,
        ensures
            final(self).count == old(self).count + other.count,
    {
        self.count = self.count + other.count;
    }

    pub fn sub_assign(&mut self, other: Self)
        requires
            other.count <= old(self).count,
        ensures
            final(self).count == old(self).count - other.count,
    {
        self.count = self.count - other.count;
    }
}

impl DeltaColumn {
    pub fn zero() -> (r: Self)
        ensures
            r.count == 0,
    {
        DeltaColumn { count: 0 }
    }

    pub fn max_value() -> (r: Self)
        ensures
            r.count == u32::MAX,
    {
        DeltaColumn { count: u32::MAX }
    }

    pub fn new(column: u32) -> (r: Self)
        ensures
            r == (DeltaColumn { count: column }),
    {
        DeltaColumn { count: column }
    }

    pub fn is_zero(&self) -> (r: bool)
        ensures
            r == (self.count == 0),
    {
        self.count == 0
    }

    pub fn add_assign(&mut self, other: Self)
        requires
            old(self).count + other.count <= u32::MAX,
        ensures
            final(self).count == old(self).count + other.count,
    {
        self.count = self.count + other.count;
    }

    pub fn sub_assign(&mut self, other: Self)
        requires
            other.count <= old(self).count,
        ensures
            final(self).count == old(self).count - other.count,
    {
        self.count = self.count - other.count;
    }
}

impl DeltaOffset {
    pub fn zero() -> (r: Self)
        ensures
            r.count == 0,
    {
        DeltaOffset { count: 0 }
    }

    pub fn max_value() -> (r: Self)
        ensures
            r.count == usize::MAX,
    {
        DeltaOffset { count: usize::MAX }
    }

    pub fn new(bytes: usize) -> (r: Self)
        ensures
            r == (DeltaOffset { count: bytes }),
    {
        DeltaOffset { count: bytes }
    }

    pub fn is_zero(&self) -> (r: bool)
        ensures
            r == (self.count == 0),
    {
        self.count == 0
    }

    pub fn add_assign(&mut self, other: Self)
        requires
            old(self).count + other.count <= usize::MAX,
        ensures
            final(self).count == old(self).count + other.count,
    {
        self.count = self.count + other.count;
    }

    pub fn sub_assign(&mut self, other: Self)
        requires
            other.count <= old(self).count,
        ensures
            final(self).count == old(self).count - other.count,
    {
        self.count = self.count - other.count;
    }
}

impl From<(u32, u32)> for DeltaPoint {
    fn from(point: (u32, u32)) -> (r: Self) {
        DeltaPoint { row: DeltaRow { count: point.0 }, column: DeltaColumn { count: point.1 } }
    }
}

impl FromSpecImpl<(u32, u32)> for DeltaPoint {
    open spec fn obeys_from_spec() -> bool {
        true
    }

    open spec fn from_spec(point: (u32, u32)) -> Self {
        DeltaPoint { row: DeltaRow { count: point.0 }, column: DeltaColumn { count: point.1 } }
    }
}

impl From<u32> for DeltaRow {
    fn from(row: u32) -> (r: Self) {
        DeltaRow { count: row }
    }
}

impl FromSpecImpl<u32> for DeltaRow {
    open spec fn obeys_from_spec() -> bool {
        true
    }

    open spec fn from_spec(row: u32) -> Self {
        DeltaRow { count: row }
    }
}

impl From<u32> for DeltaColumn {
    fn from(column: u32) -> (r: Self) {
        DeltaColumn { count: column }
    }
}

impl FromSpecImpl<u32> for DeltaColumn {
    open spec fn obeys_from_spec() -> bool {
        true
    }

    open spec fn from_spec(column: u32) -> Self {
        DeltaColumn { count: column }
    }
}

impl From<usize> for DeltaOffset {
    fn from(bytes: usize) -> (r: Self) {
        DeltaOffset { count: bytes }
    }
}

impl FromSpecImpl<usize> for DeltaOffset {
    open spec fn obeys_from_spec() -> bool {
        true
    }

    open spec fn from_spec(bytes: usize) -> Self {
        DeltaOffset { count: bytes }
    }
}

impl Default for DeltaPoint {
    fn default() -> (r: Self)
        ensures
            r == DeltaPoint::nothing(),
    {
        DeltaPoint::zero()
    }
}

impl Default for DeltaRow {
    fn default() -> (r: Self)
        ensures
            r.count == 0,
    {
        DeltaRow::zero()
    }
}

impl Default for DeltaColumn {
    fn default() -> (r: Self)
        ensures
            r.count == 0,
    {
        DeltaColumn::zero()
    }
}

impl Default for DeltaOffset {
    fn default() -> (r: Self)
        ensures
            r.count == 0,
    {
        DeltaOffset::zero()
    }
}

impl PartialOrd for DeltaPoint {
    fn partial_cmp(&self, other: &Self) -> (r: Option<Ordering>) {
        if self.row.count < other.row.count {
            Some(Ordering::Less)
        } else if self.row.count > other.row.count {
            Some(Ordering::Greater)
        } else if self.column.count < other.column.count {
            Some(Ordering::Less)
        } else if self.column.count > other.column.count {
            Some(Ordering::Greater)
        } else {
            Some(Ordering::Equal)
        }
    }
}

impl PartialOrdSpecImpl for DeltaPoint {
    open spec fn obeys_partial_cmp_spec() -> bool {
        true
    }

    open spec fn partial_cmp_spec(&self, other: &Self) -> Option<Ordering> {
        if self.row.count < other.row.count {
            Some(Ordering::Less)
        } else if self.row.count > other.row.count {
            Some(Ordering::Greater)
        } else if self.column.count < other.column.count {
            Some(Ordering::Less)
        } else if self.column.count > other.column.count {
            Some(Ordering::Greater)
        } else {
            Some(Ordering::Equal)
        }
    }
}

impl PartialOrd for DeltaRow {
    fn partial_cmp(&self, other: &Self) -> (r: Option<Ordering>) {
        if self.count < other.count {
            Some(Ordering::Less)
        } else if self.count > other.count {
            Some(Ordering::Greater)
        } else {
            Some(Ordering::Equal)
        }
    }
}

impl PartialOrdSpecImpl for DeltaRow {
    open spec fn obeys_partial_cmp_spec() -> bool {
        true
    }

    open spec fn partial_cmp_spec(&self, other: &Self) -> Option<Ordering> {
        if self.count < other.count {
            Some(Ordering::Less)
        } else if self.count > other.count {
            Some(Ordering::Greater)
        } else {
            Some(Ordering::Equal)
        }
    }
}

impl PartialOrd for DeltaColumn {
    fn partial_cmp(&self, other: &Self) -> (r: Option<Ordering>) {
        if self.count < other.count {
            Some(Ordering::Less)
        } else if self.count > other.count {
            Some(Ordering::Greater)
        } else {
            Some(Ordering::Equal)
        }
    }
}

impl PartialOrdSpecImpl for DeltaColumn {
    open spec fn obeys_partial_cmp_spec() -> bool {
        true
    }

    open spec fn partial_cmp_spec(&self, other: &Self) -> Option<Ordering> {
        if self.count < other.count {
            Some(Ordering::Less)
        } else if self.count > other.count {
            Some(Ordering::Greater)
        } else {
            Some(Ordering::Equal)
        }
    }
}

impl PartialOrd for DeltaOffset {
    fn partial_cmp(&self, other: &Self) -> (r: Option<Ordering>) {
        if self.count < other.count {
            Some(Ordering::Less)
        } else if self.count > other.count {
            Some(Ordering::Greater)
        } else {
            Some(Ordering::Equal)
        }
    }
}

impl PartialOrdSpecImpl for DeltaOffset {
    open spec fn obeys_partial_cmp_spec() -> bool {
        true
    }

    open spec fn partial_cmp_spec(&self, other: &Self) -> Option<Ordering> {
        if self.count < other.count {
            Some(Ordering::Less)
        } else if self.count > other.count {
            Some(Ordering::Greater)
        } else {
            Some(Ordering::Equal)
        }
    }
}

impl Add<DeltaPoint> for DeltaPoint {
    type Output = DeltaPoint;

    fn add(self, other: DeltaPoint) -> (r: DeltaPoint) {
        if other.row.count == 0 {
            DeltaPoint { row: self.row, column: self.column + other.column }
        } else {
            DeltaPoint { row: self.row + other.row, column: other.column }
        }
    }
}

impl AddSpecImpl<DeltaPoint> for DeltaPoint {
    open spec fn obeys_add_spec() -> bool {
        true
    }

    open spec fn add_req(self, other: DeltaPoint) -> bool {
        self.can_add(other)
    }

    open spec fn add_spec(self, other: DeltaPoint) -> DeltaPoint {
        self.plus(other)
    }
}

impl Sub<DeltaPoint> for DeltaPoint {
    type Output = DeltaPoint;

    fn sub(self, other: DeltaPoint) -> (r: DeltaPoint) {
        if self.row == other.row {
            DeltaPoint { row: DeltaRow::zero(), column: self.column - other.column }
        } else {
            DeltaPoint { row: self.row - other.row, column: self.column }
        }
    }
}

impl SubSpecImpl<DeltaPoint> for DeltaPoint {
    open spec fn obeys_sub_spec() -> bool {
        true
    }

    open spec fn sub_req(self, other: DeltaPoint) -> bool {
        !self.is_before(other)
    }

    open spec fn sub_spec(self, other: DeltaPoint) -> DeltaPoint {
        self.minus(other)
    }
}

impl Add<DeltaRow> for DeltaRow {
    type Output = DeltaRow;

    fn add(self, other: DeltaRow) -> (r: DeltaRow) {
        DeltaRow { count: self.count + other.count }
    }
}

impl AddSpecImpl<DeltaRow> for DeltaRow {
    open spec fn obeys_add_spec() -> bool {
        true
    }

    open spec fn add_req(self, other: DeltaRow) -> bool {
        self.count + other.count <= u32::MAX
    }

    open spec fn add_spec(self, other: DeltaRow) -> DeltaRow {
        DeltaRow { count: (self.count + other.count) as u32 }
    }
}

impl Sub<DeltaRow> for DeltaRow {
    type Output = DeltaRow;

    fn sub(self, other: DeltaRow) -> (r: DeltaRow) {
        DeltaRow { count: self.count - other.count }
    }
}

impl SubSpecImpl<DeltaRow> for DeltaRow {
    open spec fn obeys_sub_spec() -> bool {
        true
    }

    open spec fn sub_req(self, other: DeltaRow) -> bool {
        other.count <= self.count
    }

    open spec fn sub_spec(self, other: DeltaRow) -> DeltaRow {
        DeltaRow { count: (self.count - other.count) as u32 }
    }
}

impl Add<DeltaColumn> for DeltaColumn {
    type Output = DeltaColumn;

    fn add(self, other: DeltaColumn) -> (r: DeltaColumn) {
        DeltaColumn { count: self.count + other.count }
    }
}

impl AddSpecImpl<DeltaColumn> for DeltaColumn {
    open spec fn obeys_add_spec() -> bool {
        true
    }

    open spec fn add_req(self, other: DeltaColumn) -> bool {
        self.count + other.count <= u32::MAX
    }

    open spec fn add_spec(self, other: DeltaColumn) -> DeltaColumn {
        DeltaColumn { count: (self.count + other.count) as u32 }
    }
}

impl Sub<DeltaColumn> for DeltaColumn {
    type Output = DeltaColumn;

    fn sub(self, other: DeltaColumn) -> (r: DeltaColumn) {
        DeltaColumn { count: self.count - other.count }
    }
}

impl SubSpecImpl<DeltaColumn> for DeltaColumn {
    open spec fn obeys_sub_spec() -> bool {
        true
    }

    open spec fn sub_req(self, other: DeltaColumn) -> bool {
        other.count <= self.count
    }

    open spec fn sub_spec(self, other: DeltaColumn) -> DeltaColumn {
        DeltaColumn { count: (self.count - other.count) as u32 }
    }
}

impl Add<DeltaOffset> for DeltaOffset {
    type Output = DeltaOffset;

    fn add(self, other: DeltaOffset) -> (r: DeltaOffset) {
        DeltaOffset { count: self.count + other.count }
    }
}

impl AddSpecImpl<DeltaOffset> for DeltaOffset {
    open spec fn obeys_add_spec() -> bool {
        true
    }

    open spec fn add_req(self, other: DeltaOffset) -> bool {
        self.count + other.count <= usize::MAX
    }

    open spec fn add_spec(self, other: DeltaOffset) -> DeltaOffset {
        DeltaOffset { count: (self.count + other.count) as usize }
    }
}

impl Sub<DeltaOffset> for DeltaOffset {
    type Output = DeltaOffset;

    fn sub(self, other: DeltaOffset) -> (r: DeltaOffset) {
        DeltaOffset { count: self.count - other.count }
    }
}

impl SubSpecImpl<DeltaOffset> for DeltaOffset {
    open spec fn obeys_sub_spec() -> bool {
        true
    }

    open spec fn sub_req(self, other: DeltaOffset) -> bool {
        other.count <= self.count
    }

    open spec fn sub_spec(self, other: DeltaOffset) -> DeltaOffset {
        DeltaOffset { count: (self.count - other.count) as usize }
    }
}

impl<'a> Add<&'a DeltaPoint> for DeltaPoint {
    type Output = DeltaPoint;

    fn add(self, other: &'a DeltaPoint) -> (r: DeltaPoint) {
        self + *other
    }
}

impl<'a> AddSpecImpl<&'a DeltaPoint> for DeltaPoint {
    open spec fn obeys_add_spec() -> bool {
        true
    }

    open spec fn add_req(self, other: &'a DeltaPoint) -> bool {
        AddSpec::add_req(self, *other)
    }

    open spec fn add_spec(self, other: &'a DeltaPoint) -> DeltaPoint {
        AddSpec::add_spec(self, *other)
    }
}

impl<'a> Sub<&'a DeltaPoint> for DeltaPoint {
    type Output = DeltaPoint;

    fn sub(self, other: &'a DeltaPoint) -> (r: DeltaPoint) {
        self - *other
    }
}

impl<'a> SubSpecImpl<&'a DeltaPoint> for DeltaPoint {
    open spec fn obeys_sub_spec() -> bool {
        true
    }

    open spec fn sub_req(self, other: &'a DeltaPoint) -> bool {
        SubSpec::sub_req(self, *other)
    }

    open spec fn sub_spec(self, other: &'a DeltaPoint) -> DeltaPoint {
        SubSpec::sub_spec(self, *other)
    }
}

impl<'a> Add<&'a DeltaRow> for DeltaRow {
    type Output = DeltaRow;

    fn add(self, other: &'a DeltaRow) -> (r: DeltaRow) {
        self + *other
    }
}

impl<'a> AddSpecImpl<&'a DeltaRow> for DeltaRow {
    open spec fn obeys_add_spec() -> bool {
        true
    }

    open spec fn add_req(self, other: &'a DeltaRow) -> bool {
        AddSpec::add_req(self, *other)
    }

    open spec fn add_spec(self, other: &'a DeltaRow) -> DeltaRow {
        AddSpec::add_spec(self, *other)
    }
}

impl<'a> Sub<&'a DeltaRow> for DeltaRow {
    type Output = DeltaRow;

    fn sub(self, other: &'a DeltaRow) -> (r: DeltaRow) {
        self - *other
    }
}

impl<'a> SubSpecImpl<&'a DeltaRow> for DeltaRow {
    open spec fn obeys_sub_spec() -> bool {
        true
    }

    open spec fn sub_req(self, other: &'a DeltaRow) -> bool {
        SubSpec::sub_req(self, *other)
    }

    open spec fn sub_spec(self, other: &'a DeltaRow) -> DeltaRow {
        SubSpec::sub_spec(self, *other)
    }
}

impl<'a> Add<&'a DeltaColumn> for DeltaColumn {
    type Output = DeltaColumn;

    fn add(self, other: &'a DeltaColumn) -> (r: DeltaColumn) {
        self + *other
    }
}

impl<'a> AddSpecImpl<&'a DeltaColumn> for DeltaColumn {
    open spec fn obeys_add_spec() -> bool {
        true
    }

    open spec fn add_req(self, other: &'a DeltaColumn) -> bool {
        AddSpec::add_req(self, *other)
    }

    open spec fn add_spec(self, other: &'a DeltaColumn) -> DeltaColumn {
        AddSpec::add_spec(self, *other)
    }
}

impl<'a> Sub<&'a DeltaColumn> for DeltaColumn {
    type Output = DeltaColumn;

    fn sub(self, other: &'a DeltaColumn) -> (r: DeltaColumn) {
        self - *other
    }
}

impl<'a> SubSpecImpl<&'a DeltaColumn> for DeltaColumn {
    open spec fn obeys_sub_spec() -> bool {
        true
    }

    open spec fn sub_req(self, other: &'a DeltaColumn) -> bool {
        SubSpec::sub_req(self, *other)
    }

    open spec fn sub_spec(self, other: &'a DeltaColumn) -> DeltaColumn {
        SubSpec::sub_spec(self, *other)
    }
}

impl<'a> Add<&'a DeltaOffset> for DeltaOffset {
    type Output = DeltaOffset;

    fn add(self, other: &'a DeltaOffset) -> (r: DeltaOffset) {
        self + *other
    }
}

impl<'a> AddSpecImpl<&'a DeltaOffset> for DeltaOffset {
    open spec fn obeys_add_spec() -> bool {
        true
    }

    open spec fn add_req(self, other: &'a DeltaOffset) -> bool {
        AddSpec::add_req(self, *other)
    }

    open spec fn add_spec(self, other: &'a DeltaOffset) -> DeltaOffset {
        AddSpec::add_spec(self, *other)
    }
}

impl<'a> Sub<&'a DeltaOffset> for DeltaOffset {
    type Output = DeltaOffset;

    fn sub(self, other: &'a DeltaOffset) -> (r: DeltaOffset) {
        self - *other
    }
}

impl<'a> SubSpecImpl<&'a DeltaOffset> for DeltaOffset {
    open spec fn obeys_sub_spec() -> bool {
        true
    }

    open spec fn sub_req(self, other: &'a DeltaOffset) -> bool {
        SubSpec::sub_req(self, *other)
    }

    open spec fn sub_spec(self, other: &'a DeltaOffset) -> DeltaOffset {
        SubSpec::sub_spec(self, *other)
    }
}

impl SaturatingSub<DeltaPoint> for DeltaPoint {
    type Output = DeltaPoint;

    open spec fn saturating_sub_spec(self, rhs: DeltaPoint) -> DeltaPoint {
        if self.is_before(rhs) {
            DeltaPoint::nothing()
        } else {
            self.minus(rhs)
        }
    }

    fn saturating_sub(self, rhs: DeltaPoint) -> (r: DeltaPoint) {
        if self < rhs {
            DeltaPoint::zero()
        } else {
            self - rhs
        }
    }
}

impl SaturatingSub<DeltaRow> for DeltaRow {
    type Output = DeltaRow;

    open spec fn saturating_sub_spec(self, rhs: DeltaRow) -> DeltaRow {
        if self.count < rhs.count {
            DeltaRow { count: 0 }
        } else {
            DeltaRow { count: (self.count - rhs.count) as u32 }
        }
    }

    fn saturating_sub(self, rhs: DeltaRow) -> (r: DeltaRow) {
        if self < rhs {
            DeltaRow::zero()
        } else {
            self - rhs
        }
    }
}

impl SaturatingSub<DeltaColumn> for DeltaColumn {
    type Output = DeltaColumn;

    open spec fn saturating_sub_spec(self, rhs: DeltaColumn) -> DeltaColumn {
        if self.count < rhs.count {
            DeltaColumn { count: 0 }
        } else {
            DeltaColumn { count: (self.count - rhs.count) as u32 }
        }
    }

    fn saturating_sub(self, rhs: DeltaColumn) -> (r: DeltaColumn) {
        if self < rhs {
            DeltaColumn::zero()
        } else {
            self - rhs
        }
    }
}

impl SaturatingSub<DeltaOffset> for DeltaOffset {
    type Output = DeltaOffset;

    open spec fn saturating_sub_spec(self, rhs: DeltaOffset) -> DeltaOffset {
        if self.count < rhs.count {
            DeltaOffset { count: 0 }
        } else {
            DeltaOffset { count: (self.count - rhs.count) as usize }
        }
    }

    fn saturating_sub(self, rhs: DeltaOffset) -> (r: DeltaOffset) {
        if self < rhs {
            DeltaOffset::zero()
        } else {
            self - rhs
        }
    }
}

/// Differences are added up in any grouping.
pub proof fn law_sum_is_associative(a: DeltaPoint, b: DeltaPoint, c: DeltaPoint)
    requires
        a.can_add(b),
        a.plus(b).can_add(c),
        b.can_add(c),
        a.can_add(b.plus(c)),
    ensures
        a.plus(b).plus(c) == a.plus(b.plus(c)),
{
}

/// What is between two points takes the first to the second.
pub proof fn law_difference_leads_there(from: DeltaPoint, to: DeltaPoint)
    requires
        !to.is_before(from),
    ensures
        from.can_add(to.minus(from)),
        from.plus(to.minus(from)) == to,
{
}

/// A difference that is added can be had back.
pub proof fn law_sum_minus_start(from: DeltaPoint, delta: DeltaPoint)
    requires
        from.can_add(delta),
    ensures
        !from.plus(delta).is_before(from),
        from.plus(delta).minus(from) == delta,
{
}

/// Of two different differences one comes before the other, and not both.
pub proof fn law_order_is_total(a: DeltaPoint, b: DeltaPoint)
    ensures
        a == b || a.is_before(b) || b.is_before(a),
        !(a.is_before(b) && b.is_before(a)),
        !a.is_before(a),
        PartialOrdSpec::partial_cmp_spec(&a, &b) == Some(Ordering::Less) <==> a.is_before(b),
        PartialOrdSpec::partial_cmp_spec(&a, &b) == Some(Ordering::Equal) <==> a == b,
{
}

/// Order is kept along a chain of differences.
pub proof fn law_order_is_transitive(a: DeltaPoint, b: DeltaPoint, c: DeltaPoint)
    requires
        a.is_before(b),
        b.is_before(c),
    ensures
        a.is_before(c),
{
}

/// Counts are added, taken off and ordered as numbers, and what is taken off beyond
/// nothing leaves nothing.
pub proof fn law_counts_are_numbers(a: DeltaRow, b: DeltaRow, c: DeltaColumn, d: DeltaColumn)
    ensures
        AddSpec::add_req(a, b) ==> AddSpec::add_spec(a, b).count == a.count + b.count,
        SubSpec::sub_req(a, b) ==> SubSpec::sub_spec(a, b).count == a.count - b.count,
        b.count <= a.count ==> SaturatingSub::saturating_sub_spec(a, b).count == a.count - b.count,
        a.count < b.count ==> SaturatingSub::saturating_sub_spec(a, b).count == 0,
        PartialOrdSpec::partial_cmp_spec(&a, &b) == Some(Ordering::Less) <==> a.count < b.count,
        PartialOrdSpec::partial_cmp_spec(&a, &b) == Some(Ordering::Equal) <==> a.count == b.count,
        AddSpec::add_req(c, d) ==> AddSpec::add_spec(c, d).count == c.count + d.count,
        SubSpec::sub_req(c, d) ==> SubSpec::sub_spec(c, d).count == c.count - d.count,
        d.count <= c.count ==> SaturatingSub::saturating_sub_spec(c, d).count == c.count - d.count,
        c.count < d.count ==> SaturatingSub::saturating_sub_spec(c, d).count == 0,
        PartialOrdSpec::partial_cmp_spec(&c, &d) == Some(Ordering::Less) <==> c.count < d.count,
        PartialOrdSpec::partial_cmp_spec(&c, &d) == Some(Ordering::Equal) <==> c.count == d.count,
{
}

/// Differences in bytes are added, taken off and ordered as numbers, and what is taken
/// off beyond nothing leaves nothing.
pub proof fn law_bytes_are_numbers(a: DeltaOffset, b: DeltaOffset)
    ensures
        AddSpec::add_req(a, b) ==> AddSpec::add_spec(a, b).count == a.count + b.count,
        SubSpec::sub_req(a, b) ==> SubSpec::sub_spec(a, b).count == a.count - b.count,
        b.count <= a.count ==> SaturatingSub::saturating_sub_spec(a, b).count == a.count - b.count,
        a.count < b.count ==> SaturatingSub::saturating_sub_spec(a, b).count == 0,
        PartialOrdSpec::partial_cmp_spec(&a, &b) == Some(Ordering::Less) <==> a.count < b.count,
        PartialOrdSpec::partial_cmp_spec(&a, &b) == Some(Ordering::Equal) <==> a.count == b.count,
{
}

/// Taking off a difference that comes later leaves nothing; otherwise what is left takes
/// the one to the other.
pub proof fn law_saturating_difference(a: DeltaPoint, b: DeltaPoint)
    ensures
        a.is_before(b) ==> SaturatingSub::saturating_sub_spec(a, b).row.count == 0
            && SaturatingSub::saturating_sub_spec(a, b).column.count == 0,
        !a.is_before(b) ==> b.plus(SaturatingSub::saturating_sub_spec(a, b)) == a,
{
    if !a.is_before(b) {
        law_difference_leads_there(b, a);
    }
}

} // verus!
