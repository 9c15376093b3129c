//! Positions that know the space they are counted in.
use std::marker::PhantomData;
use vstd::prelude::*;

verus! {

/// The space of a buffer.
pub struct Buffer;

/// The space of differences.
pub struct Delta;

/// The space of the places in `S` where a space `D` starts.
pub struct Origin<D, S>(pub PhantomData<D>, pub PhantomData<S>);

pub struct Row<C> {
    pub number: u32,
    pub phantom: PhantomData<C>,
}

/// A number of bytes.
pub struct Offset<C> {
    pub byte_len: u32,
    pub phantom: PhantomData<C>,
}

/// A number of characters.
pub struct Chars<C> {
    pub char_len: u32,
    pub phantom: PhantomData<C>,
}

pub struct Point<C> {
    pub row: Row<C>,
    pub column: Chars<C>,
}

impl<C> Offset<C> {
    pub fn new(bytes: u32) -> (r: Self)
        ensures
            r.byte_len == bytes,
    {
        Offset { byte_len: bytes, phantom: PhantomData }
    }
}

/// A point of a space as one of a space that starts inside it.
pub fn to_inner<Inner, Container>(
    origin: Point<Origin<Inner, Container>>,
    from: Point<Container>,
) -> (r: Point<Inner>)
    requires
        origin.row.number <= from.row.number,
        origin.column.char_len <= from.column.char_len,
    ensures
        r.row.number == from.row.number - origin.row.number,
        r.column.char_len == from.column.char_len - origin.column.char_len,
{
    Point {
        row: Row { number: from.row.number - origin.row.number, phantom: PhantomData },
        column: Chars {
            char_len: from.column.char_len - origin.column.char_len,
            phantom: PhantomData,
        },
    }
}

} // verus!
