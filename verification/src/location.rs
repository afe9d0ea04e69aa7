use vstd::prelude::*;

verus! {

/// Where a value lives: in the proof's calldata, or in memory.
#[derive(Clone, Copy, Debug, PartialEq, Eq, Structural)]
pub enum Location {
    Calldata,
    Memory,
}

/// The address of a slot: a byte offset, or a slot known only by name (the number tells
/// names apart).
#[derive(Clone, Copy, Debug, PartialEq, Eq, Structural)]
pub enum Value {
    Integer(usize),
    Identifier(u64),
}

/// A pointer to a 32-byte slot.
#[derive(Clone, Copy, Debug, PartialEq, Eq, Structural)]
pub struct Ptr {
    pub loc: Location,
    pub value: Value,
}

impl Ptr {
    /// Whether the pointer has a byte offset.
    pub open spec fn is_integer(self) -> bool {
        self.value is Integer
    }

    /// The byte offset of the pointer.
    pub open spec fn offset(self) -> usize
        recommends
            self.is_integer(),
    {
        self.value->Integer_0
    }

    /// The slot at byte `offset` of memory.
    pub fn memory(offset: usize) -> (p: Ptr)
        ensures
            p == (Ptr { loc: Location::Memory, value: Value::Integer(offset) }),
    {
        Ptr { loc: Location::Memory, value: Value::Integer(offset) }
    }

    /// The slot at byte `offset` of calldata.
    pub fn calldata(offset: usize) -> (p: Ptr)
        ensures
            p == (Ptr { loc: Location::Calldata, value: Value::Integer(offset) }),
    {
        Ptr { loc: Location::Calldata, value: Value::Integer(offset) }
    }

    /// Whether the pointer has a byte offset.
    pub fn is_integer_ptr(&self) -> (b: bool)
        ensures
            b == self.is_integer(),
    {
        match self.value {
            Value::Integer(_) => true,
            Value::Identifier(_) => false,
        }
    }

    /// The byte offset of the pointer.
    pub fn as_usize(&self) -> (v: usize)
        requires
            self.is_integer(),
        ensures
            v == self.offset(),
    {
        match self.value {
            Value::Integer(v) => v,
            Value::Identifier(_) => 0,
        }
    }

    /// The pointer `n` slots (32 bytes each) further.
    pub fn add(&self, n: usize) -> (p: Ptr)
        requires
            self.is_integer(),
            self.offset() + 0x20 * n <= usize::MAX,
        ensures
            p == (Ptr { loc: self.loc, value: Value::Integer((self.offset() + 0x20 * n) as usize) }),
    {
        Ptr { loc: self.loc, value: Value::Integer(self.as_usize() + 0x20 * n) }
    }
}

/// A curve point stored as two coordinates.
#[derive(Clone, Copy, Debug, PartialEq, Eq, Structural)]
pub struct EcPoint {
    pub x: Ptr,
    pub y: Ptr,
}

impl EcPoint {
    /// The point whose coordinates lie in the slot at `p` and the next one.
    pub fn at(p: Ptr) -> (e: EcPoint)
        requires
            p.is_integer(),
            p.offset() + 0x20 <= usize::MAX,
        ensures
            e.x == p,
            e.y == (Ptr { loc: p.loc, value: Value::Integer((p.offset() + 0x20) as usize) }),
    {
        EcPoint { x: p, y: p.add(1) }
    }

    /// Where the point lives.
    pub open spec fn loc(self) -> Location {
        self.x.loc
    }
}

} // verus!
