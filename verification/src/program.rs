use vstd::prelude::*;

verus! {

/// The interned id of the `tag` attribute.
pub const TAG_INTERNED_ID: u32 = 1;

/// A place in a constraint: a register of the block, or an interned value.
#[derive(Clone, Copy, Debug, PartialEq, Eq, Hash, Structural)]
pub enum Field {
    Register(usize),
    Value(u32),
}

impl Field {
    /// The interned value of a value field; a register stands for none (0).
    pub open spec fn interned(self) -> u32 {
        match self {
            Field::Value(v) => v,
            Field::Register(_) => 0,
        }
    }

    pub fn is_register(&self) -> (r: bool)
        ensures
            r == (*self is Register),
    {
        match self {
            Field::Register(_) => true,
            Field::Value(_) => false,
        }
    }

    /// The interned value of a value field, or 0 for a register.
    pub fn interned_value(&self) -> (r: u32)
        ensures
            r == self.interned(),
    {
        match self {
            Field::Value(v) => *v,
            Field::Register(_) => 0,
        }
    }
}

/// The operator of a function constraint, as far as the analysis tells them apart.
#[derive(Clone, Copy, Debug, PartialEq, Eq, Hash, Structural)]
pub enum FunctionOp {
    Add,
    Subtract,
    Multiply,
    Divide,
    Other,
}

/// The operator of a filter constraint, as far as the analysis tells them apart.
#[derive(Clone, Copy, Debug, PartialEq, Eq, Hash, Structural)]
pub enum FilterOp {
    Equal,
    Greater,
    Less,
    GreaterEqual,
    LessEqual,
    Other,
}

/// A constraint of a block, holding what the analysis reads of it.  Of a
/// function it holds the first two parameters, `left` and `right`.
#[derive(Clone, Copy, Debug, PartialEq, Eq, Hash, Structural)]
pub enum Constraint {
    Scan { e: Field, a: Field, v: Field },
    LookupCommit { e: Field, a: Field, v: Field },
    Insert { e: Field, a: Field, v: Field },
    Remove { e: Field, a: Field, v: Field },
    RemoveAttribute { e: Field, a: Field },
    RemoveEntity { e: Field },
    Function { operator: FunctionOp, left: Field, right: Field, output: Field },
    Filter { comparison: FilterOp, left: Field, right: Field },
    Other,
}

/// A block: its id and its constraints.
#[derive(Clone, Debug)]
pub struct Block {
    pub block_id: u32,
    pub constraints: Vec<Constraint>,
}

/// What an interned id stands for: a string, a number (its binary64
/// encoding), or nothing.
#[derive(Clone, Copy, Debug, PartialEq, Eq, Hash, Structural)]
pub enum Internable {
    String,
    Number(u64),
    Null,
}

/// The values of the interned ids, the id being the position.
#[derive(Clone, Debug)]
pub struct Interner {
    pub values: Vec<Internable>,
}

impl Interner {
    /// The value of an id the interner holds.
    pub fn get_value(&self, id: u32) -> (r: Internable)
        requires
            (id as int) < self.values@.len(),
        ensures
            r == self.values@[id as int],
    {
        self.values[id as usize]
    }
}

} // verus!
