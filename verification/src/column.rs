//! The columns of the grid.

use vstd::prelude::*;

verus! {

/// Marks an advice (witness) column.
#[derive(Clone, Copy, Debug, PartialEq, Eq, Hash)]
pub struct Advice;

/// Marks a fixed column.
#[derive(Clone, Copy, Debug, PartialEq, Eq, Hash)]
pub struct Fixed;

/// Marks an instance (public input) column.
#[derive(Clone, Copy, Debug, PartialEq, Eq, Hash)]
pub struct Instance;

/// The kind of a column whose kind is only known at run time.
#[derive(Clone, Copy, Debug, PartialEq, Eq, Hash)]
pub enum Any {
    Advice,
    Fixed,
    Instance,
}

/// A column of the grid: its kind and its index among the columns of that kind.
#[derive(Clone, Copy, Debug, PartialEq, Eq, Hash)]
pub struct Column<C> {
    pub index: usize,
    pub column_type: C,
}

impl<C> Column<C> {
    /// The column of the kind `column_type` with the index `index`.
    pub fn new(index: usize, column_type: C) -> (c: Self)
        ensures
            c.index == index,
            c.column_type == column_type,
    {
        Column { index, column_type }
    }

    /// The index of this column among the columns of its kind.
    pub fn index(&self) -> (i: usize)
        ensures
            i == self.index,
    {
        self.index
    }
}

impl Column<Advice> {
    /// This column, with its kind as a value.
    pub open spec fn spec_any(self) -> Column<Any> {
        Column { index: self.index, column_type: Any::Advice }
    }

    /// This column, with its kind as a value.
    pub fn any(self) -> (c: Column<Any>)
        ensures
            c == self.spec_any(),
    {
        Column { index: self.index, column_type: Any::Advice }
    }
}

impl Column<Fixed> {
    /// This column, with its kind as a value.
    pub open spec fn spec_any(self) -> Column<Any> {
        Column { index: self.index, column_type: Any::Fixed }
    }

    /// This column, with its kind as a value.
    pub fn any(self) -> (c: Column<Any>)
        ensures
            c == self.spec_any(),
    {
        Column { index: self.index, column_type: Any::Fixed }
    }
}

impl Column<Instance> {
    /// This column, with its kind as a value.
    pub open spec fn spec_any(self) -> Column<Any> {
        Column { index: self.index, column_type: Any::Instance }
    }

    /// This column, with its kind as a value.
    pub fn any(self) -> (c: Column<Any>)
        ensures
            c == self.spec_any(),
    {
        Column { index: self.index, column_type: Any::Instance }
    }
}

/// A selector: a boolean fixed column that switches gates on and off, row by row.
#[derive(Clone, Copy, Debug, PartialEq, Eq, Hash)]
pub struct Selector(pub usize);

impl Selector {
    /// The index of this selector among the selectors.
    pub fn index(&self) -> (i: usize)
        ensures
            i == self.0,
    {
        self.0
    }
}

/// A fixed column that is reserved for a lookup table.
#[derive(Clone, Copy, Debug, PartialEq, Eq, Hash)]
pub struct TableColumn {
    pub inner: Column<Fixed>,
}

impl TableColumn {
    /// The table column that the fixed column `inner` holds.
    pub fn new(inner: Column<Fixed>) -> (t: Self)
        ensures
            t.inner == inner,
    {
        TableColumn { inner }
    }

    /// The fixed column that holds the table.
    pub fn inner(&self) -> (c: Column<Fixed>)
        ensures
            c == self.inner,
    {
        self.inner
    }
}

impl TableColumn {
    /// Table columns with the same index are the same column.
    pub proof fn lemma_same_index(a: TableColumn, b: TableColumn)
        requires
            a.inner.index == b.inner.index,
        ensures
            a == b,
    {
        assert(a.inner.column_type == b.inner.column_type);
        assert(a.inner == b.inner);
    }
}

/// A challenge that the verifier draws; key generation knows none.
#[derive(Clone, Copy, Debug, PartialEq, Eq, Hash)]
pub struct Challenge {
    pub index: usize,
    pub phase: u8,
}

/// A column as a region sees it: a column of the grid or a selector.
#[derive(Clone, Copy, Debug, PartialEq, Eq, Hash)]
pub enum RegionColumn {
    Column(Column<Any>),
    Selector(Selector),
}

impl RegionColumn {
    /// A number that identifies the column: four times its index, plus a tag
    /// for its kind. Distinct columns have distinct keys.
    pub open spec fn spec_key(self) -> u128 {
        match self {
            RegionColumn::Column(c) => match c.column_type {
                Any::Advice => (4 * c.index) as u128,
                Any::Fixed => (4 * c.index + 1) as u128,
                Any::Instance => (4 * c.index + 2) as u128,
            },
            RegionColumn::Selector(s) => (4 * s.0 + 3) as u128,
        }
    }

    /// The key of this column.
    pub fn key(&self) -> (k: u128)
        ensures
            k == self.spec_key(),
    {
        match self {
            RegionColumn::Column(c) => {
                let base: u128 = 4 * (c.index as u128);
                match c.column_type {
                    Any::Advice => base,
                    Any::Fixed => base + 1,
                    Any::Instance => base + 2,
                }
            },
            RegionColumn::Selector(s) => 4 * (s.0 as u128) + 3,
        }
    }

    /// Columns with the same key are the same column.
    pub proof fn lemma_key_injective(a: RegionColumn, b: RegionColumn)
        requires
            a.spec_key() == b.spec_key(),
        ensures
            a == b,
    {
    }
}

} // verus!
