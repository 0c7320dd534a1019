//! The geometry of the keyboard: a main grid of rows and columns, a thumb
//! cluster below it, and the position of a key by its index in the layer.

use vstd::prelude::*;

verus! {

/// The shape of the keyboard that a layer is laid out on. The keys of a layer
/// are numbered from 1 in row-major order: first those of the main grid, then
/// those of the thumb cluster.
#[derive(Debug, Clone, Copy, PartialEq, Eq, Structural)]
pub struct LayoutGeometry {
    /// Keys in a row of the main grid.
    pub columns: u16,
    /// Rows of the main grid.
    pub rows: u16,
    /// Keys of the thumb cluster.
    pub thumb_keys: u16,
    /// Whether the keyboard is split in two halves.
    pub split: bool,
    /// Width of the text of a cell, in characters.
    pub cell_width: u16,
}

/// The layout of a split keyboard of three rows of twelve keys and six thumb
/// keys, with cells of seven characters.
pub open spec fn standard_layout() -> LayoutGeometry {
    LayoutGeometry { columns: 12, rows: 3, thumb_keys: 6, split: true, cell_width: 7 }
}

/// The standard layout has the standard shape, with cells of seven
/// characters.
pub proof fn lemma_standard_layout_shape()
    ensures
        standard_layout().has_standard_shape(),
        standard_layout().cell_width == 7,
        standard_layout().filled_by(42),
{
}

impl LayoutGeometry {
    /// The number of keys of the main grid.
    pub open spec fn main_keys(self) -> int {
        self.rows as int * self.columns as int
    }

    /// The number of keys of a fully populated layer.
    pub open spec fn total_keys(self) -> int {
        self.main_keys() + self.thumb_keys
    }

    /// The number of empty cells on each side of the thumb cluster, which
    /// centre it under the main grid.
    pub open spec fn thumb_padding(self) -> int {
        if self.columns > self.thumb_keys {
            (self.columns - self.thumb_keys) / 2
        } else {
            0int
        }
    }

    /// Whether the key with the index `index` belongs to the thumb cluster.
    pub open spec fn in_thumb_cluster(self, index: int) -> bool {
        index > self.main_keys()
    }

    /// Whether a row ends with the key `index`: in the main grid with every
    /// key whose index is a multiple of the columns, in the thumb cluster
    /// with the last key of a fully populated layer.
    pub open spec fn row_ends_at(self, index: int) -> bool {
        if self.in_thumb_cluster(index) {
            index == self.total_keys()
        } else {
            self.columns > 0 && index % (self.columns as int) == 0
        }
    }

    /// The number of keys of one half of the row that holds the key `index`.
    pub open spec fn half_row(self, index: int) -> int {
        if self.in_thumb_cluster(index) {
            self.thumb_keys as int / 2
        } else {
            self.columns as int / 2
        }
    }

    /// Whether the gap between the halves of a split keyboard follows the key
    /// `index`: the keyboard is split, the key does not end its row, and its
    /// index is a multiple of the half row.
    pub open spec fn gap_follows(self, index: int) -> bool {
        &&& self.split
        &&& !self.row_ends_at(index)
        &&& self.half_row(index) > 0
        &&& index % self.half_row(index) == 0
    }

    /// Whether the layout has the shape of the standard layout, whatever the
    /// width of its cells: split, with three rows of twelve keys and six
    /// thumb keys.
    pub open spec fn has_standard_shape(self) -> bool {
        self.columns == 12 && self.rows == 3 && self.thumb_keys == 6 && self.split
    }

    /// Whether a layer of `count` keys fills the layout exactly.
    pub open spec fn filled_by(self, count: int) -> bool {
        count == self.total_keys()
    }

    /// The number of keys of the main grid.
    pub fn main_key_count(&self) -> (count: usize)
        ensures
            count == self.main_keys(),
            count <= 0xffff * 0xffff,
    {
        assert(self.rows as int * self.columns as int <= 0xffff * 0xffff) by (nonlinear_arith)
            requires
                0 <= self.rows <= 0xffff,
                0 <= self.columns <= 0xffff,
        ;
        assert(0 <= self.rows as int * self.columns as int) by (nonlinear_arith)
            requires
                0 <= self.rows,
                0 <= self.columns,
        ;
        self.rows as usize * self.columns as usize
    }

    /// The number of keys of a fully populated layer.
    pub fn expected_key_count(&self) -> (count: usize)
        ensures
            count == self.total_keys(),
    {
        self.main_key_count() + self.thumb_keys as usize
    }

    /// The number of empty cells on each side of the thumb cluster.
    pub fn thumb_pad_count(&self) -> (count: usize)
        ensures
            count == self.thumb_padding(),
    {
        if self.columns > self.thumb_keys {
            ((self.columns - self.thumb_keys) / 2) as usize
        } else {
            0
        }
    }

    /// Whether a row ends with the key `index`.
    pub fn is_row_end(&self, index: usize) -> (ends: bool)
        ensures
            ends == self.row_ends_at(index as int),
    {
        if index > self.main_key_count() {
            index == self.expected_key_count()
        } else {
            self.columns > 0 && index % (self.columns as usize) == 0
        }
    }

    /// Whether the gap between the halves follows the key `index`.
    pub fn is_split_gap(&self, index: usize) -> (gap: bool)
        ensures
            gap == self.gap_follows(index as int),
    {
        let half: usize = if index > self.main_key_count() {
            (self.thumb_keys / 2) as usize
        } else {
            (self.columns / 2) as usize
        };
        self.split && !self.is_row_end(index) && half > 0 && index % half == 0
    }

    /// Whether a layer of `count` keys fills the layout exactly. The renderer
    /// does not ask for it: it lays out the keys that are there.
    pub fn is_filled_by(&self, count: usize) -> (filled: bool)
        ensures
            filled == self.filled_by(count as int),
    {
        count == self.expected_key_count()
    }
}

impl Default for LayoutGeometry {
    /// The standard layout.
    fn default() -> (geometry: Self)
        ensures
            geometry == standard_layout(),
    {
        LayoutGeometry { columns: 12, rows: 3, thumb_keys: 6, split: true, cell_width: 7 }
    }
}

} // verus!
