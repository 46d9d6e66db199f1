//! Records stored in the cells of a sheet and produced by the parser.
use vstd::prelude::*;

verus! {

/// The formula of a cell: which function it applies and to which arguments.
#[derive(Debug, Clone, Copy)]
pub struct Info {
    /// Traversal mark used while the dependency graph is walked.
    pub visit: u8,
    /// Bit 0 set: the first argument names a cell; bit 1 set: the second does.
    pub arg_mask: u8,
    /// The last evaluation of the formula failed (shown as `ERR`).
    pub invalid: bool,
    /// Which formula function the cell applies.
    pub function_id: u8,
    /// The two arguments: literal values or linear cell indices.
    pub arg: [i32; 2],
}

/// Bit 0 of a mask, read as a boolean.
pub open spec fn mask_bit0(mask: u8) -> bool {
    mask % 2 == 1
}

/// Bit 1 of a mask, read as a boolean.
pub open spec fn mask_bit1(mask: u8) -> bool {
    (mask / 2) % 2 == 1
}

/// The bitwise tests used throughout the crate agree with the arithmetic reading.
pub proof fn lemma_mask_bits(mask: u8)
    ensures
        (mask & 1u8 != 0) == mask_bit0(mask),
        (mask & 2u8 != 0) == mask_bit1(mask),
        ((mask >> 1u8) & 1u8 != 0) == mask_bit1(mask),
        (mask == 3u8) == (mask_bit0(mask) && mask_bit1(mask) && mask < 4),
{
    assert((mask & 1u8 != 0) == (mask % 2 == 1)) by (bit_vector);
    assert((mask & 2u8 != 0) == ((mask / 2) % 2 == 1)) by (bit_vector);
    assert(((mask >> 1u8) & 1u8 != 0) == ((mask / 2) % 2 == 1)) by (bit_vector);
}

impl Info {
    /// The formula of a fresh cell: assign the constant 0.
    pub open spec fn blank() -> Info {
        Info { visit: 0, arg_mask: 0, invalid: false, function_id: 0, arg: [0i32, 0i32] }
    }

    /// Checks if the first argument is a cell reference.
    pub fn is_cell_arg1(&self) -> (r: bool)
        ensures
            r == mask_bit0(self.arg_mask),
    {
        proof {
            lemma_mask_bits(self.arg_mask);
        }
        self.arg_mask & 0b1 != 0
    }

    /// Checks if the second argument is a cell reference.
    pub fn is_cell_arg2(&self) -> (r: bool)
        ensures
            r == mask_bit1(self.arg_mask),
    {
        proof {
            lemma_mask_bits(self.arg_mask);
        }
        (self.arg_mask >> 1) & 0b1 != 0
    }

    /// Checks if both arguments are cell references (the mask is exactly `0b11`).
    pub fn is_cell_both(&self) -> (r: bool)
        ensures
            r == (self.arg_mask == 3),
    {
        self.arg_mask == 0b11
    }
}

impl Default for Info {
    fn default() -> (r: Self)
        ensures
            r == Info::blank(),
    {
        Info { visit: 0, arg_mask: 0, invalid: false, function_id: 0, arg: [0, 0] }
    }
}

/// A cell of the sheet: its formula, its current value and whether it holds
/// a value restored by undo/redo that is not recomputed.
#[derive(Debug, Clone, Copy)]
pub struct CellInfo {
    pub info: Info,
    pub value: i32,
    pub literal_mode: bool,
}

impl CellInfo {
    /// A fresh cell: formula `0`, value 0.
    pub open spec fn blank() -> CellInfo {
        CellInfo { info: Info::blank(), value: 0, literal_mode: false }
    }
}

impl Default for CellInfo {
    fn default() -> (r: Self)
        ensures
            r == CellInfo::blank(),
    {
        CellInfo { info: Info::default(), value: 0, literal_mode: false }
    }
}

/// An operand as parsed: a literal value or a linear cell index.
#[derive(Debug, Clone, Copy)]
pub struct ValueInfo {
    pub is_cell: bool,
    pub value: i32,
}

impl Default for ValueInfo {
    fn default() -> (r: Self)
        ensures
            r == (ValueInfo { is_cell: false, value: 0 }),
    {
        ValueInfo { is_cell: false, value: 0 }
    }
}

/// A parsed command: the target cell (or a negative code for commands
/// that are not assignments) and the formula to store.
#[derive(Debug, Clone, Copy)]
pub struct CommandInfo {
    pub lhs_cell: i32,
    pub info: Info,
}

impl Default for CommandInfo {
    fn default() -> (r: Self)
        ensures
            r == (CommandInfo { lhs_cell: 0, info: Info::blank() }),
    {
        CommandInfo { lhs_cell: 0, info: Info::default() }
    }
}

} // verus!
