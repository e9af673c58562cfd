//! The sixteen boolean functions of two inputs that may control a gate.
use vstd::prelude::*;

verus! {

/// A two-input boolean function.  The variants are listed in the order of
/// their codes, `F` being 0 and `T` being 15.
#[derive(Clone, Copy, Debug, PartialEq, Eq, Structural, Hash)]
pub enum Base2GateControlFunc {
    /// false
    F,
    /// a & b
    AND,
    /// a & !b
    ANDNB,
    /// a
    A,
    /// !a & b
    ANDNA,
    /// b
    B,
    /// a ^ b
    XOR,
    /// a | b
    OR,
    /// !(a | b)
    NOR,
    /// a == b
    EQUIV,
    /// !b
    NB,
    /// !b | a
    ORNB,
    /// !a
    NA,
    /// !a | b
    ORNA,
    /// !(a & b)
    NAND,
    /// true
    T,
}

impl Base2GateControlFunc {
    /// Number of control functions; every code is below it.
    pub const COUNT: u8 = 16;

    /// The function with code `v`; codes from 16 on stand for no function and
    /// are mapped to `T` so that the map is total.
    pub open spec fn of_code(v: u8) -> Self {
        match v {
            0 => Self::F,
            1 => Self::AND,
            2 => Self::ANDNB,
            3 => Self::A,
            4 => Self::ANDNA,
            5 => Self::B,
            6 => Self::XOR,
            7 => Self::OR,
            8 => Self::NOR,
            9 => Self::EQUIV,
            10 => Self::NB,
            11 => Self::ORNB,
            12 => Self::NA,
            13 => Self::ORNA,
            14 => Self::NAND,
            _ => Self::T,
        }
    }

    /// The code of a function.
    pub open spec fn code(self) -> u8 {
        match self {
            Self::F => 0,
            Self::AND => 1,
            Self::ANDNB => 2,
            Self::A => 3,
            Self::ANDNA => 4,
            Self::B => 5,
            Self::XOR => 6,
            Self::OR => 7,
            Self::NOR => 8,
            Self::EQUIV => 9,
            Self::NB => 10,
            Self::ORNB => 11,
            Self::NA => 12,
            Self::ORNA => 13,
            Self::NAND => 14,
            Self::T => 15,
        }
    }

    /// The value of the function on `a` and `b`.
    pub open spec fn value(self, a: bool, b: bool) -> bool {
        match self {
            Self::F => false,
            Self::AND => a && b,
            Self::ANDNB => a && !b,
            Self::A => a,
            Self::ANDNA => !a && b,
            Self::B => b,
            Self::XOR => a != b,
            Self::OR => a || b,
            Self::NOR => !(a || b),
            Self::EQUIV => a == b,
            Self::NB => !b,
            Self::ORNB => !b || a,
            Self::NA => !a,
            Self::ORNA => !a || b,
            Self::NAND => !(a && b),
            Self::T => true,
        }
    }

    pub fn from_u8(v: u8) -> (f: Self)
        requires
            v < Self::COUNT,
        ensures
            f == Self::of_code(v),
            f.code() == v,
    {
        match v {
            0 => Self::F,
            1 => Self::AND,
            2 => Self::ANDNB,
            3 => Self::A,
            4 => Self::ANDNA,
            5 => Self::B,
            6 => Self::XOR,
            7 => Self::OR,
            8 => Self::NOR,
            9 => Self::EQUIV,
            10 => Self::NB,
            11 => Self::ORNB,
            12 => Self::NA,
            13 => Self::ORNA,
            14 => Self::NAND,
            _ => Self::T,
        }
    }

    pub fn evaluate(&self, a: bool, b: bool) -> (r: bool)
        ensures
            r == self.value(a, b),
    {
        match self {
            Self::F => false,
            Self::AND => a && b,
            Self::ANDNB => a && !b,
            Self::A => a,
            Self::ANDNA => !a && b,
            Self::B => b,
            Self::XOR => a != b,
            Self::OR => a || b,
            Self::NOR => !(a || b),
            Self::EQUIV => a == b,
            Self::NB => !b,
            Self::ORNB => !b || a,
            Self::NA => !a,
            Self::ORNA => !a || b,
            Self::NAND => !(a && b),
            Self::T => true,
        }
    }
}

/// The value of the control function with code `cf` on `a` and `b`.
pub open spec fn control_value(cf: u8, a: bool, b: bool) -> bool {
    Base2GateControlFunc::of_code(cf).value(a, b)
}

/// The position, in a function's code, of the bit that holds its value on
/// `a` and `b`.
pub open spec fn code_bit(a: bool, b: bool) -> u8 {
    if a {
        if b {
            0
        } else {
            1
        }
    } else {
        if b {
            2
        } else {
            3
        }
    }
}

/// The code of a control function is its truth table: its value on `a` and
/// `b` is the bit of the code at `code_bit(a, b)`.
pub proof fn lemma_code_is_truth_table(cf: u8, a: bool, b: bool)
    requires
        cf < Base2GateControlFunc::COUNT,
    ensures
        control_value(cf, a, b) == ((cf >> code_bit(a, b)) & 1u8 == 1u8),
{
    let k = code_bit(a, b);
    assert(cf < 16 && k < 4 ==> (((cf >> k) & 1u8 == 1u8) == (if k == 0 {
        cf == 1 || cf == 3 || cf == 5 || cf == 7 || cf == 9 || cf == 11 || cf == 13 || cf == 15
    } else if k == 1 {
        cf == 2 || cf == 3 || cf == 6 || cf == 7 || cf == 10 || cf == 11 || cf == 14 || cf == 15
    } else if k == 2 {
        cf == 4 || cf == 5 || cf == 6 || cf == 7 || cf == 12 || cf == 13 || cf == 14 || cf == 15
    } else {
        cf >= 8
    }))) by (bit_vector);
}

} // verus!
