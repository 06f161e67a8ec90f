//! The problem-size classes of the benchmark and the quantities that follow
//! from them.
//!
//! Reference values that are fractions are kept as integers over a fixed
//! power of ten, so that the table is exact.

use vstd::prelude::*;

verus! {

/// Inner iterations of every solve.
pub const CGITMAX: u32 = 25;

/// The conditioning target is `RCOND_NUM / RCOND_DEN`, one tenth.
pub const RCOND_NUM: u64 = 1;

/// Denominator of the conditioning target.
pub const RCOND_DEN: u64 = 10;

/// Reference values of `zeta` are numerators over this power of ten.
pub const ZETA_SCALE: u64 = 10_000_000_000_000;

/// The relative error allowed in verification is one over this.
pub const EPSILON_DEN: u64 = 10_000_000_000;

/// A named problem size.
#[derive(Clone, Copy, Debug, PartialEq, Eq, Structural)]
pub enum Class {
    /// Sample size.
    S,
    /// Workstation size.
    W,
    /// Standard sizes, growing from `A` to `E`.
    A,
    /// Second standard size.
    B,
    /// Third standard size.
    C,
    /// Fourth standard size.
    D,
    /// Fifth standard size.
    E,
}

/// The parameters that a class fixes for a whole run.
#[derive(Clone, Copy, Debug, PartialEq, Eq, Structural)]
pub struct ClassParams {
    /// Order of the matrix.
    pub na: u32,
    /// Random nonzeros drawn per row, before merging.
    pub nonzer: u16,
    /// Outer iterations.
    pub niter: u32,
    /// Shift taken off the diagonal.
    pub shift: u32,
    /// Reference value of `zeta`, as a numerator over `ZETA_SCALE`.
    pub zeta_verify: u64,
}

/// The class that a selector letter names; letters that name none select the
/// sample size.
pub open spec fn class_of(letter: char) -> Class {
    if letter == 'w' {
        Class::W
    } else if letter == 'a' {
        Class::A
    } else if letter == 'b' {
        Class::B
    } else if letter == 'c' {
        Class::C
    } else if letter == 'd' {
        Class::D
    } else if letter == 'e' {
        Class::E
    } else {
        Class::S
    }
}

/// The selector letter of a class.
pub open spec fn letter_of(class: Class) -> char {
    match class {
        Class::S => 's',
        Class::W => 'w',
        Class::A => 'a',
        Class::B => 'b',
        Class::C => 'c',
        Class::D => 'd',
        Class::E => 'e',
    }
}

/// The table of class parameters.
pub open spec fn params_of(class: Class) -> ClassParams {
    match class {
        Class::S => ClassParams { na: 1400, nonzer: 7, niter: 15, shift: 10, zeta_verify: 85971775078648 },
        Class::W => ClassParams { na: 7000, nonzer: 8, niter: 15, shift: 12, zeta_verify: 103625950871240 },
        Class::A => ClassParams { na: 14000, nonzer: 11, niter: 15, shift: 20, zeta_verify: 171302350540290 },
        Class::B => ClassParams { na: 75000, nonzer: 13, niter: 75, shift: 60, zeta_verify: 227127454826310 },
        Class::C => ClassParams { na: 150000, nonzer: 15, niter: 75, shift: 110, zeta_verify: 289736055928450 },
        Class::D => ClassParams { na: 1500000, nonzer: 21, niter: 100, shift: 500, zeta_verify: 525145321057940 },
        Class::E => ClassParams { na: 9000000, nonzer: 26, niter: 100, shift: 1500, zeta_verify: 775221645993830 },
    }
}

/// Floating-point operations of a whole run: per outer iteration and matrix
/// row, a fixed count for the driver plus one for each of the inner
/// iterations.
pub open spec fn flops_of(p: ClassParams) -> int {
    let per_row = p.nonzer * (p.nonzer + 1);
    2 * p.niter * p.na * (3 + per_row + CGITMAX * (5 + per_row) + 3)
}

/// Slots set aside for the matrix: each row may take the square of the
/// entries staged for it.
pub open spec fn slots_of(p: ClassParams) -> int {
    p.na * (p.nonzer + 1) * (p.nonzer + 1)
}

impl Class {
    /// Reads a class from its selector letter.
    pub fn from_letter(letter: char) -> (class: Class)
        ensures
            class == class_of(letter),
    {
        if letter == 'w' {
            Class::W
        } else if letter == 'a' {
            Class::A
        } else if letter == 'b' {
            Class::B
        } else if letter == 'c' {
            Class::C
        } else if letter == 'd' {
            Class::D
        } else if letter == 'e' {
            Class::E
        } else {
            Class::S
        }
    }

    /// The selector letter of the class.
    pub fn letter(self) -> (letter: char)
        ensures
            letter == letter_of(self),
            class_of(letter) == self,
    {
        match self {
            Class::S => 's',
            Class::W => 'w',
            Class::A => 'a',
            Class::B => 'b',
            Class::C => 'c',
            Class::D => 'd',
            Class::E => 'e',
        }
    }

    /// Looks the class up in the table.
    pub fn params(self) -> (p: ClassParams)
        ensures
            p == params_of(self),
    {
        match self {
            Class::S => ClassParams { na: 1400, nonzer: 7, niter: 15, shift: 10, zeta_verify: 85971775078648 },
            Class::W => ClassParams { na: 7000, nonzer: 8, niter: 15, shift: 12, zeta_verify: 103625950871240 },
            Class::A => ClassParams { na: 14000, nonzer: 11, niter: 15, shift: 20, zeta_verify: 171302350540290 },
            Class::B => ClassParams { na: 75000, nonzer: 13, niter: 75, shift: 60, zeta_verify: 227127454826310 },
            Class::C => ClassParams { na: 150000, nonzer: 15, niter: 75, shift: 110, zeta_verify: 289736055928450 },
            Class::D => ClassParams { na: 1500000, nonzer: 21, niter: 100, shift: 500, zeta_verify: 525145321057940 },
            Class::E => ClassParams { na: 9000000, nonzer: 26, niter: 100, shift: 1500, zeta_verify: 775221645993830 },
        }
    }
}

impl ClassParams {
    /// The floating-point operations of a whole run.
    pub fn flops(&self) -> (count: u128)
        ensures
            count == flops_of(*self),
    {
        let nonzer: u128 = self.nonzer as u128;
        let niter: u128 = self.niter as u128;
        let na: u128 = self.na as u128;
        assert(nonzer * (nonzer + 1) <= 0xffff * 0x1_0000) by (nonlinear_arith)
            requires
                0 <= nonzer <= 0xffff,
        ;
        let per_row: u128 = nonzer * (nonzer + 1);
        let inner: u128 = 3 + per_row + (CGITMAX as u128) * (5 + per_row) + 3;
        assert(niter * na <= 0xffff_ffff * 0xffff_ffff) by (nonlinear_arith)
            requires
                0 <= niter <= 0xffff_ffff,
                0 <= na <= 0xffff_ffff,
        ;
        let pairs: u128 = niter * na;
        let runs: u128 = 2 * pairs;
        assert(runs * inner <= 0x2_0000_0000_0000_0000 * 0x20_0000_0000) by (nonlinear_arith)
            requires
                0 <= runs <= 0x2_0000_0000_0000_0000,
                0 <= inner <= 0x20_0000_0000,
        ;
        assert(2 * self.niter * self.na == 2 * (self.niter * self.na)) by (nonlinear_arith);
        runs * inner
    }

    /// The slots to set aside for the matrix, if that many can be counted.
    pub fn slots(&self) -> (count: Option<usize>)
        ensures
            count is Some <==> slots_of(*self) <= usize::MAX,
            count matches Some(c) ==> c == slots_of(*self),
    {
        let stride: u64 = self.nonzer as u64 + 1;
        assert(stride * stride <= 0x1_0000 * 0x1_0000) by (nonlinear_arith)
            requires
                0 <= stride <= 0x1_0000,
        ;
        let square: u64 = stride * stride;
        assert(self.na * square <= 0xffff_ffff * 0x1_0000_0000) by (nonlinear_arith)
            requires
                0 <= self.na <= 0xffff_ffff,
                0 <= square <= 0x1_0000_0000,
        ;
        let wide: u128 = (self.na as u128) * (square as u128);
        assert(self.na * (stride * stride) == self.na * stride * stride) by (nonlinear_arith);
        if wide <= usize::MAX as u128 {
            Some(wide as usize)
        } else {
            None
        }
    }
}
} // verus!
