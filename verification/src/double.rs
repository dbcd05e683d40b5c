//! Double-precision numbers, as far as files hold them.
use crate::float::{
    lemma_code, lemma_pick_overflow, lemma_round_unique, make, nan, nearest, round, round_pack, F32,
    INF_CODE,
};
use vstd::arithmetic::power2::{
    lemma2_to64, lemma_pow2_adds, lemma_pow2_pos, lemma_pow2_strictly_increases, pow2,
};
use vstd::prelude::*;

verus! {

/// A double-precision (binary64) number, by its bits.
#[derive(Clone, Copy, Debug)]
pub struct F64 {
    pub bits: u64,
}

impl vstd::std_specs::cmp::PartialEqSpecImpl for F64 {
    open spec fn obeys_eq_spec() -> bool {
        true
    }

    /// Numbers are equal by value: zeros of either sign are equal, and what is no
    /// number equals nothing.
    open spec fn eq_spec(&self, other: &F64) -> bool {
        if self.code_spec() == 0 {
            other.code_spec() == 0
        } else {
            self.code_spec() <= DOUBLE_INF_CODE && self.bits == other.bits
        }
    }
}

impl PartialEq for F64 {
    fn eq(&self, other: &F64) -> (b: bool) {
        let code: u64 = self.bits % 0x8000_0000_0000_0000;
        if code == 0 {
            other.bits % 0x8000_0000_0000_0000 == 0
        } else {
            code <= DOUBLE_INF_CODE && self.bits == other.bits
        }
    }
}

/// The bits of infinity without the sign. Larger codes are no numbers.
pub const DOUBLE_INF_CODE: u64 = 0x7ff0_0000_0000_0000;

/// The magnitude with code `c`, in units of 2^-1074.
pub open spec fn double_magnitude(c: int) -> int {
    if c / 0x10_0000_0000_0000 == 0 {
        c
    } else {
        (0x10_0000_0000_0000 + c % 0x10_0000_0000_0000) * pow2(
            (c / 0x10_0000_0000_0000 - 1) as nat,
        )
    }
}

impl F64 {
    /// The sign bit.
    pub open spec fn neg_spec(self) -> bool {
        self.bits >= 0x8000_0000_0000_0000
    }

    /// The bits without the sign.
    pub open spec fn code_spec(self) -> int {
        self.bits as int % 0x8000_0000_0000_0000
    }

    /// The nearest single-precision number, ties to even.
    pub open spec fn narrowed(self) -> F32 {
        let c = self.code_spec();
        if c > 0x7ff0_0000_0000_0000 {
            nan()
        } else if c == 0x7ff0_0000_0000_0000 {
            make(self.neg_spec(), INF_CODE as int)
        } else {
            make(self.neg_spec(), round(double_magnitude(c), pow2(925) as int))
        }
    }

    /// From its bits.
    pub fn from_bits(bits: u64) -> (r: F64)
        ensures
            r.bits == bits,
    {
        F64 { bits }
    }

    /// Its bits.
    pub fn to_bits(self) -> (b: u64)
        ensures
            b == self.bits,
    {
        self.bits
    }

    /// Rounds to single precision.
    pub fn to_f32(self) -> (r: F32)
        ensures
            r == self.narrowed(),
    {
        let negative: bool = self.bits >= 0x8000_0000_0000_0000;
        let c: u64 = self.bits % 0x8000_0000_0000_0000;
        if c > 0x7ff0_0000_0000_0000 {
            return F32 { bits: 0x7fc0_0000 };
        }
        let sign: u32 = if negative {
            0x8000_0000
        } else {
            0
        };
        if c == 0x7ff0_0000_0000_0000 {
            return F32 { bits: sign + INF_CODE };
        }
        let ghost num = double_magnitude(c as int);
        let ghost den = pow2(925) as int;
        let field: u64 = c / 0x10_0000_0000_0000;
        let frac: u64 = c % 0x10_0000_0000_0000;
        proof {
            lemma2_to64();
            lemma_pow2_pos(925);
        }
        let m: u64 = if field == 0 {
            frac
        } else {
            frac + 0x10_0000_0000_0000
        };
        let e0: i32 = if field == 0 {
            0
        } else {
            field as i32 - 1
        };
        assert(num == m * pow2(e0 as nat)) by {
            if field == 0 {
                assert(m * pow2(0) == m) by (nonlinear_arith)
                    requires
                        pow2(0) == 1,
                ;
            }
        }
        if m == 0 {
            proof {
                lemma_code(0, 0);
                assert(num == 0) by (nonlinear_arith)
                    requires
                        num == m * pow2(e0 as nat),
                        m == 0,
                ;
                assert(nearest(0, den, 0));
                lemma_round_unique(0, den, 0);
            }
            return F32 { bits: sign };
        }
        let e: i32 = e0 - 925;
        if e > 440 {
            proof {
                lemma_pow2_adds(925, e as nat);
                lemma_pow2_adds(23, 300);
                lemma_pow2_strictly_increases(323, e as nat);
                let big = pow2(300) as int;
                assert(0x80_0000 * big * den <= num) by (nonlinear_arith)
                    requires
                        num == m * pow2(e0 as nat),
                        pow2(e0 as nat) == den * pow2(e as nat),
                        m >= 1,
                        0x80_0000 * big < pow2(e as nat),
                        den > 0,
                        big >= 0,
                ;
                lemma_pick_overflow(num, den, 0x80_0000, 300);
                lemma_round_unique(num, den, INF_CODE as int);
            }
            return F32 { bits: sign + INF_CODE };
        }
        proof {
            if e >= 0 {
                lemma_pow2_adds(e as nat, 925);
                assert(num * pow2(0) == m * pow2(e as nat) * den) by (nonlinear_arith)
                    requires
                        pow2(0) == 1,
                        num == m * pow2(e0 as nat),
                        pow2(e0 as nat) == pow2(e as nat) * den,
                ;
            } else {
                lemma_pow2_adds(e0 as nat, (-e) as nat);
                assert(num * pow2((-e) as nat) == m * pow2(0) * den) by (nonlinear_arith)
                    requires
                        pow2(0) == 1,
                        num == m * pow2(e0 as nat),
                        den == pow2(e0 as nat) * pow2((-e) as nat),
                ;
            }
        }
        round_pack(negative, m, e, false, Ghost(num), Ghost(den))
    }
}

} // verus!
