use vstd::prelude::*;

verus! {

/// A fixed-point amount (items per minute, or a number of buildings), stored
/// as a whole number of ten-thousandths.
#[derive(Clone, Copy, Debug, PartialEq, Eq, Structural)]
pub struct Fl(pub i64);

/// The number of stored units in one whole unit.
pub const FL_SCALE: i64 = 10000;

/// The fixed-point product of two stored values, rounded down.
pub open spec fn fl_mul(a: int, b: int) -> int {
    (a * b) / 10000
}

/// The fixed-point quotient of two stored values (the quotient of Euclidean
/// division).
pub open spec fn fl_div(a: int, b: int) -> int {
    (a * 10000) / b
}

/// Whether `x` can be stored in an amount.
pub open spec fn fits(x: int) -> bool {
    i64::MIN <= x <= i64::MAX
}

impl Fl {
    /// The stored value.
    pub open spec fn raw(self) -> int {
        self.0 as int
    }

    /// The product of two amounts; `None` when it cannot be stored.
    pub fn checked_mul(self, other: Fl) -> (res: Option<Fl>)
        ensures
            res is Some <==> fits(fl_mul(self.raw(), other.raw())),
            res matches Some(r) ==> r.raw() == fl_mul(self.raw(), other.raw()),
    {
        let a: i128 = self.0 as i128;
        let b: i128 = other.0 as i128;
        assert(-0x4000_0000_0000_0000_0000_0000_0000_0000 <= a * b <= 0x4000_0000_0000_0000_0000_0000_0000_0000)
            by (nonlinear_arith)
            requires
                -0x8000_0000_0000_0000 <= a <= 0x8000_0000_0000_0000,
                -0x8000_0000_0000_0000 <= b <= 0x8000_0000_0000_0000,
        ;
        let p: i128 = a * b;
        let q: Option<i128> = p.checked_div_euclid(10000);
        match q {
            Some(v) => {
                if v < (i64::MIN as i128) || v > (i64::MAX as i128) {
                    None
                } else {
                    Some(Fl(v as i64))
                }
            },
            None => None,
        }
    }

    /// The quotient of two amounts; `None` when `other` is zero or the
    /// quotient cannot be stored.
    pub fn checked_div(self, other: Fl) -> (res: Option<Fl>)
        ensures
            res is Some <==> other.raw() != 0 && fits(fl_div(self.raw(), other.raw())),
            res matches Some(r) ==> r.raw() == fl_div(self.raw(), other.raw()),
    {
        if other.0 == 0 {
            return None;
        }
        let a: i128 = self.0 as i128;
        let b: i128 = other.0 as i128;
        let p: i128 = a * 10000;
        let q: Option<i128> = p.checked_div_euclid(b);
        match q {
            Some(v) => {
                if v < (i64::MIN as i128) || v > (i64::MAX as i128) {
                    None
                } else {
                    Some(Fl(v as i64))
                }
            },
            None => None,
        }
    }
}

} // verus!
