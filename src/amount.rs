use vstd::prelude::*;

verus! {

/// Ten to the power `n`.
pub open spec fn pow10(n: nat) -> int
    decreases n,
{
    if n == 0 {
        1
    } else {
        10 * pow10((n - 1) as nat)
    }
}

/// `m` divided by ten `k` times, provided each digit removed is a zero.
pub open spec fn drop_zero_digits(m: int, k: nat) -> Option<int>
    decreases k,
{
    if k == 0 {
        Some(m)
    } else if m % 10 == 0 {
        drop_zero_digits(m / 10, (k - 1) as nat)
    } else {
        None
    }
}

/// The decimal `m / 10^scale` in units of one ten-thousandth, when it is a
/// whole number of units.
pub open spec fn decimal_units(m: int, scale: nat) -> Option<int> {
    if scale <= 4 {
        Some(m * pow10((4 - scale) as nat))
    } else {
        drop_zero_digits(m, (scale - 4) as nat)
    }
}

pub open spec fn fits_i64(v: int) -> bool {
    i64::MIN <= v <= i64::MAX
}

/// The units of a decimal that are representable as an `i64`.
pub open spec fn units_in_i64(m: int, scale: nat) -> Option<i64> {
    match decimal_units(m, scale) {
        Some(u) => if fits_i64(u) {
            Some(u as i64)
        } else {
            None
        },
        None => None,
    }
}

proof fn lemma_zero_has_zero_digits(k: nat)
    ensures
        drop_zero_digits(0, k) == Some(0int),
    decreases k,
{
    if k > 0 {
        lemma_zero_has_zero_digits((k - 1) as nat);
    }
}

/// Converts a decimal given as its mantissa and scale (the value is
/// `mantissa / 10^scale`) into units of one ten-thousandth. Returns `None`
/// when the value has a non-zero digit past the fourth fractional place or
/// does not fit in an `i64`.
pub fn amount_units(mantissa: i128, scale: u32) -> (r: Option<i64>)
    ensures
        r == units_in_i64(mantissa as int, scale as nat),
{
    if scale <= 4 {
        let factor: i128 = if scale == 0 {
            10000
        } else if scale == 1 {
            1000
        } else if scale == 2 {
            100
        } else if scale == 3 {
            10
        } else {
            1
        };
        assert(factor == pow10((4 - scale) as nat)) by {
            reveal_with_fuel(pow10, 5);
        }
        if mantissa < i64::MIN as i128 || mantissa > i64::MAX as i128 {
            assert(!fits_i64(mantissa * factor)) by (nonlinear_arith)
                requires
                    mantissa < i64::MIN || mantissa > i64::MAX,
                    1 <= factor,
            ;
            return None;
        }
        assert(i64::MIN * 10000 <= mantissa * factor <= i64::MAX * 10000) by (nonlinear_arith)
            requires
                i64::MIN <= mantissa <= i64::MAX,
                1 <= factor <= 10000,
        ;
        let v = mantissa * factor;
        if v < i64::MIN as i128 || v > i64::MAX as i128 {
            None
        } else {
            Some(v as i64)
        }
    } else {
        let mut v: i128 = mantissa;
        let mut k: u32 = scale - 4;
        while k > 0
            invariant
                scale > 4,
                drop_zero_digits(v as int, k as nat) == drop_zero_digits(
                    mantissa as int,
                    (scale - 4) as nat,
                ),
            decreases k,
        {
            if v == 0 {
                proof {
                    lemma_zero_has_zero_digits(k as nat);
                }
                assert(decimal_units(mantissa as int, scale as nat) == Some(0int));
                return Some(0);
            }
            if v % 10 != 0 {
                assert((v as int) % 10 != 0);
                assert(drop_zero_digits(v as int, k as nat) == None::<int>);
                return None;
            }
            v = v / 10;
            k = k - 1;
        }
        if v < i64::MIN as i128 || v > i64::MAX as i128 {
            None
        } else {
            Some(v as i64)
        }
    }
}

} // verus!
