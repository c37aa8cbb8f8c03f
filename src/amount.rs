//! Decimal amounts written as text, read into fixed-point integers with
//! eight decimal places.
use vstd::prelude::*;

verus! {

/// `10` to the power `n`.
pub open spec fn pow10(n: nat) -> nat
    decreases n,
{
    if n == 0 {
        1
    } else {
        10 * pow10((n - 1) as nat)
    }
}

/// An ASCII decimal digit.
pub open spec fn is_digit(c: char) -> bool {
    '0' <= c && c <= '9'
}

/// The value of an ASCII decimal digit.
pub open spec fn digit_value(c: char) -> nat {
    ((c as u32) - ('0' as u32)) as nat
}

/// What has been read of a decimal amount so far: whether it is still well
/// formed, the digits read as one number, how many digits stand before and
/// after the decimal point, and whether the point was seen.
pub ghost struct AmountScan {
    pub ok: bool,
    pub value: nat,
    pub int_digits: nat,
    pub seen_dot: bool,
    pub frac_digits: nat,
}

/// Reading a decimal amount character by character: digits with at most
/// one `.`; digits after the eighth decimal are dropped.
pub open spec fn scan_amount(s: Seq<char>) -> AmountScan
    decreases s.len(),
{
    if s.len() == 0 {
        AmountScan { ok: true, value: 0, int_digits: 0, seen_dot: false, frac_digits: 0 }
    } else {
        let st = scan_amount(s.drop_last());
        let c = s.last();
        if !st.ok {
            st
        } else if is_digit(c) && st.seen_dot && st.frac_digits >= 8 {
            st
        } else if is_digit(c) && st.seen_dot {
            AmountScan {
                value: st.value * 10 + digit_value(c),
                frac_digits: st.frac_digits + 1,
                ..st
            }
        } else if is_digit(c) {
            AmountScan { value: st.value * 10 + digit_value(c), int_digits: st.int_digits + 1, ..st }
        } else if c == '.' && !st.seen_dot {
            AmountScan { seen_dot: true, ..st }
        } else {
            AmountScan { ok: false, ..st }
        }
    }
}

/// The amount a text denotes, in units of `1 / 10^8`: decimal digits, at
/// least one, with at most one `.` among them (`5`, `5.`, `.5`, `0.25`);
/// decimals beyond the eighth are truncated. `None` when the text has
/// another shape.
pub open spec fn amount_of(s: Seq<char>) -> Option<nat> {
    let st = scan_amount(s);
    if st.ok && st.int_digits + st.frac_digits > 0 {
        Some(st.value * pow10((8 - st.frac_digits) as nat))
    } else {
        None
    }
}

proof fn lemma_scan_grows(s: Seq<char>, i: int)
    requires
        0 <= i <= s.len(),
    ensures
        scan_amount(s.subrange(0, i)).value <= scan_amount(s).value,
        scan_amount(s).frac_digits <= 8,
        !scan_amount(s.subrange(0, i)).ok ==> !scan_amount(s).ok,
    decreases s.len() - i,
{
    if i < s.len() {
        lemma_scan_grows(s, i + 1);
        assert(s.subrange(0, i + 1).drop_last() =~= s.subrange(0, i));
    } else {
        assert(s.subrange(0, i) =~= s);
        lemma_frac_bound(s);
    }
}

proof fn lemma_frac_bound(s: Seq<char>)
    ensures
        scan_amount(s).frac_digits <= 8,
    decreases s.len(),
{
    if s.len() > 0 {
        lemma_frac_bound(s.drop_last());
    }
}

proof fn lemma_pow10_positive(n: nat)
    ensures
        pow10(n) >= 1,
    decreases n,
{
    if n > 0 {
        lemma_pow10_positive((n - 1) as nat);
    }
}

/// Reads a decimal amount into units of `1 / 10^8`. `None` when the text is
/// not a decimal amount or the amount does not fit a `u64`.
pub fn parse_amount(s: &str) -> (r: Option<u64>)
    ensures
        match amount_of(s@) {
            Some(v) => if v <= u64::MAX {
                r == Some(v as u64)
            } else {
                r is None
            },
            None => r is None,
        },
{
    let n = s.unicode_len();
    let mut value: u64 = 0;
    let mut int_digits: usize = 0;
    let mut seen_dot = false;
    let mut frac_digits: usize = 0;
    let mut i: usize = 0;
    while i < n
        invariant
            n == s@.len(),
            i <= n,
            scan_amount(s@.subrange(0, i as int)) == (AmountScan {
                ok: true,
                value: value as nat,
                int_digits: int_digits as nat,
                seen_dot,
                frac_digits: frac_digits as nat,
            }),
            int_digits <= i,
            frac_digits <= 8,
        decreases n - i,
    {
        let c = s.get_char(i);
        assert(s@.subrange(0, i + 1).drop_last() =~= s@.subrange(0, i as int));
        assert(s@.subrange(0, i + 1).last() == c);
        if '0' <= c && c <= '9' {
            if seen_dot && frac_digits >= 8 {
                i = i + 1;
                continue;
            }
            let d = (c as u32 - '0' as u32) as u64;
            if value > (u64::MAX - d) / 10 {
                proof {
                    lemma_scan_grows(s@, i + 1);
                    let st = scan_amount(s@);
                    if st.ok {
                        lemma_pow10_positive((8 - st.frac_digits) as nat);
                        assert(st.value * pow10((8 - st.frac_digits) as nat) >= st.value)
                            by (nonlinear_arith)
                            requires
                                pow10((8 - st.frac_digits) as nat) >= 1,
                        ;
                    }
                }
                return None;
            }
            value = value * 10 + d;
            if seen_dot {
                frac_digits = frac_digits + 1;
            } else {
                int_digits = int_digits + 1;
            }
        } else if c == '.' && !seen_dot {
            seen_dot = true;
        } else {
            proof {
                lemma_scan_grows(s@, i + 1);
            }
            return None;
        }
        i = i + 1;
    }
    assert(s@.subrange(0, n as int) =~= s@);
    if int_digits == 0 && frac_digits == 0 {
        return None;
    }
    let mut k: usize = frac_digits;
    let ghost base = value as nat;
    assert(pow10(0) == 1);
    assert(base * pow10(0) == base);
    assert(amount_of(s@) == Some(base * pow10((8 - frac_digits) as nat)));
    while k < 8
        invariant
            frac_digits <= k <= 8,
            amount_of(s@) == Some(base * pow10((8 - frac_digits) as nat)),
            value as nat == base * pow10((k - frac_digits) as nat),
        decreases 8 - k,
    {
        if value > u64::MAX / 10 {
            proof {
                let m = (k - frac_digits) as nat;
                let rest = (8 - k) as nat;
                lemma_pow10_split(m, rest);
                lemma_pow10_positive((rest - 1) as nat);
                assert(base * pow10(m + rest) == value * pow10(rest)) by (nonlinear_arith)
                    requires
                        pow10(m + rest) == pow10(m) * pow10(rest),
                        value as nat == base * pow10(m),
                ;
                assert(value * pow10(rest) >= value * 10) by (nonlinear_arith)
                    requires
                        pow10(rest) == 10 * pow10((rest - 1) as nat),
                        pow10((rest - 1) as nat) >= 1,
                ;
                assert(m + rest == (8 - frac_digits) as nat);
                assert(value * 10 > u64::MAX);
                assert(base * pow10((8 - frac_digits) as nat) > u64::MAX);
            }
            return None;
        }
        proof {
            let m = (k - frac_digits) as nat;
            assert(pow10(m + 1) == 10 * pow10(m));
            assert(base * pow10(m + 1) == base * pow10(m) * 10) by (nonlinear_arith)
                requires
                    pow10(m + 1) == 10 * pow10(m),
            ;
        }
        value = value * 10;
        k = k + 1;
    }
    Some(value)
}

proof fn lemma_pow10_split(a: nat, b: nat)
    ensures
        pow10(a + b) == pow10(a) * pow10(b),
    decreases a,
{
    if a == 0 {
        assert(pow10(0) == 1);
        assert(a + b == b);
    } else {
        lemma_pow10_split((a - 1) as nat, b);
        assert(pow10(a) == 10 * pow10((a - 1) as nat));
        assert((a - 1 + b) as nat == (a + b - 1) as nat);
        assert(pow10(a + b) == 10 * pow10((a - 1 + b) as nat));
        assert(10 * (pow10((a - 1) as nat) * pow10(b)) == (10 * pow10((a - 1) as nat)) * pow10(
            b,
        )) by (nonlinear_arith);
    }
}

} // verus!
