//! Duration rendering: the elapsed lifetime of a scope, shown in the
//! coarsest unit that keeps the magnitude readable, with precision scaled so
//! the mantissa shows at least three significant digits.

use vstd::prelude::*;
use vstd::arithmetic::div_mod::{lemma_div_is_strictly_smaller, lemma_fundamental_div_mod,
    lemma_fundamental_div_mod_converse};
use vstd::string::StringExecFns;

use crate::text::{append_dec_u64, dec_str, pow10};

verus! {

/// Fractional digits rendered for a value, zero padded on the left to the
/// chosen precision (one to three digits).
pub open spec fn padded_frac(f: nat, p: nat) -> Seq<char> {
    if p == 3 && f < 10 {
        seq!['0', '0'] + dec_str(f)
    } else if p == 3 && f < 100 {
        seq!['0'] + dec_str(f)
    } else if p == 2 && f < 10 {
        seq!['0'] + dec_str(f)
    } else {
        dec_str(f)
    }
}

/// Rendering of `ns` nanoseconds in the unit `ns / divisor`, rounded half
/// up to 3 decimals under 10 units, 2 under 100, 1 under 1000, 0 at or
/// above 1000.
pub open spec fn fraction_str(ns: nat, divisor: nat, suffix: Seq<char>) -> Seq<char> {
    let p: nat = if ns < 10 * divisor {
        3
    } else if ns < 100 * divisor {
        2
    } else if ns < 1000 * divisor {
        1
    } else {
        0
    };
    let scaled = (ns * pow10(p) + divisor / 2) / divisor;
    if p == 0 {
        dec_str(scaled) + suffix
    } else {
        dec_str(scaled / pow10(p)) + seq!['.'] + padded_frac(scaled % pow10(p), p) + suffix
    }
}

/// Rendering of a duration of `secs` seconds plus `nanos` subsecond
/// nanoseconds: nanoseconds below 1000ns, then microseconds, milliseconds
/// and seconds at each factor of 1000; a duration too large for a
/// nanosecond count falls back to whole seconds.
pub open spec fn spec_format_duration(secs: nat, nanos: nat) -> Seq<char> {
    let total = secs * 1_000_000_000 + nanos;
    if total > u64::MAX {
        dec_str(secs) + "s"@
    } else if total < 1_000 {
        dec_str(total) + "ns"@
    } else if total < 1_000_000 {
        fraction_str(total, 1_000, "us"@)
    } else if total < 1_000_000_000 {
        fraction_str(total, 1_000_000, "ms"@)
    } else {
        fraction_str(total, 1_000_000_000, "s"@)
    }
}

proof fn lemma_pow10_vals()
    ensures
        pow10(0) == 1,
        pow10(1) == 10,
        pow10(2) == 100,
        pow10(3) == 1000,
{
    assert(pow10(0) == 1);
    assert(pow10(1) == 10);
    assert(pow10(2) == 100);
    assert(pow10(3) == 1000);
}

/// Rounding half up by adding half the divisor before dividing is one
/// increment of the plain quotient exactly when the remainder reaches half.
proof fn lemma_half_up_div(x: nat, d: nat)
    requires
        d >= 2,
        d % 2 == 0,
    ensures
        (x + d / 2) / d == x / d + if x % d >= d / 2 {
            1nat
        } else {
            0nat
        },
{
    let q = (x / d) as int;
    let r = (x % d) as int;
    let di = d as int;
    let h = di / 2;
    lemma_fundamental_div_mod(x as int, di);
    lemma_fundamental_div_mod(di, 2);
    assert(di == 2 * h);
    if r >= h {
        assert(di * (q + 1) == di * q + di) by (nonlinear_arith);
        assert(x as int + h == (q + 1) * di + (r + h - di)) by (nonlinear_arith)
            requires
                x as int == di * q + r,
        ;
        lemma_fundamental_div_mod_converse(x as int + h, di, q + 1, r + h - di);
    } else {
        assert(x as int + h == q * di + (r + h)) by (nonlinear_arith)
            requires
                x as int == di * q + r,
        ;
        lemma_fundamental_div_mod_converse(x as int + h, di, q, r + h);
    }
}

/// Renders `ns / divisor` with the precision rule of `fraction_str`.
fn format_fraction(ns: u64, divisor: u64, suffix: &str) -> (r: String)
    requires
        divisor == 1_000 || divisor == 1_000_000 || divisor == 1_000_000_000,
        ns >= divisor,
    ensures
        r@ == fraction_str(ns as nat, divisor as nat, suffix@),
{
    proof {
        lemma_pow10_vals();
    }
    let mut out = String::new();
    if ns < 1000 * divisor {
        let pw: u64 = if ns < 10 * divisor {
            1000
        } else if ns < 100 * divisor {
            100
        } else {
            10
        };
        let ghost p: nat = if ns < 10 * divisor {
            3
        } else if ns < 100 * divisor {
            2
        } else {
            1
        };
        proof {
            assert(pw as nat == pow10(p));
            assert(ns * pw <= 1_000_000_000_000_000) by (nonlinear_arith)
                requires
                    ns < 1000 * divisor,
                    pw <= 1000,
                    divisor <= 1_000_000_000,
            ;
        }
        let scaled = (ns * pw + divisor / 2) / divisor;
        let ip = scaled / pw;
        let fr = scaled % pw;
        append_dec_u64(&mut out, ip);
        out.append(".");
        if pw == 1000 && fr < 10 {
            out.append("00");
        } else if pw == 1000 && fr < 100 {
            out.append("0");
        } else if pw == 100 && fr < 10 {
            out.append("0");
        }
        append_dec_u64(&mut out, fr);
        out.append(suffix);
        proof {
            reveal_strlit(".");
            reveal_strlit("0");
            reveal_strlit("00");
            assert("."@ =~= seq!['.']);
            assert("0"@ =~= seq!['0']);
            assert("00"@ =~= seq!['0', '0']);
            assert(scaled as nat == (ns as nat * pow10(p) + (divisor as nat) / 2) / (
            divisor as nat));
            assert(out@ =~= dec_str(scaled as nat / pow10(p)) + seq!['.'] + padded_frac(
                scaled as nat % pow10(p),
                p,
            ) + suffix@);
            assert(out@ =~= fraction_str(ns as nat, divisor as nat, suffix@));
        }
    } else {
        let q = ns / divisor;
        let rem = ns % divisor;
        proof {
            lemma_div_is_strictly_smaller(ns as int, divisor as int);
        }
        let scaled = if rem >= divisor / 2 {
            q + 1
        } else {
            q
        };
        proof {
            lemma_half_up_div(ns as nat, divisor as nat);
            assert(ns as nat * pow10(0) == ns as nat) by (nonlinear_arith);
            assert(scaled as nat == (ns as nat * pow10(0) + (divisor as nat) / 2) / (
            divisor as nat));
        }
        append_dec_u64(&mut out, scaled);
        out.append(suffix);
        proof {
            assert(out@ =~= fraction_str(ns as nat, divisor as nat, suffix@));
        }
    }
    out
}

/// Renders a duration given as whole seconds plus subsecond nanoseconds.
pub fn format_duration(secs: u64, subsec_nanos: u32) -> (r: String)
    requires
        subsec_nanos < 1_000_000_000,
    ensures
        r@ == spec_format_duration(secs as nat, subsec_nanos as nat),
{
    let total: u64 = match secs.checked_mul(1_000_000_000) {
        Some(v) => {
            match v.checked_add(subsec_nanos as u64) {
                Some(t) => t,
                None => {
                    let mut out = String::new();
                    append_dec_u64(&mut out, secs);
                    out.append("s");
                    return out;
                },
            }
        },
        None => {
            let mut out = String::new();
            append_dec_u64(&mut out, secs);
            out.append("s");
            return out;
        },
    };
    if total < 1_000 {
        let mut out = String::new();
        append_dec_u64(&mut out, total);
        out.append("ns");
        out
    } else if total < 1_000_000 {
        format_fraction(total, 1_000, "us")
    } else if total < 1_000_000_000 {
        format_fraction(total, 1_000_000, "ms")
    } else {
        format_fraction(total, 1_000_000_000, "s")
    }
}

} // verus!
