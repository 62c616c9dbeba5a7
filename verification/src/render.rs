//! Exact textual rendering of a ratio.
//!
//! The rendering is `"<matches>/<observations> (<percentage>%)"`, with the
//! percentage carried to exactly two fractional digits.  It is computed with
//! integer arithmetic alone: the percentage is the number of hundredths of a
//! percent, rounded to the nearest integer with ties going to the even
//! value.  When no observation has been recorded the proportion is not a
//! number, and the percentage renders as `NaN` rather than being
//! special-cased into an error.

use vstd::prelude::*;

verus! {

use crate::ratio::CountingRatio;
use vstd::string::StringExecFns;

/// The decimal digit character for `d`, for `d < 10`.
pub open spec fn digit_char(d: nat) -> char {
    if d == 0 {
        '0'
    } else if d == 1 {
        '1'
    } else if d == 2 {
        '2'
    } else if d == 3 {
        '3'
    } else if d == 4 {
        '4'
    } else if d == 5 {
        '5'
    } else if d == 6 {
        '6'
    } else if d == 7 {
        '7'
    } else if d == 8 {
        '8'
    } else {
        '9'
    }
}

/// The decimal rendering of `n`, most significant digit first, with no
/// leading zero except for `n == 0` itself.
pub open spec fn dec_str(n: nat) -> Seq<char>
    decreases n,
{
    if n < 10 {
        seq![digit_char(n)]
    } else {
        dec_str(n / 10) + seq![digit_char(n % 10)]
    }
}

/// The percentage `100 * m / o` expressed in hundredths of a percent and
/// rounded to the nearest integer, ties to even.  Meaningful for `o > 0`.
pub open spec fn percent_hundredths(m: nat, o: nat) -> nat {
    let q = m * 10000 / o;
    let r = m * 10000 % o;
    if 2 * r > o || (2 * r == o && q % 2 == 1) {
        q + 1
    } else {
        q
    }
}

/// The percentage part of the rendering: `NaN` when no observation was
/// recorded, else the rounded percentage with exactly two fractional digits.
pub open spec fn percent_str(m: nat, o: nat) -> Seq<char> {
    if o == 0 {
        seq!['N', 'a', 'N']
    } else {
        let p = percent_hundredths(m, o);
        dec_str(p / 100) + seq!['.', digit_char(p / 10 % 10), digit_char(p % 10)]
    }
}

/// The full rendering `"<matches>/<observations> (<percentage>%)"`.
pub open spec fn display_str(m: nat, o: nat) -> Seq<char> {
    dec_str(m) + seq!['/'] + dec_str(o) + seq![' ', '('] + percent_str(m, o) + seq!['%', ')']
}

fn digit_literal(d: u128) -> (r: &'static str)
    requires
        d < 10,
    ensures
        r@ == seq![digit_char(d as nat)],
{
    proof {
        reveal_strlit("0");
        reveal_strlit("1");
        reveal_strlit("2");
        reveal_strlit("3");
        reveal_strlit("4");
        reveal_strlit("5");
        reveal_strlit("6");
        reveal_strlit("7");
        reveal_strlit("8");
        reveal_strlit("9");
    }
    let r: &'static str = if d == 0 {
        "0"
    } else if d == 1 {
        "1"
    } else if d == 2 {
        "2"
    } else if d == 3 {
        "3"
    } else if d == 4 {
        "4"
    } else if d == 5 {
        "5"
    } else if d == 6 {
        "6"
    } else if d == 7 {
        "7"
    } else if d == 8 {
        "8"
    } else {
        "9"
    };
    proof {
        assert(r@ =~= seq![digit_char(d as nat)]);
    }
    r
}

fn dec_string(n: u128) -> (r: String)
    ensures
        r@ == dec_str(n as nat),
    decreases n,
{
    if n < 10 {
        let s = String::from_str(digit_literal(n));
        proof {
            assert(s@ =~= dec_str(n as nat));
        }
        s
    } else {
        let mut s = dec_string(n / 10);
        s.append(digit_literal(n % 10));
        proof {
            assert(s@ =~= dec_str(n as nat));
        }
        s
    }
}

fn percent_hundredths_exec(m: u64, o: u64) -> (p: u128)
    requires
        o > 0,
    ensures
        p as nat == percent_hundredths(m as nat, o as nat),
{
    let n: u128 = (m as u128) * 10000;
    let ob: u128 = o as u128;
    let q: u128 = n / ob;
    let r: u128 = n % ob;
    proof {
        assert(q <= n && r < ob) by (nonlinear_arith)
            requires
                ob > 0,
                q == n / ob,
                r == n % ob,
        ;
    }
    if 2 * r > ob || (2 * r == ob && q % 2 == 1) {
        q + 1
    } else {
        q
    }
}

impl CountingRatio {
    /// Renders the ratio verbatim as
    /// `"<matches>/<observations> (<percentage>%)"`, with the percentage
    /// carried to exactly two fractional digits and rounded ties-to-even.
    /// With zero observations the percentage renders as `NaN`.
    pub fn to_display_string(&self) -> (r: String)
        ensures
            r@ == display_str(self.matches as nat, self.observations as nat),
    {
        proof {
            reveal_strlit("/");
            reveal_strlit(" (");
            reveal_strlit("NaN");
            reveal_strlit(".");
            reveal_strlit("%)");
        }
        let mut s = dec_string(self.matches as u128);
        s.append("/");
        let os = dec_string(self.observations as u128);
        s.append(os.as_str());
        s.append(" (");
        if self.observations == 0 {
            s.append("NaN");
        } else {
            let p = percent_hundredths_exec(self.matches, self.observations);
            let ip = dec_string(p / 100);
            s.append(ip.as_str());
            s.append(".");
            s.append(digit_literal(p / 10 % 10));
            s.append(digit_literal(p % 10));
        }
        s.append("%)");
        proof {
            assert(s@ =~= display_str(self.matches as nat, self.observations as nat));
        }
        s
    }
}

} // verus!
