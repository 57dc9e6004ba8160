//! Deterministic synthetic inputs for scaling studies: a `name x y` quickstart
//! netlist and a SPICE netlist of MOSFETs, both of any size, with no random
//! numbers (positions are a cheap multiplicative hash of the index, in 64-bit
//! wrapping arithmetic).
use vstd::prelude::*;

use crate::text::{digits_u64, int_string, int_text, nat_digits};

verus! {

/// The x position of quickstart cell `i`: a hash of the index in `-500..500`.
pub open spec fn quick_x(i: nat) -> int {
    ((i * 2654435761) % 18446744073709551616) % 1000 - 500
}

/// The y position of quickstart cell `i`: a hash of the index in `-500..500`.
pub open spec fn quick_y(i: nat) -> int {
    ((i * 40503) % 18446744073709551616) % 1000 - 500
}

/// The line of quickstart cell `i`: `cell<i> <x> <y>`.
pub open spec fn quick_line(i: nat) -> Seq<char> {
    "cell"@ + nat_digits(i) + " "@ + int_text(quick_x(i)) + " "@ + int_text(quick_y(i)) + "\n"@
}

/// The lines of cells `0..n`.
pub open spec fn quick_lines(n: nat) -> Seq<char>
    decreases n,
{
    if n == 0 {
        seq![]
    } else {
        quick_lines((n - 1) as nat) + quick_line((n - 1) as nat)
    }
}

/// The card of MOSFET `i`: `m<i> d<i> g<i> 0 0 <kind>`, NMOS for even `i`,
/// PMOS for odd.
pub open spec fn spice_line(i: nat) -> Seq<char> {
    "m"@ + nat_digits(i) + " d"@ + nat_digits(i) + " g"@ + nat_digits(i) + " 0 0 "@ + (if i % 2 == 0 {
        "nmos"@
    } else {
        "pmos"@
    }) + "\n"@
}

/// The cards of MOSFETs `0..n`.
pub open spec fn spice_lines(n: nat) -> Seq<char>
    decreases n,
{
    if n == 0 {
        seq![]
    } else {
        spice_lines((n - 1) as nat) + spice_line((n - 1) as nat)
    }
}

fn hashed(i: u64, k: u64) -> (v: i64)
    ensures
        v == ((i * k) % 18446744073709551616) % 1000 - 500,
{
    let p = i.wrapping_mul(k);
    (p % 1000) as i64 - 500
}

/// A deterministic `name x y` quickstart netlist with `n` cells laid out on a
/// pseudo-grid: cell `i` sits at ([`quick_x`], [`quick_y`]).
pub fn synthetic_quick_netlist(n: usize) -> (s: String)
    ensures
        s@ == quick_lines(n as nat),
{
    let mut s = String::new();
    let mut i: usize = 0;
    while i < n
        invariant
            i <= n,
            s@ == quick_lines(i as nat),
        decreases n - i,
    {
        let x = hashed(i as u64, 2654435761u64);
        let y = hashed(i as u64, 40503u64);
        s.append("cell");
        let d = digits_u64(i as u64);
        s.append(d.as_str());
        s.append(" ");
        let xs = int_string(x);
        s.append(xs.as_str());
        s.append(" ");
        let ys = int_string(y);
        s.append(ys.as_str());
        s.append("\n");
        proof {
            assert(s@ =~= quick_lines(i as nat) + quick_line(i as nat));
        }
        i = i + 1;
    }
    s
}

/// A deterministic SPICE netlist with `n` MOSFET cards ([`spice_line`]), for
/// driving the netlist flow at a chosen problem size.
pub fn synthetic_spice(n: usize) -> (s: String)
    ensures
        s@ == spice_lines(n as nat),
{
    let mut s = String::new();
    let mut i: usize = 0;
    while i < n
        invariant
            i <= n,
            s@ == spice_lines(i as nat),
        decreases n - i,
    {
        let kind = if i % 2 == 0 {
            "nmos"
        } else {
            "pmos"
        };
        let d = digits_u64(i as u64);
        s.append("m");
        s.append(d.as_str());
        s.append(" d");
        s.append(d.as_str());
        s.append(" g");
        s.append(d.as_str());
        s.append(" 0 0 ");
        s.append(kind);
        s.append("\n");
        proof {
            assert(s@ =~= spice_lines(i as nat) + spice_line(i as nat));
        }
        i = i + 1;
    }
    s
}

} // verus!
