//! Modular index arithmetic shared by the cyclic shifts of both algebras.
use vstd::arithmetic::div_mod::{
    lemma_fundamental_div_mod, lemma_fundamental_div_mod_converse_mod, lemma_mod_multiples_vanish,
    lemma_small_mod,
};
use vstd::prelude::*;

verus! {

/// Where position `p` of a cycle of length `n` goes under a shift by `s`.
pub open spec fn shifted_position(p: int, s: int, n: nat) -> int {
    (p + s) % (n as int)
}

/// A shift applied to a position in `[0, n)`, written with the reduced shift
/// `r == s % n`: the position either stays below `n` or wraps around once.
pub proof fn lemma_shift_by_reduced(p: int, s: int, n: nat, r: int)
    requires
        0 <= p < n,
        r == s % (n as int),
    ensures
        shifted_position(p, s, n) == if p + r >= n { p + r - n } else { p + r },
{
    let ni = n as int;
    lemma_fundamental_div_mod(s, ni);
    lemma_mod_multiples_vanish(s / ni, p + r, ni);
    assert(p + s == ni * (s / ni) + (p + r));
    if p + r >= n {
        lemma_fundamental_div_mod_converse_mod(p + r, ni, 1, p + r - ni);
    } else {
        lemma_small_mod((p + r) as nat, n);
    }
}

/// Shifting a position by `s` and then by `-s` gives the position back.
pub proof fn lemma_shift_back(p: int, s: int, n: nat)
    requires
        0 <= p < n,
    ensures
        shifted_position(shifted_position(p, s, n), -s, n) == p,
{
    let ni = n as int;
    let q = (p + s) / ni;
    lemma_fundamental_div_mod(p + s, ni);
    assert((p + s) % ni - s == (-q) * ni + p) by (nonlinear_arith)
        requires
            p + s == ni * q + (p + s) % ni,
    ;
    lemma_fundamental_div_mod_converse_mod((p + s) % ni - s, ni, -q, p);
}

/// Reduces a signed shift to the equivalent shift in `[0, n)`.
pub fn reduce_shift(shift_by: isize, n: usize) -> (r: usize)
    requires
        n > 0,
    ensures
        r < n,
        r as int == (shift_by as int) % (n as int),
{
    if shift_by >= 0 {
        (shift_by as usize) % n
    } else {
        let t: u128 = (-(shift_by as i128)) as u128;
        let m: u128 = t % (n as u128);
        proof {
            let s = shift_by as int;
            let ni = n as int;
            let q = (t as int) / ni;
            lemma_fundamental_div_mod(t as int, ni);
            if m == 0 {
                assert(s == (-q) * ni + 0) by (nonlinear_arith)
                    requires
                        t as int == ni * q + 0,
                        s == -(t as int),
                ;
                lemma_fundamental_div_mod_converse_mod(s, ni, -q, 0);
            } else {
                assert(s == (-q - 1) * ni + (ni - m)) by (nonlinear_arith)
                    requires
                        t as int == ni * q + m,
                        s == -(t as int),
                ;
                lemma_fundamental_div_mod_converse_mod(s, ni, -q - 1, ni - m);
            }
        }
        if m == 0 {
            0
        } else {
            n - (m as usize)
        }
    }
}

} // verus!
