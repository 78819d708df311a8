use vstd::arithmetic::div_mod::{
    lemma_add_mod_noop, lemma_mod_add_multiples_vanish, lemma_mod_division_less_than_divisor,
    lemma_small_mod,
};
use vstd::prelude::*;

verus! {

/// Two byte ranges of the logical stream that do not overlap, and that
/// together span less than one lap of a ring of `cap` bytes, land on disjoint
/// physical ranges, provided neither range wraps physically.
pub(crate) proof fn lemma_ring_ranges_disjoint(a: nat, la: nat, b: nat, lb: nat, cap: nat)
    requires
        cap > 0,
        la >= 1,
        lb >= 1,
        a + la <= b,
        b + lb <= a + cap,
        a % cap + la <= cap,
        b % cap + lb <= cap,
    ensures
        a % cap + la <= b % cap || b % cap + lb <= a % cap,
{
    let pa: nat = a % cap;
    let pb: nat = b % cap;
    let d: nat = (b - a) as nat;
    lemma_mod_division_less_than_divisor(a as int, cap as int);
    lemma_mod_division_less_than_divisor(b as int, cap as int);
    // d < cap, because d + lb <= cap and lb >= 1
    lemma_small_mod(d, cap);
    lemma_add_mod_noop(a as int, d as int, cap as int);
    assert(pb == (pa + d) % cap);
    if pa + d < cap {
        lemma_small_mod((pa + d) as nat, cap);
        assert(pb == pa + d);
    } else {
        lemma_mod_add_multiples_vanish((pa + d - cap) as int, cap as int);
        lemma_small_mod((pa + d - cap) as nat, cap);
        assert(pb == pa + d - cap);
    }
}

} // verus!
