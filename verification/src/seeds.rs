//! That streams of numbers do not run together: every game, tree and row draws from its own.

use vstd::prelude::*;

#[allow(unused_imports)]
use crate::engine::run::game_seed;
#[allow(unused_imports)]
use crate::policies::tree::mcts::read::noise_stream;
#[allow(unused_imports)]
use crate::policies::tree::mcts::search::chance_stream;
#[allow(unused_imports)]
use crate::rng::{generator, mixed, GOLDEN};

verus! {

/// How many numbers a word holds.
pub open spec fn words() -> int {
    0x1_0000_0000_0000_0000
}

/// Multiplying by a number that has an inverse modulo the words loses nothing.
proof fn lemma_factor(x: u64, y: u64, c: u64, d: int, q: int)
    requires
        c * d == q * words() + 1,
        vstd::wrapping::u64_specs::wrapping_mul(x, c) == vstd::wrapping::u64_specs::wrapping_mul(
            y,
            c,
        ),
    ensures
        x == y,
{
    let m = words();
    let a = x as int * c as int;
    let b = y as int * c as int;
    assert(a >= 0 && b >= 0) by (nonlinear_arith)
        requires
            a == x as int * c as int,
            b == y as int * c as int,
    ;
    assert(a % m == b % m);
    vstd::arithmetic::div_mod::lemma_fundamental_div_mod(a, m);
    vstd::arithmetic::div_mod::lemma_fundamental_div_mod(b, m);
    let u = x as int - y as int;
    let k = a / m - b / m;
    assert(m * (a / m) - m * (b / m) == m * k) by (nonlinear_arith)
        requires
            k == a / m - b / m,
    ;
    assert(u * c as int == m * k) by (nonlinear_arith)
        requires
            a - b == m * k,
            a == x as int * c as int,
            b == y as int * c as int,
            u == x as int - y as int,
    ;
    let t = k * d - u * q;
    assert(u == m * t) by (nonlinear_arith)
        requires
            u * c as int == m * k,
            c as int * d == q * m + 1,
            t == k * d - u * q,
    ;
    assert(t == 0) by (nonlinear_arith)
        requires
            u == m * t,
            m == 0x1_0000_0000_0000_0000,
            -m < u < m,
    ;
}

/// No two games of an engine begin with the same seed.
pub proof fn law_games_have_their_own_seed(seed: u64, i: nat, j: nat)
    requires
        i <= u64::MAX,
        j <= u64::MAX,
        game_seed(seed, i) == game_seed(seed, j),
    ensures
        i == j,
{
    assert(GOLDEN as int * 0xf1de_83e1_9937_733d == 10771413168148108919 * words() + 1);
    lemma_factor(i as u64, j as u64, GOLDEN, 0xf1de_83e1_9937_733d, 10771413168148108919);
}

/// The first game begins with the engine's own seed.
pub proof fn law_the_first_game_has_the_seed(seed: u64)
    ensures
        game_seed(seed, 0) == seed,
{
}

/// No two trees of a pool draw their chance from the same stream.
pub proof fn law_trees_have_their_own_chance(seed: u64, i: usize, j: usize)
    requires
        chance_stream(seed, i) == chance_stream(seed, j),
    ensures
        i == j,
{
    let a = vstd::wrapping::u64_specs::wrapping_mul(i as u64, GOLDEN);
    let b = vstd::wrapping::u64_specs::wrapping_mul(j as u64, GOLDEN);
    assert(a == b) by (bit_vector)
        requires
            seed ^ 0x53A3_C5A9_1D87_2F6Bu64 ^ a == seed ^ 0x53A3_C5A9_1D87_2F6Bu64 ^ b,
    ;
    assert(GOLDEN as int * 0xf1de_83e1_9937_733d == 10771413168148108919 * words() + 1);
    lemma_factor(i as u64, j as u64, GOLDEN, 0xf1de_83e1_9937_733d, 10771413168148108919);
}

/// No two trees draw the noise of a row from the same stream, and no two searches with different seeds
/// do.
pub proof fn law_roots_have_their_own_noise(s: u64, t: u64, i: usize, j: usize, slot: usize)
    ensures
        noise_stream(s, i, slot) == noise_stream(s, j, slot) ==> i == j,
        noise_stream(s, i, slot) == noise_stream(t, i, slot) ==> s == t,
{
    let a = vstd::wrapping::u64_specs::wrapping_mul(i as u64, GOLDEN);
    let b = vstd::wrapping::u64_specs::wrapping_mul(j as u64, GOLDEN);
    let c = vstd::wrapping::u64_specs::wrapping_mul(slot as u64, 0xD1B5_4A32_D192_ED03);
    if noise_stream(s, i, slot) == noise_stream(s, j, slot) {
        assert(a == b) by (bit_vector)
            requires
                s ^ a ^ c == s ^ b ^ c,
        ;
        assert(GOLDEN as int * 0xf1de_83e1_9937_733d == 10771413168148108919 * words() + 1);
        lemma_factor(i as u64, j as u64, GOLDEN, 0xf1de_83e1_9937_733d, 10771413168148108919);
    }
    if noise_stream(s, i, slot) == noise_stream(t, i, slot) {
        assert(s == t) by (bit_vector)
            requires
                s ^ a ^ c == t ^ a ^ c,
        ;
    }
}

/// The numbers of a generator do not repeat before its states do: different states give different
/// numbers.
pub proof fn law_mixing_loses_nothing(x: u64, y: u64)
    requires
        mixed(x) == mixed(y),
    ensures
        x == y,
{
    let p = 0xBF58_476D_1CE4_E5B9u64;
    let q = 0x94D0_49BB_1331_11EBu64;
    let xa = vstd::wrapping::u64_specs::wrapping_mul(x ^ (x >> 30), p);
    let ya = vstd::wrapping::u64_specs::wrapping_mul(y ^ (y >> 30), p);
    let xb = vstd::wrapping::u64_specs::wrapping_mul(xa ^ (xa >> 27), q);
    let yb = vstd::wrapping::u64_specs::wrapping_mul(ya ^ (ya >> 27), q);
    assert(xb == yb) by (bit_vector)
        requires
            xb ^ (xb >> 31) == yb ^ (yb >> 31),
    ;
    assert(q as int * 0x3196_42b2_d24d_8ec3 == 2077064247507883091 * words() + 1);
    lemma_factor(xa ^ (xa >> 27), ya ^ (ya >> 27), q, 0x3196_42b2_d24d_8ec3, 2077064247507883091);
    assert(xa == ya) by (bit_vector)
        requires
            xa ^ (xa >> 27) == ya ^ (ya >> 27),
    ;
    assert(p as int * 0x96de_1b17_3f11_9089 == 8125545580553827436 * words() + 1);
    lemma_factor(x ^ (x >> 30), y ^ (y >> 30), p, 0x96de_1b17_3f11_9089, 8125545580553827436);
    assert(x == y) by (bit_vector)
        requires
            x ^ (x >> 30) == y ^ (y >> 30),
    ;
}

} // verus!
