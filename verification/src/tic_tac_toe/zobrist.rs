//! Pseudo-random keys for incremental position hashing.
use vstd::prelude::*;
use vstd::arithmetic::div_mod::{
    lemma_add_mod_noop, lemma_fundamental_div_mod, lemma_mod_multiples_vanish, lemma_mul_mod_noop_left,
    lemma_small_mod,
};
use vstd::arithmetic::mul::lemma_mul_is_associative;

verus! {

/// The increment that the splitmix64 generator adds to its seed on every step.
pub const GOLDEN_GAMMA: u64 = 0x9E37_79B9_7F4A_7C15u64;

/// The seed after one step of the generator.
pub open spec fn splitmix_step(seed: u64) -> u64 {
    seed.wrapping_add(GOLDEN_GAMMA)
}

/// The output that splitmix64 derives from an already advanced seed.
pub open spec fn splitmix_mix(state: u64) -> u64 {
    let z1 = (state ^ (state >> 30u64)).wrapping_mul(0xBF58_476D_1CE4_E5B9u64);
    let z2 = (z1 ^ (z1 >> 27u64)).wrapping_mul(0x94D0_49BB_1331_11EBu64);
    z2 ^ (z2 >> 31u64)
}

/// The seed after `k` steps of the generator.
pub open spec fn splitmix_seed_after(seed: u64, k: nat) -> u64
    decreases k,
{
    if k == 0 {
        seed
    } else {
        splitmix_step(splitmix_seed_after(seed, (k - 1) as nat))
    }
}

/// The `k`-th output (counting from zero) of a generator started at `seed`.
pub open spec fn splitmix_output(seed: u64, k: nat) -> u64 {
    splitmix_mix(splitmix_seed_after(seed, k + 1))
}

/// One step of the splitmix64 generator: advances the seed and returns the mixed value.
pub fn splitmix64(seed: &mut u64) -> (r: u64)
    ensures
        *final(seed) == splitmix_step(*old(seed)),
        r == splitmix_mix(*final(seed)),
{
    *seed = seed.wrapping_add(GOLDEN_GAMMA);
    let mut z = *seed;
    z = (z ^ (z >> 30u64)).wrapping_mul(0xBF58_476D_1CE4_E5B9u64);
    z = (z ^ (z >> 27u64)).wrapping_mul(0x94D0_49BB_1331_11EBu64);
    z ^ (z >> 31u64)
}

/// The seed from which the key table of an `n` by `n` board is drawn.
pub open spec fn zobrist_seed(n: usize) -> u64 {
    0xA5A5_1F1F_5A5A_2E2Eu64 ^ (n as u64).wrapping_mul(GOLDEN_GAMMA)
}

/// The key of cell `idx` in state `c` for an `n` by `n` board: the generator's
/// outputs are dealt four per cell, in cell order.
pub open spec fn zobrist_key(n: usize, idx: int, c: int) -> u64 {
    splitmix_output(zobrist_seed(n), (4 * idx + c) as nat)
}

/// Two to the sixty-fourth: the modulus of 64-bit wrapping arithmetic.
pub open spec fn word() -> int {
    0x1_0000_0000_0000_0000int
}

/// Multiplying by `c` modulo 2^64 is undone by multiplying by `inv` when `c * inv` is 1
/// modulo 2^64.
pub proof fn lemma_mul_undone(x: int, c: int, inv: int)
    requires
        0 <= x < word(),
        (c * inv) % word() == 1,
    ensures
        ((x * c) % word()) * inv % word() == x,
{
    let w = word();
    lemma_mul_mod_noop_left(x * c, inv, w);
    lemma_mul_is_associative(x, c, inv);
    let q = (c * inv) / w;
    lemma_fundamental_div_mod(c * inv, w);
    assert(x * (c * inv) == w * (x * q) + x) by (nonlinear_arith)
        requires
            c * inv == w * q + 1,
    ;
    lemma_mod_multiples_vanish(x * q, x, w);
    lemma_small_mod(x as nat, w as nat);
}

/// Wrapping multiplication by a constant with an inverse modulo 2^64 loses nothing.
pub proof fn lemma_wrapping_mul_injective(x: u64, y: u64, c: u64, inv: u64)
    requires
        (c * inv) % word() == 1,
        x.wrapping_mul(c) == y.wrapping_mul(c),
    ensures
        x == y,
{
    lemma_mul_undone(x as int, c as int, inv as int);
    lemma_mul_undone(y as int, c as int, inv as int);
    assert((x as int * c as int) % word() == (y as int * c as int) % word());
}

/// The output mixer of splitmix64 sends different states to different outputs.
pub proof fn lemma_splitmix_mix_injective(a: u64, b: u64)
    requires
        splitmix_mix(a) == splitmix_mix(b),
    ensures
        a == b,
{
    let z1a = (a ^ (a >> 30u64)).wrapping_mul(0xBF58_476D_1CE4_E5B9u64);
    let z1b = (b ^ (b >> 30u64)).wrapping_mul(0xBF58_476D_1CE4_E5B9u64);
    let z2a = (z1a ^ (z1a >> 27u64)).wrapping_mul(0x94D0_49BB_1331_11EBu64);
    let z2b = (z1b ^ (z1b >> 27u64)).wrapping_mul(0x94D0_49BB_1331_11EBu64);
    assert(z2a ^ (z2a >> 31u64) == z2b ^ (z2b >> 31u64) ==> z2a == z2b) by (bit_vector);
    assert((0x94D0_49BB_1331_11EBint * 0x3196_42B2_D24D_8EC3int) % word() == 1) by (nonlinear_arith);
    lemma_wrapping_mul_injective(z1a ^ (z1a >> 27u64), z1b ^ (z1b >> 27u64), 0x94D0_49BB_1331_11EBu64, 0x3196_42B2_D24D_8EC3u64);
    assert(z1a ^ (z1a >> 27u64) == z1b ^ (z1b >> 27u64) ==> z1a == z1b) by (bit_vector);
    assert((0xBF58_476D_1CE4_E5B9int * 0x96DE_1B17_3F11_9089int) % word() == 1) by (nonlinear_arith);
    lemma_wrapping_mul_injective(a ^ (a >> 30u64), b ^ (b >> 30u64), 0xBF58_476D_1CE4_E5B9u64, 0x96DE_1B17_3F11_9089u64);
    assert(a ^ (a >> 30u64) == b ^ (b >> 30u64) ==> a == b) by (bit_vector);
}

/// The seed after `k` steps is the start plus `k` increments, modulo 2^64.
pub proof fn lemma_seed_after(seed: u64, k: nat)
    ensures
        splitmix_seed_after(seed, k) as int == (seed + k * GOLDEN_GAMMA) % word(),
    decreases k,
{
    if k == 0 {
        lemma_small_mod(seed as nat, word() as nat);
    } else {
        lemma_seed_after(seed, (k - 1) as nat);
        let prev = splitmix_seed_after(seed, (k - 1) as nat);
        let g = GOLDEN_GAMMA as int;
        lemma_add_mod_noop(seed + (k - 1) * g, g, word());
        lemma_small_mod(g as nat, word() as nat);
        assert(seed + (k - 1) * g + g == seed + k * g) by (nonlinear_arith);
        if prev + g >= word() {
            lemma_mod_multiples_vanish(1, prev + g - word(), word());
            lemma_small_mod((prev + g - word()) as nat, word() as nat);
        } else {
            lemma_small_mod((prev + g) as nat, word() as nat);
        }
    }
}

/// Fewer than 2^64 steps apart, the generator never repeats a seed.
pub proof fn lemma_seeds_distinct(seed: u64, k1: nat, k2: nat)
    requires
        k1 < k2 < word(),
    ensures
        splitmix_seed_after(seed, k1) != splitmix_seed_after(seed, k2),
{
    lemma_seed_after(seed, k1);
    lemma_seed_after(seed, k2);
    let g = GOLDEN_GAMMA as int;
    let w = word();
    let a = seed + k1 * g;
    let b = seed + k2 * g;
    if a % w == b % w {
        lemma_fundamental_div_mod(a, w);
        lemma_fundamental_div_mod(b, w);
        let d = k2 - k1;
        assert(d * g == w * (b / w - a / w)) by (nonlinear_arith)
            requires
                a == w * (a / w) + a % w,
                b == w * (b / w) + b % w,
                a % w == b % w,
                d * g == b - a,
                a == seed + k1 * g,
                b == seed + k2 * g,
                d == k2 - k1,
        ;
        lemma_mod_multiples_vanish(b / w - a / w, 0, w);
        assert((0x9E37_79B9_7F4A_7C15int * 0xF1DE_83E1_9937_733Dint) % word() == 1) by (nonlinear_arith);
        lemma_mul_undone(d, g, 0xF1DE_83E1_9937_733Dint);
        assert(false);
    }
}

/// No two keys of the table of an `n` by `n` board are equal (while the table takes
/// fewer than 2^64 outputs of the generator).
pub proof fn lemma_zobrist_keys_distinct(n: usize, i1: int, c1: int, i2: int, c2: int)
    requires
        4 * n * n < word(),
        0 <= i1 < n * n,
        0 <= i2 < n * n,
        0 <= c1 < 4,
        0 <= c2 < 4,
        i1 != i2 || c1 != c2,
    ensures
        zobrist_key(n, i1, c1) != zobrist_key(n, i2, c2),
{
    let k1 = (4 * i1 + c1 + 1) as nat;
    let k2 = (4 * i2 + c2 + 1) as nat;
    assert(k1 != k2);
    assert(k1 <= 4 * n * n && k2 <= 4 * n * n) by (nonlinear_arith)
        requires
            0 <= i1 < n * n,
            0 <= i2 < n * n,
            0 <= c1 < 4,
            0 <= c2 < 4,
            k1 == 4 * i1 + c1 + 1,
            k2 == 4 * i2 + c2 + 1,
    ;
    if k1 < k2 {
        lemma_seeds_distinct(zobrist_seed(n), k1, k2);
    } else {
        lemma_seeds_distinct(zobrist_seed(n), k2, k1);
    }
    if zobrist_key(n, i1, c1) == zobrist_key(n, i2, c2) {
        lemma_splitmix_mix_injective(splitmix_seed_after(zobrist_seed(n), k1), splitmix_seed_after(zobrist_seed(n), k2));
    }
}

/// Builds the table of keys: one row of four keys (empty, X, O, wall) per cell, no two
/// of them equal.
pub fn build_zobrist(n: usize) -> (table: Vec<[u64; 4]>)
    requires
        n * n <= usize::MAX,
    ensures
        table@.len() == n * n,
        forall|i: int, c: int|
            0 <= i < n * n && 0 <= c < 4 ==> #[trigger] table@[i]@[c] == zobrist_key(n, i, c),
        4 * n * n < word() ==> forall|i1: int, c1: int, i2: int, c2: int|
            0 <= i1 < n * n && 0 <= i2 < n * n && 0 <= c1 < 4 && 0 <= c2 < 4 && (i1 != i2 || c1 != c2)
                ==> #[trigger] table@[i1]@[c1] != #[trigger] table@[i2]@[c2],
{
    let mut seed = 0xA5A5_1F1F_5A5A_2E2Eu64 ^ (n as u64).wrapping_mul(GOLDEN_GAMMA);
    let total = n * n;
    let mut table: Vec<[u64; 4]> = Vec::with_capacity(total);
    let mut i: usize = 0;
    while i < total
        invariant
            i <= total,
            total == n * n,
            table@.len() == i,
            seed == splitmix_seed_after(zobrist_seed(n), (4 * i) as nat),
            forall|j: int, c: int|
                0 <= j < i && 0 <= c < 4 ==> #[trigger] table@[j]@[c] == zobrist_key(n, j, c),
        decreases total - i,
    {
        let k0 = splitmix64(&mut seed);
        let k1 = splitmix64(&mut seed);
        let k2 = splitmix64(&mut seed);
        let k3 = splitmix64(&mut seed);
        proof {
            assert(splitmix_seed_after(zobrist_seed(n), (4 * i + 1) as nat) == splitmix_step(
                splitmix_seed_after(zobrist_seed(n), (4 * i) as nat),
            ));
            assert(splitmix_seed_after(zobrist_seed(n), (4 * i + 2) as nat) == splitmix_step(
                splitmix_seed_after(zobrist_seed(n), (4 * i + 1) as nat),
            ));
            assert(splitmix_seed_after(zobrist_seed(n), (4 * i + 3) as nat) == splitmix_step(
                splitmix_seed_after(zobrist_seed(n), (4 * i + 2) as nat),
            ));
            assert(splitmix_seed_after(zobrist_seed(n), (4 * i + 4) as nat) == splitmix_step(
                splitmix_seed_after(zobrist_seed(n), (4 * i + 3) as nat),
            ));
        }
        let row = [k0, k1, k2, k3];
        table.push(row);
        proof {
            assert forall|j: int, c: int|
                0 <= j < i + 1 && 0 <= c < 4 implies #[trigger] table@[j]@[c] == zobrist_key(
                n,
                j,
                c,
            ) by {
                if j == i {
                    assert(table@[j] == row);
                }
            }
        }
        i = i + 1;
    }
    proof {
        if 4 * n * n < word() {
            assert forall|i1: int, c1: int, i2: int, c2: int|
                0 <= i1 < n * n && 0 <= i2 < n * n && 0 <= c1 < 4 && 0 <= c2 < 4 && (i1 != i2 || c1
                    != c2) implies #[trigger] table@[i1]@[c1] != #[trigger] table@[i2]@[c2] by {
                lemma_zobrist_keys_distinct(n, i1, c1, i2, c2);
            }
        }
    }
    table
}

/// The exclusive-or of the keys of the first `k` cells, each in its current state.
pub open spec fn zobrist_fold(keys: Seq<[u64; 4]>, cells: Seq<u8>, k: nat) -> u64
    decreases k,
{
    if k == 0 {
        0
    } else {
        zobrist_fold(keys, cells, (k - 1) as nat) ^ keys[k - 1]@[cells[k - 1] as int]
    }
}

/// The hash of a whole position: the exclusive-or of the keys of all cells.
pub open spec fn zobrist_hash(keys: Seq<[u64; 4]>, cells: Seq<u8>) -> u64 {
    zobrist_fold(keys, cells, cells.len())
}

/// Changing one cell changes the hash by the keys of that cell's old and new state.
pub proof fn lemma_zobrist_fold_update(keys: Seq<[u64; 4]>, cells: Seq<u8>, i: int, v: u8, k: nat)
    requires
        0 <= i < cells.len(),
        k <= cells.len(),
    ensures
        zobrist_fold(keys, cells.update(i, v), k) == if i < k {
            zobrist_fold(keys, cells, k) ^ keys[i]@[cells[i] as int] ^ keys[i]@[v as int]
        } else {
            zobrist_fold(keys, cells, k)
        },
    decreases k,
{
    if k > 0 {
        lemma_zobrist_fold_update(keys, cells, i, v, (k - 1) as nat);
        let p = zobrist_fold(keys, cells, (k - 1) as nat);
        let a = keys[i]@[cells[i] as int];
        let b = keys[i]@[v as int];
        let w = keys[k - 1]@[cells[k - 1] as int];
        if i == k - 1 {
            assert(p ^ b == (p ^ a) ^ a ^ b) by (bit_vector);
        } else if i < k - 1 {
            assert((p ^ a ^ b) ^ w == (p ^ w) ^ a ^ b) by (bit_vector);
        }
    }
}

/// The hash after changing cell `i` to `v` is the old hash with the cell's old key
/// taken out and its new key put in.
pub proof fn lemma_zobrist_hash_update(keys: Seq<[u64; 4]>, cells: Seq<u8>, i: int, v: u8)
    requires
        0 <= i < cells.len(),
    ensures
        zobrist_hash(keys, cells.update(i, v)) == zobrist_hash(keys, cells) ^ keys[i]@[cells[i] as int]
            ^ keys[i]@[v as int],
{
    lemma_zobrist_fold_update(keys, cells, i, v, cells.len());
}

} // verus!
