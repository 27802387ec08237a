//! A cardinality sketch over tile indices, in integer arithmetic alone.
//!
//! Registers take the maximum of the ranks proposed to them, so adding a tile twice is adding it
//! once and the order does not matter: one sketch fed by several segments is the sketch of the
//! union of their tiles. No step uses a float, so the answer is the same everywhere.

use vstd::arithmetic::power2::{lemma2_to64, lemma_pow2_adds, lemma_pow2_pos, lemma_pow2_strictly_increases, lemma_pow2_unfold, pow2};
use vstd::bits::{lemma_u128_shr_is_div, lemma_u64_shl_is_mul, lemma_u64_shr_is_div};
use vstd::prelude::*;
use vstd::std_specs::bits::u64_leading_zeros;

verus! {

/// `log2` of how many registers the engine's sketch has.
pub const SKETCH_PRECISION: u32 = 14;

/// What is added to a tile index before it is mixed.
pub const SKETCH_SEED: u64 = 0x9E37_79B9_7F4A_7C15;

/// The natural logarithm of two, in units of `2^-32`, rounded to nearest.
pub const LN2_Q32: u64 = 2_977_044_472;

/// A bijection on 64 bits with full avalanche.
pub open spec fn mixed(z: u64) -> u64 {
    let a = (z ^ (z >> 30)).wrapping_mul(0xBF58_476D_1CE4_E5B9);
    let b = (a ^ (a >> 27)).wrapping_mul(0x94D0_49BB_1331_11EB);
    b ^ (b >> 31)
}

fn mix64(z: u64) -> (out: u64)
    ensures
        out == mixed(z),
{
    let a: u64 = (z ^ (z >> 30)).wrapping_mul(0xBF58_476D_1CE4_E5B9);
    let b: u64 = (a ^ (a >> 27)).wrapping_mul(0x94D0_49BB_1331_11EB);
    b ^ (b >> 31)
}

/// What a tile index hashes to.
pub open spec fn tile_hash(tile: u64) -> u64 {
    mixed(tile.wrapping_add(SKETCH_SEED))
}

/// Which register a tile lands in: the top `precision` bits of its hash.
pub open spec fn register_index(tile: u64, precision: u32) -> int {
    (tile_hash(tile) >> ((64 - precision) as u64)) as int
}

/// The rank a tile proposes: one more than the run of zeros below those bits, capped at what a
/// register can hold.
pub open spec fn register_rank(tile: u64, precision: u32) -> int {
    u64_leading_zeros((tile_hash(tile) << (precision as u64)) | (1u64 << ((precision - 1) as u64)))
        + 1
}

/// The precisions a sketch can have.
pub open spec fn precise(precision: u32) -> bool {
    7 <= precision <= 18
}

/// Every tile has a register, and a rank that the register can hold.
pub proof fn lemma_register(tile: u64, precision: u32)
    requires
        precise(precision),
    ensures
        0 <= register_index(tile, precision) < pow2(precision as nat),
        1 <= register_rank(tile, precision) <= 65 - precision,
{
    let h = tile_hash(tile);
    let down = (64 - precision) as u64;
    let up = precision as u64;
    lemma_u64_shr_is_div(h, down);
    lemma2_to64();
    lemma_pow2_adds(precision as nat, down as nat);
    lemma_pow2_pos(down as nat);
    assert(pow2(precision as nat) * pow2(down as nat) == 0x1_0000_0000_0000_0000);
    assert((h as nat) / pow2(down as nat) < pow2(precision as nat)) by (nonlinear_arith)
        requires
            pow2(precision as nat) * pow2(down as nat) == 0x1_0000_0000_0000_0000,
            (h as nat) < 0x1_0000_0000_0000_0000,
            pow2(down as nat) > 0,
    ;
    let capped = (h << up) | (1u64 << ((precision - 1) as u64));
    let bit = (precision - 1) as u64;
    assert(capped != 0 && (capped >> bit) & 1 == 1) by (bit_vector)
        requires
            capped == (h << up) | (1u64 << bit),
            bit < 64,
            up == bit + 1,
    ;
    vstd::std_specs::bits::axiom_u64_leading_zeros(capped);
    let lz = u64_leading_zeros(capped);
    if lz > 64 - precision {
        assert((capped >> bit) & 1u64 == 0u64);
    }
}

/// Which register a tile index lands in, and the rank it proposes for it.
pub fn register_of(tile: u64, precision: u32) -> (out: (usize, u8))
    requires
        precise(precision),
    ensures
        out.0 == register_index(tile, precision),
        out.1 == register_rank(tile, precision),
        out.0 < pow2(precision as nat),
        1 <= out.1 <= 65 - precision,
{
    proof {
        lemma_register(tile, precision);
        lemma2_to64();
        if precision < 18 {
            lemma_pow2_strictly_increases(precision as nat, 18);
        }
    }
    let h: u64 = mix64(tile.wrapping_add(SKETCH_SEED));
    let down: u64 = (64 - precision) as u64;
    let up: u64 = precision as u64;
    let bit: u64 = (precision - 1) as u64;
    let index: usize = (h >> down) as usize;
    let rank: u8 = ((h << up) | (1u64 << bit)).leading_zeros() as u8 + 1;
    (index, rank)
}

/// Registers after one more tile.
pub open spec fn recorded(registers: Seq<u8>, tile: u64, precision: u32) -> Seq<u8> {
    let i = register_index(tile, precision);
    let rank = register_rank(tile, precision);
    if rank > registers[i] {
        registers.update(i, rank as u8)
    } else {
        registers
    }
}

/// A register array of the right length, with ranks that registers can hold.
pub open spec fn registers_wf(registers: Seq<u8>, precision: u32) -> bool {
    &&& registers.len() == pow2(precision as nat)
    &&& forall|j: int| 0 <= j < registers.len() ==> (#[trigger] registers[j]) <= 65 - precision
}

/// Whether `registers` are the sketch of `tiles`: each holds the greatest rank proposed to it, and
/// zero where nothing was.
pub open spec fn sketches(registers: Seq<u8>, tiles: Set<u64>, precision: u32) -> bool {
    &&& registers.len() == pow2(precision as nat)
    &&& forall|t: u64| #[trigger]
        tiles.contains(t) ==> register_rank(t, precision) <= registers[register_index(t, precision)]
    &&& forall|j: int|
        0 <= j < registers.len() && (#[trigger] registers[j]) != 0 ==> proposed(
            tiles,
            j,
            registers[j],
            precision,
        )
}

/// Whether some tile proposes `rank` to register `j`.
pub open spec fn proposed(tiles: Set<u64>, j: int, rank: u8, precision: u32) -> bool {
    exists|t: u64| #[trigger]
        tiles.contains(t) && register_index(t, precision) == j && register_rank(t, precision)
            == rank
}

/// A sketch is a function of the set of tiles recorded: not of their order, and not of how often
/// each was recorded.
pub proof fn law_a_sketch_is_a_function_of_the_tiles(
    a: Seq<u8>,
    b: Seq<u8>,
    tiles: Set<u64>,
    precision: u32,
)
    requires
        sketches(a, tiles, precision),
        sketches(b, tiles, precision),
    ensures
        a == b,
{
    assert forall|j: int| 0 <= j < a.len() implies a[j] == b[j] by {
        if a[j] != 0 {
            assert(proposed(tiles, j, a[j], precision));
            let t = choose|t: u64| #[trigger]
                tiles.contains(t) && register_index(t, precision) == j && register_rank(
                    t,
                    precision,
                ) == a[j];
            assert(tiles.contains(t));
        }
        if b[j] != 0 {
            assert(proposed(tiles, j, b[j], precision));
            let t = choose|t: u64| #[trigger]
                tiles.contains(t) && register_index(t, precision) == j && register_rank(
                    t,
                    precision,
                ) == b[j];
            assert(tiles.contains(t));
        }
    }
    assert(a =~= b);
}

/// Recording a tile turns the sketch of some tiles into the sketch of those and this one: a tile
/// recorded already changes nothing.
pub proof fn law_recording_adds_the_tile(
    registers: Seq<u8>,
    tiles: Set<u64>,
    tile: u64,
    precision: u32,
)
    requires
        precise(precision),
        sketches(registers, tiles, precision),
    ensures
        sketches(recorded(registers, tile, precision), tiles.insert(tile), precision),
        tiles.contains(tile) ==> recorded(registers, tile, precision) == registers,
{
    lemma_register(tile, precision);
    let after = recorded(registers, tile, precision);
    let more = tiles.insert(tile);
    assert forall|t: u64| #[trigger] more.contains(t) implies register_rank(t, precision)
        <= after[register_index(t, precision)] by {
        lemma_register(t, precision);
        if t != tile {
            assert(tiles.contains(t));
        }
    }
    assert forall|j: int| 0 <= j < after.len() && (#[trigger] after[j]) != 0 implies proposed(
        more,
        j,
        after[j],
        precision,
    ) by {
        if after[j] == registers[j] {
            assert(proposed(tiles, j, registers[j], precision));
            let t = choose|t: u64| #[trigger]
                tiles.contains(t) && register_index(t, precision) == j && register_rank(
                    t,
                    precision,
                ) == registers[j];
            assert(more.contains(t));
        } else {
            assert(more.contains(tile));
        }
    }
}

/// Recording keeps the shape of the registers.
pub proof fn lemma_recorded_wf(registers: Seq<u8>, tile: u64, precision: u32)
    requires
        precise(precision),
        registers_wf(registers, precision),
    ensures
        registers_wf(recorded(registers, tile, precision), precision),
{
    lemma_register(tile, precision);
}

/// A sketch of tile indices.
#[derive(Debug)]
pub struct TileSketch {
    pub precision: u32,
    pub registers: Vec<u8>,
}

/// So many zero registers.
pub fn zeroed(count: usize) -> (registers: Vec<u8>)
    ensures
        registers@.len() == count,
        forall|j: int| 0 <= j < count ==> (#[trigger] registers@[j]) == 0,
{
    let mut registers: Vec<u8> = Vec::with_capacity(count);
    let mut i: usize = 0;
    while i < count
        invariant
            i <= count,
            registers@.len() == i,
            forall|j: int| 0 <= j < i ==> (#[trigger] registers@[j]) == 0,
        decreases count - i,
    {
        registers.push(0);
        i += 1;
    }
    registers
}

/// How many registers a precision has.
pub fn register_count(precision: u32) -> (count: usize)
    requires
        precise(precision),
    ensures
        count == pow2(precision as nat),
        128 <= count <= 262144,
{
    let shift: u64 = precision as u64;
    proof {
        lemma2_to64();
        lemma_u64_shl_is_mul(1, shift);
        if precision < 18 {
            lemma_pow2_strictly_increases(precision as nat, 18);
        }
        if precision > 7 {
            lemma_pow2_strictly_increases(7, precision as nat);
        }
    }
    (1u64 << shift) as usize
}

impl Default for TileSketch {
    fn default() -> (sketch: Self)
        ensures
            sketch.wf(),
            sketch.precision == SKETCH_PRECISION,
            sketches(sketch.registers@, Set::empty(), SKETCH_PRECISION),
    {
        TileSketch::new()
    }
}

impl TileSketch {
    pub open spec fn wf(&self) -> bool {
        precise(self.precision) && registers_wf(self.registers@, self.precision)
    }

    /// An empty sketch at [`SKETCH_PRECISION`].
    pub fn new() -> (sketch: Self)
        ensures
            sketch.wf(),
            sketch.precision == SKETCH_PRECISION,
            sketches(sketch.registers@, Set::empty(), SKETCH_PRECISION),
            forall|j: int|
                0 <= j < sketch.registers@.len() ==> (#[trigger] sketch.registers@[j]) == 0,
    {
        TileSketch::with_precision(SKETCH_PRECISION)
    }

    /// An empty sketch at a precision between 7 and 18.
    pub fn with_precision(precision: u32) -> (sketch: Self)
        requires
            precise(precision),
        ensures
            sketch.wf(),
            sketch.precision == precision,
            sketches(sketch.registers@, Set::empty(), precision),
            forall|j: int|
                0 <= j < sketch.registers@.len() ==> (#[trigger] sketch.registers@[j]) == 0,
    {
        TileSketch { precision, registers: zeroed(register_count(precision)) }
    }

    /// Record one tile index.
    pub fn add(&mut self, tile: u64)
        requires
            old(self).wf(),
        ensures
            final(self).wf(),
            final(self).precision == old(self).precision,
            final(self).registers@ == recorded(old(self).registers@, tile, old(self).precision),
            forall|tiles: Set<u64>| #[trigger]
                sketches(old(self).registers@, tiles, old(self).precision) ==> sketches(
                    final(self).registers@,
                    tiles.insert(tile),
                    old(self).precision,
                ),
    {
        let ghost before = self.registers@;
        proof {
            lemma_recorded_wf(before, tile, self.precision);
            assert forall|tiles: Set<u64>| #[trigger]
                sketches(before, tiles, self.precision) implies sketches(
                recorded(before, tile, self.precision),
                tiles.insert(tile),
                self.precision,
            ) by {
                law_recording_adds_the_tile(before, tiles, tile, self.precision);
            }
        }
        let (index, rank) = register_of(tile, self.precision);
        if rank > self.registers[index] {
            self.registers.set(index, rank);
        }
        assert(self.registers@ =~= recorded(before, tile, self.precision));
    }

    /// The estimated number of distinct tiles recorded.
    pub fn estimate(&self) -> (count: u64)
        requires
            self.wf(),
        ensures
            count == estimate_of(self.registers@, self.precision),
    {
        estimate_registers(self.registers.as_slice(), self.precision)
    }

    /// The register array's size in bytes.
    pub fn bytes(&self) -> (count: usize)
        ensures
            count == self.registers@.len(),
    {
        self.registers.len()
    }
}

/// `x` shifted left where nothing falls off.
fn raised(x: u128, by: u32) -> (out: u128)
    requires
        by < 64,
        x * pow2(by as nat) <= u128::MAX,
    ensures
        out == x * pow2(by as nat),
{
    let shift: u64 = by as u64;
    proof {
        lemma2_to64();
        if by < 63 {
            lemma_pow2_strictly_increases(by as nat, 63);
        }
        vstd::arithmetic::power2::lemma2_to64_rest();
        lemma_u64_shl_is_mul(1, shift);
    }
    x * ((1u64 << shift) as u128)
}

/// `x` shifted right.
fn lowered(x: u128, by: u32) -> (out: u128)
    requires
        by < 128,
    ensures
        out == x as nat / pow2(by as nat),
{
    let shift: u128 = by as u128;
    proof {
        lemma_u128_shr_is_div(x, shift);
    }
    x >> shift
}

/// The estimator's bias constant in units of `2^-32`, rounded to nearest: `0.7213 / (1 + 1.079/m)`
/// for `m` registers.
pub open spec fn alpha_of(precision: u32) -> nat {
    let m = pow2(precision as nat);
    let num = 7213 * m * 0x1_0000_0000;
    let den = 10 * (1000 * m + 1079);
    (2 * num + den) / (2 * den)
}

/// The estimator's bias constant.
pub fn alpha_q32(precision: u32) -> (alpha: u128)
    requires
        precise(precision),
    ensures
        alpha == alpha_of(precision),
        alpha <= 0x1_0000_0000,
{
    let m: u128 = register_count(precision) as u128;
    let num: u128 = 7213 * m * 0x1_0000_0000;
    let den: u128 = 10 * (1000 * m + 1079);
    proof {
        let top = (2 * num + den) as int;
        let bottom = (2 * den) as int;
        assert(top <= bottom * 0x1_0000_0000);
        assert(top / bottom <= 0x1_0000_0000) by (nonlinear_arith)
            requires
                top <= bottom * 0x1_0000_0000,
                bottom > 0,
        ;
    }
    (2 * num + den) / (2 * den)
}

/// The terms of the series from `i` on, each in units of `2^-32`, truncated.
pub open spec fn ln_terms(term: nat, z2: nat, i: nat) -> nat
    decreases 43 - i,
{
    if i > 41 {
        0
    } else {
        let next = term * z2 / 0x1_0000_0000;
        next / i + ln_terms(next, z2, i + 2)
    }
}

/// The greatest power of two that is at most `v`, by its exponent.
pub open spec fn floor_log2(v: nat) -> nat
    decreases v,
{
    if v <= 1 {
        0
    } else {
        1 + floor_log2(v / 2)
    }
}

/// The part of the logarithm that the mantissa gives: `2 · atanh((f - 1) / (f + 1))` for a mantissa
/// `f` in units of `2^-32`, by its series.
pub open spec fn ln_mantissa(f: nat) -> nat {
    let one = 0x1_0000_0000nat;
    let z = ((f - one) as nat * one) / (f + one);
    let z2 = z * z / one;
    2 * (z + ln_terms(z, z2, 3))
}

/// The natural logarithm of `v` in units of `2^-32`.
pub open spec fn ln_of(v: nat) -> nat {
    let k = floor_log2(v);
    k * LN2_Q32 as nat + ln_mantissa(v * 0x1_0000_0000 / pow2(k))
}

proof fn lemma_floor_log2(v: nat)
    requires
        v >= 1,
    ensures
        pow2(floor_log2(v)) <= v < pow2(floor_log2(v) + 1),
    decreases v,
{
    lemma2_to64();
    if v > 1 {
        lemma_floor_log2(v / 2);
        lemma_pow2_unfold(floor_log2(v / 2) + 1);
        lemma_pow2_unfold(floor_log2(v / 2) + 2);
    }
}

proof fn lemma_exponent_is_unique(a: nat, b: nat, v: nat)
    requires
        pow2(a) <= v < pow2(a + 1),
        pow2(b) <= v < pow2(b + 1),
    ensures
        a == b,
{
    if a + 1 <= b {
        if a + 1 < b {
            lemma_pow2_strictly_increases(a + 1, b);
        }
    } else if b + 1 <= a {
        if b + 1 < a {
            lemma_pow2_strictly_increases(b + 1, a);
        }
    }
}

/// The natural logarithm of `v`, which is at least one, in units of `2^-32`.
pub fn ln_q32(v: u64) -> (ln: u64)
    requires
        v >= 1,
    ensures
        ln == ln_of(v as nat),
        ln <= (floor_log2(v as nat) + 1) * LN2_Q32 as nat,
        v == pow2(floor_log2(v as nat)) ==> ln == floor_log2(v as nat) * LN2_Q32 as nat,
{
    let lz: u32 = v.leading_zeros();
    proof {
        vstd::std_specs::bits::axiom_u64_leading_zeros(v);
    }
    let k: u32 = 63 - lz;
    proof {
        let s = k as u64;
        lemma_u64_shr_is_div(v, s);
        lemma_pow2_pos(s as nat);
        assert(v >> s != 0) by (bit_vector)
            requires
                (v >> s) & 1u64 != 0u64,
                s < 64,
        ;
        vstd::arithmetic::div_mod::lemma_fundamental_div_mod(v as int, pow2(s as nat) as int);
        assert(pow2(s as nat) <= v) by (nonlinear_arith)
            requires
                v as nat / pow2(s as nat) >= 1,
                pow2(s as nat) > 0,
        ;
        if k < 63 {
            let t = (k + 1) as u64;
            lemma_u64_shr_is_div(v, t);
            assert(v >> t == 0);
            lemma_pow2_pos(t as nat);
            assert(v < pow2(t as nat)) by (nonlinear_arith)
                requires
                    v as nat / pow2(t as nat) == 0,
                    pow2(t as nat) > 0,
            ;
        } else {
            lemma2_to64();
        }
        lemma_floor_log2(v as nat);
        lemma_exponent_is_unique(k as nat, floor_log2(v as nat), v as nat);
        lemma2_to64();
        lemma_pow2_unfold((k + 1) as nat);
    }
    let one: u128 = 0x1_0000_0000;
    let wide: u128 = v as u128 * one;
    let f: u128 = lowered(wide, k);
    proof {
        let p = pow2(k as nat);
        lemma_pow2_pos(k as nat);
        assert(f == v as nat * 0x1_0000_0000 / p);
        assert(0x1_0000_0000 <= f < 0x2_0000_0000) by (nonlinear_arith)
            requires
                p > 0,
                p <= v < 2 * p,
                f == v as nat * 0x1_0000_0000 / p,
        ;
        if v == p {
            assert(f == 0x1_0000_0000) by (nonlinear_arith)
                requires
                    p > 0,
                    v == p,
                    f == v as nat * 0x1_0000_0000 / p,
            ;
        }
    }
    let z: u128 = ((f - one) * one) / (f + one);
    proof {
        assert(3 * z <= 0x1_0000_0000) by (nonlinear_arith)
            requires
                0x1_0000_0000 <= f < 0x2_0000_0000,
                one == 0x1_0000_0000,
                z == ((f - one) * one) / (f + one),
        ;
        if f == one {
            assert(z == 0) by (nonlinear_arith)
                requires
                    z == ((f - one) * one) / (f + one),
                    f == one,
                    one == 0x1_0000_0000,
            ;
        }
        assert(z * z <= 1431655765 * 1431655765) by (nonlinear_arith)
            requires
                0 <= z <= 1431655765,
        ;
    }
    let z2: u128 = (z * z) / one;
    let mut term: u128 = z;
    let mut acc: u128 = z;
    let mut i: u128 = 3;
    while i <= 41
        invariant
            3 <= i <= 43,
            i % 2 == 1,
            one == 0x1_0000_0000,
            z2 <= 477218588,
            z2 == z * z / 0x1_0000_0000,
            acc + ln_terms(term as nat, z2 as nat, i as nat) == z + ln_terms(
                z as nat,
                z2 as nat,
                3,
            ),
            z == 0 ==> acc == 0 && term == 0,
            i == 3 ==> term <= 1431655765 && acc <= 1431655765,
            i == 5 ==> term <= 159072862 && acc <= 1484680052,
            i == 7 ==> term <= 17674762 && acc <= 1488215004,
            i == 9 ==> term <= 1963862 && acc <= 1488495555,
            i == 11 ==> term <= 218206 && acc <= 1488519800,
            i == 13 ==> term <= 24245 && acc <= 1488522004,
            i == 15 ==> term <= 2693 && acc <= 1488522211,
            i == 17 ==> term <= 299 && acc <= 1488522230,
            i == 19 ==> term <= 33 && acc <= 1488522231,
            i >= 21 ==> term <= 3 && acc <= 1488522231,
        decreases 43 - i,
    {
        let ghost term_before = term;
        proof {
            lemma_next_term(term as int, z2 as int, i as int);
            assert(term * z2 <= 1431655765 * 477218588) by (nonlinear_arith)
                requires
                    0 <= term <= 1431655765,
                    0 <= z2 <= 477218588,
            ;
            if z == 0 {
                assert(term * z2 == 0) by (nonlinear_arith)
                    requires
                        term == 0,
                ;
            }
        }
        term = (term * z2) / one;
        acc = acc + term / i;
        i = i + 2;
    }
    proof {
        let kk = k as nat;
        assert(ln_mantissa(f as nat) == 2 * acc);
        assert(kk * LN2_Q32 as nat + LN2_Q32 as nat == (kk + 1) * LN2_Q32 as nat)
            by (nonlinear_arith);
    }
    k as u64 * LN2_Q32 + (2 * acc) as u64
}

/// What the next term of the series is at most.
proof fn lemma_next_term(term: int, z2: int, i: int)
    requires
        0 <= term,
        0 <= z2 <= 477218588,
        3 <= i,
        i % 2 == 1,
        i == 3 ==> term <= 1431655765,
        i == 5 ==> term <= 159072862,
        i == 7 ==> term <= 17674762,
        i == 9 ==> term <= 1963862,
        i == 11 ==> term <= 218206,
        i == 13 ==> term <= 24245,
        i == 15 ==> term <= 2693,
        i == 17 ==> term <= 299,
        i == 19 ==> term <= 33,
        i >= 21 ==> term <= 3,
    ensures
        ({
            let next = term * z2 / 0x1_0000_0000;
            &&& 0 <= next
            &&& i == 3 ==> next <= 159072862 && next / i <= 53024287
            &&& i == 5 ==> next <= 17674762 && next / i <= 3534952
            &&& i == 7 ==> next <= 1963862 && next / i <= 280551
            &&& i == 9 ==> next <= 218206 && next / i <= 24245
            &&& i == 11 ==> next <= 24245 && next / i <= 2204
            &&& i == 13 ==> next <= 2693 && next / i <= 207
            &&& i == 15 ==> next <= 299 && next / i <= 19
            &&& i == 17 ==> next <= 33 && next / i <= 1
            &&& i == 19 ==> next <= 3 && next / i == 0
            &&& i >= 21 ==> next <= 3 && next / i == 0
        }),
{
    let most = if i == 3 {
        1431655765int
    } else if i == 5 {
        159072862
    } else if i == 7 {
        17674762
    } else if i == 9 {
        1963862
    } else if i == 11 {
        218206
    } else if i == 13 {
        24245
    } else if i == 15 {
        2693
    } else if i == 17 {
        299
    } else if i == 19 {
        33
    } else {
        3
    };
    assert(0 <= term * z2 <= most * 477218588) by (nonlinear_arith)
        requires
            0 <= term <= most,
            0 <= z2 <= 477218588,
    ;
    let next = term * z2 / 0x1_0000_0000;
    if i >= 19 {
        assert(next / i == 0) by (nonlinear_arith)
            requires
                0 <= next <= 3,
                i >= 19,
        ;
    }
}

/// The sum of `2^-rank` over the registers, in units of `2^-rank_max`.
pub open spec fn inverse_sum(registers: Seq<u8>, rank_max: int) -> nat
    decreases registers.len(),
{
    if registers.len() == 0 {
        0
    } else {
        inverse_sum(registers.drop_last(), rank_max) + pow2((rank_max - registers.last()) as nat)
    }
}

/// How many registers hold `rank`.
pub open spec fn with_rank(registers: Seq<u8>, rank: int) -> nat
    decreases registers.len(),
{
    if registers.len() == 0 {
        0
    } else {
        with_rank(registers.drop_last(), rank) + if registers.last() == rank {
            1nat
        } else {
            0
        }
    }
}

/// The number of distinct tiles that a register array estimates: the harmonic mean of the ranks,
/// scaled, and below two and a half times as many tiles as registers the balls-into-bins estimate
/// that the empty registers give.
pub open spec fn estimate_of(registers: Seq<u8>, precision: u32) -> nat {
    let m = pow2(precision as nat);
    let scaled = alpha_of(precision) * pow2((precision + 33) as nat) / inverse_sum(
        registers,
        65 - precision,
    );
    let raw = if scaled > u64::MAX {
        u64::MAX as nat
    } else {
        scaled
    };
    let empty = with_rank(registers, 0);
    if empty > 0 && raw <= 5 * m / 2 {
        (m * (precision * LN2_Q32 - ln_of(empty)) / 0x1_0000_0000) as nat
    } else {
        raw
    }
}

/// The histogram's part of [`inverse_sum`]: what the ranks below `n` contribute.
spec fn histogram_sum(registers: Seq<u8>, rank_max: int, n: int) -> nat
    decreases n,
{
    if n <= 0 {
        0
    } else {
        histogram_sum(registers, rank_max, n - 1) + with_rank(registers, n - 1) * pow2(
            (rank_max - (n - 1)) as nat,
        )
    }
}

proof fn lemma_histogram_push(registers: Seq<u8>, x: u8, rank_max: int, n: int)
    requires
        0 <= n,
    ensures
        histogram_sum(registers.push(x), rank_max, n) == histogram_sum(registers, rank_max, n) + if x
            < n {
            pow2((rank_max - x) as nat)
        } else {
            0
        },
    decreases n,
{
    if n > 0 {
        lemma_histogram_push(registers, x, rank_max, n - 1);
        assert(registers.push(x).drop_last() =~= registers);
        let a = with_rank(registers, n - 1);
        let p = pow2((rank_max - (n - 1)) as nat);
        assert((a + 1) * p == a * p + p) by (nonlinear_arith);
    }
}

proof fn lemma_histogram_is_the_sum(registers: Seq<u8>, rank_max: int)
    requires
        0 <= rank_max,
        forall|j: int| 0 <= j < registers.len() ==> (#[trigger] registers[j]) <= rank_max,
    ensures
        histogram_sum(registers, rank_max, rank_max + 1) == inverse_sum(registers, rank_max),
    decreases registers.len(),
{
    if registers.len() == 0 {
        lemma_histogram_empty(registers, rank_max, rank_max + 1);
    } else {
        let front = registers.drop_last();
        assert forall|j: int| 0 <= j < front.len() implies (#[trigger] front[j]) <= rank_max by {
            assert(front[j] == registers[j]);
        }
        lemma_histogram_is_the_sum(front, rank_max);
        lemma_histogram_push(front, registers.last(), rank_max, rank_max + 1);
        assert(front.push(registers.last()) =~= registers);
    }
}

proof fn lemma_histogram_empty(registers: Seq<u8>, rank_max: int, n: int)
    requires
        registers.len() == 0,
    ensures
        histogram_sum(registers, rank_max, n) == 0,
    decreases n,
{
    if n > 0 {
        lemma_histogram_empty(registers, rank_max, n - 1);
        assert(0 * pow2((rank_max - (n - 1)) as nat) == 0) by (nonlinear_arith);
    }
}

proof fn lemma_inverse_sum_bounds(registers: Seq<u8>, rank_max: int)
    requires
        0 <= rank_max <= 58,
        forall|j: int| 0 <= j < registers.len() ==> (#[trigger] registers[j]) <= rank_max,
    ensures
        registers.len() <= inverse_sum(registers, rank_max) <= registers.len() * pow2(58),
    decreases registers.len(),
{
    if registers.len() > 0 {
        let front = registers.drop_last();
        assert forall|j: int| 0 <= j < front.len() implies (#[trigger] front[j]) <= rank_max by {
            assert(front[j] == registers[j]);
        }
        lemma_inverse_sum_bounds(front, rank_max);
        let e = (rank_max - registers.last()) as nat;
        assert(registers[registers.len() - 1] <= rank_max);
        lemma_pow2_pos(e);
        if e < 58 {
            lemma_pow2_strictly_increases(e, 58);
        }
        let n = registers.len() as int;
        let p = pow2(58) as int;
        assert((n - 1) * p + p == n * p) by (nonlinear_arith);
    } else {
        assert(0 * pow2(58) == 0) by (nonlinear_arith);
    }
}

proof fn lemma_with_rank_bound(registers: Seq<u8>, rank: int)
    ensures
        with_rank(registers, rank) <= registers.len(),
    decreases registers.len(),
{
    if registers.len() > 0 {
        lemma_with_rank_bound(registers.drop_last(), rank);
    }
}

proof fn lemma_histogram_monotone(registers: Seq<u8>, rank_max: int, n: int, more: int)
    requires
        n <= more,
    ensures
        histogram_sum(registers, rank_max, n) <= histogram_sum(registers, rank_max, more),
    decreases more - n,
{
    if n < more {
        lemma_histogram_monotone(registers, rank_max, n, more - 1);
    }
}

/// Registers of which none holds a rank.
proof fn lemma_no_ranks(registers: Seq<u8>, rank_max: nat)
    requires
        forall|j: int| 0 <= j < registers.len() ==> (#[trigger] registers[j]) == 0,
    ensures
        with_rank(registers, 0) == registers.len(),
        inverse_sum(registers, rank_max as int) == registers.len() * pow2(rank_max),
    decreases registers.len(),
{
    let n = registers.len() as int;
    let p = pow2(rank_max) as int;
    if n > 0 {
        assert forall|j: int| 0 <= j < n - 1 implies (#[trigger] registers.drop_last()[j]) == 0 by {
            assert(registers[j] == 0);
        }
        lemma_no_ranks(registers.drop_last(), rank_max);
        assert(registers[n - 1] == 0);
        assert((n - 1) * p + p == n * p) by (nonlinear_arith);
    } else {
        assert(0 * p == 0) by (nonlinear_arith);
    }
}

/// Registers of which one alone holds a rank.
proof fn lemma_one_rank(registers: Seq<u8>, at: int, rank_max: nat)
    requires
        0 <= at < registers.len(),
        registers[at] != 0,
        forall|j: int| 0 <= j < registers.len() && j != at ==> (#[trigger] registers[j]) == 0,
    ensures
        with_rank(registers, 0) == registers.len() - 1,
        inverse_sum(registers, rank_max as int) >= (registers.len() - 1) * pow2(rank_max),
    decreases registers.len(),
{
    let n = registers.len() as int;
    let p = pow2(rank_max) as int;
    let front = registers.drop_last();
    assert forall|j: int| 0 <= j < n - 1 && j != at implies (#[trigger] front[j]) == 0 by {
        assert(registers[j] == 0);
    }
    if at == n - 1 {
        lemma_no_ranks(front, rank_max);
    } else {
        assert(front[at] == registers[at]);
        lemma_one_rank(front, at, rank_max);
        assert(registers[n - 1] == 0);
        assert((n - 2) * p + p == (n - 1) * p) by (nonlinear_arith);
    }
}

/// A term that has come to nothing stays so.
proof fn lemma_ln_terms_of_nothing(z2: nat, i: nat)
    requires
        i > 0,
    ensures
        ln_terms(0, z2, i) == 0,
    decreases 43 - i,
{
    if i <= 41 {
        assert(0 * z2 / 0x1_0000_0000 == 0) by (nonlinear_arith);
        assert(0nat / i == 0) by (nonlinear_arith)
            requires
                i > 0,
        ;
        lemma_ln_terms_of_nothing(z2, i + 2);
    }
}

/// The logarithm of one register fewer than the engine's sketch has, from above.
proof fn lemma_ln_of_all_but_one()
    ensures
        ln_of(16383) <= 14 * LN2_Q32 - 262_144,
{
    lemma2_to64();
    assert(floor_log2(16383) == 13) by {
        reveal_with_fuel(floor_log2, 15);
    }
    assert(pow2(13) == 8192);
    assert(16383int * 0x1_0000_0000 / 8192 == 8_589_410_304) by (nonlinear_arith);
    assert((8_589_410_304int - 0x1_0000_0000) * 0x1_0000_0000 / (8_589_410_304int + 0x1_0000_0000)
        == 1_431_539_252) by (nonlinear_arith);
    assert(1_431_539_252int * 1_431_539_252 / 0x1_0000_0000 == 477_140_916) by (nonlinear_arith);
    let z2 = 477_140_916nat;
    assert(1_431_539_252 * 477_140_916int / 0x1_0000_0000 == 159_034_028) by (nonlinear_arith);
    assert(ln_terms(1_431_539_252, z2, 3) == 53_011_342 + ln_terms(159_034_028, z2, 5));
    assert(159_034_028 * 477_140_916int / 0x1_0000_0000 == 17_667_571) by (nonlinear_arith);
    assert(ln_terms(159_034_028, z2, 5) == 3_533_514 + ln_terms(17_667_571, z2, 7));
    assert(17_667_571 * 477_140_916int / 0x1_0000_0000 == 1_962_743) by (nonlinear_arith);
    assert(ln_terms(17_667_571, z2, 7) == 280_391 + ln_terms(1_962_743, z2, 9));
    assert(1_962_743 * 477_140_916int / 0x1_0000_0000 == 218_047) by (nonlinear_arith);
    assert(ln_terms(1_962_743, z2, 9) == 24_227 + ln_terms(218_047, z2, 11));
    assert(218_047 * 477_140_916int / 0x1_0000_0000 == 24_223) by (nonlinear_arith);
    assert(ln_terms(218_047, z2, 11) == 2_202 + ln_terms(24_223, z2, 13));
    assert(24_223 * 477_140_916int / 0x1_0000_0000 == 2_691) by (nonlinear_arith);
    assert(ln_terms(24_223, z2, 13) == 207 + ln_terms(2_691, z2, 15));
    assert(2_691 * 477_140_916int / 0x1_0000_0000 == 298) by (nonlinear_arith);
    assert(ln_terms(2_691, z2, 15) == 19 + ln_terms(298, z2, 17));
    assert(298 * 477_140_916int / 0x1_0000_0000 == 33) by (nonlinear_arith);
    assert(ln_terms(298, z2, 17) == 1 + ln_terms(33, z2, 19));
    assert(33 * 477_140_916int / 0x1_0000_0000 == 3) by (nonlinear_arith);
    assert(ln_terms(33, z2, 19) == 0 + ln_terms(3, z2, 21));
    assert(3 * 477_140_916int / 0x1_0000_0000 == 0) by (nonlinear_arith);
    assert(ln_terms(3, z2, 21) == 0 + ln_terms(0, z2, 23));
    lemma_ln_terms_of_nothing(z2, 23);
    assert(ln_mantissa(8_589_410_304) == 2_976_782_310);
}

/// The engine's sketch of no tile estimates none, and of one tile at least one.
pub proof fn lemma_estimate_of_a_tile(registers: Seq<u8>, tiles: Set<u64>, tile: u64)
    requires
        sketches(registers, tiles, SKETCH_PRECISION),
        tiles == Set::<u64>::empty() || tiles == set![tile],
    ensures
        tiles == Set::<u64>::empty() ==> estimate_of(registers, SKETCH_PRECISION) == 0,
        tiles == set![tile] ==> 1 <= estimate_of(registers, SKETCH_PRECISION) <= u64::MAX,
{
    let precision = SKETCH_PRECISION;
    lemma2_to64();
    vstd::arithmetic::power2::lemma2_to64_rest();
    lemma_register(tile, precision);
    let m = 16384int;
    assert(pow2(precision as nat) == m);
    let a = alpha_of(precision) as int;
    assert(0 <= a <= 0x1_0000_0000) by {
        let num = 7213 * m * 0x1_0000_0000;
        let den = 10 * (1000 * m + 1079);
        assert(a == (2 * num + den) / (2 * den));
        assert(0 <= (2 * num + den) / (2 * den) <= 0x1_0000_0000) by (nonlinear_arith)
            requires
                0 < den,
                0 <= 2 * num + den <= 2 * den * 0x1_0000_0000,
        ;
    }
    let sum = inverse_sum(registers, 51) as int;
    let p = pow2(51) as int;
    assert(pow2(47) == 0x8000_0000_0000);
    assert(p == 0x8_0000_0000_0000);
    assert(set![tile].contains(tile));
    if tiles == Set::<u64>::empty() {
        assert forall|j: int| 0 <= j < registers.len() implies (#[trigger] registers[j]) == 0 by {
            if registers[j] != 0 {
                assert(proposed(tiles, j, registers[j], precision));
            }
        }
        lemma_no_ranks(registers, 51);
        assert(sum == m * p);
        assert(a * 0x8000_0000_0000 / sum <= 40960) by (nonlinear_arith)
            requires
                0 <= a <= 0x1_0000_0000,
                sum == 16384 * 0x8_0000_0000_0000,
        ;
        assert(ln_of(16384) == 14 * LN2_Q32) by {
            reveal_with_fuel(floor_log2, 16);
            assert(floor_log2(16384) == 14);
            assert(ln_mantissa(0x1_0000_0000) == 0) by {
                reveal_with_fuel(ln_terms, 21);
            }
        }
        assert(m * 0 / 0x1_0000_0000 == 0);
    } else {
        let at = register_index(tile, precision);
        assert(tiles.contains(tile));
        assert forall|j: int| 0 <= j < registers.len() && j != at implies (#[trigger] registers[j])
            == 0 by {
            if registers[j] != 0 {
                assert(proposed(tiles, j, registers[j], precision));
            }
        }
        lemma_one_rank(registers, at, 51);
        assert(sum >= 16383 * p);
        assert(a * 0x8000_0000_0000 / sum <= 40960) by (nonlinear_arith)
            requires
                0 <= a <= 0x1_0000_0000,
                sum >= 16383 * 0x8_0000_0000_0000,
        ;
        lemma_ln_of_all_but_one();
        let spread = 14 * LN2_Q32 - ln_of(16383);
        assert(1 <= m * spread / 0x1_0000_0000 <= u64::MAX) by (nonlinear_arith)
            requires
                m == 16384,
                262_144 <= spread <= 14 * 2_977_044_472,
        ;
    }
}

/// The estimated number of distinct values behind one register array.
pub fn estimate_registers(registers: &[u8], precision: u32) -> (count: u64)
    requires
        precise(precision),
        registers_wf(registers@, precision),
    ensures
        count == estimate_of(registers@, precision),
{
    let rank_max: u32 = 65 - precision;
    let m: usize = register_count(precision);
    let mut hist: [u32; 65] = [0u32;65];
    let mut j: usize = 0;
    proof {
        assert forall|r: int| 0 <= r < 65 implies (#[trigger] hist@[r]) == with_rank(
            registers@.take(0),
            r,
        ) by {}
    }
    while j < registers.len()
        invariant
            j <= registers@.len() <= 262144,
            precise(precision),
            registers_wf(registers@, precision),
            forall|r: int|
                0 <= r < 65 ==> (#[trigger] hist@[r]) == with_rank(registers@.take(j as int), r),
        decreases registers@.len() - j,
    {
        let r: usize = registers[j] as usize;
        proof {
            let now = registers@.take(j as int);
            let next = registers@.take(j + 1);
            assert(next.drop_last() =~= now);
            assert(next.last() == registers@[j as int]);
            lemma_with_rank_bound(now, r as int);
            assert(hist@[r as int] == with_rank(now, r as int));
        }
        hist[r] = hist[r] + 1;
        j += 1;
    }
    let ghost whole = registers@;
    proof {
        assert(whole.take(j as int) =~= whole);
        lemma_histogram_is_the_sum(whole, rank_max as int);
        lemma_inverse_sum_bounds(whole, rank_max as int);
        lemma2_to64();
        vstd::arithmetic::power2::lemma2_to64_rest();
        assert(whole.len() * pow2(58) <= 262144 * 0x400000000000000) by (nonlinear_arith)
            requires
                whole.len() <= 262144,
                pow2(58) == 0x400000000000000,
        ;
    }
    let mut inv: u128 = 0;
    let mut rank: u32 = 0;
    while rank <= rank_max
        invariant
            precise(precision),
            rank_max == 65 - precision,
            rank <= rank_max + 1,
            forall|r: int| 0 <= r < 65 ==> (#[trigger] hist@[r]) == with_rank(whole, r),
            inv == histogram_sum(whole, rank_max as int, rank as int),
            histogram_sum(whole, rank_max as int, rank_max + 1) == inverse_sum(
                whole,
                rank_max as int,
            ),
            inverse_sum(whole, rank_max as int) <= 262144 * 0x400000000000000,
        decreases rank_max + 1 - rank,
    {
        proof {
            lemma_histogram_monotone(whole, rank_max as int, rank + 1, rank_max + 1);
            assert(hist@[rank as int] == with_rank(whole, rank as int));
        }
        inv = inv + raised(hist[rank as usize] as u128, rank_max - rank);
        rank += 1;
    }
    let zeros: u64 = hist[0] as u64;
    let alpha: u128 = alpha_q32(precision);
    proof {
        let e = (precision + 33) as nat;
        lemma_pow2_strictly_increases(e, 52);
        assert(alpha * pow2(e) <= 0x1_0000_0000 * 0x10000000000000) by (nonlinear_arith)
            requires
                0 <= alpha <= 0x1_0000_0000,
                0 <= pow2(e) <= 0x10000000000000,
        ;
    }
    let scaled: u128 = raised(alpha, precision + 33) / inv;
    let raw: u64 = if scaled > u64::MAX as u128 {
        u64::MAX
    } else {
        scaled as u64
    };
    if zeros > 0 && raw <= (5 * m as u64) / 2 {
        proof {
            lemma_with_rank_bound(whole, 0);
            lemma_ln_within(zeros as nat, precision as nat);
        }
        let ln: u64 = ln_q32(zeros);
        let ratio: u64 = precision as u64 * LN2_Q32 - ln;
        proof {
            assert(m * ratio <= 262144 * 53586800496) by (nonlinear_arith)
                requires
                    0 <= m <= 262144,
                    0 <= ratio <= 53586800496,
            ;
        }
        return (m as u64 * ratio) / 0x1_0000_0000;
    }
    raw
}

/// The logarithm of at most `2^precision` is at most `precision` times that of two.
proof fn lemma_ln_within(v: nat, precision: nat)
    requires
        1 <= v <= pow2(precision),
    ensures
        floor_log2(v) <= precision,
        v < pow2(precision) ==> floor_log2(v) < precision,
        v == pow2(precision) ==> floor_log2(v) == precision,
{
    lemma_floor_log2(v);
    if floor_log2(v) > precision {
        lemma_pow2_strictly_increases(precision, floor_log2(v));
    }
    if v == pow2(precision) {
        lemma_pow2_strictly_increases(precision, precision + 1);
        lemma_exponent_is_unique(precision, floor_log2(v), v);
    }
}

} // verus!
