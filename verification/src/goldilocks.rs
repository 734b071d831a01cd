//! The field of order `2^64 - 2^32 + 1`.

use vstd::arithmetic::div_mod::{
    lemma_add_mod_noop, lemma_fundamental_div_mod_converse_mod, lemma_mod_bound,
    lemma_mul_mod_noop_left, lemma_mul_mod_noop_right,
};
use vstd::arithmetic::power2::{
    lemma2_to64, lemma_pow2_adds, lemma_pow2_pos, lemma_pow2_unfold, pow2,
};
use vstd::prelude::*;
use vstd::std_specs::cmp::PartialEqSpecImpl;

use crate::field::{lemma_pow_add, pow, Field};
use crate::sampling::{sample_below, Sampler};

verus! {

/// The order of the field, `2^64 - 2^32 + 1`.
pub const ORDER: u64 = 0xFFFF_FFFF_0000_0001;

/// The two-adicity of the multiplicative group.
pub const TWO_ADICITY: usize = 32;

/// A generator of the multiplicative group.
pub const MULTIPLICATIVE_GROUP_GENERATOR: u64 = 7;

/// A generator of the subgroup of order `2^TWO_ADICITY`.
pub const POWER_OF_TWO_GENERATOR: u64 = 1753635133440165772;

/// The inverse of two, `(ORDER + 1) / 2`.
pub const INVERSE_OF_TWO: u64 = 0x7FFF_FFFF_8000_0001;

/// An element of the field, held as a residue, which is the least non-negative
/// one in the canonical representation. Elements are compared by what they stand
/// for.
#[derive(Clone, Copy, Debug)]
pub struct GoldilocksField(pub u64);

impl PartialEq for GoldilocksField {
    fn eq(&self, other: &Self) -> (r: bool) {
        self.to_canonical_u64() == other.to_canonical_u64()
    }
}

impl PartialEqSpecImpl for GoldilocksField {
    open spec fn obeys_eq_spec() -> bool {
        true
    }

    open spec fn eq_spec(&self, other: &Self) -> bool {
        self.0 % ORDER == other.0 % ORDER
    }
}

impl Eq for GoldilocksField {

}

/// The residue that generates the subgroup of order `2^n_log`.
pub open spec fn root_value(n_log: nat) -> int
    decreases TWO_ADICITY - n_log,
{
    if n_log >= TWO_ADICITY {
        POWER_OF_TWO_GENERATOR as int
    } else {
        (root_value(n_log + 1) * root_value(n_log + 1)) % (ORDER as int)
    }
}

proof fn lemma_root_value_bound(n_log: nat)
    ensures
        0 <= root_value(n_log) < ORDER,
    decreases TWO_ADICITY - n_log,
{
    if n_log < TWO_ADICITY {
        lemma_mod_bound(root_value(n_log + 1) * root_value(n_log + 1), ORDER as int);
    }
}

/// One squaring on residues: `a^2 == q * ORDER + b`.
proof fn lemma_root_value_step(n_log: nat, a: int, b: int, q: int)
    requires
        n_log < TWO_ADICITY,
        root_value(n_log + 1) == a,
        a * a == q * 0xFFFF_FFFF_0000_0001 + b,
        0 <= b < ORDER,
    ensures
        root_value(n_log) == b,
{
    lemma_fundamental_div_mod_converse_mod(a * a, ORDER as int, q, b);
}

/// Squaring the generator of the largest subgroup arrives at `-1`, and then at `1`.
proof fn lemma_root_value_chain()
    ensures
        root_value(1) == ORDER - 1,
        root_value(0) == 1,
{
    assert(root_value(32) == 1753635133440165772);
    lemma_root_value_step(31, 1753635133440165772, 4614640910117430873, 166708887468903991);
    lemma_root_value_step(30, 4614640910117430873, 9123114210336311365, 1154399424049971884);
    lemma_root_value_step(29, 9123114210336311365, 16116352524544190054, 4511973093009996851);
    lemma_root_value_step(28, 16116352524544190054, 6414415596519834757, 14080361158478670879);
    lemma_root_value_step(27, 6414415596519834757, 1213594585890690845, 2230460144622294524);
    lemma_root_value_step(26, 1213594585890690845, 17096174751763063430, 79841288704448195);
    lemma_root_value_step(25, 17096174751763063430, 5456943929260765144, 15844486704156700236);
    lemma_root_value_step(24, 5456943929260765144, 9713644485405565297, 1614281465338340559);
    lemma_root_value_step(23, 9713644485405565297, 16905767614792059275, 5114988793349933654);
    lemma_root_value_step(22, 16905767614792059275, 5416168637041100469, 15493518941330557636);
    lemma_root_value_step(21, 5416168637041100469, 17654865857378133588, 1590247178281506213);
    lemma_root_value_step(20, 17654865857378133588, 3511170319078647661, 16896981237942002723);
    lemma_root_value_step(19, 3511170319078647661, 18146160046829613826, 668319404399374695);
    lemma_root_value_step(18, 18146160046829613826, 9306717745644682924, 17850473948468743512);
    lemma_root_value_step(17, 9306717745644682924, 12380578893860276750, 4695408299218975106);
    lemma_root_value_step(16, 12380578893860276750, 6115771955107415310, 8309256808156222390);
    lemma_root_value_step(15, 6115771955107415310, 17776499369601055404, 2027602620068516376);
    lemma_root_value_step(14, 17776499369601055404, 16207902636198568418, 17130607366173278638);
    lemma_root_value_step(13, 16207902636198568418, 1532612707718625687, 14240784545824149997);
    lemma_root_value_step(12, 1532612707718625687, 17492915097719143606, 127334216977357403);
    lemma_root_value_step(11, 17492915097719143606, 455906449640507599, 16588405924890216597);
    lemma_root_value_step(10, 455906449640507599, 11353340290879379826, 11267608529812975);
    lemma_root_value_step(9, 11353340290879379826, 1803076106186727246, 6987592784692205430);
    lemma_root_value_step(8, 1803076106186727246, 13797081185216407910, 176241586724885086);
    lemma_root_value_step(7, 13797081185216407910, 17870292113338400769, 10319406422896923811);
    lemma_root_value_step(6, 17870292113338400769, 549755813888, 17311854006015885313);
    lemma_root_value_step(5, 549755813888, 70368744161280, 16384);
    lemma_root_value_step(4, 70368744161280, 17293822564807737345, 268435455);
    lemma_root_value_step(3, 17293822564807737345, 18446744069397807105, 16212958654255595520);
    lemma_root_value_step(2, 18446744069397807105, 281474976710656, 18446744069381029889);
    lemma_root_value_step(1, 281474976710656, 18446744069414584320, 4294967296);
    lemma_root_value_step(0, 18446744069414584320, 1, 18446744069414584319);
}

impl GoldilocksField {
    /// The element with the given canonical residue.
    pub fn from_canonical_u64(n: u64) -> (r: Self)
        requires
            n < ORDER,
        ensures
            r == GoldilocksField(n),
            r.wf(),
    {
        GoldilocksField(n)
    }

    /// The element that `n` stands for modulo the order.
    pub fn from_noncanonical_u64(n: u64) -> (r: Self)
        ensures
            r.0 as int == n as int % (ORDER as int),
            r.wf(),
    {
        GoldilocksField(n % ORDER)
    }

    /// The canonical residue.
    pub fn to_canonical_u64(&self) -> (r: u64)
        ensures
            r == self.0 % ORDER,
            r < ORDER,
    {
        self.0 % ORDER
    }
}

impl Field for GoldilocksField {
    open spec fn wf(self) -> bool {
        self.0 < ORDER
    }

    open spec fn same_spec(self, other: Self) -> bool {
        self.0 % ORDER == other.0 % ORDER
    }

    open spec fn zero_spec() -> Self {
        GoldilocksField(0)
    }

    open spec fn one_spec() -> Self {
        GoldilocksField(1)
    }

    open spec fn add_spec(self, other: Self) -> Self {
        GoldilocksField(((self.0 + other.0) % (ORDER as int)) as u64)
    }

    open spec fn neg_spec(self) -> Self {
        GoldilocksField(((ORDER - self.0) % (ORDER as int)) as u64)
    }

    open spec fn mul_spec(self, other: Self) -> Self {
        GoldilocksField(((self.0 * other.0) % (ORDER as int)) as u64)
    }

    open spec fn half_spec() -> Self {
        GoldilocksField(INVERSE_OF_TWO)
    }

    open spec fn two_adicity_spec() -> nat {
        TWO_ADICITY as nat
    }

    open spec fn root_spec(n_log: nat) -> Self {
        GoldilocksField(root_value(n_log) as u64)
    }

    open spec fn coset_shift_spec() -> Self {
        GoldilocksField(MULTIPLICATIVE_GROUP_GENERATOR)
    }

    open spec fn draw_count() -> nat {
        1
    }

    open spec fn draws(self) -> Seq<(u64, u64)> {
        seq![(ORDER, self.0)]
    }

    proof fn lemma_draws(a: Self, b: Self) {
        assert(a.draws()[0] == (ORDER, a.0));
        assert(b.draws()[0] == (ORDER, b.0));
    }

    proof fn lemma_constants() {
    }

    proof fn lemma_same(a: Self, b: Self) {
    }

    proof fn lemma_coset_shift_invertible() {
        let s = GoldilocksField(2635249152773512046);
        assert(Self::coset_shift_spec().mul_spec(s) == Self::one_spec());
    }

    proof fn lemma_closed(a: Self, b: Self) {
        lemma_mod_bound(a.0 + b.0, ORDER as int);
        lemma_mod_bound(a.0 * b.0, ORDER as int);
        lemma_mod_bound(ORDER - a.0, ORDER as int);
    }

    proof fn lemma_add_commutes(a: Self, b: Self) {
    }

    proof fn lemma_add_associates(a: Self, b: Self, c: Self) {
    }

    proof fn lemma_add_zero(a: Self) {
    }

    proof fn lemma_add_neg(a: Self) {
    }

    proof fn lemma_mul_commutes(a: Self, b: Self) {
        assert(a.0 * b.0 == b.0 * a.0) by (nonlinear_arith);
    }

    proof fn lemma_mul_associates(a: Self, b: Self, c: Self) {
        let p = ORDER as int;
        lemma_mod_bound(a.0 * b.0, p);
        lemma_mod_bound(b.0 * c.0, p);
        lemma_mul_mod_noop_left(a.0 * b.0, c.0 as int, p);
        lemma_mul_mod_noop_right(a.0 as int, b.0 * c.0, p);
        assert((a.0 * b.0) * c.0 == a.0 * (b.0 * c.0)) by (nonlinear_arith);
    }

    proof fn lemma_mul_one(a: Self) {
    }

    proof fn lemma_mul_distributes(a: Self, b: Self, c: Self) {
        let p = ORDER as int;
        lemma_mod_bound(b.0 + c.0, p);
        lemma_mod_bound(a.0 * b.0, p);
        lemma_mod_bound(a.0 * c.0, p);
        lemma_mul_mod_noop_right(a.0 as int, b.0 + c.0, p);
        lemma_add_mod_noop(a.0 * b.0, a.0 * c.0, p);
        assert(a.0 * (b.0 + c.0) == a.0 * b.0 + a.0 * c.0) by (nonlinear_arith);
    }

    proof fn lemma_roots(n_log: nat) {
        lemma_root_value_bound(n_log);
        lemma_root_value_chain();
        if n_log >= 1 {
            lemma_root_value_bound((n_log - 1) as nat);
        }
    }

    fn same(self, other: Self) -> (r: bool) {
        self == other
    }

    fn zero() -> (r: Self) {
        GoldilocksField(0)
    }

    fn one() -> (r: Self) {
        GoldilocksField(1)
    }

    fn half() -> (r: Self) {
        GoldilocksField(INVERSE_OF_TWO)
    }

    fn coset_shift() -> (r: Self) {
        GoldilocksField(MULTIPLICATIVE_GROUP_GENERATOR)
    }

    fn add(self, other: Self) -> (r: Self) {
        let gap: u64 = ORDER - other.0;
        if self.0 >= gap {
            GoldilocksField(self.0 - gap)
        } else {
            GoldilocksField(self.0 + other.0)
        }
    }

    fn sub(self, other: Self) -> (r: Self) {
        if self.0 >= other.0 {
            GoldilocksField(self.0 - other.0)
        } else {
            GoldilocksField(self.0 + (ORDER - other.0))
        }
    }

    fn mul(self, other: Self) -> (r: Self) {
        assert(self.0 * other.0 <= u64::MAX * u64::MAX) by (nonlinear_arith);
        let product: u128 = self.0 as u128 * other.0 as u128;
        let residue: u128 = product % (ORDER as u128);
        GoldilocksField(residue as u64)
    }

    fn two_adicity() -> (r: usize) {
        TWO_ADICITY
    }

    fn primitive_root_of_unity(n_log: usize) -> (r: Self) {
        let mut r: Self = GoldilocksField(POWER_OF_TWO_GENERATOR);
        let mut k: usize = TWO_ADICITY;
        while k > n_log
            invariant
                n_log <= k <= TWO_ADICITY,
                r == Self::root_spec(k as nat),
                r.wf(),
            decreases k,
        {
            proof {
                Self::lemma_roots(k as nat);
            }
            r = r.mul(r);
            k = k - 1;
        }
        r
    }

    fn draw(sampler: &mut Sampler) -> (r: Self)
        ensures
            final(sampler).log() == old(sampler).log().push((ORDER, r.0)),
    {
        GoldilocksField::from_canonical_u64(sample_below(sampler, ORDER))
    }

    fn rand() -> (r: Self) {
        let mut sampler: Sampler = Sampler::new();
        let r: Self = Self::draw(&mut sampler);
        assert(sampler.log() =~= r.draws());
        r
    }
}

/// One step from `7^(2^k - 1)` to `7^(2^(k + 1) - 1)`: `7 x^2 == q * ORDER + y`.
proof fn lemma_all_ones_step(k: nat, x: int, y: int, q: int)
    requires
        0 <= x < ORDER,
        0 <= y < ORDER,
        x * x * 7 == q * 0xFFFF_FFFF_0000_0001 + y,
        pow(GoldilocksField(7), (pow2(k) - 1) as nat) == GoldilocksField(x as u64),
    ensures
        pow(GoldilocksField(7), (pow2(k + 1) - 1) as nat) == GoldilocksField(y as u64),
{
    let p = ORDER as int;
    let g = GoldilocksField(7);
    let e = (pow2(k) - 1) as nat;
    lemma_pow2_pos(k);
    lemma_pow2_unfold(k + 1);
    lemma_pow_add(g, e, e);
    lemma_pow_add(g, e + e, 1);
    assert(pow(g, 0) == GoldilocksField(1));
    assert(pow(g, 1) == g) by {
        GoldilocksField::lemma_mul_one(g);
    }
    lemma_mod_bound(x * x, p);
    lemma_mul_mod_noop_left(x * x, 7, p);
    lemma_fundamental_div_mod_converse_mod(x * x * 7, p, q, y);
    let a = GoldilocksField(x as u64);
    assert(a.mul_spec(a).0 == (x * x) % p);
    assert(a.mul_spec(a).mul_spec(g) == GoldilocksField(y as u64));
}

proof fn lemma_power_of_two_generator()
    ensures
        pow(GoldilocksField(7), 0xFFFF_FFFF) == GoldilocksField(POWER_OF_TWO_GENERATOR),
{
    lemma2_to64();
    assert(pow(GoldilocksField(7), 0) == GoldilocksField(1));
    lemma_all_ones_step(0, 1, 7, 0);
    lemma_all_ones_step(1, 7, 343, 0);
    lemma_all_ones_step(2, 343, 823543, 0);
    lemma_all_ones_step(3, 823543, 4747561509943, 0);
    lemma_all_ones_step(4, 4747561509943, 11074261478625843323, 8553020);
    lemma_all_ones_step(5, 11074261478625843323, 12148266161370408270, 46538016023229720673);
    lemma_all_ones_step(6, 12148266161370408270, 7007601668316978083, 56002435508678139577);
    lemma_all_ones_step(7, 7007601668316978083, 8125271997680889877, 18634473742308562026);
    lemma_all_ones_step(8, 8125271997680889877, 2624486902016877951, 25052676695413524112);
    lemma_all_ones_step(9, 2624486902016877951, 8253119735826302939, 2613768603856235308);
    lemma_all_ones_step(10, 8253119735826302939, 3543566522599720475, 25847265827672469332);
    lemma_all_ones_step(11, 3543566522599720475, 11981551684735969599, 4764962617243911856);
    lemma_all_ones_step(12, 11981551684735969599, 10062120588441922115, 54475904345860342852);
    lemma_all_ones_step(13, 10062120588441922115, 10485806445487905393, 38419999349886321742);
    lemma_all_ones_step(14, 10485806445487905393, 4139485063330164956, 41723620970151811147);
    lemma_all_ones_step(15, 4139485063330164956, 12134830135347446949, 6502359206338864843);
    lemma_all_ones_step(16, 12134830135347446949, 4326791766630348883, 55878626223541897244);
    lemma_all_ones_step(17, 4326791766630348883, 206761543466863628, 7104120296206835795);
    lemma_all_ones_step(18, 206761543466863628, 10086585273483141421, 16222502457426627);
    lemma_all_ones_step(19, 10086585273483141421, 1855730417186139594, 38607052533218672533);
    lemma_all_ones_step(20, 1855730417186139594, 7626447102712710903, 1306796883947548869);
    lemma_all_ones_step(21, 7626447102712710903, 7790920094560990216, 22071042257716239407);
    lemma_all_ones_step(22, 7790920094560990216, 5901922255895126089, 23033281637127610743);
    lemma_all_ones_step(23, 5901922255895126089, 8935258787870022506, 13217985964617414221);
    lemma_all_ones_step(24, 8935258787870022506, 13093775858033092690, 30296508974182092522);
    lemma_all_ones_step(25, 13093775858033092690, 11243737384857129666, 65059110649923945754);
    lemma_all_ones_step(26, 11243737384857129666, 2063617152444052883, 47973312218535118729);
    lemma_all_ones_step(27, 2063617152444052883, 13064848991504552222, 1615982210782367681);
    lemma_all_ones_step(28, 13064848991504552222, 16593403251012455084, 64771970039786058224);
    lemma_all_ones_step(29, 16593403251012455084, 5859133952941131217, 104483870589968102175);
    lemma_all_ones_step(30, 5859133952941131217, 15659105665374529263, 13027022755088247160);
    lemma_all_ones_step(31, 15659105665374529263, 1753635133440165772, 93049110738273779291);
}

/// The generator of the subgroup of order `2^n_log` is the power of the generator
/// of the multiplicative group, which is also the coset shift, by the index of the
/// subgroup.
pub proof fn law_roots_are_powers_of_the_generator(n_log: nat)
    requires
        n_log <= GoldilocksField::two_adicity_spec(),
    ensures
        GoldilocksField::root_spec(n_log) == pow(
            GoldilocksField::coset_shift_spec(),
            (pow2((32 - n_log) as nat) * 0xFFFF_FFFF) as nat,
        ),
        pow2(n_log) * (pow2((32 - n_log) as nat) * 0xFFFF_FFFF) == ORDER - 1,
    decreases 32 - n_log,
{
    let g = GoldilocksField::coset_shift_spec();
    let k = (32 - n_log) as nat;
    lemma2_to64();
    lemma_pow2_adds(n_log, k);
    assert(pow2(n_log) * (pow2(k) * 0xFFFF_FFFF) == (pow2(n_log) * pow2(k)) * 0xFFFF_FFFF)
        by (nonlinear_arith);
    if n_log == 32 {
        lemma_power_of_two_generator();
        lemma_root_value_bound(32);
    } else {
        let m = n_log + 1;
        law_roots_are_powers_of_the_generator(m);
        GoldilocksField::lemma_roots(m);
        let e = (pow2((32 - m) as nat) * 0xFFFF_FFFF) as nat;
        lemma_pow2_unfold(k);
        lemma_pow_add(g, e, e);
    }
}

/// There is no larger subgroup whose order is a power of two.
pub proof fn law_two_adicity()
    ensures
        (ORDER - 1) % (pow2(GoldilocksField::two_adicity_spec()) as int) == 0,
        (ORDER - 1) % (pow2(GoldilocksField::two_adicity_spec() + 1) as int) != 0,
{
    lemma2_to64();
    lemma_pow2_unfold(33);
    assert(pow2(33) == 0x2_0000_0000);
    assert((ORDER - 1) % 0x2_0000_0000 == 0x1_0000_0000);
}

/// A random element is one draw below the order, and each outcome gives the
/// element that it stands for.
pub proof fn law_one_draw(n: u64)
    requires
        n < ORDER,
    ensures
        GoldilocksField::draw_count() == 1,
        GoldilocksField(n).wf(),
        GoldilocksField(n).draws() == seq![(ORDER, n)],
{
}

} // verus!
