//! Numbers that the analyses use, as the bits of a double.

use crate::double::{p2, size, whole, Double, TWO_52, TWO_53};
use vstd::prelude::*;

verus! {

/// Seconds in an hour.
pub const SECONDS_PER_HOUR: u64 = 0x40AC_2000_0000_0000;

/// Metres in a kilometre.
pub const METRES_PER_KM: u64 = 0x408F_4000_0000_0000;

/// Kilometres per hour in a metre per second.
pub const KMH_PER_MS: u64 = 0x400C_CCCC_CCCC_CCCD;

/// Below this a flow or a density counts as none.
pub const IDLE: u64 = 0x3F50_624D_D2F1_A9FC;

/// Per cent.
pub const HUNDRED: u64 = 0x4059_0000_0000_0000;

/// One per cent.
pub const ONE_PERCENT: u64 = 0x3F84_7AE1_47AE_147B;

/// The largest finite number.
pub const DOUBLE_MAX: u64 = 0x7FEF_FFFF_FFFF_FFFF;

pub const FIVE: u64 = 0x4014_0000_0000_0000;

pub const TWENTY: u64 = 0x4034_0000_0000_0000;

pub const THIRTY: u64 = 0x403E_0000_0000_0000;

pub const SEVENTY: u64 = 0x4051_8000_0000_0000;

pub const EIGHTY: u64 = 0x4054_0000_0000_0000;

pub const NINETY: u64 = 0x4056_8000_0000_0000;

pub const NINETY_FIVE: u64 = 0x4057_C000_0000_0000;

pub const NINETY_NINE: u64 = 0x4058_C000_0000_0000;

pub const TWO: u64 = 0x4000_0000_0000_0000;

pub const TEN: u64 = 0x4024_0000_0000_0000;

pub const TWENTY_FIVE: u64 = 0x4039_0000_0000_0000;

pub const NINE_TENTHS: u64 = 0x3FEC_CCCC_CCCC_CCCD;

/// Below this a reference value counts as zero.
pub const NEAR_ZERO: u64 = 0x3D71_9799_812D_EA11;

/// Ceiling of relative errors, which keeps them finite.
pub const ERR_CEILING_PCT: u64 = 0x41CD_CD65_0000_0000;

/// Times that differ by less are the same.
pub const TIME_SLACK: u64 = 0x3E11_2E0B_E826_D695;

/// Jam density per lane (veh/m) of a link whose input gives none.
pub const DEFAULT_JAM_DENSITY: u64 = 0x3FC9_9999_9999_999A;

/// Negative infinity.
pub const NEG_INFINITY: u64 = 0xFFF0_0000_0000_0000;

pub const FIFTY: u64 = 0x4049_0000_0000_0000;

pub const SIXTY: u64 = 0x404E_0000_0000_0000;

pub const TENTH: u64 = 0x3FB9_9999_9999_999A;

pub const FIFTH: u64 = 0x3FC9_9999_9999_999A;

pub const TWO_HUNDREDTHS: u64 = 0x3F94_7AE1_47AE_147B;

pub const THREE_HUNDREDTHS: u64 = 0x3F9E_B851_EB85_1EB8;

pub const HALF: u64 = 0x3FE0_0000_0000_0000;

pub const SEVEN_TENTHS: u64 = 0x3FE6_6666_6666_6666;

pub const THREE: u64 = 0x4008_0000_0000_0000;

pub const FIFTEEN: u64 = 0x402E_0000_0000_0000;

pub const TWO_HUNDRED: u64 = 0x4069_0000_0000_0000;

pub const THREE_HUNDRED: u64 = 0x4072_C000_0000_0000;

pub const FIVE_HUNDRED: u64 = 0x407F_4000_0000_0000;

pub const MILLION: u64 = 0x412E_8480_0000_0000;

// ── Laws ─────────────────────────────────────────────────────────────────────

/// The number with these bits is this whole number; `j` is the place of its unit.
proof fn lemma_whole_number(bits: u64, n: nat, j: int)
    requires
        Double::from_bits(bits).finite() && !Double::from_bits(bits).negative(),
        0 < n < TWO_53,
        0 <= j <= 52,
        Double::from_bits(bits).exp() == -j,
        TWO_52 <= Double::from_bits(bits).sig(),
        Double::from_bits(bits).sig() == n * p2(j),
    ensures
        Double::from_bits(bits) == whole(n),
{
    let x = Double::from_bits(bits);
    assert(x.sig() * 1 == x.sig());
    crate::double::law_fraction_from_bits(x, n, 1, j);
    crate::double::law_zero_and_one_are_whole();
    crate::double::law_whole_numbers_have_their_value(n);
    crate::double::law_over_one(whole(n));
}

/// The number with these bits is the double nearest to this fraction.
proof fn lemma_fraction(bits: u64, n: nat, d: nat, j: int)
    requires
        Double::from_bits(bits).finite() && !Double::from_bits(bits).negative(),
        0 < n < TWO_53,
        0 < d < TWO_53,
        0 <= j <= 128,
        Double::from_bits(bits).exp() == -j,
        TWO_52 <= Double::from_bits(bits).sig(),
        2 * size(Double::from_bits(bits).sig() * d - n * p2(j)) < d,
        n * p2(j) >= TWO_52 * d,
    ensures
        Double::from_bits(bits) == whole(n).over(whole(d)),
{
    crate::double::law_fraction_from_bits(Double::from_bits(bits), n, d, j);
}

/// The whole numbers among the constants are what their names say.
pub proof fn law_whole_constants()
    ensures
        Double::from_bits(SECONDS_PER_HOUR) == whole(3600),
        Double::from_bits(METRES_PER_KM) == whole(1000),
        Double::from_bits(HUNDRED) == whole(100),
        Double::from_bits(FIVE) == whole(5),
        Double::from_bits(TWENTY) == whole(20),
        Double::from_bits(THIRTY) == whole(30),
        Double::from_bits(SEVENTY) == whole(70),
        Double::from_bits(EIGHTY) == whole(80),
        Double::from_bits(NINETY) == whole(90),
        Double::from_bits(NINETY_FIVE) == whole(95),
        Double::from_bits(NINETY_NINE) == whole(99),
        Double::from_bits(TWO) == whole(2),
        Double::from_bits(TEN) == whole(10),
        Double::from_bits(TWENTY_FIVE) == whole(25),
        Double::from_bits(ERR_CEILING_PCT) == whole(1_000_000_000),
        Double::from_bits(FIFTY) == whole(50),
        Double::from_bits(SIXTY) == whole(60),
        Double::from_bits(THREE) == whole(3),
        Double::from_bits(FIFTEEN) == whole(15),
        Double::from_bits(TWO_HUNDRED) == whole(200),
        Double::from_bits(THREE_HUNDRED) == whole(300),
        Double::from_bits(FIVE_HUNDRED) == whole(500),
        Double::from_bits(MILLION) == whole(1_000_000),
{
    vstd::arithmetic::power2::lemma2_to64();
    vstd::arithmetic::power2::lemma2_to64_rest();
    lemma_whole_number(SECONDS_PER_HOUR, 3600, 41);
    lemma_whole_number(METRES_PER_KM, 1000, 43);
    lemma_whole_number(HUNDRED, 100, 46);
    lemma_whole_number(FIVE, 5, 50);
    lemma_whole_number(TWENTY, 20, 48);
    lemma_whole_number(THIRTY, 30, 48);
    lemma_whole_number(SEVENTY, 70, 46);
    lemma_whole_number(EIGHTY, 80, 46);
    lemma_whole_number(NINETY, 90, 46);
    lemma_whole_number(NINETY_FIVE, 95, 46);
    lemma_whole_number(NINETY_NINE, 99, 46);
    lemma_whole_number(TWO, 2, 51);
    lemma_whole_number(TEN, 10, 49);
    lemma_whole_number(TWENTY_FIVE, 25, 48);
    lemma_whole_number(ERR_CEILING_PCT, 1_000_000_000, 23);
    lemma_whole_number(FIFTY, 50, 47);
    lemma_whole_number(SIXTY, 60, 47);
    lemma_whole_number(THREE, 3, 51);
    lemma_whole_number(FIFTEEN, 15, 49);
    lemma_whole_number(TWO_HUNDRED, 200, 45);
    lemma_whole_number(THREE_HUNDRED, 300, 44);
    lemma_whole_number(FIVE_HUNDRED, 500, 44);
    lemma_whole_number(MILLION, 1_000_000, 33);
}

/// The fractions among the constants are the doubles nearest to what their names say.
pub proof fn law_fraction_constants()
    ensures
        Double::from_bits(KMH_PER_MS) == whole(18).over(whole(5)),
        Double::from_bits(IDLE) == whole(1).over(whole(1000)),
        Double::from_bits(ONE_PERCENT) == whole(1).over(whole(100)),
        Double::from_bits(NINE_TENTHS) == whole(9).over(whole(10)),
        Double::from_bits(NEAR_ZERO) == whole(1).over(whole(1_000_000_000_000)),
        Double::from_bits(TIME_SLACK) == whole(1).over(whole(1_000_000_000)),
        Double::from_bits(DEFAULT_JAM_DENSITY) == whole(1).over(whole(5)),
        Double::from_bits(TENTH) == whole(1).over(whole(10)),
        Double::from_bits(FIFTH) == whole(1).over(whole(5)),
        Double::from_bits(TWO_HUNDREDTHS) == whole(2).over(whole(100)),
        Double::from_bits(THREE_HUNDREDTHS) == whole(3).over(whole(100)),
        Double::from_bits(HALF) == whole(1).over(whole(2)),
        Double::from_bits(SEVEN_TENTHS) == whole(7).over(whole(10)),
{
    vstd::arithmetic::power2::lemma2_to64();
    vstd::arithmetic::power2::lemma2_to64_rest();
    vstd::arithmetic::power2::lemma_pow2_adds(64, 18);
    assert(p2(82) == 0x400000000000000000000) by (nonlinear_arith)
        requires
            p2(82) == p2(64) * p2(18),
            p2(64) == 0x10000000000000000,
            p2(18) == 0x40000,
    ;
    vstd::arithmetic::power2::lemma_pow2_adds(64, 28);
    assert(p2(92) == 0x100000000000000000000000) by (nonlinear_arith)
        requires
            p2(92) == p2(64) * p2(28),
            p2(64) == 0x10000000000000000,
            p2(28) == 0x10000000,
    ;
    lemma_fraction(KMH_PER_MS, 18, 5, 51);
    lemma_fraction(IDLE, 1, 1000, 62);
    lemma_fraction(ONE_PERCENT, 1, 100, 59);
    lemma_fraction(NINE_TENTHS, 9, 10, 53);
    lemma_fraction(NEAR_ZERO, 1, 1_000_000_000_000, 92);
    lemma_fraction(TIME_SLACK, 1, 1_000_000_000, 82);
    lemma_fraction(DEFAULT_JAM_DENSITY, 1, 5, 55);
    lemma_fraction(TENTH, 1, 10, 56);
    lemma_fraction(FIFTH, 1, 5, 55);
    lemma_fraction(TWO_HUNDREDTHS, 2, 100, 58);
    lemma_fraction(THREE_HUNDREDTHS, 3, 100, 58);
    lemma_fraction(HALF, 1, 2, 53);
    lemma_fraction(SEVEN_TENTHS, 7, 10, 53);
}

} // verus!
