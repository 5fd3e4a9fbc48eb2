//! Large powers of the odd primes below 32.

use vstd::arithmetic::power::{lemma_pow1, lemma_pow_adds, pow};
use vstd::arithmetic::power2::{lemma2_to64, lemma_pow2_unfold, pow2};
use vstd::prelude::*;

verus! {

/// The number that the limbs from `from` on hold, lowest limb first.
pub open spec fn spec_limbs_value(limbs: Seq<u32>, from: int) -> nat
    decreases limbs.len() - from,
{
    if from < 0 || from >= limbs.len() {
        0
    } else {
        limbs[from] as nat + 0x1_0000_0000 * spec_limbs_value(limbs, from + 1)
    }
}

/// Whether `table` holds the first `count` powers `base^(2^i)`, each as
/// limbs without a zero limb at its top.
pub open spec fn spec_is_power_table(table: Seq<&'static [u32]>, base: int, count: int) -> bool {
    &&& table.len() == count
    &&& forall|i: int|
        0 <= i < count ==> spec_limbs_value((#[trigger] table[i])@, 0) == pow(base, pow2(i as nat))
    &&& forall|i: int| 0 <= i < count ==> (#[trigger] table[i])@.len() > 0 && table[i]@.last() != 0
}

/// The limbs from an index on, weighted by their place, and the limbs
/// before it make up the number that all the limbs hold.
pub proof fn lemma_limbs_value_from(limbs: Seq<u32>, from: int)
    requires
        0 <= from <= limbs.len(),
    ensures
        crate::bigint::spec_limbs(limbs) == crate::bigint::spec_limbs(limbs.subrange(0, from))
            + pow(crate::bigint::spec_base(), from as nat) * spec_limbs_value(limbs, from),
    decreases limbs.len() - from,
{
    let weight = pow(crate::bigint::spec_base(), from as nat);
    if from == limbs.len() {
        assert(limbs.subrange(0, from) == limbs);
        assert(weight * 0 == 0);
    } else {
        lemma_limbs_value_from(limbs, from + 1);
        crate::bigint::lemma_base_pow(from as nat);
        let before = limbs.subrange(0, from);
        assert(limbs.subrange(0, from + 1) == before.push(limbs[from]));
        crate::bigint::lemma_limbs_push(before, limbs[from]);
        let rest = spec_limbs_value(limbs, from + 1);
        assert(weight * (limbs[from] + 0x1_0000_0000 * rest) == limbs[from] * weight + (
        crate::bigint::spec_base() * weight) * rest) by (nonlinear_arith)
            requires
                crate::bigint::spec_base() == 0x1_0000_0000,
        ;
    }
}

/// The number that an entry of a table holds is the number that it holds
/// as the limbs of a big integer.
pub proof fn lemma_limbs_value(limbs: Seq<u32>)
    ensures
        spec_limbs_value(limbs, 0) == crate::bigint::spec_limbs(limbs),
{
    lemma_limbs_value_from(limbs, 0);
    vstd::arithmetic::power::lemma_pow0(crate::bigint::spec_base());
    assert(limbs.subrange(0, 0).len() == 0);
    assert(1 * spec_limbs_value(limbs, 0) == spec_limbs_value(limbs, 0));
}

/// Squaring a power `base^(2^i)` gives the next one.
pub proof fn lemma_square(base: int, i: nat)
    ensures
        pow(base, pow2(i + 1)) == pow(base, pow2(i)) * pow(base, pow2(i)),
{
    lemma_pow2_unfold(i + 1);
    lemma_pow_adds(base, pow2(i), pow2(i));
}

/// The value of `2^1075`.
pub proof fn lemma_pow2_1075()
    ensures
        pow2(1075) == 0x8_0000_0000_0000_0000_0000_0000_0000_0000_0000_0000_0000_0000_0000_0000_0000_0000_0000_0000_0000_0000_0000_0000_0000_0000_0000_0000_0000_0000_0000_0000_0000_0000_0000_0000_0000_0000_0000_0000_0000_0000_0000_0000_0000_0000_0000_0000_0000_0000_0000_0000_0000_0000_0000_0000_0000_0000_0000_0000_0000_0000_0000_0000_0000_0000_0000_0000_0000int,
{
    lemma2_to64();
    vstd::arithmetic::power2::lemma2_to64_rest();
    vstd::arithmetic::power2::lemma_pow2_adds(64, 64);
    assert(pow2(128) == 0x1_0000_0000_0000_0000_0000_0000_0000_0000int);
    vstd::arithmetic::power2::lemma_pow2_adds(128, 128);
    assert(pow2(256) == 0x1_0000_0000_0000_0000_0000_0000_0000_0000_0000_0000_0000_0000_0000_0000_0000_0000int);
    vstd::arithmetic::power2::lemma_pow2_adds(256, 256);
    assert(pow2(512) == 0x1_0000_0000_0000_0000_0000_0000_0000_0000_0000_0000_0000_0000_0000_0000_0000_0000_0000_0000_0000_0000_0000_0000_0000_0000_0000_0000_0000_0000_0000_0000_0000_0000int);
    vstd::arithmetic::power2::lemma_pow2_adds(512, 512);
    assert(pow2(1024) == 0x1_0000_0000_0000_0000_0000_0000_0000_0000_0000_0000_0000_0000_0000_0000_0000_0000_0000_0000_0000_0000_0000_0000_0000_0000_0000_0000_0000_0000_0000_0000_0000_0000_0000_0000_0000_0000_0000_0000_0000_0000_0000_0000_0000_0000_0000_0000_0000_0000_0000_0000_0000_0000_0000_0000_0000_0000_0000_0000_0000_0000_0000_0000_0000_0000int);
    vstd::arithmetic::power2::lemma_pow2_adds(1024, 51);
}

/// The value of `3^(2^i)` for each `i` below 10.
pub open spec fn spec_pow3(i: int) -> int {
    if i == 0 {
        0x3int
    } else if i == 1 {
        0x9int
    } else if i == 2 {
        0x51int
    } else if i == 3 {
        0x19a1int
    } else if i == 4 {
        0x290_d741int
    } else if i == 5 {
        0x6_954f_e21e_3e81int
    } else if i == 6 {
        0x2b_56d4_af8f_7932_278c_797e_bd01int
    } else if i == 7 {
        0x756_48e6_90da_5a4d_2eef_e458_8f7c_fb7b_e364_8042_1481_8a86_7a01int
    } else if i == 8 {
        0x35_d511_ab97_c4c8_5188_b496_4af5_8b4c_596f_8ddc_c7ad_eeb8_0d4f_ff81_fed2_4281_5e55_bc83_75a2_05de_0759_7d51_d210_5f2f_0730_f401int
    } else {
        0xb51_eaa7_759a_4593_57c0_6f65_487c_e18f_23cf_2b52_bbab_3498_3e22_b2a5_cadd_e33f_cb0f_1a5a_bfca_90c4_f813_2805_2d31_1fe7_7793_417d_d770_5c83_098e_c0c7_32e0_f9c8_7fe3_aa65_ac28_9483_760f_bd2a_7e53_35bd_075f_4d13_ebbd_7679_ef1b_4306_890c_1d66_0d12_76f1_e801int
    }
}

/// `spec_pow3` holds the powers `3^(2^i)`: each is the square of the one before.
pub proof fn lemma_pow3(i: int)
    requires
        0 <= i < 10,
    ensures
        spec_pow3(i) == pow(3, pow2(i as nat)),
    decreases i,
{
    if i == 0 {
        lemma_pow1(3);
        lemma2_to64();
    } else {
        lemma_pow3(i - 1);
        lemma_square(3, (i - 1) as nat);
        assert(spec_pow3(i) == spec_pow3(i - 1) * spec_pow3(i - 1));
    }
}

/// The last power of 3 in its table is the last that is at most `2^1075`.
pub proof fn lemma_pow3_is_last()
    ensures
        pow(3, pow2(9)) <= pow2(1075) < pow(3, pow2(10)),
{
    lemma_pow3(9);
    lemma_square(3, 9);
    lemma_pow2_1075();
    let last = spec_pow3(9);
    assert(last <= pow2(1075));
    assert(pow2(1075) < last * last);
}

/// The powers `3^(2^i)` that fit in 1075 bits, each as limbs.
#[verifier::rlimit(100)]
fn pow3() -> (table: &'static [&'static [u32]])
    ensures
        spec_is_power_table(table@, 3, 10),
{
    let table: &'static [&'static [u32]] = &[
        &[3],
        &[9],
        &[81],
        &[6561],
        &[43046721],
        &[3793632897, 431439],
        &[2038349057, 2033330060, 1456779151, 43],
        &[2324068865, 2151814273, 4219200356, 3831009148, 1515007727, 1223069914, 1878],
        &[
            120648705, 3524288303, 123305297, 1973552606, 1582677123, 4275192449, 223346561,
            3350064824, 1500483036, 1257605964, 1367913622, 2878850248, 3527953,
        ],
        &[
            1995565057, 493227282, 1124501772, 1987702555, 1293151165, 901580639, 3173678675,
            2491643407, 2858789928, 4190666723, 3234280160, 1552091534, 1098766192, 535263123,
            671427889, 2428827667, 442154954, 3812608783, 2997209821, 882392610, 726842283,
            3784254415, 1868908668, 1167284160, 3936843162, 2897,
        ],
    ];
    proof {
        assert(spec_limbs_value(table@[0]@, 0) == spec_pow3(0)) by {
            reveal_with_fuel(spec_limbs_value, 2);
        }
        assert(spec_limbs_value(table@[1]@, 0) == spec_pow3(1)) by {
            reveal_with_fuel(spec_limbs_value, 2);
        }
        assert(spec_limbs_value(table@[2]@, 0) == spec_pow3(2)) by {
            reveal_with_fuel(spec_limbs_value, 2);
        }
        assert(spec_limbs_value(table@[3]@, 0) == spec_pow3(3)) by {
            reveal_with_fuel(spec_limbs_value, 2);
        }
        assert(spec_limbs_value(table@[4]@, 0) == spec_pow3(4)) by {
            reveal_with_fuel(spec_limbs_value, 2);
        }
        assert(spec_limbs_value(table@[5]@, 0) == spec_pow3(5)) by {
            reveal_with_fuel(spec_limbs_value, 3);
        }
        assert(spec_limbs_value(table@[6]@, 0) == spec_pow3(6)) by {
            reveal_with_fuel(spec_limbs_value, 5);
        }
        assert(spec_limbs_value(table@[7]@, 0) == spec_pow3(7)) by {
            reveal_with_fuel(spec_limbs_value, 8);
        }
        assert(spec_limbs_value(table@[8]@, 0) == spec_pow3(8)) by {
            reveal_with_fuel(spec_limbs_value, 14);
        }
        assert(spec_limbs_value(table@[9]@, 0) == spec_pow3(9)) by {
            reveal_with_fuel(spec_limbs_value, 27);
        }
        assert forall|i: int| 0 <= i < 10 implies spec_limbs_value((#[trigger] table@[i])@, 0)
            == pow(3, pow2(i as nat)) by {
            lemma_pow3(i);
        }
    }
    table
}

/// The value of `5^(2^i)` for each `i` below 9.
pub open spec fn spec_pow5(i: int) -> int {
    if i == 0 {
        0x5int
    } else if i == 1 {
        0x19int
    } else if i == 2 {
        0x271int
    } else if i == 3 {
        0x5_f5e1int
    } else if i == 4 {
        0x23_86f2_6fc1int
    } else if i == 5 {
        0x4ee_2d6d_415b_85ac_ef81int
    } else if i == 6 {
        0x18_4f03_e93f_f9f4_daa7_97ed_6e38_ed64_bf6a_1f01int
    } else if i == 7 {
        0x24e_e91f_2603_a633_7f19_bccd_b0da_c404_dc08_d3cf_f5ec_2374_e42f_0f15_38fd_03df_9909_2e95_3e01int
    } else {
        0x5_53f7_5fdc_efce_f46e_eddc_80dc_c7f7_55bc_28f2_65f9_ef17_cc55_73c0_63ff_540e_3c42_d35a_1d15_3624_adc6_66b0_26b2_716e_d595_d80f_cf4a_6e70_6bde_50c6_1215_2f87_d8d9_9f72_bed3_875b_982e_7c01int
    }
}

/// `spec_pow5` holds the powers `5^(2^i)`: each is the square of the one before.
pub proof fn lemma_pow5(i: int)
    requires
        0 <= i < 9,
    ensures
        spec_pow5(i) == pow(5, pow2(i as nat)),
    decreases i,
{
    if i == 0 {
        lemma_pow1(5);
        lemma2_to64();
    } else {
        lemma_pow5(i - 1);
        lemma_square(5, (i - 1) as nat);
        assert(spec_pow5(i) == spec_pow5(i - 1) * spec_pow5(i - 1));
    }
}

/// The last power of 5 in its table is the last that is at most `2^1075`.
pub proof fn lemma_pow5_is_last()
    ensures
        pow(5, pow2(8)) <= pow2(1075) < pow(5, pow2(9)),
{
    lemma_pow5(8);
    lemma_square(5, 8);
    lemma_pow2_1075();
    let last = spec_pow5(8);
    assert(last <= pow2(1075));
    assert(pow2(1075) < last * last);
}

/// The powers `5^(2^i)` that fit in 1075 bits, each as limbs.
#[verifier::rlimit(100)]
fn pow5() -> (table: &'static [&'static [u32]])
    ensures
        spec_is_power_table(table@, 5, 9),
{
    let table: &'static [&'static [u32]] = &[
        &[5],
        &[25],
        &[625],
        &[390625],
        &[2264035265, 35],
        &[2242703233, 762134875, 1262],
        &[3211403009, 1849224548, 3668416493, 3913284084, 1593091],
        &[
            781532673, 64985353, 253049085, 594863151, 3553621484, 3288652808, 3167596762,
            2788392729, 3911132675, 590,
        ],
        &[
            2553183233, 3201533787, 3638140786, 303378311, 1809731782, 3477761648, 3583367183,
            649228654, 2915460784, 487929380, 1011012442, 1677677582, 3428152256, 1710878487,
            1438394610, 2161952759, 4100910556, 1608314830, 349175,
        ],
    ];
    proof {
        assert(spec_limbs_value(table@[0]@, 0) == spec_pow5(0)) by {
            reveal_with_fuel(spec_limbs_value, 2);
        }
        assert(spec_limbs_value(table@[1]@, 0) == spec_pow5(1)) by {
            reveal_with_fuel(spec_limbs_value, 2);
        }
        assert(spec_limbs_value(table@[2]@, 0) == spec_pow5(2)) by {
            reveal_with_fuel(spec_limbs_value, 2);
        }
        assert(spec_limbs_value(table@[3]@, 0) == spec_pow5(3)) by {
            reveal_with_fuel(spec_limbs_value, 2);
        }
        assert(spec_limbs_value(table@[4]@, 0) == spec_pow5(4)) by {
            reveal_with_fuel(spec_limbs_value, 3);
        }
        assert(spec_limbs_value(table@[5]@, 0) == spec_pow5(5)) by {
            reveal_with_fuel(spec_limbs_value, 4);
        }
        assert(spec_limbs_value(table@[6]@, 0) == spec_pow5(6)) by {
            reveal_with_fuel(spec_limbs_value, 6);
        }
        assert(spec_limbs_value(table@[7]@, 0) == spec_pow5(7)) by {
            reveal_with_fuel(spec_limbs_value, 11);
        }
        assert(spec_limbs_value(table@[8]@, 0) == spec_pow5(8)) by {
            reveal_with_fuel(spec_limbs_value, 20);
        }
        assert forall|i: int| 0 <= i < 9 implies spec_limbs_value((#[trigger] table@[i])@, 0)
            == pow(5, pow2(i as nat)) by {
            lemma_pow5(i);
        }
    }
    table
}

/// The value of `7^(2^i)` for each `i` below 9.
pub open spec fn spec_pow7(i: int) -> int {
    if i == 0 {
        0x7int
    } else if i == 1 {
        0x31int
    } else if i == 2 {
        0x961int
    } else if i == 3 {
        0x57_f6c1int
    } else if i == 4 {
        0x1e39_a505_7d81int
    } else if i == 5 {
        0x391_8fa8_303c_3358_6e91_3b01int
    } else if i == 6 {
        0xc_bc21_fe45_61c8_d63b_78e7_80e1_341e_1994_17c8_c0bb_7601int
    } else if i == 7 {
        0xa2_2d71_c87a_9ce4_06da_4f58_95f9_f3cc_3d60_3192_baf6_c8a2_b5c3_2649_d046_5bf1_88fe_799b_3618_085e_49d7_1bda_ec01int
    } else {
        0x66bd_8c12_ee3c_44ff_27e1_6cef_58cb_2562_7743_6578_e5b1_54f8_eac1_94ae_92e2_5086_abe3_7bd3_5a98_c194_9db2_bddc_35a5_40bd_987c_8002_66cd_430c_356c_402f_567b_b685_1623_6971_852f_e29d_44bd_0cfa_af9c_10d5_3258_0814_e4ad_0145_d801int
    }
}

/// `spec_pow7` holds the powers `7^(2^i)`: each is the square of the one before.
pub proof fn lemma_pow7(i: int)
    requires
        0 <= i < 9,
    ensures
        spec_pow7(i) == pow(7, pow2(i as nat)),
    decreases i,
{
    if i == 0 {
        lemma_pow1(7);
        lemma2_to64();
    } else {
        lemma_pow7(i - 1);
        lemma_square(7, (i - 1) as nat);
        assert(spec_pow7(i) == spec_pow7(i - 1) * spec_pow7(i - 1));
    }
}

/// The last power of 7 in its table is the last that is at most `2^1075`.
pub proof fn lemma_pow7_is_last()
    ensures
        pow(7, pow2(8)) <= pow2(1075) < pow(7, pow2(9)),
{
    lemma_pow7(8);
    lemma_square(7, 8);
    lemma_pow2_1075();
    let last = spec_pow7(8);
    assert(last <= pow2(1075));
    assert(pow2(1075) < last * last);
}

/// The powers `7^(2^i)` that fit in 1075 bits, each as limbs.
#[verifier::rlimit(100)]
fn pow7() -> (table: &'static [&'static [u32]])
    ensures
        spec_is_power_table(table@, 7, 9),
{
    let table: &'static [&'static [u32]] = &[
        &[7],
        &[49],
        &[2401],
        &[5764801],
        &[2768600449, 7737],
        &[1855011585, 809251672, 59871144],
        &[3233510913, 429135816, 2162242590, 3594221799, 4265959880, 834593],
        &[
            467332097, 140397015, 2040215064, 1542555902, 642371654, 3366106563, 831699702,
            4090248544, 1331205625, 2632189658, 762431610, 162,
        ],
        &[
            21354497, 135586989, 282407512, 217755548, 3801957565, 1769047343, 3062175267,
            1076844155, 1124873580, 2147641037, 1086167164, 3185325477, 3247742386, 2077448856,
            1351003107, 2494468834, 1425599169, 1702421937, 627210051, 1827625163, 1157572577,
            2350050876, 26301,
        ],
    ];
    proof {
        assert(spec_limbs_value(table@[0]@, 0) == spec_pow7(0)) by {
            reveal_with_fuel(spec_limbs_value, 2);
        }
        assert(spec_limbs_value(table@[1]@, 0) == spec_pow7(1)) by {
            reveal_with_fuel(spec_limbs_value, 2);
        }
        assert(spec_limbs_value(table@[2]@, 0) == spec_pow7(2)) by {
            reveal_with_fuel(spec_limbs_value, 2);
        }
        assert(spec_limbs_value(table@[3]@, 0) == spec_pow7(3)) by {
            reveal_with_fuel(spec_limbs_value, 2);
        }
        assert(spec_limbs_value(table@[4]@, 0) == spec_pow7(4)) by {
            reveal_with_fuel(spec_limbs_value, 3);
        }
        assert(spec_limbs_value(table@[5]@, 0) == spec_pow7(5)) by {
            reveal_with_fuel(spec_limbs_value, 4);
        }
        assert(spec_limbs_value(table@[6]@, 0) == spec_pow7(6)) by {
            reveal_with_fuel(spec_limbs_value, 7);
        }
        assert(spec_limbs_value(table@[7]@, 0) == spec_pow7(7)) by {
            reveal_with_fuel(spec_limbs_value, 13);
        }
        assert(spec_limbs_value(table@[8]@, 0) == spec_pow7(8)) by {
            reveal_with_fuel(spec_limbs_value, 24);
        }
        assert forall|i: int| 0 <= i < 9 implies spec_limbs_value((#[trigger] table@[i])@, 0)
            == pow(7, pow2(i as nat)) by {
            lemma_pow7(i);
        }
    }
    table
}

/// The value of `11^(2^i)` for each `i` below 9.
pub open spec fn spec_pow11(i: int) -> int {
    if i == 0 {
        0xbint
    } else if i == 1 {
        0x79int
    } else if i == 2 {
        0x3931int
    } else if i == 3 {
        0xcc6_db61int
    } else if i == 4 {
        0xa3_3f09_2e0b_1ac1int
    } else if i == 5 {
        0x6819_5536_2721_ce00_ddaa_ab61_c581int
    } else if i == 6 {
        0x2a54_97bd_c0bc_1d6b_eb50_c360_c8e9_2890_618f_b0cc_7b96_cc85_9a21_cb01int
    } else if i == 7 {
        0x6ff_ddbe_31b5_9b1e_c99c_646b_d009_68bc_b27c_d87d_fe70_89b3_dfc5_fa23_b95a_ff53_d646_d308_f507_22a7_568e_68f0_5c2d_35a4_3a9f_33bd_2b3c_9601int
    } else {
        0x30_fe20_6b4d_7a31_d9d5_6a46_e6c5_5a4f_1437_86f4_07b3_04a1_01a0_12d3_1384_5355_5a0e_fb51_6ddc_2b10_aeff_3bd8_3b6c_0fa8_82a5_cefb_1ca5_cb0c_a8f8_a288_b1f4_5556_2294_d660_9120_0470_1a91_34d6_3e8a_ca8b_9679_f7e3_efd1_9c01_8147_a442_5381_cde8_9cfd_f5b6_f71e_af85_cbc5_4c34_fe5d_2c01int
    }
}

/// `spec_pow11` holds the powers `11^(2^i)`: each is the square of the one before.
pub proof fn lemma_pow11(i: int)
    requires
        0 <= i < 9,
    ensures
        spec_pow11(i) == pow(11, pow2(i as nat)),
    decreases i,
{
    if i == 0 {
        lemma_pow1(11);
        lemma2_to64();
    } else {
        lemma_pow11(i - 1);
        lemma_square(11, (i - 1) as nat);
        assert(spec_pow11(i) == spec_pow11(i - 1) * spec_pow11(i - 1));
    }
}

/// The last power of 11 in its table is the last that is at most `2^1075`.
pub proof fn lemma_pow11_is_last()
    ensures
        pow(11, pow2(8)) <= pow2(1075) < pow(11, pow2(9)),
{
    lemma_pow11(8);
    lemma_square(11, 8);
    lemma_pow2_1075();
    let last = spec_pow11(8);
    assert(last <= pow2(1075));
    assert(pow2(1075) < last * last);
}

/// The powers `11^(2^i)` that fit in 1075 bits, each as limbs.
#[verifier::rlimit(100)]
fn pow11() -> (table: &'static [&'static [u32]])
    ensures
        spec_is_power_table(table@, 11, 9),
{
    let table: &'static [&'static [u32]] = &[
        &[11],
        &[121],
        &[14641],
        &[214358881],
        &[772479681, 10698505],
        &[2875311489, 3456163242, 1429612321, 26649],
        &[2585905921, 2073480325, 1636806860, 3370723472, 3947938656, 3233553771, 710186941],
        &[
            725390849, 983511997, 1546466724, 1452173552, 4110885543, 3594965768, 3109748563,
            3754293795, 4268788147, 2994526333, 3490277564, 3382469739, 833985310, 117431742,
        ],
        &[
            4267518977, 3418704948, 4145983365, 2633889206, 1401015784, 2168955970, 4023491585,
            2524575715, 1049283211, 445723862, 2434794608, 580179552, 2985579862, 2834866824,
            480627468, 2191904507, 996937640, 2935962584, 1843145488, 1510931281, 327439189,
            27267795, 129172641, 339183348, 3871693391, 3654642246, 1800239665, 3210784,
        ],
    ];
    proof {
        assert(spec_limbs_value(table@[0]@, 0) == spec_pow11(0)) by {
            reveal_with_fuel(spec_limbs_value, 2);
        }
        assert(spec_limbs_value(table@[1]@, 0) == spec_pow11(1)) by {
            reveal_with_fuel(spec_limbs_value, 2);
        }
        assert(spec_limbs_value(table@[2]@, 0) == spec_pow11(2)) by {
            reveal_with_fuel(spec_limbs_value, 2);
        }
        assert(spec_limbs_value(table@[3]@, 0) == spec_pow11(3)) by {
            reveal_with_fuel(spec_limbs_value, 2);
        }
        assert(spec_limbs_value(table@[4]@, 0) == spec_pow11(4)) by {
            reveal_with_fuel(spec_limbs_value, 3);
        }
        assert(spec_limbs_value(table@[5]@, 0) == spec_pow11(5)) by {
            reveal_with_fuel(spec_limbs_value, 5);
        }
        assert(spec_limbs_value(table@[6]@, 0) == spec_pow11(6)) by {
            reveal_with_fuel(spec_limbs_value, 8);
        }
        assert(spec_limbs_value(table@[7]@, 0) == spec_pow11(7)) by {
            reveal_with_fuel(spec_limbs_value, 15);
        }
        assert(spec_limbs_value(table@[8]@, 0) == spec_pow11(8)) by {
            reveal_with_fuel(spec_limbs_value, 29);
        }
        assert forall|i: int| 0 <= i < 9 implies spec_limbs_value((#[trigger] table@[i])@, 0)
            == pow(11, pow2(i as nat)) by {
            lemma_pow11(i);
        }
    }
    table
}

/// The value of `13^(2^i)` for each `i` below 9.
pub open spec fn spec_pow13(i: int) -> int {
    if i == 0 {
        0xdint
    } else if i == 1 {
        0xa9int
    } else if i == 2 {
        0x6f91int
    } else if i == 3 {
        0x309f_1021int
    } else if i == 4 {
        0x93c_08e1_6a02_2441int
    } else if i == 5 {
        0x55_46b4_036c_b4a9_3665_904c_6a26_5881int
    } else if i == 6 {
        0x1c68_0711_36a4_3c14_718a_c205_de64_3f86_732b_3058_4024_9823_73a1_38e4_f101int
    } else if i == 7 {
        0x326_ebd1_8222_44ba_9235_66d1_40a6_50c8_178c_e6b9_081d_4252_dcd6_79e0_67c6_1a05_5453_89d6_841c_3d67_b1c0_2962_6adc_141e_cf73_f3b9_6368_ff70_9caa_e201int
    } else {
        0x9_ef71_c479_c029_6f1a_3bb8_0419_dde2_90cb_2a3d_5c1e_75d9_b7ff_d905_219c_e665_4594_ab38_1e6d_9cfd_e065_df1e_12a6_9f7e_45fa_0f19_49e9_4526_98c9_2d3d_9b9f_af6e_fcbe_f781_8db8_dde2_b728_c7e5_da13_e345_8ae4_e684_1e39_8a99_5010_a2ea_1762_5526_6b87_e7b3_c1e6_30e8_76e9_9611_267b_8abc_4a74_7462_28d9_c401int
    }
}

/// `spec_pow13` holds the powers `13^(2^i)`: each is the square of the one before.
pub proof fn lemma_pow13(i: int)
    requires
        0 <= i < 9,
    ensures
        spec_pow13(i) == pow(13, pow2(i as nat)),
    decreases i,
{
    if i == 0 {
        lemma_pow1(13);
        lemma2_to64();
    } else {
        lemma_pow13(i - 1);
        lemma_square(13, (i - 1) as nat);
        assert(spec_pow13(i) == spec_pow13(i - 1) * spec_pow13(i - 1));
    }
}

/// The last power of 13 in its table is the last that is at most `2^1075`.
pub proof fn lemma_pow13_is_last()
    ensures
        pow(13, pow2(8)) <= pow2(1075) < pow(13, pow2(9)),
{
    lemma_pow13(8);
    lemma_square(13, 8);
    lemma_pow2_1075();
    let last = spec_pow13(8);
    assert(last <= pow2(1075));
    assert(pow2(1075) < last * last);
}

/// The powers `13^(2^i)` that fit in 1075 bits, each as limbs.
#[verifier::rlimit(100)]
fn pow13() -> (table: &'static [&'static [u32]])
    ensures
        spec_is_power_table(table@, 13, 9),
{
    let table: &'static [&'static [u32]] = &[
        &[13],
        &[169],
        &[28561],
        &[815730721],
        &[1778525249, 154929377],
        &[1780897921, 912625740, 57455785, 5588660],
        &[954528001, 2552460193, 811089956, 1065775915, 3255164516, 1007972746, 118568612, 7272],
        &[
            2628444673, 1667825520, 3480482745, 1792807966, 2982160738, 2216443239, 1414760918,
            1741036037, 3705043424, 136135250, 395110073, 1084641480, 2452973265, 2183283898,
            52882385,
        ],
        &[
            685360129, 1249145954, 645630652, 1995019793, 3253088488, 1804068787, 392320294,
            1343267562, 507087513, 2330257028, 3658736453, 3072903141, 2377702882, 4240373633,
            2610933614, 2563321149, 1240024358, 1174015769, 312909694, 3764772638, 510500093,
            1167371064, 563930725, 3086997765, 1545500121, 2429233725, 68804066, 1863990200,
            3296313385, 651121,
        ],
    ];
    proof {
        assert(spec_limbs_value(table@[0]@, 0) == spec_pow13(0)) by {
            reveal_with_fuel(spec_limbs_value, 2);
        }
        assert(spec_limbs_value(table@[1]@, 0) == spec_pow13(1)) by {
            reveal_with_fuel(spec_limbs_value, 2);
        }
        assert(spec_limbs_value(table@[2]@, 0) == spec_pow13(2)) by {
            reveal_with_fuel(spec_limbs_value, 2);
        }
        assert(spec_limbs_value(table@[3]@, 0) == spec_pow13(3)) by {
            reveal_with_fuel(spec_limbs_value, 2);
        }
        assert(spec_limbs_value(table@[4]@, 0) == spec_pow13(4)) by {
            reveal_with_fuel(spec_limbs_value, 3);
        }
        assert(spec_limbs_value(table@[5]@, 0) == spec_pow13(5)) by {
            reveal_with_fuel(spec_limbs_value, 5);
        }
        assert(spec_limbs_value(table@[6]@, 0) == spec_pow13(6)) by {
            reveal_with_fuel(spec_limbs_value, 9);
        }
        assert(spec_limbs_value(table@[7]@, 0) == spec_pow13(7)) by {
            reveal_with_fuel(spec_limbs_value, 16);
        }
        assert(spec_limbs_value(table@[8]@, 0) == spec_pow13(8)) by {
            reveal_with_fuel(spec_limbs_value, 31);
        }
        assert forall|i: int| 0 <= i < 9 implies spec_limbs_value((#[trigger] table@[i])@, 0)
            == pow(13, pow2(i as nat)) by {
            lemma_pow13(i);
        }
    }
    table
}

/// The value of `17^(2^i)` for each `i` below 9.
pub open spec fn spec_pow17(i: int) -> int {
    if i == 0 {
        0x11int
    } else if i == 1 {
        0x121int
    } else if i == 2 {
        0x1_4641int
    } else if i == 3 {
        0x1_9fc9_9c81int
    } else if i == 4 {
        0x2_a34f_4831_603f_7901int
    } else if i == 5 {
        0x6_f56b_2f42_0463_eef1_a52a_8cdf_87af_f201int
    } else if i == 6 {
        0x30_6c4c_8c6d_1aff_74da_f779_5368_fd91_87ee_3c28_55fc_7fcc_1528_cf77_bfe7_d023_e401int
    } else if i == 7 {
        0x928_ca85_5649_dc62_e86a_5882_7993_1f3d_0365_3e0f_9674_dc48_a092_0790_c461_ff92_36c3_d96a_3f41_3e0a_d430_9ca7_c9dd_f42d_ce5a_5163_c258_2a30_b0e6_6f27_4f57_c357_c801int
    } else {
        0x53_e4bd_49f2_da33_28e0_e664_09ca_5b66_3e1e_0d1a_7300_5c2a_7a84_f8eb_944d_587e_b6c5_156a_572f_38ca_c585_c98d_8023_97df_2bfc_b12e_7209_0d5c_f3cd_cbcc_e747_0328_372c_1968_f90e_d36f_1c5a_e969_05f5_1ebb_d1d4_09a9_9931_24fa_8d1c_2ccb_ad43_a2f9_7c4d_8c00_6fa7_a12a_098d_bed3_5c99_a8be_2bda_ac99_2f41_6e5e_69d7_aea2_5677_6779_12ef_9001int
    }
}

/// `spec_pow17` holds the powers `17^(2^i)`: each is the square of the one before.
pub proof fn lemma_pow17(i: int)
    requires
        0 <= i < 9,
    ensures
        spec_pow17(i) == pow(17, pow2(i as nat)),
    decreases i,
{
    if i == 0 {
        lemma_pow1(17);
        lemma2_to64();
    } else {
        lemma_pow17(i - 1);
        lemma_square(17, (i - 1) as nat);
        assert(spec_pow17(i) == spec_pow17(i - 1) * spec_pow17(i - 1));
    }
}

/// The last power of 17 in its table is the last that is at most `2^1075`.
pub proof fn lemma_pow17_is_last()
    ensures
        pow(17, pow2(8)) <= pow2(1075) < pow(17, pow2(9)),
{
    lemma_pow17(8);
    lemma_square(17, 8);
    lemma_pow2_1075();
    let last = spec_pow17(8);
    assert(last <= pow2(1075));
    assert(pow2(1075) < last * last);
}

/// The powers `17^(2^i)` that fit in 1075 bits, each as limbs.
#[verifier::rlimit(100)]
fn pow17() -> (table: &'static [&'static [u32]])
    ensures
        spec_is_power_table(table@, 17, 9),
{
    let table: &'static [&'static [u32]] = &[
        &[17],
        &[289],
        &[83521],
        &[2680790145, 1],
        &[1614772481, 2739882033, 2],
        &[2276454913, 2771029215, 73658097, 4117442370, 6],
        &[
            3492013057, 3480731623, 2144081192, 1009276412, 4254173166, 4151923560, 452949210,
            1816956013, 48,
        ],
        &[
            3277309953, 1864847191, 707834086, 1365492312, 4096642650, 2628241885, 1040897072,
            3647618881, 4287772355, 126927969, 3695747218, 1041208948, 524092261, 1484945811,
            3697469546, 3397736009, 2344,
        ],
        &[
            317689857, 1450665849, 1775742626, 792817246, 735751321, 1553574078, 160284371,
            1873256746, 2085456896, 2906891001, 2367433931, 2570134778, 3520334249, 99950267,
            475720041, 4178498415, 925636968, 3880190760, 4090350540, 1913195868, 737980718,
            2149816287, 3313879437, 1462712522, 3066369386, 2488096894, 2055534827, 1929403434,
            1042156826, 164256614, 685827684, 1240652339, 5498045,
        ],
    ];
    proof {
        assert(spec_limbs_value(table@[0]@, 0) == spec_pow17(0)) by {
            reveal_with_fuel(spec_limbs_value, 2);
        }
        assert(spec_limbs_value(table@[1]@, 0) == spec_pow17(1)) by {
            reveal_with_fuel(spec_limbs_value, 2);
        }
        assert(spec_limbs_value(table@[2]@, 0) == spec_pow17(2)) by {
            reveal_with_fuel(spec_limbs_value, 2);
        }
        assert(spec_limbs_value(table@[3]@, 0) == spec_pow17(3)) by {
            reveal_with_fuel(spec_limbs_value, 3);
        }
        assert(spec_limbs_value(table@[4]@, 0) == spec_pow17(4)) by {
            reveal_with_fuel(spec_limbs_value, 4);
        }
        assert(spec_limbs_value(table@[5]@, 0) == spec_pow17(5)) by {
            reveal_with_fuel(spec_limbs_value, 6);
        }
        assert(spec_limbs_value(table@[6]@, 0) == spec_pow17(6)) by {
            reveal_with_fuel(spec_limbs_value, 10);
        }
        assert(spec_limbs_value(table@[7]@, 0) == spec_pow17(7)) by {
            reveal_with_fuel(spec_limbs_value, 18);
        }
        assert(spec_limbs_value(table@[8]@, 0) == spec_pow17(8)) by {
            reveal_with_fuel(spec_limbs_value, 34);
        }
        assert forall|i: int| 0 <= i < 9 implies spec_limbs_value((#[trigger] table@[i])@, 0)
            == pow(17, pow2(i as nat)) by {
            lemma_pow17(i);
        }
    }
    table
}

/// The value of `19^(2^i)` for each `i` below 8.
pub open spec fn spec_pow19(i: int) -> int {
    if i == 0 {
        0x13int
    } else if i == 1 {
        0x169int
    } else if i == 2 {
        0x1_fd11int
    } else if i == 3 {
        0x3_f44c_9b21int
    } else if i == 4 {
        0xf_a2ed_c169_6198_fa41int
    } else if i == 5 {
        0xf4_7f8e_6ff2_7eb1_b621_7e62_9461_63d3_0481int
    } else if i == 6 {
        0xe983_6714_0894_7e70_3f46_1719_abce_4ab1_21a1_c1b2_0f30_cc05_7bb9_38cf_752e_32ba_4901int
    } else {
        0xd500_7515_1fa0_369a_8f4a_0a46_1cbd_d756_74f7_ac35_e2a5_bfa0_4619_1dc5_daed_a456_63c9_d923_23f4_efa6_f764_b5cb_c046_9f32_da59_3b1e_9981_8ae7_b1f9_4559_0b58_726e_8e45_9201int
    }
}

/// `spec_pow19` holds the powers `19^(2^i)`: each is the square of the one before.
pub proof fn lemma_pow19(i: int)
    requires
        0 <= i < 8,
    ensures
        spec_pow19(i) == pow(19, pow2(i as nat)),
    decreases i,
{
    if i == 0 {
        lemma_pow1(19);
        lemma2_to64();
    } else {
        lemma_pow19(i - 1);
        lemma_square(19, (i - 1) as nat);
        assert(spec_pow19(i) == spec_pow19(i - 1) * spec_pow19(i - 1));
    }
}

/// The last power of 19 in its table is the last that is at most `2^1075`.
pub proof fn lemma_pow19_is_last()
    ensures
        pow(19, pow2(7)) <= pow2(1075) < pow(19, pow2(8)),
{
    lemma_pow19(7);
    lemma_square(19, 7);
    lemma_pow2_1075();
    let last = spec_pow19(7);
    assert(last <= pow2(1075));
    assert(pow2(1075) < last * last);
}

/// The powers `19^(2^i)` that fit in 1075 bits, each as limbs.
#[verifier::rlimit(100)]
fn pow19() -> (table: &'static [&'static [u32]])
    ensures
        spec_is_power_table(table@, 19, 8),
{
    let table: &'static [&'static [u32]] = &[
        &[19],
        &[361],
        &[130321],
        &[4098661153, 3],
        &[1637415489, 2733490537, 15],
        &[1674773633, 2120389729, 2125575713, 2140041202, 244],
        &[
            851069185, 953120046, 3422911417, 3249671984, 1253122465, 387558350, 2121285446,
            1729366164, 59779,
        ],
        &[
            2386924033, 190345838, 2985903449, 2575403751, 3663280926, 3225853746, 4150572491,
            603254694, 1674172707, 3673007190, 1176051141, 3802513312, 1962388533, 482203478,
            2403994182, 530593434, 3573576981,
        ],
    ];
    proof {
        assert(spec_limbs_value(table@[0]@, 0) == spec_pow19(0)) by {
            reveal_with_fuel(spec_limbs_value, 2);
        }
        assert(spec_limbs_value(table@[1]@, 0) == spec_pow19(1)) by {
            reveal_with_fuel(spec_limbs_value, 2);
        }
        assert(spec_limbs_value(table@[2]@, 0) == spec_pow19(2)) by {
            reveal_with_fuel(spec_limbs_value, 2);
        }
        assert(spec_limbs_value(table@[3]@, 0) == spec_pow19(3)) by {
            reveal_with_fuel(spec_limbs_value, 3);
        }
        assert(spec_limbs_value(table@[4]@, 0) == spec_pow19(4)) by {
            reveal_with_fuel(spec_limbs_value, 4);
        }
        assert(spec_limbs_value(table@[5]@, 0) == spec_pow19(5)) by {
            reveal_with_fuel(spec_limbs_value, 6);
        }
        assert(spec_limbs_value(table@[6]@, 0) == spec_pow19(6)) by {
            reveal_with_fuel(spec_limbs_value, 10);
        }
        assert(spec_limbs_value(table@[7]@, 0) == spec_pow19(7)) by {
            reveal_with_fuel(spec_limbs_value, 18);
        }
        assert forall|i: int| 0 <= i < 8 implies spec_limbs_value((#[trigger] table@[i])@, 0)
            == pow(19, pow2(i as nat)) by {
            lemma_pow19(i);
        }
    }
    table
}

/// The value of `23^(2^i)` for each `i` below 8.
pub open spec fn spec_pow23(i: int) -> int {
    if i == 0 {
        0x17int
    } else if i == 1 {
        0x211int
    } else if i == 2 {
        0x4_4521int
    } else if i == 3 {
        0x12_3bb2_ce41int
    } else if i == 4 {
        0x14c_7310_e919_6e90_ac81int
    } else if i == 5 {
        0x1_afba_a794_cc81_9802_8973_9825_2933_615d_9901int
    } else if i == 6 {
        0x2_d816_085e_fa89_0377_9c0c_d468_8cc5_0b75_9509_3ccc_fdaa_9edb_2ef9_5325_559f_5891_482c_3201int
    } else {
        0x8_16bd_5181_a184_662a_621d_b3f8_dc25_82c0_b425_0059_ca8b_1af2_7e11_f097_d371_e3d4_a3d9_42ab_0b07_ee81_2d0f_228e_8dc7_2595_b497_2290_a9e9_4b8e_1d5a_1472_c42e_4e76_0008_38e3_ca1c_6401int
    }
}

/// `spec_pow23` holds the powers `23^(2^i)`: each is the square of the one before.
pub proof fn lemma_pow23(i: int)
    requires
        0 <= i < 8,
    ensures
        spec_pow23(i) == pow(23, pow2(i as nat)),
    decreases i,
{
    if i == 0 {
        lemma_pow1(23);
        lemma2_to64();
    } else {
        lemma_pow23(i - 1);
        lemma_square(23, (i - 1) as nat);
        assert(spec_pow23(i) == spec_pow23(i - 1) * spec_pow23(i - 1));
    }
}

/// The last power of 23 in its table is the last that is at most `2^1075`.
pub proof fn lemma_pow23_is_last()
    ensures
        pow(23, pow2(7)) <= pow2(1075) < pow(23, pow2(8)),
{
    lemma_pow23(7);
    lemma_square(23, 7);
    lemma_pow2_1075();
    let last = spec_pow23(7);
    assert(last <= pow2(1075));
    assert(pow2(1075) < last * last);
}

/// The powers `23^(2^i)` that fit in 1075 bits, each as limbs.
#[verifier::rlimit(100)]
fn pow23() -> (table: &'static [&'static [u32]])
    ensures
        spec_is_power_table(table@, 23, 8),
{
    let table: &'static [&'static [u32]] = &[
        &[23],
        &[529],
        &[279841],
        &[1001573953, 18],
        &[1854975105, 1930488089, 332],
        &[1633523969, 2552572211, 2550303091, 2811546753, 110522],
        &[
            1210855937, 1436506257, 788091685, 4255817435, 2500410572, 2361723765, 2618086504,
            4203283319, 3625322590, 2,
        ],
        &[
            3390858241, 538851, 3291369078, 492442738, 2850638734, 3029803664, 2378638741,
            755966606, 185069185, 2748924587, 3547456468, 2115104919, 3398114034, 3022323801,
            3693445824, 1646113784, 2709808682, 381505921, 8,
        ],
    ];
    proof {
        assert(spec_limbs_value(table@[0]@, 0) == spec_pow23(0)) by {
            reveal_with_fuel(spec_limbs_value, 2);
        }
        assert(spec_limbs_value(table@[1]@, 0) == spec_pow23(1)) by {
            reveal_with_fuel(spec_limbs_value, 2);
        }
        assert(spec_limbs_value(table@[2]@, 0) == spec_pow23(2)) by {
            reveal_with_fuel(spec_limbs_value, 2);
        }
        assert(spec_limbs_value(table@[3]@, 0) == spec_pow23(3)) by {
            reveal_with_fuel(spec_limbs_value, 3);
        }
        assert(spec_limbs_value(table@[4]@, 0) == spec_pow23(4)) by {
            reveal_with_fuel(spec_limbs_value, 4);
        }
        assert(spec_limbs_value(table@[5]@, 0) == spec_pow23(5)) by {
            reveal_with_fuel(spec_limbs_value, 6);
        }
        assert(spec_limbs_value(table@[6]@, 0) == spec_pow23(6)) by {
            reveal_with_fuel(spec_limbs_value, 11);
        }
        assert(spec_limbs_value(table@[7]@, 0) == spec_pow23(7)) by {
            reveal_with_fuel(spec_limbs_value, 20);
        }
        assert forall|i: int| 0 <= i < 8 implies spec_limbs_value((#[trigger] table@[i])@, 0)
            == pow(23, pow2(i as nat)) by {
            lemma_pow23(i);
        }
    }
    table
}

/// The value of `29^(2^i)` for each `i` below 8.
pub open spec fn spec_pow29(i: int) -> int {
    if i == 0 {
        0x1dint
    } else if i == 1 {
        0x349int
    } else if i == 2 {
        0xa_cad1int
    } else if i == 3 {
        0x74_7902_7ea1int
    } else if i == 4 {
        0x34fd_e376_1da2_6b26_e141int
    } else if i == 5 {
        0xaf8_2033_5d9b_3d9c_f58b_911d_8703_5677_fb7f_5281int
    } else if i == 6 {
        0x78_5302_6ae2_5f4c_e0c6_9893_e6f1_f86f_67ae_f4db_6956_3516_064a_deb9_67a9_d66f_4fe6_4b09_ec94_e501int
    } else {
        0x388d_ed2e_c58d_fa08_503b_660e_47d2_ec39_fa41_6fb3_a816_63ae_768f_64af_0dcc_34a6_c4ee_aa8b_4885_de2c_6244_c012_eb89_192e_154c_09c0_c451_197d_e49c_21c8_4a13_1488_7fee_4d26_14c1_d715_8ce5_6e02_ca01int
    }
}

/// `spec_pow29` holds the powers `29^(2^i)`: each is the square of the one before.
pub proof fn lemma_pow29(i: int)
    requires
        0 <= i < 8,
    ensures
        spec_pow29(i) == pow(29, pow2(i as nat)),
    decreases i,
{
    if i == 0 {
        lemma_pow1(29);
        lemma2_to64();
    } else {
        lemma_pow29(i - 1);
        lemma_square(29, (i - 1) as nat);
        assert(spec_pow29(i) == spec_pow29(i - 1) * spec_pow29(i - 1));
    }
}

/// The last power of 29 in its table is the last that is at most `2^1075`.
pub proof fn lemma_pow29_is_last()
    ensures
        pow(29, pow2(7)) <= pow2(1075) < pow(29, pow2(8)),
{
    lemma_pow29(7);
    lemma_square(29, 7);
    lemma_pow2_1075();
    let last = spec_pow29(7);
    assert(last <= pow2(1075));
    assert(pow2(1075) < last * last);
}

/// The powers `29^(2^i)` that fit in 1075 bits, each as limbs.
#[verifier::rlimit(100)]
fn pow29() -> (table: &'static [&'static [u32]])
    ensures
        spec_is_power_table(table@, 29, 8),
{
    let table: &'static [&'static [u32]] = &[
        &[29],
        &[841],
        &[707281],
        &[2030206625, 116],
        &[1797710145, 3816168866, 13565],
        &[4219425409, 2265142903, 4119564573, 1570454940, 184033331],
        &[
            3969180929, 1340492553, 1739183727, 105569977, 1767257366, 1739519195, 3874617455,
            3771111571, 1793220428, 7885570,
        ],
        &[
            1845676545, 3608513765, 1294341313, 344489966, 566774291, 427680924, 163628113,
            422450508, 3222465417, 3727450692, 2861254789, 883344622, 1689193932, 1672377999,
            1874044950, 3963222593, 1712211922, 4194848827, 3979265421, 14477,
        ],
    ];
    proof {
        assert(spec_limbs_value(table@[0]@, 0) == spec_pow29(0)) by {
            reveal_with_fuel(spec_limbs_value, 2);
        }
        assert(spec_limbs_value(table@[1]@, 0) == spec_pow29(1)) by {
            reveal_with_fuel(spec_limbs_value, 2);
        }
        assert(spec_limbs_value(table@[2]@, 0) == spec_pow29(2)) by {
            reveal_with_fuel(spec_limbs_value, 2);
        }
        assert(spec_limbs_value(table@[3]@, 0) == spec_pow29(3)) by {
            reveal_with_fuel(spec_limbs_value, 3);
        }
        assert(spec_limbs_value(table@[4]@, 0) == spec_pow29(4)) by {
            reveal_with_fuel(spec_limbs_value, 4);
        }
        assert(spec_limbs_value(table@[5]@, 0) == spec_pow29(5)) by {
            reveal_with_fuel(spec_limbs_value, 6);
        }
        assert(spec_limbs_value(table@[6]@, 0) == spec_pow29(6)) by {
            reveal_with_fuel(spec_limbs_value, 11);
        }
        assert(spec_limbs_value(table@[7]@, 0) == spec_pow29(7)) by {
            reveal_with_fuel(spec_limbs_value, 21);
        }
        assert forall|i: int| 0 <= i < 8 implies spec_limbs_value((#[trigger] table@[i])@, 0)
            == pow(29, pow2(i as nat)) by {
            lemma_pow29(i);
        }
    }
    table
}

/// The value of `31^(2^i)` for each `i` below 8.
pub open spec fn spec_pow31(i: int) -> int {
    if i == 0 {
        0x1fint
    } else if i == 1 {
        0x3c1int
    } else if i == 2 {
        0xe_1781int
    } else if i == 3 {
        0xc6_9444_6f01int
    } else if i == 4 {
        0x9a09_afba_e830_50a9_de01int
    } else if i == 5 {
        0x5caf_a7ca_b31f_865a_521f_dfc0_32f3_abd7_7dd7_bc01int
    } else if i == 6 {
        0x218e_b920_85d9_a3dc_e6e2_27d9_5cd9_cee8_549b_8372_c943_7029_ea95_32ee_a4fc_8402_2149_8314_4dbf_7801int
    } else {
        0x466_1b4c_4876_9f47_07d0_8b61_927e_bcf4_7fb5_a43f_6c8b_31ce_4a90_5d16_65aa_f496_e6d5_c4a3_9ff8_9556_a21f_faf9_131a_19cc_d728_d7d1_006b_3862_0a42_f278_056d_6bb9_4c4a_edf7_7574_6554_e4ea_838c_e3be_f001int
    }
}

/// `spec_pow31` holds the powers `31^(2^i)`: each is the square of the one before.
pub proof fn lemma_pow31(i: int)
    requires
        0 <= i < 8,
    ensures
        spec_pow31(i) == pow(31, pow2(i as nat)),
    decreases i,
{
    if i == 0 {
        lemma_pow1(31);
        lemma2_to64();
    } else {
        lemma_pow31(i - 1);
        lemma_square(31, (i - 1) as nat);
        assert(spec_pow31(i) == spec_pow31(i - 1) * spec_pow31(i - 1));
    }
}

/// The last power of 31 in its table is the last that is at most `2^1075`.
pub proof fn lemma_pow31_is_last()
    ensures
        pow(31, pow2(7)) <= pow2(1075) < pow(31, pow2(8)),
{
    lemma_pow31(7);
    lemma_square(31, 7);
    lemma_pow2_1075();
    let last = spec_pow31(7);
    assert(last <= pow2(1075));
    assert(pow2(1075) < last * last);
}

/// The powers `31^(2^i)` that fit in 1075 bits, each as limbs.
#[verifier::rlimit(100)]
fn pow31() -> (table: &'static [&'static [u32]])
    ensures
        spec_is_power_table(table@, 31, 8),
{
    let table: &'static [&'static [u32]] = &[
        &[31],
        &[961],
        &[923521],
        &[2487512833, 198],
        &[1353309697, 2948261936, 39433],
        &[2111290369, 854830039, 1377820608, 3005187674, 1555015626],
        &[
            1304393729, 558465812, 2768012290, 3935646446, 3376640041, 1419477874, 1557778152,
            3873581017, 2245632988, 563001632,
        ],
        &[
            3820941313, 3840574348, 1970562388, 1279978999, 91057081, 172159608, 7026786,
            3609778129, 320477644, 2720004857, 2683868502, 3872769187, 1705702550, 1250974998,
            1821061582, 2142610495, 2457779444, 131107681, 1215733575, 73800524,
        ],
    ];
    proof {
        assert(spec_limbs_value(table@[0]@, 0) == spec_pow31(0)) by {
            reveal_with_fuel(spec_limbs_value, 2);
        }
        assert(spec_limbs_value(table@[1]@, 0) == spec_pow31(1)) by {
            reveal_with_fuel(spec_limbs_value, 2);
        }
        assert(spec_limbs_value(table@[2]@, 0) == spec_pow31(2)) by {
            reveal_with_fuel(spec_limbs_value, 2);
        }
        assert(spec_limbs_value(table@[3]@, 0) == spec_pow31(3)) by {
            reveal_with_fuel(spec_limbs_value, 3);
        }
        assert(spec_limbs_value(table@[4]@, 0) == spec_pow31(4)) by {
            reveal_with_fuel(spec_limbs_value, 4);
        }
        assert(spec_limbs_value(table@[5]@, 0) == spec_pow31(5)) by {
            reveal_with_fuel(spec_limbs_value, 6);
        }
        assert(spec_limbs_value(table@[6]@, 0) == spec_pow31(6)) by {
            reveal_with_fuel(spec_limbs_value, 11);
        }
        assert(spec_limbs_value(table@[7]@, 0) == spec_pow31(7)) by {
            reveal_with_fuel(spec_limbs_value, 21);
        }
        assert forall|i: int| 0 <= i < 8 implies spec_limbs_value((#[trigger] table@[i])@, 0)
            == pow(31, pow2(i as nat)) by {
            lemma_pow31(i);
        }
    }
    table
}


/// Whether `base` is an odd prime below 32: one of the bases that have a
/// table.
pub open spec fn spec_has_large_powers(base: u32) -> bool {
    base == 3 || base == 5 || base == 7 || base == 11 || base == 13 || base == 17 || base == 19
        || base == 23 || base == 29 || base == 31
}

/// How many powers `base^(2^i)` fit in 1075 bits.
pub open spec fn spec_large_power_count(base: u32) -> int {
    if base == 3 {
        10
    } else if base <= 17 {
        9
    } else {
        8
    }
}

/// The table of the powers `base^(2^i)`, for `i` from 0 on, of an odd prime
/// below 32. Entry `i` holds the limbs of `base^(2^i)`, lowest limb first,
/// and the table ends with the last power that is at most `2^1075`.
pub fn get_large_powers(base: u32) -> (table: &'static [&'static [u32]])
    requires
        spec_has_large_powers(base),
    ensures
        spec_is_power_table(table@, base as int, spec_large_power_count(base)),
        pow(base as int, pow2((spec_large_power_count(base) - 1) as nat)) <= pow2(1075) < pow(
            base as int,
            pow2(spec_large_power_count(base) as nat),
        ),
{
    proof {
        lemma_pow3_is_last();
        lemma_pow5_is_last();
        lemma_pow7_is_last();
        lemma_pow11_is_last();
        lemma_pow13_is_last();
        lemma_pow17_is_last();
        lemma_pow19_is_last();
        lemma_pow23_is_last();
        lemma_pow29_is_last();
        lemma_pow31_is_last();
    }
    if base == 3 {
        pow3()
    } else if base == 5 {
        pow5()
    } else if base == 7 {
        pow7()
    } else if base == 11 {
        pow11()
    } else if base == 13 {
        pow13()
    } else if base == 17 {
        pow17()
    } else if base == 19 {
        pow19()
    } else if base == 23 {
        pow23()
    } else if base == 29 {
        pow29()
    } else {
        pow31()
    }
}

} // verus!
