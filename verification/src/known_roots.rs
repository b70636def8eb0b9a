//! Facts about the roots of unity of the parameter sets shipped with the
//! schemes, obtained by evaluating powers by repeated squaring.

use vstd::arithmetic::div_mod::*;
use vstd::arithmetic::mul::*;
use vstd::arithmetic::power::*;
use vstd::prelude::*;

use crate::modular::{
    is_first_omega, is_omega_generator, lemma_eleven_generates_12289, omega_candidate, spec_mod_pow,
};

verus! {

/// One step of repeated squaring: from `b^(e/2) = h` to `b^e = v` modulo
/// `q`, where `h^2` (times `b` for odd `e`) is `k q + v`.
proof fn lemma_pow_step(b: int, e: nat, q: int, h: int, k: int, v: int)
    requires
        q > 0,
        e > 0,
        pow(b, e / 2) % q == h,
        h * h * (if e % 2 == 0 { 1 } else { b }) == k * q + v,
        0 <= v < q,
    ensures
        pow(b, e) % q == v,
{
    let h2 = e / 2;
    let p = pow(b, h2);
    lemma_pow_adds(b, h2, h2);
    lemma_mul_mod_noop_general(p, p, q);
    let f = if e % 2 == 0 { 1 } else { b };
    if e % 2 == 0 {
        assert(e == h2 + h2);
        lemma_mul_basics(h * h);
    } else {
        assert(e == (h2 + h2) + 1);
        lemma_pow_adds(b, h2 + h2, 1);
        lemma_pow1(b);
        lemma_mul_mod_noop_left(pow(b, h2 + h2), b, q);
        lemma_mul_mod_noop_left(h * h, b, q);
    }
    lemma_fundamental_div_mod_converse(h * h * f, q, k, v);
    lemma_mod_bound(h * h * f, q);
    lemma_mul_is_commutative(k, q);
}

/// `368299^64 = 786432` modulo `786433`.
proof fn lemma_power_368299_64_786433()
    ensures
        spec_mod_pow(368299, 64, 786433) == 786432,
{
    lemma_pow0(368299);
    lemma_pow_step(368299, 1, 786433, 1, 0, 368299);
    lemma_pow_step(368299, 2, 786433, 368299, 172480, 189561);
    lemma_pow_step(368299, 4, 786433, 189561, 45691, 462518);
    lemma_pow_step(368299, 8, 786433, 462518, 272016, 541396);
    lemma_pow_step(368299, 16, 786433, 541396, 372707, 544685);
    lemma_pow_step(368299, 32, 786433, 544685, 377249, 686408);
    lemma_pow_step(368299, 64, 786433, 686408, 599104, 786432);
}

/// `368299^786431 = 151716` modulo `786433`.
proof fn lemma_power_368299_786431_786433()
    ensures
        spec_mod_pow(368299, 786431, 786433) == 151716,
{
    lemma_pow0(368299);
    lemma_pow_step(368299, 1, 786433, 1, 0, 368299);
    lemma_pow_step(368299, 2, 786433, 368299, 172480, 189561);
    lemma_pow_step(368299, 5, 786433, 189561, 16828166213, 383350);
    lemma_pow_step(368299, 11, 786433, 383350, 68822389306, 442002);
    lemma_pow_step(368299, 23, 786433, 442002, 91492876049, 261979);
    lemma_pow_step(368299, 47, 786433, 261979, 32141916674, 540017);
    lemma_pow_step(368299, 95, 786433, 540017, 136569485863, 381732);
    lemma_pow_step(368299, 191, 786433, 381732, 68242659923, 634717);
    lemma_pow_step(368299, 383, 786433, 634717, 188668358815, 151716);
    lemma_pow_step(368299, 767, 786433, 151716, 10779573516, 151716);
    lemma_pow_step(368299, 1535, 786433, 151716, 10779573516, 151716);
    lemma_pow_step(368299, 3071, 786433, 151716, 10779573516, 151716);
    lemma_pow_step(368299, 6143, 786433, 151716, 10779573516, 151716);
    lemma_pow_step(368299, 12287, 786433, 151716, 10779573516, 151716);
    lemma_pow_step(368299, 24575, 786433, 151716, 10779573516, 151716);
    lemma_pow_step(368299, 49151, 786433, 151716, 10779573516, 151716);
    lemma_pow_step(368299, 98303, 786433, 151716, 10779573516, 151716);
    lemma_pow_step(368299, 196607, 786433, 151716, 10779573516, 151716);
    lemma_pow_step(368299, 393215, 786433, 151716, 10779573516, 151716);
    lemma_pow_step(368299, 786431, 786433, 151716, 10779573516, 151716);
}

/// `64^786431 = 774145` modulo `786433`.
proof fn lemma_power_64_786431_786433()
    ensures
        spec_mod_pow(64, 786431, 786433) == 774145,
{
    lemma_pow0(64);
    lemma_pow_step(64, 1, 786433, 1, 0, 64);
    lemma_pow_step(64, 2, 786433, 64, 0, 4096);
    lemma_pow_step(64, 5, 786433, 4096, 1365, 260779);
    lemma_pow_step(64, 11, 786433, 260779, 5534309, 728027);
    lemma_pow_step(64, 23, 786433, 728027, 43133352, 601240);
    lemma_pow_step(64, 47, 786433, 601240, 29418056, 372152);
    lemma_pow_step(64, 95, 786433, 372152, 11270909, 333059);
    lemma_pow_step(64, 191, 786433, 333059, 9027356, 377636);
    lemma_pow_step(64, 383, 786433, 377636, 11605531, 142821);
    lemma_pow_step(64, 767, 786433, 142821, 1659978, 156150);
    lemma_pow_step(64, 1535, 786433, 156150, 1984276, 512492);
    lemma_pow_step(64, 3071, 786433, 512492, 21374325, 671371);
    lemma_pow_step(64, 6143, 786433, 671371, 36681188, 534620);
    lemma_pow_step(64, 12287, 786433, 534620, 23259943, 88281);
    lemma_pow_step(64, 24575, 786433, 88281, 634238, 544450);
    lemma_pow_step(64, 49151, 786433, 544450, 24123162, 698854);
    lemma_pow_step(64, 98303, 786433, 698854, 39745792, 12288);
    lemma_pow_step(64, 196607, 786433, 12288, 12287, 774145);
    lemma_pow_step(64, 393215, 786433, 774145, 48771135, 774145);
    lemma_pow_step(64, 786431, 786433, 774145, 48771135, 774145);
}

/// `457185^1024 = 2572288` modulo `2572289`.
proof fn lemma_power_457185_1024_2572289()
    ensures
        spec_mod_pow(457185, 1024, 2572289) == 2572288,
{
    lemma_pow0(457185);
    lemma_pow_step(457185, 1, 2572289, 1, 0, 457185);
    lemma_pow_step(457185, 2, 2572289, 457185, 81257, 1636952);
    lemma_pow_step(457185, 4, 2572289, 1636952, 1041722, 1808646);
    lemma_pow_step(457185, 8, 2572289, 1808646, 1271707, 2425993);
    lemma_pow_step(457185, 16, 2572289, 2425993, 2288017, 1075136);
    lemma_pow_step(457185, 32, 2572289, 1075136, 449373, 193699);
    lemma_pow_step(457185, 64, 2572289, 193699, 14585, 2467536);
    lemma_pow_step(457185, 128, 2572289, 2467536, 2367048, 2378424);
    lemma_pow_step(457185, 256, 2572289, 2378424, 2199169, 2495935);
    lemma_pow_step(457185, 512, 2572289, 2495935, 2421847, 1126442);
    lemma_pow_step(457185, 1024, 2572289, 1126442, 493284, 2572288);
}

/// `457185^2572287 = 1741337` modulo `2572289`.
proof fn lemma_power_457185_2572287_2572289()
    ensures
        spec_mod_pow(457185, 2572287, 2572289) == 1741337,
{
    lemma_pow0(457185);
    lemma_pow_step(457185, 1, 2572289, 1, 0, 457185);
    lemma_pow_step(457185, 2, 2572289, 457185, 81257, 1636952);
    lemma_pow_step(457185, 4, 2572289, 1636952, 1041722, 1808646);
    lemma_pow_step(457185, 9, 2572289, 1808646, 581405795978, 321818);
    lemma_pow_step(457185, 19, 2572289, 321818, 18407418040, 1622380);
    lemma_pow_step(457185, 39, 2572289, 1622380, 467818487211, 1218021);
    lemma_pow_step(457185, 78, 2572289, 1218021, 576752, 2331113);
    lemma_pow_step(457185, 156, 2572289, 2331113, 2112549, 1264108);
    lemma_pow_step(457185, 313, 2572289, 1264108, 284014538634, 1732614);
    lemma_pow_step(457185, 627, 2572289, 1732614, 533550892899, 400449);
    lemma_pow_step(457185, 1255, 2572289, 400449, 28501429279, 2303554);
    lemma_pow_step(457185, 2511, 2572289, 2303554, 943124457601, 1312771);
    lemma_pow_step(457185, 5023, 2572289, 1312771, 306302231674, 1266799);
    lemma_pow_step(457185, 10047, 2572289, 1266799, 285225031118, 1452083);
    lemma_pow_step(457185, 20095, 2572289, 1452083, 374761608670, 321835);
    lemma_pow_step(457185, 40191, 2572289, 321835, 18409362831, 1571466);
    lemma_pow_step(457185, 80383, 2572289, 1571466, 438916786310, 722270);
    lemma_pow_step(457185, 160767, 2572289, 722270, 92719560732, 830952);
    lemma_pow_step(457185, 321535, 2572289, 830952, 122722469927, 1741337);
    lemma_pow_step(457185, 643071, 2572289, 1741337, 538936836152, 1741337);
    lemma_pow_step(457185, 1286143, 2572289, 1741337, 538936836152, 1741337);
    lemma_pow_step(457185, 2572287, 2572289, 1741337, 538936836152, 1741337);
}

/// `1024^2572287 = 2569777` modulo `2572289`.
proof fn lemma_power_1024_2572287_2572289()
    ensures
        spec_mod_pow(1024, 2572287, 2572289) == 2569777,
{
    lemma_pow0(1024);
    lemma_pow_step(1024, 1, 2572289, 1, 0, 1024);
    lemma_pow_step(1024, 2, 2572289, 1024, 0, 1048576);
    lemma_pow_step(1024, 4, 2572289, 1048576, 427444, 2128460);
    lemma_pow_step(1024, 9, 2572289, 2128460, 1803479383, 300713);
    lemma_pow_step(1024, 19, 2572289, 300713, 35998516, 1046732);
    lemma_pow_step(1024, 39, 2572289, 1046732, 436165387, 1778933);
    lemma_pow_step(1024, 78, 2572289, 1778933, 1230267, 347326);
    lemma_pow_step(1024, 156, 2572289, 347326, 46898, 140754);
    lemma_pow_step(1024, 313, 2572289, 140754, 7886815, 1570849);
    lemma_pow_step(1024, 627, 2572289, 1570849, 982311155, 156429);
    lemma_pow_step(1024, 1255, 2572289, 156429, 9741251, 16445);
    lemma_pow_step(1024, 2511, 2572289, 16445, 107658, 1048438);
    lemma_pow_step(1024, 5023, 2572289, 1048438, 437588301, 409267);
    lemma_pow_step(1024, 10047, 2572289, 409267, 66679702, 766058);
    lemma_pow_step(1024, 20095, 2572289, 766058, 233616493, 826259);
    lemma_pow_step(1024, 40191, 2572289, 826259, 271776938, 1451862);
    lemma_pow_step(1024, 80383, 2572289, 1451862, 839133139, 2467885);
    lemma_pow_step(1024, 160767, 2572289, 2467885, 2424543792, 2512);
    lemma_pow_step(1024, 321535, 2572289, 2512, 2511, 2569777);
    lemma_pow_step(1024, 643071, 2572289, 2569777, 2628881871, 2569777);
    lemma_pow_step(1024, 1286143, 2572289, 2569777, 2628881871, 2569777);
    lemma_pow_step(1024, 2572287, 2572289, 2569777, 2628881871, 2569777);
}

/// `431951560^4096 = 512032768` modulo `512032769`.
proof fn lemma_power_431951560_4096_512032769()
    ensures
        spec_mod_pow(431951560, 4096, 512032769) == 512032768,
{
    lemma_pow0(431951560);
    lemma_pow_step(431951560, 1, 512032769, 1, 0, 431951560);
    lemma_pow_step(431951560, 2, 512032769, 431951560, 364394940, 48644740);
    lemma_pow_step(431951560, 4, 512032769, 48644740, 4621404, 442879924);
    lemma_pow_step(431951560, 8, 512032769, 442879924, 383066551, 262436057);
    lemma_pow_step(431951560, 16, 512032769, 262436057, 134508352, 85520561);
    lemma_pow_step(431951560, 32, 512032769, 85520561, 14283785, 368404056);
    lemma_pow_step(431951560, 64, 512032769, 368404056, 265064184, 381005640);
    lemma_pow_step(431951560, 128, 512032769, 381005640, 283507827, 19826637);
    lemma_pow_step(431951560, 256, 512032769, 19826637, 767715, 297476934);
    lemma_pow_step(431951560, 512, 512032769, 297476934, 172825904, 81992180);
    lemma_pow_step(431951560, 1024, 512032769, 81992180, 13129467, 237648277);
    lemma_pow_step(431951560, 2048, 512032769, 237648277, 110299002, 149072191);
    lemma_pow_step(431951560, 4096, 512032769, 149072191, 43400577, 512032768);
}

/// `431951560^512032767 = 504951120` modulo `512032769`.
proof fn lemma_power_431951560_512032767_512032769()
    ensures
        spec_mod_pow(431951560, 512032767, 512032769) == 504951120,
{
    lemma_pow0(431951560);
    lemma_pow_step(431951560, 1, 512032769, 1, 0, 431951560);
    lemma_pow_step(431951560, 3, 512032769, 431951560, 157400962830143170, 354878270);
    lemma_pow_step(431951560, 7, 512032769, 354878270, 106241967710329085, 242137635);
    lemma_pow_step(431951560, 15, 512032769, 242137635, 49460885075699492, 131527652);
    lemma_pow_step(431951560, 30, 512032769, 131527652, 33785968, 492247712);
    lemma_pow_step(431951560, 61, 512032769, 492247712, 204411207354571843, 486589373);
    lemma_pow_step(431951560, 122, 512032769, 486589373, 462410283, 297969502);
    lemma_pow_step(431951560, 244, 512032769, 297969502, 173398714, 451668938);
    lemma_pow_step(431951560, 488, 512032769, 451668938, 398421432, 498142636);
    lemma_pow_step(431951560, 976, 512032769, 498142636, 484629306, 311300182);
    lemma_pow_step(431951560, 1953, 512032769, 311300182, 81751558399427784, 298419544);
    lemma_pow_step(431951560, 3906, 512032769, 298419544, 173922900, 161657836);
    lemma_pow_step(431951560, 7812, 512032769, 161657836, 51038248, 491854184);
    lemma_pow_step(431951560, 15625, 512032769, 491854184, 204084504448253371, 289621061);
    lemma_pow_step(431951560, 31251, 512032769, 289621061, 70761588136774218, 250125118);
    lemma_pow_step(431951560, 62503, 512032769, 250125118, 52777875471547701, 454907371);
    lemma_pow_step(431951560, 125007, 512032769, 454907371, 174575477582069789, 122394219);
    lemma_pow_step(431951560, 250015, 512032769, 122394219, 12637439860751470, 156168730);
    lemma_pow_step(431951560, 500031, 512032769, 156168730, 20574318000331655, 435121305);
    lemma_pow_step(431951560, 1000063, 512032769, 435121305, 159719516811223781, 33389411);
    lemma_pow_step(431951560, 2000127, 512032769, 33389411, 940491353287586, 19041126);
    lemma_pow_step(431951560, 4000255, 512032769, 19041126, 305859901819882, 501173302);
    lemma_pow_step(431951560, 8000511, 512032769, 501173302, 211891310163398428, 58511108);
    lemma_pow_step(431951560, 16001023, 512032769, 58511108, 2888111364812133, 484769563);
    lemma_pow_step(431951560, 32002047, 512032769, 484769563, 198247618689358039, 7081649);
    lemma_pow_step(431951560, 64004095, 512032769, 7081649, 42306401392760, 504951120);
    lemma_pow_step(431951560, 128008191, 512032769, 504951120, 215097801076217520, 504951120);
    lemma_pow_step(431951560, 256016383, 512032769, 504951120, 215097801076217520, 504951120);
    lemma_pow_step(431951560, 512032767, 512032769, 504951120, 215097801076217520, 504951120);
}

/// `4096^512032767 = 511907761` modulo `512032769`.
proof fn lemma_power_4096_512032767_512032769()
    ensures
        spec_mod_pow(4096, 512032767, 512032769) == 511907761,
{
    lemma_pow0(4096);
    lemma_pow_step(4096, 1, 512032769, 1, 0, 4096);
    lemma_pow_step(4096, 3, 512032769, 4096, 134, 107085690);
    lemma_pow_step(4096, 7, 512032769, 107085690, 91732888938, 77296278);
    lemma_pow_step(4096, 15, 512032769, 77296278, 47794657789, 398763523);
    lemma_pow_step(4096, 30, 512032769, 398763523, 310551114, 457916863);
    lemma_pow_step(4096, 61, 512032769, 457916863, 1677395470771, 406414925);
    lemma_pow_step(4096, 122, 512032769, 406414925, 322583047, 474888482);
    lemma_pow_step(4096, 244, 512032769, 474888482, 440438745, 159029419);
    lemma_pow_step(4096, 488, 512032769, 159029419, 49392065, 298899576);
    lemma_pow_step(4096, 976, 512032769, 298899576, 174482888, 247222904);
    lemma_pow_step(4096, 1953, 512032769, 247222904, 488922022133, 104136459);
    lemma_pow_step(4096, 3906, 512032769, 104136459, 21179117, 170573708);
    lemma_pow_step(4096, 7812, 512032769, 170573708, 56823296, 266282640);
    lemma_pow_step(4096, 15625, 512032769, 266282640, 567215252038, 503848378);
    lemma_pow_step(4096, 31251, 512032769, 503848378, 2030775530505, 274582519);
    lemma_pow_step(4096, 62503, 512032769, 274582519, 603125876688, 509249584);
    lemma_pow_step(4096, 125007, 512032769, 509249584, 2074548335288, 37784904);
    lemma_pow_step(4096, 250015, 512032769, 37784904, 11420860804, 468942460);
    lemma_pow_step(4096, 500031, 512032769, 468942460, 1759143657696, 457113376);
    lemma_pow_step(4096, 1000063, 512032769, 457113376, 1671514127976, 37126552);
    lemma_pow_step(4096, 2000127, 512032769, 37126552, 11026341199, 459301553);
    lemma_pow_step(4096, 4000255, 512032769, 459301553, 1687555325868, 426201172);
    lemma_pow_step(4096, 8000511, 512032769, 426201172, 1453086511738, 295857542);
    lemma_pow_step(4096, 16001023, 512032769, 295857542, 700208666544, 125008);
    lemma_pow_step(4096, 32002047, 512032769, 125008, 125007, 511907761);
    lemma_pow_step(4096, 64004095, 512032769, 511907761, 2096262281295, 511907761);
    lemma_pow_step(4096, 128008191, 512032769, 511907761, 2096262281295, 511907761);
    lemma_pow_step(4096, 256016383, 512032769, 511907761, 2096262281295, 511907761);
    lemma_pow_step(4096, 512032767, 512032769, 511907761, 2096262281295, 511907761);
}

/// `1945^1024 = 12288` modulo `12289`.
proof fn lemma_power_1945_1024_12289()
    ensures
        spec_mod_pow(1945, 1024, 12289) == 12288,
{
    lemma_pow0(1945);
    lemma_pow_step(1945, 1, 12289, 1, 0, 1945);
    lemma_pow_step(1945, 2, 12289, 1945, 307, 10302);
    lemma_pow_step(1945, 4, 12289, 10302, 8636, 3400);
    lemma_pow_step(1945, 8, 12289, 3400, 940, 8340);
    lemma_pow_step(1945, 16, 12289, 8340, 5659, 12149);
    lemma_pow_step(1945, 32, 12289, 12149, 12010, 7311);
    lemma_pow_step(1945, 64, 12289, 7311, 4349, 5860);
    lemma_pow_step(1945, 128, 12289, 5860, 2794, 4134);
    lemma_pow_step(1945, 256, 12289, 4134, 1390, 8246);
    lemma_pow_step(1945, 512, 12289, 8246, 5533, 1479);
    lemma_pow_step(1945, 1024, 12289, 1479, 177, 12288);
}

/// `1945^12287 = 4050` modulo `12289`.
proof fn lemma_power_1945_12287_12289()
    ensures
        spec_mod_pow(1945, 12287, 12289) == 4050,
{
    lemma_pow0(1945);
    lemma_pow_step(1945, 1, 12289, 1, 0, 1945);
    lemma_pow_step(1945, 2, 12289, 1945, 307, 10302);
    lemma_pow_step(1945, 5, 12289, 10302, 16797558, 1518);
    lemma_pow_step(1945, 11, 12289, 1518, 364709, 1279);
    lemma_pow_step(1945, 23, 12289, 1279, 258907, 2622);
    lemma_pow_step(1945, 47, 12289, 2622, 1088099, 769);
    lemma_pow_step(1945, 95, 12289, 769, 93595, 8190);
    lemma_pow_step(1945, 191, 12289, 8190, 10616243, 4273);
    lemma_pow_step(1945, 383, 12289, 4273, 2889807, 682);
    lemma_pow_step(1945, 767, 12289, 682, 73615, 11445);
    lemma_pow_step(1945, 1535, 12289, 11445, 20731687, 7082);
    lemma_pow_step(1945, 3071, 12289, 7082, 7938069, 8239);
    lemma_pow_step(1945, 6143, 12289, 8239, 10743655, 4050);
    lemma_pow_step(1945, 12287, 12289, 4050, 2596050, 4050);
}

/// `1024^12287 = 12277` modulo `12289`.
proof fn lemma_power_1024_12287_12289()
    ensures
        spec_mod_pow(1024, 12287, 12289) == 12277,
{
    lemma_pow0(1024);
    lemma_pow_step(1024, 1, 12289, 1, 0, 1024);
    lemma_pow_step(1024, 2, 12289, 1024, 85, 4011);
    lemma_pow_step(1024, 5, 12289, 4011, 1340567, 8041);
    lemma_pow_step(1024, 11, 12289, 8041, 5387701, 7755);
    lemma_pow_step(1024, 23, 12289, 7755, 5011260, 11460);
    lemma_pow_step(1024, 47, 12289, 11460, 10943409, 5199);
    lemma_pow_step(1024, 95, 12289, 5199, 2252283, 5637);
    lemma_pow_step(1024, 191, 12289, 5637, 2647765, 3371);
    lemma_pow_step(1024, 383, 12289, 3371, 946893, 307);
    lemma_pow_step(1024, 767, 12289, 307, 7853, 5459);
    lemma_pow_step(1024, 1535, 12289, 5459, 2483188, 12);
    lemma_pow_step(1024, 3071, 12289, 12, 11, 12277);
    lemma_pow_step(1024, 6143, 12289, 12277, 12559371, 12277);
    lemma_pow_step(1024, 12287, 12289, 12277, 12559371, 12277);
}

/// `3400^256 = 12288` modulo `12289`.
proof fn lemma_power_3400_256_12289()
    ensures
        spec_mod_pow(3400, 256, 12289) == 12288,
{
    lemma_pow0(3400);
    lemma_pow_step(3400, 1, 12289, 1, 0, 3400);
    lemma_pow_step(3400, 2, 12289, 3400, 940, 8340);
    lemma_pow_step(3400, 4, 12289, 8340, 5659, 12149);
    lemma_pow_step(3400, 8, 12289, 12149, 12010, 7311);
    lemma_pow_step(3400, 16, 12289, 7311, 4349, 5860);
    lemma_pow_step(3400, 32, 12289, 5860, 2794, 4134);
    lemma_pow_step(3400, 64, 12289, 4134, 1390, 8246);
    lemma_pow_step(3400, 128, 12289, 8246, 5533, 1479);
    lemma_pow_step(3400, 256, 12289, 1479, 177, 12288);
}

/// `3400^12287 = 2859` modulo `12289`.
proof fn lemma_power_3400_12287_12289()
    ensures
        spec_mod_pow(3400, 12287, 12289) == 2859,
{
    lemma_pow0(3400);
    lemma_pow_step(3400, 1, 12289, 1, 0, 3400);
    lemma_pow_step(3400, 2, 12289, 3400, 940, 8340);
    lemma_pow_step(3400, 5, 12289, 8340, 19243961, 3271);
    lemma_pow_step(3400, 11, 12289, 3271, 2960216, 4976);
    lemma_pow_step(3400, 23, 12289, 4976, 6850513, 4143);
    lemma_pow_step(3400, 47, 12289, 4143, 4748891, 5101);
    lemma_pow_step(3400, 95, 12289, 5101, 7199014, 354);
    lemma_pow_step(3400, 191, 12289, 354, 34671, 2481);
    lemma_pow_step(3400, 383, 12289, 2481, 1703004, 11244);
    lemma_pow_step(3400, 767, 12289, 11244, 34978730, 9430);
    lemma_pow_step(3400, 1535, 12289, 9430, 24602869, 2859);
    lemma_pow_step(3400, 3071, 12289, 2859, 2261469, 2859);
    lemma_pow_step(3400, 6143, 12289, 2859, 2261469, 2859);
    lemma_pow_step(3400, 12287, 12289, 2859, 2261469, 2859);
}

/// `256^12287 = 12241` modulo `12289`.
proof fn lemma_power_256_12287_12289()
    ensures
        spec_mod_pow(256, 12287, 12289) == 12241,
{
    lemma_pow0(256);
    lemma_pow_step(256, 1, 12289, 1, 0, 256);
    lemma_pow_step(256, 2, 12289, 256, 5, 4091);
    lemma_pow_step(256, 5, 12289, 4091, 348644, 1820);
    lemma_pow_step(256, 11, 12289, 1820, 69002, 8822);
    lemma_pow_step(256, 23, 12289, 8822, 1621278, 1762);
    lemma_pow_step(256, 47, 12289, 1762, 64674, 10078);
    lemma_pow_step(256, 95, 12289, 10078, 2115787, 11061);
    lemma_pow_step(256, 191, 12289, 11061, 2548661, 9547);
    lemma_pow_step(256, 383, 12289, 9547, 1898704, 48);
    lemma_pow_step(256, 767, 12289, 48, 47, 12241);
    lemma_pow_step(256, 1535, 12289, 12241, 3121455, 12241);
    lemma_pow_step(256, 3071, 12289, 12241, 3121455, 12241);
    lemma_pow_step(256, 6143, 12289, 12241, 3121455, 12241);
    lemma_pow_step(256, 12287, 12289, 12241, 3121455, 12241);
}

/// `2^6 = 64` modulo `12289`.
proof fn lemma_power_2_6_12289()
    ensures
        spec_mod_pow(2, 6, 12289) == 64,
{
    lemma_pow0(2);
    lemma_pow_step(2, 1, 12289, 1, 0, 2);
    lemma_pow_step(2, 3, 12289, 2, 0, 8);
    lemma_pow_step(2, 6, 12289, 8, 0, 64);
}

/// `64^1024 = 1` modulo `12289`.
proof fn lemma_power_64_1024_12289()
    ensures
        spec_mod_pow(64, 1024, 12289) == 1,
{
    lemma_pow0(64);
    lemma_pow_step(64, 1, 12289, 1, 0, 64);
    lemma_pow_step(64, 2, 12289, 64, 0, 4096);
    lemma_pow_step(64, 4, 12289, 4096, 1365, 2731);
    lemma_pow_step(64, 8, 12289, 2731, 606, 11227);
    lemma_pow_step(64, 16, 12289, 11227, 10256, 9545);
    lemma_pow_step(64, 32, 12289, 9545, 7413, 8668);
    lemma_pow_step(64, 64, 12289, 8668, 6113, 11567);
    lemma_pow_step(64, 128, 12289, 11567, 10887, 5146);
    lemma_pow_step(64, 256, 12289, 5146, 2154, 10810);
    lemma_pow_step(64, 512, 12289, 10810, 9508, 12288);
    lemma_pow_step(64, 1024, 12289, 12288, 12287, 1);
}

/// `2^24 = 2731` modulo `12289`.
proof fn lemma_power_2_24_12289()
    ensures
        spec_mod_pow(2, 24, 12289) == 2731,
{
    lemma_pow0(2);
    lemma_pow_step(2, 1, 12289, 1, 0, 2);
    lemma_pow_step(2, 3, 12289, 2, 0, 8);
    lemma_pow_step(2, 6, 12289, 8, 0, 64);
    lemma_pow_step(2, 12, 12289, 64, 0, 4096);
    lemma_pow_step(2, 24, 12289, 4096, 1365, 2731);
}

/// `2731^256 = 1` modulo `12289`.
proof fn lemma_power_2731_256_12289()
    ensures
        spec_mod_pow(2731, 256, 12289) == 1,
{
    lemma_pow0(2731);
    lemma_pow_step(2731, 1, 12289, 1, 0, 2731);
    lemma_pow_step(2731, 2, 12289, 2731, 606, 11227);
    lemma_pow_step(2731, 4, 12289, 11227, 10256, 9545);
    lemma_pow_step(2731, 8, 12289, 9545, 7413, 8668);
    lemma_pow_step(2731, 16, 12289, 8668, 6113, 11567);
    lemma_pow_step(2731, 32, 12289, 11567, 10887, 5146);
    lemma_pow_step(2731, 64, 12289, 5146, 2154, 10810);
    lemma_pow_step(2731, 128, 12289, 10810, 9508, 12288);
    lemma_pow_step(2731, 256, 12289, 12288, 12287, 1);
}

/// `3^6 = 729` modulo `12289`.
proof fn lemma_power_3_6_12289()
    ensures
        spec_mod_pow(3, 6, 12289) == 729,
{
    lemma_pow0(3);
    lemma_pow_step(3, 1, 12289, 1, 0, 3);
    lemma_pow_step(3, 3, 12289, 3, 0, 27);
    lemma_pow_step(3, 6, 12289, 27, 0, 729);
}

/// `729^1024 = 1` modulo `12289`.
proof fn lemma_power_729_1024_12289()
    ensures
        spec_mod_pow(729, 1024, 12289) == 1,
{
    lemma_pow0(729);
    lemma_pow_step(729, 1, 12289, 1, 0, 729);
    lemma_pow_step(729, 2, 12289, 729, 43, 3014);
    lemma_pow_step(729, 4, 12289, 3014, 739, 2625);
    lemma_pow_step(729, 8, 12289, 2625, 560, 8785);
    lemma_pow_step(729, 16, 12289, 8785, 6280, 1305);
    lemma_pow_step(729, 32, 12289, 1305, 138, 7143);
    lemma_pow_step(729, 64, 12289, 7143, 4151, 10810);
    lemma_pow_step(729, 128, 12289, 10810, 9508, 12288);
    lemma_pow_step(729, 256, 12289, 12288, 12287, 1);
    lemma_pow_step(729, 512, 12289, 1, 0, 1);
    lemma_pow_step(729, 1024, 12289, 1, 0, 1);
}

/// `3^24 = 2625` modulo `12289`.
proof fn lemma_power_3_24_12289()
    ensures
        spec_mod_pow(3, 24, 12289) == 2625,
{
    lemma_pow0(3);
    lemma_pow_step(3, 1, 12289, 1, 0, 3);
    lemma_pow_step(3, 3, 12289, 3, 0, 27);
    lemma_pow_step(3, 6, 12289, 27, 0, 729);
    lemma_pow_step(3, 12, 12289, 729, 43, 3014);
    lemma_pow_step(3, 24, 12289, 3014, 739, 2625);
}

/// `2625^256 = 1` modulo `12289`.
proof fn lemma_power_2625_256_12289()
    ensures
        spec_mod_pow(2625, 256, 12289) == 1,
{
    lemma_pow0(2625);
    lemma_pow_step(2625, 1, 12289, 1, 0, 2625);
    lemma_pow_step(2625, 2, 12289, 2625, 560, 8785);
    lemma_pow_step(2625, 4, 12289, 8785, 6280, 1305);
    lemma_pow_step(2625, 8, 12289, 1305, 138, 7143);
    lemma_pow_step(2625, 16, 12289, 7143, 4151, 10810);
    lemma_pow_step(2625, 32, 12289, 10810, 9508, 12288);
    lemma_pow_step(2625, 64, 12289, 12288, 12287, 1);
    lemma_pow_step(2625, 128, 12289, 1, 0, 1);
    lemma_pow_step(2625, 256, 12289, 1, 0, 1);
}

/// `4^6 = 4096` modulo `12289`.
proof fn lemma_power_4_6_12289()
    ensures
        spec_mod_pow(4, 6, 12289) == 4096,
{
    lemma_pow0(4);
    lemma_pow_step(4, 1, 12289, 1, 0, 4);
    lemma_pow_step(4, 3, 12289, 4, 0, 64);
    lemma_pow_step(4, 6, 12289, 64, 0, 4096);
}

/// `4096^1024 = 1` modulo `12289`.
proof fn lemma_power_4096_1024_12289()
    ensures
        spec_mod_pow(4096, 1024, 12289) == 1,
{
    lemma_pow0(4096);
    lemma_pow_step(4096, 1, 12289, 1, 0, 4096);
    lemma_pow_step(4096, 2, 12289, 4096, 1365, 2731);
    lemma_pow_step(4096, 4, 12289, 2731, 606, 11227);
    lemma_pow_step(4096, 8, 12289, 11227, 10256, 9545);
    lemma_pow_step(4096, 16, 12289, 9545, 7413, 8668);
    lemma_pow_step(4096, 32, 12289, 8668, 6113, 11567);
    lemma_pow_step(4096, 64, 12289, 11567, 10887, 5146);
    lemma_pow_step(4096, 128, 12289, 5146, 2154, 10810);
    lemma_pow_step(4096, 256, 12289, 10810, 9508, 12288);
    lemma_pow_step(4096, 512, 12289, 12288, 12287, 1);
    lemma_pow_step(4096, 1024, 12289, 1, 0, 1);
}

/// `4^24 = 11227` modulo `12289`.
proof fn lemma_power_4_24_12289()
    ensures
        spec_mod_pow(4, 24, 12289) == 11227,
{
    lemma_pow0(4);
    lemma_pow_step(4, 1, 12289, 1, 0, 4);
    lemma_pow_step(4, 3, 12289, 4, 0, 64);
    lemma_pow_step(4, 6, 12289, 64, 0, 4096);
    lemma_pow_step(4, 12, 12289, 4096, 1365, 2731);
    lemma_pow_step(4, 24, 12289, 2731, 606, 11227);
}

/// `11227^256 = 1` modulo `12289`.
proof fn lemma_power_11227_256_12289()
    ensures
        spec_mod_pow(11227, 256, 12289) == 1,
{
    lemma_pow0(11227);
    lemma_pow_step(11227, 1, 12289, 1, 0, 11227);
    lemma_pow_step(11227, 2, 12289, 11227, 10256, 9545);
    lemma_pow_step(11227, 4, 12289, 9545, 7413, 8668);
    lemma_pow_step(11227, 8, 12289, 8668, 6113, 11567);
    lemma_pow_step(11227, 16, 12289, 11567, 10887, 5146);
    lemma_pow_step(11227, 32, 12289, 5146, 2154, 10810);
    lemma_pow_step(11227, 64, 12289, 10810, 9508, 12288);
    lemma_pow_step(11227, 128, 12289, 12288, 12287, 1);
    lemma_pow_step(11227, 256, 12289, 1, 0, 1);
}

/// `5^6 = 3336` modulo `12289`.
proof fn lemma_power_5_6_12289()
    ensures
        spec_mod_pow(5, 6, 12289) == 3336,
{
    lemma_pow0(5);
    lemma_pow_step(5, 1, 12289, 1, 0, 5);
    lemma_pow_step(5, 3, 12289, 5, 0, 125);
    lemma_pow_step(5, 6, 12289, 125, 1, 3336);
}

/// `3336^1024 = 1` modulo `12289`.
proof fn lemma_power_3336_1024_12289()
    ensures
        spec_mod_pow(3336, 1024, 12289) == 1,
{
    lemma_pow0(3336);
    lemma_pow_step(3336, 1, 12289, 1, 0, 3336);
    lemma_pow_step(3336, 2, 12289, 3336, 905, 7351);
    lemma_pow_step(3336, 4, 12289, 7351, 4397, 2468);
    lemma_pow_step(3336, 8, 12289, 2468, 495, 7969);
    lemma_pow_step(3336, 16, 12289, 7969, 5167, 7698);
    lemma_pow_step(3336, 32, 12289, 7698, 4822, 1646);
    lemma_pow_step(3336, 64, 12289, 1646, 220, 5736);
    lemma_pow_step(3336, 128, 12289, 5736, 2677, 4043);
    lemma_pow_step(3336, 256, 12289, 4043, 1330, 1479);
    lemma_pow_step(3336, 512, 12289, 1479, 177, 12288);
    lemma_pow_step(3336, 1024, 12289, 12288, 12287, 1);
}

/// `5^24 = 2468` modulo `12289`.
proof fn lemma_power_5_24_12289()
    ensures
        spec_mod_pow(5, 24, 12289) == 2468,
{
    lemma_pow0(5);
    lemma_pow_step(5, 1, 12289, 1, 0, 5);
    lemma_pow_step(5, 3, 12289, 5, 0, 125);
    lemma_pow_step(5, 6, 12289, 125, 1, 3336);
    lemma_pow_step(5, 12, 12289, 3336, 905, 7351);
    lemma_pow_step(5, 24, 12289, 7351, 4397, 2468);
}

/// `2468^256 = 1` modulo `12289`.
proof fn lemma_power_2468_256_12289()
    ensures
        spec_mod_pow(2468, 256, 12289) == 1,
{
    lemma_pow0(2468);
    lemma_pow_step(2468, 1, 12289, 1, 0, 2468);
    lemma_pow_step(2468, 2, 12289, 2468, 495, 7969);
    lemma_pow_step(2468, 4, 12289, 7969, 5167, 7698);
    lemma_pow_step(2468, 8, 12289, 7698, 4822, 1646);
    lemma_pow_step(2468, 16, 12289, 1646, 220, 5736);
    lemma_pow_step(2468, 32, 12289, 5736, 2677, 4043);
    lemma_pow_step(2468, 64, 12289, 4043, 1330, 1479);
    lemma_pow_step(2468, 128, 12289, 1479, 177, 12288);
    lemma_pow_step(2468, 256, 12289, 12288, 12287, 1);
}

/// `6^6 = 9789` modulo `12289`.
proof fn lemma_power_6_6_12289()
    ensures
        spec_mod_pow(6, 6, 12289) == 9789,
{
    lemma_pow0(6);
    lemma_pow_step(6, 1, 12289, 1, 0, 6);
    lemma_pow_step(6, 3, 12289, 6, 0, 216);
    lemma_pow_step(6, 6, 12289, 216, 3, 9789);
}

/// `9789^1024 = 1` modulo `12289`.
proof fn lemma_power_9789_1024_12289()
    ensures
        spec_mod_pow(9789, 1024, 12289) == 1,
{
    lemma_pow0(9789);
    lemma_pow_step(9789, 1, 12289, 1, 0, 9789);
    lemma_pow_step(9789, 2, 12289, 9789, 7797, 7188);
    lemma_pow_step(9789, 4, 12289, 7188, 4204, 4388);
    lemma_pow_step(9789, 8, 12289, 4388, 1566, 9970);
    lemma_pow_step(9789, 16, 12289, 9970, 8088, 7468);
    lemma_pow_step(9789, 32, 12289, 7468, 4538, 3542);
    lemma_pow_step(9789, 64, 12289, 3542, 1020, 10984);
    lemma_pow_step(9789, 128, 12289, 10984, 9817, 7143);
    lemma_pow_step(9789, 256, 12289, 7143, 4151, 10810);
    lemma_pow_step(9789, 512, 12289, 10810, 9508, 12288);
    lemma_pow_step(9789, 1024, 12289, 12288, 12287, 1);
}

/// `6^24 = 4388` modulo `12289`.
proof fn lemma_power_6_24_12289()
    ensures
        spec_mod_pow(6, 24, 12289) == 4388,
{
    lemma_pow0(6);
    lemma_pow_step(6, 1, 12289, 1, 0, 6);
    lemma_pow_step(6, 3, 12289, 6, 0, 216);
    lemma_pow_step(6, 6, 12289, 216, 3, 9789);
    lemma_pow_step(6, 12, 12289, 9789, 7797, 7188);
    lemma_pow_step(6, 24, 12289, 7188, 4204, 4388);
}

/// `4388^256 = 1` modulo `12289`.
proof fn lemma_power_4388_256_12289()
    ensures
        spec_mod_pow(4388, 256, 12289) == 1,
{
    lemma_pow0(4388);
    lemma_pow_step(4388, 1, 12289, 1, 0, 4388);
    lemma_pow_step(4388, 2, 12289, 4388, 1566, 9970);
    lemma_pow_step(4388, 4, 12289, 9970, 8088, 7468);
    lemma_pow_step(4388, 8, 12289, 7468, 4538, 3542);
    lemma_pow_step(4388, 16, 12289, 3542, 1020, 10984);
    lemma_pow_step(4388, 32, 12289, 10984, 9817, 7143);
    lemma_pow_step(4388, 64, 12289, 7143, 4151, 10810);
    lemma_pow_step(4388, 128, 12289, 10810, 9508, 12288);
    lemma_pow_step(4388, 256, 12289, 12288, 12287, 1);
}

/// `7^6 = 7048` modulo `12289`.
proof fn lemma_power_7_6_12289()
    ensures
        spec_mod_pow(7, 6, 12289) == 7048,
{
    lemma_pow0(7);
    lemma_pow_step(7, 1, 12289, 1, 0, 7);
    lemma_pow_step(7, 3, 12289, 7, 0, 343);
    lemma_pow_step(7, 6, 12289, 343, 9, 7048);
}

/// `7048^1024 = 1` modulo `12289`.
proof fn lemma_power_7048_1024_12289()
    ensures
        spec_mod_pow(7048, 1024, 12289) == 1,
{
    lemma_pow0(7048);
    lemma_pow_step(7048, 1, 12289, 1, 0, 7048);
    lemma_pow_step(7048, 2, 12289, 7048, 4042, 2166);
    lemma_pow_step(7048, 4, 12289, 2166, 381, 9447);
    lemma_pow_step(7048, 8, 12289, 9447, 7262, 3091);
    lemma_pow_step(7048, 16, 12289, 3091, 777, 5728);
    lemma_pow_step(7048, 32, 12289, 5728, 2669, 10643);
    lemma_pow_step(7048, 64, 12289, 10643, 9217, 5736);
    lemma_pow_step(7048, 128, 12289, 5736, 2677, 4043);
    lemma_pow_step(7048, 256, 12289, 4043, 1330, 1479);
    lemma_pow_step(7048, 512, 12289, 1479, 177, 12288);
    lemma_pow_step(7048, 1024, 12289, 12288, 12287, 1);
}

/// `7^24 = 9447` modulo `12289`.
proof fn lemma_power_7_24_12289()
    ensures
        spec_mod_pow(7, 24, 12289) == 9447,
{
    lemma_pow0(7);
    lemma_pow_step(7, 1, 12289, 1, 0, 7);
    lemma_pow_step(7, 3, 12289, 7, 0, 343);
    lemma_pow_step(7, 6, 12289, 343, 9, 7048);
    lemma_pow_step(7, 12, 12289, 7048, 4042, 2166);
    lemma_pow_step(7, 24, 12289, 2166, 381, 9447);
}

/// `9447^256 = 1` modulo `12289`.
proof fn lemma_power_9447_256_12289()
    ensures
        spec_mod_pow(9447, 256, 12289) == 1,
{
    lemma_pow0(9447);
    lemma_pow_step(9447, 1, 12289, 1, 0, 9447);
    lemma_pow_step(9447, 2, 12289, 9447, 7262, 3091);
    lemma_pow_step(9447, 4, 12289, 3091, 777, 5728);
    lemma_pow_step(9447, 8, 12289, 5728, 2669, 10643);
    lemma_pow_step(9447, 16, 12289, 10643, 9217, 5736);
    lemma_pow_step(9447, 32, 12289, 5736, 2677, 4043);
    lemma_pow_step(9447, 64, 12289, 4043, 1330, 1479);
    lemma_pow_step(9447, 128, 12289, 1479, 177, 12288);
    lemma_pow_step(9447, 256, 12289, 12288, 12287, 1);
}

/// `8^6 = 4075` modulo `12289`.
proof fn lemma_power_8_6_12289()
    ensures
        spec_mod_pow(8, 6, 12289) == 4075,
{
    lemma_pow0(8);
    lemma_pow_step(8, 1, 12289, 1, 0, 8);
    lemma_pow_step(8, 3, 12289, 8, 0, 512);
    lemma_pow_step(8, 6, 12289, 512, 21, 4075);
}

/// `4075^1024 = 1` modulo `12289`.
proof fn lemma_power_4075_1024_12289()
    ensures
        spec_mod_pow(4075, 1024, 12289) == 1,
{
    lemma_pow0(4075);
    lemma_pow_step(4075, 1, 12289, 1, 0, 4075);
    lemma_pow_step(4075, 2, 12289, 4075, 1351, 3186);
    lemma_pow_step(4075, 4, 12289, 3186, 825, 12171);
    lemma_pow_step(4075, 8, 12289, 12171, 12054, 1635);
    lemma_pow_step(4075, 16, 12289, 1635, 217, 6512);
    lemma_pow_step(4075, 32, 12289, 6512, 3450, 9094);
    lemma_pow_step(4075, 64, 12289, 9094, 6729, 8155);
    lemma_pow_step(4075, 128, 12289, 8155, 5411, 8246);
    lemma_pow_step(4075, 256, 12289, 8246, 5533, 1479);
    lemma_pow_step(4075, 512, 12289, 1479, 177, 12288);
    lemma_pow_step(4075, 1024, 12289, 12288, 12287, 1);
}

/// `8^24 = 12171` modulo `12289`.
proof fn lemma_power_8_24_12289()
    ensures
        spec_mod_pow(8, 24, 12289) == 12171,
{
    lemma_pow0(8);
    lemma_pow_step(8, 1, 12289, 1, 0, 8);
    lemma_pow_step(8, 3, 12289, 8, 0, 512);
    lemma_pow_step(8, 6, 12289, 512, 21, 4075);
    lemma_pow_step(8, 12, 12289, 4075, 1351, 3186);
    lemma_pow_step(8, 24, 12289, 3186, 825, 12171);
}

/// `12171^256 = 1` modulo `12289`.
proof fn lemma_power_12171_256_12289()
    ensures
        spec_mod_pow(12171, 256, 12289) == 1,
{
    lemma_pow0(12171);
    lemma_pow_step(12171, 1, 12289, 1, 0, 12171);
    lemma_pow_step(12171, 2, 12289, 12171, 12054, 1635);
    lemma_pow_step(12171, 4, 12289, 1635, 217, 6512);
    lemma_pow_step(12171, 8, 12289, 6512, 3450, 9094);
    lemma_pow_step(12171, 16, 12289, 9094, 6729, 8155);
    lemma_pow_step(12171, 32, 12289, 8155, 5411, 8246);
    lemma_pow_step(12171, 64, 12289, 8246, 5533, 1479);
    lemma_pow_step(12171, 128, 12289, 1479, 177, 12288);
    lemma_pow_step(12171, 256, 12289, 12288, 12287, 1);
}

/// `9^6 = 3014` modulo `12289`.
proof fn lemma_power_9_6_12289()
    ensures
        spec_mod_pow(9, 6, 12289) == 3014,
{
    lemma_pow0(9);
    lemma_pow_step(9, 1, 12289, 1, 0, 9);
    lemma_pow_step(9, 3, 12289, 9, 0, 729);
    lemma_pow_step(9, 6, 12289, 729, 43, 3014);
}

/// `3014^1024 = 1` modulo `12289`.
proof fn lemma_power_3014_1024_12289()
    ensures
        spec_mod_pow(3014, 1024, 12289) == 1,
{
    lemma_pow0(3014);
    lemma_pow_step(3014, 1, 12289, 1, 0, 3014);
    lemma_pow_step(3014, 2, 12289, 3014, 739, 2625);
    lemma_pow_step(3014, 4, 12289, 2625, 560, 8785);
    lemma_pow_step(3014, 8, 12289, 8785, 6280, 1305);
    lemma_pow_step(3014, 16, 12289, 1305, 138, 7143);
    lemma_pow_step(3014, 32, 12289, 7143, 4151, 10810);
    lemma_pow_step(3014, 64, 12289, 10810, 9508, 12288);
    lemma_pow_step(3014, 128, 12289, 12288, 12287, 1);
    lemma_pow_step(3014, 256, 12289, 1, 0, 1);
    lemma_pow_step(3014, 512, 12289, 1, 0, 1);
    lemma_pow_step(3014, 1024, 12289, 1, 0, 1);
}

/// `9^24 = 8785` modulo `12289`.
proof fn lemma_power_9_24_12289()
    ensures
        spec_mod_pow(9, 24, 12289) == 8785,
{
    lemma_pow0(9);
    lemma_pow_step(9, 1, 12289, 1, 0, 9);
    lemma_pow_step(9, 3, 12289, 9, 0, 729);
    lemma_pow_step(9, 6, 12289, 729, 43, 3014);
    lemma_pow_step(9, 12, 12289, 3014, 739, 2625);
    lemma_pow_step(9, 24, 12289, 2625, 560, 8785);
}

/// `8785^256 = 1` modulo `12289`.
proof fn lemma_power_8785_256_12289()
    ensures
        spec_mod_pow(8785, 256, 12289) == 1,
{
    lemma_pow0(8785);
    lemma_pow_step(8785, 1, 12289, 1, 0, 8785);
    lemma_pow_step(8785, 2, 12289, 8785, 6280, 1305);
    lemma_pow_step(8785, 4, 12289, 1305, 138, 7143);
    lemma_pow_step(8785, 8, 12289, 7143, 4151, 10810);
    lemma_pow_step(8785, 16, 12289, 10810, 9508, 12288);
    lemma_pow_step(8785, 32, 12289, 12288, 12287, 1);
    lemma_pow_step(8785, 64, 12289, 1, 0, 1);
    lemma_pow_step(8785, 128, 12289, 1, 0, 1);
    lemma_pow_step(8785, 256, 12289, 1, 0, 1);
}

/// `10^6 = 4591` modulo `12289`.
proof fn lemma_power_10_6_12289()
    ensures
        spec_mod_pow(10, 6, 12289) == 4591,
{
    lemma_pow0(10);
    lemma_pow_step(10, 1, 12289, 1, 0, 10);
    lemma_pow_step(10, 3, 12289, 10, 0, 1000);
    lemma_pow_step(10, 6, 12289, 1000, 81, 4591);
}

/// `4591^1024 = 1` modulo `12289`.
proof fn lemma_power_4591_1024_12289()
    ensures
        spec_mod_pow(4591, 1024, 12289) == 1,
{
    lemma_pow0(4591);
    lemma_pow_step(4591, 1, 12289, 1, 0, 4591);
    lemma_pow_step(4591, 2, 12289, 4591, 1715, 1646);
    lemma_pow_step(4591, 4, 12289, 1646, 220, 5736);
    lemma_pow_step(4591, 8, 12289, 5736, 2677, 4043);
    lemma_pow_step(4591, 16, 12289, 4043, 1330, 1479);
    lemma_pow_step(4591, 32, 12289, 1479, 177, 12288);
    lemma_pow_step(4591, 64, 12289, 12288, 12287, 1);
    lemma_pow_step(4591, 128, 12289, 1, 0, 1);
    lemma_pow_step(4591, 256, 12289, 1, 0, 1);
    lemma_pow_step(4591, 512, 12289, 1, 0, 1);
    lemma_pow_step(4591, 1024, 12289, 1, 0, 1);
}

/// `10^24 = 5736` modulo `12289`.
proof fn lemma_power_10_24_12289()
    ensures
        spec_mod_pow(10, 24, 12289) == 5736,
{
    lemma_pow0(10);
    lemma_pow_step(10, 1, 12289, 1, 0, 10);
    lemma_pow_step(10, 3, 12289, 10, 0, 1000);
    lemma_pow_step(10, 6, 12289, 1000, 81, 4591);
    lemma_pow_step(10, 12, 12289, 4591, 1715, 1646);
    lemma_pow_step(10, 24, 12289, 1646, 220, 5736);
}

/// `5736^256 = 1` modulo `12289`.
proof fn lemma_power_5736_256_12289()
    ensures
        spec_mod_pow(5736, 256, 12289) == 1,
{
    lemma_pow0(5736);
    lemma_pow_step(5736, 1, 12289, 1, 0, 5736);
    lemma_pow_step(5736, 2, 12289, 5736, 2677, 4043);
    lemma_pow_step(5736, 4, 12289, 4043, 1330, 1479);
    lemma_pow_step(5736, 8, 12289, 1479, 177, 12288);
    lemma_pow_step(5736, 16, 12289, 12288, 12287, 1);
    lemma_pow_step(5736, 32, 12289, 1, 0, 1);
    lemma_pow_step(5736, 64, 12289, 1, 0, 1);
    lemma_pow_step(5736, 128, 12289, 1, 0, 1);
    lemma_pow_step(5736, 256, 12289, 1, 0, 1);
}

/// `368299^64 = -1` modulo `786433`, and `368299` and `64` are inverse to
/// their powers `786431` there.
pub(crate) proof fn lemma_roots_786433()
    ensures
        spec_mod_pow(368299, 64, 786433) == 786432,
        (368299int * spec_mod_pow(368299, 786431, 786433)) % 786433 == 1,
        (64int * spec_mod_pow(64, 786431, 786433)) % 786433 == 1,
{
    lemma_power_368299_64_786433();
    lemma_power_368299_786431_786433();
    lemma_power_64_786431_786433();
}

/// `457185^1024 = -1` modulo `2572289`, and `457185` and `1024` are inverse
/// to their powers `2572287` there.
pub(crate) proof fn lemma_roots_2572289()
    ensures
        spec_mod_pow(457185, 1024, 2572289) == 2572288,
        (457185int * spec_mod_pow(457185, 2572287, 2572289)) % 2572289 == 1,
        (1024int * spec_mod_pow(1024, 2572287, 2572289)) % 2572289 == 1,
{
    lemma_power_457185_1024_2572289();
    lemma_power_457185_2572287_2572289();
    lemma_power_1024_2572287_2572289();
}

/// `431951560^4096 = -1` modulo `512032769`, and `431951560` and `4096` are
/// inverse to their powers `512032767` there.
pub(crate) proof fn lemma_roots_512032769()
    ensures
        spec_mod_pow(431951560, 4096, 512032769) == 512032768,
        (431951560int * spec_mod_pow(431951560, 512032767, 512032769)) % 512032769 == 1,
        (4096int * spec_mod_pow(4096, 512032767, 512032769)) % 512032769 == 1,
{
    lemma_power_431951560_4096_512032769();
    lemma_power_431951560_512032767_512032769();
    lemma_power_4096_512032767_512032769();
}

/// `1945^1024 = -1` modulo `12289`, and `1945` and `1024` are inverse to
/// their powers `12287` there.
pub(crate) proof fn lemma_roots_12289_1024()
    ensures
        spec_mod_pow(1945, 1024, 12289) == 12288,
        (1945int * spec_mod_pow(1945, 12287, 12289)) % 12289 == 1,
        (1024int * spec_mod_pow(1024, 12287, 12289)) % 12289 == 1,
{
    lemma_power_1945_1024_12289();
    lemma_power_1945_12287_12289();
    lemma_power_1024_12287_12289();
}

/// `3400^256 = -1` modulo `12289`, and `3400` and `256` are inverse to
/// their powers `12287` there.
pub(crate) proof fn lemma_roots_12289_256()
    ensures
        spec_mod_pow(3400, 256, 12289) == 12288,
        (3400int * spec_mod_pow(3400, 12287, 12289)) % 12289 == 1,
        (256int * spec_mod_pow(256, 12287, 12289)) % 12289 == 1,
{
    lemma_power_3400_256_12289();
    lemma_power_3400_12287_12289();
    lemma_power_256_12287_12289();
}

/// None of `2, ..., 10` is a generator for the modulus `12289` in degree
/// `256` or `1024`: the roots they give, raised to the degree, are `1`.
pub(crate) proof fn lemma_small_candidates_12289()
    ensures
        !is_omega_generator(2, 1024, 12289),
        !is_omega_generator(2, 256, 12289),
        !is_omega_generator(3, 1024, 12289),
        !is_omega_generator(3, 256, 12289),
        !is_omega_generator(4, 1024, 12289),
        !is_omega_generator(4, 256, 12289),
        !is_omega_generator(5, 1024, 12289),
        !is_omega_generator(5, 256, 12289),
        !is_omega_generator(6, 1024, 12289),
        !is_omega_generator(6, 256, 12289),
        !is_omega_generator(7, 1024, 12289),
        !is_omega_generator(7, 256, 12289),
        !is_omega_generator(8, 1024, 12289),
        !is_omega_generator(8, 256, 12289),
        !is_omega_generator(9, 1024, 12289),
        !is_omega_generator(9, 256, 12289),
        !is_omega_generator(10, 1024, 12289),
        !is_omega_generator(10, 256, 12289),
{
    assert((12289int - 1) / (2 * 1024int) == 6);
    assert((12289int - 1) / (2 * 256int) == 24);
    lemma_power_2_6_12289();
    lemma_power_64_1024_12289();
    lemma_power_2_24_12289();
    lemma_power_2731_256_12289();
    lemma_power_3_6_12289();
    lemma_power_729_1024_12289();
    lemma_power_3_24_12289();
    lemma_power_2625_256_12289();
    lemma_power_4_6_12289();
    lemma_power_4096_1024_12289();
    lemma_power_4_24_12289();
    lemma_power_11227_256_12289();
    lemma_power_5_6_12289();
    lemma_power_3336_1024_12289();
    lemma_power_5_24_12289();
    lemma_power_2468_256_12289();
    lemma_power_6_6_12289();
    lemma_power_9789_1024_12289();
    lemma_power_6_24_12289();
    lemma_power_4388_256_12289();
    lemma_power_7_6_12289();
    lemma_power_7048_1024_12289();
    lemma_power_7_24_12289();
    lemma_power_9447_256_12289();
    lemma_power_8_6_12289();
    lemma_power_4075_1024_12289();
    lemma_power_8_24_12289();
    lemma_power_12171_256_12289();
    lemma_power_9_6_12289();
    lemma_power_3014_1024_12289();
    lemma_power_9_24_12289();
    lemma_power_8785_256_12289();
    lemma_power_10_6_12289();
    lemma_power_4591_1024_12289();
    lemma_power_10_24_12289();
    lemma_power_5736_256_12289();
}

/// The first root found for the modulus `12289` is that of `11`: `1945` in
/// degree `1024` and `3400` in degree `256`.
pub(crate) proof fn lemma_first_omega_12289(omega: int, n: int)
    requires
        n == 256 || n == 1024,
        is_first_omega(omega, n, 12289),
    ensures
        omega == if n == 1024 { 1945int } else { 3400int },
{
    lemma_small_candidates_12289();
    lemma_eleven_generates_12289();
    let c = choose|c: int|
        2 <= c < 12289 && #[trigger] is_omega_generator(c, n, 12289) && omega == omega_candidate(c, n, 12289)
            && forall|d: int| 2 <= d < c ==> !#[trigger] is_omega_generator(d, n, 12289);
    if c < 11 {
        assert(!is_omega_generator(c, n, 12289));
    } else if c > 11 {
        assert(!is_omega_generator(11, n, 12289));
    }
}

} // verus!
