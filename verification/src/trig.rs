//! The unit circle: `cis(angle) = cos(angle) + i sin(angle)` for binary angles.
//!
//! An angle is a `u64` that counts 2^-64 of a turn, so that adding angles
//! modulo 2^64 is adding them modulo one turn. The two top bits choose the
//! quarter, which is an exact rotation. Each further bit that is set, down to
//! the 36th, rotates by a fixed dyadic root of unity, held with 62 fractional
//! bits; the bits below that are ignored. Every product rounds toward zero,
//! so the result never leaves the unit disk.

use crate::complex::{
    in_unit_disk, lemma_part_bound, lemma_product_near_circle, lemma_product_within,
    lemma_trunc_div_square, lemma_trunc_div_square_lower, negated, norm_sq, product,
    quarter_turned, within, Complex, Gaussian,
};
use crate::fixed::{div_toward_zero, trunc_div, ONE_RAW};
use vstd::prelude::*;

verus! {

/// A quarter of a turn.
pub const QUARTER_TURN: u64 = 0x4000_0000_0000_0000;

/// Half a turn.
pub const HALF_TURN: u64 = 0x8000_0000_0000_0000;

/// Raw value of one at the scale of the dyadic roots: 2^62.
pub const FINE_UNIT: i64 = 0x4000_0000_0000_0000;

/// What remains of the fine scale after narrowing to 32 bits: 2^30.
pub const NARROWING: i64 = 0x4000_0000;

/// The finest root used: `cis` of 2^-36 of a turn.
pub const FINEST_ROOT: u32 = 36;

/// `cis` of 2^-m of a turn at the fine scale, each part rounded down, for
/// `3 <= m <= 36`.
pub open spec fn dyadic_root(m: int) -> Gaussian {
    if m == 3 {
        Gaussian { re: 3260954456333195553, im: 3260954456333195553 }
    } else if m == 4 {
        Gaussian { re: 4260642322793532497, im: 1764815834521887441 }
    } else if m == 5 {
        Gaussian { re: 4523073764714963029, im: 899695310372275547 }
    } else if m == 6 {
        Gaussian { re: 4589479489746651964, im: 452024275624069880 }
    } else if m == 7 {
        Gaussian { re: 4606131040650197959, im: 226284707652502140 }
    } else if m == 8 {
        Gaussian { re: 4610297064819661174, im: 113176440454146015 }
    } else if m == 9 {
        Gaussian { re: 4611338766951757486, im: 56592481536850979 }
    } else if m == 10 {
        Gaussian { re: 4611599204741358746, im: 28296773447188932 }
    } else if m == 11 {
        Gaussian { re: 4611664314954810277, im: 14148453308909940 }
    } else if m == 12 {
        Gaussian { re: 4611680592556051597, im: 7074234977634093 }
    } else if m == 13 {
        Gaussian { re: 4611684661959354333, im: 3537118529214896 }
    } else if m == 14 {
        Gaussian { re: 4611685679310367043, im: 1768559394657193 }
    } else if m == 15 {
        Gaussian { re: 4611685933648131909, im: 884279713584815 }
    } else if m == 16 {
        Gaussian { re: 4611685997232573856, im: 442139858824435 }
    } else if m == 17 {
        Gaussian { re: 4611686013128684389, im: 221069929666220 }
    } else if m == 18 {
        Gaussian { re: 4611686017102712025, im: 110534964864860 }
    } else if m == 19 {
        Gaussian { re: 4611686018096218934, im: 55267482436399 }
    } else if m == 20 {
        Gaussian { re: 4611686018344595661, im: 27633741218695 }
    } else if m == 21 {
        Gaussian { re: 4611686018406689843, im: 13816870609409 }
    } else if m == 22 {
        Gaussian { re: 4611686018422213388, im: 6908435304712 }
    } else if m == 23 {
        Gaussian { re: 4611686018426094275, im: 3454217652357 }
    } else if m == 24 {
        Gaussian { re: 4611686018427064496, im: 1727108826178 }
    } else if m == 25 {
        Gaussian { re: 4611686018427307052, im: 863554413089 }
    } else if m == 26 {
        Gaussian { re: 4611686018427367691, im: 431777206544 }
    } else if m == 27 {
        Gaussian { re: 4611686018427382850, im: 215888603272 }
    } else if m == 28 {
        Gaussian { re: 4611686018427386640, im: 107944301636 }
    } else if m == 29 {
        Gaussian { re: 4611686018427387588, im: 53972150818 }
    } else if m == 30 {
        Gaussian { re: 4611686018427387825, im: 26986075409 }
    } else if m == 31 {
        Gaussian { re: 4611686018427387884, im: 13493037704 }
    } else if m == 32 {
        Gaussian { re: 4611686018427387899, im: 6746518852 }
    } else if m == 33 {
        Gaussian { re: 4611686018427387902, im: 3373259426 }
    } else if m == 34 {
        Gaussian { re: 4611686018427387903, im: 1686629713 }
    } else if m == 35 {
        Gaussian { re: 4611686018427387903, im: 843314856 }
    } else if m == 36 {
        Gaussian { re: 4611686018427387903, im: 421657428 }
    } else {
        Gaussian { re: FINE_UNIT as int, im: 0 }
    }
}

/// The table [`dyadic_root`].
fn dyadic_root_parts(m: u64) -> (r: (i64, i64))
    ensures
        r.0 == dyadic_root(m as int).re,
        r.1 == dyadic_root(m as int).im,
{
    if m == 3 {
        (3260954456333195553, 3260954456333195553)
    } else if m == 4 {
        (4260642322793532497, 1764815834521887441)
    } else if m == 5 {
        (4523073764714963029, 899695310372275547)
    } else if m == 6 {
        (4589479489746651964, 452024275624069880)
    } else if m == 7 {
        (4606131040650197959, 226284707652502140)
    } else if m == 8 {
        (4610297064819661174, 113176440454146015)
    } else if m == 9 {
        (4611338766951757486, 56592481536850979)
    } else if m == 10 {
        (4611599204741358746, 28296773447188932)
    } else if m == 11 {
        (4611664314954810277, 14148453308909940)
    } else if m == 12 {
        (4611680592556051597, 7074234977634093)
    } else if m == 13 {
        (4611684661959354333, 3537118529214896)
    } else if m == 14 {
        (4611685679310367043, 1768559394657193)
    } else if m == 15 {
        (4611685933648131909, 884279713584815)
    } else if m == 16 {
        (4611685997232573856, 442139858824435)
    } else if m == 17 {
        (4611686013128684389, 221069929666220)
    } else if m == 18 {
        (4611686017102712025, 110534964864860)
    } else if m == 19 {
        (4611686018096218934, 55267482436399)
    } else if m == 20 {
        (4611686018344595661, 27633741218695)
    } else if m == 21 {
        (4611686018406689843, 13816870609409)
    } else if m == 22 {
        (4611686018422213388, 6908435304712)
    } else if m == 23 {
        (4611686018426094275, 3454217652357)
    } else if m == 24 {
        (4611686018427064496, 1727108826178)
    } else if m == 25 {
        (4611686018427307052, 863554413089)
    } else if m == 26 {
        (4611686018427367691, 431777206544)
    } else if m == 27 {
        (4611686018427382850, 215888603272)
    } else if m == 28 {
        (4611686018427386640, 107944301636)
    } else if m == 29 {
        (4611686018427387588, 53972150818)
    } else if m == 30 {
        (4611686018427387825, 26986075409)
    } else if m == 31 {
        (4611686018427387884, 13493037704)
    } else if m == 32 {
        (4611686018427387899, 6746518852)
    } else if m == 33 {
        (4611686018427387902, 3373259426)
    } else if m == 34 {
        (4611686018427387903, 1686629713)
    } else if m == 35 {
        (4611686018427387903, 843314856)
    } else if m == 36 {
        (4611686018427387903, 421657428)
    } else {
        (FINE_UNIT, 0)
    }
}

/// Every entry of the table lies in the unit disk of the fine scale.
pub proof fn lemma_root_within(m: int)
    ensures
        within(dyadic_root(m), FINE_UNIT as int),
{
}

/// The bit of `low` that stands for 2^-m of a turn.
pub open spec fn angle_bit(low: u64, m: int) -> bool {
    ((low >> ((64 - m) as u64)) & 1u64) == 1u64
}

/// The product, at the fine scale, of the roots whose bits are set in `low`,
/// from the eighth of a turn down to 2^-m of a turn.
pub open spec fn fine_rotation(low: u64, m: int) -> Gaussian
    decreases m,
{
    if m < 3 {
        Gaussian { re: FINE_UNIT as int, im: 0 }
    } else {
        let p = fine_rotation(low, m - 1);
        if angle_bit(low, m) {
            product(p, dyadic_root(m), FINE_UNIT as int)
        } else {
            p
        }
    }
}

/// `g` brought from the fine scale to the 32-bit scale, rounded toward zero.
pub open spec fn narrowed(g: Gaussian) -> Gaussian {
    Gaussian { re: trunc_div(g.re, NARROWING as int), im: trunc_div(g.im, NARROWING as int) }
}

/// The point of the unit circle at `angle`, as [`cis`] computes it.
pub open spec fn cis_spec(angle: u64) -> Gaussian {
    quarter_turned(
        narrowed(fine_rotation((angle % QUARTER_TURN) as u64, FINEST_ROOT as int)),
        (angle / QUARTER_TURN) as int,
    )
}

/// The sum of two angles, modulo one turn.
pub open spec fn angle_sum(a: u64, b: u64) -> u64 {
    ((a + b) % 0x1_0000_0000_0000_0000) as u64
}

/// The opposite of an angle, modulo one turn.
pub open spec fn angle_opposite(a: u64) -> u64 {
    ((0x1_0000_0000_0000_0000 - a) % 0x1_0000_0000_0000_0000) as u64
}

/// Every fine rotation lies in the unit disk of the fine scale.
pub proof fn lemma_fine_rotation_within(low: u64, m: int)
    ensures
        within(fine_rotation(low, m), FINE_UNIT as int),
    decreases m,
{
    if m >= 3 {
        lemma_fine_rotation_within(low, m - 1);
        lemma_root_within(m);
        lemma_product_within(fine_rotation(low, m - 1), dyadic_root(m), FINE_UNIT as int);
    }
}

/// Narrowing keeps a number of the disk in the disk.
pub proof fn lemma_narrowed_in_disk(g: Gaussian)
    requires
        within(g, FINE_UNIT as int),
    ensures
        in_unit_disk(narrowed(g)),
{
    let n = NARROWING as int;
    let qr = trunc_div(g.re, n);
    let qi = trunc_div(g.im, n);
    lemma_trunc_div_square(g.re, n);
    lemma_trunc_div_square(g.im, n);
    assert((qr * n) * (qr * n) == (qr * qr) * 0x1000_0000_0000_0000) by (nonlinear_arith)
        requires
            n == 0x4000_0000,
    ;
    assert((qi * n) * (qi * n) == (qi * qi) * 0x1000_0000_0000_0000) by (nonlinear_arith)
        requires
            n == 0x4000_0000,
    ;
    assert((FINE_UNIT as int) * (FINE_UNIT as int) == (ONE_RAW as int) * (ONE_RAW as int)
        * 0x1000_0000_0000_0000) by (nonlinear_arith);
}

/// A quarter turn keeps a number of the disk in the disk.
pub proof fn lemma_quarter_turned_in_disk(g: Gaussian, quarters: int)
    requires
        in_unit_disk(g),
    ensures
        in_unit_disk(quarter_turned(g, quarters)),
{
    assert((-g.re) * (-g.re) == g.re * g.re && (-g.im) * (-g.im) == g.im * g.im)
        by (nonlinear_arith);
}

/// Every point that [`cis`] returns lies in the unit disk.
pub proof fn lemma_cis_in_disk(angle: u64)
    ensures
        in_unit_disk(cis_spec(angle)),
{
    let low = (angle % QUARTER_TURN) as u64;
    lemma_fine_rotation_within(low, FINEST_ROOT as int);
    lemma_narrowed_in_disk(fine_rotation(low, FINEST_ROOT as int));
    lemma_quarter_turned_in_disk(
        narrowed(fine_rotation(low, FINEST_ROOT as int)),
        (angle / QUARTER_TURN) as int,
    );
}

/// What the table holds: each entry lies in the first quadrant, and its
/// square is the entry before it, up to two units in each part; the square
/// of the first entry, for the eighth of a turn, is `i`. So each entry is
/// the principal square root of the one before, from `i` down.
pub proof fn lemma_root_squares(m: int)
    requires
        3 <= m <= 36,
    ensures
        dyadic_root(m).re > 0,
        dyadic_root(m).im > 0,
        ({
            let square = product(dyadic_root(m), dyadic_root(m), FINE_UNIT as int);
            let before = if m == 3 {
                Gaussian { re: 0, im: FINE_UNIT as int }
            } else {
                dyadic_root(m - 1)
            };
            &&& -2 <= square.re - before.re <= 2
            &&& -2 <= square.im - before.im <= 2
        }),
{
    if m == 3 {
        assert(3260954456333195553 * 3260954456333195553 - 3260954456333195553 * 3260954456333195553 == 0);
        assert(3260954456333195553 * 3260954456333195553 + 3260954456333195553 * 3260954456333195553 == 21267647932558653965320975225077951618);
        assert(0int / 4611686018427387904 == 0);
        assert(21267647932558653965320975225077951618int / 4611686018427387904 == 4611686018427387903);
    } else if m == 4 {
        assert(4260642322793532497 * 4260642322793532497 - 1764815834521887441 * 1764815834521887441 == 15038498073000281970673321802721526528);
        assert(4260642322793532497 * 1764815834521887441 + 1764815834521887441 * 4260642322793532497 == 15038498073000281964716340288419340354);
        assert(15038498073000281970673321802721526528int / 4611686018427387904 == 3260954456333195552);
        assert(15038498073000281964716340288419340354int / 4611686018427387904 == 3260954456333195551);
    } else if m == 5 {
        assert(4523073764714963029 * 4523073764714963029 - 899695310372275547 * 899695310372275547 == 19648744629546923506445156221942705632);
        assert(4523073764714963029 * 899695310372275547 + 899695310372275547 * 4523073764714963029 == 8138776509163850967790612301411503726);
        assert(19648744629546923506445156221942705632int / 4611686018427387904 == 4260642322793532496);
        assert(8138776509163850967790612301411503726int / 4611686018427387904 == 1764815834521887441);
    } else if m == 6 {
        assert(4589479489746651964 * 4589479489746651964 - 452024275624069880 * 452024275624069880 == 20858996041051723774454484732221842896);
        assert(4589479489746651964 * 452024275624069880 + 452024275624069880 * 4589479489746651964 == 4149112283688512404266160843150488640);
        assert(20858996041051723774454484732221842896int / 4611686018427387904 == 4523073764714963029);
        assert(4149112283688512404266160843150488640int / 4611686018427387904 == 899695310372275546);
    } else if m == 7 {
        assert(4606131040650197959 * 4606131040650197959 - 226284707652502140 * 226284707652502140 == 21165238394723897242052547103183186081);
        assert(4606131040650197959 * 226284707652502140 + 226284707652502140 * 4606131040650197959 == 2084594031885290991577988345342264520);
        assert(21165238394723897242052547103183186081int / 4611686018427387904 == 4589479489746651963);
        assert(2084594031885290991577988345342264520int / 4611686018427387904 == 452024275624069878);
    } else if m == 8 {
        assert(4610297064819661174 * 4610297064819661174 - 113176440454146015 * 113176440454146015 == 21242030119210912245963808909222678051);
        assert(4610297064819661174 * 113176440454146015 + 113176440454146015 * 4610297064819661174 == 1043554022464973067267172751644643220);
        assert(21242030119210912245963808909222678051int / 4611686018427387904 == 4606131040650197958);
        assert(1043554022464973067267172751644643220int / 4611686018427387904 == 226284707652502139);
    } else if m == 9 {
        assert(4611338766951757486 * 4611338766951757486 - 56592481536850979 * 56592481536850979 == 21261242514625656320004860092503781755);
        assert(4611338766951757486 * 56592481536850979 + 56592481536850979 * 4611338766951757486 == 521934208057764989963533236259357588);
        assert(21261242514625656320004860092503781755int / 4611686018427387904 == 4610297064819661172);
        assert(521934208057764989963533236259357588int / 4611686018427387904 == 113176440454146015);
    } else if m == 10 {
        assert(4611599204741358746 * 4611599204741358746 - 28296773447188932 * 28296773447188932 == 21266046517783610885819878345367391892);
        assert(4611599204741358746 * 28296773447188932 + 28296773447188932 * 4611599204741358746 == 260986755851605750654928423705198544);
        assert(21266046517783610885819878345367391892int / 4611686018427387904 == 4611338766951757485);
        assert(260986755851605750654928423705198544int / 4611686018427387904 == 56592481536850978);
    } else if m == 11 {
        assert(4611664314954810277 * 4611664314954810277 - 14148453308909940 * 14148453308909940 == 21267247575096585154444301630034013129);
        assert(4611664314954810277 * 14148453308909940 + 14148453308909940 * 4611664314954810277 == 130495834473008554321766052758906760);
        assert(21267247575096585154444301630034013129int / 4611686018427387904 == 4611599204741358746);
        assert(130495834473008554321766052758906760int / 4611686018427387904 == 28296773447188931);
    } else if m == 12 {
        assert(4611680592556051597 * 4611680592556051597 - 7074234977634093 * 7074234977634093 == 21267547842957616398743916282730317760);
        assert(4611680592556051597 * 7074234977634093 + 7074234977634093 * 4611680592556051597 == 65248224307072680844979505388593042);
        assert(21267547842957616398743916282730317760int / 4611686018427387904 == 4611664314954810276);
        assert(65248224307072680844979505388593042int / 4611686018427387904 == 14148453308909939);
    } else if m == 13 {
        assert(4611684661959354333 * 4611684661959354333 - 3537118529214896 * 3537118529214896 == 21267622910143674530491245100097584073);
        assert(4611684661959354333 * 3537118529214896 + 3537118529214896 * 4611684661959354333 == 32624150537425132486494307131488736);
        assert(21267622910143674530491245100097584073int / 4611686018427387904 == 4611680592556051596);
        assert(32624150537425132486494307131488736int / 4611686018427387904 == 7074234977634093);
    } else if m == 14 {
        assert(4611685679310367043 * 4611685679310367043 - 1768559394657193 * 1768559394657193 == 21267641676953989105752738021393924600);
        assert(4611685679310367043 * 1768559394657193 + 1768559394657193 * 4611685679310367043 == 16312080066700777244257339980180598);
        assert(21267641676953989105752738021393924600int / 4611686018427387904 == 4611684661959354333);
        assert(16312080066700777244257339980180598int / 4611686018427387904 == 3537118529214894);
    } else if m == 15 {
        assert(4611685933648131909 * 4611685933648131909 - 884279713584815 * 884279713584815 == 21267646368657430246705097107265400056);
        assert(4611685933648131909 * 884279713584815 + 884279713584815 * 4611685933648131909 == 8156040633098980473526188758723670);
        assert(21267646368657430246705097107265400056int / 4611686018427387904 == 4611685679310367042);
        assert(8156040633098980473526188758723670int / 4611686018427387904 == 1768559394657192);
    } else if m == 16 {
        assert(4611685997232573856 * 4611685997232573856 - 442139858824435 * 442139858824435 == 21267647541583344437729767122341639511);
        assert(4611685997232573856 * 442139858824435 + 442139858824435 * 4611685997232573856 == 4078020391518067885589578949942720);
        assert(21267647541583344437729767122341639511int / 4611686018427387904 == 4611685933648131908);
        assert(4078020391518067885589578949942720int / 4611686018427387904 == 884279713584815);
    } else if m == 17 {
        assert(4611686013128684389 * 4611686013128684389 - 221069929666220 * 221069929666220 == 21267647834814826360074604145363214921);
        assert(4611686013128684389 * 221069929666220 + 221069929666220 * 4611686013128684389 == 2039010205130097562812460989279160);
        assert(21267647834814826360074604145363214921int / 4611686018427387904 == 4611685997232573856);
        assert(2039010205130097562812460989279160int / 4611686018427387904 == 442139858824433);
    } else if m == 18 {
        assert(4611686017102712025 * 4611686017102712025 - 110534964864860 * 110534964864860 == 21267647908122697050275223932016781025);
        assert(4611686017102712025 * 110534964864860 + 110534964864860 * 4611686017102712025 == 1019505103736428853474387243883000);
        assert(21267647908122697050275223932016781025int / 4611686018427387904 == 4611686013128684388);
        assert(1019505103736428853474387243883000int / 4611686018427387904 == 221069929666219);
    } else if m == 19 {
        assert(4611686018096218934 * 4611686018096218934 - 55267482436399 * 55267482436399 == 21267647926449664734340915762180009155);
        assert(4611686018096218934 * 55267482436399 + 55267482436399 * 4611686018096218934 == 509752552014639241628152069157332);
        assert(21267647926449664734340915762180009155int / 4611686018427387904 == 4611686017102712024);
        assert(509752552014639241628152069157332int / 4611686018427387904 == 110534964864860);
    } else if m == 20 {
        assert(4611686018344595661 * 4611686018344595661 - 27633741218695 * 27633741218695 == 21267647931031406653771278941762523896);
        assert(4611686018344595661 * 27633741218695 + 27633741218695 * 4611686018344595661 == 254876276025616958055338298164790);
        assert(21267647931031406653771278941762523896int / 4611686018427387904 == 4611686018096218933);
        assert(254876276025616958055338298164790int / 4611686018427387904 == 55267482436397);
    } else if m == 21 {
        assert(4611686018406689843 * 4611686018406689843 - 13816870609409 * 13816870609409 == 21267647932176842135979676745360035368);
        assert(4611686018406689843 * 13816870609409 + 13816870609409 * 4611686018406689843 == 127438138015091610964507721065574);
        assert(21267647932176842135979676745360035368int / 4611686018427387904 == 4611686018344595660);
        assert(127438138015091610964507721065574int / 4611686018427387904 == 27633741218693);
    } else if m == 22 {
        assert(4611686018422213388 * 4611686018422213388 - 6908435304712 * 6908435304712 == 21267647932463201001922890928717035600);
        assert(4611686018422213388 * 6908435304712 + 6908435304712 * 4611686018422213388 == 63719069007829467585194531768512);
        assert(21267647932463201001922890928717035600int / 4611686018427387904 == 4611686018406689841);
        assert(63719069007829467585194531768512int / 4611686018427387904 == 13816870609408);
    } else if m == 23 {
        assert(4611686018426094275 * 4611686018426094275 - 3454217652357 * 3454217652357 == 21267647932534790725326395526680120176);
        assert(4611686018426094275 * 3454217652357 + 3454217652357 * 4611686018426094275 == 31859534503950768021398515912350);
        assert(21267647932534790725326395526680120176int / 4611686018427387904 == 4611686018422213388);
        assert(31859534503950768021398515912350int / 4611686018427387904 == 6908435304712);
    } else if m == 24 {
        assert(4611686018427064496 * 4611686018427064496 - 1727108826178 * 1727108826178 == 21267647932552688149259755990725646332);
        assert(4611686018427064496 * 1727108826178 + 1727108826178 * 4611686018427064496 == 15929767251974123679185718352576);
        assert(21267647932552688149259755990725646332int / 4611686018427387904 == 4611686018426094273);
        assert(15929767251974123679185718352576int / 4611686018427387904 == 3454217652355);
    } else if m == 25 {
        assert(4611686018427307052 * 4611686018427307052 - 863554413089 * 863554413089 == 21267647932557162512160623701434408783);
        assert(4611686018427307052 * 863554413089 + 863554413089 * 4611686018427307052 == 7964883625987480760201301607256);
        assert(21267647932557162512160623701434408783int / 4611686018427387904 == 4611686018427064496);
        assert(7964883625987480760201301607256int / 4611686018427387904 == 1727108826177);
    } else if m == 26 {
        assert(4611686018427367691 * 4611686018427367691 - 431777206544 * 431777206544 == 21267647932558281102885841079274247545);
        assert(4611686018427367691 * 431777206544 + 431777206544 * 4611686018427367691 == 3982441812989181059158278739808);
        assert(21267647932558281102885841079274247545int / 4611686018427387904 == 4611686018427307052);
        assert(3982441812989181059158278739808int / 4611686018427387904 == 863554413087);
    } else if m == 27 {
        assert(4611686018427382850 * 4611686018427382850 - 215888603272 * 215888603272 == 21267647932558560743649615965465016516);
        assert(4611686018427382850 * 215888603272 + 215888603272 * 4611686018427382850 == 1991220906494597074889813370400);
        assert(21267647932558560743649615965465016516int / 4611686018427387904 == 4611686018427367689);
        assert(1991220906494597074889813370400int / 4611686018427387904 == 431777206543);
    } else if m == 28 {
        assert(4611686018427386640 * 4611686018427386640 - 107944301636 * 107944301636 == 21267647932558630656146402696298213104);
        assert(4611686018427386640 * 107944301636 + 107944301636 * 4611686018427386640 == 995610453247299355662713086080);
        assert(21267647932558630656146402696298213104int / 4611686018427387904 == 4611686018427382849);
        assert(995610453247299355662713086080int / 4611686018427387904 == 215888603271);
    } else if m == 29 {
        assert(4611686018427387588 * 4611686018427387588 - 53972150818 * 53972150818 == 21267647932558648138882285397438388620);
        assert(4611686018427387588 * 53972150818 + 53972150818 * 4611686018427387588 == 497805226623649780162554493968);
        assert(21267647932558648138882285397438388620int / 4611686018427387904 == 4611686018427386640);
        assert(497805226623649780162554493968int / 4611686018427387904 == 107944301635);
    } else if m == 30 {
        assert(4611686018427387825 * 4611686018427387825 - 26986075409 * 26986075409 == 21267647932558652509566256072723713344);
        assert(4611686018427387825 * 26986075409 + 26986075409 * 4611686018427387825 == 248902613311824902872676990850);
        assert(21267647932558652509566256072723713344int / 4611686018427387904 == 4611686018427387588);
        assert(248902613311824902872676990850int / 4611686018427387904 == 53972150817);
    } else if m == 31 {
        assert(4611686018427387884 * 4611686018427387884 - 13493037704 * 13493037704 == 21267647932558653599931405745824405840);
        assert(4611686018427387884 * 13493037704 + 13493037704 * 4611686018427387884 == 124451306651300767010089556672);
        assert(21267647932558653599931405745824405840int / 4611686018427387904 == 4611686018427387824);
        assert(124451306651300767010089556672int / 4611686018427387904 == 26986075407);
    } else if m == 32 {
        assert(4611686018427387899 * 4611686018427387899 - 6746518852 * 6746518852 == 21267647932558653874828536159820236297);
        assert(4611686018427387899 * 6746518852 + 6746518852 * 4611686018427387899 == 62225653325650383707440343896);
        assert(21267647932558653874828536159820236297int / 4611686018427387904 == 4611686018427387884);
        assert(62225653325650383707440343896int / 4611686018427387904 == 13493037703);
    } else if m == 33 {
        assert(4611686018427387902 * 4611686018427387902 - 3373259426 * 3373259426 == 21267647932558653936635289735678112128);
        assert(4611686018427387902 * 3373259426 + 3373259426 * 4611686018427387902 == 31112826662825191873959728504);
        assert(21267647932558653936635289735678112128int / 4611686018427387904 == 4611686018427387897);
        assert(31112826662825191873959728504int / 4611686018427387904 == 6746518851);
    } else if m == 34 {
        assert(4611686018427387903 * 4611686018427387903 - 1686629713 * 1686629713 == 21267647932558653954392821138856275040);
        assert(4611686018427387903 * 1686629713 + 1686629713 * 4611686018427387903 == 15556413331412595940353123678);
        assert(21267647932558653954392821138856275040int / 4611686018427387904 == 4611686018427387901);
        assert(15556413331412595940353123678int / 4611686018427387904 == 3373259425);
    } else if m == 35 {
        assert(4611686018427387903 * 4611686018427387903 - 843314856 * 843314856 == 21267647932558653956526360981280436673);
        assert(4611686018427387903 * 843314856 + 843314856 * 4611686018427387903 == 7778206661094611951749173936);
        assert(21267647932558653956526360981280436673int / 4611686018427387904 == 4611686018427387901);
        assert(7778206661094611951749173936int / 4611686018427387904 == 1686629711);
    } else if m == 36 {
        assert(4611686018427387903 * 4611686018427387903 - 421657428 * 421657428 == 21267647932558653957059745941043162225);
        assert(4611686018427387903 * 421657428 + 421657428 * 4611686018427387903 == 3889103330547305975874586968);
        assert(21267647932558653957059745941043162225int / 4611686018427387904 == 4611686018427387901);
        assert(3889103330547305975874586968int / 4611686018427387904 == 843314855);
    }
}

/// Every entry of the table lacks at most four units of the squared modulus
/// one.
pub proof fn lemma_root_near_circle(m: int)
    ensures
        norm_sq(dyadic_root(m)) >= (FINE_UNIT as int) * (FINE_UNIT as int) - 4 * FINE_UNIT,
{
}

/// Every fine rotation is near the unit circle: each root that goes into it
/// takes at most eight units of the squared modulus.
pub proof fn lemma_fine_rotation_near_circle(low: u64, m: int)
    requires
        2 <= m <= 36,
    ensures
        norm_sq(fine_rotation(low, m)) >= (FINE_UNIT as int) * (FINE_UNIT as int) - 8 * (m - 2)
            * FINE_UNIT,
    decreases m,
{
    let unit = FINE_UNIT as int;
    if m >= 3 {
        lemma_fine_rotation_near_circle(low, m - 1);
        lemma_fine_rotation_within(low, m - 1);
        lemma_root_within(m);
        lemma_root_near_circle(m);
        assert(0 <= 8 * (m - 3) * unit <= unit * unit && 4 * unit <= unit * unit
            && 8 * (m - 3) * unit + 4 * unit + 4 * unit == 8 * (m - 2) * unit)
            by (nonlinear_arith)
            requires
                3 <= m <= 36,
                unit == 0x4000_0000_0000_0000,
        ;
        lemma_product_near_circle(
            fine_rotation(low, m - 1),
            dyadic_root(m),
            unit,
            8 * (m - 3) * unit,
            4 * unit,
        );
    } else {
        assert(8 * (m - 2) * unit == 0) by (nonlinear_arith)
            requires
                m == 2,
        ;
    }
}

/// Narrowing keeps a number near the circle near the circle.
pub proof fn lemma_narrowed_near_circle(g: Gaussian, lacking: int)
    requires
        within(g, FINE_UNIT as int),
        0 <= lacking,
        norm_sq(g) >= (FINE_UNIT as int) * (FINE_UNIT as int) - lacking,
    ensures
        0x1000_0000_0000_0000 * norm_sq(narrowed(g)) >= 0x1000_0000_0000_0000 * ((ONE_RAW as int)
            * (ONE_RAW as int) - 4 * ONE_RAW) - lacking,
{
    let n = NARROWING as int;
    let unit = FINE_UNIT as int;
    let one = ONE_RAW as int;
    let qr = trunc_div(g.re, n);
    let qi = trunc_div(g.im, n);
    lemma_part_bound(g, unit);
    lemma_trunc_div_square_lower(g.re, n);
    lemma_trunc_div_square_lower(g.im, n);
    let sr = if g.re >= 0 { g.re } else { -g.re };
    let si = if g.im >= 0 { g.im } else { -g.im };
    assert((qr * n) * (qr * n) == (qr * qr) * 0x1000_0000_0000_0000) by (nonlinear_arith)
        requires
            n == 0x4000_0000,
    ;
    assert((qi * n) * (qi * n) == (qi * qi) * 0x1000_0000_0000_0000) by (nonlinear_arith)
        requires
            n == 0x4000_0000,
    ;
    assert(unit * unit == 0x1000_0000_0000_0000 * (one * one) && 4 * n * unit
        == 0x1000_0000_0000_0000 * (4 * one)) by (nonlinear_arith)
        requires
            unit == 0x4000_0000_0000_0000,
            one == 0x1_0000_0000,
            n == 0x4000_0000,
    ;
    let k = qr * qr + qi * qi;
    assert(0x1000_0000_0000_0000 * k >= (g.re * g.re + g.im * g.im) - 4 * n * unit)
        by (nonlinear_arith)
        requires
            k == qr * qr + qi * qi,
            (qr * qr) * 0x1000_0000_0000_0000 >= g.re * g.re - 2 * n * sr,
            (qi * qi) * 0x1000_0000_0000_0000 >= g.im * g.im - 2 * n * si,
            sr <= unit,
            si <= unit,
            n > 0,
    ;
}

/// Every point that [`cis`] returns is near the unit circle: its squared
/// modulus lacks less than five raw units of one, so its modulus less than
/// three.
pub proof fn lemma_cis_near_circle(angle: u64)
    ensures
        norm_sq(cis_spec(angle)) >= (ONE_RAW as int) * (ONE_RAW as int) - 5 * ONE_RAW,
{
    let low = (angle % QUARTER_TURN) as u64;
    let fine = fine_rotation(low, FINEST_ROOT as int);
    let unit = FINE_UNIT as int;
    lemma_fine_rotation_within(low, 36);
    lemma_fine_rotation_near_circle(low, 36);
    assert(8 * (36 - 2) * unit == 272 * unit) by (nonlinear_arith);
    lemma_narrowed_near_circle(fine, 272 * unit);
    let g = narrowed(fine);
    let one = ONE_RAW as int;
    assert(norm_sq(g) >= one * one - 5 * one) by (nonlinear_arith)
        requires
            0x1000_0000_0000_0000 * norm_sq(g) >= 0x1000_0000_0000_0000 * (one * one - 4 * one)
                - 272 * unit,
            unit == 0x4000_0000_0000_0000,
            one == 0x1_0000_0000,
    ;
    assert((-g.re) * (-g.re) == g.re * g.re && (-g.im) * (-g.im) == g.im * g.im)
        by (nonlinear_arith);
}

/// With no bit set nothing is rotated.
proof fn lemma_fine_rotation_zero(m: int)
    requires
        m <= 36,
    ensures
        fine_rotation(0, m) == (Gaussian { re: FINE_UNIT as int, im: 0 }),
    decreases m,
{
    if m >= 3 {
        lemma_fine_rotation_zero(m - 1);
        let s = (64 - m) as u64;
        assert(((0u64 >> s) & 1u64) != 1u64) by (bit_vector);
    }
}

/// At the angle zero `cis` is exactly one.
pub proof fn lemma_cis_zero()
    ensures
        cis_spec(0) == (Gaussian { re: ONE_RAW as int, im: 0 }),
{
    lemma_fine_rotation_zero(36);
    assert(trunc_div(FINE_UNIT as int, NARROWING as int) == ONE_RAW as int);
    assert(trunc_div(0, NARROWING as int) == 0);
}

/// A quarter of a turn more is a multiplication by `i`, exactly.
pub proof fn lemma_cis_quarter(angle: u64)
    ensures
        cis_spec(angle_sum(angle, QUARTER_TURN)) == quarter_turned(cis_spec(angle), 1),
{
    let next = angle_sum(angle, QUARTER_TURN);
    assert(next % QUARTER_TURN == angle % QUARTER_TURN);
    assert(next / QUARTER_TURN == (angle / QUARTER_TURN + 1) % 4);
}

/// Half a turn more is the opposite number, exactly.
pub proof fn lemma_cis_half(angle: u64)
    ensures
        cis_spec(angle_sum(angle, HALF_TURN)) == negated(cis_spec(angle)),
{
    let next = angle_sum(angle, HALF_TURN);
    assert(next % QUARTER_TURN == angle % QUARTER_TURN);
    assert(next / QUARTER_TURN == (angle / QUARTER_TURN + 2) % 4);
}

/// Product at the fine scale of two numbers of the unit disk.
fn mul_fine(a: (i64, i64), b: (i64, i64)) -> (r: (i64, i64))
    requires
        within(Gaussian { re: a.0 as int, im: a.1 as int }, FINE_UNIT as int),
        within(Gaussian { re: b.0 as int, im: b.1 as int }, FINE_UNIT as int),
    ensures
        (Gaussian { re: r.0 as int, im: r.1 as int }) == product(
            Gaussian { re: a.0 as int, im: a.1 as int },
            Gaussian { re: b.0 as int, im: b.1 as int },
            FINE_UNIT as int,
        ),
        within(Gaussian { re: r.0 as int, im: r.1 as int }, FINE_UNIT as int),
{
    let ghost ga = Gaussian { re: a.0 as int, im: a.1 as int };
    let ghost gb = Gaussian { re: b.0 as int, im: b.1 as int };
    proof {
        lemma_part_bound(ga, FINE_UNIT as int);
        lemma_part_bound(gb, FINE_UNIT as int);
        lemma_product_within(ga, gb, FINE_UNIT as int);
        lemma_part_bound(product(ga, gb, FINE_UNIT as int), FINE_UNIT as int);
    }
    let x: i128 = a.0 as i128;
    let y: i128 = a.1 as i128;
    let z: i128 = b.0 as i128;
    let w: i128 = b.1 as i128;
    assert(-0x1000_0000_0000_0000_0000_0000_0000_0000 <= x * z
        <= 0x1000_0000_0000_0000_0000_0000_0000_0000
        && -0x1000_0000_0000_0000_0000_0000_0000_0000 <= y * w
        <= 0x1000_0000_0000_0000_0000_0000_0000_0000
        && -0x1000_0000_0000_0000_0000_0000_0000_0000 <= x * w
        <= 0x1000_0000_0000_0000_0000_0000_0000_0000
        && -0x1000_0000_0000_0000_0000_0000_0000_0000 <= y * z
        <= 0x1000_0000_0000_0000_0000_0000_0000_0000) by (nonlinear_arith)
        requires
            -0x4000_0000_0000_0000 <= x <= 0x4000_0000_0000_0000,
            -0x4000_0000_0000_0000 <= y <= 0x4000_0000_0000_0000,
            -0x4000_0000_0000_0000 <= z <= 0x4000_0000_0000_0000,
            -0x4000_0000_0000_0000 <= w <= 0x4000_0000_0000_0000,
    ;
    let re: i128 = div_toward_zero(x * z - y * w, FINE_UNIT as i128);
    let im: i128 = div_toward_zero(x * w + y * z, FINE_UNIT as i128);
    (re as i64, im as i64)
}

/// The point of the unit circle at `angle`: `cos + i sin` of `angle / 2^64`
/// turns, counter-clockwise from one.
pub fn cis(angle: u64) -> (r: Complex)
    ensures
        r@ == cis_spec(angle),
        in_unit_disk(r@),
        norm_sq(r@) >= (ONE_RAW as int) * (ONE_RAW as int) - 5 * ONE_RAW,
{
    let quarters: u64 = angle / QUARTER_TURN;
    let low: u64 = angle % QUARTER_TURN;
    let mut acc: (i64, i64) = (FINE_UNIT, 0);
    let mut m: u64 = 3;
    while m <= 36
        invariant
            3 <= m <= 37,
            (Gaussian { re: acc.0 as int, im: acc.1 as int }) == fine_rotation(low, m - 1),
            within(Gaussian { re: acc.0 as int, im: acc.1 as int }, FINE_UNIT as int),
        decreases 37 - m,
    {
        if (low >> (64 - m)) & 1 == 1 {
            let root = dyadic_root_parts(m);
            proof {
                lemma_root_within(m as int);
            }
            acc = mul_fine(acc, root);
        }
        m = m + 1;
    }
    proof {
        lemma_cis_in_disk(angle);
        lemma_cis_near_circle(angle);
        lemma_part_bound(Gaussian { re: acc.0 as int, im: acc.1 as int }, FINE_UNIT as int);
    }
    let re: i64 = div_toward_zero(acc.0 as i128, NARROWING as i128) as i64;
    let im: i64 = div_toward_zero(acc.1 as i128, NARROWING as i128) as i64;
    if quarters == 0 {
        Complex::from_raw(re, im)
    } else if quarters == 1 {
        Complex::from_raw(-im, re)
    } else if quarters == 2 {
        Complex::from_raw(-re, -im)
    } else {
        Complex::from_raw(im, -re)
    }
}

} // verus!
