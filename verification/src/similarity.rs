//! Cosine similarity of embeddings, in double precision.
use crate::arithmetic::{lemma_nearest_zero, lemma_small_powers, product, sum, Value};
use crate::conversion::{less, rescaled};
use crate::division::{quotient, root};
use crate::encoding::{
    binary32, binary32_is_told_by_its_bits, binary64, Binary32, Binary64,
};
use crate::error::Error;
use crate::number::{nearest, nearest_root, Number};
use crate::rounding::{
    lemma_nearest_doubles, lemma_nearest_exact, lemma_nearest_keeps_order, lemma_nearest_ratio,
    lemma_nearest_representable, lemma_nearest_root_at_least, lemma_nearest_root_doubles,
    lemma_pow2_le, lemma_power_representable, lemma_root_of_rounded_square, representable,
};
use crate::EMBEDDING;
use vstd::arithmetic::power2::{lemma_pow2_adds, lemma_pow2_pos, lemma_pow2_unfold, pow2};
use vstd::math::abs;
use vstd::prelude::*;

verus! {

/// A component in double precision.
pub open spec fn widened(x: Binary32) -> Number {
    x@.rescaled(925)
}

pub open spec fn all_finite(a: Seq<Binary32>) -> bool {
    forall|i: int| 0 <= i < a.len() ==> (#[trigger] a[i])@.is_finite()
}

/// Sum of the products of the first `n` components, from the first on. The sum of none is the
/// negative zero, which leaves every number unchanged that is added to it.
pub open spec fn dot(a: Seq<Binary32>, b: Seq<Binary32>, n: nat) -> Number
    decreases n,
{
    if n == 0 {
        Number::Finite { negative: true, magnitude: 0 }
    } else {
        let f = binary64();
        f.sum(dot(a, b, (n - 1) as nat), f.product(widened(a[n - 1]), widened(b[n - 1])))
    }
}

/// Product of the lengths of both embeddings.
pub open spec fn lengths(a: Seq<Binary32>, b: Seq<Binary32>) -> Number {
    let f = binary64();
    f.root(f.product(dot(a, a, a.len()), dot(b, b, b.len())))
}

/// The length zero is refused: the product of the lengths has to be positive.
pub open spec fn has_direction(a: Seq<Binary32>, b: Seq<Binary32>) -> bool {
    (Number::Finite { negative: false, magnitude: 0 }).less(lengths(a, b))
}

/// The cosine of the angle between two embeddings.
pub open spec fn cosine(a: Seq<Binary32>, b: Seq<Binary32>) -> Number {
    binary64().quotient(dot(a, b, a.len()), lengths(a, b))
}

/// A component in double precision.
fn widen(x: Binary32) -> (r: Value)
    ensures
        r.wf(binary64()),
        r@ == widened(x),
{
    rescaled(binary32(), binary64(), 925, x.value())
}

/// Whether all components are finite.
fn is_all_finite(a: &[Binary32; EMBEDDING]) -> (r: bool)
    ensures
        r == all_finite(a@),
{
    let mut i: usize = 0;
    while i < EMBEDDING
        invariant
            i <= EMBEDDING,
            a@.len() == EMBEDDING,
            forall|j: int| 0 <= j < i ==> (#[trigger] a@[j])@.is_finite(),
        decreases EMBEDDING - i,
    {
        match a[i].value() {
            Value::Finite { .. } => {},
            _ => {
                assert(!a@[i as int]@.is_finite());
                return false;
            },
        }
        i = i + 1;
    }
    true
}

/// Sum of the products of the components.
fn dot_product(a: &[Binary32; EMBEDDING], b: &[Binary32; EMBEDDING]) -> (r: Value)
    ensures
        r.wf(binary64()),
        r@ == dot(a@, b@, EMBEDDING as nat),
{
    let f = binary64();
    let mut total = Value::Finite { negative: true, significand: 0, exponent: 0 };
    proof {
        lemma_pow2_pos(53);
        assert(0 * pow2(0) == 0) by (nonlinear_arith);
    }
    let mut i: usize = 0;
    while i < EMBEDDING
        invariant
            f == binary64(),
            i <= EMBEDDING,
            a@.len() == EMBEDDING,
            b@.len() == EMBEDDING,
            total.wf(f),
            total@ == dot(a@, b@, i as nat),
        decreases EMBEDDING - i,
    {
        total = sum(f, total, product(f, widen(a[i]), widen(b[i])));
        i = i + 1;
    }
    total
}

/// Cosine similarity; rejects non-finite or zero-length embeddings.
#[verifier::rlimit(40)]
pub fn similarity(a: &[Binary32; EMBEDDING], b: &[Binary32; EMBEDDING]) -> (r: Result<
    Binary64,
    Error,
>)
    ensures
        r == Err::<Binary64, Error>(Error::NonFinite) <==> !(all_finite(a@) && all_finite(b@)),
        r == Err::<Binary64, Error>(Error::ZeroEmbedding) <==> all_finite(a@) && all_finite(b@)
            && (all_zero(a@) || all_zero(b@)),
        r matches Err(e) ==> e == Error::NonFinite || e == Error::ZeroEmbedding,
        r == Err::<Binary64, Error>(Error::NonFinite) <==> !((forall|i: int|
            0 <= i < EMBEDDING ==> (#[trigger] a@[i]).bits < 0x7f80_0000 || 0x8000_0000
                <= a@[i].bits < 0xff80_0000) && (forall|i: int|
            0 <= i < EMBEDDING ==> (#[trigger] b@[i]).bits < 0x7f80_0000 || 0x8000_0000
                <= b@[i].bits < 0xff80_0000)),
        r == Err::<Binary64, Error>(Error::ZeroEmbedding) ==> (forall|i: int|
            0 <= i < EMBEDDING ==> (#[trigger] a@[i]).bits == 0 || a@[i].bits == 0x8000_0000) || (
        forall|i: int|
            0 <= i < EMBEDDING ==> (#[trigger] b@[i]).bits == 0 || b@[i].bits == 0x8000_0000),
        r is Ok ==> exists|i: int|
            0 <= i < EMBEDDING && (#[trigger] a@[i]).bits != 0 && a@[i].bits != 0x8000_0000,
        r is Ok ==> exists|i: int|
            0 <= i < EMBEDDING && (#[trigger] b@[i]).bits != 0 && b@[i].bits != 0x8000_0000,
        r matches Ok(s) ==> s@ == cosine(a@, b@) && s@.is_finite(),
{
    proof {
        lemma_told_by_bits(a@);
        lemma_told_by_bits(b@);
    }
    if !is_all_finite(a) || !is_all_finite(b) {
        return Err(Error::NonFinite);
    }
    let f = binary64();
    let dot_ab = dot_product(a, b);
    let lengths_ab = root(f, product(f, dot_product(a, a), dot_product(b, b)));
    let zero = Value::Finite { negative: false, significand: 0, exponent: 0 };
    proof {
        lemma_pow2_pos(53);
        assert(0 * pow2(0) == 0) by (nonlinear_arith);
        assert(a@.len() == EMBEDDING && b@.len() == EMBEDDING);
        zero_length_is_refused(a@, b@);
    }
    if less(f, zero, lengths_ab) {
        Ok(Binary64::from_value(quotient(f, dot_ab, lengths_ab)))
    } else {
        Err(Error::ZeroEmbedding)
    }
}

/// What the bits of components say of an embedding.
proof fn lemma_told_by_bits(a: Seq<Binary32>)
    requires
        a.len() == EMBEDDING,
    ensures
        all_finite(a) <==> forall|i: int|
            0 <= i < EMBEDDING ==> (#[trigger] a[i]).bits < 0x7f80_0000 || 0x8000_0000 <= a[i].bits
                < 0xff80_0000,
        all_zero(a) ==> forall|i: int|
            0 <= i < EMBEDDING ==> (#[trigger] a[i]).bits == 0 || a[i].bits == 0x8000_0000,
        !all_zero(a) ==> exists|i: int|
            0 <= i < EMBEDDING && (#[trigger] a[i]).bits != 0 && a[i].bits != 0x8000_0000,
{
    assert forall|i: int| 0 <= i < EMBEDDING implies (#[trigger] a[i])@.is_finite() == (a[i].bits
        < 0x7f80_0000 || 0x8000_0000 <= a[i].bits < 0xff80_0000) && a[i]@.is_zero() == (a[i].bits
        == 0 || a[i].bits == 0x8000_0000) by {
        binary32_is_told_by_its_bits(a[i]);
    }
}

/// Similarity does not depend on the order of the two embeddings: neither which error comes nor
/// the cosine.
pub proof fn similarity_is_symmetric(a: Seq<Binary32>, b: Seq<Binary32>)
    requires
        a.len() == b.len(),
    ensures
        has_direction(a, b) == has_direction(b, a),
        cosine(a, b) == cosine(b, a),
{
    lemma_dot_symmetric(a, b, a.len());
    lemma_product_symmetric(dot(a, a, a.len()), dot(b, b, b.len()));
}

proof fn lemma_product_symmetric(x: Number, y: Number)
    ensures
        binary64().product(x, y) == binary64().product(y, x),
{
    if let (
        Number::Finite { magnitude: m, .. },
        Number::Finite { magnitude: n, .. },
    ) = (x, y) {
        assert(m * n == n * m) by (nonlinear_arith);
    }
}

proof fn lemma_dot_symmetric(a: Seq<Binary32>, b: Seq<Binary32>, n: nat)
    ensures
        dot(a, b, n) == dot(b, a, n),
    decreases n,
{
    if n > 0 {
        lemma_dot_symmetric(a, b, (n - 1) as nat);
        lemma_product_symmetric(widened(a[n - 1]), widened(b[n - 1]));
    }
}

pub open spec fn all_zero(a: Seq<Binary32>) -> bool {
    forall|i: int| 0 <= i < a.len() ==> (#[trigger] a[i])@.is_zero()
}

/// Encoded numbers are below the limit of their format.
proof fn lemma_encoded_magnitude(x: Binary32)
    ensures
        x@ matches Number::Finite { magnitude, .. } ==> magnitude < pow2(277),
{
    let exponent = (x.bits / 0x80_0000) % 0x100;
    let fraction = x.bits % 0x80_0000;
    assert(pow2(24) == 0x100_0000) by {
        vstd::arithmetic::power2::lemma2_to64();
    }
    lemma_pow2_le(24, 277);
    if 0 < exponent < 0xff {
        let e = (exponent - 1) as nat;
        lemma_pow2_adds(24, e);
        lemma_pow2_le(24 + e, 277);
        lemma_pow2_pos(e);
        assert((fraction + 0x80_0000) * pow2(e) < 0x100_0000 * pow2(e)) by (nonlinear_arith)
            requires
                fraction < 0x80_0000,
                pow2(e) > 0,
        ;
    }
}

/// The product of two finite components: zero where one of them is, else within bounds.
pub proof fn lemma_component_product(x: Binary32, y: Binary32)
    requires
        x@.is_finite(),
        y@.is_finite(),
    ensures
        ({
            let p = binary64().product(widened(x), widened(y));
            &&& p is Finite
            &&& p->Finite_negative == (x@->Finite_negative != y@->Finite_negative)
            &&& p->Finite_magnitude <= pow2(1330)
            &&& p.is_zero() <==> (x@.is_zero() || y@.is_zero())
            &&& !p.is_zero() ==> p->Finite_magnitude >= pow2(776)
        }),
{
    lemma_encoded_magnitude(x);
    lemma_encoded_magnitude(y);
    let a = x@->Finite_magnitude;
    let b = y@->Finite_magnitude;
    let w = pow2(925);
    let n = (a * w) * (b * w);
    lemma_pow2_adds(925, 925);
    lemma_pow2_adds(277, 277);
    lemma_pow2_adds(554, 1850);
    lemma_pow2_adds(1330, 1074);
    lemma_pow2_adds(776, 1074);
    lemma_pow2_pos(1850);
    lemma_pow2_pos(1074);
    lemma_pow2_pos(776);
    lemma_pow2_le(1331, 2098);
    lemma_pow2_unfold(1331);
    lemma_pow2_pos(1330);
    let ww = pow2(1850);
    let ab = a * b;
    assert(n == ab * ww) by (nonlinear_arith)
        requires
            n == (a * w) * (b * w),
            ab == a * b,
            w * w == ww,
    ;
    assert(ab <= pow2(554)) by (nonlinear_arith)
        requires
            ab == a * b,
            a < pow2(277),
            b < pow2(277),
            pow2(277) * pow2(277) == pow2(554),
    ;
    assert(n <= pow2(1330) * pow2(1074)) by (nonlinear_arith)
        requires
            n == ab * ww,
            ab <= pow2(554),
            pow2(554) * ww == pow2(2404),
            pow2(1330) * pow2(1074) == pow2(2404),
    ;
    lemma_power_representable(1330, 53);
    lemma_nearest_keeps_order(n, pow2(1074), 53, pow2(1330));
    if a == 0 || b == 0 {
        assert(n == 0) by (nonlinear_arith)
            requires
                n == (a * w) * (b * w),
                a == 0 || b == 0,
        ;
        lemma_nearest_zero(pow2(1074), 53);
    } else {
        assert(n >= pow2(776) * pow2(1074)) by (nonlinear_arith)
            requires
                n == ab * ww,
                ab == a * b,
                a >= 1,
                b >= 1,
                pow2(776) * pow2(1074) == ww,
        {
            assert(ab >= 1);
        }
        lemma_power_representable(776, 53);
        lemma_nearest_keeps_order(n, pow2(1074), 53, pow2(776));
    }
}

/// Sums of few products of components stay finite.
pub proof fn lemma_dot_bound(a: Seq<Binary32>, b: Seq<Binary32>, n: nat)
    requires
        all_finite(a),
        all_finite(b),
        n <= a.len(),
        n <= b.len(),
        n <= EMBEDDING,
    ensures
        dot(a, b, n) is Finite,
        dot(a, b, n)->Finite_magnitude <= n * pow2(1330),
    decreases n,
{
    let f = binary64();
    let top = pow2(1330);
    if n == 0 {
        assert(0 * top == 0) by (nonlinear_arith);
    } else {
        lemma_dot_bound(a, b, (n - 1) as nat);
        lemma_component_product(a[n - 1], b[n - 1]);
        let before = dot(a, b, (n - 1) as nat);
        let p = f.product(widened(a[n - 1]), widened(b[n - 1]));
        let s = before.units() + p.units();
        let m: nat = abs(s) as nat;
        assert((n - 1) * top + top == n * top) by (nonlinear_arith);
        assert(m <= (n * top) * 1);
        assert(pow2(53) == 0x20_0000_0000_0000) by {
            lemma_small_powers();
        }
        assert(representable(n * top, 53));
        lemma_nearest_keeps_order(m, 1, 53, n * top);
        // 512 products do not reach the limit.
        assert(pow2(10) == 1024) by {
            vstd::arithmetic::power2::lemma2_to64();
        }
        lemma_pow2_adds(10, 1330);
        lemma_pow2_le(1340, 2098);
        lemma_pow2_pos(1330);
        assert(n * top < 1024 * top) by (nonlinear_arith)
            requires
                n < 1024,
                top > 0,
        ;
    }
}

/// The squared length: never negative but for the empty sum, zero where all components are, else
/// within bounds.
pub proof fn lemma_norm(a: Seq<Binary32>, n: nat)
    requires
        all_finite(a),
        n <= a.len() <= EMBEDDING,
    ensures
        dot(a, a, n) is Finite,
        n > 0 ==> !dot(a, a, n)->Finite_negative,
        dot(a, a, n).is_zero() <==> all_zero(a.take(n as int)),
        !dot(a, a, n).is_zero() ==> dot(a, a, n)->Finite_magnitude >= pow2(776),
        representable(dot(a, a, n)->Finite_magnitude, 53),
    decreases n,
{
    let f = binary64();
    lemma_dot_bound(a, a, n);
    lemma_pow2_pos(53);
    assert(0 * pow2(0) == 0) by (nonlinear_arith);
    assert(representable(0, 53));
    if n > 0 {
        let k = (n - 1) as nat;
        lemma_norm(a, k);
        lemma_dot_bound(a, a, k);
        lemma_component_product(a[n - 1], a[n - 1]);
        let before = dot(a, a, k);
        let p = f.product(widened(a[n - 1]), widened(a[n - 1]));
        let m = (before.units() + p.units()) as nat;
        lemma_pow2_pos(776);
        lemma_power_representable(776, 53);
        lemma_nearest_keeps_order(m, 1, 53, pow2(776));
        lemma_nearest_representable(m, 1, 53);
        assert(a.take(n as int)[n - 1] == a[n - 1]);
        assert forall|i: int| 0 <= i < k implies a.take(n as int)[i] == #[trigger] a.take(
            k as int,
        )[i] by {}
        if all_zero(a.take(n as int)) {
            assert forall|i: int| 0 <= i < k implies (#[trigger] a.take(
                k as int,
            )[i])@.is_zero() by {
                assert(a.take(n as int)[i]@.is_zero());
            }
        }
        if all_zero(a.take(k as int)) && a[n - 1]@.is_zero() {
            assert forall|i: int| 0 <= i < n implies (#[trigger] a.take(
                n as int,
            )[i])@.is_zero() by {
                if i < k {
                    assert(a.take(k as int)[i]@.is_zero());
                }
            }
        }
    }
}

/// The product of the squared lengths of two embeddings that are not zero stays in range.
pub proof fn lemma_lengths_in_range(a: Seq<Binary32>, b: Seq<Binary32>)
    requires
        all_finite(a),
        all_finite(b),
        a.len() <= EMBEDDING,
        b.len() <= EMBEDDING,
        !dot(a, a, a.len()).is_zero(),
        !dot(b, b, b.len()).is_zero(),
    ensures
        ({
            let x = dot(a, a, a.len())->Finite_magnitude;
            let y = dot(b, b, b.len())->Finite_magnitude;
            &&& pow2(776) <= x
            &&& pow2(776) <= y
            &&& pow2(776) * pow2(776) == pow2(478) * pow2(1074)
            &&& pow2(478) <= nearest(x * y, pow2(1074), 53)
            &&& nearest(x * y, pow2(1074), 53) < pow2(2098)
        }),
{
    lemma_norm(a, a.len());
    lemma_norm(b, b.len());
    lemma_dot_top(a, a, a.len());
    lemma_dot_top(b, b, b.len());
    let x = dot(a, a, a.len())->Finite_magnitude;
    let y = dot(b, b, b.len())->Finite_magnitude;
    let one = pow2(1074);
    // 2^776 <= x, y <= 2^1339, so 2^478 <= x * y / 2^1074 <= 2^1604.
    let top = pow2(1339);
    lemma_pow2_pos(1074);
    lemma_pow2_adds(776, 776);
    lemma_pow2_adds(478, 1074);
    lemma_pow2_adds(1339, 1339);
    lemma_pow2_adds(1604, 1074);
    let xy = x * y;
    assert(pow2(478) * one <= xy <= pow2(1604) * one) by (nonlinear_arith)
        requires
            xy == x * y,
            pow2(776) <= x <= top,
            pow2(776) <= y <= top,
            pow2(776) * pow2(776) == pow2(478) * one,
            top * top == pow2(1604) * one,
    ;
    lemma_power_representable(478, 53);
    lemma_power_representable(1604, 53);
    lemma_nearest_keeps_order(xy, one, 53, pow2(478));
    lemma_nearest_keeps_order(xy, one, 53, pow2(1604));
    lemma_pow2_le(1605, 2098);
    lemma_pow2_unfold(1605);
    lemma_pow2_pos(1604);
}

/// The sum of as many products as an embedding has components is at most a power of two.
pub proof fn lemma_dot_top(a: Seq<Binary32>, b: Seq<Binary32>, n: nat)
    requires
        all_finite(a),
        all_finite(b),
        n <= a.len(),
        n <= b.len(),
        n <= EMBEDDING,
    ensures
        dot(a, b, n) is Finite,
        dot(a, b, n)->Finite_magnitude <= pow2(1339),
{
    lemma_dot_bound(a, b, n);
    assert(pow2(9) == 512) by {
        vstd::arithmetic::power2::lemma2_to64();
    }
    lemma_pow2_adds(9, 1330);
    assert(n * pow2(1330) <= pow2(1339)) by (nonlinear_arith)
        requires
            n <= 512,
            512 * pow2(1330) == pow2(1339),
    ;
}

/// Finite embeddings have a direction unless all components of one are zero, and then their
/// cosine is a finite number.
pub proof fn zero_length_is_refused(a: Seq<Binary32>, b: Seq<Binary32>)
    requires
        all_finite(a),
        all_finite(b),
        a.len() == b.len(),
        0 < a.len() <= EMBEDDING,
    ensures
        has_direction(a, b) <==> !all_zero(a) && !all_zero(b),
        has_direction(a, b) ==> cosine(a, b).is_finite(),
{
    let n = a.len();
    lemma_norm(a, n);
    lemma_norm(b, n);
    lemma_dot_top(a, b, n);
    assert(a.take(n as int) =~= a);
    assert(b.take(n as int) =~= b);
    let x = dot(a, a, n)->Finite_magnitude;
    let y = dot(b, b, n)->Finite_magnitude;
    let one = pow2(1074);
    lemma_pow2_pos(1074);
    if x == 0 || y == 0 {
        assert(x * y == 0) by (nonlinear_arith)
            requires
                x == 0 || y == 0,
        ;
        lemma_nearest_zero(one, 53);
        lemma_pow2_pos(2098);
    } else {
        lemma_lengths_in_range(a, b);
        lemma_pow2_pos(478);
        let top = pow2(1339);
        let m = nearest(x * y, one, 53);
        assert(m * one >= pow2(776) * pow2(776)) by (nonlinear_arith)
            requires
                m >= pow2(478),
                pow2(776) * pow2(776) == pow2(478) * one,
        ;
        lemma_nearest_root_at_least(m * one, 53, 776);
        lemma_pow2_pos(776);
        let d = nearest_root(m * one, 53);
        // The dot product is at most 2^1339, so the cosine is at most 2^1637 units.
        let c = dot(a, b, n)->Finite_magnitude;
        lemma_pow2_adds(1339, 1074);
        lemma_pow2_adds(1637, 776);
        assert(c * one <= pow2(1637) * d) by (nonlinear_arith)
            requires
                c <= top,
                top * one == pow2(2413),
                pow2(1637) * pow2(776) == pow2(2413),
                d >= pow2(776),
        {
            assert(c * one <= top * one);
            assert(pow2(1637) * pow2(776) <= pow2(1637) * d);
        }
        lemma_power_representable(1637, 53);
        lemma_nearest_keeps_order(c * one, d, 53, pow2(1637));
        lemma_pow2_le(1638, 2098);
        lemma_pow2_unfold(1638);
        lemma_pow2_pos(1637);
    }
}

/// The similarity of a finite embedding with itself is exactly one, unless its length is zero.
pub proof fn self_similarity_is_one(a: Seq<Binary32>)
    requires
        all_finite(a),
        !all_zero(a),
        a.len() <= EMBEDDING,
    ensures
        cosine(a, a) == (Number::Finite { negative: false, magnitude: binary64().one() }),
{
    let n = a.len();
    let one = pow2(1074);
    lemma_pow2_pos(1074);
    zero_length_is_refused(a, a);
    lemma_norm(a, n);
    assert(a.take(n as int) =~= a);
    let x = dot(a, a, n)->Finite_magnitude;
    lemma_pow2_le(53, 776);
    lemma_pow2_adds(776, 776);
    lemma_pow2_adds(53, 1074);
    lemma_pow2_le(1127, 1552);
    assert(x * x >= pow2(53) * one) by (nonlinear_arith)
        requires
            x >= pow2(776),
            pow2(776) * pow2(776) >= pow2(53) * one,
    ;
    lemma_root_of_rounded_square(x, 1074, 53);
    // The square is in range, so its root is x, and x divided by x is one.
    lemma_lengths_in_range(a, a);
    lemma_pow2_pos(776);
    lemma_pow2_pos(478);
    assert(lengths(a, a) == (Number::Finite { negative: false, magnitude: x }));
    assert((x * one) * 1 == one * x) by (nonlinear_arith);
    lemma_nearest_ratio(x * one, x, one, 1, 53);
    assert(1 * pow2(1074) == one);
    lemma_pow2_pos(52);
    lemma_pow2_unfold(53);
    lemma_nearest_exact(1, 1074, 53);
    lemma_pow2_le(1075, 2098);
    lemma_pow2_unfold(1075);
}

/// Each component of `n` is the opposite of that of `a`.
pub open spec fn opposite(a: Seq<Binary32>, n: Seq<Binary32>) -> bool {
    n.len() == a.len() && forall|i: int| 0 <= i < a.len() ==> #[trigger] n[i]@ == a[i]@.negated()
}

/// Each component of `d` is twice that of `a`.
pub open spec fn doubled(a: Seq<Binary32>, d: Seq<Binary32>) -> bool {
    &&& d.len() == a.len()
    &&& forall|i: int| 0 <= i < a.len() ==> #[trigger] d[i]@ == a[i]@.rescaled(1)
}

proof fn lemma_dot_opposite(a: Seq<Binary32>, n: Seq<Binary32>, b: Seq<Binary32>, k: nat)
    requires
        all_finite(a),
        all_finite(n),
        all_finite(b),
        opposite(a, n),
        k <= a.len() <= b.len(),
        k <= EMBEDDING,
    ensures
        dot(n, b, k) is Finite,
        dot(n, b, k).units() == -dot(a, b, k).units(),
        dot(n, n, k) == dot(a, a, k),
    decreases k,
{
    lemma_dot_bound(a, b, k);
    lemma_dot_bound(n, b, k);
    if k > 0 {
        let j = (k - 1) as nat;
        lemma_dot_opposite(a, n, b, j);
        lemma_dot_bound(a, b, j);
        lemma_dot_bound(n, b, j);
        lemma_component_product(a[k - 1], b[k - 1]);
        lemma_component_product(n[k - 1], b[k - 1]);
        assert(n[k - 1]@ == a[k - 1]@.negated());
        let f = binary64();
        let p = f.product(widened(a[k - 1]), widened(b[k - 1]));
        let q = f.product(widened(n[k - 1]), widened(b[k - 1]));
        assert(q.units() == -p.units());
        assert(f.product(widened(n[k - 1]), widened(n[k - 1])) == f.product(
            widened(a[k - 1]),
            widened(a[k - 1]),
        ));
    }
}

/// The opposite of an embedding has the opposite similarity. Zero is left without a sign here: the
/// similarity of orthogonal embeddings is zero either way.
pub proof fn opposite_has_opposite_similarity(
    a: Seq<Binary32>,
    n: Seq<Binary32>,
    b: Seq<Binary32>,
)
    requires
        all_finite(a),
        all_finite(b),
        a.len() == b.len(),
        0 < a.len() <= EMBEDDING,
        !all_zero(a),
        !all_zero(b),
        opposite(a, n),
    ensures
        all_finite(n) && !all_zero(n),
        cosine(n, b).is_finite(),
        cosine(n, b).units() == -cosine(a, b).units(),
{
    assert(all_finite(n)) by {
        assert forall|i: int| 0 <= i < n.len() implies (#[trigger] n[i])@.is_finite() by {
            assert(a[i]@.is_finite());
        }
    }
    assert(!all_zero(n)) by {
        let i = choose|i: int| 0 <= i < a.len() && !(#[trigger] a[i])@.is_zero();
        assert(a[i]@.is_finite());
        assert(!n[i]@.is_zero());
    }
    zero_length_is_refused(a, b);
    zero_length_is_refused(n, b);
    lemma_dot_opposite(a, n, b, a.len());
    lemma_dot_bound(a, b, a.len());
    let c = dot(a, b, a.len());
    let l = lengths(a, b);
    assert(lengths(n, b) == l);
    if c.is_zero() {
        let one = binary64().one();
        assert(0 * one == 0) by (nonlinear_arith);
        if let Number::Finite { magnitude, .. } = l {
            lemma_nearest_zero(magnitude, 53);
        }
    }
}

/// The product of one component with the double of another.
proof fn lemma_component_doubled(x: Binary32, x2: Binary32, y: Binary32)
    requires
        x@.is_finite(),
        y@.is_finite(),
        x2@ == x@.rescaled(1),
    ensures
        ({
            let p = binary64().product(widened(x), widened(y));
            let q = binary64().product(widened(x2), widened(y));
            p is Finite && q == p.rescaled(1)
        }),
{
    lemma_component_product(x, y);
    lemma_component_product(x2, y);
    let w = pow2(925);
    let one = pow2(1074);
    let m = x@->Finite_magnitude;
    let k = y@->Finite_magnitude;
    let n = (m * w) * (k * w);
    lemma_two();
    lemma_pow2_pos(1074);
    assert(((m * 2) * w) * (k * w) == 2 * n) by (nonlinear_arith)
        requires
            n == (m * w) * (k * w),
    ;
    if m == 0 || k == 0 {
        assert(n == 0) by (nonlinear_arith)
            requires
                n == (m * w) * (k * w),
                m == 0 || k == 0,
        ;
        lemma_nearest_zero(one, 53);
    } else {
        lemma_pow2_adds(925, 925);
        lemma_pow2_adds(53, 1074);
        lemma_pow2_le(1127, 1850);
        assert(n >= pow2(1850)) by (nonlinear_arith)
            requires
                n == (m * w) * (k * w),
                w * w == pow2(1850),
                m >= 1,
                k >= 1,
        {
            let mk = m * k;
            assert(mk >= 1);
            assert(n == mk * pow2(1850));
        }
        lemma_nearest_doubles(n, one, 53);
    }
}

proof fn lemma_two()
    ensures
        pow2(1) == 2,
{
    vstd::arithmetic::power2::lemma2_to64();
}

proof fn lemma_dot_doubled(a: Seq<Binary32>, d: Seq<Binary32>, b: Seq<Binary32>, k: nat)
    requires
        all_finite(a),
        all_finite(d),
        all_finite(b),
        doubled(a, d),
        k <= a.len() <= b.len(),
        k <= EMBEDDING,
    ensures
        dot(a, b, k) is Finite,
        dot(d, b, k) == dot(a, b, k).rescaled(1),
    decreases k,
{
    lemma_dot_bound(a, b, k);
    lemma_dot_bound(d, b, k);
    lemma_two();
    if k > 0 {
        let j = (k - 1) as nat;
        lemma_dot_doubled(a, d, b, j);
        assert(d[k - 1]@ == a[k - 1]@.rescaled(1));
        lemma_component_doubled(a[k - 1], d[k - 1], b[k - 1]);
        let f = binary64();
        let s = dot(a, b, j).units() + f.product(widened(a[k - 1]), widened(b[k - 1])).units();
        assert(dot(d, b, j).units() + f.product(widened(d[k - 1]), widened(b[k - 1])).units() == 2
            * s);
        lemma_nearest_doubles(abs(s), 1, 53);
    }
}

/// Similarity does not depend on the scale: the double of an embedding has the same similarity.
pub proof fn double_has_same_similarity(a: Seq<Binary32>, d: Seq<Binary32>, b: Seq<Binary32>)
    requires
        all_finite(a),
        all_finite(b),
        a.len() == b.len(),
        0 < a.len() <= EMBEDDING,
        !all_zero(a),
        !all_zero(b),
        doubled(a, d),
    ensures
        all_finite(d) && !all_zero(d),
        cosine(d, b) == cosine(a, b),
{
    let n = a.len();
    let one = pow2(1074);
    lemma_two();
    lemma_pow2_pos(1074);
    assert(all_finite(d)) by {
        assert forall|i: int| 0 <= i < d.len() implies (#[trigger] d[i])@.is_finite() by {
            assert(a[i]@.is_finite());
        }
    }
    assert(!all_zero(d)) by {
        let i = choose|i: int| 0 <= i < a.len() && !(#[trigger] a[i])@.is_zero();
        assert(a[i]@.is_finite());
        assert(!d[i]@.is_zero());
    }
    lemma_dot_doubled(a, d, b, n);
    lemma_dot_doubled(a, d, a, n);
    lemma_dot_doubled(a, d, d, n);
    lemma_dot_symmetric(a, d, n);
    lemma_norm(a, n);
    lemma_norm(b, n);
    assert(a.take(n as int) =~= a);
    assert(b.take(n as int) =~= b);
    lemma_norm(d, n);
    assert(d.take(n as int) =~= d);
    lemma_lengths_in_range(a, b);
    lemma_lengths_in_range(d, b);
    let x = dot(a, a, n)->Finite_magnitude;
    let y = dot(b, b, n)->Finite_magnitude;
    let xy = x * y;
    let m = nearest(xy, one, 53);
    assert(dot(d, d, n)->Finite_magnitude == 4 * x);
    // The product of the squared lengths grows by four, and its root by two.
    assert((4 * x) * y == 2 * (2 * xy)) by (nonlinear_arith)
        requires
            xy == x * y,
    ;
    lemma_pow2_le(53, 478);
    assert(xy >= pow2(53) * one) by (nonlinear_arith)
        requires
            xy == x * y,
            x >= pow2(776),
            y >= pow2(776),
            pow2(776) * pow2(776) == pow2(478) * one,
            pow2(478) >= pow2(53),
    ;
    lemma_nearest_doubles(xy, one, 53);
    lemma_nearest_doubles(2 * xy, one, 53);
    assert((4 * m) * one == 4 * (m * one)) by (nonlinear_arith);
    lemma_pow2_le(53, 1074);
    assert(pow2(53) * pow2(53) <= m * one) by (nonlinear_arith)
        requires
            m >= pow2(478),
            pow2(478) >= pow2(53),
            one >= pow2(53),
    ;
    lemma_nearest_root_doubles(m * one, 53);
    let l = nearest_root(m * one, 53);
    lemma_pow2_pos(478);
    assert(lengths(a, b) == (Number::Finite { negative: false, magnitude: l }));
    assert(lengths(d, b) == (Number::Finite { negative: false, magnitude: 2 * l }));
    zero_length_is_refused(a, b);
    assert(l > 0);
    let c = dot(a, b, n)->Finite_magnitude;
    assert(((c * 2) * one) * l == (c * one) * (2 * l)) by (nonlinear_arith);
    lemma_nearest_ratio((c * 2) * one, 2 * l, c * one, l, 53);
}

} // verus!
