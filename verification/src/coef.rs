//! Coefficient arithmetic. Coefficients are machine integers (`i64`) with
//! two's-complement wrapping addition, subtraction and multiplication, so
//! that they form a commutative ring and every operation is total.
use vstd::prelude::*;

verus! {

/// Wrapped coefficient sum.
pub open spec fn wadd(a: i64, b: i64) -> i64 {
    vstd::wrapping::i64_specs::wrapping_add(a, b)
}

/// Wrapped coefficient difference.
pub open spec fn wsub(a: i64, b: i64) -> i64 {
    vstd::wrapping::i64_specs::wrapping_sub(a, b)
}

/// Wrapped coefficient product.
pub open spec fn wmul(a: i64, b: i64) -> i64 {
    vstd::wrapping::i64_specs::wrapping_mul(a, b)
}

/// Wrapped coefficient negation.
pub open spec fn wneg(a: i64) -> i64 {
    wsub(0, a)
}

/// Wrapped slot-power sum.
pub open spec fn wadd_u32(a: u32, b: u32) -> u32 {
    vstd::wrapping::u32_specs::wrapping_add(a, b)
}

pub proof fn lemma_wadd_comm(a: i64, b: i64)
    ensures
        wadd(a, b) == wadd(b, a),
{
}

pub proof fn lemma_wadd_zero(a: i64)
    ensures
        wadd(a, 0) == a,
        wadd(0, a) == a,
{
}

pub proof fn lemma_wadd_assoc(a: i64, b: i64, c: i64)
    ensures
        wadd(wadd(a, b), c) == wadd(a, wadd(b, c)),
{
}

/// The modulus of the coefficient ring.
pub open spec fn coef_ring() -> int {
    0x1_0000_0000_0000_0000
}

/// Cropping to the signed 64-bit range keeps the residue class.
proof fn lemma_crop_mod(x: int)
    ensures
        vstd::wrapping::i64_specs::signed_crop(x) as int % coef_ring() == x % coef_ring(),
{
    let r = coef_ring();
    if (x % r) > (i64::MAX as int) {
        vstd::arithmetic::div_mod::lemma_mod_multiples_vanish(-1, x % r, r);
        vstd::arithmetic::div_mod::lemma_mod_mod(x, r, r)
    } else {
        vstd::arithmetic::div_mod::lemma_mod_mod(x, r, r)
    }
}

/// Cropping is a function of the residue class alone.
proof fn lemma_crop_congruent(x: int, y: int)
    requires
        x % coef_ring() == y % coef_ring(),
    ensures
        vstd::wrapping::i64_specs::signed_crop(x) == vstd::wrapping::i64_specs::signed_crop(y),
{
}

/// The wrapped sum is the crop of the exact sum.
proof fn lemma_wadd_as_crop(a: i64, b: i64)
    ensures
        wadd(a, b) == vstd::wrapping::i64_specs::signed_crop(a + b),
{
    let r = coef_ring();
    if a + b > i64::MAX {
        vstd::arithmetic::div_mod::lemma_mod_multiples_vanish(1, a + b - r, r);
        lemma_crop_congruent(a + b - r, a + b);
    } else if a + b < i64::MIN {
        vstd::arithmetic::div_mod::lemma_mod_multiples_vanish(-1, a + b + r, r);
        lemma_crop_congruent(a + b + r, a + b);
    }
}

/// Replacing one summand by its crop does not change the cropped sum.
proof fn lemma_crop_add_left(u: int, v: int)
    ensures
        vstd::wrapping::i64_specs::signed_crop(
            vstd::wrapping::i64_specs::signed_crop(u) as int + v,
        ) == vstd::wrapping::i64_specs::signed_crop(u + v),
{
    let r = coef_ring();
    let cu = vstd::wrapping::i64_specs::signed_crop(u) as int;
    lemma_crop_mod(u);
    vstd::arithmetic::div_mod::lemma_add_mod_noop(cu, v, r);
    vstd::arithmetic::div_mod::lemma_add_mod_noop(u, v, r);
    lemma_crop_congruent(cu + v, u + v);
}

/// Replacing one factor by its crop does not change the cropped product.
proof fn lemma_crop_mul_left(u: int, c: int)
    ensures
        vstd::wrapping::i64_specs::signed_crop(
            vstd::wrapping::i64_specs::signed_crop(u) as int * c,
        ) == vstd::wrapping::i64_specs::signed_crop(u * c),
{
    let r = coef_ring();
    let cu = vstd::wrapping::i64_specs::signed_crop(u) as int;
    lemma_crop_mod(u);
    vstd::arithmetic::div_mod::lemma_mul_mod_noop_left(cu, c, r);
    vstd::arithmetic::div_mod::lemma_mul_mod_noop_left(u, c, r);
    lemma_crop_congruent(cu * c, u * c);
}

/// Wrapped multiplication is associative.
pub proof fn lemma_wmul_assoc(a: i64, b: i64, c: i64)
    ensures
        wmul(wmul(a, b), c) == wmul(a, wmul(b, c)),
{
    lemma_crop_mul_left(a * b, c as int);
    assert(a * b * c == a * (b * c)) by (nonlinear_arith);
    lemma_crop_mul_left(b * c, a as int);
    assert(vstd::wrapping::i64_specs::signed_crop(b * c) as int * a == a * (
    vstd::wrapping::i64_specs::signed_crop(b * c) as int)) by (nonlinear_arith);
    assert((b * c) * a == a * (b * c)) by (nonlinear_arith);
    assert(wmul(a, wmul(b, c)) == vstd::wrapping::i64_specs::signed_crop(
        a * (vstd::wrapping::i64_specs::signed_crop(b * c) as int),
    ));
}

/// Wrapped multiplication distributes over the wrapped sum.
pub proof fn lemma_wmul_distrib(a: i64, b: i64, c: i64)
    ensures
        wmul(wadd(a, b), c) == wadd(wmul(a, c), wmul(b, c)),
{
    lemma_wadd_as_crop(a, b);
    lemma_crop_mul_left(a + b, c as int);
    assert((a + b) * c == a * c + b * c) by (nonlinear_arith);
    lemma_wadd_as_crop(wmul(a, c), wmul(b, c));
    lemma_crop_add_left(a * c, vstd::wrapping::i64_specs::signed_crop(b * c) as int);
    lemma_crop_add_left(b * c, a * c);
    assert(vstd::wrapping::i64_specs::signed_crop(b * c) as int + a * c == a * c
        + vstd::wrapping::i64_specs::signed_crop(b * c) as int);
}

/// Wrapped slot-power addition is associative.
pub proof fn lemma_wadd_u32_assoc(a: u32, b: u32, c: u32)
    ensures
        wadd_u32(wadd_u32(a, b), c) == wadd_u32(a, wadd_u32(b, c)),
{
}

} // verus!
