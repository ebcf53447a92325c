//! Two's-complement `i64` arithmetic is a commutative ring.
use vstd::prelude::*;

verus! {

/// The `i64` congruent to `x` modulo 2^64.
pub open spec fn crop(x: int) -> i64 {
    vstd::wrapping::i64_specs::signed_crop(x)
}

pub open spec fn modulus() -> int {
    0x1_0000_0000_0000_0000
}

pub proof fn lemma_crop_congruent(x: int)
    ensures
        (crop(x) as int) % modulus() == x % modulus(),
{
    let m = modulus();
    let r = x % m;
    if r > i64::MAX {
        assert((r - m) % m == r) by {
            vstd::arithmetic::div_mod::lemma_mod_add_multiples_vanish(r - m, m);
            vstd::arithmetic::div_mod::lemma_small_mod(r as nat, m as nat);
        }
    } else {
        vstd::arithmetic::div_mod::lemma_small_mod(r as nat, m as nat);
    }
}

pub proof fn lemma_crop_same(x: int, y: int)
    requires
        x % modulus() == y % modulus(),
    ensures
        crop(x) == crop(y),
{
}

/// An `i64` stands for itself.
pub proof fn lemma_crop_id(x: i64)
    ensures
        crop(x as int) == x,
{
    let m = modulus();
    if x >= 0 {
        vstd::arithmetic::div_mod::lemma_small_mod(x as nat, m as nat);
    } else {
        vstd::arithmetic::div_mod::lemma_mod_add_multiples_vanish(x as int, m);
        vstd::arithmetic::div_mod::lemma_small_mod((x + m) as nat, m as nat);
    }
}

pub proof fn lemma_add_is_crop(x: i64, y: i64)
    ensures
        x.wrapping_add(y) == crop(x + y),
{
    let s = x + y;
    let m = modulus();
    if s > i64::MAX {
        lemma_crop_id((s - m) as i64);
        vstd::arithmetic::div_mod::lemma_mod_add_multiples_vanish(s - m, m);
        lemma_crop_same(s, s - m);
    } else if s < i64::MIN {
        lemma_crop_id((s + m) as i64);
        vstd::arithmetic::div_mod::lemma_mod_add_multiples_vanish(s, m);
        lemma_crop_same(s, s + m);
    } else {
        lemma_crop_id(s as i64);
    }
}

pub proof fn lemma_sub_is_crop(x: i64, y: i64)
    ensures
        x.wrapping_sub(y) == crop(x - y),
{
    let s = x - y;
    let m = modulus();
    if s > i64::MAX {
        lemma_crop_id((s - m) as i64);
        vstd::arithmetic::div_mod::lemma_mod_add_multiples_vanish(s - m, m);
        lemma_crop_same(s, s - m);
    } else if s < i64::MIN {
        lemma_crop_id((s + m) as i64);
        vstd::arithmetic::div_mod::lemma_mod_add_multiples_vanish(s, m);
        lemma_crop_same(s, s + m);
    } else {
        lemma_crop_id(s as i64);
    }
}

/// Cropping a summand first changes nothing.
pub proof fn lemma_crop_add(x: int, y: int)
    ensures
        crop(crop(x) + y) == crop(x + y),
{
    lemma_crop_congruent(x);
    vstd::arithmetic::div_mod::lemma_add_mod_noop(crop(x) as int, y, modulus());
    vstd::arithmetic::div_mod::lemma_add_mod_noop(x, y, modulus());
}

/// Cropping a factor first changes nothing.
pub proof fn lemma_crop_mul(x: int, y: int)
    ensures
        crop(crop(x) * y) == crop(x * y),
{
    lemma_crop_congruent(x);
    vstd::arithmetic::div_mod::lemma_mul_mod_noop(crop(x) as int, y, modulus());
    vstd::arithmetic::div_mod::lemma_mul_mod_noop(x, y, modulus());
}

/// Addition is commutative and associative with identity 0.
pub proof fn lemma_add_laws(x: i64, y: i64, z: i64)
    ensures
        0i64.wrapping_add(x) == x,
        x.wrapping_add(y) == y.wrapping_add(x),
        x.wrapping_add(y).wrapping_add(z) == x.wrapping_add(y.wrapping_add(z)),
        x.wrapping_add(0i64.wrapping_sub(x)) == 0,
{
    lemma_add_is_crop(x.wrapping_add(y), z);
    lemma_add_is_crop(x, y);
    lemma_add_is_crop(y, z);
    lemma_add_is_crop(x, y.wrapping_add(z));
    lemma_crop_add(x + y, z as int);
    lemma_crop_add(y + z, x as int);
    assert(crop(y + z) + x == x + crop(y + z));
    assert(x + y + z == y + z + x);
    lemma_sub_is_crop(0, x);
    lemma_add_is_crop(x, 0i64.wrapping_sub(x));
    lemma_crop_add(-x, x as int);
    lemma_crop_id(0);
}

/// Multiplication distributes over addition.
pub proof fn lemma_mul_laws(x: i64, y: i64, z: i64)
    ensures
        x.wrapping_mul(y) == y.wrapping_mul(x),
        x.wrapping_mul(0) == 0,
        x.wrapping_mul(y.wrapping_add(z)) == x.wrapping_mul(y).wrapping_add(x.wrapping_mul(z)),
        x.wrapping_mul(y).wrapping_mul(z) == x.wrapping_mul(y.wrapping_mul(z)),
        1i64.wrapping_mul(x) == x,
{
    assert(x * y == y * x) by (nonlinear_arith);
    assert(x * 0 == 0);
    lemma_crop_id(0);
    lemma_crop_id(x);
    lemma_add_is_crop(y, z);
    lemma_crop_mul(y + z, x as int);
    assert(x * crop(y + z) == crop(y + z) * x) by (nonlinear_arith);
    assert((y + z) * x == x * y + x * z) by (nonlinear_arith);
    lemma_add_is_crop(crop(x * y), crop(x * z));
    lemma_crop_add(x * y, crop(x * z) as int);
    lemma_crop_add(x * z, x * y);
    assert(x * y + crop(x * z) == crop(x * z) + x * y);
    assert(x * z + x * y == x * y + x * z);
    lemma_crop_mul(x * y, z as int);
    lemma_crop_mul(y * z, x as int);
    assert(x * crop(y * z) == crop(y * z) * x) by (nonlinear_arith);
    assert((x * y) * z == (y * z) * x) by (nonlinear_arith);
}

} // verus!
