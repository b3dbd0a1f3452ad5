//! A small pseudorandom generator.
use vstd::prelude::*;

verus! {

/// The 32-bit xorshift step with shifts 13, 17 and 5.
pub open spec fn xorshift(x: u32) -> u32 {
    let a = x ^ (x << 13u32);
    let b = a ^ (a >> 17u32);
    b ^ (b << 5u32)
}

/// Advances the generator `state` by one step and returns the new state.
pub fn next_u32(state: &mut u32) -> (r: u32)
    ensures
        r == xorshift(*old(state)),
        *final(state) == r,
{
    let mut x: u32 = *state;
    x = x ^ (x << 13);
    x = x ^ (x >> 17);
    x = x ^ (x << 5);
    *state = x;
    x
}

/// The seed from a number of nanoseconds since the epoch: its low 32 bits, made odd. Without
/// a clock, a fixed one.
pub open spec fn seed_of(nanos: Option<u128>) -> int {
    match nanos {
        Some(n) => n % 0x1_0000_0000 + (1 - n % 2),
        None => 0x9E37_79B9,
    }
}

/// A seed for the generator.
pub fn seed(nanos: Option<u128>) -> (r: u32)
    ensures
        r == seed_of(nanos),
        r != 0,
{
    let low: u32 = match nanos {
        Some(n) => (n % 0x1_0000_0000) as u32,
        None => 0x9E37_79B9,
    };
    assert(low | 1 == low + (1 - low % 2)) by (bit_vector);
    low | 1
}

/// No two states have the same successor: the generator never runs into a cycle that it did
/// not start on.
pub proof fn lemma_xorshift_injective(x: u32, y: u32)
    requires
        xorshift(x) == xorshift(y),
    ensures
        x == y,
{
    let a = x ^ (x << 13u32);
    let b = a ^ (a >> 17u32);
    let c = y ^ (y << 13u32);
    let d = c ^ (c >> 17u32);
    assert(b == d) by (bit_vector)
        requires
            b ^ (b << 5u32) == d ^ (d << 5u32),
    ;
    assert(a == c) by (bit_vector)
        requires
            a ^ (a >> 17u32) == c ^ (c >> 17u32),
    ;
    assert(x == y) by (bit_vector)
        requires
            x ^ (x << 13u32) == y ^ (y << 13u32),
    ;
}

/// Zero is the one state that the generator cannot leave, and no other state leads to it.
pub proof fn lemma_xorshift_zero(x: u32)
    ensures
        xorshift(x) == 0 <==> x == 0,
{
    assert(xorshift(0) == 0) by {
        assert(0u32 ^ (0u32 << 13u32) == 0u32) by (bit_vector);
        assert(0u32 ^ (0u32 >> 17u32) == 0u32) by (bit_vector);
        assert(0u32 ^ (0u32 << 5u32) == 0u32) by (bit_vector);
    }
    if xorshift(x) == 0 {
        lemma_xorshift_injective(x, 0);
    }
}

/// Which bits of a state make up the next one: the shifts 13, 17 and 5 and all that they come to
/// together. The step is linear, so what it makes of single bits says all.
pub proof fn lemma_xorshift_bits(x: u32, y: u32)
    ensures
        xorshift(x) == x ^ (x << 13u32) ^ (x << 5u32) ^ (x << 18u32) ^ (x >> 17u32) ^ ((x & 0x7ffff)
            >> 4u32) ^ ((x >> 17u32) << 5u32) ^ (((x & 0x7ffff) >> 4u32) << 5u32),
        xorshift(x ^ y) == xorshift(x) ^ xorshift(y),
{
    let a = x ^ (x << 13u32);
    let b = a ^ (a >> 17u32);
    assert(b ^ (b << 5u32) == x ^ (x << 13u32) ^ (x << 5u32) ^ (x << 18u32) ^ (x >> 17u32) ^ ((x
        & 0x7ffff) >> 4u32) ^ ((x >> 17u32) << 5u32) ^ (((x & 0x7ffff) >> 4u32) << 5u32))
        by (bit_vector)
        requires
            a == x ^ (x << 13u32),
            b == a ^ (a >> 17u32),
    ;
    let c = y ^ (y << 13u32);
    let d = c ^ (c >> 17u32);
    let z = x ^ y;
    let e = z ^ (z << 13u32);
    let f = e ^ (e >> 17u32);
    assert(f ^ (f << 5u32) == (b ^ (b << 5u32)) ^ (d ^ (d << 5u32))) by (bit_vector)
        requires
            a == x ^ (x << 13u32),
            b == a ^ (a >> 17u32),
            c == y ^ (y << 13u32),
            d == c ^ (c >> 17u32),
            z == x ^ y,
            e == z ^ (z << 13u32),
            f == e ^ (e >> 17u32),
    ;
}

/// A seed is odd and is otherwise what the clock says, without its higher digits.
pub proof fn lemma_seed(nanos: u128)
    ensures
        seed_of(Some(nanos)) % 2 == 1,
        seed_of(Some(nanos)) / 2 == (nanos % 0x1_0000_0000) / 2,
        seed_of(None) == 2654435769,
{
}

} // verus!
