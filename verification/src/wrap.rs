//! Wrap-aware arithmetic on 32-bit TCP sequence numbers.
//!
//! All sequence numbers live on the mod-2^32 circle. `wrapping_lt` decides
//! whether one number is "to the left of" another on that circle, and
//! `is_between_wrapped` whether a number lies strictly between two others.
//! These primitives underlie every acceptability, ACK-validity and
//! retransmit-range decision of the engine.
use vstd::prelude::*;

verus! {

/// 2^31, the half-way point of the sequence circle.
pub const SEQ_HALF: u32 = 0x8000_0000;

/// Addition on the mod-2^32 circle.
pub open spec fn wrap_add(a: u32, b: u32) -> u32 {
    if a + b > u32::MAX {
        (a + b - 0x1_0000_0000) as u32
    } else {
        (a + b) as u32
    }
}

/// Subtraction on the mod-2^32 circle: the distance one travels forward
/// from `b` to reach `a`.
pub open spec fn wrap_sub(a: u32, b: u32) -> u32 {
    if a - b < 0 {
        (a - b + 0x1_0000_0000) as u32
    } else {
        (a - b) as u32
    }
}

/// `lhs` is strictly to the left of `rhs` on the circle: the forward
/// distance from `lhs` to `rhs` is non-zero and below 2^31.
pub open spec fn spec_wrapping_lt(lhs: u32, rhs: u32) -> bool {
    wrap_sub(lhs, rhs) > SEQ_HALF
}

/// `x` lies strictly between `start` and `end` on the circle, with both
/// distances below the half-way point.
pub open spec fn spec_between(start: u32, x: u32, end: u32) -> bool {
    spec_wrapping_lt(start, x) && spec_wrapping_lt(x, end)
}

/// `x` lies strictly inside the arc that runs forward from `a` to `b`
/// (both endpoints excluded).
pub open spec fn in_arc(a: u32, x: u32, b: u32) -> bool {
    0 < wrap_sub(x, a) < wrap_sub(b, a)
}

/// Exact executable counterpart of [`spec_wrapping_lt`].
pub fn wrapping_lt(lhs: u32, rhs: u32) -> (r: bool)
    ensures
        r == spec_wrapping_lt(lhs, rhs),
{
    proof {
        assert(1u32 << 31 == 0x8000_0000) by (bit_vector);
    }
    lhs.wrapping_sub(rhs) > 1u32 << 31
}

/// Exact executable counterpart of [`spec_between`].
pub fn is_between_wrapped(start: u32, x: u32, end: u32) -> (r: bool)
    ensures
        r == spec_between(start, x, end),
{
    wrapping_lt(start, x) && wrapping_lt(x, end)
}

/// The two forward distances between distinct points make a full turn.
pub proof fn lemma_wrap_sub_antisym(a: u32, b: u32)
    ensures
        a == b ==> wrap_sub(a, b) == 0 && wrap_sub(b, a) == 0,
        a != b ==> wrap_sub(a, b) + wrap_sub(b, a) == 0x1_0000_0000,
{
}

/// Distances from a common base add along the circle while their sum
/// stays below a full turn.
pub proof fn lemma_wrap_dist_add(base: u32, a: u32, k: u32)
    requires
        wrap_sub(a, base) + k < 0x1_0000_0000,
    ensures
        wrap_sub(wrap_add(a, k), base) == wrap_sub(a, base) + k,
{
}

/// On points whose distances from a common base differ by less than a
/// half turn, the circle order agrees with the distance order.
pub proof fn lemma_wrap_lt_by_dist(base: u32, x: u32, y: u32)
    requires
        wrap_sub(y, base) - wrap_sub(x, base) < 0x8000_0000,
        wrap_sub(x, base) - wrap_sub(y, base) < 0x8000_0000,
    ensures
        spec_wrapping_lt(x, y) == (wrap_sub(x, base) < wrap_sub(y, base)),
{
}

/// Travelling a point's distance from the base leads back to the point.
pub proof fn lemma_wrap_add_sub_cancel(base: u32, x: u32)
    ensures
        wrap_add(base, wrap_sub(x, base)) == x,
{
}

/// Distances from a common base subtract along the circle.
pub proof fn lemma_wrap_dist_diff(base: u32, x: u32, y: u32)
    requires
        wrap_sub(x, base) >= wrap_sub(y, base),
    ensures
        wrap_sub(x, y) == wrap_sub(x, base) - wrap_sub(y, base),
{
}

/// Advancing a point on the circle by `delta` matches advancing the
/// unwrapped position it stands for.
pub proof fn lemma_wrap_add_mod(base: u32, t: nat, delta: nat)
    requires
        delta < 0x1_0000_0000,
    ensures
        wrap_add(wrap_add(base, (t % 0x1_0000_0000nat) as u32), delta as u32) == wrap_add(
            base,
            ((t + delta) % 0x1_0000_0000nat) as u32,
        ),
{
    let m = 0x1_0000_0000int;
    let x = (t % 0x1_0000_0000nat) as int;
    vstd::arithmetic::div_mod::lemma_mod_bound(t as int, m);
    vstd::arithmetic::div_mod::lemma_add_mod_noop_right(base as int + x, delta as int, m);
    vstd::arithmetic::div_mod::lemma_add_mod_noop_right(base as int + delta as int, t as int, m);
    vstd::arithmetic::div_mod::lemma_add_mod_noop_right(base as int, t as int + delta as int, m);
    vstd::arithmetic::div_mod::lemma_add_mod_noop_right(base as int + delta as int, x, m);
    vstd::arithmetic::div_mod::lemma_mod_bound((t as int + delta) % m, m);
    assert(wrap_add(base, (((t + delta) % 0x1_0000_0000nat)) as u32) == (base as int + (t as int
        + delta) % m) % m);
    assert(wrap_add(base, x as u32) == (base as int + x) % m);
    assert(wrap_add(wrap_add(base, x as u32), delta as u32) == ((base as int + x) % m + delta)
        % m) by {
        vstd::arithmetic::div_mod::lemma_mod_bound(base as int + x, m);
    }
    vstd::arithmetic::div_mod::lemma_add_mod_noop((base as int + x), delta as int, m);
    vstd::arithmetic::div_mod::lemma_small_mod(delta, m as nat);
}

/// No number lies strictly between a number and itself: the interval
/// `(a, a)` on the circle is empty.
pub proof fn lemma_between_empty_interval(a: u32, b: u32)
    ensures
        !spec_between(a, b, a),
{
    lemma_wrap_sub_antisym(a, b);
}

/// `spec_between(a, x, b)` implies that `x` lies strictly inside the arc
/// from `a` to `b`; the two agree exactly whenever that arc is at most a
/// half turn long. (For longer arcs the test is deliberately stricter:
/// it also rejects points more than a half turn past `a`.)
pub proof fn lemma_between_is_arc_membership(a: u32, x: u32, b: u32)
    ensures
        spec_between(a, x, b) ==> in_arc(a, x, b),
        wrap_sub(b, a) <= SEQ_HALF ==> (spec_between(a, x, b) <==> in_arc(a, x, b)),
{
    lemma_wrap_sub_antisym(a, x);
    lemma_wrap_sub_antisym(x, b);
    lemma_wrap_sub_antisym(a, b);
}

} // verus!
