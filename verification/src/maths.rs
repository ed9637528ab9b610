//! The escape-time oracle and the proof of work built on it.
//!
//! A point `z` is moved by `z -> z^2 + c`, where `c` picks the Julia set.
//! Its escape time is the number of moves it has made when its squared
//! magnitude first exceeds four. Mining looks for a point with a demanded
//! escape time; checking a claimed point costs one run of the oracle.
use vstd::prelude::*;
use vstd::slice::slice_subrange;
use crate::binary32::Binary32;
use crate::byte_order::{
    append_ordered, lemma_quad_round_trip, native_order, ordered_bytes, quad_from_ordered,
    quad_value, ByteOrder,
};

verus! {

/// The number of moves after which a point counts as never escaping.
pub const MAX_ITERATIONS: u32 = 200;

/// Encoding of 2.
pub const TWO_BITS: u32 = 0x4000_0000;

/// Encoding of 4, the squared radius beyond which a point has escaped.
pub const ESCAPE_THRESHOLD_BITS: u32 = 0x4080_0000;

/// A complex number with binary32 components.
#[derive(Clone, Copy)]
pub struct Complex {
    pub x: Binary32,
    pub y: Binary32,
}

/// What the oracle found of one point.
#[derive(Clone, Copy, PartialEq, Eq, Structural, Debug)]
pub enum EscapeResult {
    /// The point left the disk after this many moves, fewer than the cap.
    Escaped(u32),
    /// The point stayed inside for as many moves as the cap allows.
    Bounded,
}

impl Complex {
    pub fn new(x: Binary32, y: Binary32) -> (r: Complex)
        ensures
            r.x == x,
            r.y == y,
    {
        Complex { x, y }
    }

    /// The squared magnitude `x*x + y*y`, each operation rounded.
    pub open spec fn spec_sq(&self) -> Binary32 {
        self.x.spec_mul(self.x).spec_add(self.y.spec_mul(self.y))
    }

    /// Both components are finite numbers.
    pub open spec fn spec_is_finite(&self) -> bool {
        self.x.spec_is_finite() && self.y.spec_is_finite()
    }

    /// The squared magnitude.
    #[verifier::when_used_as_spec(spec_sq)]
    pub fn sq(&self) -> (r: Binary32)
        ensures
            r == self.spec_sq(),
    {
        self.x.mul(self.x).add(self.y.mul(self.y))
    }

    /// Tells whether both components are finite numbers.
    #[verifier::when_used_as_spec(spec_is_finite)]
    pub fn is_finite(&self) -> (r: bool)
        ensures
            r == self.spec_is_finite(),
    {
        self.x.is_finite() && self.y.is_finite()
    }

    /// The eight bytes of the number: the encoding of `x`, then that of
    /// `y`, each laid out in `order`.
    pub open spec fn spec_bytes(&self, order: ByteOrder) -> Seq<u8> {
        ordered_bytes(self.x.bits as nat, 4, order) + ordered_bytes(self.y.bits as nat, 4, order)
    }

    /// The number that eight bytes laid out in `order` stand for.
    pub open spec fn spec_from_bytes(bytes: Seq<u8>, order: ByteOrder) -> Option<Complex> {
        if bytes.len() == 8 {
            Some(
                Complex {
                    x: Binary32 { bits: quad_value(bytes.subrange(0, 4), order) as u32 },
                    y: Binary32 { bits: quad_value(bytes.subrange(4, 8), order) as u32 },
                },
            )
        } else {
            None
        }
    }

    /// Writing a number as bytes and reading the bytes back in the same
    /// order gives the number again, bit for bit.
    pub proof fn lemma_bytes_round_trip(self, order: ByteOrder)
        ensures
            self.spec_bytes(order).len() == 8,
            Self::spec_from_bytes(self.spec_bytes(order), order) == Some(self),
    {
        let bytes = self.spec_bytes(order);
        lemma_quad_round_trip(self.x.bits, order);
        lemma_quad_round_trip(self.y.bits, order);
        assert(bytes.subrange(0, 4) == ordered_bytes(self.x.bits as nat, 4, order));
        assert(bytes.subrange(4, 8) == ordered_bytes(self.y.bits as nat, 4, order));
    }

    /// The number as eight bytes laid out in `order`.
    pub fn bytes_in(&self, order: ByteOrder) -> (r: Vec<u8>)
        ensures
            r@ == self.spec_bytes(order),
    {
        let mut out: Vec<u8> = Vec::new();
        append_ordered(&mut out, self.x.bits as u128, 4, order);
        append_ordered(&mut out, self.y.bits as u128, 4, order);
        out
    }

    /// The number as eight bytes in the byte order of the machine.
    pub fn bytes(&self) -> (r: Vec<u8>)
        ensures
            r@ == self.spec_bytes(ByteOrder::LittleEndian) || r@ == self.spec_bytes(
                ByteOrder::BigEndian,
            ),
    {
        self.bytes_in(native_order())
    }

    /// Reads a number from eight bytes laid out in `order`; any other count
    /// of bytes gives `None`.
    pub fn from_bytes(bytes: &[u8], order: ByteOrder) -> (r: Option<Complex>)
        ensures
            r == Self::spec_from_bytes(bytes@, order),
    {
        if bytes.len() != 8 {
            return None;
        }
        let x: u32 = quad_from_ordered(slice_subrange(bytes, 0, 4), order);
        let y: u32 = quad_from_ordered(slice_subrange(bytes, 4, 8), order);
        Some(Complex { x: Binary32 { bits: x }, y: Binary32 { bits: y } })
    }
}

/// The point lies outside the disk of radius two.
pub open spec fn escapes(p: Complex) -> bool {
    p.spec_sq().spec_gt(Binary32 { bits: ESCAPE_THRESHOLD_BITS })
}

/// One move: `(x*x - y*y + c.x, 2*x*y + c.y)`, evaluated left to right.
pub open spec fn step(c: Complex, p: Complex) -> Complex {
    Complex {
        x: p.x.spec_mul(p.x).spec_sub(p.y.spec_mul(p.y)).spec_add(c.x),
        y: Binary32 { bits: TWO_BITS }.spec_mul(p.x).spec_mul(p.y).spec_add(c.y),
    }
}

/// Where `p` stands after `i` moves.
pub open spec fn orbit(c: Complex, p: Complex, i: nat) -> Complex
    decreases i,
{
    if i == 0 {
        p
    } else {
        step(c, orbit(c, p, (i - 1) as nat))
    }
}

/// `p` is outside the disk after `i` moves and was inside before each of them.
pub open spec fn first_escape_at(c: Complex, p: Complex, i: nat) -> bool {
    escapes(orbit(c, p, i)) && forall|j: nat| j < i ==> !escapes(#[trigger] orbit(c, p, j))
}

/// The escape time of `p` under at most `cap` moves: `Escaped(i)` for the
/// first `i` below `cap` at which `p` is outside, `Bounded` if there is none.
pub open spec fn spec_escape_time(c: Complex, p: Complex, cap: nat) -> EscapeResult {
    if exists|i: nat| i < cap && first_escape_at(c, p, i) {
        EscapeResult::Escaped((choose|i: nat| i < cap && first_escape_at(c, p, i)) as u32)
    } else {
        EscapeResult::Bounded
    }
}

/// `p` proves work for `target`: it escapes after exactly `target` moves.
pub open spec fn spec_verify(c: Complex, p: Complex, target: u32) -> bool {
    spec_escape_time(c, p, MAX_ITERATIONS as nat) == EscapeResult::Escaped(target)
}

/// `pool[k]` proves work for `target` and nothing before it in the pool does.
pub open spec fn is_first_solution(c: Complex, pool: Seq<Complex>, target: u32, k: int) -> bool {
    &&& 0 <= k < pool.len()
    &&& spec_verify(c, pool[k], target)
    &&& forall|j: int| 0 <= j < k ==> !spec_verify(c, #[trigger] pool[j], target)
}

/// Nothing in the pool proves work for `target`.
pub open spec fn no_solution(c: Complex, pool: Seq<Complex>, target: u32) -> bool {
    forall|j: int| 0 <= j < pool.len() ==> !spec_verify(c, #[trigger] pool[j], target)
}

/// A point escapes first at one index only.
pub proof fn lemma_first_escape_unique(c: Complex, p: Complex, i: nat, k: nat)
    requires
        first_escape_at(c, p, i),
        first_escape_at(c, p, k),
    ensures
        i == k,
{
}

/// A first escape below the cap is the escape time.
pub proof fn lemma_escape_time_of_first_escape(c: Complex, p: Complex, cap: nat, i: nat)
    requires
        i < cap,
        cap <= u32::MAX,
        first_escape_at(c, p, i),
    ensures
        spec_escape_time(c, p, cap) == EscapeResult::Escaped(i as u32),
{
    let k = choose|k: nat| k < cap && first_escape_at(c, p, k);
    lemma_first_escape_unique(c, p, i, k);
}

/// A point that is inside before each of `cap` moves is bounded.
pub proof fn lemma_escape_time_of_no_escape(c: Complex, p: Complex, cap: nat)
    requires
        forall|j: nat| j < cap ==> !escapes(#[trigger] orbit(c, p, j)),
    ensures
        spec_escape_time(c, p, cap) == EscapeResult::Bounded,
{
}

/// A point that is outside the disk before its first move has escape time
/// zero, whatever the parameter.
pub proof fn lemma_outside_at_start(c: Complex, p: Complex, cap: nat)
    requires
        escapes(p),
        0 < cap <= u32::MAX,
    ensures
        spec_escape_time(c, p, cap) == EscapeResult::Escaped(0),
{
    lemma_escape_time_of_first_escape(c, p, cap, 0);
}

/// An escape time lies below the cap, and the point is outside the disk
/// for the first time after that many moves.
pub proof fn lemma_escape_time_is_first_escape(c: Complex, p: Complex, cap: nat, i: u32)
    requires
        cap <= u32::MAX,
        spec_escape_time(c, p, cap) == EscapeResult::Escaped(i),
    ensures
        i < cap,
        first_escape_at(c, p, i as nat),
{
}

/// A proof of work can only be had for a target below `MAX_ITERATIONS`.
pub proof fn lemma_solution_meets_target_bound(c: Complex, p: Complex, target: u32)
    requires
        spec_verify(c, p, target),
    ensures
        target < MAX_ITERATIONS,
{
    lemma_escape_time_is_first_escape(c, p, MAX_ITERATIONS as nat, target);
}

/// No forging: a point that first escapes after `i` moves proves work for
/// the target `i` and for no other.
pub proof fn lemma_verify_accepts_only_the_escape_time(c: Complex, p: Complex, i: u32, target: u32)
    requires
        i < MAX_ITERATIONS,
        first_escape_at(c, p, i as nat),
    ensures
        spec_verify(c, p, target) <==> target == i,
{
    lemma_escape_time_of_first_escape(c, p, MAX_ITERATIONS as nat, i as nat);
}

/// A point that is outside the disk before its first move proves work for
/// the target zero alone.
pub proof fn lemma_outside_at_start_fails_later_targets(c: Complex, p: Complex, target: u32)
    requires
        escapes(p),
        target > 0,
    ensures
        !spec_verify(c, p, target),
{
    lemma_outside_at_start(c, p, MAX_ITERATIONS as nat);
}

/// A point that stays inside for `MAX_ITERATIONS` moves proves work for no target.
pub proof fn lemma_bounded_point_fails_every_target(c: Complex, p: Complex, target: u32)
    requires
        forall|j: nat| j < MAX_ITERATIONS ==> !escapes(#[trigger] orbit(c, p, j)),
    ensures
        spec_escape_time(c, p, MAX_ITERATIONS as nat) == EscapeResult::Bounded,
        !spec_verify(c, p, target),
{
    lemma_escape_time_of_no_escape(c, p, MAX_ITERATIONS as nat);
}

/// What mining finds, checking accepts: the first solution of a pool
/// proves work for the target, and the target is one that `verify` takes.
pub proof fn lemma_mined_point_verifies(c: Complex, pool: Seq<Complex>, target: u32, k: int)
    requires
        is_first_solution(c, pool, target, k),
    ensures
        spec_verify(c, pool[k], target),
        target < MAX_ITERATIONS,
{
    lemma_solution_meets_target_bound(c, pool[k], target);
}

/// A pool has a first solution or none at all, never both, and an empty
/// pool has none.
pub proof fn lemma_pool_exhaustion(c: Complex, pool: Seq<Complex>, target: u32)
    ensures
        no_solution(c, pool, target) <==> !exists|k: int| is_first_solution(c, pool, target, k),
        pool.len() == 0 ==> no_solution(c, pool, target),
{
    if !no_solution(c, pool, target) {
        let j = choose|j: int| 0 <= j < pool.len() && spec_verify(c, #[trigger] pool[j], target);
        lemma_first_solution_exists(c, pool, target, j);
    }
}

/// Where some point of the pool proves work, one of them is the first.
proof fn lemma_first_solution_exists(c: Complex, pool: Seq<Complex>, target: u32, j: int)
    requires
        0 <= j < pool.len(),
        spec_verify(c, pool[j], target),
    ensures
        exists|k: int| is_first_solution(c, pool, target, k),
    decreases j,
{
    if exists|i: int| 0 <= i < j && spec_verify(c, #[trigger] pool[i], target) {
        let i = choose|i: int| 0 <= i < j && spec_verify(c, #[trigger] pool[i], target);
        lemma_first_solution_exists(c, pool, target, i);
    } else {
        assert(is_first_solution(c, pool, target, j));
    }
}

/// One first solution at most: the pool's order decides between points
/// that both prove work.
pub proof fn lemma_first_solution_unique(c: Complex, pool: Seq<Complex>, target: u32, k: int, m: int)
    requires
        is_first_solution(c, pool, target, k),
        is_first_solution(c, pool, target, m),
    ensures
        k == m,
{
}

/// Makes one move.
pub fn advance(parameter: Complex, point: Complex) -> (r: Complex)
    ensures
        r == step(parameter, point),
{
    let x: Binary32 = point.x.mul(point.x).sub(point.y.mul(point.y)).add(parameter.x);
    let y: Binary32 = Binary32 { bits: TWO_BITS }.mul(point.x).mul(point.y).add(parameter.y);
    Complex { x, y }
}

/// Counts the moves that `point` makes under `parameter` before it leaves
/// the disk of radius two, looking before each move and giving up once
/// `cap` moves are made. The result is a function of the three arguments.
pub fn escape_time(parameter: Complex, point: Complex, cap: u32) -> (r: EscapeResult)
    ensures
        r == spec_escape_time(parameter, point, cap as nat),
{
    let threshold: Binary32 = Binary32 { bits: ESCAPE_THRESHOLD_BITS };
    let mut i: u32 = 0;
    let mut p: Complex = point;
    while i < cap
        invariant
            i <= cap,
            p == orbit(parameter, point, i as nat),
            threshold.bits == ESCAPE_THRESHOLD_BITS,
            forall|j: nat| j < i ==> !escapes(#[trigger] orbit(parameter, point, j)),
        decreases cap - i,
    {
        if p.sq().gt(threshold) {
            proof {
                lemma_escape_time_of_first_escape(parameter, point, cap as nat, i as nat);
            }
            return EscapeResult::Escaped(i);
        }
        p = advance(parameter, p);
        i = i + 1;
    }
    proof {
        lemma_escape_time_of_no_escape(parameter, point, cap as nat);
    }
    EscapeResult::Bounded
}

/// Checks a proof of work: whether `p` escapes `julia_set` after exactly
/// `n_iterations` moves.
#[verifier::when_used_as_spec(spec_verify)]
pub fn verify(julia_set: Complex, p: Complex, n_iterations: u32) -> (r: bool)
    requires
        n_iterations < MAX_ITERATIONS,
    ensures
        r == spec_verify(julia_set, p, n_iterations),
{
    match escape_time(julia_set, p, MAX_ITERATIONS) {
        EscapeResult::Escaped(i) => i == n_iterations,
        EscapeResult::Bounded => false,
    }
}

/// Mines: gives the first point of the pool that escapes `julia_set` after
/// exactly `target` moves, or `None` where the pool holds no such point.
pub fn find_point(julia_set: Complex, points: &[Complex], target: u32) -> (r: Option<Complex>)
    ensures
        match r {
            Some(p) => exists|k: int| is_first_solution(julia_set, points@, target, k) && points@[k] == p,
            None => no_solution(julia_set, points@, target),
        },
        r is None <==> no_solution(julia_set, points@, target),
        r matches Some(p) ==> spec_verify(julia_set, p, target) && target < MAX_ITERATIONS,
{
    let mut k: usize = 0;
    while k < points.len()
        invariant
            k <= points@.len(),
            forall|j: int| 0 <= j < k ==> !spec_verify(julia_set, #[trigger] points@[j], target),
        decreases points@.len() - k,
    {
        let p: Complex = points[k];
        match escape_time(julia_set, p, MAX_ITERATIONS) {
            EscapeResult::Escaped(i) => {
                if i == target {
                    assert(is_first_solution(julia_set, points@, target, k as int));
                    proof {
                        lemma_solution_meets_target_bound(julia_set, p, target);
                    }
                    return Some(p);
                }
            },
            EscapeResult::Bounded => {},
        }
        k = k + 1;
    }
    None
}

} // verus!
