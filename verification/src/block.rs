//! Blocks: a payload, a link to the previous block, a timestamp, and the
//! point that proves the work, under the rules the chain was set up with.
use vstd::prelude::*;
use vstd::string::*;
use vstd::utf8::encode_utf8;
use crate::binary32::Binary32;
use crate::byte_order::{append_ordered, native_order, ordered_bytes, ByteOrder};
use crate::maths::{find_point, is_first_solution, no_solution, Complex, MAX_ITERATIONS};

verus! {

/// The SHA-256 digest of a byte string.
pub uninterp spec fn sha256(data: Seq<u8>) -> Seq<u8>;

/// `crypto_hash::digest`, asked for `Algorithm::SHA256`: the SHA-256 digest
/// of `data`. It gives up only where the system's cryptographic library
/// refuses the algorithm, whatever the data.
#[verifier::external_body]
fn sha256_digest(data: &[u8]) -> (r: Vec<u8>)
    ensures
        r@ == sha256(data@),
{
    crypto_hash::digest(crypto_hash::Algorithm::SHA256, data)
}

/// What can be written as bytes can be hashed.
pub trait Hashable {
    /// The bytes that stand for `self` on a machine of the given byte order.
    spec fn spec_bytes(&self, order: ByteOrder) -> Seq<u8>;

    /// The bytes that stand for `self` on this machine.
    fn bytes(&self) -> (r: Vec<u8>)
        ensures
            r@ == self.spec_bytes(ByteOrder::LittleEndian) || r@ == self.spec_bytes(
                ByteOrder::BigEndian,
            ),
    ;

    /// The SHA-256 digest of `bytes()`.
    fn hash(&self) -> (r: Vec<u8>)
        ensures
            r@ == sha256(self.spec_bytes(ByteOrder::LittleEndian)) || r@ == sha256(
                self.spec_bytes(ByteOrder::BigEndian),
            ),
    {
        let bytes: Vec<u8> = self.bytes();
        sha256_digest(bytes.as_slice())
    }
}

/// Why a set of mining rules was turned down.
#[derive(Clone, Copy, PartialEq, Eq, Structural, Debug)]
pub enum DifficultyError {
    /// The target is not below `MAX_ITERATIONS`, so no point can meet it.
    InvalidTarget,
    /// A component of the parameter is infinite or a NaN.
    NonFiniteParameter,
    /// A component of a point of the pool is infinite or a NaN.
    NonFinitePoint,
}

/// The rules of mining: which Julia set, which points may be tried, and
/// after how many moves the winning point must escape.
#[derive(Clone)]
pub struct Difficulty {
    pub set: Complex,
    pub points: Vec<Complex>,
    pub target_iterations: u32,
}

/// Every point of the pool is finite.
pub open spec fn all_finite(pool: Seq<Complex>) -> bool {
    forall|j: int| 0 <= j < pool.len() ==> (#[trigger] pool[j]).spec_is_finite()
}

impl Difficulty {
    /// The target can be met and every number is finite.
    pub open spec fn wf(&self) -> bool {
        &&& self.target_iterations < MAX_ITERATIONS
        &&& self.set.spec_is_finite()
        &&& all_finite(self.points@)
    }

    /// Sets up mining rules, turning down a target that no point can meet
    /// and numbers that are not finite. The target is looked at first, then
    /// the parameter, then the pool.
    pub fn new(set: Complex, points: Vec<Complex>, target_iterations: u32) -> (r: Result<
        Difficulty,
        DifficultyError,
    >)
        ensures
            match r {
                Ok(d) => d.wf() && d.set == set && d.points == points && d.target_iterations
                    == target_iterations,
                Err(DifficultyError::InvalidTarget) => target_iterations >= MAX_ITERATIONS,
                Err(DifficultyError::NonFiniteParameter) => target_iterations < MAX_ITERATIONS
                    && !set.spec_is_finite(),
                Err(DifficultyError::NonFinitePoint) => target_iterations < MAX_ITERATIONS
                    && set.spec_is_finite() && !all_finite(points@),
            },
    {
        if target_iterations >= MAX_ITERATIONS {
            return Err(DifficultyError::InvalidTarget);
        }
        if !set.is_finite() {
            return Err(DifficultyError::NonFiniteParameter);
        }
        let mut k: usize = 0;
        while k < points.len()
            invariant
                k <= points@.len(),
                target_iterations < MAX_ITERATIONS,
                set.spec_is_finite(),
                forall|j: int| 0 <= j < k ==> (#[trigger] points@[j]).spec_is_finite(),
            decreases points@.len() - k,
        {
            if !points[k].is_finite() {
                assert(!points@[k as int].spec_is_finite());
                return Err(DifficultyError::NonFinitePoint);
            }
            k = k + 1;
        }
        Ok(Difficulty { set, points, target_iterations })
    }
}

/// One block of the chain.
pub struct Block {
    pub hash: Vec<u8>,
    pub prev_hash: Vec<u8>,
    pub timestamp: u128,
    pub nonce: Complex,
    pub payload: String,
    pub difficulty: Difficulty,
}

impl Hashable for Block {
    /// The bytes of the nonce, then the payload as UTF-8, then the sixteen
    /// bytes of the timestamp.
    open spec fn spec_bytes(&self, order: ByteOrder) -> Seq<u8> {
        self.nonce.spec_bytes(order) + encode_utf8(self.payload@) + ordered_bytes(
            self.timestamp as nat,
            16,
            order,
        )
    }

    fn bytes(&self) -> (r: Vec<u8>) {
        let order: ByteOrder = native_order();
        let mut bytes: Vec<u8> = self.nonce.bytes_in(order);
        bytes.extend_from_slice(self.payload.as_str().as_bytes());
        append_ordered(&mut bytes, self.timestamp, 16, order);
        bytes
    }
}

impl Block {
    /// A block that is yet to be mined: its hash is thirty-two zero bytes
    /// and its nonce is zero.
    pub fn new(payload: String, difficulty: Difficulty, prev_hash: Vec<u8>, timestamp: u128) -> (r:
        Block)
        ensures
            r.hash@ == Seq::new(32, |i: int| 0u8),
            r.prev_hash == prev_hash,
            r.timestamp == timestamp,
            r.nonce == (Complex { x: Binary32 { bits: 0 }, y: Binary32 { bits: 0 } }),
            r.payload == payload,
            r.difficulty == difficulty,
    {
        Block {
            hash: vec![0u8; 32],
            prev_hash,
            timestamp,
            nonce: Complex::new(Binary32 { bits: 0 }, Binary32 { bits: 0 }),
            payload,
            difficulty,
        }
    }

    /// Mines the block: takes the first point of the pool that meets the
    /// target as the nonce and seals the block with the digest of its bytes.
    /// Where the pool holds no such point the block is left as it was.
    pub fn mine(&mut self) -> (r: Result<Complex, String>)
        ensures
            final(self).prev_hash == old(self).prev_hash,
            final(self).timestamp == old(self).timestamp,
            final(self).payload == old(self).payload,
            final(self).difficulty == old(self).difficulty,
            match r {
                Ok(n) => {
                    &&& exists|k: int|
                        is_first_solution(
                            old(self).difficulty.set,
                            old(self).difficulty.points@,
                            old(self).difficulty.target_iterations,
                            k,
                        ) && old(self).difficulty.points@[k] == n
                    &&& final(self).nonce == n
                    &&& (final(self).hash@ == sha256(final(self).spec_bytes(ByteOrder::LittleEndian))
                        || final(self).hash@ == sha256(
                        final(self).spec_bytes(ByteOrder::BigEndian),
                    ))
                },
                Err(e) => {
                    &&& no_solution(
                        old(self).difficulty.set,
                        old(self).difficulty.points@,
                        old(self).difficulty.target_iterations,
                    )
                    &&& final(self).nonce == old(self).nonce
                    &&& final(self).hash == old(self).hash
                    &&& e@ == "Couldn't mine block :("@
                },
            },
    {
        let nonce: Option<Complex> = find_point(
            self.difficulty.set,
            self.difficulty.points.as_slice(),
            self.difficulty.target_iterations,
        );
        match nonce {
            Some(n) => {
                self.nonce = n;
                let digest: Vec<u8> = self.hash();
                self.hash = digest;
                Ok(n)
            },
            None => Err("Couldn't mine block :(".to_owned()),
        }
    }
}

} // verus!
