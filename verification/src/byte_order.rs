//! Fixed-width integers as bytes, in either byte order.
use vstd::prelude::*;
use vstd::arithmetic::power2::*;
use vstd::arithmetic::div_mod::*;
use vstd::bits::*;

verus! {

/// The order in which the bytes of an integer are laid out.
#[derive(Clone, Copy, PartialEq, Eq, Structural, Debug)]
pub enum ByteOrder {
    /// Least significant byte first.
    LittleEndian,
    /// Most significant byte first.
    BigEndian,
}

/// The byte of weight `256^i` in `v`.
pub open spec fn byte_at(v: nat, i: nat) -> u8 {
    (v / pow2(8 * i) % 256) as u8
}

/// The `width` low bytes of `v`, laid out in `order`.
pub open spec fn ordered_bytes(v: nat, width: nat, order: ByteOrder) -> Seq<u8> {
    match order {
        ByteOrder::LittleEndian => Seq::new(width, |k: int| byte_at(v, k as nat)),
        ByteOrder::BigEndian => Seq::new(width, |k: int| byte_at(v, (width - 1 - k) as nat)),
    }
}

/// The integer that four bytes laid out in `order` stand for.
pub open spec fn quad_value(bytes: Seq<u8>, order: ByteOrder) -> int {
    match order {
        ByteOrder::LittleEndian => bytes[0] + 0x100 * bytes[1] + 0x1_0000 * bytes[2] + 0x100_0000
            * bytes[3],
        ByteOrder::BigEndian => bytes[3] + 0x100 * bytes[2] + 0x1_0000 * bytes[1] + 0x100_0000
            * bytes[0],
    }
}

/// Four bytes laid out in either order hold a 32-bit integer whole.
pub proof fn lemma_quad_round_trip(v: u32, order: ByteOrder)
    ensures
        ordered_bytes(v as nat, 4, order).len() == 4,
        quad_value(ordered_bytes(v as nat, 4, order), order) == v,
{
    lemma2_to64();
    assert(8 * 0 == 0 && 8 * 1 == 8 && 8 * 2 == 16 && 8 * 3 == 24);
    assert(byte_at(v as nat, 0) == v % 256);
    assert(byte_at(v as nat, 1) == v / 0x100 % 256);
    assert(byte_at(v as nat, 2) == v / 0x1_0000 % 256);
    assert(byte_at(v as nat, 3) == v / 0x100_0000 % 256);
}

/// `u16::to_ne_bytes`: the two bytes of `v` as the machine lays them out.
/// Nothing is claimed of them.
#[verifier::external_body]
fn native_layout(v: u16) -> (r: [u8; 2]) {
    v.to_ne_bytes()
}

/// The byte order of the machine that runs this: little-endian where the
/// number one is laid out low byte first.
pub fn native_order() -> (order: ByteOrder) {
    order_of_layout(native_layout(1))
}

/// The byte order that a layout of the number one shows: little-endian
/// where the low byte, which holds the one, comes first. So the two bytes
/// that either order makes of the number one lead back to that order.
pub fn order_of_layout(probe: [u8; 2]) -> (order: ByteOrder)
    ensures
        order == ByteOrder::LittleEndian <==> probe@[0] == 1,
        order == ByteOrder::BigEndian <==> probe@[0] != 1,
        forall|made: ByteOrder| probe@ == ordered_bytes(1, 2, made) ==> order == made,
{
    proof {
        lemma2_to64();
        assert(8 * 0 == 0 && 8 * 1 == 8);
        assert(byte_at(1, 0) == 1 && byte_at(1, 1) == 0);
        assert(ordered_bytes(1, 2, ByteOrder::LittleEndian)[0] == 1);
        assert(ordered_bytes(1, 2, ByteOrder::BigEndian)[0] == 0);
    }
    if probe[0] == 1 {
        ByteOrder::LittleEndian
    } else {
        ByteOrder::BigEndian
    }
}

/// Picks the byte of weight `256^i` out of `v`.
pub fn byte_of(v: u128, i: u32) -> (b: u8)
    requires
        i < 16,
    ensures
        b == byte_at(v as nat, i as nat),
{
    let shift: u128 = (8 * i) as u128;
    proof {
        lemma_u128_shr_is_div(v, shift);
    }
    ((v >> shift) % 256) as u8
}

/// Appends the `width` low bytes of `v` to `out`, laid out in `order`.
pub fn append_ordered(out: &mut Vec<u8>, v: u128, width: u32, order: ByteOrder)
    requires
        width <= 16,
    ensures
        final(out)@ == old(out)@ + ordered_bytes(v as nat, width as nat, order),
{
    let ghost before: Seq<u8> = out@;
    let ghost all: Seq<u8> = ordered_bytes(v as nat, width as nat, order);
    let mut k: u32 = 0;
    while k < width
        invariant
            k <= width <= 16,
            all == ordered_bytes(v as nat, width as nat, order),
            out@ == before + all.take(k as int),
        decreases width - k,
    {
        let i: u32 = match order {
            ByteOrder::LittleEndian => k,
            ByteOrder::BigEndian => width - 1 - k,
        };
        out.push(byte_of(v, i));
        proof {
            assert(all.take(k + 1) == all.take(k as int).push(all[k as int]));
        }
        k = k + 1;
    }
    proof {
        assert(all.take(width as int) == all);
    }
}

/// Reads the 32-bit integer that four bytes laid out in `order` stand for.
pub fn quad_from_ordered(bytes: &[u8], order: ByteOrder) -> (v: u32)
    requires
        bytes@.len() == 4,
    ensures
        v == quad_value(bytes@, order),
{
    let (b0, b1, b2, b3): (u8, u8, u8, u8) = match order {
        ByteOrder::LittleEndian => (bytes[0], bytes[1], bytes[2], bytes[3]),
        ByteOrder::BigEndian => (bytes[3], bytes[2], bytes[1], bytes[0]),
    };
    b0 as u32 + 0x100 * (b1 as u32) + 0x1_0000 * (b2 as u32) + 0x100_0000 * (b3 as u32)
}

} // verus!
