//! Arithmetic on lengths and on the integers of the wire format.
use vstd::prelude::*;

use crate::rustbus_core::ByteOrder;

verus! {

/// The smallest multiple of `alignment` that is not below `num`.
pub open spec fn align_up(num: int, alignment: int) -> int
    recommends
        alignment > 0,
{
    num + (alignment - num % alignment) % alignment
}

/// What `align_up` promises: it rounds up, to a multiple, by less than one step.
pub proof fn lemma_align_up(num: int, alignment: int)
    requires
        alignment > 0,
        num >= 0,
    ensures
        num <= align_up(num, alignment) < num + alignment,
        align_up(num, alignment) % alignment == 0,
{
    let r = num % alignment;
    assert(0 <= r < alignment) by (nonlinear_arith)
        requires
            alignment > 0,
            r == num % alignment,
    ;
    vstd::arithmetic::div_mod::lemma_fundamental_div_mod(num, alignment);
    let q = num / alignment;
    if r == 0 {
        assert((alignment - r) % alignment == 0) by (nonlinear_arith)
            requires
                alignment > 0,
                r == 0,
        ;
    } else {
        vstd::arithmetic::div_mod::lemma_small_mod((alignment - r) as nat, alignment as nat);
        vstd::arithmetic::div_mod::lemma_mod_multiples_vanish(q + 1, 0, alignment);
        assert(num + (alignment - r) == alignment * (q + 1) + 0) by (nonlinear_arith)
            requires
                num == alignment * q + r,
        ;
        vstd::arithmetic::div_mod::lemma_small_mod(0, alignment as nat);
    }
}

/// The number that four bytes hold in the given byte order.
pub open spec fn u32_value(bytes: Seq<u8>, order: ByteOrder) -> int {
    match order {
        ByteOrder::LittleEndian => bytes[0] + 0x100 * bytes[1] + 0x1_0000 * bytes[2] + 0x100_0000
            * bytes[3],
        ByteOrder::BigEndian => bytes[3] + 0x100 * bytes[2] + 0x1_0000 * bytes[1] + 0x100_0000
            * bytes[0],
    }
}

/// The number that eight bytes hold in the given byte order.
pub open spec fn u64_value(bytes: Seq<u8>, order: ByteOrder) -> int {
    let (first, second) = (
        u32_value(bytes.subrange(0, 4), order),
        u32_value(bytes.subrange(4, 8), order),
    );
    match order {
        ByteOrder::LittleEndian => first + 0x1_0000_0000 * second,
        ByteOrder::BigEndian => second + 0x1_0000_0000 * first,
    }
}

/// The eight bytes that hold a number in the given byte order.
pub open spec fn u64_bytes(number: u64, order: ByteOrder) -> Seq<u8> {
    let low = u32_bytes((number % 0x1_0000_0000) as u32, order);
    let high = u32_bytes((number / 0x1_0000_0000) as u32, order);
    match order {
        ByteOrder::LittleEndian => low + high,
        ByteOrder::BigEndian => high + low,
    }
}

/// The bytes of a number hold that number.
pub proof fn lemma_u64_round_trip(number: u64, order: ByteOrder)
    ensures
        u64_bytes(number, order).len() == 8,
        u64_value(u64_bytes(number, order), order) == number,
{
    let (low, high) = ((number % 0x1_0000_0000) as u32, (number / 0x1_0000_0000) as u32);
    lemma_u32_round_trip(low, order);
    lemma_u32_round_trip(high, order);
    let bytes = u64_bytes(number, order);
    match order {
        ByteOrder::LittleEndian => {
            assert(bytes.subrange(0, 4) =~= u32_bytes(low, order));
            assert(bytes.subrange(4, 8) =~= u32_bytes(high, order));
        },
        ByteOrder::BigEndian => {
            assert(bytes.subrange(0, 4) =~= u32_bytes(high, order));
            assert(bytes.subrange(4, 8) =~= u32_bytes(low, order));
        },
    }
}

/// The four bytes that hold a number in the given byte order.
pub open spec fn u32_bytes(number: u32, order: ByteOrder) -> Seq<u8> {
    let b0 = (number % 0x100) as u8;
    let b1 = ((number / 0x100) % 0x100) as u8;
    let b2 = ((number / 0x1_0000) % 0x100) as u8;
    let b3 = (number / 0x100_0000) as u8;
    match order {
        ByteOrder::LittleEndian => seq![b0, b1, b2, b3],
        ByteOrder::BigEndian => seq![b3, b2, b1, b0],
    }
}

/// Four bytes read back as the number that was written into them.
pub proof fn lemma_u32_round_trip(number: u32, order: ByteOrder)
    ensures
        u32_bytes(number, order).len() == 4,
        u32_value(u32_bytes(number, order), order) == number,
{
}

/// Reads the four bytes of `number` as an integer in the byte order `bo`.
pub fn parse_u32(number: &[u8], bo: ByteOrder) -> (value: u32)
    requires
        number@.len() == 4,
    ensures
        value == u32_value(number@, bo),
{
    let (b0, b1, b2, b3): (u8, u8, u8, u8) = match bo {
        ByteOrder::LittleEndian => (number[0], number[1], number[2], number[3]),
        ByteOrder::BigEndian => (number[3], number[2], number[1], number[0]),
    };
    b0 as u32 + 0x100 * (b1 as u32) + 0x1_0000 * (b2 as u32) + 0x100_0000 * (b3 as u32)
}

/// Rounds `num` up to a multiple of `alignment`.
pub fn align_num(num: usize, alignment: usize) -> (aligned: usize)
    requires
        alignment > 0,
        align_up(num as int, alignment as int) <= usize::MAX,
    ensures
        aligned == align_up(num as int, alignment as int),
        num <= aligned < num + alignment,
        aligned % alignment == 0,
{
    proof {
        lemma_align_up(num as int, alignment as int);
    }
    (alignment - (num % alignment)) % alignment + num
}

} // verus!
