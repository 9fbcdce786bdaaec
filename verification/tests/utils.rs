//! Numbers in messages.
use async_rustbus::rustbus_core::unsafe_wrapper::Unsafe;
use async_rustbus::rustbus_core::{ByteOrder, Serial};
use async_rustbus::utils::{align_num, parse_u32};

#[test]
fn align_num_0_1024() {
    let mut target = 1;
    while target <= 32 {
        assert_eq!(align_num(0, target), 0);
        let aligned =
            (0..=(1024 / target)).flat_map(|i| std::iter::repeat((i + 1) * target).take(target));
        for (gen, tar) in (1..=1024).map(|i| align_num(i, target)).zip(aligned) {
            assert_eq!(gen, tar);
        }
        target += 1;
    }
}

#[test]
fn numbers_in_both_byte_orders() {
    let bytes = [1u8, 2, 3, 4];
    assert_eq!(parse_u32(&bytes, ByteOrder::LittleEndian), 0x0403_0201);
    assert_eq!(parse_u32(&bytes, ByteOrder::BigEndian), 0x0102_0304);
}

#[test]
fn serials_skip_zero() {
    assert!(Serial::new(0).is_none());
    assert_eq!(Serial::first().get(), 1);
    assert_eq!(Serial::first().next().get(), 2);
    assert_eq!(Serial::new(u32::MAX).unwrap().next().get(), 1);
}

#[test]
fn wrapped_values() {
    let mut wrapped = Unsafe::new(vec![1, 2]);
    wrapped.as_mut().push(3);
    assert_eq!(wrapped.len(), 3);
    assert_eq!(wrapped.take(), vec![1, 2, 3]);
}
