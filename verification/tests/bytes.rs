use julia_blockchain::binary32::Binary32;
use julia_blockchain::byte_order::{
    append_ordered, byte_of, native_order, order_of_layout, quad_from_ordered, ByteOrder,
};
use julia_blockchain::maths::Complex;

fn point(x: f32, y: f32) -> Complex {
    Complex::new(Binary32::from_bits(x.to_bits()), Binary32::from_bits(y.to_bits()))
}

#[test]
fn native_order_is_the_machines() {
    let expected = if 1u16.to_ne_bytes()[0] == 1 { ByteOrder::LittleEndian } else { ByteOrder::BigEndian };
    assert_eq!(native_order(), expected);
    assert_eq!(native_order() == ByteOrder::LittleEndian, 1u32.to_le() == 1u32);
}

#[test]
fn bytes_are_the_native_bytes_of_x_then_y() {
    for &(x, y) in &[(0.285f32, 0.0f32), (-1.5, 2.25), (3.0e-40, -0.0), (f32::MAX, f32::MIN_POSITIVE)] {
        let mut expected = Vec::new();
        expected.extend_from_slice(&x.to_ne_bytes());
        expected.extend_from_slice(&y.to_ne_bytes());
        assert_eq!(point(x, y).bytes(), expected);
        assert_eq!(point(x, y).bytes().len(), 8);
    }
}

#[test]
fn bytes_in_either_order() {
    let p = Complex::new(Binary32::from_bits(0x0102_0304), Binary32::from_bits(0xa0b0_c0d0));
    assert_eq!(p.bytes_in(ByteOrder::LittleEndian), vec![4, 3, 2, 1, 0xd0, 0xc0, 0xb0, 0xa0]);
    assert_eq!(p.bytes_in(ByteOrder::BigEndian), vec![1, 2, 3, 4, 0xa0, 0xb0, 0xc0, 0xd0]);
    let one = point(1.0, -2.0);
    assert_eq!(one.bytes_in(ByteOrder::LittleEndian), vec![0, 0, 0x80, 0x3f, 0, 0, 0, 0xc0]);
    assert_eq!(one.bytes_in(ByteOrder::BigEndian), vec![0x3f, 0x80, 0, 0, 0xc0, 0, 0, 0]);
}

#[test]
fn bytes_round_trip_bit_for_bit() {
    let samples = [
        (0.285f32.to_bits(), 0.0f32.to_bits()),
        (0x8000_0000, 0x0000_0001),
        (0x7fc0_0001, 0xffff_ffff),
        (0x7f80_0000, 0xff80_0000),
        (0x1234_5678, 0x9abc_def0),
    ];
    for &(x, y) in &samples {
        let p = Complex::new(Binary32::from_bits(x), Binary32::from_bits(y));
        for order in [ByteOrder::LittleEndian, ByteOrder::BigEndian] {
            let back = Complex::from_bytes(&p.bytes_in(order), order).unwrap();
            assert_eq!((back.x.to_bits(), back.y.to_bits()), (x, y));
        }
        let back = Complex::from_bytes(&p.bytes(), native_order()).unwrap();
        assert_eq!((back.x.to_bits(), back.y.to_bits()), (x, y));
        let bytes = p.bytes();
        let hardware_x = f32::from_ne_bytes([bytes[0], bytes[1], bytes[2], bytes[3]]);
        let hardware_y = f32::from_ne_bytes([bytes[4], bytes[5], bytes[6], bytes[7]]);
        assert_eq!((hardware_x.to_bits(), hardware_y.to_bits()), (x, y));
    }
}

#[test]
fn from_bytes_wants_eight_bytes() {
    assert!(Complex::from_bytes(&[], ByteOrder::LittleEndian).is_none());
    assert!(Complex::from_bytes(&[0; 7], ByteOrder::LittleEndian).is_none());
    assert!(Complex::from_bytes(&[0; 9], ByteOrder::BigEndian).is_none());
    assert!(Complex::from_bytes(&[0; 8], ByteOrder::BigEndian).is_some());
}

#[test]
fn the_orders_read_the_same_bytes_differently() {
    let bytes = [0x3f, 0x80, 0, 0, 0, 0, 0x80, 0x3f];
    let big = Complex::from_bytes(&bytes, ByteOrder::BigEndian).unwrap();
    assert_eq!((big.x.to_bits(), big.y.to_bits()), (0x3f80_0000, 0x0000_803f));
    let little = Complex::from_bytes(&bytes, ByteOrder::LittleEndian).unwrap();
    assert_eq!((little.x.to_bits(), little.y.to_bits()), (0x0000_803f, 0x3f80_0000));
}

#[test]
fn integers_as_ordered_bytes() {
    let v: u128 = 0x0102_0304_0506_0708_090a_0b0c_0d0e_0f10;
    for i in 0..16u32 {
        assert_eq!(byte_of(v, i), 0x10 - i as u8);
    }
    let mut out = vec![0xee];
    append_ordered(&mut out, v, 16, ByteOrder::BigEndian);
    assert_eq!(out[0], 0xee);
    assert_eq!(&out[1..], &v.to_be_bytes());
    let mut out = Vec::new();
    append_ordered(&mut out, v, 16, ByteOrder::LittleEndian);
    assert_eq!(out, v.to_le_bytes().to_vec());
    let mut out = Vec::new();
    append_ordered(&mut out, v, 3, ByteOrder::LittleEndian);
    assert_eq!(out, vec![0x10, 0x0f, 0x0e]);
    let mut out = Vec::new();
    append_ordered(&mut out, v, 3, ByteOrder::BigEndian);
    assert_eq!(out, vec![0x0e, 0x0f, 0x10]);
    let mut out = vec![1, 2];
    append_ordered(&mut out, v, 0, ByteOrder::BigEndian);
    assert_eq!(out, vec![1, 2]);
    assert_eq!(quad_from_ordered(&[1, 2, 3, 4], ByteOrder::BigEndian), 0x0102_0304);
    assert_eq!(quad_from_ordered(&[1, 2, 3, 4], ByteOrder::LittleEndian), 0x0403_0201);
    assert_eq!(quad_from_ordered(&[0xff; 4], ByteOrder::LittleEndian), u32::MAX);
}

#[test]
fn a_layout_of_one_shows_its_order() {
    assert_eq!(order_of_layout([1, 0]), ByteOrder::LittleEndian);
    assert_eq!(order_of_layout([0, 1]), ByteOrder::BigEndian);
    assert_eq!(order_of_layout(1u16.to_le_bytes()), ByteOrder::LittleEndian);
    assert_eq!(order_of_layout(1u16.to_be_bytes()), ByteOrder::BigEndian);
    assert_eq!(order_of_layout(1u16.to_ne_bytes()), native_order());
    // whatever does not start with the one is not little-endian
    assert_eq!(order_of_layout([0, 0]), ByteOrder::BigEndian);
    assert_eq!(order_of_layout([2, 1]), ByteOrder::BigEndian);
    let mut made = Vec::new();
    append_ordered(&mut made, 1, 2, ByteOrder::BigEndian);
    assert_eq!(order_of_layout([made[0], made[1]]), ByteOrder::BigEndian);
    let mut made = Vec::new();
    append_ordered(&mut made, 1, 2, ByteOrder::LittleEndian);
    assert_eq!(order_of_layout([made[0], made[1]]), ByteOrder::LittleEndian);
}
