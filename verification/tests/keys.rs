use rust_sorts::bucket::quadro_pivot_quicksort_2;
use rust_sorts::ty::{float_ord_bits, float_ord_key, int_ord_key, int_ord_value};
use rust_sorts::util::{rotate3, rotate4, swap};

#[test]
fn float_key_order_matches_float_order() {
    let floats: Vec<f32> = vec![
        f32::NEG_INFINITY,
        -1.0e30,
        -2.5,
        -1.0,
        -0.5,
        -1.0e-40,
        0.0,
        1.0e-40,
        0.5,
        1.0,
        2.5,
        1.0e30,
        f32::INFINITY,
    ];
    for i in 0..floats.len() {
        for j in 0..floats.len() {
            let ki = float_ord_key(floats[i].to_bits());
            let kj = float_ord_key(floats[j].to_bits());
            assert_eq!(floats[i] < floats[j], ki < kj);
            assert_eq!(floats[i] == floats[j], ki == kj);
        }
    }
}

#[test]
fn float_key_roundtrip() {
    let samples: Vec<u32> = vec![
        0,
        1,
        0x7F80_0000,
        0x7FC0_0000,
        0x8000_0000,
        0x8000_0001,
        0xFF80_0000,
        0xFFFF_FFFF,
        12345,
    ];
    for &b in &samples {
        assert_eq!(float_ord_bits(float_ord_key(b)), b);
        assert_eq!(float_ord_key(float_ord_bits(b)), b);
    }
}

#[test]
fn negative_zero_orders_below_positive_zero_key() {
    // the two IEEE zeros compare equal as floats but have distinct bit
    // patterns; the key mapper keeps them adjacent and ordered
    let kneg = float_ord_key((-0.0f32).to_bits());
    let kpos = float_ord_key(0.0f32.to_bits());
    assert!(kneg < kpos);
    assert_eq!(kneg + 1, kpos);
}

#[test]
fn int_key_order_matches_signed_order() {
    let ints: Vec<i32> = vec![i32::MIN, -100, -1, 0, 1, 7, 100, i32::MAX];
    for i in 0..ints.len() {
        for j in 0..ints.len() {
            let ki = int_ord_key(ints[i]);
            let kj = int_ord_key(ints[j]);
            assert_eq!(ints[i] <= ints[j], ki <= kj);
        }
    }
    for &v in &ints {
        assert_eq!(int_ord_value(int_ord_key(v)), v);
    }
}

#[test]
fn bucket_partitioner_on_twelve_floats() {
    let floats: Vec<f32> = vec![
        3.5, -2.25, 0.0, 17.75, -100.5, 42.0, 0.125, -0.125, 9.0, 1.5, -7.0, 8.25,
    ];
    let mut keys: Vec<u32> = floats.iter().map(|f| float_ord_key(f.to_bits())).collect();
    quadro_pivot_quicksort_2(&mut keys);
    let sorted_floats: Vec<f32> = keys
        .iter()
        .map(|&k| f32::from_bits(float_ord_bits(k)))
        .collect();
    let mut expected = floats.clone();
    expected.sort_by(|a, b| a.partial_cmp(b).unwrap());
    assert_eq!(sorted_floats, expected);
}

#[test]
fn rotate3_moves_cyclically() {
    let mut v: Vec<u32> = vec![10, 20, 30, 40, 50];
    rotate3(&mut v, [0, 2, 4]);
    // value at idx1 shifts to idx0, idx2 to idx1, and the old idx0 to idx2
    assert_eq!(v, vec![30, 20, 50, 40, 10]);
}

#[test]
fn rotate_then_inverse_restores() {
    let orig: Vec<u32> = vec![5, 6, 7, 8, 9, 10];
    let mut v = orig.clone();
    rotate3(&mut v, [1, 3, 5]);
    rotate3(&mut v, [1, 5, 3]);
    assert_eq!(v, orig);

    let mut w = orig.clone();
    rotate4(&mut w, [0, 2, 3, 5]);
    rotate4(&mut w, [0, 5, 3, 2]);
    assert_eq!(w, orig);
}

#[test]
fn swap_exchanges_two_positions() {
    let mut v: Vec<u32> = vec![1, 2, 3];
    swap(&mut v, 0, 2);
    assert_eq!(v, vec![3, 2, 1]);
    swap(&mut v, 1, 1);
    assert_eq!(v, vec![3, 2, 1]);
}
