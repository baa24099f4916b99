use rolling_delta::weak_sum::WeakSum;

#[test]
fn test_weak_sum() {
    assert_eq!(WeakSum::from(&[1][..]).to_u32(), 0x00010001);
    assert_eq!(WeakSum::from(&[1, 2][..]).to_u32(), 0x00040003);
}

#[test]
fn test_weak_sum_from() {
    assert_eq!(WeakSum::from(&[1][..]).to_u32(), 0x00010001);
    assert_eq!(WeakSum::from(&[1, 2][..]).to_u32(), 0x00040003);
}

#[test]
fn test_weak_sum_update() {
    let mut weak_sum = WeakSum::from(&[1, 2][..]);
    weak_sum.update(2, 1, 3);
    assert_eq!(weak_sum.to_u32(), WeakSum::from(&[2, 3][..]).to_u32());
}

#[test]
fn weak_sum_of_nothing_is_zero() {
    let empty: [u8; 0] = [];
    assert_eq!(WeakSum::from(&empty[..]).to_u32(), 0);
    assert_eq!(WeakSum::default().to_u32(), 0);
    assert_eq!(WeakSum::default(), WeakSum::from(&empty[..]));
}

#[test]
fn weak_sum_weights_bytes_by_position() {
    // a = 10 + 20 + 30 = 60, b = 3 * 10 + 2 * 20 + 1 * 30 = 100
    assert_eq!(WeakSum::from(&[10, 20, 30][..]).to_u32(), (100 << 16) | 60);
    // the same bytes in another order: a stays, b = 3 * 30 + 2 * 20 + 1 * 10 = 140
    assert_eq!(WeakSum::from(&[30, 20, 10][..]).to_u32(), (140 << 16) | 60);
    assert_ne!(WeakSum::from(&[10, 20, 30][..]), WeakSum::from(&[30, 20, 10][..]));
}

#[test]
fn weak_sum_wraps_at_sixteen_bits() {
    // 300 bytes of 255: a = 76500 mod 65536 = 10964,
    // b = 255 * (300 * 301 / 2) = 11513250 mod 65536 = 44450
    let block = vec![255u8; 300];
    assert_eq!(WeakSum::from(&block[..]).to_u32(), (44450 << 16) | 10964);
}

#[test]
fn weak_sum_update_wraps_below_zero() {
    // window [200, 0] -> [0, 0]: both sums come down to zero through a wrap
    let mut weak_sum = WeakSum::from(&[200, 0][..]);
    weak_sum.update(2, 200, 0);
    assert_eq!(weak_sum.to_u32(), 0);
}

#[test]
fn weak_sum_update_follows_a_sliding_window() {
    let data: Vec<u8> = (0..600u32).map(|i| (i * 37 % 251) as u8).collect();
    for size in [1usize, 2, 7, 64, 300] {
        let mut rolling = WeakSum::from(&data[..size]);
        for start in 1..=(data.len() - size) {
            rolling.update(size as u16, data[start - 1], data[start + size - 1]);
            assert_eq!(rolling, WeakSum::from(&data[start..start + size]));
        }
    }
}

#[test]
fn weak_sum_converts_to_u32() {
    let weak_sum = WeakSum::from(&[1, 2][..]);
    assert_eq!(u32::from(&weak_sum), 0x00040003);
}
