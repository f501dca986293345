use anyslab::{AnySlab, AnySlabError, DoubleBits, FloatBits, Hole, Storable};

fn float(x: f32) -> FloatBits {
    FloatBits { bits: x.to_bits() }
}

#[test]
fn fresh_slab_is_empty() {
    let a = AnySlab::default();
    assert_eq!(a.len(), 0);
    assert!(a.is_empty());
    assert!(!a.contains_key::<u32>(0));
    assert_eq!(a.get::<u32>(0), Err(AnySlabError::UnknownKey));
}

#[test]
fn a_new_slab_has_room() {
    let mut a = AnySlab::default();
    assert!(a.can_insert::<u8>());
    assert!(a.can_insert::<u128>());
    a.insert(1u128);
    assert!(a.can_insert::<u128>());
}

#[test]
fn typed_access_scenario() {
    let mut a = AnySlab::default();
    let k0 = a.insert(42u32);
    let k1 = a.insert(float(3.5));
    assert_ne!(k0, k1);
    assert_eq!(a.get::<u32>(k0), Ok(42));
    assert_eq!(a.get::<FloatBits>(k0), Err(AnySlabError::TypeMismatch));
    assert_eq!(a.remove::<u32>(k0), Ok(42));
    assert_eq!(a.get::<u32>(k0), Err(AnySlabError::UnknownKey));
    assert_eq!(a.len(), 1);
    assert_eq!(a.get::<FloatBits>(k1).map(|f| f32::from_bits(f.bits)), Ok(3.5));
}

#[test]
fn clear_forgets_every_key() {
    let mut a = AnySlab::default();
    let k0 = a.insert(1u8);
    let k1 = a.insert(2u16);
    let k2 = a.insert(3u64);
    assert_eq!(a.len(), 3);
    a.clear();
    assert_eq!(a.len(), 0);
    assert!(a.is_empty());
    assert_eq!(a.get::<u8>(k0), Err(AnySlabError::UnknownKey));
    assert_eq!(a.get::<u16>(k1), Err(AnySlabError::UnknownKey));
    assert_eq!(a.remove::<u64>(k2), Err(AnySlabError::UnknownKey));
    assert_eq!(a.get_mut::<u64, _>(k2, |v| v), Err(AnySlabError::UnknownKey));
    // the slab starts over at offset 0
    assert_eq!(a.insert(9u32), 0);
    assert_eq!(a.get::<u32>(0), Ok(9));
}

#[test]
fn round_trip_of_each_type() {
    let mut a = AnySlab::default();
    let k1 = a.insert(0xabu8);
    let k2 = a.insert(0xbeefu16);
    let k3 = a.insert(0xdead_beefu32);
    let k4 = a.insert(0x0123_4567_89ab_cdefu64);
    let k5 = a.insert(u128::MAX - 5);
    let k6 = a.insert(i128::MIN + 7);
    let k7 = a.insert(-1i128);
    let k8 = a.insert(FloatBits { bits: 0x7fc0_0001 });
    assert_eq!(a.len(), 8);
    assert_eq!(a.remove::<u8>(k1), Ok(0xab));
    assert_eq!(a.remove::<u16>(k2), Ok(0xbeef));
    assert_eq!(a.remove::<u32>(k3), Ok(0xdead_beef));
    assert_eq!(a.remove::<u64>(k4), Ok(0x0123_4567_89ab_cdef));
    assert_eq!(a.remove::<u128>(k5), Ok(u128::MAX - 5));
    assert_eq!(a.remove::<i128>(k6), Ok(i128::MIN + 7));
    assert_eq!(a.remove::<i128>(k7), Ok(-1));
    assert_eq!(a.remove::<FloatBits>(k8), Ok(FloatBits { bits: 0x7fc0_0001 }));
    assert!(a.is_empty());
}

#[test]
fn another_type_is_a_mismatch() {
    let mut a = AnySlab::default();
    let k = a.insert(7u32);
    assert_eq!(a.get::<u64>(k), Err(AnySlabError::TypeMismatch));
    assert_eq!(a.get::<FloatBits>(k), Err(AnySlabError::TypeMismatch));
    assert_eq!(a.get_mut::<u8, _>(k, |v| v), Err(AnySlabError::TypeMismatch));
    assert_eq!(a.remove::<i128>(k), Err(AnySlabError::TypeMismatch));
    assert!(!a.contains_key::<u16>(k));
    assert!(a.contains_key::<u32>(k));
    // a refused access changes nothing
    assert_eq!(a.len(), 1);
    assert_eq!(a.get::<u32>(k), Ok(7));
}

#[test]
fn unknown_keys_are_refused() {
    let mut a = AnySlab::default();
    let k = a.insert(7u32);
    assert_eq!(a.get::<u32>(k + 1), Err(AnySlabError::UnknownKey));
    assert_eq!(a.remove::<u32>(k + 1), Err(AnySlabError::UnknownKey));
    assert_eq!(a.get_mut::<u32, _>(k + 1, |v| v), Err(AnySlabError::UnknownKey));
    assert_eq!(a.remove::<u32>(k), Ok(7));
    assert_eq!(a.get::<u32>(k), Err(AnySlabError::UnknownKey));
    assert_eq!(a.remove::<u32>(k), Err(AnySlabError::UnknownKey));
    assert_eq!(a.get_mut::<u32, _>(k, |v| v), Err(AnySlabError::UnknownKey));
    assert!(!a.contains_key::<u32>(k));
}

#[test]
fn len_counts_inserts_less_removes() {
    let mut a = AnySlab::default();
    let mut keys = Vec::new();
    for i in 0..10u32 {
        keys.push(a.insert(i));
        assert_eq!(a.len(), keys.len());
    }
    // refused removals do not count
    assert_eq!(a.remove::<u64>(keys[0]), Err(AnySlabError::TypeMismatch));
    assert_eq!(a.len(), 10);
    let mut left = 10;
    for (i, k) in keys.iter().enumerate() {
        assert_eq!(a.remove::<u32>(*k), Ok(i as u32));
        left -= 1;
        assert_eq!(a.len(), left);
    }
    assert!(a.is_empty());
}

#[test]
fn keys_are_byte_offsets() {
    let mut a = AnySlab::default();
    assert_eq!(a.insert(1u32), 0);
    assert_eq!(a.insert(2u64), 4);
    assert_eq!(a.insert(3u8), 12);
    assert_eq!(a.insert(4u128), 13);
    assert_eq!(a.insert(5u16), 29);
}

#[test]
fn first_fit_follows_the_list_order() {
    let mut a = AnySlab::default();
    assert_eq!(a.insert(1u32), 0);
    assert_eq!(a.insert(2u64), 4);
    assert_eq!(a.insert(3u8), 12);
    // the freed range goes behind the unbounded hole
    assert_eq!(a.remove::<u32>(0), Ok(1));
    // so the unbounded hole is found first, and then moves to the end
    assert_eq!(a.insert(7u16), 13);
    // now the freed range is first
    assert_eq!(a.insert(8u16), 0);
    // what is left of it is behind the unbounded hole again
    assert_eq!(a.insert(9u16), 15);
    assert_eq!(a.insert(10u16), 2);
    assert_eq!(a.get::<u16>(13), Ok(7));
    assert_eq!(a.get::<u16>(0), Ok(8));
    assert_eq!(a.get::<u16>(15), Ok(9));
    assert_eq!(a.get::<u16>(2), Ok(10));
    assert_eq!(a.get::<u64>(4), Ok(2));
    assert_eq!(a.get::<u8>(12), Ok(3));
}

#[test]
fn exact_fit_uses_the_hole_up() {
    let mut a = AnySlab::default();
    assert_eq!(a.insert(1u32), 0);
    assert_eq!(a.insert(2u32), 4);
    assert_eq!(a.remove::<u32>(0), Ok(1));
    // holes: unbounded, then [0, 4); a value of 16 bytes moves the unbounded one behind
    assert_eq!(a.insert(3u128), 8);
    // [0, 4) fits exactly and disappears
    assert_eq!(a.insert(4u32), 0);
    assert_eq!(a.insert(5u32), 24);
}

#[test]
fn neighbouring_holes_are_fused() {
    let mut a = AnySlab::default();
    assert_eq!(a.insert(1u32), 0);
    assert_eq!(a.insert(2u32), 4);
    assert_eq!(a.insert(3u32), 8);
    assert_eq!(a.remove::<u32>(0), Ok(1));
    assert_eq!(a.remove::<u32>(8), Ok(3));
    // the last removal touches a hole on each side
    assert_eq!(a.remove::<u32>(4), Ok(2));
    // one hole from 0 on is left: 16 bytes fit at offset 0
    assert_eq!(a.insert(u128::MAX), 0);
    assert_eq!(a.get::<u128>(0), Ok(u128::MAX));
}

#[test]
fn left_neighbour_is_fused() {
    let mut a = AnySlab::default();
    assert_eq!(a.insert(1u64), 0);
    assert_eq!(a.insert(2u64), 8);
    assert_eq!(a.insert(3u64), 16);
    assert_eq!(a.remove::<u64>(0), Ok(1));
    assert_eq!(a.remove::<u64>(8), Ok(2));
    // holes: unbounded from 24, and [0, 16)
    assert_eq!(a.insert(9u8), 24);
    assert_eq!(a.insert(4u128), 0);
}

#[test]
fn insert_and_remove_in_turn_stay_in_place() {
    let mut a = AnySlab::default();
    let base = a.insert(0u64);
    assert_eq!(base, 0);
    for i in 0..1000u64 {
        let k = a.insert(i);
        assert_eq!(k, 8);
        assert_eq!(a.remove::<u64>(k), Ok(i));
        assert_eq!(a.len(), 1);
    }
    assert_eq!(a.get::<u64>(base), Ok(0));
}

#[test]
fn iter_gives_each_value_of_the_type_once() {
    let mut a = AnySlab::default();
    let mut small = Vec::new();
    let mut wide = Vec::new();
    for i in 0..5u32 {
        small.push((a.insert(i * 10), i * 10));
        if i < 3 {
            wide.push((a.insert(i as u64 + 100), i as u64 + 100));
        }
    }
    let mut got_small = a.iter::<u32>();
    let mut got_wide = a.iter::<u64>();
    assert_eq!(got_small.len(), 5);
    assert_eq!(got_wide.len(), 3);
    got_small.sort();
    got_wide.sort();
    small.sort();
    wide.sort();
    assert_eq!(got_small, small);
    assert_eq!(got_wide, wide);
    assert_eq!(a.iter::<u8>(), Vec::new());
}

#[test]
fn iter_skips_removed_values() {
    let mut a = AnySlab::default();
    let k0 = a.insert(1u16);
    let k1 = a.insert(2u16);
    assert_eq!(a.remove::<u16>(k0), Ok(1));
    assert_eq!(a.iter::<u16>(), vec![(k1, 2u16)]);
}

#[test]
fn get_mut_changes_the_value_in_place() {
    let mut a = AnySlab::default();
    let k0 = a.insert(41u32);
    let k1 = a.insert(1000u32);
    assert_eq!(a.get_mut::<u32, _>(k0, |v| v + 1), Ok(()));
    assert_eq!(a.get::<u32>(k0), Ok(42));
    assert_eq!(a.get::<u32>(k1), Ok(1000));
    assert_eq!(a.len(), 2);
}

#[test]
fn iter_mut_changes_every_value_of_the_type() {
    let mut a = AnySlab::default();
    let k0 = a.insert(1u32);
    let k1 = a.insert(5u64);
    let k2 = a.insert(2u32);
    let k3 = a.insert(float(1.5));
    a.iter_mut::<u32, _>(|k, v| v * 2 + k as u32);
    assert_eq!(a.get::<u32>(k0), Ok(2 + k0 as u32));
    assert_eq!(a.get::<u32>(k2), Ok(4 + k2 as u32));
    assert_eq!(a.get::<u64>(k1), Ok(5));
    assert_eq!(a.get::<FloatBits>(k3), Ok(float(1.5)));
    assert_eq!(a.len(), 4);
}

#[test]
fn values_survive_their_neighbours() {
    let mut a = AnySlab::default();
    let k0 = a.insert(0x1111_1111u32);
    let k1 = a.insert(0x2222_2222_2222_2222u64);
    let k2 = a.insert(0x3333u16);
    assert_eq!(a.remove::<u64>(k1), Ok(0x2222_2222_2222_2222));
    let k3 = a.insert(0x44u8);
    let k4 = a.insert(-5i128);
    assert_eq!(a.get::<u32>(k0), Ok(0x1111_1111));
    assert_eq!(a.get::<u16>(k2), Ok(0x3333));
    assert_eq!(a.get::<u8>(k3), Ok(0x44));
    assert_eq!(a.get::<i128>(k4), Ok(-5));
}

#[test]
fn hole_len_and_everything() {
    let all = Hole::everything();
    assert_eq!(all, Hole { from: 0, to: usize::MAX });
    assert_eq!(all.len(), usize::MAX);
    assert_eq!(Hole { from: 3, to: 10 }.len(), 7);
    assert_eq!(Hole { from: 8, to: 8 }.len(), 0);
}

#[test]
fn encodings_are_little_endian() {
    assert_eq!(0x0102_0304u32.to_bytes(), vec![4, 3, 2, 1]);
    assert_eq!(0x0102u16.to_bytes(), vec![2, 1]);
    assert_eq!(7u8.to_bytes(), vec![7]);
    assert_eq!((-2i128).to_bytes(), {
        let mut b = vec![0xffu8; 16];
        b[0] = 0xfe;
        b
    });
    assert_eq!(float(1.0).to_bytes(), vec![0, 0, 0x80, 0x3f]);
    assert_eq!(u64::from_bytes(&[1, 0, 0, 0, 0, 0, 0, 2]), 0x0200_0000_0000_0001);
    assert_eq!(i128::from_bytes(&[0xff; 16]), -1);
    assert_eq!(FloatBits::from_bytes(&[0, 0, 0x80, 0x3f]), float(1.0));
}

#[test]
fn widths_and_tokens() {
    assert_eq!(<u8 as Storable>::size(), 1);
    assert_eq!(<u16 as Storable>::size(), 2);
    assert_eq!(<u32 as Storable>::size(), 4);
    assert_eq!(<u64 as Storable>::size(), 8);
    assert_eq!(<u128 as Storable>::size(), 16);
    assert_eq!(<i128 as Storable>::size(), 16);
    assert_eq!(<FloatBits as Storable>::size(), 4);
    assert_eq!(<i8 as Storable>::size(), 1);
    assert_eq!(<i16 as Storable>::size(), 2);
    assert_eq!(<i32 as Storable>::size(), 4);
    assert_eq!(<i64 as Storable>::size(), 8);
    assert_eq!(<bool as Storable>::size(), 1);
    assert_eq!(<DoubleBits as Storable>::size(), 8);
    let tokens = [
        <u8 as Storable>::type_token(),
        <u16 as Storable>::type_token(),
        <u32 as Storable>::type_token(),
        <u64 as Storable>::type_token(),
        <u128 as Storable>::type_token(),
        <i128 as Storable>::type_token(),
        <FloatBits as Storable>::type_token(),
        <i8 as Storable>::type_token(),
        <i16 as Storable>::type_token(),
        <i32 as Storable>::type_token(),
        <i64 as Storable>::type_token(),
        <bool as Storable>::type_token(),
        <DoubleBits as Storable>::type_token(),
    ];
    for i in 0..tokens.len() {
        for j in 0..i {
            assert_ne!(tokens[i], tokens[j]);
        }
    }
}

#[test]
fn signed_numbers_and_flags_round_trip() {
    let mut a = AnySlab::default();
    let k0 = a.insert(-1i8);
    let k1 = a.insert(i16::MIN);
    let k2 = a.insert(-123_456i32);
    let k3 = a.insert(i64::MIN + 1);
    let k4 = a.insert(true);
    let k5 = a.insert(false);
    let k6 = a.insert(DoubleBits { bits: (-2.5f64).to_bits() });
    assert_eq!((k0, k1, k2, k3, k4, k5, k6), (0, 1, 3, 7, 15, 16, 17));
    assert_eq!(a.get::<u8>(k0), Err(AnySlabError::TypeMismatch));
    assert_eq!(a.get::<u64>(k6), Err(AnySlabError::TypeMismatch));
    assert_eq!(a.remove::<i8>(k0), Ok(-1));
    assert_eq!(a.remove::<i16>(k1), Ok(i16::MIN));
    assert_eq!(a.remove::<i32>(k2), Ok(-123_456));
    assert_eq!(a.remove::<i64>(k3), Ok(i64::MIN + 1));
    assert_eq!(a.remove::<bool>(k4), Ok(true));
    assert_eq!(a.remove::<bool>(k5), Ok(false));
    assert_eq!(a.remove::<DoubleBits>(k6).map(|d| f64::from_bits(d.bits)), Ok(-2.5));
    assert!(a.is_empty());
}
