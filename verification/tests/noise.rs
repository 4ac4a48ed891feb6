use planet_raster::noise::{cell_hashes, hash_to_unit, HASH_MAX};

#[test]
fn hash_exact_values() {
    assert_eq!(hash_to_unit(0, 0), 40801);
    assert_eq!(hash_to_unit(1, 0), 1810);
    assert_eq!(hash_to_unit(0, 1), 35472);
    assert_eq!(hash_to_unit(1, 1), 11263);
    assert_eq!(hash_to_unit(123, -456), 26020);
    assert_eq!(hash_to_unit(i32::MAX, 0), 14256);
    assert_eq!(hash_to_unit(i32::MIN, 5), 14156);
    assert_eq!(hash_to_unit(7, i32::MAX), 24679);
}

#[test]
fn hash_stays_in_range() {
    assert_eq!(HASH_MAX, 65535);
    for x in -40..40 {
        for y in -40..40 {
            let h = hash_to_unit(x * 7919, y * 104729);
            assert!((0..=HASH_MAX).contains(&h));
        }
    }
}

#[test]
fn cell_hashes_are_the_four_corners() {
    assert_eq!(cell_hashes(0, 0), (40801, 1810, 35472, 11263));
    let (a, b, c, d) = cell_hashes(122, -457);
    assert_eq!(a, hash_to_unit(122, -457));
    assert_eq!(b, hash_to_unit(123, -457));
    assert_eq!(c, hash_to_unit(122, -456));
    assert_eq!(d, hash_to_unit(123, -456));
    assert_eq!(d, 26020);
}

#[test]
fn cell_hashes_wrap_at_the_end_of_the_lattice() {
    let (a, b, c, d) = cell_hashes(i32::MAX, i32::MAX);
    assert_eq!(a, hash_to_unit(i32::MAX, i32::MAX));
    assert_eq!(b, hash_to_unit(i32::MIN, i32::MAX));
    assert_eq!(c, hash_to_unit(i32::MAX, i32::MIN));
    assert_eq!(d, hash_to_unit(i32::MIN, i32::MIN));
}
