use ya_advent_lib::bits::{one_bits_u8, one_bits_u16, one_bits_u32, one_bits_u64, one_bits_u128};
use ya_advent_lib::coords::{CDir, Coord2D, Coord3D, Turn};
use ya_advent_lib::infinite_grid::InfiniteGrid;
use ya_advent_lib::iter::FirstLast;
use ya_advent_lib::math::{firstfac, is_prime, prime_factors};
use ya_advent_lib::range::{merge_ranges, range_from_str, BidirRangeInclusive};

#[test]
fn one_bit_counts() {
    assert_eq!(one_bits_u8(0), 0);
    assert_eq!(one_bits_u8(0xff), 8);
    assert_eq!(one_bits_u16(0x0101), 2);
    assert_eq!(one_bits_u32(0xdeadbeef), 24);
    assert_eq!(one_bits_u64(u64::MAX), 64);
    assert_eq!(one_bits_u128(u128::MAX), 128);
    assert_eq!(one_bits_u128(5), 2);
}

#[test]
fn directions_turn_and_step() {
    assert_eq!(CDir::N.left(), CDir::W);
    assert_eq!(CDir::N.right(), CDir::E);
    assert_eq!(CDir::W.right(), CDir::N);
    assert_eq!(CDir::E + Turn::L, CDir::N);
    assert_eq!(CDir::E + Turn::R, CDir::S);
    assert_eq!(-CDir::N, CDir::S);
    let p = Coord2D::new(3, 4) + CDir::N;
    assert_eq!(p, Coord2D::new(3, 3));
}

#[test]
fn coordinate_arithmetic() {
    let a = Coord2D::new(1, 2);
    let b = Coord2D::new(10, 20);
    assert_eq!(a + b, Coord2D::new(11, 22));
    assert_eq!(b - a, Coord2D::new(9, 18));
    assert_eq!(a * 3, Coord2D::new(3, 6));
    assert_eq!(a.mdist_to(&b), 27);
    assert_eq!(Coord2D::from((5i64, 6i64)), Coord2D::new(5, 6));
    assert_eq!(Coord2D::x(), Coord2D::new(1, 0));
    let n4 = a.neighbors4();
    assert_eq!(n4, vec![
        Coord2D::new(1, 1),
        Coord2D::new(0, 2),
        Coord2D::new(2, 2),
        Coord2D::new(1, 3),
    ]);
    assert_eq!(a.neighbors8().len(), 8);

    let c = Coord3D::new(1, 2, 3);
    let d = Coord3D::new(4, 6, 8);
    assert_eq!(c + d, Coord3D::new(5, 8, 11));
    assert_eq!(d - c, Coord3D::new(3, 4, 5));
    assert_eq!(c * 2, Coord3D::new(2, 4, 6));
    assert_eq!(c.mdist_to(&d), 12);
    assert_eq!(c.neighbors6().len(), 6);
    assert_eq!(Coord3D::z(), Coord3D::new(0, 0, 1));
}

#[test]
fn smallest_factors_and_primality() {
    assert_eq!(firstfac(2), 2);
    assert_eq!(firstfac(9), 3);
    assert_eq!(firstfac(97), 97);
    assert_eq!(firstfac(1), 1);
    assert!(is_prime(2));
    assert!(is_prime(97));
    assert!(!is_prime(0));
    assert!(!is_prime(1));
    assert!(!is_prime(91));
    assert_eq!(prime_factors(12), vec![2, 3]);
    assert_eq!(prime_factors(97), vec![97]);
    assert_eq!(prime_factors(1), Vec::<u64>::new());
    assert_eq!(prime_factors(360), vec![2, 3, 5]);
}

#[test]
fn ranges_merge_and_step() {
    let mut merged = merge_ranges(vec![0..5, 3..7, 9..12]);
    assert_eq!(merged.next(), Some(0..7));
    assert_eq!(merged.next(), Some(9..12));
    assert_eq!(merged.next(), None);

    let mut up = BidirRangeInclusive::new(1i64, 3i64).iter();
    assert_eq!(up.next(), Some(1));
    assert_eq!(up.next(), Some(2));
    assert_eq!(up.next(), Some(3));
    assert_eq!(up.next(), None);

    let mut down = BidirRangeInclusive::new(3i64, 1i64).iter();
    assert_eq!(down.next(), Some(3));
    assert_eq!(down.next(), Some(2));
    assert_eq!(down.next(), Some(1));
    assert_eq!(down.next(), None);

    let mut back = BidirRangeInclusive::new(1i64, 3i64).iter();
    assert_eq!(back.next_back(), Some(3));
    assert_eq!(back.next_back(), Some(2));
    assert_eq!(back.next_back(), Some(1));
    assert_eq!(back.next_back(), None);
}

#[test]
fn sparse_grid_tracks_bounds() {
    let mut g: InfiniteGrid<char> = InfiniteGrid::new('.');
    assert_eq!(g.get(5, 5), '.');
    g.set(2, 3, '#');
    g.set(-1, 0, '*');
    assert_eq!(g.get(2, 3), '#');
    assert_eq!(g.get(-1, 0), '*');
    assert_eq!(g.get(0, 0), '.');
    assert_eq!(g.x_bounds(), -1..3);
    assert_eq!(g.y_bounds(), 0..4);
    g.set(2, 3, '@');
    assert_eq!(g.get(2, 3), '@');
    assert_eq!(g.iter().len(), 2);

    g.purge(Some(0), None, None, None);
    assert_eq!(g.get(-1, 0), '.');
    assert_eq!(g.get(2, 3), '@');
    assert_eq!(g.x_bounds(), 2..3);
    assert_eq!(g.y_bounds(), 3..4);

    g.purge(Some(100), None, None, None);
    assert_eq!(g.x_bounds(), 0..0);
    assert_eq!(g.iter().len(), 0);
}

#[test]
fn first_and_last_of_a_vector() {
    let v: Vec<u32> = vec![4, 9, 2];
    assert_eq!(v.first_last(), Some((4, 2)));
    let one: Vec<u32> = vec![7];
    assert_eq!(one.first_last(), Some((7, 7)));
    let empty: Vec<u32> = Vec::new();
    assert_eq!(empty.first_last(), None);
}

#[test]
fn sparse_grid_from_lines_and_from_other() {
    let lines: Vec<String> = vec!["#.".to_string(), ".#".to_string()];
    let g: InfiniteGrid<char> =
        InfiniteGrid::from_input(&lines, '.', |c, _, _| if c == '#' { Some('#') } else { None });
    assert_eq!(g.get(0, 0), '#');
    assert_eq!(g.get(1, 0), '.');
    assert_eq!(g.get(1, 1), '#');
    assert_eq!(g.x_bounds(), 0..2);
    assert_eq!(g.y_bounds(), 0..2);

    let h: InfiniteGrid<u8> =
        InfiniteGrid::from_other(&g, 0u8, |c| if c == '#' { Some(1u8) } else { None });
    assert_eq!(h.get(0, 0), 1);
    assert_eq!(h.get(1, 0), 0);
    assert_eq!(h.get(1, 1), 1);
}

#[test]
fn ranges_parse_from_text() {
    assert_eq!(range_from_str("1-3", false), Ok(1..3));
    assert_eq!(range_from_str("1-3", true), Ok(1..4));
    assert_eq!(range_from_str("5..9", false), Ok(5..9));
    assert_eq!(range_from_str("+2..11", true), Ok(2..12));
    assert!(range_from_str("17", false).is_err());
    assert!(range_from_str("1-", false).is_err());
    assert!(range_from_str("a-b", false).is_err());
}
