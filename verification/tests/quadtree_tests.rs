use quadimg::quadtree::Quadtree;
use quadimg::CodecError;

fn assert_leaf(node: Box<Quadtree>, av: u8, bv: u8, cv: u8, dv: u8) {
    match *node {
        Quadtree::Leaf(a, b, c, d) => {
            assert_eq!(a, av);
            assert_eq!(b, bv);
            assert_eq!(c, cv);
            assert_eq!(d, dv);
        },
        Quadtree::Branch(..) => assert!(false),
    }
}

#[test]
fn two_by_two_quadtree() {
    let bitmap = vec![1u8, 2u8, 3u8, 4u8];
    let quadtree = Quadtree::new(&bitmap).unwrap();
    assert_leaf(quadtree, 1, 2, 3, 4);
}

#[test]
fn four_by_four_quadtree() {
    let bitmap = vec![
        1u8, 1u8, 255u8, 255u8,
        1u8, 1u8, 255u8, 255u8,
        3u8, 0u8, 4u8, 4u8,
        0u8, 0u8, 4u8, 4u8,
    ];
    let quadtree = Quadtree::new(&bitmap).unwrap();
    match *quadtree {
        Quadtree::Leaf(..) => assert!(false),
        Quadtree::Branch(a, b, c, d, (a_val, b_val, c_val, d_val), _) => {
            assert_eq!(a_val, 1);
            assert_eq!(b_val, 255);
            assert_eq!(c_val, 0);
            assert_eq!(d_val, 4);
            assert_leaf(a, 1, 1, 1, 1);
            assert_leaf(b, 255, 255, 255, 255);
            assert_leaf(c, 3, 0, 0, 0);
            assert_leaf(d, 4, 4, 4, 4);
        },
    }
}

#[test]
fn read_exact() {
    let bitmap = vec![
        1u8, 1u8, 255u8, 255u8,
        1u8, 1u8, 255u8, 255u8,
        3u8, 0u8, 4u8, 4u8,
        0u8, 0u8, 4u8, 4u8,
    ];
    let quadtree = Quadtree::new(&bitmap).unwrap();
    assert_eq!(quadtree.get((0, 0)), 1);
    assert_eq!(quadtree.get((1, 0)), 1);
    assert_eq!(quadtree.get((3, 0)), 255);
    assert_eq!(quadtree.get((3, 3)), 4);
}

#[test]
fn read_approx() {
    let bitmap = vec![
        5u8, 0u8,
        0u8, 0u8,
    ];
    let quadtree = Quadtree::new(&bitmap).unwrap();
    assert_eq!(1, quadtree.get_approx((0, 0), 10));
    assert_eq!(1, quadtree.get_approx((1, 0), 10));
    assert_eq!(1, quadtree.get_approx((0, 1), 10));
    assert_eq!(1, quadtree.get_approx((1, 1), 10));
}

#[test]
fn read_big_quad_approx() {
    let bitmap = vec![
        1u8, 3u8, 255u8, 255u8,
        1u8, 3u8, 255u8, 255u8,
        5u8, 0u8, 4u8, 4u8,
        0u8, 0u8, 4u8, 4u8,
    ];
    let quadtree = Quadtree::new(&bitmap).unwrap();
    assert_eq!(2, quadtree.get_approx((0, 0), 3));
    assert_eq!(255, quadtree.get_approx((2, 0), 128));
    assert_eq!(1, quadtree.get_approx((1, 3), 10));
    assert_eq!(4, quadtree.get_approx((3, 3), 5));
}

#[test]
fn exact_reads_whole_bitmap() {
    let bitmap = vec![
        9u8, 8u8, 7u8, 6u8,
        5u8, 4u8, 3u8, 2u8,
        1u8, 0u8, 11u8, 12u8,
        13u8, 14u8, 15u8, 16u8,
    ];
    let quadtree = Quadtree::new(&bitmap).unwrap();
    for y in 0..4usize {
        for x in 0..4usize {
            assert_eq!(quadtree.get((x, y)), bitmap[x + y * 4]);
        }
    }
}

#[test]
fn aggregate_bounds_hold() {
    let bitmap = vec![
        1u8, 1u8, 255u8, 255u8,
        1u8, 1u8, 255u8, 255u8,
        3u8, 0u8, 4u8, 4u8,
        0u8, 0u8, 4u8, 4u8,
    ];
    let quadtree = Quadtree::new(&bitmap).unwrap();
    assert_eq!(quadtree.low(), 0);
    assert_eq!(quadtree.high(), 255);
    // every sample lies between the root's aggregates
    for y in 0..4usize {
        for x in 0..4usize {
            let v = quadtree.get((x, y));
            assert!(quadtree.low() <= v && v <= quadtree.high());
        }
    }
    // the average is the mean of the root's corner samples
    assert_eq!(quadtree.average(), 65);
}

#[test]
fn edge_halving() {
    // corners (1, 3, 5, 0), side 4, every sample within a spread of 5,
    // so cutoff 10 collapses the root branch
    let bitmap = vec![
        1u8, 2u8, 2u8, 3u8,
        2u8, 2u8, 2u8, 2u8,
        3u8, 2u8, 2u8, 2u8,
        5u8, 2u8, 2u8, 0u8,
    ];
    let quadtree = Quadtree::new(&bitmap).unwrap();
    // interior points return the plain bilinear interpolation
    assert_eq!(quadtree.get_approx((1, 1), 10), 1);
    assert_eq!(quadtree.get_approx((2, 1), 10), 2);
    // points on the left or top edge return half the interpolation
    assert_eq!(quadtree.get_approx((0, 0), 10), 0);
    assert_eq!(quadtree.get_approx((2, 0), 10), 1);
    assert_eq!(quadtree.get_approx((0, 2), 10), 1);
}

#[test]
fn rejects_bad_dimensions() {
    // not a perfect square
    assert!(matches!(Quadtree::new(&vec![1u8, 2u8, 3u8]), Err(CodecError::InvalidDimensions)));
    // square, but the side is not a power of two
    assert!(matches!(Quadtree::new(&vec![0u8; 9]), Err(CodecError::InvalidDimensions)));
    // square of side 1: below the minimum rank of 2
    assert!(matches!(Quadtree::new(&vec![0u8]), Err(CodecError::InvalidDimensions)));
    // empty bitmap
    assert!(matches!(Quadtree::new(&vec![]), Err(CodecError::InvalidDimensions)));
}

#[test]
fn range_is_spread() {
    assert_eq!(quadimg::quadtree::range(&5, &0, &0, &0), 5);
    assert_eq!(quadimg::quadtree::range(&7, &7, &7, &7), 0);
    assert_eq!(quadimg::quadtree::range(&1, &255, &0, &4), 255);
}

#[test]
fn lerp_interpolates() {
    // one quarter of the way from 1 to 3, rounded down
    assert_eq!(quadimg::quadtree::lerp(1, 3, 1, 4), 1);
    // midpoint of 0 and 255
    assert_eq!(quadimg::quadtree::lerp(0, 255, 2, 4), 127);
    // at offset zero the left value comes back
    assert_eq!(quadimg::quadtree::lerp(200, 10, 0, 4), 200);
}
