use isle_veri::types::{Const, Type, Width};
use std::cmp::Ordering;

fn assert_partial_order_properties<T: PartialOrd + std::fmt::Debug>(xs: &[T]) {
    for a in xs {
        assert_eq!(a.partial_cmp(a), Some(Ordering::Equal), "reflexive: {a:?}");
        for b in xs {
            let ab = a.partial_cmp(b);
            let ba = b.partial_cmp(a);
            assert_eq!(ab, ba.map(Ordering::reverse), "antisymmetric: {a:?} {b:?}");
            if ab == Some(Ordering::Equal) {
                assert!(a == b, "equal: {a:?} {b:?}");
            }
            for c in xs {
                if a < b && b < c {
                    assert!(a < c, "transitive: {a:?} {b:?} {c:?}");
                }
            }
        }
    }
}

#[test]
fn test_width_partial_order_less_than() {
    assert!(Width::Unknown < Width::Bits(64));
}

#[test]
fn test_width_partial_order_properties() {
    assert_partial_order_properties(&[Width::Unknown, Width::Bits(32), Width::Bits(64)]);
}

#[test]
fn test_type_partial_order_less_than() {
    assert!(Type::Unknown < Type::BitVector(Width::Unknown));
    assert!(Type::BitVector(Width::Unknown) < Type::BitVector(Width::Bits(64)));
    assert!(Type::Unknown < Type::Int);
    assert!(Type::Unknown < Type::Bool);
}

#[test]
fn test_type_partial_order_properties() {
    assert_partial_order_properties(&[
        Type::Unspecified,
        Type::Unknown,
        Type::BitVector(Width::Unknown),
        Type::BitVector(Width::Bits(32)),
        Type::BitVector(Width::Bits(64)),
        Type::Int,
        Type::Bool,
        Type::Unit,
    ]);
}

#[test]
fn distinct_widths_are_incomparable() {
    assert_eq!(Width::Bits(32).partial_cmp(&Width::Bits(64)), None);
    assert_eq!(Type::Int.partial_cmp(&Type::Bool), None);
    assert_eq!(Type::Unspecified.partial_cmp(&Type::Unknown), None);
}

#[test]
fn concrete_and_compatible_types() {
    assert!(Type::Unspecified.is_concrete());
    assert!(!Type::Unknown.is_concrete());
    assert!(!Type::BitVector(Width::Unknown).is_concrete());
    assert!(Type::BitVector(Width::Bits(8)).is_concrete());
    assert!(Type::Unknown.is_compatible_with(&Type::Int));
    assert!(Type::BitVector(Width::Bits(8)).is_compatible_with(&Type::BitVector(Width::Unknown)));
    assert!(!Type::Int.is_compatible_with(&Type::Bool));
    assert_eq!(Type::BitVector(Width::Bits(16)).as_bit_vector_width(), Some(&Width::Bits(16)));
    assert_eq!(Type::Int.as_bit_vector_width(), None);
    assert_eq!(Width::Bits(7).as_bits(), Some(7));
    assert_eq!(Width::Unknown.as_bits(), None);
}

#[test]
fn constant_types() {
    assert_eq!(Const::BitVector(8, 3).ty(), Type::BitVector(Width::Bits(8)));
    assert_eq!(Const::Int(-4).as_int(), Some(-4));
    assert_eq!(Const::Bool(true).as_bool(), Some(true));
    assert_eq!(Const::Int(1).as_bool(), None);
    assert_eq!(Const::Unspecified.ty(), Type::Unspecified);
}
