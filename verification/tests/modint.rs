use lib::modint::ModInt;

type M7 = ModInt<7>;
type Mp = ModInt<1_000_000_007>;

#[test]
fn new_reduces_non_negative() {
    assert_eq!(M7::new(0).get(), 0);
    assert_eq!(M7::new(6).get(), 6);
    assert_eq!(M7::new(7).get(), 0);
    assert_eq!(M7::new(23).get(), 2);
}

#[test]
fn new_lifts_negative() {
    assert_eq!(M7::new(-1).get(), 6);
    assert_eq!(M7::new(-10).get(), 4);
}

#[test]
fn new_keeps_negative_multiple_as_modulus() {
    // a negative multiple of the modulus is stored as the modulus itself
    assert_eq!(M7::new(-7).get(), 7);
    assert_eq!(M7::new(-14).get(), 7);
}

#[test]
fn difference_at_negative_multiple_is_stored_as_modulus() {
    let a = M7::new(5);
    assert_eq!((a - 12i64).get(), 7);
    let mut b = M7::new(6);
    b.sub_assign_i64(20);
    assert_eq!(b.get(), 7);
}

#[test]
fn modulus_is_the_parameter() {
    assert_eq!(M7::modulus(), 7);
    assert_eq!(Mp::modulus(), 1_000_000_007);
}

#[test]
fn add_sub_mul_operators() {
    let a = M7::new(5);
    let b = M7::new(4);
    assert_eq!((a + b).get(), 2);
    assert_eq!((a - b).get(), 1);
    assert_eq!((b - a).get(), 6);
    assert_eq!((a * b).get(), 6);
    assert_eq!((a + 10i64).get(), 1);
    assert_eq!((3i64 + a).get(), 1);
    assert_eq!((a - 11i64).get(), 1);
    assert_eq!((2i64 - a).get(), 4);
    assert_eq!((a * 3i64).get(), 1);
    assert_eq!((4i64 * a).get(), 6);
}

#[test]
fn inverse_by_fermat() {
    let a = M7::new(3);
    assert_eq!(a.inverse().get(), 5);
    let b = Mp::new(2);
    assert_eq!(b.inverse().get(), 500_000_004);
    assert_eq!((b * b.inverse()).get(), 1);
}

#[test]
fn inverse_of_zero_is_zero() {
    assert_eq!(M7::new(0).inverse().get(), 0);
}

#[test]
fn division_operators() {
    let a = M7::new(6);
    let b = M7::new(3);
    assert_eq!((a / b).get(), 2);
    assert_eq!((a / 4i64).get(), 5);
    assert_eq!((1i64 / b).get(), 5);
}

#[test]
fn assign_operations() {
    let mut a = M7::new(3);
    a.add_assign(M7::new(6));
    assert_eq!(a.get(), 2);
    a.add_assign_i64(9);
    assert_eq!(a.get(), 4);
    a.sub_assign(M7::new(5));
    assert_eq!(a.get(), 6);
    a.sub_assign_i64(6);
    assert_eq!(a.get(), 0);
    a.add_assign_i64(3);
    a.mul_assign(M7::new(4));
    assert_eq!(a.get(), 5);
    a.mul_assign_i64(3);
    assert_eq!(a.get(), 1);
    a.add_assign_i64(5);
    a.div_assign(M7::new(2));
    assert_eq!(a.get(), 3);
    a.div_assign_i64(3);
    assert_eq!(a.get(), 1);
}

#[test]
fn conversions_with_usize() {
    assert_eq!(M7::from_usize(100).get(), 2);
    assert_eq!(M7::new(5).to_usize(), 5);
    assert_eq!(Mp::from_usize(1_000_000_008).get(), 1);
}

#[test]
fn modulus_one_maps_everything_to_zero() {
    assert_eq!(ModInt::<1>::new(12345).get(), 0);
    assert_eq!((ModInt::<1>::new(3) * ModInt::<1>::new(4)).get(), 0);
}

#[test]
fn displays_the_representative() {
    assert_eq!(M7::new(12).to_string(), "5");
    assert_eq!(M7::new(-7).to_string(), "7");
    assert_eq!(Mp::new(-1).to_string(), "1000000006");
}
