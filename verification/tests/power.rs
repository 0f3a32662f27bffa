use lib::modint::ModInt;
use lib::power::RepeatedSquaring;

#[test]
fn power_of_usize() {
    assert_eq!(3usize.power(4), 81);
    assert_eq!(2usize.power(10), 1024);
    assert_eq!(7usize.power(1), 7);
}

#[test]
fn power_non_positive_exponent_is_one() {
    assert_eq!(5usize.power(0), 1);
    assert_eq!(5usize.power(-3), 1);
    assert_eq!(0usize.power(0), 1);
}

#[test]
fn power_of_zero_and_one() {
    assert_eq!(0usize.power(5), 0);
    assert_eq!(1usize.power(1000), 1);
}

#[test]
fn power_of_modint_reduces() {
    let a = ModInt::<1_000_000_007>::new(2);
    assert_eq!(a.power(30).get(), 73_741_817);
    let b = ModInt::<13>::new(5);
    assert_eq!(b.power(3).get(), 8);
    assert_eq!(b.power(0).get(), 1);
}

#[test]
fn power_fermat_on_modint() {
    let p: i32 = 998_244_353;
    let a = ModInt::<998_244_353>::new(123_456_789);
    assert_eq!(a.power(p - 1).get(), 1);
}
