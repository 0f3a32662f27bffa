use lib::minmax::ChangeMinMax;

#[test]
fn chmin_replaces_larger_value() {
    let mut x: i64 = 10;
    assert!(x.chmin(3));
    assert_eq!(x, 3);
}

#[test]
fn chmin_keeps_smaller_or_equal_value() {
    let mut x: i32 = -4;
    assert!(!x.chmin(7));
    assert_eq!(x, -4);
    assert!(!x.chmin(-4));
    assert_eq!(x, -4);
}

#[test]
fn chmax_replaces_smaller_value() {
    let mut x: u64 = 5;
    assert!(x.chmax(9));
    assert_eq!(x, 9);
}

#[test]
fn chmax_keeps_larger_or_equal_value() {
    let mut x: usize = 12;
    assert!(!x.chmax(11));
    assert!(!x.chmax(12));
    assert_eq!(x, 12);
}

#[test]
fn chmin_chmax_on_u32_sequence() {
    let vals: Vec<u32> = vec![5, 2, 8, 1, 9, 3];
    let mut lo: u32 = u32::MAX;
    let mut hi: u32 = 0;
    let mut changes = 0;
    for v in vals {
        if lo.chmin(v) {
            changes += 1;
        }
        hi.chmax(v);
    }
    assert_eq!(lo, 1);
    assert_eq!(hi, 9);
    assert_eq!(changes, 3);
}

#[test]
fn chmin_chmax_on_narrow_and_wide_integers() {
    let mut a: i8 = -3;
    assert!(a.chmin(-128));
    assert_eq!(a, -128);
    let mut b: u8 = 200;
    assert!(b.chmax(255));
    assert!(!b.chmax(254));
    assert_eq!(b, 255);
    let mut c: i128 = 0;
    assert!(c.chmax(i128::MAX));
    assert_eq!(c, i128::MAX);
    let mut d: u16 = 7;
    assert!(!d.chmin(7));
    let mut e: isize = 5;
    assert!(e.chmin(-5));
    assert_eq!(e, -5);
    let mut f: i16 = 1;
    assert!(!f.chmax(0));
    let mut g: u128 = 10;
    assert!(g.chmin(0));
    assert_eq!(g, 0);
}
