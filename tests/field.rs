use deepfold::field::{Field, batch_inverse, get_generator, pow};
use deepfold::goldilocks64::{Fp64, Goldilocks64};
use deepfold::goldilocks64ext::Goldilocks64Ext;

fn add_and_sub<T: Field>() {
    for _i in 0..100 {
        let a = T::random_element();
        let b = T::random_element();
        let c = a.add(b).sub(a);
        assert!(b.equals(c))
    }
}

fn mult_and_inverse<T: Field>() {
    for _i in 0..100 {
        let a = T::random_element();
        let b = a.inverse();
        assert!(a.mul(b).equals(T::from_int(1)));
        assert!(b.mul(a).equals(T::from_int(1)));
    }
    assert!(T::inverse_2().mul(T::from_int(2)).equals(T::from_int(1)));
}

fn assigns<T: Field>() {
    for _i in 0..10 {
        let mut a = T::random_element();
        let aa = a;
        let b = T::random_element();
        a = a.add(b);
        assert!(a.equals(aa.add(b)));
        a = a.sub(b);
        assert!(a.equals(aa));
        a = a.mul(b);
        assert!(a.equals(aa.mul(b)));
        a = a.mul(b.inverse());
        assert!(a.equals(aa));
        assert!(a.neg().add(a).is_zero());
    }
}

fn pow_and_generator<T: Field>() {
    assert!(get_generator::<T>(0).equals(T::from_int(1)));
    let x: T = get_generator(32);
    assert!(pow(x, 1 << 32).equals(T::from_int(1)));
    assert!(!pow(x, 1 << 31).equals(T::from_int(1)));
}

#[test]
fn test() {
    add_and_sub::<Fp64>();
    mult_and_inverse::<Fp64>();
    assigns::<Fp64>();
    pow_and_generator::<Fp64>();
}

#[test]
fn extension_field_laws() {
    add_and_sub::<Goldilocks64Ext>();
    mult_and_inverse::<Goldilocks64Ext>();
    assigns::<Goldilocks64Ext>();
    pow_and_generator::<Goldilocks64Ext>();
}

#[test]
fn goldilocks_arithmetic_values() {
    let p_minus_1 = Goldilocks64::from_int(18446744069414584320);
    assert_eq!(p_minus_1.add(Goldilocks64::from_int(1)), Goldilocks64::from_int(0));
    assert_eq!(Goldilocks64::from_int(0).sub(Goldilocks64::from_int(1)), p_minus_1);
    assert_eq!(p_minus_1.mul(p_minus_1), Goldilocks64::from_int(1));
    assert_eq!(Goldilocks64::from_int(3).neg(), Goldilocks64::from_int(18446744069414584318));
    assert_eq!(Goldilocks64::from_int(18446744069414584321), Goldilocks64::from_int(0));
    assert_eq!(Goldilocks64::inverse_2().as_u64(), 9223372034707292161);
    assert_eq!(Goldilocks64::from_int(2).inverse(), Goldilocks64::inverse_2());
    assert_eq!(Goldilocks64::from_int(0).inverse(), Goldilocks64::from_int(0));
    assert_eq!(Goldilocks64::from_int(0x0102030405060708).to_bytes(), vec![8, 7, 6, 5, 4, 3, 2, 1]);
}

#[test]
fn extension_multiplication_uses_seven() {
    let x = Goldilocks64Ext::new(Goldilocks64::from_int(0), Goldilocks64::from_int(1));
    assert_eq!(x.mul(x), Goldilocks64Ext::from_int(7));
    let y = Goldilocks64Ext::new(Goldilocks64::from_int(3), Goldilocks64::from_int(5));
    assert_eq!(y.mul(y.inverse()), Goldilocks64Ext::from_int(1));
    assert_eq!(y.to_bytes().len(), 16);
}

#[test]
fn batch_inverse_inverts_each_element() {
    let v: Vec<Goldilocks64> = (1..20).map(|i| Goldilocks64::from_int(i * 7919)).collect();
    let inv = batch_inverse(&v);
    for i in 0..v.len() {
        assert_eq!(v[i].mul(inv[i]), Goldilocks64::from_int(1));
        assert_eq!(inv[i], v[i].inverse());
    }
}
