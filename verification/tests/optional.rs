use fera::optional::{BuildNone, MaxNone, MinNone, Optional, OptionalBool, OptionalMax, OptionalMin, Optioned};

#[test]
fn optional_bool_values() {
    assert_eq!(None, OptionalBool::none().into_option());
    assert_eq!(Some(false), OptionalBool::from_bool(false).into_option());
    assert_eq!(Some(true), OptionalBool::from_bool(true).into_option());
    assert_eq!(Some(&true), OptionalBool::from_bool(true).to_option_ref());
    assert_eq!(None, OptionalBool::from_option(None).to_option());
    assert_eq!(Some(true), OptionalBool::from_option(Some(true)).to_option());
}

#[test]
fn optional_max_values() {
    let none: Optioned<u32, MaxNone<u32>> = Optioned::none();
    assert_eq!(None, none.into_option());
    let ten: Optioned<u32, MaxNone<u32>> = Optioned::from_value(10);
    assert_eq!(Some(&10), ten.to_option_ref());
    assert_eq!(Some(10), ten.into_option());
    let max: Optioned<u32, MaxNone<u32>> = Optioned::from_value(u32::MAX);
    assert_eq!(None, max.into_option());
    assert_eq!("Max", <MaxNone<u32> as BuildNone<u32>>::desc());
}

#[test]
fn optional_min_values() {
    let none: Optioned<i32, MinNone<i32>> = Optioned::from_option(None);
    assert_eq!(None, none.into_option());
    let ten: Optioned<i32, MinNone<i32>> = Optioned::from_option(Some(10));
    assert_eq!(Some(10), ten.into_option());
    assert_eq!("Min", <MinNone<i32> as BuildNone<i32>>::desc());
}

#[test]
fn option_is_optional() {
    let a: Option<u8> = Some(3);
    assert_eq!(Some(&3), a.to_option_ref());
    assert_eq!(Some(3), a.into_option());
}

/// The checks that every optional type passes, with two distinct values of its items.
trait OptionalTest {
    type Item: std::fmt::Debug + PartialEq;
    type Sut: Optional<Self::Item> + Default + From<Self::Item>;

    fn values() -> (Self::Item, Self::Item);

    fn sut_default() -> Self::Sut {
        Self::Sut::default()
    }

    fn sut_from(value: Self::Item) -> Self::Sut {
        Self::Sut::from(value)
    }

    fn to_option_ref() {
        let (v1, v2) = Self::values();
        let (x1, x2) = Self::values();
        assert_eq!(None, Self::sut_default().to_option_ref());
        assert_eq!(Some(&v1), Self::sut_from(x1).to_option_ref());
        assert_eq!(Some(&v2), Self::sut_from(x2).to_option_ref());
    }

    fn to_option_mut() {
        let (mut v1, mut v2) = Self::values();
        let (x1, x2) = Self::values();
        assert_eq!(None, Self::sut_default().to_option_mut());
        assert_eq!(Some(&mut v1), Self::sut_from(x1).to_option_mut());
        assert_eq!(Some(&mut v2), Self::sut_from(x2).to_option_mut());

        let (x1, x2) = Self::values();
        let mut o = Self::sut_from(x1);
        *o.to_option_mut().unwrap() = x2;
        assert_eq!(Some(&v2), o.to_option_ref());
        assert_eq!(Some(&mut v2), o.to_option_mut());
        assert_eq!(Some(v2), o.into_option());
    }

    fn into_option() {
        let (v1, v2) = Self::values();
        let (x1, x2) = Self::values();
        assert_eq!(None, Self::sut_default().into_option());
        assert_eq!(Some(v1), Self::sut_from(x1).into_option());
        assert_eq!(Some(v2), Self::sut_from(x2).into_option());
    }
}

struct BoolTest;

impl OptionalTest for BoolTest {
    type Item = bool;
    type Sut = OptionalBool;

    fn values() -> (bool, bool) {
        (false, true)
    }
}

struct MaxU32Test;

impl OptionalTest for MaxU32Test {
    type Item = u32;
    type Sut = OptionalMax<u32>;

    fn values() -> (u32, u32) {
        (10, 50)
    }
}

#[test]
fn optional_bool_to_option_ref() {
    BoolTest::to_option_ref();
}

#[test]
fn optional_bool_to_option_mut() {
    BoolTest::to_option_mut();
}

#[test]
fn optional_bool_into_option() {
    BoolTest::into_option();
}

#[test]
fn optioned_u32_to_option_ref() {
    MaxU32Test::to_option_ref();
}

#[test]
fn optioned_u32_to_option_mut() {
    MaxU32Test::to_option_mut();
}

#[test]
fn optioned_u32_into_option() {
    MaxU32Test::into_option();
}

#[test]
fn optional_max_from_and_default() {
    let y = OptionalMax::<usize>::default();
    assert_eq!(None, y.into_option());
    let x = OptionalMax::from(10usize);
    assert_eq!(Some(&10), x.to_option_ref());
    assert_eq!(10, *x.to_option_ref().unwrap());
    let z = Some(10);
    let w = OptionalMax::<usize>::from(z);
    assert_eq!(Some(10), w.into_option());
    let m = OptionalMin::<u32>::from(0u32);
    assert_eq!(None, m.into_option());
}

#[test]
fn optional_bool_change_value() {
    let mut x = OptionalBool::from(false);
    assert!(!*x.to_option_ref().unwrap());
    *x.to_option_mut().unwrap() = true;
    assert!(*x.to_option_ref().unwrap());
    assert_eq!(1, std::mem::size_of::<OptionalBool>());
}

#[test]
fn optioned_write_none_through_mut() {
    let mut x = OptionalMax::from(7u8);
    *x.to_option_mut().unwrap() = u8::MAX;
    assert_eq!(None, x.into_option());
    let mut n = OptionalMax::<u8>::default();
    assert!(n.to_option_mut().is_none());
}
