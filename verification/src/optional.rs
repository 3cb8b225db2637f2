//! Optional values kept in the space of the value itself: one value of the type stands for
//! "none".
use vstd::prelude::*;
use core::marker::PhantomData;

verus! {

/// A value that may be absent, seen as an `Option`.
pub trait Optional<T>: Sized {
    /// The `Option` this stands for.
    spec fn spec_option(&self) -> Option<T>;

    /// The value, by reference, if there is one.
    fn to_option_ref(&self) -> (r: Option<&T>)
        ensures
            r is Some == self.spec_option() is Some,
            r matches Some(x) ==> *x == self.spec_option()->0,
    ;

    /// The value, by mutable reference, if there is one; nothing changes where there is
    /// none.
    fn to_option_mut(&mut self) -> (r: Option<&mut T>)
        ensures
            r is Some == old(self).spec_option() is Some,
            r is Some ==> *r.unwrap() == old(self).spec_option()->0,
            r is None ==> *final(self) == *old(self),
    ;

    /// The value, if there is one.
    fn into_option(self) -> (r: Option<T>)
        ensures
            r == self.spec_option(),
    ;
}

impl<T> Optional<T> for Option<T> {
    open spec fn spec_option(&self) -> Option<T> {
        *self
    }

    fn to_option_ref(&self) -> (r: Option<&T>) {
        self.as_ref()
    }

    fn to_option_mut(&mut self) -> (r: Option<&mut T>)
        ensures
            r is Some ==> *final(self) == Some(*final(r.unwrap())),
    {
        self.as_mut()
    }

    fn into_option(self) -> (r: Option<T>) {
        self
    }
}

/// Gives the value that stands for "none".
pub trait BuildNone<T> {
    /// The value that stands for "none".
    spec fn spec_none() -> T;

    /// The value that stands for "none".
    fn none() -> (r: T)
        ensures
            r == Self::spec_none(),
    ;

    /// Whether `x` is the value that stands for "none".
    fn is_none(x: &T) -> (r: bool)
        ensures
            r == (*x == Self::spec_none()),
    ;

    /// A word that names the choice of "none".
    fn desc() -> &'static str;
}

/// The largest value stands for "none".
pub struct MaxNone<T>(PhantomData<T>);

/// The smallest value stands for "none".
pub struct MinNone<T>(PhantomData<T>);

impl BuildNone<u8> for MaxNone<u8> {
    open spec fn spec_none() -> u8 {
        u8::MAX
    }

    fn none() -> (r: u8) {
        u8::MAX
    }

    fn is_none(x: &u8) -> (r: bool) {
        *x == u8::MAX
    }

    fn desc() -> (r: &'static str)
        ensures
            r@ == "Max"@,
    {
        "Max"
    }
}

impl BuildNone<u16> for MaxNone<u16> {
    open spec fn spec_none() -> u16 {
        u16::MAX
    }

    fn none() -> (r: u16) {
        u16::MAX
    }

    fn is_none(x: &u16) -> (r: bool) {
        *x == u16::MAX
    }

    fn desc() -> (r: &'static str)
        ensures
            r@ == "Max"@,
    {
        "Max"
    }
}

impl BuildNone<u32> for MaxNone<u32> {
    open spec fn spec_none() -> u32 {
        u32::MAX
    }

    fn none() -> (r: u32) {
        u32::MAX
    }

    fn is_none(x: &u32) -> (r: bool) {
        *x == u32::MAX
    }

    fn desc() -> (r: &'static str)
        ensures
            r@ == "Max"@,
    {
        "Max"
    }
}

impl BuildNone<u64> for MaxNone<u64> {
    open spec fn spec_none() -> u64 {
        u64::MAX
    }

    fn none() -> (r: u64) {
        u64::MAX
    }

    fn is_none(x: &u64) -> (r: bool) {
        *x == u64::MAX
    }

    fn desc() -> (r: &'static str)
        ensures
            r@ == "Max"@,
    {
        "Max"
    }
}

impl BuildNone<usize> for MaxNone<usize> {
    open spec fn spec_none() -> usize {
        usize::MAX
    }

    fn none() -> (r: usize) {
        usize::MAX
    }

    fn is_none(x: &usize) -> (r: bool) {
        *x == usize::MAX
    }

    fn desc() -> (r: &'static str)
        ensures
            r@ == "Max"@,
    {
        "Max"
    }
}

impl BuildNone<i32> for MaxNone<i32> {
    open spec fn spec_none() -> i32 {
        i32::MAX
    }

    fn none() -> (r: i32) {
        i32::MAX
    }

    fn is_none(x: &i32) -> (r: bool) {
        *x == i32::MAX
    }

    fn desc() -> (r: &'static str)
        ensures
            r@ == "Max"@,
    {
        "Max"
    }
}

impl BuildNone<u8> for MinNone<u8> {
    open spec fn spec_none() -> u8 {
        0
    }

    fn none() -> (r: u8) {
        0
    }

    fn is_none(x: &u8) -> (r: bool) {
        *x == 0
    }

    fn desc() -> (r: &'static str)
        ensures
            r@ == "Min"@,
    {
        "Min"
    }
}

impl BuildNone<u32> for MinNone<u32> {
    open spec fn spec_none() -> u32 {
        0
    }

    fn none() -> (r: u32) {
        0
    }

    fn is_none(x: &u32) -> (r: bool) {
        *x == 0
    }

    fn desc() -> (r: &'static str)
        ensures
            r@ == "Min"@,
    {
        "Min"
    }
}

impl BuildNone<usize> for MinNone<usize> {
    open spec fn spec_none() -> usize {
        0
    }

    fn none() -> (r: usize) {
        0
    }

    fn is_none(x: &usize) -> (r: bool) {
        *x == 0
    }

    fn desc() -> (r: &'static str)
        ensures
            r@ == "Min"@,
    {
        "Min"
    }
}

impl BuildNone<i32> for MinNone<i32> {
    open spec fn spec_none() -> i32 {
        i32::MIN
    }

    fn none() -> (r: i32) {
        i32::MIN
    }

    fn is_none(x: &i32) -> (r: bool) {
        *x == i32::MIN
    }

    fn desc() -> (r: &'static str)
        ensures
            r@ == "Min"@,
    {
        "Min"
    }
}

/// An optional value where the largest value stands for "none".
pub type OptionalMax<T> = Optioned<T, MaxNone<T>>;

/// An optional value where the smallest value stands for "none".
pub type OptionalMin<T> = Optioned<T, MinNone<T>>;

/// A value of `T` where the value that `B` builds stands for "none".
pub struct Optioned<T, B: BuildNone<T>> {
    value: T,
    _marker: PhantomData<B>,
}

impl<T, B: BuildNone<T>> Optioned<T, B> {
    /// The value kept, "none" included.
    pub closed spec fn spec_value(&self) -> T {
        self.value
    }

    /// "None".
    pub fn none() -> (r: Self)
        ensures
            r.spec_option() is None,
    {
        Optioned { value: B::none(), _marker: PhantomData }
    }

    /// `value`; "none" when it is the value that stands for "none".
    pub fn from_value(value: T) -> (r: Self)
        ensures
            r.spec_value() == value,
            value != B::spec_none() ==> r.spec_option() == Some(value),
            value == B::spec_none() ==> r.spec_option() is None,
    {
        Optioned { value, _marker: PhantomData }
    }

    /// The value of `value`, or "none".
    pub fn from_option(value: Option<T>) -> (r: Self)
        ensures
            value is None ==> r.spec_option() is None,
            value matches Some(v) ==> r.spec_value() == v,
            value matches Some(v) ==> r.spec_option() == (if v == B::spec_none() {
                None
            } else {
                Some(v)
            }),
    {
        match value {
            Some(v) => Self::from_value(v),
            None => Self::none(),
        }
    }
}

impl<T, B: BuildNone<T>> Default for Optioned<T, B> {
    /// "None".
    fn default() -> (r: Self)
        ensures
            r.spec_option() is None,
    {
        Self::none()
    }
}

impl<T, B: BuildNone<T>> From<T> for Optioned<T, B> {
    /// `value`; "none" when it is the value that stands for "none".
    fn from(value: T) -> (r: Self)
        ensures
            r.spec_value() == value,
            value != B::spec_none() ==> r.spec_option() == Some(value),
            value == B::spec_none() ==> r.spec_option() is None,
    {
        Optioned { value, _marker: PhantomData }
    }
}

impl<T, B: BuildNone<T>> vstd::std_specs::convert::FromSpecImpl<T> for Optioned<T, B> {
    open spec fn obeys_from_spec() -> bool {
        true
    }

    closed spec fn from_spec(v: T) -> Self {
        Optioned { value: v, _marker: PhantomData::<B> }
    }
}

impl<T, B: BuildNone<T>> From<Option<T>> for Optioned<T, B> {
    /// The value of `value`, or "none".
    fn from(value: Option<T>) -> (r: Self)
        ensures
            value is None ==> r.spec_option() is None,
            value matches Some(v) ==> r.spec_value() == v,
            value matches Some(v) ==> r.spec_option() == (if v == B::spec_none() {
                None
            } else {
                Some(v)
            }),
    {
        match value {
            Some(v) => Optioned { value: v, _marker: PhantomData },
            None => Optioned { value: B::none(), _marker: PhantomData },
        }
    }
}

impl<T, B: BuildNone<T>> vstd::std_specs::convert::FromSpecImpl<Option<T>> for Optioned<T, B> {
    open spec fn obeys_from_spec() -> bool {
        true
    }

    closed spec fn from_spec(v: Option<T>) -> Self {
        match v {
            Some(x) => Optioned { value: x, _marker: PhantomData::<B> },
            None => Optioned { value: B::spec_none(), _marker: PhantomData::<B> },
        }
    }
}

impl<T, B: BuildNone<T>> Optional<T> for Optioned<T, B> {
    closed spec fn spec_option(&self) -> Option<T> {
        if self.spec_value() == B::spec_none() {
            None
        } else {
            Some(self.spec_value())
        }
    }

    fn to_option_ref(&self) -> (r: Option<&T>) {
        if B::is_none(&self.value) {
            None
        } else {
            Some(&self.value)
        }
    }

    fn to_option_mut(&mut self) -> (r: Option<&mut T>)
        ensures
            r is Some ==> final(self).spec_value() == *final(r.unwrap()),
    {
        if B::is_none(&self.value) {
            None
        } else {
            Some(&mut self.value)
        }
    }

    fn into_option(self) -> (r: Option<T>) {
        if B::is_none(&self.value) {
            None
        } else {
            Some(self.value)
        }
    }
}

/// An optional `bool` kept in one byte.
#[derive(Clone, Copy, PartialEq, Eq, PartialOrd, Ord, Hash)]
pub struct OptionalBool(Option<bool>);

impl OptionalBool {
    /// "None".
    pub fn none() -> (r: Self)
        ensures
            r.spec_option() is None,
    {
        OptionalBool(None)
    }

    /// `value`.
    pub fn from_bool(value: bool) -> (r: Self)
        ensures
            r.spec_option() == Some(value),
    {
        OptionalBool(Some(value))
    }

    /// The value of `value`, or "none".
    pub fn from_option(value: Option<bool>) -> (r: Self)
        ensures
            r.spec_option() == value,
    {
        match value {
            Some(v) => Self::from_bool(v),
            None => Self::none(),
        }
    }

    /// The value, if there is one.
    pub fn to_option(&self) -> (r: Option<bool>)
        ensures
            r == self.spec_option(),
    {
        self.0
    }
}

impl Default for OptionalBool {
    /// "None".
    fn default() -> (r: Self)
        ensures
            r.spec_option() is None,
    {
        Self::none()
    }
}

impl From<bool> for OptionalBool {
    /// `value`.
    fn from(value: bool) -> (r: Self)
        ensures
            r.spec_option() == Some(value),
    {
        Self::from_bool(value)
    }
}

impl vstd::std_specs::convert::FromSpecImpl<bool> for OptionalBool {
    open spec fn obeys_from_spec() -> bool {
        true
    }

    closed spec fn from_spec(v: bool) -> Self {
        OptionalBool(Some(v))
    }
}

impl From<Option<bool>> for OptionalBool {
    /// The value of `value`, or "none".
    fn from(value: Option<bool>) -> (r: Self)
        ensures
            r.spec_option() == value,
    {
        Self::from_option(value)
    }
}

impl vstd::std_specs::convert::FromSpecImpl<Option<bool>> for OptionalBool {
    open spec fn obeys_from_spec() -> bool {
        true
    }

    closed spec fn from_spec(v: Option<bool>) -> Self {
        OptionalBool(v)
    }
}

impl Optional<bool> for OptionalBool {
    closed spec fn spec_option(&self) -> Option<bool> {
        self.0
    }

    fn to_option_ref(&self) -> (r: Option<&bool>) {
        self.0.as_ref()
    }

    fn to_option_mut(&mut self) -> (r: Option<&mut bool>)
        ensures
            r is Some ==> final(self).spec_option() == Some(*final(r.unwrap())),
    {
        self.0.as_mut()
    }

    fn into_option(self) -> (r: Option<bool>) {
        self.0
    }
}

} // verus!
