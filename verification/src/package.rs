//! Package names.

use vstd::prelude::*;

verus! {

/// A package name.
///
/// Two names denote the same package exactly when their views are equal.
pub trait Package: View + Sized {
    /// Whether both names denote the same package.
    fn same(&self, other: &Self) -> (r: bool)
        ensures
            r == (self@ == other@),
    ;

    /// Another name for the same package.
    fn duplicate(&self) -> (r: Self)
        ensures
            r@ == self@,
    ;
}

/// What identifies the packages.
pub open spec fn keys<P: Package>(packages: Seq<P>) -> Seq<P::V> {
    Seq::new(packages.len(), |i: int| packages[i]@)
}

/// Whether the package is in the list.
pub fn holds_package<P: Package>(packages: &Vec<P>, package: &P) -> (r: bool)
    ensures
        r == keys(packages@).contains(package@),
{
    let mut i: usize = 0;
    while i < packages.len()
        invariant
            i <= packages@.len(),
            forall|j: int| 0 <= j < i ==> (#[trigger] packages@[j])@ != package@,
        decreases packages@.len() - i,
    {
        if packages[i].same(package) {
            assert(keys(packages@)[i as int] == package@);
            return true;
        }
        i += 1;
    }
    proof {
        if keys(packages@).contains(package@) {
            let j = choose|j: int| 0 <= j < keys(packages@).len() && keys(packages@)[j] == package@;
            assert(packages@[j]@ == package@);
        }
    }
    false
}

/// Equality of string slices, as `str` implements `PartialEq`: two slices are equal exactly when
/// they hold the same characters.
#[verifier::external_body]
fn equal_text(left: &str, right: &str) -> (r: bool)
    ensures
        r == (left@ == right@),
{
    left == right
}

impl<'a> Package for &'a str {
    fn same(&self, other: &Self) -> (r: bool) {
        equal_text(self, other)
    }

    fn duplicate(&self) -> (r: Self) {
        *self
    }
}

impl Package for u32 {
    fn same(&self, other: &Self) -> (r: bool) {
        *self == *other
    }

    fn duplicate(&self) -> (r: Self) {
        *self
    }
}

impl Package for usize {
    fn same(&self, other: &Self) -> (r: bool) {
        *self == *other
    }

    fn duplicate(&self) -> (r: Self) {
        *self
    }
}

impl Package for String {
    fn same(&self, other: &Self) -> (r: bool) {
        equal_text(self.as_str(), other.as_str())
    }

    fn duplicate(&self) -> (r: Self) {
        self.as_str().to_owned()
    }
}

} // verus!
