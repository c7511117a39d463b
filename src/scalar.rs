use vstd::prelude::*;

verus! {

/// `f` can be called on any value and always gives the same result for the same value.
pub open spec fn pure1<T, F: Fn(T) -> T>(f: F) -> bool {
    &&& forall|x: T| #[trigger] f.requires((x,))
    &&& forall|x: T, a: T, b: T| #[trigger] f.ensures((x,), a) && #[trigger] f.ensures((x,), b) ==> a == b
}

/// `f` can be called on any pair and always gives the same result for the same pair.
pub open spec fn pure2<T, F: Fn(T, T) -> T>(f: F) -> bool {
    &&& forall|x: T, y: T| #[trigger] f.requires((x, y))
    &&& forall|x: T, y: T, a: T, b: T|
        #[trigger] f.ensures((x, y), a) && #[trigger] f.ensures((x, y), b) ==> a == b
}

/// A test on values that can be called on any value and always answers the same.
pub open spec fn pure_test<T, F: Fn(T) -> bool>(f: F) -> bool {
    &&& forall|x: T| #[trigger] f.requires((x,))
    &&& forall|x: T, a: bool, b: bool| #[trigger] f.ensures((x,), a) && #[trigger] f.ensures((x,), b) ==> a == b
}

/// The value that `f` gives for `x`.
pub open spec fn app1<T, F: Fn(T) -> T>(f: F, x: T) -> T {
    choose|r: T| f.ensures((x,), r)
}

/// The value that `f` gives for `(x, y)`.
pub open spec fn app2<T, F: Fn(T, T) -> T>(f: F, x: T, y: T) -> T {
    choose|r: T| f.ensures((x, y), r)
}

/// The answer that the test `f` gives for `x`.
pub open spec fn holds<T, F: Fn(T) -> bool>(f: F, x: T) -> bool {
    choose|r: bool| f.ensures((x,), r)
}

pub(crate) proof fn lemma_app1<T, F: Fn(T) -> T>(f: F, x: T, r: T)
    requires
        pure1(f),
        f.ensures((x,), r),
    ensures
        app1(f, x) == r,
{
    let c = app1(f, x);
    assert(f.ensures((x,), c) && f.ensures((x,), r));
}

pub(crate) proof fn lemma_app2<T, F: Fn(T, T) -> T>(f: F, x: T, y: T, r: T)
    requires
        pure2(f),
        f.ensures((x, y), r),
    ensures
        app2(f, x, y) == r,
{
    let c = app2(f, x, y);
    assert(f.ensures((x, y), c) && f.ensures((x, y), r));
}

pub(crate) proof fn lemma_holds<T, F: Fn(T) -> bool>(f: F, x: T, r: bool)
    requires
        pure_test(f),
        f.ensures((x,), r),
    ensures
        holds(f, x) == r,
{
    let c = holds(f, x);
    assert(f.ensures((x,), c) && f.ensures((x,), r));
}

/// Calls `f` on `x`; the result is `app1(f, x)`.
pub(crate) fn call1<T, F: Fn(T) -> T>(f: &F, x: T) -> (r: T)
    requires
        pure1(*f),
    ensures
        r == app1(*f, x),
{
    let r = f(x);
    proof {
        lemma_app1(*f, x, r);
    }
    r
}

/// Calls `f` on `(x, y)`; the result is `app2(f, x, y)`.
pub(crate) fn call2<T, F: Fn(T, T) -> T>(f: &F, x: T, y: T) -> (r: T)
    requires
        pure2(*f),
    ensures
        r == app2(*f, x, y),
{
    let r = f(x, y);
    proof {
        lemma_app2(*f, x, y, r);
    }
    r
}

/// Calls the test `f` on `x`; the result is `holds(f, x)`.
pub(crate) fn call_test<T, F: Fn(T) -> bool>(f: &F, x: T) -> (r: bool)
    requires
        pure_test(*f),
    ensures
        r == holds(*f, x),
{
    let r = f(x);
    proof {
        lemma_holds(*f, x, r);
    }
    r
}

} // verus!
