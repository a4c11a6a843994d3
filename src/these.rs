//! A value of one type, of another, or of both.

use vstd::prelude::*;

verus! {

/// This, that, or these two.
#[derive(Debug, PartialEq)]
pub enum These<A, B> {
    This(A),
    That(B),
    These(A, B),
}

impl<A, B> These<A, B> {
    /// Applies the function that matches the variant.
    pub fn these<C, F1: FnOnce(A) -> C, F2: FnOnce(B) -> C, F3: FnOnce(A, B) -> C>(
        self,
        this: F1,
        that: F2,
        these: F3,
    ) -> (r: C)
        requires
            match self {
                These::This(a) => this.requires((a,)),
                These::That(b) => that.requires((b,)),
                These::These(a, b) => these.requires((a, b)),
            },
        ensures
            match self {
                These::This(a) => this.ensures((a,), r),
                These::That(b) => that.ensures((b,), r),
                These::These(a, b) => these.ensures((a, b), r),
            },
    {
        match self {
            These::This(a) => this(a),
            These::That(b) => that(b),
            These::These(a, b) => these(a, b),
        }
    }

    /// Maps each side to a `C`; where both are present, merges the two results.
    pub fn merge_these_with<C, F1: FnOnce(A) -> C, F2: FnOnce(B) -> C, F3: FnOnce(C, C) -> C>(
        self,
        this: F1,
        that: F2,
        these: F3,
    ) -> (r: C)
        requires
            match self {
                These::This(a) => this.requires((a,)),
                These::That(b) => that.requires((b,)),
                These::These(a, b) => {
                    &&& this.requires((a,))
                    &&& that.requires((b,))
                    &&& forall|x: C, y: C|
                        this.ensures((a,), x) && that.ensures((b,), y) ==> these.requires((x, y))
                },
            },
        ensures
            match self {
                These::This(a) => this.ensures((a,), r),
                These::That(b) => that.ensures((b,), r),
                These::These(a, b) => exists|x: C, y: C|
                    this.ensures((a,), x) && that.ensures((b,), y) && these.ensures((x, y), r),
            },
    {
        match self {
            These::This(a) => this(a),
            These::That(b) => that(b),
            These::These(a, b) => {
                let x = this(a);
                let y = that(b);
                these(x, y)
            },
        }
    }

    /// Maps the second side.
    pub fn map<C, F: FnOnce(B) -> C>(self, f: F) -> (r: These<A, C>)
        requires
            match self {
                These::This(_) => true,
                These::That(b) => f.requires((b,)),
                These::These(_, b) => f.requires((b,)),
            },
        ensures
            match self {
                These::This(a) => r == These::<A, C>::This(a),
                These::That(b) => r matches These::That(c) && f.ensures((b,), c),
                These::These(a, b) => r matches These::These(a2, c) && a2 == a && f.ensures((b,), c),
            },
    {
        match self {
            These::This(a) => These::This(a),
            These::That(b) => These::That(f(b)),
            These::These(a, b) => These::These(a, f(b)),
        }
    }

    /// Maps both sides.
    pub fn bimap<C, D, F1: FnOnce(A) -> D, F2: FnOnce(B) -> C>(self, this: F1, that: F2) -> (r: These<D, C>)
        requires
            match self {
                These::This(a) => this.requires((a,)),
                These::That(b) => that.requires((b,)),
                These::These(a, b) => this.requires((a,)) && that.requires((b,)),
            },
        ensures
            match self {
                These::This(a) => r matches These::This(d) && this.ensures((a,), d),
                These::That(b) => r matches These::That(c) && that.ensures((b,), c),
                These::These(a, b) => r matches These::These(d, c) && this.ensures((a,), d)
                    && that.ensures((b,), c),
            },
    {
        match self {
            These::This(a) => These::This(this(a)),
            These::That(b) => These::That(that(b)),
            These::These(a, b) => These::These(this(a), that(b)),
        }
    }

    /// Runs `this` on the first side where it stands alone; otherwise succeeds.
    pub fn do_this<E, F: FnOnce(&A) -> Result<(), E>>(&self, this: F) -> (r: Result<(), E>)
        requires
            match self {
                These::This(a) => this.requires((a,)),
                _ => true,
            },
        ensures
            match self {
                These::This(a) => this.ensures((a,), r),
                _ => r == Ok::<(), E>(()),
            },
    {
        match self {
            These::This(a) => this(a),
            These::That(_) => Ok(()),
            These::These(_, _) => Ok(()),
        }
    }

    /// Runs `that` on the second side where it stands alone; otherwise succeeds.
    pub fn do_that<E, F: FnOnce(&B) -> Result<(), E>>(&self, that: F) -> (r: Result<(), E>)
        requires
            match self {
                These::That(b) => that.requires((b,)),
                _ => true,
            },
        ensures
            match self {
                These::That(b) => that.ensures((b,), r),
                _ => r == Ok::<(), E>(()),
            },
    {
        match self {
            These::This(_) => Ok(()),
            These::That(b) => that(b),
            These::These(_, _) => Ok(()),
        }
    }
}

} // verus!
