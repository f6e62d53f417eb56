//! The per-node value kinds: `Var` (an input set directly by the caller) and
//! `Map2` (a derived value combining two dependencies), together with the
//! trait for pure two-argument combining functions.

use vstd::prelude::*;

verus! {

/// A pure, deterministic two-argument combining function over 64-bit
/// integers.  `spec_combine` is the mathematical function; `combine` is the
/// executable code, proved to return exactly `spec_combine`.  Implementations
/// must be total: calling a combining function twice with equal inputs yields
/// equal outputs, and it never fails.
pub trait Combine2: Sized {
    /// The function being computed, as a mathematical value.
    spec fn spec_combine(&self, a: i64, b: i64) -> i64;

    /// Apply the function.
    fn combine(&self, a: i64, b: i64) -> (r: i64)
        ensures
            r == self.spec_combine(a, b),
    ;
}

/// Clamp a mathematical integer into the `i64` range.
pub open spec fn saturate(v: int) -> i64 {
    if v > i64::MAX {
        i64::MAX
    } else if v < i64::MIN {
        i64::MIN
    } else {
        v as i64
    }
}

/// Ready-made combining functions over 64-bit integers.
#[derive(Debug, Clone, Copy, PartialEq, Eq)]
pub enum IntFn {
    /// Saturating addition: the exact sum, clamped into the `i64` range.
    Add,
    /// A constant function: ignores both arguments.
    Const(i64),
}

impl Combine2 for IntFn {
    open spec fn spec_combine(&self, a: i64, b: i64) -> i64 {
        match *self {
            IntFn::Add => saturate(a + b),
            IntFn::Const(c) => c,
        }
    }

    fn combine(&self, a: i64, b: i64) -> (r: i64) {
        match *self {
            IntFn::Add => {
                if b >= 0 {
                    if a <= i64::MAX - b {
                        a + b
                    } else {
                        i64::MAX
                    }
                } else {
                    if a >= i64::MIN - b {
                        a + b
                    } else {
                        i64::MIN
                    }
                }
            },
            IntFn::Const(c) => c,
        }
    }
}

/// An input node's payload: a value set directly by the caller.  It has no
/// dependencies and is never recomputed by stabilization.
#[derive(Debug, Clone, Copy, PartialEq, Eq, Structural)]
pub struct Var {
    /// The caller-set value.
    pub value: i64,
}

impl Var {
    /// An input payload holding `value`.
    pub fn new(value: i64) -> (r: Var)
        ensures
            r.value == value,
    {
        Var { value }
    }
}

/// A derived node's payload: two dependency identifiers, read in a fixed
/// order, a pure combining function, and the cache of the last-computed
/// result (`None` until the first recomputation).
pub struct Map2<C> {
    /// Identifier of the first dependency.
    pub a: usize,
    /// Identifier of the second dependency.
    pub b: usize,
    /// The combining function.
    pub f: C,
    /// The last-computed result, if any.
    pub cached: Option<i64>,
}

impl<C: Combine2> Map2<C> {
    /// A derived payload over dependencies `a` and `b`, not yet computed.
    pub fn new(a: usize, b: usize, f: C) -> (r: Map2<C>)
        ensures
            r.a == a,
            r.b == b,
            r.f == f,
            r.cached is None,
    {
        Map2 { a, b, f, cached: None }
    }
}

/// The closed enumeration of node payloads.
pub enum Kind<C> {
    /// An input.
    Var(Var),
    /// A derived value over two dependencies.
    Map2(Map2<C>),
}

} // verus!
