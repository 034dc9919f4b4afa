//! The number type of a tableau: its constants and operations, handed in by
//! the caller, and the order keys through which values are compared.
use vstd::prelude::*;

verus! {

/// The four binary operations that the simplex method performs on values.
#[derive(Clone, Copy, Debug, PartialEq, Eq)]
pub enum Op {
    Add,
    Sub,
    Mul,
    Div,
}

/// The number type of a tableau.
///
/// `key` maps a value to its order key: `None` for a value that compares
/// with nothing (not even itself), and otherwise an integer such that two
/// values compare as their keys do (`x < y` exactly when `key(x) < key(y)`,
/// `x == y` exactly when `key(x) == key(y)`).
/// `neg` negates a value, `arith` performs one binary operation.
pub struct Field<T, K, N, F> {
    pub zero: T,
    pub one: T,
    pub minus_one: T,
    pub ten: T,
    pub infinity: T,
    pub key: K,
    pub neg: N,
    pub arith: F,
}

/// `a < b` for two order keys.
pub open spec fn key_lt(a: Option<i64>, b: Option<i64>) -> bool {
    a is Some && b is Some && a->0 < b->0
}

/// `a <= b` for two order keys.
pub open spec fn key_le(a: Option<i64>, b: Option<i64>) -> bool {
    a is Some && b is Some && a->0 <= b->0
}

/// `a == b` for two order keys.
pub open spec fn key_eq(a: Option<i64>, b: Option<i64>) -> bool {
    a is Some && b is Some && a->0 == b->0
}

pub fn key_less(a: Option<i64>, b: Option<i64>) -> (r: bool)
    ensures
        r == key_lt(a, b),
{
    match (a, b) {
        (Some(x), Some(y)) => x < y,
        _ => false,
    }
}

pub fn key_equal(a: Option<i64>, b: Option<i64>) -> (r: bool)
    ensures
        r == key_eq(a, b),
{
    match (a, b) {
        (Some(x), Some(y)) => x == y,
        _ => false,
    }
}

impl<T: Copy, K: Fn(T) -> Option<i64>, N: Fn(T) -> T, F: Fn(Op, T, T) -> T> Field<T, K, N, F> {
    /// Each operation can be applied to any values and gives one result for
    /// given arguments.
    pub open spec fn wf(&self) -> bool {
        &&& forall|x: T| #[trigger] self.key.requires((x,))
        &&& forall|x: T| #[trigger] self.neg.requires((x,))
        &&& forall|op: Op, x: T, y: T| #[trigger] self.arith.requires((op, x, y))
        &&& forall|x: T, a: Option<i64>, b: Option<i64>|
            #[trigger] self.key.ensures((x,), a) && #[trigger] self.key.ensures((x,), b) ==> a == b
        &&& forall|x: T, a: T, b: T|
            #[trigger] self.neg.ensures((x,), a) && #[trigger] self.neg.ensures((x,), b) ==> a == b
        &&& forall|op: Op, x: T, y: T, a: T, b: T|
            #[trigger] self.arith.ensures((op, x, y), a) && #[trigger] self.arith.ensures(
                (op, x, y),
                b,
            ) ==> a == b
    }

    /// The order key of `x`.
    pub open spec fn key_of(&self, x: T) -> Option<i64> {
        choose|k: Option<i64>| self.key.ensures((x,), k)
    }

    /// The negation of `x`.
    pub open spec fn neg_of(&self, x: T) -> T {
        choose|r: T| self.neg.ensures((x,), r)
    }

    /// The result of `op` on `x` and `y`.
    pub open spec fn op_of(&self, op: Op, x: T, y: T) -> T {
        choose|r: T| self.arith.ensures((op, x, y), r)
    }

    /// `x < 0`.
    pub open spec fn is_negative(&self, x: T) -> bool {
        key_lt(self.key_of(x), self.key_of(self.zero))
    }

    pub fn key(&self, x: T) -> (k: Option<i64>)
        requires
            self.wf(),
        ensures
            k == self.key_of(x),
    {
        let k = (self.key)(x);
        proof {
            let c = self.key_of(x);
            assert(self.key.ensures((x,), c));
        }
        k
    }

    pub fn neg(&self, x: T) -> (r: T)
        requires
            self.wf(),
        ensures
            r == self.neg_of(x),
    {
        let r = (self.neg)(x);
        proof {
            let c = self.neg_of(x);
            assert(self.neg.ensures((x,), c));
        }
        r
    }

    pub fn apply(&self, op: Op, x: T, y: T) -> (r: T)
        requires
            self.wf(),
        ensures
            r == self.op_of(op, x, y),
    {
        let r = (self.arith)(op, x, y);
        proof {
            let c = self.op_of(op, x, y);
            assert(self.arith.ensures((op, x, y), c));
        }
        r
    }
}

} // verus!
