//! Double arithmetic, handed in by the caller: the four operations and the
//! conversion of a whole number, each on bit patterns.
use vstd::prelude::*;

verus! {

/// One of the four operations.
#[derive(Clone, Copy, PartialEq, Eq, Structural, Debug)]
pub enum Operation {
    /// Addition.
    Plus,
    /// Subtraction.
    Minus,
    /// Multiplication.
    Times,
    /// Division.
    Divide,
}

/// The functions that compute on doubles.
pub struct Arith<O, I> {
    /// Carries out an operation on two doubles.
    pub operate: O,
    /// The double nearest to a whole number.
    pub whole: I,
}

impl<O: Fn(Operation, u64, u64) -> u64, I: Fn(i64) -> u64> Arith<O, I> {
    /// The functions take every argument, and give one answer for it.
    pub open spec fn ok(self) -> bool {
        &&& forall|op: Operation, a: u64, b: u64| #[trigger]
            call_requires(self.operate, (op, a, b))
        &&& forall|op: Operation, a: u64, b: u64, x: u64, y: u64| #[trigger]
            call_ensures(self.operate, (op, a, b), x) && #[trigger] call_ensures(
                self.operate,
                (op, a, b),
                y,
            ) ==> x == y
        &&& forall|n: i64| #[trigger] call_requires(self.whole, (n,))
        &&& forall|n: i64, x: u64, y: u64| #[trigger]
            call_ensures(self.whole, (n,), x) && #[trigger] call_ensures(self.whole, (n,), y)
                ==> x == y
    }

    /// What an operation gives.
    pub open spec fn result(self, op: Operation, a: u64, b: u64) -> u64 {
        choose|out: u64| #[trigger] call_ensures(self.operate, (op, a, b), out)
    }

    /// The double of a whole number.
    pub open spec fn number(self, n: i64) -> u64 {
        choose|out: u64| #[trigger] call_ensures(self.whole, (n,), out)
    }

    /// `a + b`.
    pub open spec fn sum(self, a: u64, b: u64) -> u64 {
        self.result(Operation::Plus, a, b)
    }

    /// `a - b`.
    pub open spec fn difference(self, a: u64, b: u64) -> u64 {
        self.result(Operation::Minus, a, b)
    }

    /// `a * b`.
    pub open spec fn product(self, a: u64, b: u64) -> u64 {
        self.result(Operation::Times, a, b)
    }

    /// `a / b`.
    pub open spec fn quotient(self, a: u64, b: u64) -> u64 {
        self.result(Operation::Divide, a, b)
    }

    fn apply(&self, op: Operation, a: u64, b: u64) -> (out: u64)
        requires
            self.ok(),
        ensures
            out == self.result(op, a, b),
    {
        let out = (self.operate)(op, a, b);
        assert(call_ensures(self.operate, (op, a, b), out));
        assert(call_ensures(self.operate, (op, a, b), self.result(op, a, b)));
        out
    }

    /// Adds.
    pub fn plus(&self, a: u64, b: u64) -> (out: u64)
        requires
            self.ok(),
        ensures
            out == self.sum(a, b),
    {
        self.apply(Operation::Plus, a, b)
    }

    /// Subtracts.
    pub fn minus(&self, a: u64, b: u64) -> (out: u64)
        requires
            self.ok(),
        ensures
            out == self.difference(a, b),
    {
        self.apply(Operation::Minus, a, b)
    }

    /// Multiplies.
    pub fn times(&self, a: u64, b: u64) -> (out: u64)
        requires
            self.ok(),
        ensures
            out == self.product(a, b),
    {
        self.apply(Operation::Times, a, b)
    }

    /// Divides.
    pub fn over(&self, a: u64, b: u64) -> (out: u64)
        requires
            self.ok(),
        ensures
            out == self.quotient(a, b),
    {
        self.apply(Operation::Divide, a, b)
    }

    /// Converts a whole number.
    pub fn from_whole(&self, n: i64) -> (out: u64)
        requires
            self.ok(),
        ensures
            out == self.number(n),
    {
        let out = (self.whole)(n);
        assert(call_ensures(self.whole, (n,), out));
        assert(call_ensures(self.whole, (n,), self.number(n)));
        out
    }
}

} // verus!
