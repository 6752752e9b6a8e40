//! The floating-point work that the model leaves to its caller: reading a
//! number from text, turning milliseconds into seconds, and accumulating a
//! value into a running mean and variance. Numbers pass as bit patterns.
use vstd::prelude::*;

use crate::params::{reader_total, reads_as};
use crate::project::{sum_up, summed};
use crate::series::{count_up, counted};

verus! {

/// Streaming mean and variance over finite values: the count, and the bits
/// of the mean and of the sum of squared deviations.
#[derive(Clone, Copy, PartialEq, Eq, Structural, Debug)]
pub struct Moments {
    /// Number of accumulated values.
    pub count: u64,
    /// The mean, the bits of a double.
    pub mean: u64,
    /// The sum of squared deviations from the mean, the bits of a double.
    pub m2: u64,
}

impl Moments {
    /// Moments before any value.
    pub open spec fn start() -> Moments {
        Moments { count: 0, mean: 0, m2: 0 }
    }

    /// Number of accumulated values.
    pub fn count(&self) -> (count: u64)
        ensures
            count == self.count,
    {
        self.count
    }

    /// The mean, or `None` before any value.
    pub fn mean(&self) -> (mean: Option<u64>)
        ensures
            mean == (if self.count > 0 {
                Some(self.mean)
            } else {
                None
            }),
    {
        if self.count > 0 {
            Some(self.mean)
        } else {
            None
        }
    }

    /// These moments with another count.
    pub open spec fn numbering(self, count: u64) -> Moments {
        Moments { count, mean: self.mean, m2: self.m2 }
    }

    /// Merges another accumulator into this one: an empty one changes
    /// nothing, an empty one here takes the other over. Of two filled ones
    /// the counts are added, and `combine` gives the mean and the squared
    /// deviations.
    pub fn merge<C: Fn(Moments, Moments) -> Moments>(&mut self, other: &Moments, combine: &C)
        requires
            other.count > 0 && old(self).count > 0 ==> call_requires(*combine, (*old(self), *other)),
        ensures
            other.count == 0 ==> *final(self) == *old(self),
            other.count > 0 && old(self).count == 0 ==> *final(self) == *other,
            other.count > 0 && old(self).count > 0 ==> joins(
                *combine,
                *old(self),
                *other,
                *final(self),
            ),
    {
        if other.count == 0 {
            return ;
        }
        if self.count == 0 {
            *self = *other;
            return ;
        }
        let joined = combine(*self, *other);
        assert(call_ensures(*combine, (*self, *other), joined));
        let count: u64 = sum_up(self.count, other.count);
        *self = Moments { count, mean: joined.mean, m2: joined.m2 };
        assert(*self == joined.numbering(summed(old(self).count, other.count)));
    }
}

/// `out` is what two filled accumulators may come to: their counts added,
/// the rest as `combine` gives it.
pub open spec fn joins<C: Fn(Moments, Moments) -> Moments>(
    combine: C,
    a: Moments,
    b: Moments,
    out: Moments,
) -> bool {
    exists|joined: Moments| #[trigger]
        call_ensures(combine, (a, b), joined) && out == joined.numbering(summed(a.count, b.count))
}

impl Default for Moments {
    fn default() -> (moments: Moments)
        ensures
            moments == Moments::start(),
    {
        Moments { count: 0, mean: 0, m2: 0 }
    }
}

/// The three functions, each from bits to bits.
pub struct Numeric<F, G, H> {
    /// Reads a text as a double.
    pub number: F,
    /// Turns milliseconds into seconds.
    pub seconds: G,
    /// The mean and the squared deviations behind one more finite value.
    pub accumulate: H,
}

impl<
    F: Fn(&str) -> Option<u64>,
    G: Fn(u64) -> u64,
    H: Fn(Moments, u64) -> Moments,
> Numeric<F, G, H> {
    /// The functions take every argument, and give one answer for it.
    pub open spec fn ok(self) -> bool {
        &&& reader_total(self.number)
        &&& forall|text: Seq<char>, a: Option<u64>, b: Option<u64>| #[trigger]
            reads_as(self.number, text, a) && #[trigger] reads_as(self.number, text, b) ==> a == b
        &&& forall|millis: u64| #[trigger] call_requires(self.seconds, (millis,))
        &&& forall|millis: u64, a: u64, b: u64| #[trigger]
            call_ensures(self.seconds, (millis,), a) && #[trigger] call_ensures(
                self.seconds,
                (millis,),
                b,
            ) ==> a == b
        &&& forall|moments: Moments, value: u64| #[trigger]
            call_requires(self.accumulate, (moments, value))
        &&& forall|moments: Moments, value: u64, a: Moments, b: Moments| #[trigger]
            call_ensures(self.accumulate, (moments, value), a) && #[trigger] call_ensures(
                self.accumulate,
                (moments, value),
                b,
            ) ==> a == b
    }

    /// How a text reads as a double.
    pub open spec fn read(self, text: Seq<char>) -> Option<u64> {
        choose|out: Option<u64>| #[trigger] reads_as(self.number, text, out)
    }

    /// The seconds of milliseconds.
    pub open spec fn secs(self, millis: u64) -> u64 {
        choose|out: u64| #[trigger] call_ensures(self.seconds, (millis,), out)
    }

    /// The moments behind one more finite value: one more counted, the rest
    /// as `accumulate` gives it.
    pub open spec fn push(self, moments: Moments, value: u64) -> Moments {
        (choose|out: Moments| #[trigger]
            call_ensures(self.accumulate, (moments, value), out)).numbering(counted(moments.count))
    }

    /// A possible reading is the reading.
    pub proof fn lemma_read(self, text: Seq<char>, out: Option<u64>)
        requires
            self.ok(),
            reads_as(self.number, text, out),
        ensures
            self.read(text) == out,
    {
        assert(reads_as(self.number, text, self.read(text)));
    }

    /// A possible answer in seconds is the answer.
    pub proof fn lemma_secs(self, millis: u64, out: u64)
        requires
            self.ok(),
            call_ensures(self.seconds, (millis,), out),
        ensures
            self.secs(millis) == out,
    {
        assert(call_ensures(self.seconds, (millis,), self.secs(millis)));
    }

    /// Accumulates one finite value.
    pub fn accumulated(&self, moments: Moments, value: u64) -> (next: Moments)
        requires
            self.ok(),
        ensures
            next == self.push(moments, value),
    {
        let next = (self.accumulate)(moments, value);
        assert(call_ensures(self.accumulate, (moments, value), next));
        Moments { count: count_up(moments.count), mean: next.mean, m2: next.m2 }
    }
}

/// `text` is what a number may be written as.
pub open spec fn writes_as<P: Fn(u64) -> String>(show: P, bits: u64, text: Seq<char>) -> bool {
    exists|out: String| out@ == text && #[trigger] call_ensures(show, (bits,), out)
}

/// How numbers are read from text and written as text: the shortest decimal
/// that reads back as the number, never in scientific notation.
pub struct Wording<F, P> {
    /// Reads a text as a double.
    pub number: F,
    /// Writes a double as text.
    pub show: P,
}

impl<F: Fn(&str) -> Option<u64>, P: Fn(u64) -> String> Wording<F, P> {
    /// The functions take every argument, and give one answer for it.
    pub open spec fn ok(self) -> bool {
        &&& reader_total(self.number)
        &&& forall|text: Seq<char>, a: Option<u64>, b: Option<u64>| #[trigger]
            reads_as(self.number, text, a) && #[trigger] reads_as(self.number, text, b) ==> a == b
        &&& forall|bits: u64| #[trigger] call_requires(self.show, (bits,))
        &&& forall|bits: u64, a: Seq<char>, b: Seq<char>| #[trigger]
            writes_as(self.show, bits, a) && #[trigger] writes_as(self.show, bits, b) ==> a == b
    }

    /// How a text reads as a double.
    pub open spec fn read(self, text: Seq<char>) -> Option<u64> {
        choose|out: Option<u64>| #[trigger] reads_as(self.number, text, out)
    }

    /// What a double is written as.
    pub open spec fn written(self, bits: u64) -> Seq<char> {
        choose|text: Seq<char>| #[trigger] writes_as(self.show, bits, text)
    }

    /// Reads a text as a double.
    pub fn parse(&self, text: &str) -> (out: Option<u64>)
        requires
            self.ok(),
        ensures
            out == self.read(text@),
    {
        let out = (self.number)(text);
        assert(reads_as(self.number, text@, out));
        assert(reads_as(self.number, text@, self.read(text@)));
        out
    }

    /// Writes a double as text.
    pub fn write(&self, bits: u64) -> (text: String)
        requires
            self.ok(),
        ensures
            text@ == self.written(bits),
    {
        let text = (self.show)(bits);
        assert(writes_as(self.show, bits, text@));
        assert(writes_as(self.show, bits, self.written(bits)));
        text
    }
}

} // verus!
