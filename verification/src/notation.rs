//! Floating-point numbers as a report writes them, and the arithmetic a report does on the way.

use crate::ieee::{Double, Single};
use crate::reals::Reals;
use vstd::prelude::*;

verus! {

/// What a report asks of numbers.
pub trait Notation {
    /// The arithmetic is defined everywhere and repeats itself.
    spec fn repeatable(&self) -> bool;

    spec fn fixed_of(&self, x: Double, digits: u8) -> Seq<char>;

    spec fn signed_of(&self, x: Double, digits: u8) -> Seq<char>;

    spec fn exponent_of(&self, x: Double, digits: u8) -> Seq<char>;

    spec fn plain_of(&self, x: Double) -> Seq<char>;

    spec fn plain_single_of(&self, x: Single) -> Seq<char>;

    spec fn widen_of(&self, x: Single) -> Double;

    spec fn count_of(&self, n: usize) -> Double;

    spec fn count_single_of(&self, n: usize) -> Single;

    spec fn position_of(&self, n: i128) -> Double;

    spec fn plus_of(&self, a: Double, b: Double) -> Double;

    spec fn minus_of(&self, a: Double, b: Double) -> Double;

    spec fn times_of(&self, a: Double, b: Double) -> Double;

    spec fn over_of(&self, a: Double, b: Double) -> Double;

    spec fn minus_single_of(&self, a: Single, b: Single) -> Single;

    spec fn times_single_of(&self, a: Single, b: Single) -> Single;

    spec fn over_single_of(&self, a: Single, b: Single) -> Single;

    spec fn nearest_of(&self, x: Double) -> usize;

    spec fn whole_single_of(&self, x: Single) -> u32;

    /// A number in decimal, to so many digits after the point.
    fn fixed(&self, x: Double, digits: u8) -> (r: String)
        requires
            self.repeatable(),
        ensures
            r@ == self.fixed_of(x, digits),
    ;

    /// As [`Notation::fixed`], with the sign always written.
    fn signed(&self, x: Double, digits: u8) -> (r: String)
        requires
            self.repeatable(),
        ensures
            r@ == self.signed_of(x, digits),
    ;

    /// A number in scientific notation, to so many digits after the point.
    fn exponent(&self, x: Double, digits: u8) -> (r: String)
        requires
            self.repeatable(),
        ensures
            r@ == self.exponent_of(x, digits),
    ;

    /// A number in the shortest decimal that reads back as itself.
    fn plain(&self, x: Double) -> (r: String)
        requires
            self.repeatable(),
        ensures
            r@ == self.plain_of(x),
    ;

    /// A number in the shortest decimal that reads back as itself.
    fn plain_single(&self, x: Single) -> (r: String)
        requires
            self.repeatable(),
        ensures
            r@ == self.plain_single_of(x),
    ;

    /// A single as a double.
    fn widen(&self, x: Single) -> (r: Double)
        requires
            self.repeatable(),
        ensures
            r == self.widen_of(x),
    ;

    /// A count as a double.
    fn count(&self, n: usize) -> (r: Double)
        requires
            self.repeatable(),
        ensures
            r == self.count_of(n),
    ;

    /// A count as a single.
    fn count_single(&self, n: usize) -> (r: Single)
        requires
            self.repeatable(),
        ensures
            r == self.count_single_of(n),
    ;

    /// A sample position as a double.
    fn position(&self, n: i128) -> (r: Double)
        requires
            self.repeatable(),
        ensures
            r == self.position_of(n),
    ;

    /// `a + b`.
    fn plus(&self, a: Double, b: Double) -> (r: Double)
        requires
            self.repeatable(),
        ensures
            r == self.plus_of(a, b),
    ;

    /// `a - b`.
    fn minus(&self, a: Double, b: Double) -> (r: Double)
        requires
            self.repeatable(),
        ensures
            r == self.minus_of(a, b),
    ;

    /// `a * b`.
    fn times(&self, a: Double, b: Double) -> (r: Double)
        requires
            self.repeatable(),
        ensures
            r == self.times_of(a, b),
    ;

    /// `a / b`.
    fn over(&self, a: Double, b: Double) -> (r: Double)
        requires
            self.repeatable(),
        ensures
            r == self.over_of(a, b),
    ;

    /// `a - b`.
    fn minus_single(&self, a: Single, b: Single) -> (r: Single)
        requires
            self.repeatable(),
        ensures
            r == self.minus_single_of(a, b),
    ;

    /// `a * b`.
    fn times_single(&self, a: Single, b: Single) -> (r: Single)
        requires
            self.repeatable(),
        ensures
            r == self.times_single_of(a, b),
    ;

    /// `a / b`.
    fn over_single(&self, a: Single, b: Single) -> (r: Single)
        requires
            self.repeatable(),
        ensures
            r == self.over_single_of(a, b),
    ;

    /// The nearest whole number.
    fn nearest(&self, x: Double) -> (r: usize)
        requires
            self.repeatable(),
        ensures
            r == self.nearest_of(x),
    ;

    /// A number's whole part.
    fn whole_single(&self, x: Single) -> (r: u32)
        requires
            self.repeatable(),
        ensures
            r == self.whole_single_of(x),
    ;

}

/// [`Notation`] over elementary arithmetic.
pub struct Written<R> {
    pub reals: R,
}

impl<R: Reals> Notation for Written<R> {
    open spec fn repeatable(&self) -> bool {
        self.reals.repeatable()
    }

    open spec fn fixed_of(&self, x: Double, digits: u8) -> Seq<char> {
        let r = &self.reals;
        r.fixed_of(x, digits)
    }

    fn fixed(&self, x: Double, digits: u8) -> (answer: String) {
        let r = &self.reals;
        r.fixed(x, digits)
    }

    open spec fn signed_of(&self, x: Double, digits: u8) -> Seq<char> {
        let r = &self.reals;
        r.signed_of(x, digits)
    }

    fn signed(&self, x: Double, digits: u8) -> (answer: String) {
        let r = &self.reals;
        r.signed(x, digits)
    }

    open spec fn exponent_of(&self, x: Double, digits: u8) -> Seq<char> {
        let r = &self.reals;
        r.exponent_of(x, digits)
    }

    fn exponent(&self, x: Double, digits: u8) -> (answer: String) {
        let r = &self.reals;
        r.exponent(x, digits)
    }

    open spec fn plain_of(&self, x: Double) -> Seq<char> {
        let r = &self.reals;
        r.plain_of(x)
    }

    fn plain(&self, x: Double) -> (answer: String) {
        let r = &self.reals;
        r.plain(x)
    }

    open spec fn plain_single_of(&self, x: Single) -> Seq<char> {
        let r = &self.reals;
        r.plain_single_of(x)
    }

    fn plain_single(&self, x: Single) -> (answer: String) {
        let r = &self.reals;
        r.plain_single(x)
    }

    open spec fn widen_of(&self, x: Single) -> Double {
        let r = &self.reals;
        r.widen_of(x)
    }

    fn widen(&self, x: Single) -> (answer: Double) {
        let r = &self.reals;
        r.widen(x)
    }

    open spec fn count_of(&self, n: usize) -> Double {
        let r = &self.reals;
        r.count_of(n)
    }

    fn count(&self, n: usize) -> (answer: Double) {
        let r = &self.reals;
        r.count(n)
    }

    open spec fn count_single_of(&self, n: usize) -> Single {
        let r = &self.reals;
        r.count_single_of(n)
    }

    fn count_single(&self, n: usize) -> (answer: Single) {
        let r = &self.reals;
        r.count_single(n)
    }

    open spec fn position_of(&self, n: i128) -> Double {
        let r = &self.reals;
        r.long_of(n)
    }

    fn position(&self, n: i128) -> (answer: Double) {
        let r = &self.reals;
        r.long(n)
    }

    open spec fn plus_of(&self, a: Double, b: Double) -> Double {
        let r = &self.reals;
        r.plus_of(a, b)
    }

    fn plus(&self, a: Double, b: Double) -> (answer: Double) {
        let r = &self.reals;
        r.plus(a, b)
    }

    open spec fn minus_of(&self, a: Double, b: Double) -> Double {
        let r = &self.reals;
        r.minus_of(a, b)
    }

    fn minus(&self, a: Double, b: Double) -> (answer: Double) {
        let r = &self.reals;
        r.minus(a, b)
    }

    open spec fn times_of(&self, a: Double, b: Double) -> Double {
        let r = &self.reals;
        r.times_of(a, b)
    }

    fn times(&self, a: Double, b: Double) -> (answer: Double) {
        let r = &self.reals;
        r.times(a, b)
    }

    open spec fn over_of(&self, a: Double, b: Double) -> Double {
        let r = &self.reals;
        r.over_of(a, b)
    }

    fn over(&self, a: Double, b: Double) -> (answer: Double) {
        let r = &self.reals;
        r.over(a, b)
    }

    open spec fn minus_single_of(&self, a: Single, b: Single) -> Single {
        let r = &self.reals;
        r.minus_single_of(a, b)
    }

    fn minus_single(&self, a: Single, b: Single) -> (answer: Single) {
        let r = &self.reals;
        r.minus_single(a, b)
    }

    open spec fn times_single_of(&self, a: Single, b: Single) -> Single {
        let r = &self.reals;
        r.times_single_of(a, b)
    }

    fn times_single(&self, a: Single, b: Single) -> (answer: Single) {
        let r = &self.reals;
        r.times_single(a, b)
    }

    open spec fn over_single_of(&self, a: Single, b: Single) -> Single {
        let r = &self.reals;
        r.over_single_of(a, b)
    }

    fn over_single(&self, a: Single, b: Single) -> (answer: Single) {
        let r = &self.reals;
        r.over_single(a, b)
    }

    open spec fn nearest_of(&self, x: Double) -> usize {
        let r = &self.reals;
        r.whole_of(r.round_of(x))
    }

    fn nearest(&self, x: Double) -> (answer: usize) {
        let r = &self.reals;
        r.whole(r.round(x))
    }

    open spec fn whole_single_of(&self, x: Single) -> u32 {
        let r = &self.reals;
        r.word_single_of(x)
    }

    fn whole_single(&self, x: Single) -> (answer: u32) {
        let r = &self.reals;
        r.word_single(x)
    }

}

} // verus!
