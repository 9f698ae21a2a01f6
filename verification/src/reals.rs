//! Elementary floating-point arithmetic.
//!
//! Every formula of the library is written out over these operations. The operations themselves are
//! the machine's, and are handed in as functions, each of which must be one: given the same bits it
//! answers with the same bits.

use crate::ieee::{Double, Single};
use vstd::prelude::*;

verus! {


/// The operations.
pub trait Reals {
    /// The arithmetic is defined everywhere and repeats itself.
    spec fn repeatable(&self) -> bool;

    spec fn plus_of(&self, a: Double, b: Double) -> Double;

    spec fn minus_of(&self, a: Double, b: Double) -> Double;

    spec fn times_of(&self, a: Double, b: Double) -> Double;

    spec fn over_of(&self, a: Double, b: Double) -> Double;

    spec fn root_of(&self, x: Double) -> Double;

    spec fn exp_of(&self, x: Double) -> Double;

    spec fn ln_of(&self, x: Double) -> Double;

    spec fn log10_of(&self, x: Double) -> Double;

    spec fn power_of(&self, a: Double, b: Double) -> Double;

    spec fn sine_of(&self, x: Double) -> Double;

    spec fn cosine_of(&self, x: Double) -> Double;

    spec fn hypot_of(&self, a: Double, b: Double) -> Double;

    spec fn angle_of(&self, y: Double, x: Double) -> Double;

    spec fn floor_of(&self, x: Double) -> Double;

    spec fn ceil_of(&self, x: Double) -> Double;

    spec fn round_of(&self, x: Double) -> Double;

    spec fn widen_of(&self, x: Single) -> Double;

    spec fn narrow_of(&self, x: Double) -> Single;

    spec fn count_of(&self, n: usize) -> Double;

    spec fn long_of(&self, n: i128) -> Double;

    spec fn huge_of(&self, n: u128) -> Double;

    spec fn whole_of(&self, x: Double) -> usize;

    spec fn integer_of(&self, x: Double) -> i64;

    spec fn byte_of(&self, x: Double) -> u8;

    spec fn plus_single_of(&self, a: Single, b: Single) -> Single;

    spec fn minus_single_of(&self, a: Single, b: Single) -> Single;

    spec fn times_single_of(&self, a: Single, b: Single) -> Single;

    spec fn over_single_of(&self, a: Single, b: Single) -> Single;

    spec fn root_single_of(&self, x: Single) -> Single;

    spec fn exp_single_of(&self, x: Single) -> Single;

    spec fn ln_single_of(&self, x: Single) -> Single;

    spec fn floor_single_of(&self, x: Single) -> Single;

    spec fn ceil_single_of(&self, x: Single) -> Single;

    spec fn round_single_of(&self, x: Single) -> Single;

    spec fn count_single_of(&self, n: usize) -> Single;

    spec fn long_single_of(&self, n: i128) -> Single;

    spec fn whole_single_of(&self, x: Single) -> usize;

    spec fn word_single_of(&self, x: Single) -> u32;

    spec fn fixed_of(&self, x: Double, digits: u8) -> Seq<char>;

    spec fn signed_of(&self, x: Double, digits: u8) -> Seq<char>;

    spec fn exponent_of(&self, x: Double, digits: u8) -> Seq<char>;

    spec fn plain_of(&self, x: Double) -> Seq<char>;

    spec fn plain_single_of(&self, x: Single) -> Seq<char>;

    /// `a + b`.
    fn plus(&self, a: Double, b: Double) -> (r: Double)
        requires
            self.repeatable(),
        ensures
            r == self.plus_of(a, b),
    ;

    /// `a - b`.
    fn minus(&self, a: Double, b: Double) -> (r: Double)
        requires
            self.repeatable(),
        ensures
            r == self.minus_of(a, b),
    ;

    /// `a * b`.
    fn times(&self, a: Double, b: Double) -> (r: Double)
        requires
            self.repeatable(),
        ensures
            r == self.times_of(a, b),
    ;

    /// `a / b`.
    fn over(&self, a: Double, b: Double) -> (r: Double)
        requires
            self.repeatable(),
        ensures
            r == self.over_of(a, b),
    ;

    /// The square root.
    fn root(&self, x: Double) -> (r: Double)
        requires
            self.repeatable(),
        ensures
            r == self.root_of(x),
    ;

    /// `e` to the `x`.
    fn exp(&self, x: Double) -> (r: Double)
        requires
            self.repeatable(),
        ensures
            r == self.exp_of(x),
    ;

    /// The natural logarithm.
    fn ln(&self, x: Double) -> (r: Double)
        requires
            self.repeatable(),
        ensures
            r == self.ln_of(x),
    ;

    /// The decimal logarithm.
    fn log10(&self, x: Double) -> (r: Double)
        requires
            self.repeatable(),
        ensures
            r == self.log10_of(x),
    ;

    /// `a` to the `b`.
    fn power(&self, a: Double, b: Double) -> (r: Double)
        requires
            self.repeatable(),
        ensures
            r == self.power_of(a, b),
    ;

    /// The sine of an angle in radians.
    fn sine(&self, x: Double) -> (r: Double)
        requires
            self.repeatable(),
        ensures
            r == self.sine_of(x),
    ;

    /// The cosine of an angle in radians.
    fn cosine(&self, x: Double) -> (r: Double)
        requires
            self.repeatable(),
        ensures
            r == self.cosine_of(x),
    ;

    /// The hypotenuse over two legs.
    fn hypot(&self, a: Double, b: Double) -> (r: Double)
        requires
            self.repeatable(),
        ensures
            r == self.hypot_of(a, b),
    ;

    /// The angle of a point from the first axis, radians.
    fn angle(&self, y: Double, x: Double) -> (r: Double)
        requires
            self.repeatable(),
        ensures
            r == self.angle_of(y, x),
    ;

    /// The nearest whole number not above.
    fn floor(&self, x: Double) -> (r: Double)
        requires
            self.repeatable(),
        ensures
            r == self.floor_of(x),
    ;

    /// The nearest whole number not below.
    fn ceil(&self, x: Double) -> (r: Double)
        requires
            self.repeatable(),
        ensures
            r == self.ceil_of(x),
    ;

    /// The nearest whole number, halves away from zero.
    fn round(&self, x: Double) -> (r: Double)
        requires
            self.repeatable(),
        ensures
            r == self.round_of(x),
    ;

    /// A single as a double.
    fn widen(&self, x: Single) -> (r: Double)
        requires
            self.repeatable(),
        ensures
            r == self.widen_of(x),
    ;

    /// A double rounded to a single.
    fn narrow(&self, x: Double) -> (r: Single)
        requires
            self.repeatable(),
        ensures
            r == self.narrow_of(x),
    ;

    /// A count as a double.
    fn count(&self, n: usize) -> (r: Double)
        requires
            self.repeatable(),
        ensures
            r == self.count_of(n),
    ;

    /// A whole number as a double.
    fn long(&self, n: i128) -> (r: Double)
        requires
            self.repeatable(),
        ensures
            r == self.long_of(n),
    ;

    /// A whole number as a double.
    fn huge(&self, n: u128) -> (r: Double)
        requires
            self.repeatable(),
        ensures
            r == self.huge_of(n),
    ;

    /// A number's whole part, held to the range of a count.
    fn whole(&self, x: Double) -> (r: usize)
        requires
            self.repeatable(),
        ensures
            r == self.whole_of(x),
    ;

    /// A number's whole part, held to the range of an integer.
    fn integer(&self, x: Double) -> (r: i64)
        requires
            self.repeatable(),
        ensures
            r == self.integer_of(x),
    ;

    /// A number's whole part, held to the range of a byte.
    fn byte(&self, x: Double) -> (r: u8)
        requires
            self.repeatable(),
        ensures
            r == self.byte_of(x),
    ;

    /// `a + b`.
    fn plus_single(&self, a: Single, b: Single) -> (r: Single)
        requires
            self.repeatable(),
        ensures
            r == self.plus_single_of(a, b),
    ;

    /// `a - b`.
    fn minus_single(&self, a: Single, b: Single) -> (r: Single)
        requires
            self.repeatable(),
        ensures
            r == self.minus_single_of(a, b),
    ;

    /// `a * b`.
    fn times_single(&self, a: Single, b: Single) -> (r: Single)
        requires
            self.repeatable(),
        ensures
            r == self.times_single_of(a, b),
    ;

    /// `a / b`.
    fn over_single(&self, a: Single, b: Single) -> (r: Single)
        requires
            self.repeatable(),
        ensures
            r == self.over_single_of(a, b),
    ;

    /// The square root.
    fn root_single(&self, x: Single) -> (r: Single)
        requires
            self.repeatable(),
        ensures
            r == self.root_single_of(x),
    ;

    /// `e` to the `x`.
    fn exp_single(&self, x: Single) -> (r: Single)
        requires
            self.repeatable(),
        ensures
            r == self.exp_single_of(x),
    ;

    /// The natural logarithm.
    fn ln_single(&self, x: Single) -> (r: Single)
        requires
            self.repeatable(),
        ensures
            r == self.ln_single_of(x),
    ;

    /// The nearest whole number not above.
    fn floor_single(&self, x: Single) -> (r: Single)
        requires
            self.repeatable(),
        ensures
            r == self.floor_single_of(x),
    ;

    /// The nearest whole number not below.
    fn ceil_single(&self, x: Single) -> (r: Single)
        requires
            self.repeatable(),
        ensures
            r == self.ceil_single_of(x),
    ;

    /// The nearest whole number, halves away from zero.
    fn round_single(&self, x: Single) -> (r: Single)
        requires
            self.repeatable(),
        ensures
            r == self.round_single_of(x),
    ;

    /// A count as a single.
    fn count_single(&self, n: usize) -> (r: Single)
        requires
            self.repeatable(),
        ensures
            r == self.count_single_of(n),
    ;

    /// A whole number as a single.
    fn long_single(&self, n: i128) -> (r: Single)
        requires
            self.repeatable(),
        ensures
            r == self.long_single_of(n),
    ;

    /// A number's whole part, held to the range of a count.
    fn whole_single(&self, x: Single) -> (r: usize)
        requires
            self.repeatable(),
        ensures
            r == self.whole_single_of(x),
    ;

    /// A number's whole part, held to the range of a word.
    fn word_single(&self, x: Single) -> (r: u32)
        requires
            self.repeatable(),
        ensures
            r == self.word_single_of(x),
    ;

    /// A number in decimal, to so many digits after the point.
    fn fixed(&self, x: Double, digits: u8) -> (r: String)
        requires
            self.repeatable(),
        ensures
            r@ == self.fixed_of(x, digits),
    ;

    /// As [`Reals::fixed`], with the sign always written.
    fn signed(&self, x: Double, digits: u8) -> (r: String)
        requires
            self.repeatable(),
        ensures
            r@ == self.signed_of(x, digits),
    ;

    /// A number in scientific notation, to so many digits after the point.
    fn exponent(&self, x: Double, digits: u8) -> (r: String)
        requires
            self.repeatable(),
        ensures
            r@ == self.exponent_of(x, digits),
    ;

    /// A number in the shortest decimal that reads back as itself.
    fn plain(&self, x: Double) -> (r: String)
        requires
            self.repeatable(),
        ensures
            r@ == self.plain_of(x),
    ;

    /// A number in the shortest decimal that reads back as itself.
    fn plain_single(&self, x: Single) -> (r: String)
        requires
            self.repeatable(),
        ensures
            r@ == self.plain_single_of(x),
    ;

}

/// [`Reals`] out of a function to a formula.
pub struct Elementary<
    PlusFn,
    MinusFn,
    TimesFn,
    OverFn,
    RootFn,
    ExpFn,
    LnFn,
    Log10Fn,
    PowerFn,
    SineFn,
    CosineFn,
    HypotFn,
    AngleFn,
    FloorFn,
    CeilFn,
    RoundFn,
    WidenFn,
    NarrowFn,
    CountFn,
    LongFn,
    HugeFn,
    WholeFn,
    IntegerFn,
    ByteFn,
    PlusSingleFn,
    MinusSingleFn,
    TimesSingleFn,
    OverSingleFn,
    RootSingleFn,
    ExpSingleFn,
    LnSingleFn,
    FloorSingleFn,
    CeilSingleFn,
    RoundSingleFn,
    CountSingleFn,
    LongSingleFn,
    WholeSingleFn,
    WordSingleFn,
    FixedFn,
    SignedFn,
    ExponentFn,
    PlainFn,
    PlainSingleFn,
> {
    pub plus: PlusFn,
    pub minus: MinusFn,
    pub times: TimesFn,
    pub over: OverFn,
    pub root: RootFn,
    pub exp: ExpFn,
    pub ln: LnFn,
    pub log10: Log10Fn,
    pub power: PowerFn,
    pub sine: SineFn,
    pub cosine: CosineFn,
    pub hypot: HypotFn,
    pub angle: AngleFn,
    pub floor: FloorFn,
    pub ceil: CeilFn,
    pub round: RoundFn,
    pub widen: WidenFn,
    pub narrow: NarrowFn,
    pub count: CountFn,
    pub long: LongFn,
    pub huge: HugeFn,
    pub whole: WholeFn,
    pub integer: IntegerFn,
    pub byte: ByteFn,
    pub plus_single: PlusSingleFn,
    pub minus_single: MinusSingleFn,
    pub times_single: TimesSingleFn,
    pub over_single: OverSingleFn,
    pub root_single: RootSingleFn,
    pub exp_single: ExpSingleFn,
    pub ln_single: LnSingleFn,
    pub floor_single: FloorSingleFn,
    pub ceil_single: CeilSingleFn,
    pub round_single: RoundSingleFn,
    pub count_single: CountSingleFn,
    pub long_single: LongSingleFn,
    pub whole_single: WholeSingleFn,
    pub word_single: WordSingleFn,
    pub fixed: FixedFn,
    pub signed: SignedFn,
    pub exponent: ExponentFn,
    pub plain: PlainFn,
    pub plain_single: PlainSingleFn,
}

impl<
    PlusFn,
    MinusFn,
    TimesFn,
    OverFn,
    RootFn,
    ExpFn,
    LnFn,
    Log10Fn,
    PowerFn,
    SineFn,
    CosineFn,
    HypotFn,
    AngleFn,
    FloorFn,
    CeilFn,
    RoundFn,
    WidenFn,
    NarrowFn,
    CountFn,
    LongFn,
    HugeFn,
    WholeFn,
    IntegerFn,
    ByteFn,
    PlusSingleFn,
    MinusSingleFn,
    TimesSingleFn,
    OverSingleFn,
    RootSingleFn,
    ExpSingleFn,
    LnSingleFn,
    FloorSingleFn,
    CeilSingleFn,
    RoundSingleFn,
    CountSingleFn,
    LongSingleFn,
    WholeSingleFn,
    WordSingleFn,
    FixedFn,
    SignedFn,
    ExponentFn,
    PlainFn,
    PlainSingleFn,
> Reals for Elementary<
    PlusFn,
    MinusFn,
    TimesFn,
    OverFn,
    RootFn,
    ExpFn,
    LnFn,
    Log10Fn,
    PowerFn,
    SineFn,
    CosineFn,
    HypotFn,
    AngleFn,
    FloorFn,
    CeilFn,
    RoundFn,
    WidenFn,
    NarrowFn,
    CountFn,
    LongFn,
    HugeFn,
    WholeFn,
    IntegerFn,
    ByteFn,
    PlusSingleFn,
    MinusSingleFn,
    TimesSingleFn,
    OverSingleFn,
    RootSingleFn,
    ExpSingleFn,
    LnSingleFn,
    FloorSingleFn,
    CeilSingleFn,
    RoundSingleFn,
    CountSingleFn,
    LongSingleFn,
    WholeSingleFn,
    WordSingleFn,
    FixedFn,
    SignedFn,
    ExponentFn,
    PlainFn,
    PlainSingleFn,
> where
    PlusFn: Fn(Double, Double) -> Double,
    MinusFn: Fn(Double, Double) -> Double,
    TimesFn: Fn(Double, Double) -> Double,
    OverFn: Fn(Double, Double) -> Double,
    RootFn: Fn(Double) -> Double,
    ExpFn: Fn(Double) -> Double,
    LnFn: Fn(Double) -> Double,
    Log10Fn: Fn(Double) -> Double,
    PowerFn: Fn(Double, Double) -> Double,
    SineFn: Fn(Double) -> Double,
    CosineFn: Fn(Double) -> Double,
    HypotFn: Fn(Double, Double) -> Double,
    AngleFn: Fn(Double, Double) -> Double,
    FloorFn: Fn(Double) -> Double,
    CeilFn: Fn(Double) -> Double,
    RoundFn: Fn(Double) -> Double,
    WidenFn: Fn(Single) -> Double,
    NarrowFn: Fn(Double) -> Single,
    CountFn: Fn(usize) -> Double,
    LongFn: Fn(i128) -> Double,
    HugeFn: Fn(u128) -> Double,
    WholeFn: Fn(Double) -> usize,
    IntegerFn: Fn(Double) -> i64,
    ByteFn: Fn(Double) -> u8,
    PlusSingleFn: Fn(Single, Single) -> Single,
    MinusSingleFn: Fn(Single, Single) -> Single,
    TimesSingleFn: Fn(Single, Single) -> Single,
    OverSingleFn: Fn(Single, Single) -> Single,
    RootSingleFn: Fn(Single) -> Single,
    ExpSingleFn: Fn(Single) -> Single,
    LnSingleFn: Fn(Single) -> Single,
    FloorSingleFn: Fn(Single) -> Single,
    CeilSingleFn: Fn(Single) -> Single,
    RoundSingleFn: Fn(Single) -> Single,
    CountSingleFn: Fn(usize) -> Single,
    LongSingleFn: Fn(i128) -> Single,
    WholeSingleFn: Fn(Single) -> usize,
    WordSingleFn: Fn(Single) -> u32,
    FixedFn: Fn(Double, u8) -> String,
    SignedFn: Fn(Double, u8) -> String,
    ExponentFn: Fn(Double, u8) -> String,
    PlainFn: Fn(Double) -> String,
    PlainSingleFn: Fn(Single) -> String,
{
    open spec fn repeatable(&self) -> bool {
        &&& forall|a: Double, b: Double| #[trigger] call_requires(self.plus, (a, b))
        &&& forall|a: Double, b: Double, first: Double, second: Double| #[trigger]
            call_ensures(self.plus, (a, b), first) && #[trigger] call_ensures(
                self.plus,
                (a, b),
                second,
            ) ==> first == second
        &&& forall|a: Double, b: Double| #[trigger] call_requires(self.minus, (a, b))
        &&& forall|a: Double, b: Double, first: Double, second: Double| #[trigger]
            call_ensures(self.minus, (a, b), first) && #[trigger] call_ensures(
                self.minus,
                (a, b),
                second,
            ) ==> first == second
        &&& forall|a: Double, b: Double| #[trigger] call_requires(self.times, (a, b))
        &&& forall|a: Double, b: Double, first: Double, second: Double| #[trigger]
            call_ensures(self.times, (a, b), first) && #[trigger] call_ensures(
                self.times,
                (a, b),
                second,
            ) ==> first == second
        &&& forall|a: Double, b: Double| #[trigger] call_requires(self.over, (a, b))
        &&& forall|a: Double, b: Double, first: Double, second: Double| #[trigger]
            call_ensures(self.over, (a, b), first) && #[trigger] call_ensures(
                self.over,
                (a, b),
                second,
            ) ==> first == second
        &&& forall|x: Double| #[trigger] call_requires(self.root, (x,))
        &&& forall|x: Double, first: Double, second: Double| #[trigger]
            call_ensures(self.root, (x,), first) && #[trigger] call_ensures(
                self.root,
                (x,),
                second,
            ) ==> first == second
        &&& forall|x: Double| #[trigger] call_requires(self.exp, (x,))
        &&& forall|x: Double, first: Double, second: Double| #[trigger]
            call_ensures(self.exp, (x,), first) && #[trigger] call_ensures(
                self.exp,
                (x,),
                second,
            ) ==> first == second
        &&& forall|x: Double| #[trigger] call_requires(self.ln, (x,))
        &&& forall|x: Double, first: Double, second: Double| #[trigger]
            call_ensures(self.ln, (x,), first) && #[trigger] call_ensures(
                self.ln,
                (x,),
                second,
            ) ==> first == second
        &&& forall|x: Double| #[trigger] call_requires(self.log10, (x,))
        &&& forall|x: Double, first: Double, second: Double| #[trigger]
            call_ensures(self.log10, (x,), first) && #[trigger] call_ensures(
                self.log10,
                (x,),
                second,
            ) ==> first == second
        &&& forall|a: Double, b: Double| #[trigger] call_requires(self.power, (a, b))
        &&& forall|a: Double, b: Double, first: Double, second: Double| #[trigger]
            call_ensures(self.power, (a, b), first) && #[trigger] call_ensures(
                self.power,
                (a, b),
                second,
            ) ==> first == second
        &&& forall|x: Double| #[trigger] call_requires(self.sine, (x,))
        &&& forall|x: Double, first: Double, second: Double| #[trigger]
            call_ensures(self.sine, (x,), first) && #[trigger] call_ensures(
                self.sine,
                (x,),
                second,
            ) ==> first == second
        &&& forall|x: Double| #[trigger] call_requires(self.cosine, (x,))
        &&& forall|x: Double, first: Double, second: Double| #[trigger]
            call_ensures(self.cosine, (x,), first) && #[trigger] call_ensures(
                self.cosine,
                (x,),
                second,
            ) ==> first == second
        &&& forall|a: Double, b: Double| #[trigger] call_requires(self.hypot, (a, b))
        &&& forall|a: Double, b: Double, first: Double, second: Double| #[trigger]
            call_ensures(self.hypot, (a, b), first) && #[trigger] call_ensures(
                self.hypot,
                (a, b),
                second,
            ) ==> first == second
        &&& forall|y: Double, x: Double| #[trigger] call_requires(self.angle, (y, x))
        &&& forall|y: Double, x: Double, first: Double, second: Double| #[trigger]
            call_ensures(self.angle, (y, x), first) && #[trigger] call_ensures(
                self.angle,
                (y, x),
                second,
            ) ==> first == second
        &&& forall|x: Double| #[trigger] call_requires(self.floor, (x,))
        &&& forall|x: Double, first: Double, second: Double| #[trigger]
            call_ensures(self.floor, (x,), first) && #[trigger] call_ensures(
                self.floor,
                (x,),
                second,
            ) ==> first == second
        &&& forall|x: Double| #[trigger] call_requires(self.ceil, (x,))
        &&& forall|x: Double, first: Double, second: Double| #[trigger]
            call_ensures(self.ceil, (x,), first) && #[trigger] call_ensures(
                self.ceil,
                (x,),
                second,
            ) ==> first == second
        &&& forall|x: Double| #[trigger] call_requires(self.round, (x,))
        &&& forall|x: Double, first: Double, second: Double| #[trigger]
            call_ensures(self.round, (x,), first) && #[trigger] call_ensures(
                self.round,
                (x,),
                second,
            ) ==> first == second
        &&& forall|x: Single| #[trigger] call_requires(self.widen, (x,))
        &&& forall|x: Single, first: Double, second: Double| #[trigger]
            call_ensures(self.widen, (x,), first) && #[trigger] call_ensures(
                self.widen,
                (x,),
                second,
            ) ==> first == second
        &&& forall|x: Double| #[trigger] call_requires(self.narrow, (x,))
        &&& forall|x: Double, first: Single, second: Single| #[trigger]
            call_ensures(self.narrow, (x,), first) && #[trigger] call_ensures(
                self.narrow,
                (x,),
                second,
            ) ==> first == second
        &&& forall|n: usize| #[trigger] call_requires(self.count, (n,))
        &&& forall|n: usize, first: Double, second: Double| #[trigger]
            call_ensures(self.count, (n,), first) && #[trigger] call_ensures(
                self.count,
                (n,),
                second,
            ) ==> first == second
        &&& forall|n: i128| #[trigger] call_requires(self.long, (n,))
        &&& forall|n: i128, first: Double, second: Double| #[trigger]
            call_ensures(self.long, (n,), first) && #[trigger] call_ensures(
                self.long,
                (n,),
                second,
            ) ==> first == second
        &&& forall|n: u128| #[trigger] call_requires(self.huge, (n,))
        &&& forall|n: u128, first: Double, second: Double| #[trigger]
            call_ensures(self.huge, (n,), first) && #[trigger] call_ensures(
                self.huge,
                (n,),
                second,
            ) ==> first == second
        &&& forall|x: Double| #[trigger] call_requires(self.whole, (x,))
        &&& forall|x: Double, first: usize, second: usize| #[trigger]
            call_ensures(self.whole, (x,), first) && #[trigger] call_ensures(
                self.whole,
                (x,),
                second,
            ) ==> first == second
        &&& forall|x: Double| #[trigger] call_requires(self.integer, (x,))
        &&& forall|x: Double, first: i64, second: i64| #[trigger]
            call_ensures(self.integer, (x,), first) && #[trigger] call_ensures(
                self.integer,
                (x,),
                second,
            ) ==> first == second
        &&& forall|x: Double| #[trigger] call_requires(self.byte, (x,))
        &&& forall|x: Double, first: u8, second: u8| #[trigger]
            call_ensures(self.byte, (x,), first) && #[trigger] call_ensures(
                self.byte,
                (x,),
                second,
            ) ==> first == second
        &&& forall|a: Single, b: Single| #[trigger] call_requires(self.plus_single, (a, b))
        &&& forall|a: Single, b: Single, first: Single, second: Single| #[trigger]
            call_ensures(self.plus_single, (a, b), first) && #[trigger] call_ensures(
                self.plus_single,
                (a, b),
                second,
            ) ==> first == second
        &&& forall|a: Single, b: Single| #[trigger] call_requires(self.minus_single, (a, b))
        &&& forall|a: Single, b: Single, first: Single, second: Single| #[trigger]
            call_ensures(self.minus_single, (a, b), first) && #[trigger] call_ensures(
                self.minus_single,
                (a, b),
                second,
            ) ==> first == second
        &&& forall|a: Single, b: Single| #[trigger] call_requires(self.times_single, (a, b))
        &&& forall|a: Single, b: Single, first: Single, second: Single| #[trigger]
            call_ensures(self.times_single, (a, b), first) && #[trigger] call_ensures(
                self.times_single,
                (a, b),
                second,
            ) ==> first == second
        &&& forall|a: Single, b: Single| #[trigger] call_requires(self.over_single, (a, b))
        &&& forall|a: Single, b: Single, first: Single, second: Single| #[trigger]
            call_ensures(self.over_single, (a, b), first) && #[trigger] call_ensures(
                self.over_single,
                (a, b),
                second,
            ) ==> first == second
        &&& forall|x: Single| #[trigger] call_requires(self.root_single, (x,))
        &&& forall|x: Single, first: Single, second: Single| #[trigger]
            call_ensures(self.root_single, (x,), first) && #[trigger] call_ensures(
                self.root_single,
                (x,),
                second,
            ) ==> first == second
        &&& forall|x: Single| #[trigger] call_requires(self.exp_single, (x,))
        &&& forall|x: Single, first: Single, second: Single| #[trigger]
            call_ensures(self.exp_single, (x,), first) && #[trigger] call_ensures(
                self.exp_single,
                (x,),
                second,
            ) ==> first == second
        &&& forall|x: Single| #[trigger] call_requires(self.ln_single, (x,))
        &&& forall|x: Single, first: Single, second: Single| #[trigger]
            call_ensures(self.ln_single, (x,), first) && #[trigger] call_ensures(
                self.ln_single,
                (x,),
                second,
            ) ==> first == second
        &&& forall|x: Single| #[trigger] call_requires(self.floor_single, (x,))
        &&& forall|x: Single, first: Single, second: Single| #[trigger]
            call_ensures(self.floor_single, (x,), first) && #[trigger] call_ensures(
                self.floor_single,
                (x,),
                second,
            ) ==> first == second
        &&& forall|x: Single| #[trigger] call_requires(self.ceil_single, (x,))
        &&& forall|x: Single, first: Single, second: Single| #[trigger]
            call_ensures(self.ceil_single, (x,), first) && #[trigger] call_ensures(
                self.ceil_single,
                (x,),
                second,
            ) ==> first == second
        &&& forall|x: Single| #[trigger] call_requires(self.round_single, (x,))
        &&& forall|x: Single, first: Single, second: Single| #[trigger]
            call_ensures(self.round_single, (x,), first) && #[trigger] call_ensures(
                self.round_single,
                (x,),
                second,
            ) ==> first == second
        &&& forall|n: usize| #[trigger] call_requires(self.count_single, (n,))
        &&& forall|n: usize, first: Single, second: Single| #[trigger]
            call_ensures(self.count_single, (n,), first) && #[trigger] call_ensures(
                self.count_single,
                (n,),
                second,
            ) ==> first == second
        &&& forall|n: i128| #[trigger] call_requires(self.long_single, (n,))
        &&& forall|n: i128, first: Single, second: Single| #[trigger]
            call_ensures(self.long_single, (n,), first) && #[trigger] call_ensures(
                self.long_single,
                (n,),
                second,
            ) ==> first == second
        &&& forall|x: Single| #[trigger] call_requires(self.whole_single, (x,))
        &&& forall|x: Single, first: usize, second: usize| #[trigger]
            call_ensures(self.whole_single, (x,), first) && #[trigger] call_ensures(
                self.whole_single,
                (x,),
                second,
            ) ==> first == second
        &&& forall|x: Single| #[trigger] call_requires(self.word_single, (x,))
        &&& forall|x: Single, first: u32, second: u32| #[trigger]
            call_ensures(self.word_single, (x,), first) && #[trigger] call_ensures(
                self.word_single,
                (x,),
                second,
            ) ==> first == second
        &&& forall|x: Double, digits: u8| #[trigger] call_requires(self.fixed, (x, digits))
        &&& forall|x: Double, digits: u8, first: String, second: String| #[trigger]
            call_ensures(self.fixed, (x, digits), first) && #[trigger] call_ensures(
                self.fixed,
                (x, digits),
                second,
            ) ==> first@ == second@
        &&& forall|x: Double, digits: u8| #[trigger] call_requires(self.signed, (x, digits))
        &&& forall|x: Double, digits: u8, first: String, second: String| #[trigger]
            call_ensures(self.signed, (x, digits), first) && #[trigger] call_ensures(
                self.signed,
                (x, digits),
                second,
            ) ==> first@ == second@
        &&& forall|x: Double, digits: u8| #[trigger] call_requires(self.exponent, (x, digits))
        &&& forall|x: Double, digits: u8, first: String, second: String| #[trigger]
            call_ensures(self.exponent, (x, digits), first) && #[trigger] call_ensures(
                self.exponent,
                (x, digits),
                second,
            ) ==> first@ == second@
        &&& forall|x: Double| #[trigger] call_requires(self.plain, (x,))
        &&& forall|x: Double, first: String, second: String| #[trigger]
            call_ensures(self.plain, (x,), first) && #[trigger] call_ensures(
                self.plain,
                (x,),
                second,
            ) ==> first@ == second@
        &&& forall|x: Single| #[trigger] call_requires(self.plain_single, (x,))
        &&& forall|x: Single, first: String, second: String| #[trigger]
            call_ensures(self.plain_single, (x,), first) && #[trigger] call_ensures(
                self.plain_single,
                (x,),
                second,
            ) ==> first@ == second@
    }

    open spec fn plus_of(&self, a: Double, b: Double) -> Double {
        choose|r: Double| call_ensures(self.plus, (a, b), r)
    }

    open spec fn minus_of(&self, a: Double, b: Double) -> Double {
        choose|r: Double| call_ensures(self.minus, (a, b), r)
    }

    open spec fn times_of(&self, a: Double, b: Double) -> Double {
        choose|r: Double| call_ensures(self.times, (a, b), r)
    }

    open spec fn over_of(&self, a: Double, b: Double) -> Double {
        choose|r: Double| call_ensures(self.over, (a, b), r)
    }

    open spec fn root_of(&self, x: Double) -> Double {
        choose|r: Double| call_ensures(self.root, (x,), r)
    }

    open spec fn exp_of(&self, x: Double) -> Double {
        choose|r: Double| call_ensures(self.exp, (x,), r)
    }

    open spec fn ln_of(&self, x: Double) -> Double {
        choose|r: Double| call_ensures(self.ln, (x,), r)
    }

    open spec fn log10_of(&self, x: Double) -> Double {
        choose|r: Double| call_ensures(self.log10, (x,), r)
    }

    open spec fn power_of(&self, a: Double, b: Double) -> Double {
        choose|r: Double| call_ensures(self.power, (a, b), r)
    }

    open spec fn sine_of(&self, x: Double) -> Double {
        choose|r: Double| call_ensures(self.sine, (x,), r)
    }

    open spec fn cosine_of(&self, x: Double) -> Double {
        choose|r: Double| call_ensures(self.cosine, (x,), r)
    }

    open spec fn hypot_of(&self, a: Double, b: Double) -> Double {
        choose|r: Double| call_ensures(self.hypot, (a, b), r)
    }

    open spec fn angle_of(&self, y: Double, x: Double) -> Double {
        choose|r: Double| call_ensures(self.angle, (y, x), r)
    }

    open spec fn floor_of(&self, x: Double) -> Double {
        choose|r: Double| call_ensures(self.floor, (x,), r)
    }

    open spec fn ceil_of(&self, x: Double) -> Double {
        choose|r: Double| call_ensures(self.ceil, (x,), r)
    }

    open spec fn round_of(&self, x: Double) -> Double {
        choose|r: Double| call_ensures(self.round, (x,), r)
    }

    open spec fn widen_of(&self, x: Single) -> Double {
        choose|r: Double| call_ensures(self.widen, (x,), r)
    }

    open spec fn narrow_of(&self, x: Double) -> Single {
        choose|r: Single| call_ensures(self.narrow, (x,), r)
    }

    open spec fn count_of(&self, n: usize) -> Double {
        choose|r: Double| call_ensures(self.count, (n,), r)
    }

    open spec fn long_of(&self, n: i128) -> Double {
        choose|r: Double| call_ensures(self.long, (n,), r)
    }

    open spec fn huge_of(&self, n: u128) -> Double {
        choose|r: Double| call_ensures(self.huge, (n,), r)
    }

    open spec fn whole_of(&self, x: Double) -> usize {
        choose|r: usize| call_ensures(self.whole, (x,), r)
    }

    open spec fn integer_of(&self, x: Double) -> i64 {
        choose|r: i64| call_ensures(self.integer, (x,), r)
    }

    open spec fn byte_of(&self, x: Double) -> u8 {
        choose|r: u8| call_ensures(self.byte, (x,), r)
    }

    open spec fn plus_single_of(&self, a: Single, b: Single) -> Single {
        choose|r: Single| call_ensures(self.plus_single, (a, b), r)
    }

    open spec fn minus_single_of(&self, a: Single, b: Single) -> Single {
        choose|r: Single| call_ensures(self.minus_single, (a, b), r)
    }

    open spec fn times_single_of(&self, a: Single, b: Single) -> Single {
        choose|r: Single| call_ensures(self.times_single, (a, b), r)
    }

    open spec fn over_single_of(&self, a: Single, b: Single) -> Single {
        choose|r: Single| call_ensures(self.over_single, (a, b), r)
    }

    open spec fn root_single_of(&self, x: Single) -> Single {
        choose|r: Single| call_ensures(self.root_single, (x,), r)
    }

    open spec fn exp_single_of(&self, x: Single) -> Single {
        choose|r: Single| call_ensures(self.exp_single, (x,), r)
    }

    open spec fn ln_single_of(&self, x: Single) -> Single {
        choose|r: Single| call_ensures(self.ln_single, (x,), r)
    }

    open spec fn floor_single_of(&self, x: Single) -> Single {
        choose|r: Single| call_ensures(self.floor_single, (x,), r)
    }

    open spec fn ceil_single_of(&self, x: Single) -> Single {
        choose|r: Single| call_ensures(self.ceil_single, (x,), r)
    }

    open spec fn round_single_of(&self, x: Single) -> Single {
        choose|r: Single| call_ensures(self.round_single, (x,), r)
    }

    open spec fn count_single_of(&self, n: usize) -> Single {
        choose|r: Single| call_ensures(self.count_single, (n,), r)
    }

    open spec fn long_single_of(&self, n: i128) -> Single {
        choose|r: Single| call_ensures(self.long_single, (n,), r)
    }

    open spec fn whole_single_of(&self, x: Single) -> usize {
        choose|r: usize| call_ensures(self.whole_single, (x,), r)
    }

    open spec fn word_single_of(&self, x: Single) -> u32 {
        choose|r: u32| call_ensures(self.word_single, (x,), r)
    }

    open spec fn fixed_of(&self, x: Double, digits: u8) -> Seq<char> {
        (choose|r: String| call_ensures(self.fixed, (x, digits), r))@
    }

    open spec fn signed_of(&self, x: Double, digits: u8) -> Seq<char> {
        (choose|r: String| call_ensures(self.signed, (x, digits), r))@
    }

    open spec fn exponent_of(&self, x: Double, digits: u8) -> Seq<char> {
        (choose|r: String| call_ensures(self.exponent, (x, digits), r))@
    }

    open spec fn plain_of(&self, x: Double) -> Seq<char> {
        (choose|r: String| call_ensures(self.plain, (x,), r))@
    }

    open spec fn plain_single_of(&self, x: Single) -> Seq<char> {
        (choose|r: String| call_ensures(self.plain_single, (x,), r))@
    }

    fn plus(&self, a: Double, b: Double) -> (r: Double) {
        (self.plus)(a, b)
    }

    fn minus(&self, a: Double, b: Double) -> (r: Double) {
        (self.minus)(a, b)
    }

    fn times(&self, a: Double, b: Double) -> (r: Double) {
        (self.times)(a, b)
    }

    fn over(&self, a: Double, b: Double) -> (r: Double) {
        (self.over)(a, b)
    }

    fn root(&self, x: Double) -> (r: Double) {
        (self.root)(x)
    }

    fn exp(&self, x: Double) -> (r: Double) {
        (self.exp)(x)
    }

    fn ln(&self, x: Double) -> (r: Double) {
        (self.ln)(x)
    }

    fn log10(&self, x: Double) -> (r: Double) {
        (self.log10)(x)
    }

    fn power(&self, a: Double, b: Double) -> (r: Double) {
        (self.power)(a, b)
    }

    fn sine(&self, x: Double) -> (r: Double) {
        (self.sine)(x)
    }

    fn cosine(&self, x: Double) -> (r: Double) {
        (self.cosine)(x)
    }

    fn hypot(&self, a: Double, b: Double) -> (r: Double) {
        (self.hypot)(a, b)
    }

    fn angle(&self, y: Double, x: Double) -> (r: Double) {
        (self.angle)(y, x)
    }

    fn floor(&self, x: Double) -> (r: Double) {
        (self.floor)(x)
    }

    fn ceil(&self, x: Double) -> (r: Double) {
        (self.ceil)(x)
    }

    fn round(&self, x: Double) -> (r: Double) {
        (self.round)(x)
    }

    fn widen(&self, x: Single) -> (r: Double) {
        (self.widen)(x)
    }

    fn narrow(&self, x: Double) -> (r: Single) {
        (self.narrow)(x)
    }

    fn count(&self, n: usize) -> (r: Double) {
        (self.count)(n)
    }

    fn long(&self, n: i128) -> (r: Double) {
        (self.long)(n)
    }

    fn huge(&self, n: u128) -> (r: Double) {
        (self.huge)(n)
    }

    fn whole(&self, x: Double) -> (r: usize) {
        (self.whole)(x)
    }

    fn integer(&self, x: Double) -> (r: i64) {
        (self.integer)(x)
    }

    fn byte(&self, x: Double) -> (r: u8) {
        (self.byte)(x)
    }

    fn plus_single(&self, a: Single, b: Single) -> (r: Single) {
        (self.plus_single)(a, b)
    }

    fn minus_single(&self, a: Single, b: Single) -> (r: Single) {
        (self.minus_single)(a, b)
    }

    fn times_single(&self, a: Single, b: Single) -> (r: Single) {
        (self.times_single)(a, b)
    }

    fn over_single(&self, a: Single, b: Single) -> (r: Single) {
        (self.over_single)(a, b)
    }

    fn root_single(&self, x: Single) -> (r: Single) {
        (self.root_single)(x)
    }

    fn exp_single(&self, x: Single) -> (r: Single) {
        (self.exp_single)(x)
    }

    fn ln_single(&self, x: Single) -> (r: Single) {
        (self.ln_single)(x)
    }

    fn floor_single(&self, x: Single) -> (r: Single) {
        (self.floor_single)(x)
    }

    fn ceil_single(&self, x: Single) -> (r: Single) {
        (self.ceil_single)(x)
    }

    fn round_single(&self, x: Single) -> (r: Single) {
        (self.round_single)(x)
    }

    fn count_single(&self, n: usize) -> (r: Single) {
        (self.count_single)(n)
    }

    fn long_single(&self, n: i128) -> (r: Single) {
        (self.long_single)(n)
    }

    fn whole_single(&self, x: Single) -> (r: usize) {
        (self.whole_single)(x)
    }

    fn word_single(&self, x: Single) -> (r: u32) {
        (self.word_single)(x)
    }

    fn fixed(&self, x: Double, digits: u8) -> (r: String) {
        (self.fixed)(x, digits)
    }

    fn signed(&self, x: Double, digits: u8) -> (r: String) {
        (self.signed)(x, digits)
    }

    fn exponent(&self, x: Double, digits: u8) -> (r: String) {
        (self.exponent)(x, digits)
    }

    fn plain(&self, x: Double) -> (r: String) {
        (self.plain)(x)
    }

    fn plain_single(&self, x: Single) -> (r: String) {
        (self.plain_single)(x)
    }

}

} // verus!
