use vstd::prelude::*;

verus! {

/// The value type of an audio stream: copyable, with a zero element and the
/// arithmetic that mixing and modulation need. The users of the library
/// implement it for their sample type.
///
/// The spec functions describe what the operations compute. An impl that
/// leaves `exact` at its default, `false`, is promised nothing by them; an
/// impl written in verified code may set it and prove its operations exact.
pub trait Sample: Copy + Sized {
    /// The operations of this type compute the spec functions below.
    open spec fn exact() -> bool {
        false
    }

    /// The silent sample.
    open spec fn spec_zero() -> Self {
        arbitrary()
    }

    /// The neutral element of `product`.
    open spec fn spec_one() -> Self {
        arbitrary()
    }

    /// The sum of two samples.
    open spec fn spec_sum(self, other: Self) -> Self {
        arbitrary()
    }

    /// The product of two samples.
    open spec fn spec_product(self, other: Self) -> Self {
        arbitrary()
    }

    /// The silent sample.
    fn zero() -> (r: Self)
        ensures
            Self::exact() ==> r == Self::spec_zero(),
    ;

    /// The neutral element of `product`.
    fn one() -> (r: Self)
        ensures
            Self::exact() ==> r == Self::spec_one(),
    ;

    /// The sum of two samples.
    fn sum(self, other: Self) -> (r: Self)
        ensures
            Self::exact() ==> r == self.spec_sum(other),
    ;

    /// The product of two samples.
    fn product(self, other: Self) -> (r: Self)
        ensures
            Self::exact() ==> r == self.spec_product(other),
    ;
}

/// `x` held to the range of `i32`.
pub open spec fn clamp_i32(x: int) -> i32 {
    if x > i32::MAX {
        i32::MAX
    } else if x < i32::MIN {
        i32::MIN
    } else {
        x as i32
    }
}

/// 32-bit integer samples, whose sums and products saturate.
impl Sample for i32 {
    open spec fn exact() -> bool {
        true
    }

    open spec fn spec_zero() -> i32 {
        0
    }

    open spec fn spec_one() -> i32 {
        1
    }

    open spec fn spec_sum(self, other: i32) -> i32 {
        clamp_i32(self + other)
    }

    open spec fn spec_product(self, other: i32) -> i32 {
        clamp_i32(self * other)
    }

    fn zero() -> (r: i32) {
        0
    }

    fn one() -> (r: i32) {
        1
    }

    fn sum(self, other: i32) -> (r: i32) {
        let wide = self as i64 + other as i64;
        if wide > i32::MAX as i64 {
            i32::MAX
        } else if wide < i32::MIN as i64 {
            i32::MIN
        } else {
            wide as i32
        }
    }

    fn product(self, other: i32) -> (r: i32) {
        proof {
            assert(self * other <= 0x4000_0000_0000_0000 && self * other >= -0x4000_0000_0000_0000)
                by (nonlinear_arith)
                requires
                    -0x8000_0000 <= self <= 0x7fff_ffff,
                    -0x8000_0000 <= other <= 0x7fff_ffff,
            ;
        }
        let wide = self as i64 * other as i64;
        if wide > i32::MAX as i64 {
            i32::MAX
        } else if wide < i32::MIN as i64 {
            i32::MIN
        } else {
            wide as i32
        }
    }
}

/// The computation of a node: one output sample from the current samples of
/// its inputs. A processor may keep state of its own (a phase, a counter) and
/// may be changed by scheduled updates. The users of the library implement it.
///
/// The spec functions describe what a processor does. An impl that leaves
/// `modeled` at its default, `false`, is promised nothing by them; an impl
/// written in verified code may set it and prove its methods against them.
pub trait Process<S>: Sized {
    /// A change of parameters that can be scheduled on a processor.
    type Update;

    /// The methods of this type follow the spec functions below.
    open spec fn modeled() -> bool {
        false
    }

    /// The processor after one step on `inputs`, and the sample it produces.
    open spec fn spec_next(&self, inputs: Seq<S>) -> (Self, S) {
        arbitrary()
    }

    /// Whether `update` applies to this processor.
    open spec fn spec_accepts(&self, update: Self::Update) -> bool {
        arbitrary()
    }

    /// The processor once `update` is applied.
    open spec fn spec_apply(&self, update: Self::Update) -> Self {
        arbitrary()
    }

    /// The next output sample, given one sample of each input.
    fn process_next_value(&mut self, inputs: &[S]) -> (r: S)
        ensures
            Self::modeled() ==> (*final(self), r) == old(self).spec_next(inputs@),
    ;

    /// Whether `update` applies to this processor.
    fn accepts(&self, update: &Self::Update) -> (r: bool)
        ensures
            Self::modeled() ==> r == self.spec_accepts(*update),
    ;

    /// Applies `update` to this processor.
    fn apply(&mut self, update: &Self::Update)
        ensures
            Self::modeled() ==> *final(self) == old(self).spec_apply(*update),
    ;
}

/// The first of `inputs`, or `silence` when there is none.
pub open spec fn first_or<S>(inputs: Seq<S>, silence: S) -> S {
    if inputs.len() > 0 {
        inputs[0]
    } else {
        silence
    }
}

/// The sum of `inputs`, from the zero sample on, left to right.
pub open spec fn sum_of<S: Sample>(inputs: Seq<S>) -> S
    decreases inputs.len(),
{
    if inputs.len() == 0 {
        S::spec_zero()
    } else {
        sum_of(inputs.drop_last()).spec_sum(inputs.last())
    }
}

/// The product of `inputs`, from the unit sample on, left to right.
pub open spec fn product_of<S: Sample>(inputs: Seq<S>) -> S
    decreases inputs.len(),
{
    if inputs.len() == 0 {
        S::spec_one()
    } else {
        product_of(inputs.drop_last()).spec_product(inputs.last())
    }
}

/// The processor of the root node: it passes its first input through, and is
/// silent without one.
#[derive(Clone, Copy, Debug, PartialEq, Eq, Structural)]
pub struct Sentinel;

impl Sentinel {
    /// The first of `inputs`, or `silence` when there is none.
    pub fn pass_through<S: Copy>(&self, inputs: &[S], silence: S) -> (r: S)
        ensures
            r == first_or(inputs@, silence),
    {
        if inputs.len() > 0 {
            inputs[0]
        } else {
            silence
        }
    }
}

impl<S: Sample> Process<S> for Sentinel {
    type Update = ();

    open spec fn modeled() -> bool {
        S::exact()
    }

    open spec fn spec_next(&self, inputs: Seq<S>) -> (Sentinel, S) {
        (*self, first_or(inputs, S::spec_zero()))
    }

    open spec fn spec_accepts(&self, update: ()) -> bool {
        true
    }

    open spec fn spec_apply(&self, update: ()) -> Sentinel {
        *self
    }

    fn process_next_value(&mut self, inputs: &[S]) -> (r: S)
        ensures
            inputs@.len() > 0 ==> r == inputs@[0],
            *final(self) == *old(self),
    {
        let silence = S::zero();
        self.pass_through(inputs, silence)
    }

    fn accepts(&self, update: &()) -> (r: bool) {
        true
    }

    fn apply(&mut self, update: &()) {
    }
}

/// Sums its inputs.
#[derive(Clone, Copy, Debug, PartialEq, Eq, Structural)]
pub struct Mixer;

impl<S: Sample> Process<S> for Mixer {
    type Update = ();

    open spec fn modeled() -> bool {
        S::exact()
    }

    open spec fn spec_next(&self, inputs: Seq<S>) -> (Mixer, S) {
        (*self, sum_of(inputs))
    }

    open spec fn spec_accepts(&self, update: ()) -> bool {
        true
    }

    open spec fn spec_apply(&self, update: ()) -> Mixer {
        *self
    }

    fn process_next_value(&mut self, inputs: &[S]) -> (r: S) {
        let mut acc = S::zero();
        let mut i: usize = 0;
        while i < inputs.len()
            invariant
                i <= inputs@.len(),
                S::exact() ==> acc == sum_of(inputs@.take(i as int)),
            decreases inputs@.len() - i,
        {
            proof {
                assert(inputs@.take(i + 1).drop_last() =~= inputs@.take(i as int));
            }
            acc = acc.sum(inputs[i]);
            i = i + 1;
        }
        proof {
            assert(inputs@.take(i as int) =~= inputs@);
        }
        acc
    }

    fn accepts(&self, update: &()) -> (r: bool) {
        true
    }

    fn apply(&mut self, update: &()) {
    }
}

/// Multiplies its inputs.
#[derive(Clone, Copy, Debug, PartialEq, Eq, Structural)]
pub struct Multiplier;

impl<S: Sample> Process<S> for Multiplier {
    type Update = ();

    open spec fn modeled() -> bool {
        S::exact()
    }

    open spec fn spec_next(&self, inputs: Seq<S>) -> (Multiplier, S) {
        (*self, product_of(inputs))
    }

    open spec fn spec_accepts(&self, update: ()) -> bool {
        true
    }

    open spec fn spec_apply(&self, update: ()) -> Multiplier {
        *self
    }

    fn process_next_value(&mut self, inputs: &[S]) -> (r: S) {
        let mut acc = S::one();
        let mut i: usize = 0;
        while i < inputs.len()
            invariant
                i <= inputs@.len(),
                S::exact() ==> acc == product_of(inputs@.take(i as int)),
            decreases inputs@.len() - i,
        {
            proof {
                assert(inputs@.take(i + 1).drop_last() =~= inputs@.take(i as int));
            }
            acc = acc.product(inputs[i]);
            i = i + 1;
        }
        proof {
            assert(inputs@.take(i as int) =~= inputs@);
        }
        acc
    }

    fn accepts(&self, update: &()) -> (r: bool) {
        true
    }

    fn apply(&mut self, update: &()) {
    }
}

} // verus!
