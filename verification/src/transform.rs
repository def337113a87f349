//! Typed subscriber-side transformations.
use vstd::prelude::*;

verus! {

/// A typed subscriber-side transformation.
///
/// Implement this trait in an application or event crate to publish reusable transform
/// components.
pub trait TransformOp<I> {
    /// Payload type emitted by this transform.
    type Output;

    /// The transform can be applied to `input`.
    open spec fn can_apply(&self, input: I) -> bool {
        true
    }

    /// `output` is a result of the transform for `input`.
    open spec fn applies(&self, input: I, output: Self::Output) -> bool {
        true
    }

    /// Applies the transform to one input payload.
    fn apply(&self, input: I) -> (output: Self::Output)
        requires
            self.can_apply(input),
        ensures
            self.applies(input, output),
    ;
}

/// A synchronous closure transform.
#[must_use]
pub struct Transform<F> {
    function: F,
}

impl<F> Transform<F> {
    /// The wrapped closure.
    pub closed spec fn function(self) -> F {
        self.function
    }

    /// Wraps a synchronous closure without allocating per event.
    pub fn new(function: F) -> (transform: Self)
        ensures
            transform.function() == function,
    {
        Transform { function }
    }

    /// Wraps an asynchronous closure without allocating per event.
    pub fn new_async(function: F) -> (transform: AsyncTransform<F>)
        ensures
            transform.function() == function,
    {
        AsyncTransform { function }
    }
}

impl<I, O, F: Fn(I) -> O> TransformOp<I> for Transform<F> {
    type Output = O;

    open spec fn can_apply(&self, input: I) -> bool {
        self.function().requires((input,))
    }

    open spec fn applies(&self, input: I, output: O) -> bool {
        self.function().ensures((input,), output)
    }

    fn apply(&self, input: I) -> (output: O) {
        (self.function)(input)
    }
}

/// An asynchronous closure transform.
#[must_use]
pub struct AsyncTransform<F> {
    function: F,
}

impl<F> AsyncTransform<F> {
    /// The wrapped closure.
    pub closed spec fn function(self) -> F {
        self.function
    }

    /// Wraps an asynchronous closure without allocating per event.
    pub fn new(function: F) -> (transform: Self)
        ensures
            transform.function() == function,
    {
        AsyncTransform { function }
    }

    /// Starts the transform on one input payload. The caller awaits what comes back.
    pub fn start<I, O>(&self, input: I) -> (pending: O) where F: Fn(I) -> O
        requires
            self.function().requires((input,)),
        ensures
            self.function().ensures((input,), pending),
    {
        (self.function)(input)
    }
}

/// Two statically composed transforms.
#[must_use]
pub struct Then<First, Second> {
    first: First,
    second: Second,
}

impl<First, Second> Then<First, Second> {
    /// The transform that is applied first.
    pub closed spec fn first(self) -> First {
        self.first
    }

    /// The transform that is applied to the result of the first.
    pub closed spec fn second(self) -> Second {
        self.second
    }

    /// Composes a transform with a second one.
    pub fn new(first: First, second: Second) -> (composed: Self)
        ensures
            composed.first() == first,
            composed.second() == second,
    {
        Then { first, second }
    }

    /// The two transforms, in the order in which they are applied.
    pub fn stages(&self) -> (stages: (&First, &Second))
        ensures
            *stages.0 == self.first(),
            *stages.1 == self.second(),
    {
        (&self.first, &self.second)
    }
}

impl<I, First: TransformOp<I>, Second: TransformOp<First::Output>> TransformOp<I> for Then<
    First,
    Second,
> {
    type Output = Second::Output;

    open spec fn can_apply(&self, input: I) -> bool {
        &&& self.first().can_apply(input)
        &&& forall|middle: First::Output| #[trigger]
            self.first().applies(input, middle) ==> self.second().can_apply(middle)
    }

    open spec fn applies(&self, input: I, output: Self::Output) -> bool {
        exists|middle: First::Output| #[trigger]
            self.first().applies(input, middle) && self.second().applies(middle, output)
    }

    fn apply(&self, input: I) -> (output: Self::Output) {
        let middle = self.first.apply(input);
        let output = self.second.apply(middle);
        assert(self.first().applies(input, middle) && self.second().applies(middle, output));
        output
    }
}

/// Composed transforms work as their functions do in turn: where each has one result for an
/// input, the composition has the second one's result for the first one's.
pub proof fn law_composition<I, First: TransformOp<I>, Second: TransformOp<First::Output>>(
    composed: Then<First, Second>,
    f: spec_fn(I) -> First::Output,
    g: spec_fn(First::Output) -> Second::Output,
    input: I,
    output: Second::Output,
)
    requires
        forall|i: I, m: First::Output| #[trigger]
            composed.first().applies(i, m) <==> m == f(i),
        forall|m: First::Output, o: Second::Output| #[trigger]
            composed.second().applies(m, o) <==> o == g(m),
    ensures
        composed.applies(input, output) <==> output == g(f(input)),
        composed.can_apply(input) <==> composed.first().can_apply(input)
            && composed.second().can_apply(f(input)),
{
    assert(composed.first().applies(input, f(input)));
    assert(composed.second().applies(f(input), g(f(input))));
}

} // verus!
