//! A runner of passes applied one after another.
use vstd::prelude::*;

verus! {

/// Passes applied in order, stopping at the first error. All passes have
/// one type `F`; to mix functions, take `F` to be a function pointer type.
pub struct Pipeline<F> {
    steps: Vec<F>,
}

/// Whether `xs` is a run of values through the first steps: it starts at
/// `input`, and each step has turned the value before it into the next one
/// (returning `Ok`). It has at most one value more than there are steps.
pub open spec fn pipeline_chain<T, F: Fn(T) -> Result<T, std::io::Error>>(
    steps: Seq<F>,
    input: T,
    xs: Seq<T>,
) -> bool {
    &&& 1 <= xs.len() <= steps.len() + 1
    &&& xs[0] == input
    &&& forall|k: int|
        0 <= k < xs.len() - 1 ==> #[trigger] call_ensures(
            steps[k],
            (xs[k],),
            Ok::<T, std::io::Error>(xs[k + 1]),
        )
}

/// Whether every step accepts each value that the steps before it can hand
/// on, starting from `input`.
pub open spec fn pipeline_admits<T, F: Fn(T) -> Result<T, std::io::Error>>(
    steps: Seq<F>,
    input: T,
) -> bool {
    forall|xs: Seq<T>|
        #[trigger] pipeline_chain(steps, input, xs) && xs.len() <= steps.len() ==> call_requires(
            steps[xs.len() - 1],
            (xs.last(),),
        )
}

/// Whether `r` is a possible outcome of running `steps` on `input`: the
/// value that the last step returns when every step returns `Ok`, or else
/// the first error that a step returns.
pub open spec fn pipeline_outcome<T, F: Fn(T) -> Result<T, std::io::Error>>(
    steps: Seq<F>,
    input: T,
    r: Result<T, std::io::Error>,
) -> bool {
    exists|xs: Seq<T>|
        #[trigger] pipeline_chain(steps, input, xs) && {
            ||| xs.len() == steps.len() + 1 && r == Ok::<T, std::io::Error>(xs.last())
            ||| xs.len() <= steps.len() && r is Err && call_ensures(
                steps[xs.len() - 1],
                (xs.last(),),
                r,
            )
        }
}

impl<F> Pipeline<F> {
    /// The steps, in the order they run.
    pub closed spec fn steps(&self) -> Seq<F> {
        self.steps@
    }

    /// A pipeline with no steps.
    pub fn new() -> (p: Self)
        ensures
            p.steps() == Seq::<F>::empty(),
    {
        Self { steps: Vec::new() }
    }

    /// Adds a step after the others.
    pub fn add(&mut self, step: F)
        ensures
            final(self).steps() == old(self).steps().push(step),
    {
        self.steps.push(step);
    }

    /// Runs the steps in order on `input`, handing each the value of the one
    /// before, and stops at the first error.
    pub fn run<T>(&self, input: T) -> (r: Result<T, std::io::Error>)
        where
            F: Fn(T) -> Result<T, std::io::Error>,
        requires
            pipeline_admits(self.steps(), input),
        ensures
            pipeline_outcome(self.steps(), input, r),
    {
        let ghost all = self.steps@;
        let mut cur = input;
        let mut i: usize = 0;
        let ghost mut xs: Seq<T> = seq![input];
        while i < self.steps.len()
            invariant
                i <= all.len(),
                all == self.steps@,
                pipeline_admits(all, input),
                pipeline_chain(all, input, xs),
                xs.len() == i + 1,
                xs.last() == cur,
            decreases all.len() - i,
        {
            assert(pipeline_chain(all, input, xs));
            let ghost before = cur;
            let step = &self.steps[i];
            let y = step(cur);
            match y {
                Ok(z) => {
                    let ghost next = xs.push(z);
                    assert forall|k: int| 0 <= k < next.len() - 1 implies #[trigger] call_ensures(
                        all[k],
                        (next[k],),
                        Ok::<T, std::io::Error>(next[k + 1]),
                    ) by {
                        if k < xs.len() - 1 {
                            assert(next[k] == xs[k] && next[k + 1] == xs[k + 1]);
                            assert(call_ensures(all[k], (xs[k],), Ok::<T, std::io::Error>(xs[k + 1])));
                        } else {
                            assert(next[k] == before && next[k + 1] == z);
                        }
                    }
                    proof {
                        xs = next;
                    }
                    cur = z;
                    i += 1;
                },
                Err(e) => {
                    assert(pipeline_chain(all, input, xs));
                    return Err(e);
                },
            }
        }
        assert(pipeline_chain(all, input, xs));
        Ok(cur)
    }
}

impl<F> Default for Pipeline<F> {
    fn default() -> (p: Self)
        ensures
            p.steps() == Seq::<F>::empty(),
    {
        Self::new()
    }
}

} // verus!
