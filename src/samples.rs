use vstd::prelude::*;

verus! {

/// Evaluates at each sample point in turn: `ys[i]` is what `f` gives for
/// `xs[i]`, so there is exactly one result per sample, in the samples' order.
pub fn evaluate_many<T: Copy, U, F: Fn(T) -> U>(xs: &Vec<T>, f: F) -> (ys: Vec<U>)
    requires
        forall|i: int| 0 <= i < xs.len() ==> f.requires((#[trigger] xs[i],)),
    ensures
        ys.len() == xs.len(),
        forall|i: int| 0 <= i < xs.len() ==> f.ensures((#[trigger] xs[i],), ys[i]),
{
    let mut ys: Vec<U> = Vec::new();
    let mut i: usize = 0;
    while i < xs.len()
        invariant
            i <= xs.len(),
            ys.len() == i,
            forall|j: int| 0 <= j < xs.len() ==> f.requires((#[trigger] xs[j],)),
            forall|j: int| 0 <= j < i ==> f.ensures((#[trigger] xs[j],), ys[j]),
        decreases xs.len() - i,
    {
        let y = f(xs[i]);
        ys.push(y);
        i = i + 1;
    }
    ys
}

} // verus!
