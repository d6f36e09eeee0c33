//! Turns a resolution's adjustment into the operations applied to the
//! receiver expression.
use vstd::prelude::*;

use crate::resolve::{Adjustment, ResolutionResult};

verus! {

/// One operation on the receiver expression.
#[derive(Clone, Copy, Debug, PartialEq, Eq, Structural)]
pub enum ReceiverStep {
    Deref,
    Borrow,
}

/// The operations that `adj` stands for: its dereferences, then one borrow
/// if it asks for one.
pub open spec fn steps_of(adj: Adjustment) -> Seq<ReceiverStep> {
    Seq::new(adj.dereference_count as nat, |_i: int| ReceiverStep::Deref) + if adj.then_borrow {
        seq![ReceiverStep::Borrow]
    } else {
        Seq::empty()
    }
}

/// The operations that turn the receiver expression into the chosen
/// implementation's receiver.
pub fn emit(result: &ResolutionResult) -> (r: Vec<ReceiverStep>)
    ensures
        r@ == steps_of(result.adjustment),
{
    let count = result.adjustment.dereference_count;
    let mut steps: Vec<ReceiverStep> = Vec::new();
    let mut k: usize = 0;
    while k < count
        invariant
            k <= count,
            steps@ == Seq::new(k as nat, |_i: int| ReceiverStep::Deref),
        decreases count - k,
    {
        steps.push(ReceiverStep::Deref);
        k = k + 1;
        assert(steps@ =~= Seq::new(k as nat, |_i: int| ReceiverStep::Deref));
    }
    if result.adjustment.then_borrow {
        steps.push(ReceiverStep::Borrow);
    }
    assert(steps@ =~= steps_of(result.adjustment));
    steps
}

} // verus!
