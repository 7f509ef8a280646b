//! What a DAW's side of a block looks like, for whoever lays a buffer out by hand.
use vstd::prelude::*;

verus! {

/// What a device's input buffer holds when it is filled by hand: `from`, and one more for every
/// sample after it, for as many samples as a block has.
pub fn tone(block: usize, from: i32) -> (run: Vec<i32>)
    requires
        block <= i32::MAX,
        block > 0 ==> from + block - 1 <= i32::MAX,
    ensures
        run@.len() == block,
        forall|i: int| 0 <= i < block ==> #[trigger] run@[i] == from + i,
{
    let mut run: Vec<i32> = Vec::new();
    let count = block as i32;
    let mut index: i32 = 0;
    while index < count
        invariant
            0 <= index <= count,
            count == block,
            block > 0 ==> from + block - 1 <= i32::MAX,
            run@.len() == index,
            forall|i: int| 0 <= i < index ==> #[trigger] run@[i] == from + i,
        decreases count - index,
    {
        run.push(from + index);
        index = index + 1;
    }
    run
}

} // verus!
