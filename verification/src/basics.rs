//! Small self-contained helpers: arithmetic on integers, in-place vector
//! updates, and a few items that only bind values.

use crate::restaurant;
use vstd::prelude::*;
use vstd::string::StringExecFns;

verus! {

use core::ops::Add;
use vstd::std_specs::ops::AddSpec;

/// Binds an owned `String` and a borrowed string slice.
#[allow(unused_variables)]
pub fn string_example() {
    let name: String = String::from_str("Felipe");
    let surename: &str = "Ramos";
}

/// Binds two one-byte integers.
#[allow(unused_variables)]
pub fn casting() {
    let int_u8: u8 = 5;
    let int2_u8: u8 = 4;
}

/// The sum of two integers.
pub fn get_sum(x: i32, y: i32) -> (r: i32)
    requires
        i32::MIN <= x + y <= i32::MAX,
    ensures
        r == x + y,
{
    x + y
}

/// Hands both arguments back, in order.
pub fn return_multiple(x: i32, y: i32) -> (r: (i32, i32))
    ensures
        r.0 == x,
        r.1 == y,
{
    (x, y)
}

/// Doubles every element of the vector in place.
pub fn change_vector(vec1: &mut Vec<i32>)
    requires
        forall|i: int|
            0 <= i < old(vec1)@.len() ==> i32::MIN <= 2 * (#[trigger] old(vec1)@[i]) <= i32::MAX,
    ensures
        final(vec1)@.len() == old(vec1)@.len(),
        forall|i: int| 0 <= i < old(vec1)@.len() ==> #[trigger] final(vec1)@[i] == 2 * old(vec1)@[i],
{
    let mut idx: usize = 0;
    while idx < vec1.len()
        invariant
            idx <= vec1@.len(),
            vec1@.len() == old(vec1)@.len(),
            forall|i: int|
                0 <= i < old(vec1)@.len() ==> i32::MIN <= 2 * (#[trigger] old(vec1)@[i])
                    <= i32::MAX,
            forall|i: int| 0 <= i < idx ==> #[trigger] vec1@[i] == 2 * old(vec1)@[i],
            forall|i: int| idx <= i < vec1@.len() ==> #[trigger] vec1@[i] == old(vec1)@[i],
        decreases vec1@.len() - idx,
    {
        let v = vec1[idx];
        vec1[idx] = 2 * v;
        idx += 1;
    }
}

/// The sum of two values of any type that can be added, pinned to the
/// type's own addition.
pub fn get_sum_gen<T: Add<Output = T> + AddSpec<T, Output = T>>(x: T, y: T) -> (r: T)
    requires
        x.add_req(y),
    ensures
        T::obeys_add_spec() ==> r == x.add_spec(y),
{
    x + y
}

/// Pushes one more element onto the vector.
pub fn change_my_vector(my_list: &mut Vec<i32>)
    ensures
        final(my_list)@ == old(my_list)@.push(4),
{
    my_list.push(4);
}

/// Orders food through the `restaurant` module, dropping the message.
pub fn modules() {
    restaurant::order_food();
}

} // verus!
