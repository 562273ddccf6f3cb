//! How many frames a payload takes, and how much of it the last one holds.
use crate::arith::{lemma_div_bounds, lemma_div_of_range, lemma_mul_bounds, lemma_mul_succ};
use vstd::arithmetic::mul::{
    lemma_mul_inequality, lemma_mul_is_distributive_add_other_way, lemma_mul_nonnegative,
};
use vstd::prelude::*;

verus! {

/// The data frames that `elements` block payloads take, `capacity` to a
/// frame.
pub open spec fn frame_count(elements: int, capacity: int) -> int {
    if elements <= 0 {
        0
    } else {
        (elements - 1) / capacity + 1
    }
}

/// The block payloads in the last of these data frames.
pub open spec fn final_count(elements: int, capacity: int) -> int {
    if elements <= 0 {
        0
    } else {
        elements - ((elements - 1) / capacity) * capacity
    }
}

/// How the number of frames relates to the number of block payloads.
pub proof fn lemma_frame_count(elements: int, capacity: int, n: int)
    requires
        1 <= capacity,
        0 <= n,
        0 <= elements,
    ensures
        n * capacity < elements ==> n < frame_count(elements, capacity),
        n * capacity < elements <= n * capacity + capacity ==> frame_count(elements, capacity) == n
            + 1,
        elements <= n * capacity ==> frame_count(elements, capacity) <= n,
        0 <= frame_count(elements, capacity),
{
    if elements > 0 {
        let q = (elements - 1) / capacity;
        lemma_div_bounds(elements - 1, capacity);
        if n * capacity < elements {
            if q + 1 <= n {
                lemma_mul_inequality(q + 1, n, capacity);
                lemma_mul_succ(q, capacity);
            }
        }
        if n * capacity < elements <= n * capacity + capacity {
            lemma_div_of_range(elements - 1, capacity, n);
        }
        if elements <= n * capacity {
            if n < q + 1 {
                lemma_mul_inequality(n, q, capacity);
            }
        }
    }
}

/// The frames of `done` full frames and `more` block payloads after them.
pub proof fn lemma_frame_count_split(done: int, more: int, capacity: int)
    requires
        1 <= capacity,
        0 <= done,
        0 <= more,
    ensures
        frame_count(done * capacity + more, capacity) == done + frame_count(more, capacity),
{
    lemma_mul_nonnegative(done, capacity);
    if more > 0 {
        let q = (more - 1) / capacity;
        lemma_div_bounds(more - 1, capacity);
        lemma_mul_is_distributive_add_other_way(capacity, done, q);
        lemma_div_of_range(done * capacity + more - 1, capacity, done + q);
    } else {
        lemma_frame_count(done * capacity, capacity, done);
        if done > 0 {
            lemma_mul_succ(done - 1, capacity);
            lemma_frame_count(done * capacity, capacity, done - 1);
        }
    }
}

/// Where the data frame of number `n` begins and ends in the payload.
pub proof fn lemma_frame_bounds(elements: int, capacity: int, n: int)
    requires
        1 <= capacity,
        0 <= elements,
        1 <= n <= frame_count(elements, capacity),
    ensures
        0 <= (n - 1) * capacity < elements,
        n < frame_count(elements, capacity) ==> n * capacity < elements,
        n == frame_count(elements, capacity) ==> elements <= n * capacity && final_count(
            elements,
            capacity,
        ) == elements - (n - 1) * capacity,
        n * capacity == (n - 1) * capacity + capacity,
{
    let q = (elements - 1) / capacity;
    lemma_div_bounds(elements - 1, capacity);
    lemma_mul_inequality(n - 1, q, capacity);
    lemma_mul_succ(n - 1, capacity);
    lemma_mul_succ(q, capacity);
    lemma_mul_bounds(0, n - 1, capacity, capacity);
    if n < q + 1 {
        lemma_mul_inequality(n, q, capacity);
    }
}

} // verus!
