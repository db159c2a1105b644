//! Elementwise broadcast of the binary arithmetic operators: how the two
//! operands, each a scalar or a list, pair up element by element.
//!
//! When at least one operand arrives as a list the operation runs once per
//! element: a scalar repeats, and every list must have the same length.
//! With no list the operation runs once on the two scalars.

use vstd::prelude::*;
use crate::error::{decimal_string, decimal_text};

verus! {

/// One operand as connected: a scalar that repeats, or a list that maps.
pub enum Operand<T> {
    Scalar(T),
    List(Vec<T>),
}

/// Message when the two list operands differ in length: the second, `B[]`,
/// is the one reported, against the length of the first.
pub open spec fn length_mismatch_text(node: Seq<char>, found: nat, expected: nat) -> Seq<char> {
    node + ": list inputs must share one length; 'B[]' has "@ + decimal_text(found) + " elements, expected "@
        + decimal_text(expected)
}

/// Element `k` of `o` as the operation sees it.
pub open spec fn element<T>(o: Operand<T>, k: int) -> T {
    match o {
        Operand::Scalar(v) => v,
        Operand::List(xs) => xs@[k],
    }
}

/// The number of elements the operation maps over: `None` when both
/// operands are scalars, else the length of the first list; an error when
/// two lists differ in length.
pub fn broadcast_length<T>(node: &str, a: &Operand<T>, b: &Operand<T>) -> (r: Result<Option<usize>, String>)
    ensures
        match (a, b) {
            (Operand::Scalar(_), Operand::Scalar(_)) => r == Ok::<Option<usize>, String>(None),
            (Operand::List(x), Operand::Scalar(_)) => r == Ok::<Option<usize>, String>(Some(x@.len() as usize)),
            (Operand::Scalar(_), Operand::List(y)) => r == Ok::<Option<usize>, String>(Some(y@.len() as usize)),
            (Operand::List(x), Operand::List(y)) => if x@.len() == y@.len() {
                r == Ok::<Option<usize>, String>(Some(x@.len() as usize))
            } else {
                r matches Err(m) && m@ == length_mismatch_text(node@, y@.len(), x@.len())
            },
        },
{
    match (a, b) {
        (Operand::Scalar(_), Operand::Scalar(_)) => Ok(None),
        (Operand::List(x), Operand::Scalar(_)) => Ok(Some(x.len())),
        (Operand::Scalar(_), Operand::List(y)) => Ok(Some(y.len())),
        (Operand::List(x), Operand::List(y)) => {
            if x.len() == y.len() {
                Ok(Some(x.len()))
            } else {
                let mut m = String::from_str(node);
                m.append(": list inputs must share one length; 'B[]' has ");
                let f = decimal_string(y.len() as u128);
                m.append(f.as_str());
                m.append(" elements, expected ");
                let e = decimal_string(x.len() as u128);
                m.append(e.as_str());
                Err(m)
            }
        },
    }
}

/// The operand pairs the operation runs on, one per element: a scalar
/// operand repeats, a list operand gives its element at the same index.
pub fn broadcast_pairs<T: Copy>(a: &Operand<T>, b: &Operand<T>, length: usize) -> (r: Vec<(T, T)>)
    requires
        a matches Operand::List(x) ==> x@.len() == length,
        b matches Operand::List(y) ==> y@.len() == length,
    ensures
        r@.len() == length,
        forall|k: int| 0 <= k < length ==> #[trigger] r@[k] == (element(*a, k), element(*b, k)),
{
    let mut r: Vec<(T, T)> = Vec::new();
    let mut k: usize = 0;
    while k < length
        invariant
            k <= length,
            a matches Operand::List(x) ==> x@.len() == length,
            b matches Operand::List(y) ==> y@.len() == length,
            r@.len() == k,
            forall|j: int| 0 <= j < k ==> #[trigger] r@[j] == (element(*a, j), element(*b, j)),
        decreases length - k,
    {
        let x = match a {
            Operand::Scalar(v) => *v,
            Operand::List(xs) => xs[k],
        };
        let y = match b {
            Operand::Scalar(v) => *v,
            Operand::List(ys) => ys[k],
        };
        r.push((x, y));
        k = k + 1;
    }
    r
}

/// The operand a connection gives: the list wired to the operand's list
/// slot wins over its scalar slot; a scalar slot with nothing wired reads as
/// `unwired`.
pub fn pick_operand<T>(list: Option<Vec<T>>, scalar: Option<T>, unwired: T) -> (r: Operand<T>)
    ensures
        match list {
            Some(xs) => r == Operand::List(xs),
            None => match scalar {
                Some(v) => r == Operand::<T>::Scalar(v),
                None => r == Operand::<T>::Scalar(unwired),
            },
        },
{
    match list {
        Some(xs) => Operand::List(xs),
        None => match scalar {
            Some(v) => Operand::Scalar(v),
            None => Operand::Scalar(unwired),
        },
    }
}

/// The output slot a binary operation writes: the scalar result slot when
/// both operands are scalars (`length` is `None`), else the slot of the
/// per-element result, one past the scalar slot.
pub fn result_slot(length: Option<usize>) -> (r: usize)
    ensures
        r == if length is None { 0usize } else { 1usize },
{
    match length {
        None => 0,
        Some(_) => 1,
    }
}

} // verus!
