//! Accuracy: how many predictions agree with the labels.
use crate::number::Decimal;
use vstd::prelude::*;

verus! {

/// The count of the positions before `upto` at which the prediction is the
/// same number as the label.
pub open spec fn agreements(predictions: Seq<Decimal>, labels: Seq<Decimal>, upto: int) -> nat
    decreases upto,
{
    if upto <= 0 {
        0
    } else {
        let before = agreements(predictions, labels, upto - 1);
        if predictions[upto - 1].value() == labels[upto - 1].value() {
            before + 1
        } else {
            before
        }
    }
}

/// The number of correct predictions and the number of all predictions: the
/// accuracy is the first divided by the second. There is no answer where
/// there are not as many predictions as labels.
pub fn calculate_accuracy(predictions: &Vec<Decimal>, labels: &Vec<Decimal>) -> (counts: Option<
    (usize, usize),
>)
    ensures
        match counts {
            Some((correct, total)) => {
                &&& predictions@.len() == labels@.len()
                &&& total == labels@.len()
                &&& correct == agreements(predictions@, labels@, labels@.len() as int)
            },
            None => predictions@.len() != labels@.len(),
        },
{
    if labels.len() != predictions.len() {
        return None;
    }
    let mut correct_answers: usize = 0;
    let mut i: usize = 0;
    while i < labels.len()
        invariant
            i <= labels@.len(),
            predictions@.len() == labels@.len(),
            correct_answers == agreements(predictions@, labels@, i as int),
            correct_answers <= i,
        decreases labels@.len() - i,
    {
        if labels[i].same_value(&predictions[i]) {
            correct_answers = correct_answers + 1;
        }
        i = i + 1;
    }
    Some((correct_answers, labels.len()))
}

} // verus!
