//! Facts about the element-wise view of a vector.

use vstd::prelude::*;

verus! {

/// The deep view of a vector has the vector's length.
pub broadcast proof fn lemma_deep_view_len<T: DeepView>(v: Vec<T>)
    ensures
        #[trigger] v.deep_view().len() == v@.len(),
{
}

/// The deep view of a vector holds the deep view of each element.
pub broadcast proof fn lemma_deep_view_index<T: DeepView>(v: Vec<T>, i: int)
    requires
        0 <= i < v@.len(),
    ensures
        #[trigger] v.deep_view()[i] == v@[i].deep_view(),
{
}

/// Pushing an element pushes its deep view.
pub proof fn lemma_deep_view_push<T: DeepView>(before: Vec<T>, after: Vec<T>, x: T)
    requires
        after@ == before@.push(x),
    ensures
        after.deep_view() == before.deep_view().push(x.deep_view()),
{
    assert(after.deep_view() =~= before.deep_view().push(x.deep_view()));
}

/// A vector of machine words is its own deep view.
pub broadcast proof fn lemma_deep_view_words(v: Vec<usize>)
    ensures
        #[trigger] v.deep_view() == v@,
{
    assert(v.deep_view() =~= v@);
}

pub broadcast group group_deep_view {
    lemma_deep_view_len,
    lemma_deep_view_index,
    lemma_deep_view_words,
}

} // verus!
