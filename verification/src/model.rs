//! The link between executable values and the mathematical values that
//! contracts speak of.

use vstd::prelude::*;

verus! {

/// A type whose values stand for mathematical values.
pub trait Modeled {
    type Model;

    /// The mathematical value that `self` stands for.
    spec fn model(&self) -> Self::Model;
}

/// A piece of text stands for its UTF-8 bytes.
impl Modeled for String {
    type Model = Seq<u8>;

    open spec fn model(&self) -> Seq<u8> {
        vstd::utf8::encode_utf8(self@)
    }
}

/// A vector stands for the sequence of what its elements stand for.
impl<T: Modeled> Modeled for Vec<T> {
    type Model = Seq<T::Model>;

    open spec fn model(&self) -> Seq<T::Model> {
        Seq::new(self@.len(), |i: int| self@[i].model())
    }
}

/// A result stands for the result of what either side stands for.
impl<T: Modeled, E: Modeled> Modeled for Result<T, E> {
    type Model = Result<T::Model, E::Model>;

    open spec fn model(&self) -> Result<T::Model, E::Model> {
        match self {
            Ok(value) => Ok(value.model()),
            Err(error) => Err(error.model()),
        }
    }
}

/// Pushing onto a vector pushes onto its model.
pub proof fn lemma_model_push<T: Modeled>(before: Vec<T>, after: Vec<T>, item: T)
    requires
        after@ == before@.push(item),
    ensures
        after.model() == before.model().push(item.model()),
{
    assert(after.model() =~= before.model().push(item.model()));
}

/// An empty vector stands for the empty sequence.
pub proof fn lemma_model_empty<T: Modeled>(v: Vec<T>)
    requires
        v@.len() == 0,
    ensures
        v.model() == Seq::<T::Model>::empty(),
{
    assert(v.model() =~= Seq::<T::Model>::empty());
}

} // verus!
