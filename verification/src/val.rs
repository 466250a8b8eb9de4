use crate::type_key::Erased;
use std::marker::PhantomData;
use vstd::prelude::*;
use vstd::std_specs::cmp::PartialEqSpecImpl;
use vstd::string::StringExecFns;

verus! {

/// Hands out atom identities one after another, starting from zero.
pub struct ValSource {
    next: u32,
}

/// The identity that follows `id`; after the largest one the count starts over.
pub open spec fn spec_next_counter(id: u32) -> u32 {
    if id == u32::MAX {
        0
    } else {
        (id + 1) as u32
    }
}

/// The identity that a source hands out after `count` others, when the
/// first of them is `start`.
pub open spec fn spec_counter_after(start: u32, count: nat) -> u32
    decreases count,
{
    if count == 0 {
        start
    } else {
        spec_next_counter(spec_counter_after(start, (count - 1) as nat))
    }
}

/// A source counts up and starts over behind the largest identity.
pub proof fn lemma_counter_after(start: u32, count: nat)
    ensures
        spec_counter_after(start, count) == (start + count) % 0x1_0000_0000,
    decreases count,
{
    if count > 0 {
        lemma_counter_after(start, (count - 1) as nat);
    }
}

/// A source hands out no identity twice before it has handed out all of
/// them: of two atoms that it makes, fewer than 4294967296 apart, neither is
/// the other.
pub proof fn lemma_fresh(start: u32, earlier: nat, later: nat)
    requires
        earlier < later < earlier + 0x1_0000_0000,
    ensures
        spec_counter_after(start, earlier) != spec_counter_after(start, later),
{
    lemma_counter_after(start, earlier);
    lemma_counter_after(start, later);
}

impl View for ValSource {
    type V = u32;

    /// The identity that the next atom will get.
    closed spec fn view(&self) -> u32 {
        self.next
    }
}

impl ValSource {
    /// A source whose next identity is zero.
    pub fn new() -> (source: ValSource)
        ensures
            source@ == 0,
    {
        ValSource { next: 0 }
    }

    /// A source whose next identity is `next`.
    pub fn starting_at(next: u32) -> (source: ValSource)
        ensures
            source@ == next,
    {
        ValSource { next }
    }

    /// Takes the next identity out of the source.
    pub fn next(&mut self) -> (id: u32)
        ensures
            id == old(self)@,
            final(self)@ == spec_next_counter(old(self)@),
    {
        let id: u32 = self.next;
        self.next = if id == u32::MAX {
            0
        } else {
            id + 1
        };
        id
    }
}

/// What an atom is: its identity and its label.
pub struct ValView {
    pub counter: u32,
    pub description: Seq<char>,
}

/// An atom: an opaque value of sort `T` with an identity and a label.
/// Two atoms are the same atom exactly when their identities agree;
/// the label only describes.
pub struct Val<T> {
    description: String,
    counter: u32,
    _data: PhantomData<T>,
}

impl<T> View for Val<T> {
    type V = ValView;

    closed spec fn view(&self) -> ValView {
        ValView { counter: self.counter, description: self.description@ }
    }
}

/// A fresh atom labelled `description`.
pub fn val<T>(description: &str, source: &mut ValSource) -> (v: Val<T>)
    ensures
        v@ == (ValView { counter: old(source)@, description: description@ }),
        final(source)@ == spec_next_counter(old(source)@),
{
    Val::new(description, source)
}

impl<T> Val<T> {
    /// A fresh atom labelled `description`, with the next identity of `source`.
    pub fn new(description: &str, source: &mut ValSource) -> (v: Self)
        ensures
            v@ == (ValView { counter: old(source)@, description: description@ }),
            final(source)@ == spec_next_counter(old(source)@),
    {
        let counter: u32 = source.next();
        Val { description: String::from_str(description), counter, _data: PhantomData }
    }

    /// The same atom with its sort forgotten.
    pub fn erase(&self) -> (v: Val<Erased>)
        ensures
            v@ == self@,
    {
        Val { description: self.description.clone(), counter: self.counter, _data: PhantomData }
    }

    /// The atom's identity.
    pub fn counter(&self) -> (id: u32)
        ensures
            id == self@.counter,
    {
        self.counter
    }

    /// The atom's label.
    pub fn description(&self) -> (label: &str)
        ensures
            label@ == self@.description,
    {
        self.description.as_str()
    }
}

impl Val<Erased> {
    /// The same atom, taken to be of sort `T`. Nothing checks the sort: a
    /// caller casts only what it took out of a relation whose sorts it knows.
    pub fn cast<T>(&self) -> (v: Val<T>)
        ensures
            v@ == self@,
    {
        Val { description: self.description.clone(), counter: self.counter, _data: PhantomData }
    }
}

impl<T> Clone for Val<T> {
    fn clone(&self) -> (v: Self)
        ensures
            v@ == self@,
    {
        Val { description: self.description.clone(), counter: self.counter, _data: PhantomData }
    }
}

impl<T> PartialEq for Val<T> {
    fn eq(&self, other: &Self) -> (equal: bool) {
        self.counter == other.counter
    }
}

impl<T> Eq for Val<T> {

}

impl<T> PartialEqSpecImpl for Val<T> {
    open spec fn obeys_eq_spec() -> bool {
        true
    }

    open spec fn eq_spec(&self, other: &Self) -> bool {
        self@.counter == other@.counter
    }
}

} // verus!
