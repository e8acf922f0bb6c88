//! Selector keys: the class or id that a rule is about.
use crate::text::same;
use vstd::prelude::*;

verus! {

/// The simple selector that names a rule's elements.
#[derive(Debug)]
pub enum SelectorKey {
    Class(String),
    Id(String),
}

/// The model of a [`SelectorKey`].
pub enum KeyModel {
    Class(Seq<char>),
    Id(Seq<char>),
}

impl View for SelectorKey {
    type V = KeyModel;

    open spec fn view(&self) -> KeyModel {
        match self {
            SelectorKey::Class(name) => KeyModel::Class(name@),
            SelectorKey::Id(name) => KeyModel::Id(name@),
        }
    }
}

impl SelectorKey {
    /// The class or id name.
    pub open spec fn name(self) -> Seq<char> {
        match self {
            SelectorKey::Class(name) => name@,
            SelectorKey::Id(name) => name@,
        }
    }

    /// Whether two keys select the same elements.
    pub fn same(&self, other: &SelectorKey) -> (result: bool)
        ensures
            result == (self@ == other@),
    {
        match (self, other) {
            (SelectorKey::Class(a), SelectorKey::Class(b)) => same(a.as_str(), b.as_str()),
            (SelectorKey::Id(a), SelectorKey::Id(b)) => same(a.as_str(), b.as_str()),
            _ => false,
        }
    }

    /// An equal key.
    pub fn copy(&self) -> (result: SelectorKey)
        ensures
            result == *self,
    {
        match self {
            SelectorKey::Class(name) => SelectorKey::Class(name.clone()),
            SelectorKey::Id(name) => SelectorKey::Id(name.clone()),
        }
    }
}

impl Clone for SelectorKey {
    fn clone(&self) -> (result: Self)
        ensures
            result == *self,
    {
        self.copy()
    }
}

} // verus!
