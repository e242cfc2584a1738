//! The substitution mapping: replacement text, found by identifier.

use vstd::hash_map::StringHashMap;
use vstd::prelude::*;

verus! {

/// Replacement text by identifier. Rendering only reads it.
pub struct Mapping {
    entries: StringHashMap<String>,
}

impl View for Mapping {
    type V = Map<Seq<char>, Seq<char>>;

    closed spec fn view(&self) -> Map<Seq<char>, Seq<char>> {
        self.entries@.map_values(|value: String| value@)
    }
}

impl Default for Mapping {
    /// A mapping without entries.
    fn default() -> (mapping: Self)
        ensures
            mapping@ == Map::<Seq<char>, Seq<char>>::empty(),
    {
        Mapping::new()
    }
}

impl Mapping {
    /// A mapping without entries.
    pub fn new() -> (mapping: Self)
        ensures
            mapping@ == Map::<Seq<char>, Seq<char>>::empty(),
    {
        Mapping { entries: StringHashMap::new() }
    }

    /// Sets the replacement for `key`, in place of an earlier one if there
    /// was one.
    pub fn insert(&mut self, key: &str, value: &str)
        ensures
            final(self)@ == old(self)@.insert(key@, value@),
    {
        self.entries.insert(key.to_owned(), value.to_owned());
    }

    /// The replacement for `key`, if the mapping holds one.
    pub fn get(&self, key: &str) -> (value: Option<&str>)
        ensures
            match value {
                Some(text) => self@.contains_key(key@) && self@[key@] == text@,
                None => !self@.contains_key(key@),
            },
    {
        match self.entries.get(key) {
            Some(value) => Some(value.as_str()),
            None => None,
        }
    }
}

} // verus!
