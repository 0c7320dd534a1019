//! The dictionary that gives a key token its display name.

use vstd::hash_map::StringHashMap;
use vstd::prelude::*;

verus! {

/// A mapping from the text of a key token to a short display name. Each token
/// has at most one name; the order of the entries does not matter.
pub struct KeymapDictionary {
    names: StringHashMap<String>,
}

impl View for KeymapDictionary {
    type V = Map<Seq<char>, Seq<char>>;

    closed spec fn view(&self) -> Map<Seq<char>, Seq<char>> {
        self.names@.map_values(|name: String| name@)
    }
}

impl KeymapDictionary {
    /// A dictionary without entries.
    pub fn new() -> (dictionary: Self)
        ensures
            dictionary@ == Map::<Seq<char>, Seq<char>>::empty(),
    {
        let dictionary = KeymapDictionary { names: StringHashMap::new() };
        assert(dictionary@ =~= Map::<Seq<char>, Seq<char>>::empty());
        dictionary
    }

    /// Gives `token` the display name `name`, in place of the one it had.
    pub fn insert(&mut self, token: String, name: String)
        ensures
            final(self)@ == old(self)@.insert(token@, name@),
    {
        self.names.insert(token, name);
        assert(self@ =~= old(self)@.insert(token@, name@));
    }

    /// The display name of `token`, where it has one.
    pub fn get(&self, token: &str) -> (found: Option<&String>)
        ensures
            match found {
                Some(name) => self@.contains_key(token@) && name@ == self@[token@],
                None => !self@.contains_key(token@),
            },
    {
        self.names.get(token)
    }

    /// Whether `token` has a display name.
    pub fn contains_key(&self, token: &str) -> (found: bool)
        ensures
            found == self@.contains_key(token@),
    {
        self.names.contains_key(token)
    }
}

} // verus!
