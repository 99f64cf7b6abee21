use vstd::prelude::*;

verus! {

/// A hash index from strings to small integers (a code, a column number),
/// held in a hashbrown table.
#[verifier::external_body]
pub struct KeyIndex {
    table: hashbrown::HashMap<String, u32>,
}

/// The entries of a `KeyIndex`: each key with the integer stored under it.
pub uninterp spec fn index_entries(m: KeyIndex) -> Map<Seq<char>, u32>;

impl View for KeyIndex {
    type V = Map<Seq<char>, u32>;

    open spec fn view(&self) -> Map<Seq<char>, u32> {
        index_entries(*self)
    }
}

impl KeyIndex {
    /// Relies on hashbrown::HashMap::new: a new map holds no entries.
    #[verifier::external_body]
    pub(crate) fn new() -> (r: KeyIndex)
        ensures
            r@.dom() == Set::<Seq<char>>::empty(),
    {
        KeyIndex { table: hashbrown::HashMap::new() }
    }

    /// Relies on hashbrown::HashMap::get: the value stored under a key equal
    /// to `key`, or `None` where there is none.
    #[verifier::external_body]
    pub(crate) fn get(&self, key: &str) -> (r: Option<u32>)
        ensures
            match r {
                Some(v) => index_entries(*self).contains_key(key@) && index_entries(*self)[key@]
                    == v,
                None => !index_entries(*self).contains_key(key@),
            },
    {
        self.table.get(key).copied()
    }

    /// Relies on hashbrown::HashMap::insert: afterwards `key` maps to `value`,
    /// and every other entry is unchanged.
    #[verifier::external_body]
    pub(crate) fn insert(&mut self, key: String, value: u32)
        ensures
            index_entries(*final(self)) == index_entries(*old(self)).insert(key@, value),
    {
        self.table.insert(key, value);
    }
}

} // verus!
