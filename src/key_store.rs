use vstd::prelude::*;

use crate::error::OpError;

verus! {

/// A key reference as a value: tenant, provider and logical key name.
pub type KeyRef = (Seq<char>, u8, Seq<char>);

/// A tenant-scoped reference to one logical key.
#[derive(Debug)]
pub struct KeyTriple {
    pub app_name: String,
    pub provider_id: u8,
    pub key_name: String,
}

impl View for KeyTriple {
    type V = KeyRef;

    open spec fn view(&self) -> KeyRef {
        (self.app_name@, self.provider_id, self.key_name@)
    }
}

impl KeyTriple {
    pub fn new(app_name: String, provider_id: u8, key_name: String) -> (r: KeyTriple)
        ensures
            r@ == (app_name@, provider_id, key_name@),
    {
        KeyTriple { app_name, provider_id, key_name }
    }

    /// Whether two references name the same key.
    pub fn same_key(&self, other: &KeyTriple) -> (r: bool)
        ensures
            r == (self@ == other@),
    {
        self.provider_id == other.provider_id && self.app_name == other.app_name
            && self.key_name == other.key_name
    }
}

/// One stored mapping from a key reference to its persistent identifier.
#[derive(Debug)]
pub struct KeyEntry {
    pub triple: KeyTriple,
    pub key_id: u32,
}

/// The mapping held by a sequence of entries, a later entry for a reference
/// taking the place of an earlier one.
pub open spec fn entries_map(s: Seq<KeyEntry>) -> Map<KeyRef, u32>
    decreases s.len(),
{
    if s.len() == 0 {
        Map::empty()
    } else {
        entries_map(s.drop_last()).insert(s.last().triple@, s.last().key_id)
    }
}

/// Entries past `i` that do not name `k` leave what the map says of `k` as it
/// was for the first `i` entries.
proof fn lemma_entries_map_suffix(s: Seq<KeyEntry>, i: int, k: KeyRef)
    requires
        0 <= i <= s.len(),
        forall|j: int| i <= j < s.len() ==> s[j].triple@ != k,
    ensures
        entries_map(s).contains_key(k) == entries_map(s.subrange(0, i)).contains_key(k),
        entries_map(s).contains_key(k) ==> entries_map(s)[k] == entries_map(s.subrange(0, i))[k],
    decreases s.len() - i,
{
    if i == s.len() {
        assert(s.subrange(0, i) =~= s);
    } else {
        let d = s.drop_last();
        lemma_entries_map_suffix(d, i, k);
        assert(d.subrange(0, i) =~= s.subrange(0, i));
    }
}

/// The read side of the identity store: persistent key identifiers by
/// tenant-scoped reference.
pub struct KeyInfoStore {
    entries: Vec<KeyEntry>,
}

impl View for KeyInfoStore {
    type V = Map<KeyRef, u32>;

    closed spec fn view(&self) -> Map<KeyRef, u32> {
        entries_map(self.entries@)
    }
}

impl KeyInfoStore {
    pub fn new() -> (r: KeyInfoStore)
        ensures
            r@ == Map::<KeyRef, u32>::empty(),
    {
        KeyInfoStore { entries: Vec::new() }
    }

    /// Records the identifier of a key, replacing any earlier one for the
    /// same reference.
    pub fn insert(&mut self, triple: KeyTriple, key_id: u32)
        ensures
            final(self)@ == old(self)@.insert(triple@, key_id),
    {
        let ghost prev = self.entries@;
        self.entries.push(KeyEntry { triple, key_id });
        assert(self.entries@.drop_last() =~= prev);
    }

    /// Resolves a reference to its persistent identifier, without changing
    /// the store.
    pub fn get_key_id(&self, triple: &KeyTriple) -> (r: Result<u32, OpError>)
        ensures
            self@.contains_key(triple@) ==> r == Ok::<u32, OpError>(self@[triple@]),
            !self@.contains_key(triple@) ==> r == Err::<u32, OpError>(OpError::KeyDoesNotExist),
    {
        let mut i: usize = self.entries.len();
        while i > 0
            invariant
                i <= self.entries@.len(),
                forall|j: int| i <= j < self.entries@.len() ==> self.entries@[j].triple@ != triple@,
            decreases i,
        {
            let e = &self.entries[i - 1];
            if e.triple.same_key(triple) {
                proof {
                    let s = self.entries@;
                    lemma_entries_map_suffix(s, i as int, triple@);
                    assert(s.subrange(0, i as int).drop_last() =~= s.subrange(0, i - 1));
                }
                return Ok(e.key_id);
            }
            i = i - 1;
        }
        proof {
            lemma_entries_map_suffix(self.entries@, 0, triple@);
        }
        Err(OpError::KeyDoesNotExist)
    }
}

} // verus!
