use vstd::prelude::*;

verus! {

/// Occurrence counts by chunk, held in a hash map.
#[verifier::external_body]
pub struct FrequencyMap {
    inner: hashbrown::HashMap<u64, usize>,
}

/// The counts that a frequency map holds.
pub uninterp spec fn frequency_contents(m: FrequencyMap) -> Map<u64, usize>;

/// Relies on hashbrown::HashMap::new: a new map holds nothing.
#[verifier::external_body]
fn map_new() -> (r: FrequencyMap)
    ensures
        forall|k: u64| !(#[trigger] frequency_contents(r).contains_key(k)),
{
    FrequencyMap { inner: hashbrown::HashMap::new() }
}

/// Relies on hashbrown::HashMap::get: the value held for the key, if any.
#[verifier::external_body]
fn map_get(m: &FrequencyMap, k: u64) -> (r: Option<usize>)
    ensures
        r == if frequency_contents(*m).contains_key(k) {
            Some(frequency_contents(*m)[k])
        } else {
            None
        },
{
    m.inner.get(&k).copied()
}

/// Relies on hashbrown::HashMap::insert: the key maps to the value
/// afterwards and the other keys keep theirs.
#[verifier::external_body]
fn map_insert(m: &mut FrequencyMap, k: u64, v: usize)
    ensures
        frequency_contents(*final(m)) == frequency_contents(*old(m)).insert(k, v),
{
    m.inner.insert(k, v);
}

/// Relies on hashbrown::HashMap::iter: every entry once, in an order that
/// the map chooses.
#[verifier::external_body]
fn map_entries(m: &FrequencyMap) -> (r: Vec<(u64, usize)>)
    ensures
        forall|i: int, j: int| 0 <= i < j < r@.len() ==> r@[i].0 != r@[j].0,
        forall|i: int|
            0 <= i < r@.len() ==> frequency_contents(*m).contains_key(#[trigger] r@[i].0)
                && frequency_contents(*m)[r@[i].0] == r@[i].1,
        forall|k: u64| #[trigger]
            frequency_contents(*m).contains_key(k) ==> exists|i: int|
                0 <= i < r@.len() && r@[i].0 == k,
{
    m.inner.iter().map(|(k, v)| (*k, *v)).collect()
}

/// Relies on hashbrown::HashMap::len: the number of keys held.
#[verifier::external_body]
fn map_len(m: &FrequencyMap) -> (r: usize)
    ensures
        r as nat == frequency_contents(*m).len(),
{
    m.inner.len()
}

impl FrequencyMap {
    /// An empty map.
    pub fn new() -> (r: FrequencyMap)
        ensures
            frequency_contents(r) == Map::<u64, usize>::empty(),
    {
        let r = map_new();
        assert(frequency_contents(r) =~= Map::<u64, usize>::empty());
        r
    }

    /// The count held for `k`, 0 where none is held.
    pub fn count(&self, k: u64) -> (r: usize)
        ensures
            r == if frequency_contents(*self).contains_key(k) {
                frequency_contents(*self)[k]
            } else {
                0
            },
    {
        match map_get(self, k) {
            Some(v) => v,
            None => 0,
        }
    }

    /// Adds one occurrence of `k`.
    pub fn increment(&mut self, k: u64)
        requires
            !frequency_contents(*old(self)).contains_key(k) || frequency_contents(*old(self))[k]
                < usize::MAX,
        ensures
            frequency_contents(*final(self)) == frequency_contents(*old(self)).insert(
                k,
                if frequency_contents(*old(self)).contains_key(k) {
                    (frequency_contents(*old(self))[k] + 1) as usize
                } else {
                    1
                },
            ),
    {
        match map_get(self, k) {
            Some(v) => map_insert(self, k, v + 1),
            None => map_insert(self, k, 1),
        }
    }

    /// The number of distinct chunks held.
    pub fn len(&self) -> (r: usize)
        ensures
            r as nat == frequency_contents(*self).len(),
    {
        map_len(self)
    }

    /// Whether no chunk is held.
    pub fn is_empty(&self) -> (r: bool)
        ensures
            r == (frequency_contents(*self).len() == 0),
    {
        map_len(self) == 0
    }

    /// The entries held, each once, in the map's own order.
    pub fn entries(&self) -> (r: Vec<(u64, usize)>)
        ensures
            forall|i: int, j: int| 0 <= i < j < r@.len() ==> r@[i].0 != r@[j].0,
            forall|i: int|
                0 <= i < r@.len() ==> frequency_contents(*self).contains_key(#[trigger] r@[i].0)
                    && frequency_contents(*self)[r@[i].0] == r@[i].1,
            forall|k: u64| #[trigger]
                frequency_contents(*self).contains_key(k) ==> exists|i: int|
                    0 <= i < r@.len() && r@[i].0 == k,
    {
        map_entries(self)
    }
}

/// A set of paths, held in a hash set.
#[verifier::external_body]
pub struct NameSet {
    inner: hashbrown::HashSet<String>,
}

/// The paths that a name set holds.
pub uninterp spec fn name_contents(s: NameSet) -> Set<Seq<char>>;

/// Relies on hashbrown::HashSet::new: a new set holds nothing.
#[verifier::external_body]
pub(crate) fn set_new() -> (r: NameSet)
    ensures
        forall|s: Seq<char>| !(#[trigger] name_contents(r).contains(s)),
{
    NameSet { inner: hashbrown::HashSet::new() }
}

/// Relies on hashbrown::HashSet::insert: the set holds the path afterwards,
/// besides what it held.
#[verifier::external_body]
pub(crate) fn set_insert(s: &mut NameSet, name: String)
    ensures
        name_contents(*final(s)) == name_contents(*old(s)).insert(name@),
{
    s.inner.insert(name);
}

/// Relies on hashbrown::HashSet::contains: whether the path is held.
#[verifier::external_body]
pub(crate) fn set_contains(s: &NameSet, name: &str) -> (r: bool)
    ensures
        r == name_contents(*s).contains(name@),
{
    s.inner.contains(name)
}

} // verus!
