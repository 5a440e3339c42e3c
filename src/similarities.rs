use vstd::prelude::*;
use vstd::std_specs::btree::increasing_seq;
use vstd::std_specs::cmp::OrdSpec;
use vstd::std_specs::iter::IteratorSpec;

use crate::chunker::{bytes_to_chunks, file_digests};
use crate::tables::{
    frequency_contents, name_contents, set_contains, set_insert, set_new, FrequencyMap, NameSet,
};

verus! {

/// How often `k` occurs in `s`.
pub open spec fn occurrences(s: Seq<u64>, k: u64) -> nat
    decreases s.len(),
{
    if s.len() == 0 {
        0
    } else {
        occurrences(s.drop_last(), k) + if s.last() == k {
            1nat
        } else {
            0nat
        }
    }
}

/// `m` maps each chunk of `s` to the number of its occurrences in `s`.
pub open spec fn is_frequency_map(s: Seq<u64>, m: Map<u64, usize>) -> bool {
    &&& forall|k: u64| #[trigger] m.contains_key(k) <==> s.contains(k)
    &&& forall|k: u64| #[trigger] m.contains_key(k) ==> m[k] as nat == occurrences(s, k)
}

/// The count that `m` holds for `k`, zero where it holds none.
pub open spec fn count_of(m: Map<u64, usize>, k: u64) -> nat {
    if m.contains_key(k) {
        m[k] as nat
    } else {
        0
    }
}

/// `after` is `before` with the counts of `added` added key by key.
pub open spec fn is_merge(after: Map<u64, usize>, before: Map<u64, usize>, added: Map<u64, usize>) -> bool {
    &&& forall|k: u64| #[trigger]
        after.contains_key(k) <==> before.contains_key(k) || added.contains_key(k)
    &&& forall|k: u64| #[trigger] count_of(after, k) == count_of(before, k) + count_of(added, k)
}

/// Adding the counts of `added` to `before` fits in a `usize`.
pub open spec fn merge_fits(before: Map<u64, usize>, added: Map<u64, usize>) -> bool {
    forall|k: u64| #[trigger] count_of(before, k) + count_of(added, k) <= usize::MAX
}

proof fn lemma_occurrences_bound(s: Seq<u64>, k: u64)
    ensures
        occurrences(s, k) <= s.len(),
        occurrences(s, k) > 0 <==> s.contains(k),
    decreases s.len(),
{
    if s.len() > 0 {
        let p = s.drop_last();
        lemma_occurrences_bound(p, k);
        if s.last() == k {
            assert(s.contains(k)) by {
                assert(s[s.len() - 1] == k);
            }
        } else {
            if s.contains(k) {
                let i = choose|i: int| 0 <= i < s.len() && s[i] == k;
                assert(p[i] == k);
            }
            if p.contains(k) {
                let i = choose|i: int| 0 <= i < p.len() && p[i] == k;
                assert(s[i] == k);
            }
        }
    }
}

proof fn lemma_contains_push(prefix: Seq<u64>, next: Seq<u64>, k: u64)
    requires
        next == prefix.push(k),
    ensures
        forall|x: u64| next.contains(x) <==> prefix.contains(x) || x == k,
{
    assert forall|x: u64| next.contains(x) <==> prefix.contains(x) || x == k by {
        if next.contains(x) && x != k {
            let j = choose|j: int| 0 <= j < next.len() && next[j] == x;
            assert(prefix[j] == x);
        }
        if prefix.contains(x) {
            let j = choose|j: int| 0 <= j < prefix.len() && prefix[j] == x;
            assert(next[j] == x);
        }
        if x == k {
            assert(next[prefix.len() as int] == x);
        }
    }
}

/// The number of occurrences of each chunk of a document.
#[verifier::spinoff_prover]
pub fn compute_document_frequencies(doc: &[u64]) -> (r: std::collections::BTreeMap<u64, usize>)
    ensures
        is_frequency_map(doc@, r@),
{
    let mut m: std::collections::BTreeMap<u64, usize> = std::collections::BTreeMap::new();
    let mut i: usize = 0;
    while i < doc.len()
        invariant
            i <= doc@.len(),
            is_frequency_map(doc@.subrange(0, i as int), m@),
        decreases doc@.len() - i,
    {
        let ghost prefix = doc@.subrange(0, i as int);
        let ghost next = doc@.subrange(0, i as int + 1);
        let k = doc[i];
        proof {
            assert(next.drop_last() =~= prefix);
            assert(next.last() == k);
            assert(next =~= prefix.push(k));
            lemma_contains_push(prefix, next, k);
            lemma_occurrences_bound(prefix, k);
        }
        match m.get(&k) {
            Some(c) => {
                let c = *c;
                m.insert(k, c + 1);
            },
            None => {
                m.insert(k, 1);
            },
        }
        i = i + 1;
    }
    assert(doc@.subrange(0, doc@.len() as int) =~= doc@);
    m
}

/// The number of occurrences of each chunk of a file's chunk sequence.
#[verifier::spinoff_prover]
pub fn compute_file_frequencies(chunks: &[u64]) -> (r: FrequencyMap)
    ensures
        is_frequency_map(chunks@, frequency_contents(r)),
{
    let mut m = FrequencyMap::new();
    let mut i: usize = 0;
    while i < chunks.len()
        invariant
            i <= chunks@.len(),
            is_frequency_map(chunks@.subrange(0, i as int), frequency_contents(m)),
        decreases chunks@.len() - i,
    {
        let ghost prefix = chunks@.subrange(0, i as int);
        let ghost next = chunks@.subrange(0, i as int + 1);
        let k = chunks[i];
        proof {
            assert(next.drop_last() =~= prefix);
            assert(next.last() == k);
            assert(next =~= prefix.push(k));
            lemma_contains_push(prefix, next, k);
            lemma_occurrences_bound(prefix, k);
        }
        m.increment(k);
        i = i + 1;
    }
    assert(chunks@.subrange(0, chunks@.len() as int) =~= chunks@);
    m
}

/// The entries of a count map in ascending key order.
#[verifier::spinoff_prover]
fn sorted_entries(m: &std::collections::BTreeMap<u64, usize>) -> (r: Vec<(u64, usize)>)
    ensures
        forall|i: int, j: int| 0 <= i < j < r@.len() ==> r@[i].0 < r@[j].0,
        forall|i: int|
            0 <= i < r@.len() ==> m@.contains_key(#[trigger] r@[i].0) && m@[r@[i].0] == r@[i].1,
        forall|k: u64| #[trigger]
            m@.contains_key(k) ==> exists|i: int| 0 <= i < r@.len() && r@[i].0 == k,
{
    let mut r: Vec<(u64, usize)> = Vec::new();
    let entries = m.iter();
    let ghost all = entries.remaining();
    for (k, v) in it: entries
        invariant
            r@.len() == it.index(),
            it.seq() == all,
            forall|i: int| 0 <= i < it.index() ==> #[trigger] r@[i] == (*all[i].0, *all[i].1),
    {
        r.push((*k, *v));
    }
    proof {
        assert(vstd::laws_cmp::obeys_cmp::<u64>());
        let keys = all.map_values(|kv: (&u64, &usize)| *kv.0);
        assert(increasing_seq(keys));
        assert(r@.len() == all.len());
        assert forall|i: int, j: int| 0 <= i < j < r@.len() implies r@[i].0 < r@[j].0 by {
            assert(keys[i] == r@[i].0);
            assert(keys[j] == r@[j].0);
            assert(keys[i].cmp_spec(&keys[j]) is Less);
        }
        assert(all == vstd::std_specs::btree::spec_btree_map_iter(m).remaining());
        assert forall|k: u64| #[trigger]
            m@.contains_key(k) implies exists|i: int| 0 <= i < r@.len() && r@[i].0 == k by {
            assert(all.contains((&k, &m@[k])));
            let i = choose|i: int| 0 <= i < all.len() && all[i] == (&k, &m@[k]);
            assert(r@[i].0 == k);
        }
    }
    r
}

/// The paths that a list of strings holds.
pub open spec fn names_of(v: Seq<String>) -> Seq<Seq<char>> {
    v.map_values(|f: String| f@)
}

/// Whether one of the first `n` entries has key `k`.
spec fn seen(e: Seq<(u64, usize)>, n: int, k: u64) -> bool {
    exists|j: int| 0 <= j < n && (#[trigger] e[j]).0 == k
}

/// One term of a document digest: a chunk, its number of occurrences in
/// the document, its count in the corpus model and the number of distinct
/// chunks of the model. Its weight is
/// `log10(total / count) * log10(1 + frequency)`, finite since all three
/// numbers are positive.
#[derive(Clone, Copy, Debug, PartialEq, Eq, Structural)]
pub struct DigestTerm {
    pub chunk: u64,
    pub frequency: usize,
    pub count: usize,
    pub total: usize,
}

/// `t` is the term of its chunk for the document `doc` against `counts`.
pub open spec fn is_term_of(counts: Map<u64, usize>, doc: Seq<u64>, t: DigestTerm) -> bool {
    &&& t.frequency as nat == occurrences(doc, t.chunk)
    &&& t.frequency > 0
    &&& counts.contains_key(t.chunk)
    &&& t.count == counts[t.chunk]
    &&& t.count > 0
    &&& t.total as nat == counts.len()
    &&& t.total > 0
}

/// The corpus model: the files indexed so far and, for each chunk, the
/// number of its occurrences over all of them.
#[derive(Debug)]
pub struct DocumentCollection {
    files: Vec<String>,
    collection_digests: std::collections::BTreeMap<u64, usize>,
}

impl DocumentCollection {
    /// The paths of the indexed files.
    pub closed spec fn file_set(&self) -> Set<Seq<char>> {
        names_of(self.files@).to_set()
    }

    /// The accumulated occurrence count of each chunk.
    pub closed spec fn chunk_counts(&self) -> Map<u64, usize> {
        self.collection_digests@
    }

    /// Each path is held once.
    pub closed spec fn wf(&self) -> bool {
        names_of(self.files@).no_duplicates()
    }

    /// An empty model.
    pub fn new() -> (r: DocumentCollection)
        ensures
            r.wf(),
            r.file_set() == Set::<Seq<char>>::empty(),
            r.chunk_counts() == Map::<u64, usize>::empty(),
    {
        let r = DocumentCollection {
            files: Vec::new(),
            collection_digests: std::collections::BTreeMap::new(),
        };
        assert(names_of(r.files@).to_set() =~= Set::<Seq<char>>::empty());
        r
    }

    /// A deep copy of the model.
    pub fn copy(&self) -> (r: DocumentCollection)
        requires
            self.wf(),
        ensures
            r.wf(),
            r.file_set() == self.file_set(),
            r.chunk_counts() == self.chunk_counts(),
    {
        let mut files: Vec<String> = Vec::new();
        let mut i: usize = 0;
        while i < self.files.len()
            invariant
                i <= self.files@.len(),
                names_of(files@) =~= names_of(self.files@).subrange(0, i as int),
            decreases self.files@.len() - i,
        {
            let name = self.files[i].clone();
            assert(name@ == self.files@[i as int]@);
            let ghost prev = files@;
            files.push(name);
            assert(names_of(files@) =~= names_of(prev).push(name@));
            i = i + 1;
        }
        assert(names_of(self.files@).subrange(0, i as int) =~= names_of(self.files@));
        DocumentCollection { files, collection_digests: self.collection_digests.clone() }
    }

    /// Whether `name` is one of the indexed files.
    pub fn exists_file(&self, name: &str) -> (r: bool)
        ensures
            r == self.file_set().contains(name@),
    {
        let wanted = name.to_owned();
        let mut i: usize = 0;
        while i < self.files.len()
            invariant
                i <= self.files@.len(),
                wanted@ == name@,
                forall|j: int| 0 <= j < i ==> self.files@[j]@ != name@,
            decreases self.files@.len() - i,
        {
            if self.files[i] == wanted {
                assert(names_of(self.files@)[i as int] == name@);
                return true;
            }
            i = i + 1;
        }
        proof {
            if names_of(self.files@).contains(name@) {
                let j = choose|j: int|
                    0 <= j < names_of(self.files@).len() && names_of(self.files@)[j] == name@;
                assert(self.files@[j]@ == name@);
            }
        }
        false
    }

    /// The number of indexed files.
    pub fn number_of_files(&self) -> (r: usize)
        requires
            self.wf(),
        ensures
            r == self.file_set().len(),
    {
        proof {
            names_of(self.files@).unique_seq_to_set();
        }
        self.files.len()
    }

    /// The paths of the indexed files, each once.
    pub fn get_files(&self) -> (r: Vec<String>)
        requires
            self.wf(),
        ensures
            names_of(r@).no_duplicates(),
            names_of(r@).to_set() == self.file_set(),
    {
        let mut files: Vec<String> = Vec::new();
        let mut i: usize = 0;
        while i < self.files.len()
            invariant
                i <= self.files@.len(),
                names_of(files@) =~= names_of(self.files@).subrange(0, i as int),
            decreases self.files@.len() - i,
        {
            let name = self.files[i].clone();
            assert(name@ == self.files@[i as int]@);
            let ghost prev = files@;
            files.push(name);
            assert(names_of(files@) =~= names_of(prev).push(name@));
            i = i + 1;
        }
        assert(names_of(self.files@).subrange(0, i as int) =~= names_of(self.files@));
        files
    }

    /// Adds one path to the set of files.
    #[verifier::spinoff_prover]
    fn insert_file(&mut self, name: &String)
        requires
            old(self).wf(),
        ensures
            final(self).wf(),
            final(self).file_set() == old(self).file_set().insert(name@),
            final(self).chunk_counts() == old(self).chunk_counts(),
    {
        if !self.exists_file(name.as_str()) {
            let ghost before = names_of(self.files@);
            self.files.push(name.clone());
            assert(names_of(self.files@) =~= before.push(name@));
            assert(names_of(self.files@).to_set() =~= before.to_set().insert(name@)) by {
                assert forall|x: Seq<char>| names_of(self.files@).contains(x) <==> before.contains(x) || x == name@ by {
                    if names_of(self.files@).contains(x) && x != name@ {
                        let j = choose|j: int| 0 <= j < names_of(self.files@).len() && names_of(self.files@)[j] == x;
                        assert(before[j] == x);
                    }
                    if before.contains(x) {
                        let j = choose|j: int| 0 <= j < before.len() && before[j] == x;
                        assert(names_of(self.files@)[j] == x);
                    }
                    if x == name@ {
                        assert(names_of(self.files@)[before.len() as int] == x);
                    }
                }
            }
        } else {
            assert(self.file_set().insert(name@) =~= self.file_set());
        }
    }

    /// Adds counts, given as entries with distinct keys that make up the map
    /// `added`, to the chunk counts.
    #[verifier::spinoff_prover]
    fn merge_entries(&mut self, entries: &Vec<(u64, usize)>, added: Ghost<Map<u64, usize>>)
        requires
            merge_fits(old(self).chunk_counts(), added@),
            forall|a: int, b: int| 0 <= a < b < entries@.len() ==> entries@[a].0 != entries@[b].0,
            forall|a: int|
                0 <= a < entries@.len() ==> added@.contains_key(#[trigger] entries@[a].0)
                    && added@[entries@[a].0] == entries@[a].1,
            forall|k: u64| #[trigger]
                added@.contains_key(k) ==> exists|a: int| 0 <= a < entries@.len() && entries@[a].0 == k,
        ensures
            final(self).files == old(self).files,
            is_merge(final(self).chunk_counts(), old(self).chunk_counts(), added@),
    {
        let ghost frequencies = added@;
        let ghost base = self.collection_digests@;
        let ghost e = entries@;
        let mut i: usize = 0;
        while i < entries.len()
            invariant
                i <= e.len(),
                e == entries@,
                self.files == old(self).files,
                base == old(self).collection_digests@,
                merge_fits(base, frequencies),
                forall|a: int, b: int| 0 <= a < b < e.len() ==> e[a].0 != e[b].0,
                forall|k: u64| #[trigger]
                    frequencies.contains_key(k) ==> exists|a: int| 0 <= a < e.len() && e[a].0 == k,
                forall|a: int|
                    0 <= a < e.len() ==> frequencies.contains_key(#[trigger] e[a].0)
                        && frequencies[e[a].0] == e[a].1,
                forall|k: u64| #[trigger]
                    self.collection_digests@.contains_key(k) <==> base.contains_key(k) || seen(
                        e,
                        i as int,
                        k,
                    ),
                forall|k: u64| #[trigger]
                    count_of(self.collection_digests@, k) == count_of(base, k) + if seen(
                        e,
                        i as int,
                        k,
                    ) {
                        count_of(frequencies, k)
                    } else {
                        0
                    },
            decreases e.len() - i,
        {
            let (k, v) = entries[i];
            proof {
                assert(!seen(e, i as int, k)) by {
                    if seen(e, i as int, k) {
                        let j = choose|j: int| 0 <= j < i && (#[trigger] e[j]).0 == k;
                        assert(e[j].0 != e[i as int].0);
                    }
                }
                assert(count_of(frequencies, k) == v);
                assert(count_of(self.collection_digests@, k) == count_of(base, k));
                assert(count_of(base, k) + count_of(frequencies, k) <= usize::MAX);
                assert forall|x: u64| seen(e, i as int + 1, x) <==> seen(e, i as int, x) || x == k by {
                    if seen(e, i as int + 1, x) && x != k {
                        let j = choose|j: int| 0 <= j < i + 1 && (#[trigger] e[j]).0 == x;
                        assert(j < i);
                    }
                    if seen(e, i as int, x) {
                        let j = choose|j: int| 0 <= j < i && (#[trigger] e[j]).0 == x;
                        assert(e[j].0 == x);
                    }
                    if x == k {
                        assert(e[i as int].0 == x);
                    }
                }
            }
            let current: usize = match self.collection_digests.get(&k) {
                Some(c) => *c,
                None => 0,
            };
            let ghost prev = self.collection_digests@;
            self.collection_digests.insert(k, current + v);
            proof {
                assert forall|x: u64| #[trigger]
                    count_of(self.collection_digests@, x) == count_of(base, x) + if seen(
                        e,
                        i as int + 1,
                        x,
                    ) {
                        count_of(frequencies, x)
                    } else {
                        0
                    } by {
                    if x != k {
                        assert(count_of(self.collection_digests@, x) == count_of(prev, x));
                    }
                }
            }
            i = i + 1;
        }
        proof {
            assert forall|k: u64| #[trigger] frequencies.contains_key(k) <==> seen(e, e.len() as int, k) by {
                if frequencies.contains_key(k) {
                    let j = choose|j: int| 0 <= j < e.len() && e[j].0 == k;
                    assert(seen(e, e.len() as int, k));
                }
            }
            assert forall|k: u64| #[trigger]
                count_of(self.collection_digests@, k) == count_of(base, k) + count_of(frequencies, k) by {
                if !seen(e, e.len() as int, k) {
                    assert(!frequencies.contains_key(k));
                }
            }
        }
    }

    /// Adds the counts of `frequencies` to the chunk counts.
    fn merge_counts(&mut self, frequencies: &std::collections::BTreeMap<u64, usize>)
        requires
            merge_fits(old(self).chunk_counts(), frequencies@),
        ensures
            final(self).files == old(self).files,
            is_merge(final(self).chunk_counts(), old(self).chunk_counts(), frequencies@),
    {
        let entries = sorted_entries(frequencies);
        self.merge_entries(&entries, Ghost(frequencies@));
    }

    /// Adds each of `names` to the set of files.
    #[verifier::spinoff_prover]
    fn insert_files(&mut self, names: &[String])
        requires
            old(self).wf(),
        ensures
            final(self).wf(),
            final(self).file_set() == old(self).file_set() + names_of(names@).to_set(),
            final(self).chunk_counts() == old(self).chunk_counts(),
    {
        let mut i: usize = 0;
        while i < names.len()
            invariant
                i <= names@.len(),
                self.wf(),
                self.file_set() == old(self).file_set() + names_of(names@.subrange(0, i as int)).to_set(),
                self.chunk_counts() == old(self).chunk_counts(),
            decreases names@.len() - i,
        {
            self.insert_file(&names[i]);
            assert(names_of(names@.subrange(0, i as int + 1)) =~= names_of(
                names@.subrange(0, i as int),
            ).push(names@[i as int]@));
            proof {
                names_of(names@.subrange(0, i as int)).lemma_push_to_set_commute(names@[i as int]@);
            }
            assert(names_of(names@.subrange(0, i as int + 1)).to_set() =~= names_of(
                names@.subrange(0, i as int),
            ).to_set().insert(names@[i as int]@));
            i = i + 1;
        }
        assert(names@.subrange(0, i as int) =~= names@);
        assert(self.file_set() =~= old(self).file_set() + names_of(names@).to_set());
    }

    /// Whether the counts of `frequencies` can be added to the chunk counts
    /// without overflow.
    #[verifier::spinoff_prover]
    pub fn fits(&self, frequencies: &FrequencyMap) -> (r: bool)
        ensures
            r == merge_fits(self.chunk_counts(), frequency_contents(*frequencies)),
    {
        let ghost added = frequency_contents(*frequencies);
        let entries = frequencies.entries();
        let mut i: usize = 0;
        while i < entries.len()
            invariant
                i <= entries@.len(),
                added == frequency_contents(*frequencies),
                forall|a: int|
                    0 <= a < entries@.len() ==> added.contains_key(#[trigger] entries@[a].0)
                        && added[entries@[a].0] == entries@[a].1,
                forall|k: u64| #[trigger]
                    added.contains_key(k) ==> exists|a: int|
                        0 <= a < entries@.len() && entries@[a].0 == k,
                forall|a: int|
                    0 <= a < i ==> count_of(self.chunk_counts(), (#[trigger] entries@[a]).0)
                        + entries@[a].1 <= usize::MAX,
            decreases entries@.len() - i,
        {
            let (k, v) = entries[i];
            let current: usize = match self.collection_digests.get(&k) {
                Some(c) => *c,
                None => 0,
            };
            if current > usize::MAX - v {
                assert(added.contains_key(entries@[i as int].0));
                assert(count_of(self.chunk_counts(), k) + count_of(added, k) > usize::MAX);
                assert(!merge_fits(self.chunk_counts(), added));
                return false;
            }
            i = i + 1;
        }
        assert forall|k: u64| #[trigger]
            count_of(self.chunk_counts(), k) + count_of(added, k) <= usize::MAX by {
            if added.contains_key(k) {
                let a = choose|a: int| 0 <= a < entries@.len() && entries@[a].0 == k;
                assert(count_of(self.chunk_counts(), entries@[a].0) + entries@[a].1 <= usize::MAX);
            }
        }
        true
    }

    /// Adds another model to this one: its files join the set of files and
    /// its counts are added chunk by chunk.
    #[verifier::spinoff_prover]
    pub fn extend(&mut self, other: &DocumentCollection)
        requires
            old(self).wf(),
            merge_fits(old(self).chunk_counts(), other.chunk_counts()),
        ensures
            final(self).wf(),
            final(self).file_set() == old(self).file_set() + other.file_set(),
            is_merge(final(self).chunk_counts(), old(self).chunk_counts(), other.chunk_counts()),
    {
        self.insert_files(other.files.as_slice());
        self.merge_counts(&other.collection_digests);
    }

    /// Merges the chunk counts of indexed files into the model and adds
    /// their paths; returns the number of distinct chunks afterwards.
    #[verifier::spinoff_prover]
    pub fn update_collection(&mut self, frequencies: &FrequencyMap, names: &[String]) -> (r: usize)
        requires
            old(self).wf(),
            merge_fits(old(self).chunk_counts(), frequency_contents(*frequencies)),
        ensures
            final(self).wf(),
            final(self).file_set() == old(self).file_set() + names_of(names@).to_set(),
            is_merge(
                final(self).chunk_counts(),
                old(self).chunk_counts(),
                frequency_contents(*frequencies),
            ),
            r == final(self).chunk_counts().len(),
    {
        let entries = frequencies.entries();
        self.merge_entries(&entries, Ghost(frequency_contents(*frequencies)));
        self.insert_files(names);
        self.collection_digests.len()
    }

    /// Indexes one file, given its path and its bytes. A path that is
    /// already indexed leaves the model as it is and gives `None`; otherwise
    /// the file's chunk sequence and the occurrence count of each of its
    /// chunks are returned, and the counts are added to the model.
    #[verifier::spinoff_prover]
    pub fn add_file(&mut self, name: &str, data: &[u8]) -> (r: Option<(Vec<u64>, FrequencyMap)>)
        requires
            old(self).wf(),
            forall|k: u64| #[trigger]
                count_of(old(self).chunk_counts(), k) + occurrences(file_digests(data@), k)
                    <= usize::MAX,
        ensures
            final(self).wf(),
            old(self).file_set().contains(name@) ==> r is None && final(self).file_set()
                == old(self).file_set() && final(self).chunk_counts() == old(self).chunk_counts(),
            !old(self).file_set().contains(name@) ==> (r matches Some((chunks, frequencies)) && {
                &&& chunks@ == file_digests(data@)
                &&& is_frequency_map(chunks@, frequency_contents(frequencies))
                &&& final(self).file_set() == old(self).file_set().insert(name@)
                &&& is_merge(
                    final(self).chunk_counts(),
                    old(self).chunk_counts(),
                    frequency_contents(frequencies),
                )
            }),
    {
        if self.exists_file(name) {
            return None;
        }
        let chunks = bytes_to_chunks(data);
        let frequencies = compute_file_frequencies(chunks.as_slice());
        let ghost added = frequency_contents(frequencies);
        proof {
            assert forall|k: u64| #[trigger]
                count_of(self.chunk_counts(), k) + count_of(added, k) <= usize::MAX by {
                assert(count_of(self.chunk_counts(), k) + occurrences(file_digests(data@), k)
                    <= usize::MAX);
                if !added.contains_key(k) {
                    assert(count_of(added, k) == 0);
                }
            }
        }
        let entries = frequencies.entries();
        self.merge_entries(&entries, Ghost(added));
        let owned = name.to_owned();
        self.insert_file(&owned);
        Some((chunks, frequencies))
    }

    /// A model that holds the given paths and chunk counts.
    pub fn from_parts(files: &[String], counts: std::collections::BTreeMap<u64, usize>) -> (r:
        DocumentCollection)
        ensures
            r.wf(),
            r.file_set() == names_of(files@).to_set(),
            r.chunk_counts() == counts@,
    {
        let mut r = DocumentCollection::new();
        r.insert_files(files);
        r.collection_digests = counts;
        assert(r.file_set() =~= names_of(files@).to_set());
        r
    }

    /// The chunk counts in ascending chunk order.
    pub fn chunk_entries(&self) -> (r: Vec<(u64, usize)>)
        ensures
            forall|i: int, j: int| 0 <= i < j < r@.len() ==> r@[i].0 < r@[j].0,
            forall|i: int|
                0 <= i < r@.len() ==> self.chunk_counts().contains_key(#[trigger] r@[i].0)
                    && self.chunk_counts()[r@[i].0] == r@[i].1,
            forall|k: u64| #[trigger]
                self.chunk_counts().contains_key(k) ==> exists|i: int|
                    0 <= i < r@.len() && r@[i].0 == k,
    {
        sorted_entries(&self.collection_digests)
    }

    /// The term of `chunk`, which occurs `frequency` times in a document.
    /// There is none where the chunk does not occur, or where the model
    /// holds no positive count for it.
    pub fn chunk_term(&self, chunk: u64, frequency: usize) -> (r: Option<DigestTerm>)
        ensures
            r is Some <==> frequency > 0 && self.chunk_counts().contains_key(chunk)
                && self.chunk_counts()[chunk] > 0,
            r matches Some(t) ==> t.chunk == chunk && t.frequency == frequency && t.count
                == self.chunk_counts()[chunk] && t.total as nat == self.chunk_counts().len()
                && t.total > 0,
    {
        if frequency == 0 {
            return None;
        }
        match self.collection_digests.get(&chunk) {
            None => None,
            Some(value) => {
                if *value > 0 {
                    proof {
                        let dom = self.collection_digests@.dom();
                        if dom.len() == 0 {
                            dom.lemma_len0_is_empty();
                            assert(dom.contains(chunk));
                        }
                    }
                    Some(
                        DigestTerm {
                            chunk,
                            frequency,
                            count: *value,
                            total: self.collection_digests.len(),
                        },
                    )
                } else {
                    None
                }
            },
        }
    }

    /// The terms of a document's digest, in ascending chunk order: one for
    /// each distinct chunk of `doc` that the model counts.
    #[verifier::rlimit(100)]
    #[verifier::spinoff_prover]
    pub fn compute_document_terms(&self, doc: &[u64]) -> (r: Vec<DigestTerm>)
        ensures
            forall|i: int, j: int| 0 <= i < j < r@.len() ==> r@[i].chunk < r@[j].chunk,
            forall|i: int| 0 <= i < r@.len() ==> is_term_of(self.chunk_counts(), doc@, #[trigger] r@[i]),
            forall|k: u64|
                #![trigger doc@.contains(k), self.chunk_counts().contains_key(k)]
                doc@.contains(k) && self.chunk_counts().contains_key(k) && self.chunk_counts()[k]
                    > 0 ==> exists|i: int| 0 <= i < r@.len() && r@[i].chunk == k,
    {
        let frequencies = compute_document_frequencies(doc);
        let entries = sorted_entries(&frequencies);
        let mut r: Vec<DigestTerm> = Vec::new();
        let mut i: usize = 0;
        while i < entries.len()
            invariant
                i <= entries@.len(),
                is_frequency_map(doc@, frequencies@),
                forall|a: int, b: int| 0 <= a < b < entries@.len() ==> entries@[a].0 < entries@[b].0,
                forall|a: int|
                    0 <= a < entries@.len() ==> frequencies@.contains_key(#[trigger] entries@[a].0)
                        && frequencies@[entries@[a].0] == entries@[a].1,
                forall|k: u64| #[trigger]
                    frequencies@.contains_key(k) ==> exists|a: int|
                        0 <= a < entries@.len() && entries@[a].0 == k,
                forall|a: int| 0 <= a < r@.len() ==> is_term_of(self.chunk_counts(), doc@, #[trigger] r@[a]),
                forall|a: int|
                    0 <= a < r@.len() ==> exists|b: int| 0 <= b < i && (#[trigger] r@[a]).chunk == entries@[b].0,
                forall|a: int, b: int| 0 <= a < b < r@.len() ==> r@[a].chunk < r@[b].chunk,
                forall|b: int|
                    0 <= b < i && self.chunk_counts().contains_key(#[trigger] entries@[b].0)
                        && self.chunk_counts()[entries@[b].0] > 0 ==> exists|a: int|
                        0 <= a < r@.len() && r@[a].chunk == entries@[b].0,
            decreases entries@.len() - i,
        {
            let (k, v) = entries[i];
            proof {
                lemma_occurrences_bound(doc@, k);
            }
            let ghost prev = r@;
            assert(frequencies@.contains_key(entries@[i as int].0));
            assert(v as nat == occurrences(doc@, k));
            match self.chunk_term(k, v) {
                Some(t) => {
                    proof {
                        assert forall|a: int| 0 <= a < r@.len() implies r@[a].chunk < k by {
                            let b = choose|b: int| 0 <= b < i && (#[trigger] r@[a]).chunk == entries@[b].0;
                            assert(entries@[b].0 < entries@[i as int].0);
                        }
                        assert(is_term_of(self.chunk_counts(), doc@, t));
                    }
                    r.push(t);
                    proof {
                        assert(r@ == prev.push(t));
                        assert(r@[r@.len() - 1].chunk == entries@[i as int].0);
                        assert forall|a: int| 0 <= a < r@.len() implies is_term_of(self.chunk_counts(), doc@, #[trigger] r@[a]) by {
                            if a < prev.len() {
                                assert(r@[a] == prev[a]);
                            }
                        }
                        assert forall|b: int|
                            0 <= b < i + 1 && self.chunk_counts().contains_key(#[trigger] entries@[b].0)
                                && self.chunk_counts()[entries@[b].0] > 0 implies exists|a: int|
                                0 <= a < r@.len() && r@[a].chunk == entries@[b].0 by {
                            if b < i {
                                let a = choose|a: int| 0 <= a < prev.len() && prev[a].chunk == entries@[b].0;
                                assert(r@[a] == prev[a]);
                            } else {
                                assert(r@[prev.len() as int].chunk == entries@[b].0);
                            }
                        }
                        assert forall|a: int|
                            0 <= a < r@.len() implies exists|b: int| 0 <= b < i + 1 && (#[trigger] r@[a]).chunk == entries@[b].0 by {
                            if a < prev.len() {
                                assert(r@[a] == prev[a]);
                                let b = choose|b: int| 0 <= b < i && prev[a].chunk == entries@[b].0;
                                assert(r@[a].chunk == entries@[b].0);
                            } else {
                                assert(r@[a].chunk == entries@[i as int].0);
                            }
                        }
                    }
                },
                None => {
                    proof {
                        assert forall|b: int|
                            0 <= b < i + 1 && self.chunk_counts().contains_key(#[trigger] entries@[b].0)
                                && self.chunk_counts()[entries@[b].0] > 0 implies exists|a: int|
                                0 <= a < r@.len() && r@[a].chunk == entries@[b].0 by {
                            if b == i {
                                lemma_occurrences_bound(doc@, k);
                                assert(doc@.contains(k));
                                assert(false);
                            }
                        }
                    }
                },
            }
            i = i + 1;
        }
        proof {
            assert forall|k: u64|
                #![trigger doc@.contains(k), self.chunk_counts().contains_key(k)]
                doc@.contains(k) && self.chunk_counts().contains_key(k) && self.chunk_counts()[k]
                    > 0 implies exists|a: int| 0 <= a < r@.len() && r@[a].chunk == k by {
                assert(frequencies@.contains_key(k));
                let b = choose|b: int| 0 <= b < entries@.len() && entries@[b].0 == k;
                assert(self.chunk_counts().contains_key(entries@[b].0));
            }
        }
        r
    }
}

/// The set of the given paths.
#[verifier::spinoff_prover]
fn name_set_of(names: &[String]) -> (r: NameSet)
    ensures
        name_contents(r) == names_of(names@).to_set(),
{
    let mut set = set_new();
    let mut i: usize = 0;
    assert(name_contents(set) =~= names_of(names@.subrange(0, 0)).to_set());
    while i < names.len()
        invariant
            i <= names@.len(),
            name_contents(set) == names_of(names@.subrange(0, i as int)).to_set(),
        decreases names@.len() - i,
    {
        set_insert(&mut set, names[i].clone());
        proof {
            assert(names_of(names@.subrange(0, i as int + 1)) =~= names_of(
                names@.subrange(0, i as int),
            ).push(names@[i as int]@));
            names_of(names@.subrange(0, i as int)).lemma_push_to_set_commute(names@[i as int]@);
        }
        i = i + 1;
    }
    assert(names@.subrange(0, i as int) =~= names@);
    set
}

/// Whether a corpus model and the documents of a database agree: the paths
/// of the model are exactly the paths of the documents.
#[verifier::spinoff_prover]
pub fn verify_consistency(document_collection: &DocumentCollection, document_files: &[String]) -> (r:
    bool)
    ensures
        r == (document_collection.file_set() == names_of(document_files@).to_set()),
{
    let documents = name_set_of(document_files);
    let files = document_collection.files.as_slice();
    let known = name_set_of(files);
    let mut k: usize = 0;
    while k < files.len()
        invariant
            k <= files@.len(),
            files@ == document_collection.files@,
            name_contents(documents) == names_of(document_files@).to_set(),
            forall|j: int| 0 <= j < k ==> name_contents(documents).contains(#[trigger] files@[j]@),
        decreases files@.len() - k,
    {
        if !set_contains(&documents, files[k].as_str()) {
            assert(names_of(files@)[k as int] == files@[k as int]@);
            assert(document_collection.file_set().contains(files@[k as int]@));
            return false;
        }
        k = k + 1;
    }
    let mut i: usize = 0;
    while i < document_files.len()
        invariant
            i <= document_files@.len(),
            name_contents(known) == document_collection.file_set(),
            forall|j: int| 0 <= j < i ==> name_contents(known).contains(#[trigger] document_files@[j]@),
        decreases document_files@.len() - i,
    {
        if !set_contains(&known, document_files[i].as_str()) {
            assert(names_of(document_files@)[i as int] == document_files@[i as int]@);
            assert(names_of(document_files@).to_set().contains(document_files@[i as int]@));
            return false;
        }
        i = i + 1;
    }
    assert(document_collection.file_set() =~= names_of(document_files@).to_set()) by {
        assert forall|x: Seq<char>| #[trigger] document_collection.file_set().contains(x) implies names_of(document_files@).to_set().contains(x) by {
            let j = choose|j: int| 0 <= j < names_of(files@).len() && names_of(files@)[j] == x;
            assert(files@[j]@ == x);
        }
        assert forall|x: Seq<char>| #[trigger] names_of(document_files@).to_set().contains(x) implies document_collection.file_set().contains(x) by {
            let j = choose|j: int| 0 <= j < names_of(document_files@).len() && names_of(document_files@)[j] == x;
            assert(document_files@[j]@ == x);
        }
    }
    true
}

/// Whether every entry of `a` is an entry of `b`.
#[verifier::spinoff_prover]
fn counts_within(a: &std::collections::BTreeMap<u64, usize>, b: &std::collections::BTreeMap<
    u64,
    usize,
>) -> (r: bool)
    ensures
        r == forall|k: u64| #[trigger]
            a@.contains_key(k) ==> b@.contains_key(k) && b@[k] == a@[k],
{
    let entries = sorted_entries(a);
    let mut i: usize = 0;
    while i < entries.len()
        invariant
            i <= entries@.len(),
            forall|j: int|
                0 <= j < entries@.len() ==> a@.contains_key(#[trigger] entries@[j].0)
                    && a@[entries@[j].0] == entries@[j].1,
            forall|k: u64| #[trigger]
                a@.contains_key(k) ==> exists|j: int| 0 <= j < entries@.len() && entries@[j].0 == k,
            forall|j: int|
                0 <= j < i ==> b@.contains_key(#[trigger] entries@[j].0) && b@[entries@[j].0]
                    == entries@[j].1,
        decreases entries@.len() - i,
    {
        let (k, v) = entries[i];
        match b.get(&k) {
            Some(w) => {
                if *w != v {
                    return false;
                }
            },
            None => {
                return false;
            },
        }
        i = i + 1;
    }
    assert forall|k: u64| #[trigger] a@.contains_key(k) implies b@.contains_key(k) && b@[k] == a@[k] by {
        let j = choose|j: int| 0 <= j < entries@.len() && entries@[j].0 == k;
        assert(b@.contains_key(entries@[j].0));
    }
    true
}

/// Whether two models hold the same paths.
#[verifier::spinoff_prover]
fn same_files(a: &DocumentCollection, b: &DocumentCollection) -> (r: bool)
    ensures
        r == (a.file_set() == b.file_set()),
{
    verify_consistency(a, b.files.as_slice())
}

impl PartialEq for DocumentCollection {
    /// Two models are equal when they hold the same paths and the same
    /// chunk counts.
    #[verifier::spinoff_prover]
    fn eq(&self, other: &DocumentCollection) -> (r: bool) {
        if !same_files(self, other) {
            return false;
        }
        let within = counts_within(&self.collection_digests, &other.collection_digests);
        let back = counts_within(&other.collection_digests, &self.collection_digests);
        if within && back {
            assert(self.collection_digests@ =~= other.collection_digests@);
            true
        } else {
            false
        }
    }
}

impl vstd::std_specs::cmp::PartialEqSpecImpl for DocumentCollection {
    open spec fn obeys_eq_spec() -> bool {
        true
    }

    open spec fn eq_spec(&self, other: &DocumentCollection) -> bool {
        self.file_set() == other.file_set() && self.chunk_counts() == other.chunk_counts()
    }
}

/// A model taken apart into its paths (as `get_files` hands them out) and its
/// chunk entries (as `chunk_entries` hands them out), and put together again
/// by `from_parts` from those paths and the map of those entries, holds the
/// same paths and the same counts as the model it was taken from: the two
/// compare equal.
pub proof fn lemma_parts_round_trip(
    c: DocumentCollection,
    files: Seq<String>,
    entries: Seq<(u64, usize)>,
    counts: Map<u64, usize>,
    rebuilt: DocumentCollection,
)
    requires
        names_of(files).to_set() == c.file_set(),
        forall|i: int|
            0 <= i < entries.len() ==> c.chunk_counts().contains_key(#[trigger] entries[i].0)
                && c.chunk_counts()[entries[i].0] == entries[i].1,
        forall|k: u64| #[trigger]
            c.chunk_counts().contains_key(k) ==> exists|i: int| 0 <= i < entries.len() && entries[i].0 == k,
        forall|k: u64| #[trigger]
            counts.contains_key(k) <==> exists|i: int| 0 <= i < entries.len() && entries[i].0 == k,
        forall|i: int| 0 <= i < entries.len() ==> counts[#[trigger] entries[i].0] == entries[i].1,
        rebuilt.file_set() == names_of(files).to_set(),
        rebuilt.chunk_counts() == counts,
    ensures
        rebuilt.file_set() == c.file_set(),
        rebuilt.chunk_counts() == c.chunk_counts(),
{
    assert forall|k: u64| #[trigger] counts.contains_key(k) implies c.chunk_counts().contains_key(k)
        && c.chunk_counts()[k] == counts[k] by {
        let i = choose|i: int| 0 <= i < entries.len() && entries[i].0 == k;
        assert(c.chunk_counts().contains_key(entries[i].0));
    }
    assert forall|k: u64| #[trigger] c.chunk_counts().contains_key(k) implies counts.contains_key(k) by {
        let i = choose|i: int| 0 <= i < entries.len() && entries[i].0 == k;
        assert(counts.contains_key(entries[i].0));
    }
    assert(rebuilt.chunk_counts() =~= c.chunk_counts());
}

} // verus!
