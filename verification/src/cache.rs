use vstd::prelude::*;

verus! {

/// One word whose verdict is remembered.
pub struct CacheEntry {
    pub word: String,
    pub known: bool,
}

/// The verdicts that `entries` hold, word by word.
pub open spec fn entries_map(entries: Seq<CacheEntry>) -> Map<Seq<char>, bool>
    decreases entries.len(),
{
    if entries.len() == 0 {
        Map::empty()
    } else {
        entries_map(entries.drop_last()).insert(entries.last().word@, entries.last().known)
    }
}

/// Whether no word occurs twice in `entries`.
pub open spec fn distinct_words(entries: Seq<CacheEntry>) -> bool {
    forall|i: int, j: int|
        0 <= i < j < entries.len() ==> (#[trigger] entries[i]).word@ != (#[trigger] entries[j]).word@
}

/// A word has a verdict exactly where an entry holds the word.
pub proof fn lemma_entries_map_domain(entries: Seq<CacheEntry>, word: Seq<char>)
    ensures
        entries_map(entries).contains_key(word) <==> exists|i: int|
            0 <= i < entries.len() && (#[trigger] entries[i]).word@ == word,
    decreases entries.len(),
{
    if entries.len() > 0 {
        let before = entries.drop_last();
        lemma_entries_map_domain(before, word);
        if entries_map(entries).contains_key(word) {
            if entries.last().word@ == word {
                assert(entries[entries.len() - 1].word@ == word);
            } else {
                let i = choose|i: int| 0 <= i < before.len() && (#[trigger] before[i]).word@ == word;
                assert(entries[i].word@ == word);
            }
        }
        if exists|i: int| 0 <= i < entries.len() && (#[trigger] entries[i]).word@ == word {
            let i = choose|i: int| 0 <= i < entries.len() && (#[trigger] entries[i]).word@ == word;
            if i < entries.len() - 1 {
                assert(before[i].word@ == word);
            }
        }
    }
}

/// Where no word occurs twice, the verdict of a word is that of its entry.
pub proof fn lemma_entries_map_value(entries: Seq<CacheEntry>, i: int)
    requires
        distinct_words(entries),
        0 <= i < entries.len(),
    ensures
        entries_map(entries).contains_key(entries[i].word@),
        entries_map(entries)[entries[i].word@] == entries[i].known,
    decreases entries.len(),
{
    let before = entries.drop_last();
    if i < entries.len() - 1 {
        assert(distinct_words(before)) by {
            assert forall|a: int, b: int| 0 <= a < b < before.len() implies (#[trigger] before[a]).word@
                != (#[trigger] before[b]).word@ by {
                assert(before[a] == entries[a]);
                assert(before[b] == entries[b]);
            }
        }
        lemma_entries_map_value(before, i);
        assert(before[i] == entries[i]);
        assert(entries[i].word@ != entries[entries.len() - 1].word@);
    }
}

/// The entry of `entries` that holds `word`, if there is one.
fn position(entries: &Vec<CacheEntry>, word: &String) -> (found: Option<usize>)
    ensures
        match found {
            Some(i) => i < entries@.len() && entries@[i as int].word@ == word@,
            None => forall|j: int| 0 <= j < entries@.len() ==> (#[trigger] entries@[j]).word@ != word@,
        },
{
    let mut i: usize = 0;
    while i < entries.len()
        invariant
            0 <= i <= entries@.len(),
            forall|j: int| 0 <= j < i ==> (#[trigger] entries@[j]).word@ != word@,
        decreases entries@.len() - i,
    {
        if entries[i].word == *word {
            return Some(i);
        }
        i = i + 1;
    }
    None
}

/// The verdict that `entries` hold of `word`, if any.
fn find(entries: &Vec<CacheEntry>, word: &String) -> (verdict: Option<bool>)
    requires
        distinct_words(entries@),
    ensures
        verdict == if entries_map(entries@).contains_key(word@) {
            Some(entries_map(entries@)[word@])
        } else {
            None::<bool>
        },
{
    match position(entries, word) {
        Some(i) => {
            proof {
                lemma_entries_map_value(entries@, i as int);
            }
            Some(entries[i].known)
        },
        None => {
            proof {
                lemma_entries_map_domain(entries@, word@);
            }
            None
        },
    }
}

/// Whether every word of `after` is `word` or a word of `before`.
pub open spec fn no_other_word(after: Seq<CacheEntry>, before: Seq<CacheEntry>, word: Seq<char>) -> bool {
    forall|i: int|
        0 <= i < after.len() ==> (#[trigger] after[i]).word@ == word || exists|j: int|
            0 <= j < before.len() && (#[trigger] before[j]).word@ == after[i].word@
}

/// Puts the verdict `known` of `word` into `entries`, in place of the
/// verdict that they held of it, if any.
fn put(entries: &mut Vec<CacheEntry>, word: String, known: bool)
    requires
        distinct_words(old(entries)@),
    ensures
        distinct_words(final(entries)@),
        entries_map(final(entries)@) == entries_map(old(entries)@).insert(word@, known),
        no_other_word(final(entries)@, old(entries)@, word@),
{
    let ghost before = entries@;
    match position(entries, &word) {
        Some(i) => {
            entries[i].known = known;
            proof {
                let after = entries@;
                assert forall|j: int| 0 <= j < after.len() implies (#[trigger] after[j]).word@
                    == before[j].word@ by {}
                assert(distinct_words(after)) by {
                    assert forall|a: int, b: int| 0 <= a < b < after.len() implies (
                    #[trigger] after[a]).word@ != (#[trigger] after[b]).word@ by {
                        assert(after[a].word@ == before[a].word@);
                        assert(after[b].word@ == before[b].word@);
                    }
                }
                assert(entries_map(after) =~= entries_map(before).insert(word@, known)) by {
                    assert forall|w: Seq<char>|
                        entries_map(after).contains_key(w) <==> entries_map(before).insert(
                            word@,
                            known,
                        ).contains_key(w) by {
                        lemma_entries_map_domain(after, w);
                        lemma_entries_map_domain(before, w);
                        if exists|j: int| 0 <= j < after.len() && (#[trigger] after[j]).word@ == w {
                            let j = choose|j: int|
                                0 <= j < after.len() && (#[trigger] after[j]).word@ == w;
                            assert(before[j].word@ == w);
                        }
                        if exists|j: int| 0 <= j < before.len() && (#[trigger] before[j]).word@ == w {
                            let j = choose|j: int|
                                0 <= j < before.len() && (#[trigger] before[j]).word@ == w;
                            assert(after[j].word@ == w);
                        }
                        if w == word@ {
                            assert(after[i as int].word@ == w);
                        }
                    }
                    assert forall|w: Seq<char>| entries_map(after).contains_key(w) implies (
                    #[trigger] entries_map(after)[w]) == entries_map(before).insert(word@, known)[w] by {
                        lemma_entries_map_domain(after, w);
                        let j = choose|j: int| 0 <= j < after.len() && (#[trigger] after[j]).word@ == w;
                        lemma_entries_map_value(after, j);
                        lemma_entries_map_value(before, j);
                        assert(before[j].word@ == w);
                        if w != word@ {
                            assert(j != i);
                            assert(after[j].known == before[j].known);
                        } else {
                            assert(j == i);
                        }
                    }
                }
                assert forall|i: int| 0 <= i < after.len() implies (#[trigger] after[i]).word@ == word@
                    || exists|j: int|
                    0 <= j < before.len() && (#[trigger] before[j]).word@ == after[i].word@ by {
                    assert(before[i].word@ == after[i].word@);
                }
            }
        },
        None => {
            proof {
                let entry = CacheEntry { word, known };
                let after = before.push(entry);
                assert(after.drop_last() =~= before);
                assert(distinct_words(after)) by {
                    assert forall|a: int, b: int| 0 <= a < b < after.len() implies (
                    #[trigger] after[a]).word@ != (#[trigger] after[b]).word@ by {
                        assert(after[a] == before[a]);
                        if b < before.len() {
                            assert(after[b] == before[b]);
                        }
                    }
                }
                assert forall|i: int| 0 <= i < after.len() implies (#[trigger] after[i]).word@ == word@
                    || exists|j: int|
                    0 <= j < before.len() && (#[trigger] before[j]).word@ == after[i].word@ by {
                    if i < before.len() {
                        assert(before[i].word@ == after[i].word@);
                    }
                }
            }
            entries.push(CacheEntry { word, known });
        },
    }
}

/// The number below which the hash of every text lies.
pub const HASH_MODULUS: u64 = 4294967291;

/// The number that stands for a text when a place is sought for it.
pub open spec fn word_hash(word: Seq<char>) -> int
    decreases word.len(),
{
    if word.len() == 0 {
        0
    } else {
        (word_hash(word.drop_last()) * 31 + word.last() as u32) % (HASH_MODULUS as int)
    }
}

/// The number that stands for `word`.
pub fn hash_word(word: &String) -> (hash: u64)
    ensures
        hash == word_hash(word@),
        hash < HASH_MODULUS,
{
    let mut hash: u64 = 0;
    let text = word.as_str();
    proof {
        assert(text@.take(0) =~= Seq::<char>::empty());
    }
    for c in it: text.chars()
        invariant
            it.seq() == text@,
            hash == word_hash(text@.take(it.index())),
            hash < HASH_MODULUS,
    {
        proof {
            let i = it.index();
            assert(text@.take(i + 1).drop_last() =~= text@.take(i));
            assert(text@.take(i + 1).last() == c);
        }
        hash = (hash * 31 + (c as u32) as u64) % HASH_MODULUS;
    }
    proof {
        assert(text@.take(text@.len() as int) =~= text@);
    }
    hash
}

/// The verdicts of the words that were looked up, each word once. The words
/// are kept in a fixed number of buckets, each word in the bucket that its
/// hash names.
pub struct LookupCache {
    buckets: Vec<Vec<CacheEntry>>,
}

/// The number of buckets of a cache.
pub const BUCKETS: usize = 1024;

/// The bucket in which `word` is kept.
pub open spec fn bucket_of(word: Seq<char>) -> int {
    word_hash(word) % (BUCKETS as int)
}

impl View for LookupCache {
    type V = Map<Seq<char>, bool>;

    closed spec fn view(&self) -> Map<Seq<char>, bool> {
        Map::new(
            |word: Seq<char>| entries_map(self.buckets@[bucket_of(word)]@).contains_key(word),
            |word: Seq<char>| entries_map(self.buckets@[bucket_of(word)]@)[word],
        )
    }
}

impl LookupCache {
    /// The invariant of a cache: every word is in the bucket that its hash
    /// names, and no word occurs twice.
    pub closed spec fn wf(&self) -> bool {
        &&& self.buckets@.len() == BUCKETS
        &&& forall|b: int|
            0 <= b < self.buckets@.len() ==> distinct_words((#[trigger] self.buckets@[b])@)
        &&& forall|b: int, i: int|
            0 <= b < self.buckets@.len() && 0 <= i < self.buckets@[b]@.len() ==> bucket_of(
                (#[trigger] self.buckets@[b]@[i]).word@,
            ) == b
    }

    /// A cache that holds no verdict.
    pub fn new() -> (cache: LookupCache)
        ensures
            cache.wf(),
            cache@ == Map::<Seq<char>, bool>::empty(),
    {
        let mut buckets: Vec<Vec<CacheEntry>> = Vec::new();
        let mut b: usize = 0;
        while b < BUCKETS
            invariant
                0 <= b <= BUCKETS,
                buckets@.len() == b,
                forall|k: int| 0 <= k < b ==> (#[trigger] buckets@[k])@.len() == 0,
            decreases BUCKETS - b,
        {
            buckets.push(Vec::new());
            b = b + 1;
        }
        let cache = LookupCache { buckets };
        proof {
            assert forall|word: Seq<char>| !cache@.contains_key(word) by {
                assert(cache.buckets@[bucket_of(word)]@.len() == 0);
            }
            assert(cache@ =~= Map::<Seq<char>, bool>::empty());
        }
        cache
    }

    /// The verdict of `word`, where the cache holds it.
    pub fn get(&self, word: &String) -> (verdict: Option<bool>)
        requires
            self.wf(),
        ensures
            verdict == if self@.contains_key(word@) {
                Some(self@[word@])
            } else {
                None::<bool>
            },
    {
        let b = (hash_word(word) % (BUCKETS as u64)) as usize;
        find(&self.buckets[b], word)
    }

    /// Remembers that the verdict of `word` is `known`, in place of the
    /// verdict that the cache held of it, if any.
    pub fn insert(&mut self, word: String, known: bool)
        requires
            old(self).wf(),
        ensures
            final(self).wf(),
            final(self)@ == old(self)@.insert(word@, known),
    {
        let b = (hash_word(&word) % (BUCKETS as u64)) as usize;
        let ghost before = self.buckets@;
        let ghost text = word@;
        put(&mut self.buckets[b], word, known);
        proof {
            let after = self.buckets@;
            assert forall|k: int| 0 <= k < after.len() && k != b implies #[trigger] after[k] == before[k] by {}
            assert forall|k: int, i: int|
                0 <= k < after.len() && 0 <= i < after[k]@.len() implies bucket_of(
                (#[trigger] after[k]@[i]).word@,
            ) == k by {
                if k == b {
                    if after[k]@[i].word@ != text {
                        let j = choose|j: int|
                            0 <= j < before[k]@.len() && (#[trigger] before[k]@[j]).word@
                                == after[k]@[i].word@;
                        assert(bucket_of(before[k]@[j].word@) == k);
                    }
                } else {
                    assert(after[k] == before[k]);
                    assert(bucket_of(before[k]@[i].word@) == k);
                }
            }
            assert(self@ =~= old(self)@.insert(text, known)) by {
                assert forall|w: Seq<char>| #[trigger] self@.contains_key(w) <==> old(self)@.insert(
                    text,
                    known,
                ).contains_key(w) by {
                    if bucket_of(w) != b {
                        assert(after[bucket_of(w)] == before[bucket_of(w)]);
                    }
                }
                assert forall|w: Seq<char>| self@.contains_key(w) implies #[trigger] self@[w] == old(
                    self,
                )@.insert(text, known)[w] by {
                    if bucket_of(w) != b {
                        assert(after[bucket_of(w)] == before[bucket_of(w)]);
                    }
                }
            }
        }
    }
}

} // verus!
