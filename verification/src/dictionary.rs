//! The dictionary: for each digit key, the words that spell it, in the order
//! in which they were filed.

use std::collections::HashMap;
use vstd::prelude::*;
use crate::keypad::{digit_key, word_to_number};

verus! {

/// The builder of the hashers that the dictionary's map hashes its keys
/// with. Nothing is known of a value of this type but that it exists.
#[verifier::external_type_specification]
#[verifier::external_body]
pub struct ExRandomState(ahash::RandomState);

/// The model of a dictionary: a map from digit keys to buckets, each bucket
/// the words filed under its key, in order.
pub type Entries = Map<Seq<u8>, Seq<Seq<char>>>;

/// What a map from digit keys to buckets of words holds: for each key that
/// is present, the words of its bucket in order.
pub uninterp spec fn buckets(map: HashMap<Vec<u8>, Vec<String>, ahash::RandomState>) -> Map<
    Seq<u8>,
    Seq<Seq<char>>,
>;

/// The number of keys that a new dictionary has room for before it grows.
pub const INITIAL_CAPACITY: usize = 100;

/// Calls `ahash::RandomState::default`, which builds a hasher state from
/// keys that it draws from the operating system's random source; it fails
/// only if that source does. Nothing is claimed of the result: two calls
/// give states that hash differently.
#[verifier::external_body]
fn random_state() -> (state: ahash::RandomState) {
    ahash::RandomState::default()
}

/// Calls `HashMap::with_capacity_and_hasher`: the map that it creates is
/// empty. The capacity is kept so small that the size of the allocation
/// cannot overflow.
#[verifier::external_body]
fn map_with_hasher(capacity: usize, state: ahash::RandomState) -> (table: HashMap<Vec<u8>, Vec<String>, ahash::RandomState>)
    requires
        capacity <= u16::MAX,
    ensures
        buckets(table) == Entries::empty(),
{
    HashMap::with_capacity_and_hasher(capacity, state)
}

/// Calls `HashMap::get`: it returns the bucket that is filed under the key,
/// and `None` exactly when the key is absent. A key is found by its bytes,
/// since `ahash::RandomState` builds hashers that hash equal bytes alike.
#[verifier::external_body]
fn map_get<'a>(map: &'a HashMap<Vec<u8>, Vec<String>, ahash::RandomState>, key: &[u8]) -> (found:
    Option<&'a Vec<String>>)
    ensures
        found matches Some(bucket) ==> buckets(*map).contains_key(key@) && buckets(*map)[key@]
            == bucket.deep_view(),
        found is None ==> !buckets(*map).contains_key(key@),
{
    map.get(key)
}

/// Calls `HashMap::remove`: it takes the key and its bucket out of the map
/// and returns the bucket, or returns `None` and leaves the map as it was
/// when the key is absent.
#[verifier::external_body]
fn map_remove(map: &mut HashMap<Vec<u8>, Vec<String>, ahash::RandomState>, key: &[u8]) -> (taken:
    Option<Vec<String>>)
    ensures
        buckets(*final(map)) == buckets(*old(map)).remove(key@),
        taken matches Some(bucket) ==> buckets(*old(map)).contains_key(key@) && buckets(
            *old(map),
        )[key@] == bucket.deep_view(),
        taken is None ==> !buckets(*old(map)).contains_key(key@),
{
    map.remove(key)
}

/// Calls `HashMap::insert`: afterwards the key is present with the given
/// bucket, and every other key is as it was. The bucket that the key had
/// before, if any, is returned.
#[verifier::external_body]
fn map_insert(
    map: &mut HashMap<Vec<u8>, Vec<String>, ahash::RandomState>,
    key: Vec<u8>,
    bucket: Vec<String>,
) -> (replaced: Option<Vec<String>>)
    ensures
        buckets(*final(map)) == buckets(*old(map)).insert(key@, bucket.deep_view()),
        replaced matches Some(before) ==> buckets(*old(map)).contains_key(key@) && buckets(
            *old(map),
        )[key@] == before.deep_view(),
        replaced is None ==> !buckets(*old(map)).contains_key(key@),
{
    map.insert(key, bucket)
}

/// The bucket of a key in a map of buckets: empty where the key is absent.
pub open spec fn bucket_of(dict: Entries, key: Seq<u8>) -> Seq<Seq<char>> {
    if dict.contains_key(key) {
        dict[key]
    } else {
        Seq::<Seq<char>>::empty()
    }
}

/// A map of buckets after a word was filed under a key: the word is the
/// last of that key's bucket, and nothing else has changed.
pub open spec fn filed(dict: Entries, key: Seq<u8>, word: Seq<char>) -> Entries {
    dict.insert(key, bucket_of(dict, key).push(word))
}

/// Every word is filed under its own digit key.
pub open spec fn well_keyed(dict: Entries) -> bool {
    forall|key: Seq<u8>, i: int|
        dict.contains_key(key) && 0 <= i < dict[key].len() ==> digit_key(#[trigger] dict[key][i])
            == key
}

/// The index of a word list: the keys are the digit keys of its words, and
/// the bucket of a key holds the words with that key, in the order of the
/// list, as often as the list has them.
pub open spec fn index_of(words: Seq<Seq<char>>) -> Entries {
    Map::new(
        |key: Seq<u8>| exists|i: int| 0 <= i < words.len() && digit_key(#[trigger] words[i]) == key,
        |key: Seq<u8>| words.filter(|w: Seq<char>| digit_key(w) == key),
    )
}

/// Filing one more word under its digit key gives the index of the list with
/// that word at its end.
pub proof fn lemma_index_push(words: Seq<Seq<char>>, word: Seq<char>)
    ensures
        index_of(words.push(word)) == filed(index_of(words), digit_key(word), word),
{
    let longer = words.push(word);
    let own = digit_key(word);
    let left = index_of(longer);
    let right = filed(index_of(words), own, word);
    assert forall|key: Seq<u8>| left.contains_key(key) <==> right.contains_key(key) by {
        if left.contains_key(key) {
            let i = choose|i: int| 0 <= i < longer.len() && digit_key(#[trigger] longer[i]) == key;
            if i < words.len() {
                assert(digit_key(words[i]) == key);
            }
        }
        if right.contains_key(key) {
            if key == own {
                assert(digit_key(longer[words.len() as int]) == key);
            } else {
                let i = choose|i: int| 0 <= i < words.len() && digit_key(#[trigger] words[i]) == key;
                assert(digit_key(longer[i]) == key);
            }
        }
    }
    assert forall|key: Seq<u8>| left.contains_key(key) implies left[key] == right[key] by {
        let same_key = |w: Seq<char>| digit_key(w) == key;
        words.lemma_filter_push(word, same_key);
        if key == own && !index_of(words).contains_key(key) {
            let kept = words.filter(same_key);
            if kept.len() > 0 {
                words.lemma_filter_pred(same_key, 0);
                assert(kept.contains(kept[0]));
                words.lemma_filter_contains_rev(same_key, kept[0]);
                let i = choose|i: int| 0 <= i < words.len() && words[i] == kept[0];
                assert(digit_key(words[i]) == key);
            }
            assert(kept =~= Seq::<Seq<char>>::empty());
        }
    }
    assert(left =~= right);
}

/// The index of a word list is well keyed.
pub proof fn lemma_index_well_keyed(words: Seq<Seq<char>>)
    ensures
        well_keyed(index_of(words)),
{
    let dict = index_of(words);
    assert forall|key: Seq<u8>, i: int|
        dict.contains_key(key) && 0 <= i < dict[key].len() implies digit_key(
        #[trigger] dict[key][i],
    ) == key by {
        let same_key = |w: Seq<char>| digit_key(w) == key;
        words.lemma_filter_pred(same_key, i);
    }
}

/// A dictionary: digit keys, each with the bucket of the words filed under
/// it.
pub struct Dictionary {
    map: HashMap<Vec<u8>, Vec<String>, ahash::RandomState>,
}

impl View for Dictionary {
    type V = Entries;

    closed spec fn view(&self) -> Entries {
        buckets(self.map)
    }
}

impl Dictionary {
    /// The dictionary is well formed: every word is filed under its own
    /// digit key.
    pub open spec fn wf(&self) -> bool {
        well_keyed(self@)
    }

    /// Creates an empty dictionary.
    pub fn new() -> (dict: Dictionary)
        ensures
            dict@ == Entries::empty(),
            dict.wf(),
    {
        Dictionary { map: map_with_hasher(INITIAL_CAPACITY, random_state()) }
    }

    /// Looks a digit key up: the bucket filed under it, if there is one.
    pub fn get<'a>(&'a self, key: &[u8]) -> (found: Option<&'a Vec<String>>)
        ensures
            found matches Some(bucket) ==> self@.contains_key(key@) && self@[key@]
                == bucket.deep_view(),
            found is None ==> !self@.contains_key(key@),
    {
        map_get(&self.map, key)
    }

    /// Files a word under a given key, as the last word of that key's
    /// bucket. The dictionary stays well formed if the key is the word's
    /// own.
    pub fn insert_under(&mut self, key: Vec<u8>, word: String)
        ensures
            final(self)@ == filed(old(self)@, key@, word@),
            old(self).wf() && key@ == digit_key(word@) ==> final(self).wf(),
    {
        let ghost before = self@;
        let mut bucket = match map_remove(&mut self.map, key.as_slice()) {
            Some(bucket) => bucket,
            None => Vec::new(),
        };
        assert(bucket.deep_view() =~= bucket_of(before, key@));
        bucket.push(word);
        assert(bucket.deep_view() =~= bucket_of(before, key@).push(word@));
        let _ = map_insert(&mut self.map, key, bucket);
        assert(self@ =~= filed(before, key@, word@));
    }

    /// Files a word under its digit key.
    pub fn insert(&mut self, word: String)
        ensures
            final(self)@ == filed(old(self)@, digit_key(word@), word@),
            old(self).wf() ==> final(self).wf(),
    {
        let key = word_to_number(word.as_str());
        self.insert_under(key, word);
    }
}

/// Builds the dictionary of a word list: each word is filed under its digit
/// key, in the order of the list.
pub fn load_dict(words: Vec<String>) -> (dict: Dictionary)
    ensures
        dict@ == index_of(words.deep_view()),
        dict.wf(),
{
    let mut dict = Dictionary::new();
    let ghost all = words.deep_view();
    proof {
        assert(all.take(0) =~= Seq::<Seq<char>>::empty());
        assert(index_of(Seq::<Seq<char>>::empty()) =~= Entries::empty());
    }
    for word in it: words
        invariant
            it.seq().len() == all.len(),
            forall|i: int| 0 <= i < all.len() ==> (#[trigger] it.seq()[i])@ == all[i],
            dict@ == index_of(all.take(it.index() as int)),
            dict.wf(),
    {
        proof {
            lemma_index_push(all.take(it.index() as int), word@);
            assert(all.take(it.index() + 1) =~= all.take(it.index() as int).push(word@));
        }
        dict.insert(word);
    }
    proof {
        assert(all.take(all.len() as int) =~= all);
    }
    dict
}

} // verus!
