//! Text properties: of a table, and of the snapshot that a commit adds.

use vstd::prelude::*;

verus! {

/// Where a list of pairs holds a key.
pub open spec fn key_position(pairs: Seq<(String, String)>, key: Seq<char>) -> int {
    choose|i: int| 0 <= i < pairs.len() && (#[trigger] pairs[i]).0@ == key
}

/// The mapping that a list of pairs stands for.
pub open spec fn pairs_map(pairs: Seq<(String, String)>) -> Map<Seq<char>, Seq<char>> {
    Map::new(
        |key: Seq<char>| exists|i: int| 0 <= i < pairs.len() && (#[trigger] pairs[i]).0@ == key,
        |key: Seq<char>| pairs[key_position(pairs, key)].1@,
    )
}

/// Whether no key occurs twice in a list of pairs.
pub open spec fn keys_distinct(pairs: Seq<(String, String)>) -> bool {
    forall|i: int, j: int|
        0 <= i < j < pairs.len() ==> (#[trigger] pairs[i]).0@ != (#[trigger] pairs[j]).0@
}

proof fn lemma_pairs_map(pairs: Seq<(String, String)>)
    requires
        keys_distinct(pairs),
    ensures
        forall|i: int|
            0 <= i < pairs.len() ==> {
                &&& pairs_map(pairs).contains_key((#[trigger] pairs[i]).0@)
                &&& pairs_map(pairs)[pairs[i].0@] == pairs[i].1@
            },
{
    assert forall|i: int| 0 <= i < pairs.len() implies {
        &&& pairs_map(pairs).contains_key((#[trigger] pairs[i]).0@)
        &&& pairs_map(pairs)[pairs[i].0@] == pairs[i].1@
    } by {
        let p = key_position(pairs, pairs[i].0@);
        assert(0 <= p < pairs.len() && pairs[p].0@ == pairs[i].0@);
        assert(p == i);
    }
}

/// A mapping from property names to values.
#[derive(Debug)]
pub struct Properties {
    pairs: Vec<(String, String)>,
}

impl View for Properties {
    type V = Map<Seq<char>, Seq<char>>;

    closed spec fn view(&self) -> Map<Seq<char>, Seq<char>> {
        pairs_map(self.pairs@)
    }
}

impl Properties {
    #[verifier::type_invariant]
    spec fn inv(self) -> bool {
        keys_distinct(self.pairs@)
    }

    /// No properties.
    pub fn new() -> (properties: Self)
        ensures
            properties@ == Map::<Seq<char>, Seq<char>>::empty(),
    {
        let properties = Properties { pairs: Vec::new() };
        assert(properties@ =~= Map::<Seq<char>, Seq<char>>::empty());
        properties
    }

    /// The properties as pairs of a name and a value, each name once.
    pub fn pairs(&self) -> (pairs: &Vec<(String, String)>)
        ensures
            keys_distinct(pairs@),
            pairs_map(pairs@) == self@,
    {
        proof {
            use_type_invariant(self);
        }
        &self.pairs
    }

    /// The value of a property.
    pub fn get(&self, key: &String) -> (value: Option<&String>)
        ensures
            match value {
                Some(v) => self@.contains_key(key@) && self@[key@] == v@,
                None => !self@.contains_key(key@),
            },
    {
        proof {
            use_type_invariant(self);
            lemma_pairs_map(self.pairs@);
        }
        let mut i: usize = 0;
        while i < self.pairs.len()
            invariant
                i <= self.pairs@.len(),
                forall|j: int| 0 <= j < i ==> (#[trigger] self.pairs@[j]).0@ != key@,
                forall|j: int|
                    0 <= j < self.pairs@.len() ==> {
                        &&& self@.contains_key((#[trigger] self.pairs@[j]).0@)
                        &&& self@[self.pairs@[j].0@] == self.pairs@[j].1@
                    },
            decreases self.pairs.len() - i,
        {
            if self.pairs[i].0 == *key {
                return Some(&self.pairs[i].1);
            }
            i = i + 1;
        }
        None
    }

    /// Sets a property, in place of the value that it may have had.
    pub fn insert(&mut self, key: String, value: String)
        ensures
            final(self)@ == old(self)@.insert(key@, value@),
    {
        proof {
            use_type_invariant(&*self);
        }
        let mut pairs: Vec<(String, String)> = Vec::new();
        std::mem::swap(&mut pairs, &mut self.pairs);
        let ghost before = pairs@;
        proof {
            lemma_pairs_map(before);
        }
        let mut i: usize = 0;
        while i < pairs.len() && !(pairs[i].0 == key)
            invariant
                i <= pairs@.len(),
                pairs@ == before,
                forall|j: int| 0 <= j < i ==> (#[trigger] pairs@[j]).0@ != key@,
            decreases pairs.len() - i,
        {
            i = i + 1;
        }
        if i < pairs.len() {
            pairs[i] = (key, value);
        } else {
            pairs.push((key, value));
        }
        proof {
            assert(keys_distinct(pairs@));
            lemma_pairs_map(pairs@);
            assert(pairs_map(pairs@) =~= pairs_map(before).insert(key@, value@)) by {
                assert(pairs@[i as int].0@ == key@);
                assert forall|k: Seq<char>| k != key@ implies #[trigger] pairs_map(pairs@).contains_key(
                    k,
                ) == pairs_map(before).contains_key(k) && (pairs_map(before).contains_key(k)
                    ==> pairs_map(pairs@)[k] == pairs_map(before)[k]) by {
                    if pairs_map(before).contains_key(k) {
                        let j = key_position(before, k);
                        assert(pairs@[j] == before[j]);
                    }
                    if pairs_map(pairs@).contains_key(k) {
                        let j = key_position(pairs@, k);
                        assert(pairs@[j] == before[j]);
                    }
                }
            }
        }
        self.pairs = pairs;
    }
}

impl Clone for Properties {
    fn clone(&self) -> (copy: Self)
        ensures
            copy@ == self@,
    {
        let mut copy = Properties::new();
        proof {
            use_type_invariant(self);
            lemma_pairs_map(self.pairs@);
        }
        let mut i: usize = 0;
        while i < self.pairs.len()
            invariant
                i <= self.pairs@.len(),
                keys_distinct(self.pairs@),
                copy@ == pairs_map(self.pairs@.take(i as int)),
            decreases self.pairs.len() - i,
        {
            copy.insert(self.pairs[i].0.clone(), self.pairs[i].1.clone());
            proof {
                let shorter = self.pairs@.take(i as int);
                let longer = self.pairs@.take(i + 1);
                lemma_pairs_map(shorter);
                lemma_pairs_map(longer);
                assert(longer[i as int] == self.pairs@[i as int]);
                assert(pairs_map(longer) =~= pairs_map(shorter).insert(
                    self.pairs@[i as int].0@,
                    self.pairs@[i as int].1@,
                )) by {
                    assert forall|k: Seq<char>|
                        k != self.pairs@[i as int].0@ implies #[trigger] pairs_map(
                        longer,
                    ).contains_key(k) == pairs_map(shorter).contains_key(k) && (pairs_map(
                        shorter,
                    ).contains_key(k) ==> pairs_map(longer)[k] == pairs_map(shorter)[k]) by {
                        if pairs_map(shorter).contains_key(k) {
                            let j = key_position(shorter, k);
                            assert(longer[j] == shorter[j]);
                        }
                        if pairs_map(longer).contains_key(k) {
                            let j = key_position(longer, k);
                            assert(longer[j] == shorter[j]);
                        }
                    }
                }
            }
            i = i + 1;
        }
        assert(self.pairs@.take(self.pairs@.len() as int) =~= self.pairs@);
        copy
    }
}

/// A list of pairs in which no key occurs twice stands for the mapping from each key to
/// the value beside it, and from nothing else.
pub proof fn law_pairs_are_known_by_their_keys(
    pairs: Seq<(String, String)>,
    key: Seq<char>,
    i: int,
)
    ensures
        keys_distinct(pairs) <==> forall|a: int, b: int|
            0 <= a < pairs.len() && 0 <= b < pairs.len() && a != b ==> (#[trigger] pairs[a]).0@ != (
            #[trigger] pairs[b]).0@,
        pairs_map(pairs).contains_key(key) <==> exists|k: int|
            0 <= k < pairs.len() && (#[trigger] pairs[k]).0@ == key,
        keys_distinct(pairs) && 0 <= i < pairs.len() ==> pairs_map(pairs)[pairs[i].0@]
            == pairs[i].1@,
{
    if keys_distinct(pairs) {
        lemma_pairs_map(pairs);
    }
}

} // verus!
