//! Which slot holds which account.
use crate::bytes;
use std::collections::HashMap;
use vstd::prelude::*;

verus! {

broadcast use vstd::std_specs::hash::group_hash_axioms;

/// The last position of `key` in `keys`.
pub open spec fn last_position(keys: Seq<Seq<u8>>, key: Seq<u8>) -> Option<usize>
    decreases keys.len(),
{
    if keys.len() == 0 {
        None
    } else if keys.last() == key {
        Some((keys.len() - 1) as usize)
    } else {
        last_position(keys.drop_last(), key)
    }
}

/// The last position of a key is a position of the key, and none follows; a
/// key without a last position does not occur.
pub proof fn lemma_last_position(keys: Seq<Seq<u8>>, key: Seq<u8>)
    requires
        keys.len() <= usize::MAX,
    ensures
        match last_position(keys, key) {
            Some(i) => {
                &&& i < keys.len()
                &&& keys[i as int] == key
                &&& forall|j: int| i < j < keys.len() ==> #[trigger] keys[j] != key
            },
            None => forall|j: int| 0 <= j < keys.len() ==> #[trigger] keys[j] != key,
        },
    decreases keys.len(),
{
    if keys.len() > 0 && keys.last() != key {
        let front = keys.drop_last();
        lemma_last_position(front, key);
        assert(forall|j: int| 0 <= j < front.len() ==> front[j] == keys[j]);
    }
}

/// A position of the key that no other follows is its last position.
pub proof fn lemma_last_position_unique(keys: Seq<Seq<u8>>, key: Seq<u8>, i: int)
    requires
        keys.len() <= usize::MAX,
        0 <= i < keys.len(),
        keys[i] == key,
        forall|j: int| i < j < keys.len() ==> #[trigger] keys[j] != key,
    ensures
        last_position(keys, key) == Some(i as usize),
{
    lemma_last_position(keys, key);
}

/// The positions of keys in a growing list, with lookup by key.
///
/// Positions whose keys agree in their first eight bytes form a chain, from
/// the last to the first.
pub struct PubkeyIndex {
    keys: Vec<[u8; 32]>,
    heads: HashMap<u64, usize>,
    previous: Vec<Option<usize>>,
}

/// The first eight bytes of a key, as an integer.
spec fn prefix(key: Seq<u8>) -> u64 {
    bytes::le_value(key.subrange(0, 8)) as u64
}

impl View for PubkeyIndex {
    type V = Seq<Seq<u8>>;

    closed spec fn view(&self) -> Seq<Seq<u8>> {
        self.keys@.map_values(|key: [u8; 32]| key@)
    }
}

/// No position in `start..end` has a key with prefix `p`.
spec fn no_prefix(keys: Seq<Seq<u8>>, p: u64, start: int, end: int) -> bool {
    forall|j: int| start <= j < end ==> prefix(#[trigger] keys[j]) != p
}

/// The chain behind position `i` goes on at the last position before it with
/// the same prefix.
spec fn chained(keys: Seq<Seq<u8>>, previous: Option<usize>, i: int) -> bool {
    match previous {
        Some(j) => j < i && prefix(keys[j as int]) == prefix(keys[i]) && no_prefix(
            keys,
            prefix(keys[i]),
            j + 1,
            i,
        ),
        None => no_prefix(keys, prefix(keys[i]), 0, i),
    }
}

/// The chain for prefix `p` starts at the last position with that prefix.
spec fn headed(keys: Seq<Seq<u8>>, heads: vstd::map::Map<u64, usize>, p: u64) -> bool {
    if heads.contains_key(p) {
        &&& heads[p] < keys.len()
        &&& prefix(keys[heads[p] as int]) == p
        &&& no_prefix(keys, p, heads[p] + 1, keys.len() as int)
    } else {
        no_prefix(keys, p, 0, keys.len() as int)
    }
}

/// The first eight bytes of a key.
fn key_prefix(key: &[u8; 32]) -> (p: u64)
    ensures
        p == prefix(key@),
{
    bytes::decode_le(key.as_slice(), 0, 8)
}

/// Whether two keys are equal.
pub fn keys_equal(a: &[u8; 32], b: &[u8; 32]) -> (equal: bool)
    ensures
        equal == (a@ == b@),
{
    let mut k: usize = 0;
    while k < 32
        invariant
            k <= 32,
            forall|j: int| 0 <= j < k ==> a@[j] == b@[j],
        decreases 32 - k,
    {
        if a[k] != b[k] {
            assert(a@[k as int] != b@[k as int]);
            return false;
        }
        k = k + 1;
    }
    assert(a@ =~= b@);
    true
}

impl PubkeyIndex {
    /// The chains lead to every position.
    pub closed spec fn wf(&self) -> bool {
        &&& self.previous@.len() == self.keys@.len()
        &&& forall|i: int|
            0 <= i < self.keys@.len() ==> chained(self@, #[trigger] self.previous@[i], i)
        &&& forall|p: u64| #[trigger] headed(self@, self.heads@, p)
    }

    /// How many positions there are fits a machine word.
    pub proof fn lemma_len(&self)
        ensures
            self@.len() <= usize::MAX,
    {
        assert(self.keys@.len() == self.keys.len());
    }

    /// An index without positions.
    pub fn new() -> (index: Self)
        ensures
            index.wf(),
            index@ == Seq::<Seq<u8>>::empty(),
    {
        let index = PubkeyIndex { keys: Vec::new(), heads: HashMap::new(), previous: Vec::new() };
        assert(index@ =~= Seq::<Seq<u8>>::empty());
        index
    }

    /// How many positions the index has.
    pub fn len(&self) -> (len: usize)
        ensures
            len == self@.len(),
    {
        self.keys.len()
    }

    /// Adds the next position, with key `key`.
    pub fn insert(&mut self, key: [u8; 32])
        requires
            old(self).wf(),
        ensures
            final(self).wf(),
            final(self)@ == old(self)@.push(key@),
    {
        let ghost before = self@;
        let position: usize = self.keys.len();
        let p: u64 = key_prefix(&key);
        let earlier: Option<usize> = match self.heads.get(&p) {
            Some(head) => Some(*head),
            None => None,
        };
        assert(headed(before, self.heads@, p));
        let ghost heads_before = self.heads@;
        self.keys.push(key);
        self.previous.push(earlier);
        self.heads.insert(p, position);
        proof {
            let after = self@;
            assert(after =~= before.push(key@));
            assert forall|i: int| 0 <= i < self.keys@.len() implies chained(
                after,
                #[trigger] self.previous@[i],
                i,
            ) by {
                if i < before.len() {
                    assert(chained(before, old(self).previous@[i], i));
                    assert(self.previous@[i] == old(self).previous@[i]);
                }
            }
            assert forall|q: u64| #[trigger] headed(after, self.heads@, q) by {
                assert(headed(before, heads_before, q));
            }
        }
    }

    /// The last position with key `key`.
    pub fn get(&self, key: &[u8; 32]) -> (position: Option<usize>)
        requires
            self.wf(),
        ensures
            position == last_position(self@, key@),
    {
        proof {
            self.lemma_len();
            lemma_last_position(self@, key@);
        }
        let p: u64 = key_prefix(key);
        assert(headed(self@, self.heads@, p));
        let mut next: Option<usize> = match self.heads.get(&p) {
            Some(head) => Some(*head),
            None => None,
        };
        let ghost mut end: int = if next is Some {
            next->0 + 1
        } else {
            0
        };
        while next.is_some()
            invariant
                self.wf(),
                p == prefix(key@),
                self@.len() <= usize::MAX,
                self@.len() == self.keys@.len(),
                forall|j: int| end <= j < self@.len() ==> #[trigger] self@[j] != key@,
                match next {
                    Some(i) => i < self@.len() && prefix(self@[i as int]) == p && end == i + 1,
                    None => end == 0,
                },
            decreases end,
        {
            let i: usize = next.unwrap();
            if keys_equal(&self.keys[i], key) {
                proof {
                    assert(self@[i as int] == key@);
                    lemma_last_position_unique(self@, key@, i as int);
                }
                return Some(i);
            }
            assert(chained(self@, self.previous@[i as int], i as int));
            next = self.previous[i];
            proof {
                end = if next is Some {
                    next->0 + 1
                } else {
                    0
                };
                assert(self@[i as int] != key@);
            }
        }
        proof {
            lemma_last_position(self@, key@);
        }
        None
    }
}

} // verus!
