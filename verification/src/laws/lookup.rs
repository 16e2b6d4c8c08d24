//! Which position a key is found at.
use crate::index;
use crate::index::PubkeyIndex;
use vstd::prelude::*;

verus! {

/// A key was found at the last of its positions, or nowhere because it has
/// none.
pub open spec fn found_last(keys: Seq<Seq<u8>>, key: Seq<u8>, found: Option<usize>) -> bool {
    match found {
        Some(i) => {
            &&& i < keys.len()
            &&& keys[i as int] == key
            &&& forall|j: int| i < j < keys.len() ==> #[trigger] keys[j] != key
        },
        None => forall|j: int| 0 <= j < keys.len() ==> #[trigger] keys[j] != key,
    }
}

/// What the contracts call the last position is where a key is found.
pub proof fn lemma_found_last(keys: Seq<Seq<u8>>, key: Seq<u8>)
    requires
        keys.len() <= usize::MAX,
    ensures
        found_last(keys, key, index::last_position(keys, key)),
        forall|found: Option<usize>| #[trigger]
            found_last(keys, key, found) ==> found == index::last_position(keys, key),
{
    index::lemma_last_position(keys, key);
    assert forall|found: Option<usize>| #[trigger] found_last(keys, key, found) implies found
        == index::last_position(keys, key) by {
        match (found, index::last_position(keys, key)) {
            (Some(i), Some(j)) => {
                if i < j {
                    assert(keys[j as int] != key);
                }
                if j < i {
                    assert(keys[i as int] != key);
                }
            },
            (Some(i), None) => {
                assert(keys[i as int] != key);
            },
            (None, Some(j)) => {
                assert(keys[j as int] != key);
            },
            (None, None) => {},
        }
    }
}

/// A new index has no positions, and finds no key.
pub proof fn law_new_index(index: PubkeyIndex, len: usize, key: [u8; 32], found: Option<usize>)
    requires
        call_ensures(PubkeyIndex::new, (), index),
        call_ensures(PubkeyIndex::len, (&index,), len),
        call_ensures(PubkeyIndex::get, (&index, &key), found),
    ensures
        len == 0,
        found is None,
        index.wf(),
{
}

/// An added key is found at the new last position; every other key is found
/// where it was found before.
pub proof fn law_insert(
    index: &mut PubkeyIndex,
    added: [u8; 32],
    len: usize,
    new_len: usize,
    key: [u8; 32],
    before: Option<usize>,
    after: Option<usize>,
)
    requires
        old(index).wf(),
        call_ensures(PubkeyIndex::len, (old(index),), len),
        call_ensures(PubkeyIndex::get, (old(index), &key), before),
        call_ensures(PubkeyIndex::insert, (index, added), ()),
        call_ensures(PubkeyIndex::len, (final(index),), new_len),
        call_ensures(PubkeyIndex::get, (final(index), &key), after),
    ensures
        final(index).wf(),
        call_requires(PubkeyIndex::insert, (index, added)),
        call_requires(PubkeyIndex::get, (final(index), &key)),
        new_len == len + 1,
        key@ == added@ ==> after == Some(len),
        key@ != added@ ==> after == before,
{
    let keys = old(index)@.push(added@);
    assert(keys.drop_last() =~= old(index)@);
}

/// Keys are equal exactly if their bytes are.
pub proof fn law_keys_equal(a: [u8; 32], b: [u8; 32], equal: bool)
    requires
        call_ensures(index::keys_equal, (&a, &b), equal),
    ensures
        equal <==> (forall|k: int| 0 <= k < 32 ==> #[trigger] a@[k] == b@[k]),
{
    if forall|k: int| 0 <= k < 32 ==> #[trigger] a@[k] == b@[k] {
        assert(a@ =~= b@);
    }
}

} // verus!
