//! Reading the archived decks back as lists of card types.

use crate::order::views;
use crate::rows::{CardInstanceRow, CardInstanceRowView, DeckRow, DeckRowView};
use crate::store::{deck_views, instance_views};
use vstd::hash_map::StringHashMap;
use vstd::prelude::*;

verus! {

/// The card type of each variant hash. Where two rows have one hash, the
/// later row counts.
pub open spec fn instance_index(instances: Seq<CardInstanceRowView>) -> Map<Seq<char>, u32>
    decreases instances.len(),
{
    if instances.len() == 0 {
        Map::empty()
    } else {
        instance_index(instances.drop_last()).insert(
            instances.last().instance_hash,
            instances.last().card_type_id,
        )
    }
}

/// Whether each of the hashes has a card type.
pub open spec fn resolvable(index: Map<Seq<char>, u32>, hashes: Seq<Seq<char>>) -> bool {
    forall|i: int| 0 <= i < hashes.len() ==> index.contains_key(#[trigger] hashes[i])
}

/// The card type of each of the hashes, in their order.
pub open spec fn resolved(index: Map<Seq<char>, u32>, hashes: Seq<Seq<char>>) -> Seq<u32> {
    hashes.map_values(|h: Seq<char>| index[h])
}

fn build_index(instances: &Vec<CardInstanceRow>) -> (index: StringHashMap<u32>)
    ensures
        index@ == instance_index(instance_views(instances@)),
{
    let ghost rows = instance_views(instances@);
    let mut index: StringHashMap<u32> = StringHashMap::new();
    let mut i: usize = 0;
    while i < instances.len()
        invariant
            i <= instances@.len(),
            rows == instance_views(instances@),
            index@ == instance_index(rows.take(i as int)),
        decreases instances@.len() - i,
    {
        proof {
            let next = rows.take(i + 1);
            assert(next.drop_last() =~= rows.take(i as int));
            assert(next.last() == instances@[i as int]@);
        }
        index.insert(instances[i].instance_hash.clone(), instances[i].card_type_id);
        i += 1;
    }
    proof {
        assert(rows.take(i as int) =~= rows);
    }
    index
}

/// Whether each variant hash of each deck has a card type.
pub open spec fn all_resolvable(
    instances: Seq<CardInstanceRowView>,
    decks: Seq<DeckRowView>,
) -> bool {
    forall|d: int|
        0 <= d < decks.len() ==> resolvable(
            instance_index(instances),
            (#[trigger] decks[d]).card_instance_hashes,
        )
}

fn is_resolvable(index: &StringHashMap<u32>, hashes: &Vec<String>) -> (ok: bool)
    ensures
        ok == resolvable(index@, views(hashes@)),
{
    let ghost all = views(hashes@);
    let mut i: usize = 0;
    while i < hashes.len()
        invariant
            i <= hashes@.len(),
            all == views(hashes@),
            forall|k: int| 0 <= k < i ==> index@.contains_key(#[trigger] all[k]),
        decreases hashes@.len() - i,
    {
        proof {
            assert(all[i as int] == hashes@[i as int]@);
        }
        if !index.contains_key(hashes[i].as_str()) {
            return false;
        }
        i += 1;
    }
    true
}

fn resolve(index: &StringHashMap<u32>, hashes: &Vec<String>) -> (card_ids: Vec<u32>)
    requires
        resolvable(index@, views(hashes@)),
    ensures
        card_ids@ == resolved(index@, views(hashes@)),
{
    let ghost all = views(hashes@);
    let mut card_ids: Vec<u32> = Vec::with_capacity(8);
    let mut i: usize = 0;
    while i < hashes.len()
        invariant
            i <= hashes@.len(),
            all == views(hashes@),
            resolvable(index@, all),
            card_ids@ == resolved(index@, all.take(i as int)),
        decreases hashes@.len() - i,
    {
        proof {
            assert(all[i as int] == hashes@[i as int]@);
            assert(index@.contains_key(all[i as int]));
        }
        let card_id = index.get(hashes[i].as_str());
        card_ids.push(*card_id.unwrap());
        proof {
            assert(card_ids@ =~= resolved(index@, all.take(i + 1)));
        }
        i += 1;
    }
    proof {
        assert(all.take(i as int) =~= all);
    }
    card_ids
}

/// Whether every deck can be loaded: each variant hash that a deck names
/// has a variant row.
pub fn decks_resolvable(instances: &Vec<CardInstanceRow>, decks: &Vec<DeckRow>) -> (ok: bool)
    ensures
        ok == all_resolvable(instance_views(instances@), deck_views(decks@)),
{
    let index = build_index(instances);
    let ghost rows = deck_views(decks@);
    let mut i: usize = 0;
    while i < decks.len()
        invariant
            i <= decks@.len(),
            rows == deck_views(decks@),
            index@ == instance_index(instance_views(instances@)),
            forall|d: int|
                0 <= d < i ==> resolvable(index@, (#[trigger] rows[d]).card_instance_hashes),
        decreases decks@.len() - i,
    {
        proof {
            assert(rows[i as int] == decks@[i as int]@);
        }
        if !is_resolvable(&index, &decks[i].card_instance_hashes) {
            return false;
        }
        i += 1;
    }
    true
}

/// Each deck with the card types of its variants, in the decks' order.
/// Every variant hash that a deck names must have a variant row:
/// [`decks_resolvable`] tells whether that holds.
pub fn load_unique_decks(instances: &Vec<CardInstanceRow>, decks: &Vec<DeckRow>) -> (loaded: Vec<
    (String, Vec<u32>),
>)
    requires
        all_resolvable(instance_views(instances@), deck_views(decks@)),
    ensures
        loaded@.len() == decks@.len(),
        forall|d: int|
            0 <= d < decks@.len() ==> (#[trigger] loaded@[d]).0@ == deck_views(decks@)[d].deck_hash
                && loaded@[d].1@ == resolved(
                instance_index(instance_views(instances@)),
                deck_views(decks@)[d].card_instance_hashes,
            ),
{
    let index = build_index(instances);
    let ghost rows = deck_views(decks@);
    let mut loaded: Vec<(String, Vec<u32>)> = Vec::new();
    let mut i: usize = 0;
    while i < decks.len()
        invariant
            i <= decks@.len(),
            rows == deck_views(decks@),
            index@ == instance_index(instance_views(instances@)),
            all_resolvable(instance_views(instances@), rows),
            loaded@.len() == i,
            forall|d: int|
                0 <= d < i ==> (#[trigger] loaded@[d]).0@ == rows[d].deck_hash && loaded@[d].1@
                    == resolved(index@, rows[d].card_instance_hashes),
        decreases decks@.len() - i,
    {
        let deck = &decks[i];
        proof {
            assert(rows[i as int] == deck@);
        }
        let card_ids = resolve(&index, &deck.card_instance_hashes);
        loaded.push((deck.deck_hash.clone(), card_ids));
        i += 1;
    }
    loaded
}

} // verus!
