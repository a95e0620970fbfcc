//! References between the relations of the archive: a variant names a card
//! type, a deck names its variants, a battle names two decks. Archiving a
//! battle log never writes a reference before the row it refers to.

use crate::api_models::{BattleView, CardView};
use crate::hasher::card_hash;
use crate::order::{lemma_str_order_total, sorted_strings, str_order};
use crate::plan::{
    battle_row, battle_statements, card_hashes, card_statements, deck_row, instance_row,
    log_statements, metadata_row,
};
use crate::rows::StatementView;
use crate::store::{
    StoreView, lemma_apply_all_concat, lemma_apply_all_push, lemma_keys_after_apply,
};
use vstd::prelude::*;

verus! {

/// Whether every reference of the archive finds its row: each variant's
/// card type has metadata, each variant hash of a deck has a variant row,
/// and each deck hash of a battle has a deck row.
pub open spec fn referential_integrity(store: StoreView) -> bool {
    &&& forall|i: int|
        0 <= i < store.card_instances.len() ==> store.has_card(
            (#[trigger] store.card_instances[i]).card_type_id,
        )
    &&& forall|i: int, k: int|
        0 <= i < store.decks.len() && 0 <= k < store.decks[i].card_instance_hashes.len()
            ==> store.has_instance(#[trigger] store.decks[i].card_instance_hashes[k])
    &&& forall|i: int|
        0 <= i < store.battles.len() ==> store.has_deck(
            (#[trigger] store.battles[i]).player_a.deck_hash,
        ) && store.has_deck(store.battles[i].player_b.deck_hash)
}

/// Whether the rows that the statement's row refers to exist.
pub open spec fn references_exist(store: StoreView, statement: StatementView) -> bool {
    match statement {
        StatementView::InsertCardMetadata(_) => true,
        StatementView::InsertCardInstance(row) => store.has_card(row.card_type_id),
        StatementView::InsertDeck(row) => forall|k: int|
            0 <= k < row.card_instance_hashes.len() ==> store.has_instance(
                #[trigger] row.card_instance_hashes[k],
            ),
        StatementView::InsertBattle(row) => store.has_deck(row.player_a.deck_hash)
            && store.has_deck(row.player_b.deck_hash),
    }
}

/// Whether every key of `before` is a key of `after`.
pub open spec fn keeps_keys(before: StoreView, after: StoreView) -> bool {
    &&& forall|id: u32| before.has_card(id) ==> after.has_card(id)
    &&& forall|hash: Seq<char>| before.has_instance(hash) ==> after.has_instance(hash)
    &&& forall|hash: Seq<char>| before.has_deck(hash) ==> after.has_deck(hash)
}

/// A statement removes no key, and leaves the key of its own row behind.
pub proof fn lemma_apply_keeps_keys(store: StoreView, statement: StatementView)
    ensures
        keeps_keys(store, store.apply(statement)),
        statement matches StatementView::InsertCardMetadata(row) ==> store.apply(
            statement,
        ).has_card(row.id),
        statement matches StatementView::InsertCardInstance(row) ==> store.apply(
            statement,
        ).has_instance(row.instance_hash),
        statement matches StatementView::InsertDeck(row) ==> store.apply(statement).has_deck(
            row.deck_hash,
        ),
{
    lemma_keys_after_apply(store, statement);
}

/// A statement whose references exist leaves every reference of the
/// archive with its row.
pub proof fn lemma_apply_keeps_references(store: StoreView, statement: StatementView)
    requires
        referential_integrity(store),
        references_exist(store, statement),
    ensures
        referential_integrity(store.apply(statement)),
{
    let after = store.apply(statement);
    lemma_apply_keeps_keys(store, statement);
    assert forall|i: int| 0 <= i < after.card_instances.len() implies after.has_card(
        (#[trigger] after.card_instances[i]).card_type_id,
    ) by {
        if i < store.card_instances.len() {
            assert(after.card_instances[i] == store.card_instances[i]);
        }
    }
    assert forall|i: int, k: int|
        0 <= i < after.decks.len() && 0 <= k < after.decks[i].card_instance_hashes.len()
        implies after.has_instance(#[trigger] after.decks[i].card_instance_hashes[k]) by {
        if i < store.decks.len() {
            assert(after.decks[i] == store.decks[i]);
            assert(store.has_instance(store.decks[i].card_instance_hashes[k]));
        }
    }
    assert forall|i: int| 0 <= i < after.battles.len() implies after.has_deck(
        (#[trigger] after.battles[i]).player_a.deck_hash,
    ) && after.has_deck(after.battles[i].player_b.deck_hash) by {
        if i < store.battles.len() {
            assert(after.battles[i] == store.battles[i]);
        }
    }
}

/// The statements of a player's cards keep every reference with its row
/// and every key, and leave the card type and the variant of each card
/// behind.
proof fn lemma_cards_archived(store: StoreView, cards: Seq<CardView>)
    requires
        referential_integrity(store),
    ensures
        ({
            let after = store.apply_all(card_statements(cards));
            &&& referential_integrity(after)
            &&& keeps_keys(store, after)
            &&& forall|k: int|
                0 <= k < cards.len() ==> after.has_instance(#[trigger] card_hashes(cards)[k])
        }),
    decreases cards.len(),
{
    if cards.len() > 0 {
        let init = card_statements(cards.drop_last());
        let metadata = StatementView::InsertCardMetadata(metadata_row(cards.last()));
        let instance = StatementView::InsertCardInstance(instance_row(cards.last()));
        let s0 = store.apply_all(init);
        let s1 = s0.apply(metadata);
        let s2 = s1.apply(instance);
        lemma_cards_archived(store, cards.drop_last());
        lemma_apply_all_push(store, init, metadata);
        lemma_apply_all_push(store, init.push(metadata), instance);
        lemma_apply_keeps_keys(s0, metadata);
        lemma_apply_keeps_references(s0, metadata);
        lemma_apply_keeps_keys(s1, instance);
        lemma_apply_keeps_references(s1, instance);
        assert forall|k: int| 0 <= k < cards.len() implies s2.has_instance(
            #[trigger] card_hashes(cards)[k],
        ) by {
            if k < cards.len() - 1 {
                assert(card_hashes(cards)[k] == card_hashes(cards.drop_last())[k]);
            }
        }
    }
}

/// Every variant hash of a deck row is the hash of one of the deck's cards.
proof fn lemma_deck_row_hashes(cards: Seq<CardView>, k: int)
    requires
        0 <= k < deck_row(cards).card_instance_hashes.len(),
    ensures
        card_hashes(cards).contains(deck_row(cards).card_instance_hashes[k]),
{
    lemma_str_order_total();
    card_hashes(cards).lemma_sort_by_ensures(str_order());
    let sorted = sorted_strings(card_hashes(cards));
    assert(sorted.contains(sorted[k]));
}

/// The statements of one battle keep every reference with its row.
pub proof fn lemma_battle_keeps_references(store: StoreView, battle: BattleView)
    requires
        referential_integrity(store),
    ensures
        referential_integrity(store.apply_all(battle_statements(battle))),
{
    if battle.well_formed() {
        let cards_a = battle.team[0].cards;
        let cards_b = battle.opponent[0].cards;
        let a = card_statements(cards_a);
        let b = card_statements(cards_b);
        let deck_a = StatementView::InsertDeck(deck_row(cards_a));
        let deck_b = StatementView::InsertDeck(deck_row(cards_b));
        let row = StatementView::InsertBattle(battle_row(battle));
        let s1 = store.apply_all(a);
        let s2 = s1.apply_all(b);
        let s3 = s2.apply(deck_a);
        let s4 = s3.apply(deck_b);
        lemma_apply_all_concat(store, a, b);
        lemma_apply_all_push(store, a + b, deck_a);
        lemma_apply_all_push(store, (a + b).push(deck_a), deck_b);
        lemma_apply_all_push(store, (a + b).push(deck_a).push(deck_b), row);
        lemma_cards_archived(store, cards_a);
        lemma_cards_archived(s1, cards_b);
        assert forall|k: int|
            0 <= k < deck_row(cards_a).card_instance_hashes.len() implies s2.has_instance(
            #[trigger] deck_row(cards_a).card_instance_hashes[k],
        ) by {
            lemma_deck_row_hashes(cards_a, k);
            let hash = deck_row(cards_a).card_instance_hashes[k];
            let j = choose|j: int| 0 <= j < cards_a.len() && card_hashes(cards_a)[j] == hash;
            assert(s1.has_instance(card_hashes(cards_a)[j]));
        }
        lemma_apply_keeps_keys(s2, deck_a);
        lemma_apply_keeps_references(s2, deck_a);
        assert forall|k: int|
            0 <= k < deck_row(cards_b).card_instance_hashes.len() implies s3.has_instance(
            #[trigger] deck_row(cards_b).card_instance_hashes[k],
        ) by {
            lemma_deck_row_hashes(cards_b, k);
            let hash = deck_row(cards_b).card_instance_hashes[k];
            let j = choose|j: int| 0 <= j < cards_b.len() && card_hashes(cards_b)[j] == hash;
            assert(s2.has_instance(card_hashes(cards_b)[j]));
        }
        lemma_apply_keeps_keys(s3, deck_b);
        lemma_apply_keeps_references(s3, deck_b);
        lemma_apply_keeps_references(s4, row);
    }
}

/// Archiving never leaves a reference without its row: where every variant
/// of the archive has its card type, every deck its variants and every
/// battle its decks, the same holds after a battle log was archived,
/// whether the transaction went through or failed.
pub proof fn law_archiving_keeps_references(store: StoreView, log: Seq<BattleView>)
    requires
        referential_integrity(store),
    ensures
        referential_integrity(store.apply_all(log_statements(log))),
        referential_integrity(store.transact(log_statements(log))),
    decreases log.len(),
{
    if log.len() > 0 {
        law_archiving_keeps_references(store, log.drop_last());
        lemma_apply_all_concat(
            store,
            log_statements(log.drop_last()),
            battle_statements(log.last()),
        );
        lemma_battle_keeps_references(
            store.apply_all(log_statements(log.drop_last())),
            log.last(),
        );
    }
}

} // verus!
