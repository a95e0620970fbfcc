//! Archiving a battle log.

use crate::api_models::{Battle, BattleView, CardView, battle_views};
use crate::plan::{
    battle_row, battle_statements, card_statements, deck_row, instance_row, log_statements,
    metadata_row, plan_battle_log, valid_battles,
};
use crate::rows::StatementView;
use crate::store::{
    RecordStore, StoreError, StoreView, battle_inserts, law_relations_only_grow,
    lemma_apply_all_concat, lemma_apply_all_covers, lemma_apply_all_keeps_keys_unique,
    lemma_apply_all_keeps_schema, lemma_apply_all_push, lemma_covered_changes_battles_only,
    same_keyed_rows,
};
use vstd::prelude::*;

verus! {

/// Creates the schema of the archive where it does not exist. Safe at
/// every start: rows that the archive holds are left as they are.
pub fn initialize_database(store: &mut RecordStore)
    ensures
        final(store)@ == old(store)@.initialize(),
        final(store)@.wf(),
{
    store.initialize();
}

/// Archives the battles of a log in one transaction and returns the number
/// of battle rows added: one for each well-formed battle. Malformed battles
/// are passed over. Card metadata, card variants and decks that the archive
/// holds already are left as they are. Fails, and changes nothing, where
/// the log has a well-formed battle and the schema does not exist.
pub fn save_battle_log(store: &mut RecordStore, battle_log: &Vec<Battle>) -> (result: Result<
    usize,
    StoreError,
>)
    ensures
        result is Err <==> !old(store)@.initialized && valid_battles(battle_views(battle_log@)) > 0,
        final(store)@ == old(store)@.transact(log_statements(battle_views(battle_log@))),
        result matches Ok(new_battles) ==> new_battles == valid_battles(battle_views(battle_log@)),
        result matches Err(error) ==> error == StoreError::NoSuchTable && final(store)@ == old(
            store,
        )@,
        final(store)@.wf(),
{
    let plan = plan_battle_log(battle_log);
    proof {
        lemma_log_battle_inserts(battle_views(battle_log@));
        lemma_no_battle_no_statement(battle_views(battle_log@));
    }
    store.execute_all(plan)
}

/// A log without a well-formed battle asks for no statement.
pub proof fn lemma_no_battle_no_statement(log: Seq<BattleView>)
    ensures
        valid_battles(log) == 0 <==> log_statements(log).len() == 0,
    decreases log.len(),
{
    if log.len() > 0 {
        lemma_no_battle_no_statement(log.drop_last());
    }
}

/// The statements of cards hold no battle insert.
proof fn lemma_card_statements_no_battle(cards: Seq<CardView>)
    ensures
        battle_inserts(card_statements(cards)) == 0,
    decreases cards.len(),
{
    if cards.len() > 0 {
        lemma_card_statements_no_battle(cards.drop_last());
        let s = card_statements(cards);
        assert(s.drop_last().drop_last() =~= card_statements(cards.drop_last()));
        assert(battle_inserts(s) == battle_inserts(s.drop_last()));
        assert(battle_inserts(s.drop_last()) == battle_inserts(s.drop_last().drop_last()));
    }
}

/// The battle inserts of two runs of statements add up.
pub proof fn lemma_battle_inserts_concat(a: Seq<StatementView>, b: Seq<StatementView>)
    ensures
        battle_inserts(a + b) == battle_inserts(a) + battle_inserts(b),
    decreases b.len(),
{
    if b.len() == 0 {
        assert(a + b =~= a);
    } else {
        lemma_battle_inserts_concat(a, b.drop_last());
        assert((a + b).drop_last() =~= a + b.drop_last());
        assert((a + b).last() == b.last());
    }
}

/// A battle asks for one battle insert where it is well formed, for none
/// where it is not.
pub proof fn lemma_battle_statements_inserts(battle: BattleView)
    ensures
        battle_inserts(battle_statements(battle)) == if battle.well_formed() {
            1nat
        } else {
            0nat
        },
{
    if battle.well_formed() {
        let cards = card_statements(battle.team[0].cards) + card_statements(
            battle.opponent[0].cards,
        );
        lemma_card_statements_no_battle(battle.team[0].cards);
        lemma_card_statements_no_battle(battle.opponent[0].cards);
        lemma_battle_inserts_concat(
            card_statements(battle.team[0].cards),
            card_statements(battle.opponent[0].cards),
        );
        let s = battle_statements(battle);
        let s1 = s.drop_last();
        let s2 = s1.drop_last();
        assert(s2.drop_last() =~= cards);
        assert(battle_inserts(s) == battle_inserts(s1) + 1);
        assert(battle_inserts(s1) == battle_inserts(s2));
        assert(battle_inserts(s2) == battle_inserts(s2.drop_last()));
    }
}

/// A log asks for as many battle inserts as it has well-formed battles.
pub proof fn lemma_log_battle_inserts(log: Seq<BattleView>)
    ensures
        battle_inserts(log_statements(log)) == valid_battles(log),
    decreases log.len(),
{
    if log.len() > 0 {
        lemma_log_battle_inserts(log.drop_last());
        lemma_battle_statements_inserts(log.last());
        lemma_battle_inserts_concat(log_statements(log.drop_last()), battle_statements(log.last()));
    }
}

/// Archiving is idempotent on cards, variants and decks, and never on
/// battles: archiving a log a second time leaves the card metadata, card
/// variant and deck relations as the first time left them. Where the
/// schema exists, each time adds one battle row for each well-formed battle
/// of the log.
pub proof fn law_archiving_twice(store: StoreView, log: Seq<BattleView>)
    ensures
        ({
            let once = store.transact(log_statements(log));
            let twice = once.transact(log_statements(log));
            &&& same_keyed_rows(twice, once)
            &&& twice.card_metadata.len() == once.card_metadata.len()
            &&& twice.card_instances.len() == once.card_instances.len()
            &&& twice.decks.len() == once.decks.len()
            &&& store.initialized ==> once.battles.len() == store.battles.len() + valid_battles(log)
            &&& store.initialized ==> twice.battles.len() == once.battles.len() + valid_battles(
                log,
            )
        }),
{
    let statements = log_statements(log);
    if !store.fails(statements) {
        let once = store.apply_all(statements);
        lemma_apply_all_keeps_schema(store, statements);
        lemma_apply_all_covers(store, statements);
        lemma_covered_changes_battles_only(once, statements);
        law_relations_only_grow(store, statements);
        law_relations_only_grow(once, statements);
        lemma_log_battle_inserts(log);
    }
}

/// Creating the schema is idempotent and touches no row: a second creation
/// changes nothing, and the first changes nothing but the existence of the
/// relations.
pub proof fn law_initialize_is_idempotent(store: StoreView)
    ensures
        store.initialize().initialize() == store.initialize(),
        store.initialize().initialized,
        store.initialize().card_metadata == store.card_metadata,
        store.initialize().card_instances == store.card_instances,
        store.initialize().decks == store.decks,
        store.initialize().battles == store.battles,
        store.initialized ==> store.initialize() == store,
{
}

/// A transaction is atomic: the archive holds the effect of all of its
/// statements, or, where it fails, is as it was. With a schema no
/// transaction fails.
pub proof fn law_transactions_are_atomic(store: StoreView, statements: Seq<StatementView>)
    ensures
        store.fails(statements) ==> store.transact(statements) == store,
        !store.fails(statements) ==> store.transact(statements) == store.apply_all(statements),
        store.initialized ==> !store.fails(statements),
        store.wf() ==> store.transact(statements).wf(),
{
    if !store.fails(statements) && store.wf() {
        lemma_apply_all_keeps_keys_unique(store, statements);
        lemma_apply_all_keeps_schema(store, statements);
    }
}

/// The statements of a player's cards add at most one metadata row and
/// one variant row for each card, and touch neither decks nor battles.
proof fn lemma_card_statements_growth(store: StoreView, cards: Seq<CardView>)
    ensures
        ({
            let after = store.apply_all(card_statements(cards));
            &&& after.card_metadata.len() <= store.card_metadata.len() + cards.len()
            &&& after.card_instances.len() <= store.card_instances.len() + cards.len()
            &&& after.decks == store.decks
            &&& after.battles == store.battles
        }),
    decreases cards.len(),
{
    if cards.len() > 0 {
        let init = card_statements(cards.drop_last());
        lemma_card_statements_growth(store, cards.drop_last());
        lemma_apply_all_push(
            store,
            init,
            StatementView::InsertCardMetadata(metadata_row(cards.last())),
        );
        lemma_apply_all_push(
            store,
            init.push(StatementView::InsertCardMetadata(metadata_row(cards.last()))),
            StatementView::InsertCardInstance(instance_row(cards.last())),
        );
    }
}

/// The statements of one battle add at most sixteen metadata rows, sixteen
/// variant rows and two deck rows.
proof fn lemma_battle_statements_growth(store: StoreView, battle: BattleView)
    ensures
        ({
            let after = store.apply_all(battle_statements(battle));
            let n: nat = if battle.well_formed() {
                1
            } else {
                0
            };
            &&& after.card_metadata.len() <= store.card_metadata.len() + 16 * n
            &&& after.card_instances.len() <= store.card_instances.len() + 16 * n
            &&& after.decks.len() <= store.decks.len() + 2 * n
        }),
{
    if battle.well_formed() {
        let a = card_statements(battle.team[0].cards);
        let b = card_statements(battle.opponent[0].cards);
        let deck_a = StatementView::InsertDeck(deck_row(battle.team[0].cards));
        let deck_b = StatementView::InsertDeck(deck_row(battle.opponent[0].cards));
        let row = StatementView::InsertBattle(battle_row(battle));
        lemma_apply_all_concat(store, a, b);
        lemma_card_statements_growth(store, battle.team[0].cards);
        lemma_card_statements_growth(store.apply_all(a), battle.opponent[0].cards);
        lemma_apply_all_push(store, a + b, deck_a);
        lemma_apply_all_push(store, (a + b).push(deck_a), deck_b);
        lemma_apply_all_push(store, (a + b).push(deck_a).push(deck_b), row);
    }
}

/// Archiving a log adds at most sixteen card metadata rows, sixteen card
/// variant rows and two deck rows for each well-formed battle: only cards
/// and decks that the archive has not seen add a row.
pub proof fn law_archiving_adds_at_most(store: StoreView, log: Seq<BattleView>)
    ensures
        ({
            let after = store.apply_all(log_statements(log));
            &&& after.card_metadata.len() <= store.card_metadata.len() + 16 * valid_battles(log)
            &&& after.card_instances.len() <= store.card_instances.len() + 16 * valid_battles(log)
            &&& after.decks.len() <= store.decks.len() + 2 * valid_battles(log)
            &&& after.battles.len() == store.battles.len() + valid_battles(log)
        }),
    decreases log.len(),
{
    if log.len() > 0 {
        law_archiving_adds_at_most(store, log.drop_last());
        lemma_apply_all_concat(
            store,
            log_statements(log.drop_last()),
            battle_statements(log.last()),
        );
        lemma_battle_statements_growth(
            store.apply_all(log_statements(log.drop_last())),
            log.last(),
        );
    }
    law_relations_only_grow(store, log_statements(log));
    lemma_log_battle_inserts(log);
}

} // verus!
