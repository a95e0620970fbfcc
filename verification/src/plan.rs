//! From a fetched battle log to the statements that archive it.

use crate::api_models::{
    Battle, BattleView, Card, CardView, PlayerInfo, PlayerInfoView, battle_views,
};
use crate::hasher::{calculate_card_instance_hash, calculate_deck_hash, card_hash, deck_hash};
use crate::order::{sorted_strings, views};
use crate::rows::{
    BattleRow, BattleRowView, BattleSide, BattleSideView, CardInstanceRow, CardInstanceRowView,
    CardMetadataRow, CardMetadataRowView, DeckRow, DeckRowView, Statement, StatementView,
    statement_views,
};
use vstd::prelude::*;

verus! {

/// The metadata row that a card gives rise to.
pub open spec fn metadata_row(card: CardView) -> CardMetadataRowView {
    CardMetadataRowView { id: card.id, name: card.name, elixir_cost: card.elixir_cost }
}

/// The variant row that a card gives rise to.
pub open spec fn instance_row(card: CardView) -> CardInstanceRowView {
    CardInstanceRowView {
        instance_hash: card_hash(card),
        card_type_id: card.id,
        level: card.level,
        evolution_level: card.evolution_level,
    }
}

/// For each card in turn, the insert of its metadata and then of its
/// variant.
pub open spec fn card_statements(cards: Seq<CardView>) -> Seq<StatementView>
    decreases cards.len(),
{
    if cards.len() == 0 {
        Seq::empty()
    } else {
        card_statements(cards.drop_last()).push(
            StatementView::InsertCardMetadata(metadata_row(cards.last())),
        ).push(StatementView::InsertCardInstance(instance_row(cards.last())))
    }
}

/// The variant hash of each card, in the cards' order.
pub open spec fn card_hashes(cards: Seq<CardView>) -> Seq<Seq<char>> {
    cards.map_values(|c: CardView| card_hash(c))
}

/// The deck row of a player's cards: the hash of the deck, which is that of
/// the set of its variants, and the variant hash of each of the cards, in
/// ascending order. Of two decks with one hash, the one archived first gives
/// the row its columns.
pub open spec fn deck_row(cards: Seq<CardView>) -> DeckRowView {
    DeckRowView {
        deck_hash: deck_hash(card_hashes(cards)),
        card_instance_hashes: sorted_strings(card_hashes(cards)),
    }
}

/// What a battle row records of a player.
pub open spec fn battle_side(player: PlayerInfoView) -> BattleSideView {
    BattleSideView {
        tag: player.tag,
        crowns: player.crowns,
        deck_hash: deck_hash(card_hashes(player.cards)),
        starting_trophies: player.starting_trophies,
        trophy_change: player.trophy_change,
        king_tower_hit_points: player.king_tower_hit_points,
    }
}

/// The row of a well-formed battle.
pub open spec fn battle_row(battle: BattleView) -> BattleRowView {
    BattleRowView {
        battle_time: battle.battle_time,
        player_a: battle_side(battle.team[0]),
        player_b: battle_side(battle.opponent[0]),
    }
}

/// The statements that archive one battle. A well-formed battle asks for
/// the metadata and variant of each of its sixteen cards, the first side's
/// before the second's, then for both decks, then for the battle row. A
/// malformed battle asks for nothing.
pub open spec fn battle_statements(battle: BattleView) -> Seq<StatementView> {
    if battle.well_formed() {
        (card_statements(battle.team[0].cards) + card_statements(battle.opponent[0].cards)).push(
            StatementView::InsertDeck(deck_row(battle.team[0].cards)),
        ).push(StatementView::InsertDeck(deck_row(battle.opponent[0].cards))).push(
            StatementView::InsertBattle(battle_row(battle)),
        )
    } else {
        Seq::empty()
    }
}

/// The statements that archive a battle log: those of its battles, in the
/// battles' order.
pub open spec fn log_statements(log: Seq<BattleView>) -> Seq<StatementView>
    decreases log.len(),
{
    if log.len() == 0 {
        Seq::empty()
    } else {
        log_statements(log.drop_last()) + battle_statements(log.last())
    }
}

/// The number of well-formed battles in a log.
pub open spec fn valid_battles(log: Seq<BattleView>) -> nat
    decreases log.len(),
{
    if log.len() == 0 {
        0
    } else if log.last().well_formed() {
        valid_battles(log.drop_last()) + 1
    } else {
        valid_battles(log.drop_last())
    }
}

/// Whether each side of the battle is one player with eight cards.
pub fn is_well_formed(battle: &Battle) -> (ok: bool)
    ensures
        ok == battle@.well_formed(),
{
    battle.team.len() == 1 && battle.opponent.len() == 1 && battle.team[0].cards.len() == 8
        && battle.opponent[0].cards.len() == 8
}

fn push_card_statements(plan: &mut Vec<Statement>, player: &PlayerInfo)
    ensures
        statement_views(final(plan)@) == statement_views(old(plan)@) + card_statements(
            player@.cards,
        ),
{
    let ghost cards = player@.cards;
    let mut i: usize = 0;
    while i < player.cards.len()
        invariant
            i <= player.cards@.len(),
            cards == player@.cards,
            statement_views(plan@) == statement_views(old(plan)@) + card_statements(
                cards.take(i as int),
            ),
        decreases player.cards@.len() - i,
    {
        let card = &player.cards[i];
        let ghost before = plan@;
        plan.push(
            Statement::InsertCardMetadata(
                CardMetadataRow {
                    id: card.id,
                    name: card.name.clone(),
                    elixir_cost: card.elixir_cost,
                },
            ),
        );
        plan.push(
            Statement::InsertCardInstance(
                CardInstanceRow {
                    instance_hash: calculate_card_instance_hash(card),
                    card_type_id: card.id,
                    level: card.level,
                    evolution_level: card.evolution_level,
                },
            ),
        );
        proof {
            let next = cards.take(i + 1);
            assert(next.drop_last() =~= cards.take(i as int));
            assert(next.last() == card@);
            assert(statement_views(plan@) =~= statement_views(before).push(
                StatementView::InsertCardMetadata(metadata_row(card@)),
            ).push(StatementView::InsertCardInstance(instance_row(card@))));
            assert(statement_views(plan@) =~= statement_views(old(plan)@) + card_statements(next));
        }
        i += 1;
    }
    proof {
        assert(cards.take(i as int) =~= cards);
    }
}

/// The deck row of a player's cards.
pub fn deck_of(player: &PlayerInfo) -> (row: DeckRow)
    ensures
        row@ == deck_row(player@.cards),
        row@.card_instance_hashes.len() == player@.cards.len(),
{
    let ghost cards = player@.cards;
    let mut hashes: Vec<String> = Vec::new();
    let mut i: usize = 0;
    while i < player.cards.len()
        invariant
            i <= player.cards@.len(),
            cards == player@.cards,
            views(hashes@) == card_hashes(cards.take(i as int)),
        decreases player.cards@.len() - i,
    {
        let ghost before = hashes@;
        hashes.push(calculate_card_instance_hash(&player.cards[i]));
        proof {
            assert(views(hashes@) =~= views(before).push(card_hash(cards[i as int])));
            assert(views(hashes@) =~= card_hashes(cards.take(i + 1)));
        }
        i += 1;
    }
    proof {
        assert(cards.take(i as int) =~= cards);
    }
    let deck_hash = calculate_deck_hash(&mut hashes);
    DeckRow { deck_hash, card_instance_hashes: hashes }
}

fn side_of(player: &PlayerInfo, deck: &DeckRow) -> (side: BattleSide)
    requires
        deck@ == deck_row(player@.cards),
    ensures
        side@ == battle_side(player@),
{
    BattleSide {
        tag: player.tag.clone(),
        crowns: player.crowns,
        deck_hash: deck.deck_hash.clone(),
        starting_trophies: player.starting_trophies,
        trophy_change: player.trophy_change,
        king_tower_hit_points: player.king_tower_hit_points,
    }
}

/// The statements that archive one battle, in the order in which they are
/// to be executed. None for a malformed battle.
pub fn plan_battle(battle: &Battle) -> (plan: Vec<Statement>)
    ensures
        statement_views(plan@) == battle_statements(battle@),
{
    let mut plan: Vec<Statement> = Vec::new();
    if !is_well_formed(battle) {
        proof {
            assert(statement_views(plan@) =~= battle_statements(battle@));
        }
        return plan;
    }
    let player_a = &battle.team[0];
    let player_b = &battle.opponent[0];
    proof {
        assert(battle@.team[0] == player_a@);
        assert(battle@.opponent[0] == player_b@);
        assert(statement_views(plan@) =~= Seq::<StatementView>::empty());
    }
    push_card_statements(&mut plan, player_a);
    push_card_statements(&mut plan, player_b);
    let deck_a = deck_of(player_a);
    let deck_b = deck_of(player_b);
    let row = BattleRow {
        battle_time: battle.battle_time.clone(),
        player_a: side_of(player_a, &deck_a),
        player_b: side_of(player_b, &deck_b),
    };
    let ghost cards_done = plan@;
    plan.push(Statement::InsertDeck(deck_a));
    plan.push(Statement::InsertDeck(deck_b));
    plan.push(Statement::InsertBattle(row));
    proof {
        assert(statement_views(cards_done) =~= card_statements(player_a@.cards) + card_statements(
            player_b@.cards,
        ));
        assert(statement_views(plan@) =~= statement_views(cards_done).push(
            StatementView::InsertDeck(deck_row(player_a@.cards)),
        ).push(StatementView::InsertDeck(deck_row(player_b@.cards))).push(
            StatementView::InsertBattle(battle_row(battle@)),
        ));
    }
    plan
}

/// The statements that archive a battle log, in the order in which they
/// are to be executed. Malformed battles are passed over.
pub fn plan_battle_log(battle_log: &Vec<Battle>) -> (plan: Vec<Statement>)
    ensures
        statement_views(plan@) == log_statements(battle_views(battle_log@)),
{
    let ghost log = battle_views(battle_log@);
    let mut plan: Vec<Statement> = Vec::new();
    let mut i: usize = 0;
    proof {
        assert(statement_views(plan@) =~= log_statements(log.take(0)));
    }
    while i < battle_log.len()
        invariant
            i <= battle_log@.len(),
            log == battle_views(battle_log@),
            statement_views(plan@) == log_statements(log.take(i as int)),
        decreases battle_log@.len() - i,
    {
        let ghost before = plan@;
        let mut part = plan_battle(&battle_log[i]);
        let ghost added = part@;
        plan.append(&mut part);
        proof {
            let next = log.take(i + 1);
            assert(next.drop_last() =~= log.take(i as int));
            assert(next.last() == battle_log@[i as int]@);
            assert(statement_views(plan@) =~= statement_views(before) + statement_views(added));
        }
        i += 1;
    }
    proof {
        assert(log.take(i as int) =~= log);
    }
    plan
}

} // verus!
