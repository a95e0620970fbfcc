//! The rows of the archive's four relations, and the statements that write
//! them.

use crate::order::views;
use vstd::prelude::*;

verus! {

/// What is known of a card type. Key: `id`.
#[derive(Debug, Clone, PartialEq, Eq)]
pub struct CardMetadataRow {
    pub id: u32,
    pub name: String,
    pub elixir_cost: Option<u8>,
}

/// One card variant. Key: `instance_hash`.
#[derive(Debug, Clone, PartialEq, Eq)]
pub struct CardInstanceRow {
    pub instance_hash: String,
    pub card_type_id: u32,
    pub level: u8,
    pub evolution_level: Option<u8>,
}

/// One deck: its hash, and the variant hash of each of its cards in
/// ascending order. Key: `deck_hash`, which is that of the set of the
/// variants.
#[derive(Debug, Clone, PartialEq, Eq)]
pub struct DeckRow {
    pub deck_hash: String,
    pub card_instance_hashes: Vec<String>,
}

/// What a battle row records of one side.
#[derive(Debug, Clone, PartialEq, Eq)]
pub struct BattleSide {
    pub tag: String,
    pub crowns: u8,
    pub deck_hash: String,
    pub starting_trophies: Option<i32>,
    pub trophy_change: Option<i32>,
    pub king_tower_hit_points: Option<u32>,
}

/// One battle. Battle rows have no key of their own: each insert adds one.
#[derive(Debug, Clone, PartialEq, Eq)]
pub struct BattleRow {
    pub battle_time: String,
    pub player_a: BattleSide,
    pub player_b: BattleSide,
}

/// One write to the archive.
#[derive(Debug, Clone, PartialEq, Eq)]
pub enum Statement {
    /// Insert the row unless a row with its `id` exists.
    InsertCardMetadata(CardMetadataRow),
    /// Insert the row unless a row with its `instance_hash` exists.
    InsertCardInstance(CardInstanceRow),
    /// Insert the row unless a row with its `deck_hash` exists.
    InsertDeck(DeckRow),
    /// Insert the row.
    InsertBattle(BattleRow),
}

/// What a [`CardMetadataRow`] holds.
pub ghost struct CardMetadataRowView {
    pub id: u32,
    pub name: Seq<char>,
    pub elixir_cost: Option<u8>,
}

/// What a [`CardInstanceRow`] holds.
pub ghost struct CardInstanceRowView {
    pub instance_hash: Seq<char>,
    pub card_type_id: u32,
    pub level: u8,
    pub evolution_level: Option<u8>,
}

/// What a [`DeckRow`] holds.
pub ghost struct DeckRowView {
    pub deck_hash: Seq<char>,
    pub card_instance_hashes: Seq<Seq<char>>,
}

/// What a [`BattleSide`] holds.
pub ghost struct BattleSideView {
    pub tag: Seq<char>,
    pub crowns: u8,
    pub deck_hash: Seq<char>,
    pub starting_trophies: Option<i32>,
    pub trophy_change: Option<i32>,
    pub king_tower_hit_points: Option<u32>,
}

/// What a [`BattleRow`] holds.
pub ghost struct BattleRowView {
    pub battle_time: Seq<char>,
    pub player_a: BattleSideView,
    pub player_b: BattleSideView,
}

/// What a [`Statement`] holds.
pub ghost enum StatementView {
    InsertCardMetadata(CardMetadataRowView),
    InsertCardInstance(CardInstanceRowView),
    InsertDeck(DeckRowView),
    InsertBattle(BattleRowView),
}

impl View for CardMetadataRow {
    type V = CardMetadataRowView;

    open spec fn view(&self) -> CardMetadataRowView {
        CardMetadataRowView { id: self.id, name: self.name@, elixir_cost: self.elixir_cost }
    }
}

impl View for CardInstanceRow {
    type V = CardInstanceRowView;

    open spec fn view(&self) -> CardInstanceRowView {
        CardInstanceRowView {
            instance_hash: self.instance_hash@,
            card_type_id: self.card_type_id,
            level: self.level,
            evolution_level: self.evolution_level,
        }
    }
}

impl View for DeckRow {
    type V = DeckRowView;

    open spec fn view(&self) -> DeckRowView {
        DeckRowView {
            deck_hash: self.deck_hash@,
            card_instance_hashes: views(self.card_instance_hashes@),
        }
    }
}

impl View for BattleSide {
    type V = BattleSideView;

    open spec fn view(&self) -> BattleSideView {
        BattleSideView {
            tag: self.tag@,
            crowns: self.crowns,
            deck_hash: self.deck_hash@,
            starting_trophies: self.starting_trophies,
            trophy_change: self.trophy_change,
            king_tower_hit_points: self.king_tower_hit_points,
        }
    }
}

impl View for BattleRow {
    type V = BattleRowView;

    open spec fn view(&self) -> BattleRowView {
        BattleRowView {
            battle_time: self.battle_time@,
            player_a: self.player_a@,
            player_b: self.player_b@,
        }
    }
}

impl View for Statement {
    type V = StatementView;

    open spec fn view(&self) -> StatementView {
        match self {
            Statement::InsertCardMetadata(row) => StatementView::InsertCardMetadata(row@),
            Statement::InsertCardInstance(row) => StatementView::InsertCardInstance(row@),
            Statement::InsertDeck(row) => StatementView::InsertDeck(row@),
            Statement::InsertBattle(row) => StatementView::InsertBattle(row@),
        }
    }
}

impl Statement {
    /// Whether the statement inserts a battle row. The rows that such
    /// statements change are the new battles of a transaction.
    pub fn is_battle_insert(&self) -> (battle: bool)
        ensures
            battle == (self@ is InsertBattle),
    {
        match self {
            Statement::InsertBattle(_) => true,
            _ => false,
        }
    }
}

/// What a sequence of statements holds.
pub open spec fn statement_views(statements: Seq<Statement>) -> Seq<StatementView> {
    statements.map_values(|s: Statement| s@)
}

} // verus!
