//! The shape of a fetched battle log.

use vstd::prelude::*;

verus! {

/// A battle log: the battles of one player, in the order received.
pub type BattleLog = Vec<Battle>;

/// One card of a deck, as it was played in a battle.
#[derive(Debug, Clone, PartialEq, Eq)]
pub struct Card {
    /// The display name of the card.
    pub name: String,
    /// The identifier of the card type.
    pub id: u32,
    /// The level of the card.
    pub level: u8,
    /// The elixir cost of the card, where it has one.
    pub elixir_cost: Option<u8>,
    /// The evolution tier of the card, where it is evolved.
    pub evolution_level: Option<u8>,
}

/// One side of a battle.
#[derive(Debug, Clone, PartialEq, Eq)]
pub struct PlayerInfo {
    /// The identifier of the player.
    pub tag: String,
    /// The display name of the player.
    pub name: String,
    /// The crowns the player won in the battle.
    pub crowns: u8,
    /// The cards the player used.
    pub cards: Vec<Card>,
    /// The trophies of the player when the battle began.
    pub starting_trophies: Option<i32>,
    /// The trophies won or lost in the battle.
    pub trophy_change: Option<i32>,
    /// The hit points left on the king tower.
    pub king_tower_hit_points: Option<u32>,
}

/// One completed match.
#[derive(Debug, Clone, PartialEq, Eq)]
pub struct Battle {
    /// When the battle took place.
    pub battle_time: String,
    /// The players of the first side.
    pub team: Vec<PlayerInfo>,
    /// The players of the second side.
    pub opponent: Vec<PlayerInfo>,
}

/// What a [`Card`] holds.
pub ghost struct CardView {
    pub name: Seq<char>,
    pub id: u32,
    pub level: u8,
    pub elixir_cost: Option<u8>,
    pub evolution_level: Option<u8>,
}

/// What a [`PlayerInfo`] holds.
pub ghost struct PlayerInfoView {
    pub tag: Seq<char>,
    pub name: Seq<char>,
    pub crowns: u8,
    pub cards: Seq<CardView>,
    pub starting_trophies: Option<i32>,
    pub trophy_change: Option<i32>,
    pub king_tower_hit_points: Option<u32>,
}

/// What a [`Battle`] holds.
pub ghost struct BattleView {
    pub battle_time: Seq<char>,
    pub team: Seq<PlayerInfoView>,
    pub opponent: Seq<PlayerInfoView>,
}

impl View for Card {
    type V = CardView;

    open spec fn view(&self) -> CardView {
        CardView {
            name: self.name@,
            id: self.id,
            level: self.level,
            elixir_cost: self.elixir_cost,
            evolution_level: self.evolution_level,
        }
    }
}

impl View for PlayerInfo {
    type V = PlayerInfoView;

    open spec fn view(&self) -> PlayerInfoView {
        PlayerInfoView {
            tag: self.tag@,
            name: self.name@,
            crowns: self.crowns,
            cards: self.cards@.map_values(|c: Card| c@),
            starting_trophies: self.starting_trophies,
            trophy_change: self.trophy_change,
            king_tower_hit_points: self.king_tower_hit_points,
        }
    }
}

impl View for Battle {
    type V = BattleView;

    open spec fn view(&self) -> BattleView {
        BattleView {
            battle_time: self.battle_time@,
            team: self.team@.map_values(|p: PlayerInfo| p@),
            opponent: self.opponent@.map_values(|p: PlayerInfo| p@),
        }
    }
}

/// What a battle log holds.
pub open spec fn battle_views(log: Seq<Battle>) -> Seq<BattleView> {
    log.map_values(|b: Battle| b@)
}

impl CardView {
    /// The evolution tier, an absent one counting as 0.
    pub open spec fn tier(self) -> u8 {
        match self.evolution_level {
            Some(t) => t,
            None => 0,
        }
    }
}

impl BattleView {
    /// A battle is well formed when each side is one player with eight cards.
    pub open spec fn well_formed(self) -> bool {
        &&& self.team.len() == 1
        &&& self.opponent.len() == 1
        &&& self.team[0].cards.len() == 8
        &&& self.opponent[0].cards.len() == 8
    }
}

} // verus!
