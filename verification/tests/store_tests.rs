use cr_data_collector::api_models::{Battle, Card, PlayerInfo};
use cr_data_collector::db::{initialize_database, save_battle_log};
use cr_data_collector::hasher::{calculate_card_instance_hash, calculate_deck_hash};
use cr_data_collector::plan::{deck_of, is_well_formed, plan_battle, plan_battle_log};
use cr_data_collector::rows::{
    BattleRow, BattleSide, CardInstanceRow, CardMetadataRow, DeckRow, Statement,
};
use cr_data_collector::store::{RecordStore, StoreError};

fn card(id: u32, level: u8, evolution_level: Option<u8>) -> Card {
    Card { name: format!("card {}", id), id, level, elixir_cost: Some(3), evolution_level }
}

fn eight_cards(base: u32) -> Vec<Card> {
    (0..8).map(|i| card(base + i, 11, None)).collect()
}

fn player(tag: &str, cards: Vec<Card>) -> PlayerInfo {
    PlayerInfo {
        tag: tag.to_string(),
        name: format!("player {}", tag),
        crowns: 2,
        cards,
        starting_trophies: Some(5000),
        trophy_change: Some(-30),
        king_tower_hit_points: None,
    }
}

fn battle(time: &str, team: Vec<PlayerInfo>, opponent: Vec<PlayerInfo>) -> Battle {
    Battle { battle_time: time.to_string(), team, opponent }
}

fn good_battle(time: &str, a: &str, a_base: u32, b: &str, b_base: u32) -> Battle {
    battle(time, vec![player(a, eight_cards(a_base))], vec![player(b, eight_cards(b_base))])
}

fn ready_store() -> RecordStore {
    let mut store = RecordStore::new();
    initialize_database(&mut store);
    store
}

fn counts(store: &RecordStore) -> (usize, usize, usize, usize) {
    (
        store.card_metadata_count(),
        store.card_instance_count(),
        store.deck_count(),
        store.battle_count(),
    )
}

#[test]
fn new_store_is_empty() {
    let store = RecordStore::new();
    assert!(!store.is_initialized());
    assert_eq!(counts(&store), (0, 0, 0, 0));
}

#[test]
fn initializing_is_idempotent_and_keeps_the_rows() {
    let mut store = RecordStore::new();
    initialize_database(&mut store);
    assert!(store.is_initialized());
    assert_eq!(counts(&store), (0, 0, 0, 0));
    let log = vec![good_battle("t1", "#AAA", 100, "#BBB", 200)];
    assert_eq!(save_battle_log(&mut store, &log), Ok(1));
    let metadata = store.card_metadata().clone();
    let battles = store.battles().clone();
    initialize_database(&mut store);
    initialize_database(&mut store);
    assert!(store.is_initialized());
    assert_eq!(counts(&store), (16, 16, 2, 1));
    assert_eq!(store.card_metadata(), &metadata);
    assert_eq!(store.battles(), &battles);
}

#[test]
fn without_a_schema_archiving_fails_and_changes_nothing() {
    let mut store = RecordStore::new();
    let log = vec![
        good_battle("t1", "#AAA", 100, "#BBB", 200),
        good_battle("t2", "#AAA", 100, "#CCC", 300),
    ];
    assert_eq!(save_battle_log(&mut store, &log), Err(StoreError::NoSuchTable));
    assert_eq!(counts(&store), (0, 0, 0, 0));
    assert!(!store.is_initialized());
    let row = CardMetadataRow { id: 7, name: "Knight".to_string(), elixir_cost: Some(3) };
    assert_eq!(store.execute(Statement::InsertCardMetadata(row)), Err(StoreError::NoSuchTable));
    assert_eq!(store.execute_all(plan_battle_log(&log)), Err(StoreError::NoSuchTable));
    assert_eq!(counts(&store), (0, 0, 0, 0));
    initialize_database(&mut store);
    assert_eq!(save_battle_log(&mut store, &log), Ok(2));
}

#[test]
fn without_a_schema_an_empty_transaction_succeeds() {
    let mut store = RecordStore::new();
    assert_eq!(save_battle_log(&mut store, &Vec::new()), Ok(0));
    let malformed = vec![battle("t", vec![], vec![])];
    assert_eq!(save_battle_log(&mut store, &malformed), Ok(0));
    assert_eq!(store.execute_all(Vec::new()), Ok(0));
    assert!(!store.is_initialized());
}

#[test]
fn one_battle_is_archived() {
    let mut store = ready_store();
    let log = vec![good_battle("20240101T000000.000Z", "#AAA", 100, "#BBB", 200)];
    assert_eq!(save_battle_log(&mut store, &log), Ok(1));
    assert_eq!(counts(&store), (16, 16, 2, 1));
}

#[test]
fn archiving_twice_adds_battles_only() {
    let mut store = ready_store();
    let log = vec![
        good_battle("t1", "#AAA", 100, "#BBB", 200),
        good_battle("t2", "#AAA", 100, "#CCC", 300),
    ];
    assert_eq!(save_battle_log(&mut store, &log), Ok(2));
    let once = counts(&store);
    assert_eq!(once, (24, 24, 3, 2));
    let metadata = store.card_metadata().clone();
    let instances = store.card_instances().clone();
    let decks = store.decks().clone();
    assert_eq!(save_battle_log(&mut store, &log), Ok(2));
    assert_eq!(counts(&store), (24, 24, 3, 4));
    assert_eq!(store.card_metadata(), &metadata);
    assert_eq!(store.card_instances(), &instances);
    assert_eq!(store.decks(), &decks);
    assert_eq!(store.battles()[0], store.battles()[2]);
    assert_eq!(store.battles()[1], store.battles()[3]);
}

#[test]
fn malformed_battle_is_dropped() {
    let mut store = ready_store();
    let mut seven = eight_cards(500);
    seven.pop();
    let log = vec![
        good_battle("t1", "#AAA", 100, "#BBB", 100),
        battle("t2", vec![player("#AAA", eight_cards(300))], vec![player("#CCC", seven)]),
    ];
    assert!(is_well_formed(&log[0]));
    assert!(!is_well_formed(&log[1]));
    assert_eq!(save_battle_log(&mut store, &log), Ok(1));
    assert_eq!(store.battle_count(), 1);
    assert!(store.card_instance_count() <= 8);
    assert_eq!(counts(&store), (8, 8, 1, 1));
}

#[test]
fn malformed_battle_between_good_ones() {
    let mut store = ready_store();
    let log = vec![
        good_battle("t1", "#AAA", 100, "#BBB", 200),
        battle("t2", vec![], vec![player("#CCC", eight_cards(300))]),
        good_battle("t3", "#AAA", 100, "#DDD", 400),
    ];
    assert_eq!(save_battle_log(&mut store, &log), Ok(2));
    assert_eq!(counts(&store), (24, 24, 3, 2));
    assert_eq!(store.battles()[1].battle_time, "t3");
}

#[test]
fn every_shape_but_one_against_one_with_eight_cards_is_malformed() {
    let good = || player("#AAA", eight_cards(100));
    let mut nine = eight_cards(100);
    nine.push(card(999, 1, None));
    let shapes = vec![
        battle("t", vec![], vec![good()]),
        battle("t", vec![good()], vec![]),
        battle("t", vec![good(), good()], vec![good()]),
        battle("t", vec![good()], vec![good(), good()]),
        battle("t", vec![player("#AAA", nine.clone())], vec![good()]),
        battle("t", vec![good()], vec![player("#BBB", nine)]),
        battle("t", vec![player("#AAA", vec![])], vec![good()]),
    ];
    for shape in &shapes {
        assert!(!is_well_formed(shape));
        assert!(plan_battle(shape).is_empty());
    }
    let mut store = ready_store();
    assert_eq!(save_battle_log(&mut store, &shapes), Ok(0));
    assert_eq!(counts(&store), (0, 0, 0, 0));
}

#[test]
fn empty_log_changes_nothing() {
    let mut store = ready_store();
    assert_eq!(save_battle_log(&mut store, &Vec::new()), Ok(0));
    assert_eq!(counts(&store), (0, 0, 0, 0));
    assert!(plan_battle_log(&Vec::new()).is_empty());
}

#[test]
fn plan_of_a_battle_in_order() {
    let b = good_battle("20240101T000000.000Z", "#AAA", 100, "#BBB", 200);
    let plan = plan_battle(&b);
    assert_eq!(plan.len(), 35);
    for (i, c) in b.team[0].cards.iter().chain(b.opponent[0].cards.iter()).enumerate() {
        assert_eq!(
            plan[2 * i],
            Statement::InsertCardMetadata(CardMetadataRow {
                id: c.id,
                name: c.name.clone(),
                elixir_cost: c.elixir_cost,
            })
        );
        assert_eq!(
            plan[2 * i + 1],
            Statement::InsertCardInstance(CardInstanceRow {
                instance_hash: calculate_card_instance_hash(c),
                card_type_id: c.id,
                level: c.level,
                evolution_level: c.evolution_level,
            })
        );
    }
    let mut hashes_a: Vec<String> =
        b.team[0].cards.iter().map(calculate_card_instance_hash).collect();
    let deck_hash_a = calculate_deck_hash(&mut hashes_a);
    let mut hashes_b: Vec<String> =
        b.opponent[0].cards.iter().map(calculate_card_instance_hash).collect();
    let deck_hash_b = calculate_deck_hash(&mut hashes_b);
    assert_eq!(
        plan[32],
        Statement::InsertDeck(DeckRow {
            deck_hash: deck_hash_a.clone(),
            card_instance_hashes: hashes_a,
        })
    );
    assert_eq!(
        plan[33],
        Statement::InsertDeck(DeckRow {
            deck_hash: deck_hash_b.clone(),
            card_instance_hashes: hashes_b,
        })
    );
    assert_eq!(
        plan[34],
        Statement::InsertBattle(BattleRow {
            battle_time: "20240101T000000.000Z".to_string(),
            player_a: BattleSide {
                tag: "#AAA".to_string(),
                crowns: 2,
                deck_hash: deck_hash_a,
                starting_trophies: Some(5000),
                trophy_change: Some(-30),
                king_tower_hit_points: None,
            },
            player_b: BattleSide {
                tag: "#BBB".to_string(),
                crowns: 2,
                deck_hash: deck_hash_b,
                starting_trophies: Some(5000),
                trophy_change: Some(-30),
                king_tower_hit_points: None,
            },
        })
    );
}

#[test]
fn battle_inserts_are_told_apart() {
    let plan = plan_battle(&good_battle("t", "#AAA", 100, "#BBB", 200));
    let battles: Vec<usize> =
        (0..plan.len()).filter(|i| plan[*i].is_battle_insert()).collect();
    assert_eq!(battles, vec![34]);
}

#[test]
fn plan_of_a_log_joins_the_plans_of_its_battles() {
    let log = vec![
        good_battle("t1", "#AAA", 100, "#BBB", 200),
        battle("t2", vec![], vec![]),
        good_battle("t3", "#CCC", 300, "#DDD", 400),
    ];
    let mut expected = plan_battle(&log[0]);
    expected.extend(plan_battle(&log[2]));
    assert_eq!(plan_battle_log(&log), expected);
}

#[test]
fn deck_row_holds_sorted_hashes() {
    let p = player("#AAA", eight_cards(100));
    let row = deck_of(&p);
    let mut sorted = row.card_instance_hashes.clone();
    sorted.sort();
    assert_eq!(row.card_instance_hashes, sorted);
    assert_eq!(row.card_instance_hashes.len(), 8);
    let mut reversed = p.clone();
    reversed.cards.reverse();
    assert_eq!(deck_of(&reversed), row);
}

#[test]
fn same_cards_in_another_order_are_one_deck() {
    let mut store = ready_store();
    let mut shuffled = eight_cards(100);
    shuffled.rotate_left(5);
    let log = vec![battle(
        "t1",
        vec![player("#AAA", eight_cards(100))],
        vec![player("#BBB", shuffled)],
    )];
    assert_eq!(save_battle_log(&mut store, &log), Ok(1));
    assert_eq!(counts(&store), (8, 8, 1, 1));
    let row = &store.battles()[0];
    assert_eq!(row.player_a.deck_hash, row.player_b.deck_hash);
    assert_eq!(row.player_a.deck_hash, store.decks()[0].deck_hash);
}

#[test]
fn first_metadata_for_a_card_type_wins() {
    let mut store = ready_store();
    let first = CardMetadataRow { id: 7, name: "Knight".to_string(), elixir_cost: Some(3) };
    let second = CardMetadataRow { id: 7, name: "Ritter".to_string(), elixir_cost: None };
    assert_eq!(store.execute(Statement::InsertCardMetadata(first.clone())), Ok(1));
    assert_eq!(store.execute(Statement::InsertCardMetadata(second)), Ok(0));
    assert_eq!(store.card_metadata(), &vec![first]);
}

#[test]
fn first_variant_for_a_hash_wins() {
    let mut store = ready_store();
    let absent = card(7, 11, None);
    let zero = card(7, 11, Some(0));
    let log = vec![battle(
        "t1",
        vec![player("#AAA", vec![absent.clone(); 8])],
        vec![player("#BBB", vec![zero; 8])],
    )];
    assert_eq!(save_battle_log(&mut store, &log), Ok(1));
    assert_eq!(counts(&store), (1, 1, 1, 1));
    assert_eq!(store.card_instances()[0].evolution_level, None);
    assert_eq!(store.card_instances()[0].instance_hash, calculate_card_instance_hash(&absent));
}

#[test]
fn execute_reports_the_rows_changed() {
    let mut store = ready_store();
    let deck = DeckRow { deck_hash: "d1".to_string(), card_instance_hashes: vec!["h".to_string()] };
    let instance = CardInstanceRow {
        instance_hash: "h".to_string(),
        card_type_id: 1,
        level: 2,
        evolution_level: Some(1),
    };
    let side = BattleSide {
        tag: "#AAA".to_string(),
        crowns: 3,
        deck_hash: "d1".to_string(),
        starting_trophies: None,
        trophy_change: None,
        king_tower_hit_points: Some(4000),
    };
    let row = BattleRow { battle_time: "t".to_string(), player_a: side.clone(), player_b: side };
    assert_eq!(store.execute(Statement::InsertCardInstance(instance.clone())), Ok(1));
    assert_eq!(store.execute(Statement::InsertCardInstance(instance)), Ok(0));
    assert_eq!(store.execute(Statement::InsertDeck(deck.clone())), Ok(1));
    assert_eq!(store.execute(Statement::InsertDeck(deck)), Ok(0));
    assert_eq!(store.execute(Statement::InsertBattle(row.clone())), Ok(1));
    assert_eq!(store.execute(Statement::InsertBattle(row.clone())), Ok(1));
    assert_eq!(counts(&store), (0, 1, 1, 2));
    assert_eq!(store.battles(), &vec![row.clone(), row]);
}

#[test]
fn execute_all_counts_battle_rows_only() {
    let mut store = ready_store();
    let plan = plan_battle_log(&vec![
        good_battle("t1", "#AAA", 100, "#BBB", 200),
        good_battle("t2", "#BBB", 200, "#AAA", 100),
        good_battle("t3", "#AAA", 100, "#BBB", 200),
    ]);
    assert_eq!(plan.len(), 105);
    assert_eq!(store.execute_all(plan), Ok(3));
    assert_eq!(counts(&store), (16, 16, 2, 3));
}

#[test]
fn rows_keep_their_order_of_insertion() {
    let mut store = ready_store();
    assert!(save_battle_log(&mut store, &vec![good_battle("t1", "#AAA", 100, "#BBB", 200)]).is_ok());
    assert!(save_battle_log(&mut store, &vec![good_battle("t2", "#CCC", 50, "#AAA", 100)]).is_ok());
    let ids: Vec<u32> = store.card_metadata().iter().map(|r| r.id).collect();
    let expected: Vec<u32> = (100..108).chain(200..208).chain(50..58).collect();
    assert_eq!(ids, expected);
    let times: Vec<&str> = store.battles().iter().map(|r| r.battle_time.as_str()).collect();
    assert_eq!(times, vec!["t1", "t2"]);
    assert_eq!(store.battles()[1].player_a.tag, "#CCC");
    assert_eq!(store.battles()[1].player_b.tag, "#AAA");
}

#[test]
fn every_reference_finds_its_row() {
    let mut store = ready_store();
    let log = vec![
        good_battle("t1", "#AAA", 100, "#BBB", 200),
        battle("t2", vec![player("#AAA", eight_cards(100))], vec![]),
        good_battle("t3", "#CCC", 104, "#AAA", 100),
    ];
    assert_eq!(save_battle_log(&mut store, &log), Ok(2));
    for instance in store.card_instances() {
        assert!(store.card_metadata().iter().any(|m| m.id == instance.card_type_id));
    }
    for deck in store.decks() {
        assert_eq!(deck.card_instance_hashes.len(), 8);
        for hash in &deck.card_instance_hashes {
            assert!(store.card_instances().iter().any(|i| &i.instance_hash == hash));
        }
    }
    for row in store.battles() {
        for side in [&row.player_a, &row.player_b] {
            assert!(store.decks().iter().any(|d| d.deck_hash == side.deck_hash));
        }
    }
}

#[test]
fn a_battle_adds_at_most_sixteen_cards_and_two_decks() {
    let mut store = ready_store();
    assert_eq!(save_battle_log(&mut store, &vec![good_battle("t1", "#AAA", 100, "#BBB", 200)]), Ok(1));
    assert_eq!(counts(&store), (16, 16, 2, 1));
    // Half of the cards of the second battle are known.
    assert_eq!(save_battle_log(&mut store, &vec![good_battle("t2", "#CCC", 104, "#DDD", 204)]), Ok(1));
    assert_eq!(counts(&store), (24, 24, 4, 2));
    // A higher level is another variant of a known card type.
    let mut leveled = eight_cards(100);
    leveled[0].level = 14;
    let log = vec![battle("t3", vec![player("#AAA", leveled)], vec![player("#BBB", eight_cards(200))])];
    assert_eq!(save_battle_log(&mut store, &log), Ok(1));
    assert_eq!(counts(&store), (24, 25, 5, 3));
}

#[test]
fn decks_with_the_same_variants_are_one_deck_whatever_fills_two_slots() {
    let mut store = ready_store();
    let mut first_twice = eight_cards(100);
    first_twice[7] = first_twice[0].clone();
    let mut second_twice = eight_cards(100);
    second_twice[7] = second_twice[1].clone();
    let log = vec![battle(
        "t1",
        vec![player("#AAA", first_twice.clone())],
        vec![player("#BBB", second_twice)],
    )];
    assert_eq!(save_battle_log(&mut store, &log), Ok(1));
    assert_eq!(counts(&store), (7, 7, 1, 1));
    let row = &store.battles()[0];
    assert_eq!(row.player_a.deck_hash, row.player_b.deck_hash);
    // The first deck with the hash gave the row its eight columns.
    assert_eq!(store.decks()[0], deck_of(&player("#AAA", first_twice)));
    assert_eq!(store.decks()[0].card_instance_hashes.len(), 8);
}
