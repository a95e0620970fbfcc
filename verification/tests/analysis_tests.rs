use cr_data_collector::api_models::{Battle, Card, PlayerInfo};
use cr_data_collector::clustering::{cluster_decks, decks_fit, prepare_data_for_clustering};
use cr_data_collector::data_loader::{decks_resolvable, load_unique_decks};
use cr_data_collector::db::{initialize_database, save_battle_log};
use cr_data_collector::rows::{CardInstanceRow, DeckRow};
use cr_data_collector::store::RecordStore;

fn instance(hash: &str, card_type_id: u32) -> CardInstanceRow {
    CardInstanceRow {
        instance_hash: hash.to_string(),
        card_type_id,
        level: 11,
        evolution_level: None,
    }
}

fn deck(hash: &str, hashes: &[&str]) -> DeckRow {
    DeckRow {
        deck_hash: hash.to_string(),
        card_instance_hashes: hashes.iter().map(|h| h.to_string()).collect(),
    }
}

#[test]
fn decks_are_resolved_to_card_types() {
    let instances = vec![instance("h1", 10), instance("h2", 20), instance("h3", 30)];
    let decks = vec![deck("d1", &["h3", "h1"]), deck("d2", &["h2", "h2", "h1"]), deck("d3", &[])];
    assert!(decks_resolvable(&instances, &decks));
    assert_eq!(
        load_unique_decks(&instances, &decks),
        vec![
            ("d1".to_string(), vec![30, 10]),
            ("d2".to_string(), vec![20, 20, 10]),
            ("d3".to_string(), vec![]),
        ]
    );
}

#[test]
fn a_deck_with_an_unknown_variant_is_not_resolvable() {
    let instances = vec![instance("h1", 10)];
    assert!(!decks_resolvable(&instances, &vec![deck("d1", &["h1", "h9"])]));
    assert!(!decks_resolvable(&instances, &vec![deck("d1", &["h1"]), deck("d2", &["h9"])]));
    assert!(!decks_resolvable(&Vec::new(), &vec![deck("d1", &["h1"])]));
    assert!(decks_resolvable(&instances, &vec![deck("d1", &["h1", "h1"]), deck("d2", &[])]));
    assert!(decks_resolvable(&Vec::new(), &Vec::new()));
    assert_eq!(load_unique_decks(&Vec::new(), &Vec::new()), Vec::new());
}

#[test]
fn the_later_of_two_rows_with_one_hash_counts() {
    let instances = vec![instance("h1", 10), instance("h1", 11)];
    assert_eq!(
        load_unique_decks(&instances, &vec![deck("d1", &["h1"])]),
        vec![("d1".to_string(), vec![11])]
    );
}

#[test]
fn presence_matrix_of_two_decks() {
    let loaded = vec![("d1".to_string(), vec![30, 10]), ("d2".to_string(), vec![20, 20, 99])];
    assert!(decks_fit(&loaded, &vec![10, 20, 30, 40]));
    let (matrix, hashes) = prepare_data_for_clustering(&loaded, &vec![10, 20, 30, 40]);
    assert_eq!(
        matrix,
        vec![vec![true, false, true, false], vec![false, true, false, false]]
    );
    assert_eq!(hashes, vec!["d1".to_string(), "d2".to_string()]);
}

#[test]
fn columns_follow_the_order_of_the_card_types() {
    let loaded = vec![("d1".to_string(), vec![7])];
    let (matrix, _) = prepare_data_for_clustering(&loaded, &vec![9, 7, 8]);
    assert_eq!(matrix, vec![vec![false, true, false]]);
}

#[test]
fn no_card_types_give_an_empty_matrix() {
    let loaded = vec![("d1".to_string(), vec![30, 10])];
    assert!(decks_fit(&loaded, &Vec::new()));
    let (matrix, hashes) = prepare_data_for_clustering(&loaded, &Vec::new());
    assert!(matrix.is_empty());
    assert!(hashes.is_empty());
}

#[test]
fn no_decks_give_no_rows() {
    assert!(decks_fit(&Vec::new(), &vec![1, 2]));
    let (matrix, hashes) = prepare_data_for_clustering(&Vec::new(), &vec![1, 2]);
    assert!(matrix.is_empty());
    assert!(hashes.is_empty());
}

#[test]
fn a_card_type_listed_twice_may_fall_outside_the_matrix() {
    // 5 stands twice: two columns, and 6 would have the third.
    let ids = vec![5, 5, 6];
    assert!(!decks_fit(&vec![("d".to_string(), vec![6])], &ids));
    assert!(!decks_fit(&vec![("d".to_string(), vec![5]), ("e".to_string(), vec![4, 6])], &ids));
    let five = vec![("d".to_string(), vec![5])];
    assert!(decks_fit(&five, &ids));
    assert_eq!(
        prepare_data_for_clustering(&five, &ids),
        (vec![vec![false, true]], vec!["d".to_string()])
    );
    let four = vec![("d".to_string(), vec![4])];
    assert!(decks_fit(&four, &ids));
    assert_eq!(
        prepare_data_for_clustering(&four, &ids),
        (vec![vec![false, false]], vec!["d".to_string()])
    );
}

#[test]
fn clusters_by_deck_hash() {
    let hashes = vec!["d1".to_string(), "d2".to_string(), "d1".to_string()];
    let assigned = cluster_decks(&hashes, &vec![4, 0, 2, 9]);
    assert_eq!(assigned.len(), 2);
    assert_eq!(assigned.get("d1"), Some(&2));
    assert_eq!(assigned.get("d2"), Some(&0));
    assert_eq!(assigned.get("d3"), None);
}

#[test]
fn clusters_of_no_decks() {
    assert_eq!(cluster_decks(&Vec::new(), &Vec::new()).len(), 0);
    assert_eq!(cluster_decks(&Vec::new(), &vec![3]).len(), 0);
    let one = cluster_decks(&vec!["d1".to_string()], &vec![7]);
    assert_eq!(one.get("d1"), Some(&7));
}

fn eight_cards(base: u32) -> Vec<Card> {
    (0..8)
        .map(|i| Card {
            name: format!("card {}", base + i),
            id: base + i,
            level: 9,
            elixir_cost: None,
            evolution_level: Some(1),
        })
        .collect()
}

fn player(tag: &str, cards: Vec<Card>) -> PlayerInfo {
    PlayerInfo {
        tag: tag.to_string(),
        name: tag.to_string(),
        crowns: 0,
        cards,
        starting_trophies: None,
        trophy_change: None,
        king_tower_hit_points: None,
    }
}

#[test]
fn archived_decks_load_and_encode() {
    let mut store = RecordStore::new();
    initialize_database(&mut store);
    let log = vec![Battle {
        battle_time: "t".to_string(),
        team: vec![player("#AAA", eight_cards(100))],
        opponent: vec![player("#BBB", eight_cards(104))],
    }];
    assert_eq!(save_battle_log(&mut store, &log), Ok(1));
    assert!(decks_resolvable(store.card_instances(), store.decks()));
    let loaded = load_unique_decks(store.card_instances(), store.decks());
    assert_eq!(loaded.len(), 2);
    let mut first = loaded[0].1.clone();
    first.sort();
    assert_eq!(first, (100..108).collect::<Vec<u32>>());
    let mut card_ids: Vec<u32> = store.card_metadata().iter().map(|r| r.id).collect();
    card_ids.sort();
    assert_eq!(card_ids, (100..112).collect::<Vec<u32>>());
    assert!(decks_fit(&loaded, &card_ids));
    let (matrix, hashes) = prepare_data_for_clustering(&loaded, &card_ids);
    assert_eq!(hashes, vec![store.decks()[0].deck_hash.clone(), store.decks()[1].deck_hash.clone()]);
    let row = |from: usize, to: usize| (0..12).map(|j| from <= j && j < to).collect::<Vec<bool>>();
    assert_eq!(matrix, vec![row(0, 8), row(4, 12)]);
}
