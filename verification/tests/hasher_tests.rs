use cr_data_collector::api_models::Card;
use cr_data_collector::hasher::{calculate_card_instance_hash, calculate_deck_hash};
use cr_data_collector::order::{sort_strings, string_eq, string_le};
use cr_data_collector::text::{push_decimal, to_hex_lower};
use sha2::{Digest, Sha256};

fn card(id: u32, level: u8, evolution_level: Option<u8>) -> Card {
    Card { name: format!("card {}", id), id, level, elixir_cost: Some(3), evolution_level }
}

fn reference_hash(text: &str) -> String {
    format!("{:x}", Sha256::digest(text.as_bytes()))
}

#[test]
fn variant_hash_of_known_triple() {
    let hash = calculate_card_instance_hash(&card(26000000, 13, Some(0)));
    assert_eq!(hash, "5979e4a2c7400e34bba2267792ccd22f83c031bc1a9784a7ee766d0e063593d2");
}

#[test]
fn variant_hash_has_64_hex_digits() {
    let hash = calculate_card_instance_hash(&card(26000000, 13, Some(1)));
    assert_eq!(hash.len(), 64);
    assert!(hash.chars().all(|c| c.is_ascii_digit() || ('a'..='f').contains(&c)));
    assert_eq!(hash, "ca0ddf1f320907b0534acc3e89ae13a66dfaf903f7c1c8a441000f344e8187f0");
}

#[test]
fn variant_hash_defaults_absent_tier_to_zero() {
    let absent = calculate_card_instance_hash(&card(26000000, 13, None));
    let zero = calculate_card_instance_hash(&card(26000000, 13, Some(0)));
    let one = calculate_card_instance_hash(&card(26000000, 13, Some(1)));
    assert_eq!(absent, zero);
    assert_ne!(absent, one);
}

#[test]
fn variant_hash_ignores_name_and_elixir() {
    let a = Card {
        name: "Knight".to_string(),
        id: 26000000,
        level: 13,
        elixir_cost: Some(3),
        evolution_level: None,
    };
    let b = Card {
        name: "Ritter".to_string(),
        id: 26000000,
        level: 13,
        elixir_cost: None,
        evolution_level: None,
    };
    assert_eq!(calculate_card_instance_hash(&a), calculate_card_instance_hash(&b));
}

#[test]
fn variant_hash_tells_triples_apart() {
    let base = calculate_card_instance_hash(&card(1, 11, Some(1)));
    assert_ne!(base, calculate_card_instance_hash(&card(11, 1, Some(1))));
    assert_ne!(base, calculate_card_instance_hash(&card(1, 1, Some(11))));
    assert_ne!(base, calculate_card_instance_hash(&card(2, 11, Some(1))));
    assert_ne!(base, calculate_card_instance_hash(&card(1, 12, Some(1))));
}

#[test]
fn variant_hash_at_the_limits() {
    assert_eq!(
        calculate_card_instance_hash(&card(0, 0, None)),
        "f173fccbd9a6ed6093531fdf194836a1771d218313404783813b394679edac17"
    );
    assert_eq!(
        calculate_card_instance_hash(&card(u32::MAX, u8::MAX, Some(u8::MAX))),
        "673e44b1c0092595cd62c07fb7dfa86e86fce1e1fcfe95277ed0a7ad82cfe578"
    );
}

#[test]
fn variant_hash_agrees_with_sha2() {
    for (id, level, tier) in [(26000000u32, 13u8, 0u8), (28000011, 1, 2), (7, 100, 9)] {
        let hash = calculate_card_instance_hash(&card(id, level, Some(tier)));
        assert_eq!(hash, reference_hash(&format!("{}-{}-{}", id, level, tier)));
    }
}

fn eight_hashes() -> Vec<String> {
    (0..8u32).map(|i| calculate_card_instance_hash(&card(26000000 + i, 11, None))).collect()
}

#[test]
fn deck_hash_of_known_deck() {
    let mut hashes = eight_hashes();
    let hash = calculate_deck_hash(&mut hashes);
    assert_eq!(hash, "7b0c85d70e131b0410327ee9cf2838e66e59b1a92b74ed6b8861bdc8cf81408f");
}

#[test]
fn deck_hash_sorts_its_input() {
    let mut hashes = eight_hashes();
    let mut expected = hashes.clone();
    expected.sort_unstable();
    calculate_deck_hash(&mut hashes);
    assert_eq!(hashes, expected);
    assert_eq!(hashes[0], "3109649b075dac7e0803251c9e4a1b73cb17078e44ef6d323d412d1fbc13f4ea");
}

#[test]
fn deck_hash_is_order_independent() {
    let original = eight_hashes();
    let expected = calculate_deck_hash(&mut original.clone());
    let mut reversed: Vec<String> = original.iter().rev().cloned().collect();
    assert_eq!(calculate_deck_hash(&mut reversed), expected);
    let mut rotated = original.clone();
    rotated.rotate_left(3);
    assert_eq!(calculate_deck_hash(&mut rotated), expected);
    let mut swapped = original.clone();
    swapped.swap(1, 6);
    assert_eq!(calculate_deck_hash(&mut swapped), expected);
}

#[test]
fn deck_hash_agrees_with_sha2() {
    let mut hashes = eight_hashes();
    let mut sorted = hashes.clone();
    sorted.sort_unstable();
    assert_eq!(calculate_deck_hash(&mut hashes), reference_hash(&sorted.join(",")));
}

#[test]
fn deck_hash_of_two_and_of_none() {
    let mut two = vec!["b".to_string(), "a".to_string()];
    assert_eq!(
        calculate_deck_hash(&mut two),
        "1eb7c54d52831bbfe8942af0b1c56b7409523a59ed6ca99c1174fef7eb32c1b5"
    );
    assert_eq!(two, vec!["a".to_string(), "b".to_string()]);
    let mut none: Vec<String> = Vec::new();
    assert_eq!(
        calculate_deck_hash(&mut none),
        "e3b0c44298fc1c149afbf4c8996fb92427ae41e4649b934ca495991b7852b855"
    );
}

#[test]
fn deck_hash_differs_for_another_deck() {
    let mut first = eight_hashes();
    let mut second = eight_hashes();
    second[7] = calculate_card_instance_hash(&card(26000099, 11, None));
    assert_ne!(calculate_deck_hash(&mut first), calculate_deck_hash(&mut second));
}

#[test]
fn decimal_rendering() {
    for n in [0u32, 7, 10, 99, 100, 26000000, u32::MAX] {
        let mut out = vec![b'x'];
        push_decimal(&mut out, n);
        assert_eq!(out, format!("x{}", n).into_bytes());
    }
}

#[test]
fn hex_rendering() {
    assert_eq!(to_hex_lower(&vec![]), "");
    assert_eq!(to_hex_lower(&vec![0x00, 0x0a, 0x14, 0x1e, 0xff, 0x9c]), "000a141eff9c");
}

#[test]
fn string_order_is_by_bytes() {
    assert!(string_le("", ""));
    assert!(string_le("", "a"));
    assert!(!string_le("a", ""));
    assert!(string_le("a", "ab"));
    assert!(!string_le("ab", "a"));
    assert!(string_le("Z", "a"));
    assert!(string_le("abc", "abd"));
    assert!(!string_le("abd", "abc"));
    assert!(string_le("z", "é"));
    assert!(string_le("same", "same"));
    for (a, b) in [("10", "9"), ("é", "z"), ("#AAA", "#AAB"), ("", "")] {
        assert_eq!(string_le(a, b), a <= b);
    }
}

#[test]
fn string_equality() {
    assert!(string_eq("#AAA", "#AAA"));
    assert!(!string_eq("#AAA", "#AAB"));
    assert!(!string_eq("#AAA", "#AA"));
    assert!(string_eq("", ""));
}

#[test]
fn sorting_strings() {
    let mut strings: Vec<String> =
        ["pear", "apple", "fig", "apple", "Zebra", "", "äpfel"].iter().map(|s| s.to_string()).collect();
    let mut expected = strings.clone();
    expected.sort();
    sort_strings(&mut strings);
    assert_eq!(strings, expected);
    assert_eq!(strings, vec!["", "Zebra", "apple", "apple", "fig", "pear", "äpfel"]);
}

fn strings(items: &[&str]) -> Vec<String> {
    items.iter().map(|s| s.to_string()).collect()
}

#[test]
fn deck_hash_counts_a_repeated_hash_once() {
    let mut x = strings(&["a", "a", "b", "c", "d", "e", "f", "g"]);
    let mut y = strings(&["a", "b", "b", "c", "d", "e", "f", "g"]);
    let mut z = strings(&["g", "f", "e", "d", "c", "b", "a"]);
    let hash = calculate_deck_hash(&mut x);
    assert_eq!(hash, "823c7cf7738c59a8055c452cc8f714db074ec38c88f797cc4d6bb3071eda19da");
    assert_eq!(calculate_deck_hash(&mut y), hash);
    assert_eq!(calculate_deck_hash(&mut z), hash);
    assert_eq!(hash, reference_hash("a,b,c,d,e,f,g"));
}

#[test]
fn deck_hash_keeps_every_slot_in_the_sorted_list() {
    let mut x = strings(&["b", "a", "g", "a", "c", "d", "e", "f"]);
    calculate_deck_hash(&mut x);
    assert_eq!(x, strings(&["a", "a", "b", "c", "d", "e", "f", "g"]));
    let mut y = strings(&["b", "b", "b"]);
    calculate_deck_hash(&mut y);
    assert_eq!(y, strings(&["b", "b", "b"]));
}

#[test]
fn deck_hash_of_one_hash_in_every_slot() {
    let mut all_same = strings(&["a"; 8]);
    let mut once = strings(&["a"]);
    let hash = calculate_deck_hash(&mut all_same);
    assert_eq!(hash, "ca978112ca1bbdcafac231b39a23dc4da786eff8147c4e72b9807785afee48bb");
    assert_eq!(calculate_deck_hash(&mut once), hash);
    assert_ne!(hash, reference_hash("a,a,a,a,a,a,a,a"));
}

#[test]
fn deck_hash_of_variant_hashes_with_a_repetition() {
    let hashes = eight_hashes();
    let mut first_twice: Vec<String> = vec![hashes[0].clone(), hashes[0].clone()];
    first_twice.extend(hashes[1..7].iter().cloned());
    let mut second_twice: Vec<String> = vec![hashes[0].clone(), hashes[1].clone()];
    second_twice.extend(hashes[1..7].iter().cloned());
    let hash = calculate_deck_hash(&mut first_twice);
    assert_eq!(hash, "ecf6f552e87e4c03f327919db6e5ca2b55410e14e5dc8a76790aa9e8b3f2f8a7");
    assert_eq!(calculate_deck_hash(&mut second_twice), hash);
    assert_ne!(calculate_deck_hash(&mut eight_hashes()), hash);
}

#[test]
fn deck_hash_tells_sets_apart() {
    let mut with_a = strings(&["a", "b", "c"]);
    let mut without_a = strings(&["b", "b", "c"]);
    assert_ne!(calculate_deck_hash(&mut with_a), calculate_deck_hash(&mut without_a));
}
