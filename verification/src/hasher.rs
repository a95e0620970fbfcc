//! Content hashes of card variants and decks.
//!
//! A card variant is the triple of card type, level and evolution tier. Its
//! hash is the SHA-256 of the triple written as `id-level-tier`. A deck is
//! the set of its variants: its hash is the SHA-256 of its distinct variant
//! hashes, sorted and joined by commas, so that neither the order of the
//! slots nor a variant that fills two of them changes it. Both hashes are
//! rendered as lowercase hexadecimal text.

use crate::api_models::{Card, CardView};
use crate::order::{
    distinct_sorted, lemma_distinct_sorted_ensures, lemma_distinct_sorted_unique,
    lemma_same_multiset_same_set, lemma_sorted_strings_unique, lemma_str_order_total,
    sort_strings, sorted_strings, str_order, string_eq, views,
};
use crate::sha::{sha256, sha256_digest};
use crate::text::{
    decimal, hex_lower, lemma_decimal_digits, lemma_decimal_injective, lemma_hex_lower_injective,
    lemma_hex_lower_len, push_decimal, to_hex_lower,
};
use vstd::prelude::*;
use vstd::relations::{sorted_by, total_ordering};
use vstd::string::StringExecFns;
use vstd::utf8::encode_utf8;

verus! {

/// The canonical text of a card variant: the three numbers in decimal,
/// separated by `-`, as ASCII bytes.
pub open spec fn variant_text(id: u32, level: u8, tier: u8) -> Seq<u8> {
    decimal(id as nat) + seq![45u8] + decimal(level as nat) + seq![45u8] + decimal(tier as nat)
}

/// The content hash of a card variant.
pub open spec fn variant_hash(id: u32, level: u8, tier: u8) -> Seq<char> {
    hex_lower(sha256(variant_text(id, level, tier)))
}

/// The strings joined by commas.
pub open spec fn join_comma(parts: Seq<Seq<char>>) -> Seq<char>
    decreases parts.len(),
{
    if parts.len() == 0 {
        Seq::empty()
    } else if parts.len() == 1 {
        parts[0]
    } else {
        join_comma(parts.drop_last()).push(',') + parts.last()
    }
}

/// The content hash of a deck with the given variant hashes, in any order
/// and however often each occurs: the hash of the distinct variant hashes in
/// ascending order, joined by commas.
pub open spec fn deck_hash(variant_hashes: Seq<Seq<char>>) -> Seq<char> {
    hex_lower(sha256(encode_utf8(join_comma(distinct_sorted(variant_hashes)))))
}

/// The content hash of the card's variant. An absent evolution tier counts
/// as tier 0.
pub fn calculate_card_instance_hash(card: &Card) -> (hash: String)
    ensures
        hash@ == variant_hash(card.id, card.level, card@.tier()),
        hash@.len() == 64,
{
    let tier: u8 = match card.evolution_level {
        Some(t) => t,
        None => 0,
    };
    let mut text: Vec<u8> = Vec::new();
    push_decimal(&mut text, card.id);
    text.push(45);
    push_decimal(&mut text, card.level as u32);
    text.push(45);
    push_decimal(&mut text, tier as u32);
    proof {
        assert(text@ =~= variant_text(card.id, card.level, tier));
    }
    let digest = sha256_digest(text.as_slice());
    proof {
        lemma_hex_lower_len(digest@);
    }
    to_hex_lower(&digest)
}

/// Sorts the variant hashes in place, keeping each as often as it occurs,
/// and returns the content hash of the deck they make up. A hash that
/// occurs more than once counts once for the deck's hash.
pub fn calculate_deck_hash(card_instance_hashes: &mut Vec<String>) -> (hash: String)
    ensures
        views(final(card_instance_hashes)@) == sorted_strings(views(old(card_instance_hashes)@)),
        views(final(card_instance_hashes)@).to_multiset() == views(
            old(card_instance_hashes)@,
        ).to_multiset(),
        final(card_instance_hashes)@.len() == old(card_instance_hashes)@.len(),
        hash@ == deck_hash(views(old(card_instance_hashes)@)),
        hash@.len() == 64,
{
    sort_strings(card_instance_hashes);
    let ghost sorted = views(card_instance_hashes@);
    let ghost mut kept: Seq<Seq<char>> = Seq::empty();
    let mut joined = String::new();
    let mut i: usize = 0;
    proof {
        lemma_str_order_total();
        assert(sorted.take(0).to_set() =~= kept.to_set());
    }
    while i < card_instance_hashes.len()
        invariant
            i <= card_instance_hashes.len(),
            sorted == views(card_instance_hashes@),
            sorted_by(sorted, str_order()),
            total_ordering(str_order()),
            joined@ == join_comma(kept),
            sorted_by(kept, str_order()),
            kept.no_duplicates(),
            kept.to_set() == sorted.take(i as int).to_set(),
            i > 0 ==> kept.len() > 0 && kept.last() == sorted[i - 1],
        decreases card_instance_hashes.len() - i,
    {
        let ghost current = sorted[i as int];
        let ghost before = kept;
        proof {
            assert(current == card_instance_hashes@[i as int]@);
            if i > 0 {
                assert(sorted[i - 1] == card_instance_hashes@[i - 1]@);
            }
        }
        let repeated = i > 0 && string_eq(
            card_instance_hashes[i - 1].as_str(),
            card_instance_hashes[i].as_str(),
        );
        if !repeated {
            if i > 0 {
                joined.push(',');
            }
            joined.append(card_instance_hashes[i].as_str());
            proof {
                kept = before.push(current);
                lemma_push_keeps_distinct_sorted(sorted, i as int, before);
                if i == 0 && before.len() > 0 {
                    assert(before.to_set().contains(before[0]));
                    assert(sorted.take(0).contains(before[0]));
                }
                if i == 0 {
                    assert(joined@ =~= current);
                }
            }
        }
        proof {
            lemma_take_one_more(sorted, i as int);
            if repeated {
                assert(sorted.take(i as int)[i - 1] == current);
                assert(sorted.take(i as int).to_set().contains(current));
                assert(kept.to_set() =~= sorted.take(i + 1).to_set());
            } else {
                assert(kept.to_set() =~= before.to_set().insert(current)) by {
                    assert forall|x: Seq<char>| kept.to_set().contains(x) == before.to_set().insert(
                        current,
                    ).contains(x) by {
                        if kept.contains(x) {
                            let k = choose|k: int| 0 <= k < kept.len() && kept[k] == x;
                            if k < before.len() {
                                assert(before[k] == x);
                            }
                        }
                        if before.contains(x) {
                            let k = choose|k: int| 0 <= k < before.len() && before[k] == x;
                            assert(kept[k] == x);
                        }
                        if x == current {
                            assert(kept[before.len() as int] == x);
                        }
                    }
                }
            }
        }
        i += 1;
    }
    proof {
        assert(sorted.take(i as int) =~= sorted);
        lemma_same_multiset_same_set(sorted, views(old(card_instance_hashes)@));
        lemma_distinct_sorted_unique(kept, views(old(card_instance_hashes)@));
    }
    let digest = sha256_digest(joined.as_str().as_bytes());
    proof {
        lemma_hex_lower_len(digest@);
    }
    to_hex_lower(&digest)
}

/// The strings of the first `i + 1` places are those of the first `i`
/// places and the string at place `i`.
proof fn lemma_take_one_more(strings: Seq<Seq<char>>, i: int)
    requires
        0 <= i < strings.len(),
    ensures
        strings.take(i + 1).to_set() == strings.take(i).to_set().insert(strings[i]),
{
    let more = strings.take(i + 1);
    let fewer = strings.take(i);
    assert forall|x: Seq<char>| more.to_set().contains(x) == fewer.to_set().insert(
        strings[i],
    ).contains(x) by {
        if more.contains(x) {
            let k = choose|k: int| 0 <= k < more.len() && more[k] == x;
            if k < i {
                assert(fewer[k] == x);
            }
        }
        if fewer.contains(x) {
            let k = choose|k: int| 0 <= k < fewer.len() && fewer[k] == x;
            assert(more[k] == x);
        }
        if x == strings[i] {
            assert(more[i] == x);
        }
    }
    assert(more.to_set() =~= fewer.to_set().insert(strings[i]));
}

/// In a sorted sequence, the string at place `i` that differs from the one
/// before it extends the distinct strings of the places before `i`: with
/// it at their end they are still in ascending order and hold no string
/// twice.
proof fn lemma_push_keeps_distinct_sorted(sorted: Seq<Seq<char>>, i: int, kept: Seq<Seq<char>>)
    requires
        0 <= i < sorted.len(),
        total_ordering(str_order()),
        sorted_by(sorted, str_order()),
        sorted_by(kept, str_order()),
        kept.no_duplicates(),
        kept.to_set() == sorted.take(i).to_set(),
        i > 0 ==> sorted[i - 1] != sorted[i],
    ensures
        sorted_by(kept.push(sorted[i]), str_order()),
        kept.push(sorted[i]).no_duplicates(),
        join_comma(kept.push(sorted[i])) == if kept.len() == 0 {
            sorted[i]
        } else {
            join_comma(kept).push(',') + sorted[i]
        },
{
    let r = str_order();
    let current = sorted[i];
    let more = kept.push(current);
    assert(more.drop_last() =~= kept);
    assert forall|j: int| 0 <= j < kept.len() implies r(kept[j], current) && kept[j]
        != current by {
        assert(kept.to_set().contains(kept[j]));
        assert(sorted.take(i).contains(kept[j]));
        let m = choose|m: int| 0 <= m < sorted.take(i).len() && sorted.take(i)[m] == kept[j];
        assert(sorted[m] == kept[j]);
        assert(r(sorted[m], sorted[i]));
        if kept[j] == current {
            if m < i - 1 {
                assert(r(sorted[m], sorted[i - 1]));
            }
            assert(r(sorted[i - 1], sorted[i]));
        }
    }
    assert forall|p: int, q: int| 0 <= p < q < more.len() implies #[trigger] r(
        more[p],
        more[q],
    ) by {
        if q < kept.len() {
            assert(r(kept[p], kept[q]));
        }
    }
}

/// Where two texts of the form `head-tail` are equal and neither head holds
/// a `-`, the heads are equal and the tails are equal.
proof fn lemma_split_at_first_dash(a1: Seq<u8>, b1: Seq<u8>, a2: Seq<u8>, b2: Seq<u8>)
    requires
        a1 + seq![45u8] + b1 == a2 + seq![45u8] + b2,
        forall|i: int| 0 <= i < a1.len() ==> a1[i] != 45,
        forall|i: int| 0 <= i < a2.len() ==> a2[i] != 45,
    ensures
        a1 == a2,
        b1 == b2,
{
    let s1 = a1 + seq![45u8] + b1;
    let s2 = a2 + seq![45u8] + b2;
    assert(s1[a1.len() as int] == 45);
    assert(s2[a2.len() as int] == 45);
    if a1.len() < a2.len() {
        assert(s2[a1.len() as int] == a2[a1.len() as int]);
    }
    if a2.len() < a1.len() {
        assert(s1[a2.len() as int] == a1[a2.len() as int]);
    }
    assert(s1.len() == s2.len());
    assert forall|i: int| 0 <= i < a1.len() implies a1[i] == a2[i] by {
        assert(s1[i] == a1[i] && s2[i] == a2[i]);
    }
    assert(a1 =~= a2);
    assert forall|i: int| 0 <= i < b1.len() implies b1[i] == b2[i] by {
        assert(s1[a1.len() + 1 + i] == b1[i]);
        assert(s2[a2.len() + 1 + i] == b2[i]);
    }
    assert(b1 =~= b2);
}

/// Two card variants have the same canonical text exactly when they agree
/// in card type, level and tier.
pub proof fn lemma_variant_text_injective(
    id1: u32,
    level1: u8,
    tier1: u8,
    id2: u32,
    level2: u8,
    tier2: u8,
)
    ensures
        variant_text(id1, level1, tier1) == variant_text(id2, level2, tier2) <==> id1 == id2
            && level1 == level2 && tier1 == tier2,
{
    if variant_text(id1, level1, tier1) == variant_text(id2, level2, tier2) {
        let (a1, b1, c1) = (decimal(id1 as nat), decimal(level1 as nat), decimal(tier1 as nat));
        let (a2, b2, c2) = (decimal(id2 as nat), decimal(level2 as nat), decimal(tier2 as nat));
        lemma_decimal_digits(id1 as nat);
        lemma_decimal_digits(id2 as nat);
        lemma_decimal_digits(level1 as nat);
        lemma_decimal_digits(level2 as nat);
        let r1 = b1 + seq![45u8] + c1;
        let r2 = b2 + seq![45u8] + c2;
        assert(variant_text(id1, level1, tier1) =~= a1 + seq![45u8] + r1);
        assert(variant_text(id2, level2, tier2) =~= a2 + seq![45u8] + r2);
        lemma_split_at_first_dash(a1, r1, a2, r2);
        lemma_split_at_first_dash(b1, c1, b2, c2);
        lemma_decimal_injective(id1 as nat, id2 as nat);
        lemma_decimal_injective(level1 as nat, level2 as nat);
        lemma_decimal_injective(tier1 as nat, tier2 as nat);
    }
}

/// Whether two cards are the same variant: the same card type, level and
/// evolution tier, an absent tier counting as 0.
pub open spec fn same_variant(a: CardView, b: CardView) -> bool {
    a.id == b.id && a.level == b.level && a.tier() == b.tier()
}

/// The canonical text of a card's variant.
pub open spec fn card_text(card: CardView) -> Seq<u8> {
    variant_text(card.id, card.level, card.tier())
}

/// The hash of a card, by its view.
pub open spec fn card_hash(card: CardView) -> Seq<char> {
    variant_hash(card.id, card.level, card.tier())
}

/// Identity of card variants. The same variant always has the same hash.
/// Two cards have the same canonical text exactly when they are the same
/// variant, and the same hash exactly when SHA-256 gives their texts the
/// same digest. So two cards have the same hash exactly when they are the
/// same variant, unless SHA-256 maps their two different texts to one
/// digest.
pub proof fn law_variant_hash_identity(a: CardView, b: CardView)
    ensures
        same_variant(a, b) ==> card_hash(a) == card_hash(b),
        same_variant(a, b) <==> card_text(a) == card_text(b),
        card_hash(a) == card_hash(b) <==> sha256(card_text(a)) == sha256(card_text(b)),
        (sha256(card_text(a)) == sha256(card_text(b)) ==> card_text(a) == card_text(b)) ==> (
        card_hash(a) == card_hash(b) <==> same_variant(a, b)),
{
    lemma_variant_text_injective(a.id, a.level, a.tier(), b.id, b.level, b.tier());
    if card_hash(a) == card_hash(b) {
        lemma_hex_lower_injective(sha256(card_text(a)), sha256(card_text(b)));
    }
}

/// Order independence: two arrangements of the same variant hashes, each
/// occurring as often in one as in the other, give the same deck hash.
pub proof fn law_deck_hash_order_independent(a: Seq<Seq<char>>, b: Seq<Seq<char>>)
    requires
        a.to_multiset() == b.to_multiset(),
    ensures
        sorted_strings(a) == sorted_strings(b),
        deck_hash(a) == deck_hash(b),
{
    lemma_same_multiset_same_set(a, b);
    lemma_str_order_total();
    a.lemma_sort_by_ensures(str_order());
    lemma_sorted_strings_unique(sorted_strings(a), b);
}

/// A deck is a set: two lists that hold the same variant hashes give the
/// same deck hash, in whatever order and however often each hash occurs.
/// What is hashed holds each of the hashes, once, in ascending order.
pub proof fn law_deck_hash_of_a_set(a: Seq<Seq<char>>, b: Seq<Seq<char>>)
    requires
        a.to_set() == b.to_set(),
    ensures
        distinct_sorted(a) == distinct_sorted(b),
        deck_hash(a) == deck_hash(b),
        distinct_sorted(a).to_set() == a.to_set(),
        distinct_sorted(a).no_duplicates(),
        sorted_by(distinct_sorted(a), str_order()),
{
    lemma_distinct_sorted_ensures(a);
}

} // verus!
