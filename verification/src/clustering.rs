//! Decks as rows of a card-presence matrix, for clustering.

use crate::order::views;
use std::collections::HashMap;
use vstd::hash_map::StringHashMap;
use vstd::prelude::*;

verus! {

broadcast use vstd::std_specs::hash::group_hash_axioms;

/// The column of each card type: the place of the card type in `card_ids`,
/// the last one where it stands there more than once.
pub open spec fn vocabulary(card_ids: Seq<u32>) -> Map<u32, usize>
    decreases card_ids.len(),
{
    if card_ids.len() == 0 {
        Map::empty()
    } else {
        vocabulary(card_ids.drop_last()).insert(card_ids.last(), (card_ids.len() - 1) as usize)
    }
}

/// Whether the deck has a card with this column.
pub open spec fn marks(vocab: Map<u32, usize>, cards: Seq<u32>, column: int) -> bool {
    exists|k: int|
        0 <= k < cards.len() && vocab.contains_key(#[trigger] cards[k]) && vocab[cards[k]] == column
}

/// Whether `row` is the presence row of the deck: one entry for each
/// column, true exactly where the deck has a card with that column.
pub open spec fn encodes(vocab: Map<u32, usize>, cards: Seq<u32>, row: Seq<bool>) -> bool {
    &&& row.len() == vocab.len()
    &&& forall|j: int| 0 <= j < row.len() ==> (#[trigger] row[j] <==> marks(vocab, cards, j))
}

/// Whether every card of the deck that has a column has one inside a row
/// of `width` entries.
pub open spec fn fits(vocab: Map<u32, usize>, cards: Seq<u32>, width: nat) -> bool {
    forall|k: int|
        0 <= k < cards.len() && vocab.contains_key(#[trigger] cards[k]) ==> vocab[cards[k]] < width
}

/// What a list of loaded decks holds: the hash and the card types of each.
pub open spec fn deck_list(decks: Seq<(String, Vec<u32>)>) -> Seq<(Seq<char>, Seq<u32>)> {
    decks.map_values(|d: (String, Vec<u32>)| (d.0@, d.1@))
}

/// What a matrix holds.
pub open spec fn matrix_rows(matrix: Seq<Vec<bool>>) -> Seq<Seq<bool>> {
    matrix.map_values(|r: Vec<bool>| r@)
}

fn build_vocabulary(card_ids: &Vec<u32>) -> (vocab: HashMap<u32, usize>)
    ensures
        vocab@ == vocabulary(card_ids@),
{
    let mut vocab: HashMap<u32, usize> = HashMap::new();
    let mut i: usize = 0;
    while i < card_ids.len()
        invariant
            i <= card_ids@.len(),
            vocab@ == vocabulary(card_ids@.take(i as int)),
        decreases card_ids@.len() - i,
    {
        proof {
            let next = card_ids@.take(i + 1);
            assert(next.drop_last() =~= card_ids@.take(i as int));
        }
        vocab.insert(card_ids[i], i);
        i += 1;
    }
    proof {
        assert(card_ids@.take(i as int) =~= card_ids@);
    }
    vocab
}

fn encode_deck(vocab: &HashMap<u32, usize>, width: usize, cards: &Vec<u32>) -> (row: Option<
    Vec<bool>,
>)
    requires
        width == vocab@.len(),
    ensures
        row is Some <==> fits(vocab@, cards@, width as nat),
        row matches Some(r) ==> encodes(vocab@, cards@, r@),
{
    let mut row: Vec<bool> = Vec::new();
    let mut j: usize = 0;
    while j < width
        invariant
            j <= width,
            row@.len() == j,
            forall|c: int| 0 <= c < j ==> !(#[trigger] row@[c]),
        decreases width - j,
    {
        row.push(false);
        j += 1;
    }
    let mut k: usize = 0;
    while k < cards.len()
        invariant
            k <= cards@.len(),
            row@.len() == width,
            fits(vocab@, cards@.take(k as int), width as nat),
            forall|c: int|
                0 <= c < width ==> (#[trigger] row@[c] <==> marks(
                    vocab@,
                    cards@.take(k as int),
                    c,
                )),
        decreases cards@.len() - k,
    {
        let ghost done = cards@.take(k as int);
        let ghost next = cards@.take(k + 1);
        let ghost before = row@;
        proof {
            assert(next[k as int] == cards@[k as int]);
            assert forall|i: int| 0 <= i < k implies #[trigger] next[i] == done[i] by {}
        }
        match vocab.get(&cards[k]) {
            Some(column) => {
                let column: usize = *column;
                if column >= width {
                    proof {
                        assert(vocab@.contains_key(cards@[k as int]));
                    }
                    return None;
                }
                row.set(column, true);
                proof {
                    assert forall|c: int| 0 <= c < width implies (#[trigger] row@[c] <==> marks(
                        vocab@,
                        next,
                        c,
                    )) by {
                        if marks(vocab@, next, c) {
                            let w = choose|w: int|
                                0 <= w < next.len() && vocab@.contains_key(#[trigger] next[w])
                                    && vocab@[next[w]] == c;
                            if w < k {
                                assert(done[w] == next[w]);
                            }
                        }
                        if before[c] {
                            let w = choose|w: int|
                                0 <= w < done.len() && vocab@.contains_key(#[trigger] done[w])
                                    && vocab@[done[w]] == c;
                            assert(next[w] == done[w]);
                        }
                        if c == column {
                            assert(vocab@[next[k as int]] == c);
                        }
                    }
                }
            },
            None => {
                proof {
                    assert forall|c: int| 0 <= c < width implies (#[trigger] row@[c] <==> marks(
                        vocab@,
                        next,
                        c,
                    )) by {
                        if marks(vocab@, next, c) {
                            let w = choose|w: int|
                                0 <= w < next.len() && vocab@.contains_key(#[trigger] next[w])
                                    && vocab@[next[w]] == c;
                            assert(w < k);
                            assert(done[w] == next[w]);
                        }
                        if before[c] {
                            let w = choose|w: int|
                                0 <= w < done.len() && vocab@.contains_key(#[trigger] done[w])
                                    && vocab@[done[w]] == c;
                            assert(next[w] == done[w]);
                        }
                    }
                }
            },
        }
        proof {
            assert forall|i: int|
                0 <= i < next.len() && vocab@.contains_key(#[trigger] next[i]) implies vocab@[next[
                i]] < width by {
                if i < k {
                    assert(done[i] == next[i]);
                }
            }
        }
        k += 1;
    }
    proof {
        assert(cards@.take(k as int) =~= cards@);
    }
    Some(row)
}

/// Whether every card of every deck that has a column has one inside the
/// matrix. It does where no card type stands in `card_ids` twice.
pub open spec fn all_fit(decks: Seq<(Seq<char>, Seq<u32>)>, card_ids: Seq<u32>) -> bool {
    vocabulary(card_ids).len() == 0 || forall|d: int|
        0 <= d < decks.len() ==> fits(
            vocabulary(card_ids),
            (#[trigger] decks[d]).1,
            vocabulary(card_ids).len(),
        )
}

fn deck_fits(vocab: &HashMap<u32, usize>, width: usize, cards: &Vec<u32>) -> (ok: bool)
    ensures
        ok == fits(vocab@, cards@, width as nat),
{
    let mut k: usize = 0;
    while k < cards.len()
        invariant
            k <= cards@.len(),
            forall|i: int|
                0 <= i < k && vocab@.contains_key(#[trigger] cards@[i]) ==> vocab@[cards@[i]]
                    < width,
        decreases cards@.len() - k,
    {
        match vocab.get(&cards[k]) {
            Some(column) => {
                if *column >= width {
                    proof {
                        assert(vocab@.contains_key(cards@[k as int]));
                    }
                    return false;
                }
            },
            None => {},
        }
        k += 1;
    }
    true
}

/// Whether the presence matrix of the decks can be made: whether every
/// card's column lies inside it.
pub fn decks_fit(loaded_decks: &Vec<(String, Vec<u32>)>, card_ids: &Vec<u32>) -> (ok: bool)
    ensures
        ok == all_fit(deck_list(loaded_decks@), card_ids@),
{
    let vocab = build_vocabulary(card_ids);
    let width = vocab.len();
    if width == 0 {
        return true;
    }
    let ghost decks = deck_list(loaded_decks@);
    let mut i: usize = 0;
    while i < loaded_decks.len()
        invariant
            i <= loaded_decks@.len(),
            decks == deck_list(loaded_decks@),
            vocab@ == vocabulary(card_ids@),
            width == vocab@.len(),
            width > 0,
            forall|d: int| 0 <= d < i ==> fits(vocab@, (#[trigger] decks[d]).1, width as nat),
        decreases loaded_decks@.len() - i,
    {
        proof {
            assert(decks[i as int] == (loaded_decks@[i as int].0@, loaded_decks@[i as int].1@));
        }
        if !deck_fits(&vocab, width, &loaded_decks[i].1) {
            return false;
        }
        i += 1;
    }
    true
}

/// The presence matrix of the decks and their hashes, row for row. The
/// matrix has one column for each distinct card type of `card_ids`. With no
/// card type there is nothing to cluster: the matrix and the hashes are
/// empty. Every card's column must lie inside the matrix: [`decks_fit`]
/// tells whether that holds.
pub fn prepare_data_for_clustering(
    loaded_decks: &Vec<(String, Vec<u32>)>,
    card_ids: &Vec<u32>,
) -> (data: (Vec<Vec<bool>>, Vec<String>))
    requires
        all_fit(deck_list(loaded_decks@), card_ids@),
    ensures
        ({
            let vocab = vocabulary(card_ids@);
            let decks = deck_list(loaded_decks@);
            if vocab.len() == 0 {
                data.0@.len() == 0 && data.1@.len() == 0
            } else {
                &&& data.0@.len() == decks.len()
                &&& data.1@.len() == decks.len()
                &&& forall|d: int|
                    0 <= d < decks.len() ==> (#[trigger] views(data.1@)[d]) == decks[d].0
                &&& forall|d: int|
                    0 <= d < decks.len() ==> encodes(
                        vocab,
                        decks[d].1,
                        #[trigger] matrix_rows(data.0@)[d],
                    )
            }
        }),
{
    let vocab = build_vocabulary(card_ids);
    let width = vocab.len();
    let mut matrix: Vec<Vec<bool>> = Vec::new();
    let mut hashes: Vec<String> = Vec::new();
    if width == 0 {
        return (matrix, hashes);
    }
    let ghost decks = deck_list(loaded_decks@);
    let mut i: usize = 0;
    while i < loaded_decks.len()
        invariant
            i <= loaded_decks@.len(),
            decks == deck_list(loaded_decks@),
            vocab@ == vocabulary(card_ids@),
            width == vocab@.len(),
            all_fit(decks, card_ids@),
            width > 0,
            matrix@.len() == i,
            hashes@.len() == i,
            forall|d: int| 0 <= d < i ==> (#[trigger] views(hashes@)[d]) == decks[d].0,
            forall|d: int|
                0 <= d < i ==> encodes(vocab@, decks[d].1, #[trigger] matrix_rows(matrix@)[d]),
        decreases loaded_decks@.len() - i,
    {
        let deck = &loaded_decks[i];
        let ghost rows_before = matrix_rows(matrix@);
        let ghost hashes_before = views(hashes@);
        proof {
            assert(decks[i as int] == (deck.0@, deck.1@));
        }
        let row = encode_deck(&vocab, width, &deck.1).unwrap();
        matrix.push(row);
        hashes.push(deck.0.clone());
        proof {
            assert(matrix_rows(matrix@) =~= rows_before.push(row@));
            assert(views(hashes@) =~= hashes_before.push(deck.0@));
            assert forall|d: int| 0 <= d < i + 1 implies encodes(
                vocab@,
                decks[d].1,
                #[trigger] matrix_rows(matrix@)[d],
            ) by {
                if d < i {
                    assert(matrix_rows(matrix@)[d] == rows_before[d]);
                }
            }
            assert forall|d: int| 0 <= d < i + 1 implies (#[trigger] views(hashes@)[d])
                == decks[d].0 by {
                if d < i {
                    assert(views(hashes@)[d] == hashes_before[d]);
                }
            }
        }
        i += 1;
    }
    (matrix, hashes)
}

/// The cluster of each deck hash. Where a hash stands in the list twice,
/// its later cluster counts.
pub open spec fn cluster_map(deck_hashes: Seq<Seq<char>>, clusters: Seq<usize>) -> Map<
    Seq<char>,
    usize,
>
    decreases deck_hashes.len(),
{
    if deck_hashes.len() == 0 {
        Map::empty()
    } else {
        cluster_map(deck_hashes.drop_last(), clusters).insert(
            deck_hashes.last(),
            clusters[deck_hashes.len() - 1],
        )
    }
}

/// Pairs each deck hash with the cluster that was found for its row. There
/// must be a cluster for each hash.
pub fn cluster_decks(deck_hashes: &Vec<String>, clusters: &Vec<usize>) -> (assigned: StringHashMap<
    usize,
>)
    requires
        deck_hashes@.len() <= clusters@.len(),
    ensures
        assigned@ == cluster_map(views(deck_hashes@), clusters@),
{
    let ghost all = views(deck_hashes@);
    let mut assigned: StringHashMap<usize> = StringHashMap::new();
    let mut i: usize = 0;
    while i < deck_hashes.len()
        invariant
            i <= deck_hashes@.len(),
            deck_hashes@.len() <= clusters@.len(),
            all == views(deck_hashes@),
            assigned@ == cluster_map(all.take(i as int), clusters@),
        decreases deck_hashes@.len() - i,
    {
        proof {
            let next = all.take(i + 1);
            assert(next.drop_last() =~= all.take(i as int));
            assert(next.last() == deck_hashes@[i as int]@);
        }
        assigned.insert(deck_hashes[i].clone(), clusters[i]);
        i += 1;
    }
    proof {
        assert(all.take(i as int) =~= all);
    }
    assigned
}

} // verus!
