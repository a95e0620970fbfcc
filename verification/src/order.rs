//! The order of strings by their UTF-8 bytes, and sorting by it.

use vstd::prelude::*;
use vstd::relations::{sorted_by, total_ordering};
use vstd::seq_lib::{
    lemma_sorted_unique, seq_to_set_is_finite, to_multiset_contains, to_multiset_insert,
    to_multiset_len, to_multiset_remove,
};
use vstd::utf8::{encode_utf8, encode_utf8_decode_utf8};

verus! {

/// Lexicographic "less than or equal" on byte strings: the first differing
/// byte decides, and a proper prefix comes first.
pub open spec fn bytes_le(a: Seq<u8>, b: Seq<u8>) -> bool
    decreases a.len(),
{
    if a.len() == 0 {
        true
    } else if b.len() == 0 {
        false
    } else if a[0] != b[0] {
        a[0] < b[0]
    } else {
        bytes_le(a.drop_first(), b.drop_first())
    }
}

/// The order of Rust strings: lexicographic by UTF-8 bytes.
pub open spec fn str_le(a: Seq<char>, b: Seq<char>) -> bool {
    bytes_le(encode_utf8(a), encode_utf8(b))
}

/// [`str_le`] as a relation value.
pub open spec fn str_order() -> spec_fn(Seq<char>, Seq<char>) -> bool {
    |a: Seq<char>, b: Seq<char>| str_le(a, b)
}

/// The contents of each string of a sequence.
pub open spec fn views(strings: Seq<String>) -> Seq<Seq<char>> {
    strings.map_values(|s: String| s@)
}

/// Every byte string comes before or equals itself.
pub proof fn lemma_bytes_le_reflexive(a: Seq<u8>)
    ensures
        bytes_le(a, a),
    decreases a.len(),
{
    if a.len() > 0 {
        lemma_bytes_le_reflexive(a.drop_first());
    }
}

/// Of two byte strings one comes before or equals the other.
pub proof fn lemma_bytes_le_connected(a: Seq<u8>, b: Seq<u8>)
    ensures
        bytes_le(a, b) || bytes_le(b, a),
    decreases a.len(),
{
    if a.len() > 0 && b.len() > 0 && a[0] == b[0] {
        lemma_bytes_le_connected(a.drop_first(), b.drop_first());
    }
}

/// Two byte strings of which each comes before or equals the other are
/// equal.
pub proof fn lemma_bytes_le_antisymmetric(a: Seq<u8>, b: Seq<u8>)
    requires
        bytes_le(a, b),
        bytes_le(b, a),
    ensures
        a == b,
    decreases a.len(),
{
    if a.len() > 0 {
        lemma_bytes_le_antisymmetric(a.drop_first(), b.drop_first());
        assert(a =~= seq![a[0]] + a.drop_first());
        assert(b =~= seq![b[0]] + b.drop_first());
    } else {
        assert(a =~= b);
    }
}

/// The order of byte strings is transitive.
pub proof fn lemma_bytes_le_transitive(a: Seq<u8>, b: Seq<u8>, c: Seq<u8>)
    requires
        bytes_le(a, b),
        bytes_le(b, c),
    ensures
        bytes_le(a, c),
    decreases a.len(),
{
    if a.len() > 0 && a[0] == b[0] && b[0] == c[0] {
        lemma_bytes_le_transitive(a.drop_first(), b.drop_first(), c.drop_first());
    }
}

/// The string order is a total order: reflexive, antisymmetric, transitive,
/// and any two strings are comparable.
pub proof fn lemma_str_order_total()
    ensures
        total_ordering(str_order()),
{
    let r = str_order();
    assert forall|x: Seq<char>| #[trigger] r(x, x) by {
        lemma_bytes_le_reflexive(encode_utf8(x));
    }
    assert forall|x: Seq<char>, y: Seq<char>| #[trigger] r(x, y) && #[trigger] r(y, x) implies x
        == y by {
        lemma_bytes_le_antisymmetric(encode_utf8(x), encode_utf8(y));
        encode_utf8_decode_utf8(x);
        encode_utf8_decode_utf8(y);
    }
    assert forall|x: Seq<char>, y: Seq<char>, z: Seq<char>| #[trigger]
        r(x, y) && #[trigger] r(y, z) implies r(x, z) by {
        lemma_bytes_le_transitive(encode_utf8(x), encode_utf8(y), encode_utf8(z));
    }
    assert forall|x: Seq<char>, y: Seq<char>| #[trigger] r(x, y) || #[trigger] r(y, x) by {
        lemma_bytes_le_connected(encode_utf8(x), encode_utf8(y));
    }
}

/// Whether `a` comes before `b`, or equals it, in the order of strings.
pub fn string_le(a: &str, b: &str) -> (le: bool)
    ensures
        le == str_le(a@, b@),
{
    let x = a.as_bytes();
    let y = b.as_bytes();
    let mut i: usize = 0;
    proof {
        assert(x@.skip(0) =~= x@);
        assert(y@.skip(0) =~= y@);
    }
    while i < x.len() && i < y.len()
        invariant
            x@ == encode_utf8(a@),
            y@ == encode_utf8(b@),
            i <= x@.len(),
            i <= y@.len(),
            bytes_le(x@, y@) == bytes_le(x@.skip(i as int), y@.skip(i as int)),
        decreases x@.len() - i,
    {
        proof {
            assert(x@.skip(i as int)[0] == x@[i as int]);
            assert(y@.skip(i as int)[0] == y@[i as int]);
        }
        if x[i] != y[i] {
            return x[i] < y[i];
        }
        proof {
            assert(x@.skip(i as int).drop_first() =~= x@.skip(i + 1));
            assert(y@.skip(i as int).drop_first() =~= y@.skip(i + 1));
        }
        i += 1;
    }
    i == x.len()
}

/// Whether two strings hold the same characters.
pub fn string_eq(a: &str, b: &str) -> (eq: bool)
    ensures
        eq == (a@ == b@),
{
    let x = a.as_bytes();
    let y = b.as_bytes();
    proof {
        encode_utf8_decode_utf8(a@);
        encode_utf8_decode_utf8(b@);
    }
    if x.len() != y.len() {
        return false;
    }
    let mut i: usize = 0;
    while i < x.len()
        invariant
            x@ == encode_utf8(a@),
            y@ == encode_utf8(b@),
            x@.len() == y@.len(),
            i <= x@.len(),
            forall|k: int| 0 <= k < i ==> x@[k] == y@[k],
        decreases x@.len() - i,
    {
        if x[i] != y[i] {
            return false;
        }
        i += 1;
    }
    proof {
        assert(x@ =~= y@);
    }
    true
}

/// The strings in ascending order: the one arrangement of the same strings,
/// each as often as it occurs, in which none comes before an earlier one.
pub open spec fn sorted_strings(strings: Seq<Seq<char>>) -> Seq<Seq<char>> {
    strings.sort_by(str_order())
}

/// A sequence that is in ascending order and holds the same strings, each
/// as often, is the sorted arrangement.
pub proof fn lemma_sorted_strings_unique(sorted: Seq<Seq<char>>, strings: Seq<Seq<char>>)
    requires
        sorted_by(sorted, str_order()),
        sorted.to_multiset() == strings.to_multiset(),
    ensures
        sorted == sorted_strings(strings),
{
    lemma_str_order_total();
    strings.lemma_sort_by_ensures(str_order());
    lemma_sorted_unique(sorted, sorted_strings(strings), str_order());
}

/// Sorts the strings into ascending order, in place.
pub fn sort_strings(strings: &mut Vec<String>)
    ensures
        views(final(strings)@) == sorted_strings(views(old(strings)@)),
        sorted_by(views(final(strings)@), str_order()),
        views(final(strings)@).to_multiset() == views(old(strings)@).to_multiset(),
        final(strings)@.len() == old(strings)@.len(),
{
    let mut i: usize = 0;
    while i < strings.len()
        invariant
            i <= strings.len(),
            views(strings@).to_multiset() == views(old(strings)@).to_multiset(),
            sorted_by(views(strings@).take(i as int), str_order()),
        decreases strings.len() - i,
    {
        let ghost before = views(strings@);
        let item = strings.remove(i);
        let ghost rest = views(strings@);
        proof {
            assert(rest =~= before.remove(i as int));
            to_multiset_remove(before, i as int);
            assert(rest.take(i as int) =~= before.take(i as int));
        }
        let mut j: usize = i;
        while j > 0 && !string_le(strings[j - 1].as_str(), item.as_str())
            invariant
                j <= i,
                i <= strings.len(),
                views(strings@) == rest,
                forall|k: int| j <= k < i ==> str_le(item@, #[trigger] rest[k]),
            decreases j,
        {
            proof {
                assert(rest[j - 1] == strings@[j - 1]@);
                lemma_bytes_le_connected(encode_utf8(rest[j - 1]), encode_utf8(item@));
            }
            j -= 1;
        }
        proof {
            if j > 0 {
                assert(rest[j - 1] == strings@[j - 1]@);
            }
        }
        strings.insert(j, item);
        proof {
            let after = views(strings@);
            assert(after =~= rest.insert(j as int, item@));
            to_multiset_insert(rest, j as int, item@);
            assert(before[i as int] == item@);
            assert(after.to_multiset() =~= before.to_multiset()) by {
                broadcast use vstd::multiset::group_multiset_axioms;

                assert(before.contains(item@));
                to_multiset_contains(before, item@);
            }
            let head = after.take(i + 1);
            let r = str_order();
            assert forall|p: int, q: int| 0 <= p < q < head.len() implies #[trigger] r(
                head[p],
                head[q],
            ) by {
                let old_head = before.take(i as int);
                if q < j {
                    assert(head[p] == old_head[p] && head[q] == old_head[q]);
                    assert(r(old_head[p], old_head[q]));
                } else if q == j {
                    assert(head[p] == old_head[p]);
                    assert(head[q] == item@);
                    assert(str_le(rest[j - 1], item@));
                    if p < j - 1 {
                        assert(r(old_head[p], old_head[j - 1]));
                        lemma_bytes_le_transitive(
                            encode_utf8(head[p]),
                            encode_utf8(rest[j - 1]),
                            encode_utf8(item@),
                        );
                    }
                } else if p < j {
                    assert(head[p] == old_head[p] && head[q] == old_head[q - 1]);
                    if p < q - 1 {
                        assert(r(old_head[p], old_head[q - 1]));
                    } else {
                        assert(str_le(rest[j - 1], item@));
                        assert(str_le(item@, rest[j as int]));
                        lemma_bytes_le_transitive(
                            encode_utf8(head[p]),
                            encode_utf8(item@),
                            encode_utf8(head[q]),
                        );
                    }
                } else if p == j {
                    assert(head[q] == rest[q - 1]);
                } else {
                    assert(head[p] == old_head[p - 1] && head[q] == old_head[q - 1]);
                    assert(r(old_head[p - 1], old_head[q - 1]));
                }
            }
        }
        i += 1;
    }
    proof {
        assert(views(strings@).take(i as int) =~= views(strings@));
        lemma_sorted_strings_unique(views(strings@), views(old(strings)@));
        to_multiset_len(views(strings@));
        to_multiset_len(views(old(strings)@));
    }
}

/// The distinct strings in ascending order: each string that occurs, once.
pub open spec fn distinct_sorted(strings: Seq<Seq<char>>) -> Seq<Seq<char>> {
    sorted_strings(strings.to_set().to_seq())
}

/// A finite set laid out as a sequence holds no element twice.
proof fn lemma_to_seq_no_duplicates(set: Set<Seq<char>>)
    requires
        set.finite(),
    ensures
        set.to_seq().no_duplicates(),
    decreases set.len(),
{
    broadcast use vstd::set::group_set_axioms;
    broadcast use vstd::set_lib::lemma_set_empty_equivalency_len;

    if set.len() > 0 {
        let x = set.choose();
        let rest = set.remove(x).to_seq();
        lemma_to_seq_no_duplicates(set.remove(x));
        set.remove(x).lemma_to_seq_to_set_id();
        assert forall|i: int| 0 <= i < rest.len() implies rest[i] != x by {
            assert(rest.to_set().contains(rest[i]));
        }
        assert(set.to_seq() =~= seq![x] + rest);
    }
}

/// Two sequences without repetitions that hold the same strings hold each
/// as often.
proof fn lemma_same_set_same_multiset(a: Seq<Seq<char>>, b: Seq<Seq<char>>)
    requires
        a.no_duplicates(),
        b.no_duplicates(),
        a.to_set() == b.to_set(),
    ensures
        a.to_multiset() == b.to_multiset(),
{
    broadcast use vstd::multiset::group_multiset_axioms;

    a.lemma_multiset_has_no_duplicates();
    b.lemma_multiset_has_no_duplicates();
    assert forall|x: Seq<char>| a.to_multiset().count(x) == b.to_multiset().count(x) by {
        to_multiset_contains(a, x);
        to_multiset_contains(b, x);
        assert(a.to_set().contains(x) == a.contains(x));
        assert(b.to_set().contains(x) == b.contains(x));
    }
    assert(a.to_multiset() =~= b.to_multiset());
}

/// Two sequences that hold each string as often hold the same strings.
pub proof fn lemma_same_multiset_same_set(a: Seq<Seq<char>>, b: Seq<Seq<char>>)
    requires
        a.to_multiset() == b.to_multiset(),
    ensures
        a.to_set() == b.to_set(),
{
    assert forall|x: Seq<char>| a.to_set().contains(x) == b.to_set().contains(x) by {
        to_multiset_contains(a, x);
        to_multiset_contains(b, x);
    }
    assert(a.to_set() =~= b.to_set());
}

/// The distinct strings in ascending order are in ascending order, hold no
/// string twice, and hold the strings that occur.
pub proof fn lemma_distinct_sorted_ensures(strings: Seq<Seq<char>>)
    ensures
        sorted_by(distinct_sorted(strings), str_order()),
        distinct_sorted(strings).no_duplicates(),
        distinct_sorted(strings).to_set() == strings.to_set(),
{
    let laid_out = strings.to_set().to_seq();
    seq_to_set_is_finite(strings);
    lemma_str_order_total();
    lemma_to_seq_no_duplicates(strings.to_set());
    strings.to_set().lemma_to_seq_to_set_id();
    laid_out.lemma_sort_by_ensures(str_order());
    lemma_same_multiset_same_set(distinct_sorted(strings), laid_out);
    laid_out.lemma_multiset_has_no_duplicates();
    distinct_sorted(strings).lemma_multiset_has_no_duplicates_conv();
}

/// A sequence that is in ascending order, holds no string twice and holds
/// the strings that occur is the distinct strings in ascending order.
pub proof fn lemma_distinct_sorted_unique(sorted: Seq<Seq<char>>, strings: Seq<Seq<char>>)
    requires
        sorted_by(sorted, str_order()),
        sorted.no_duplicates(),
        sorted.to_set() == strings.to_set(),
    ensures
        sorted == distinct_sorted(strings),
{
    let laid_out = strings.to_set().to_seq();
    seq_to_set_is_finite(strings);
    lemma_to_seq_no_duplicates(strings.to_set());
    strings.to_set().lemma_to_seq_to_set_id();
    lemma_same_set_same_multiset(sorted, laid_out);
    lemma_sorted_strings_unique(sorted, laid_out);
}

} // verus!
