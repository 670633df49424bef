use vstd::prelude::*;
use vstd::relations::sorted_by;
use vstd::relations::total_ordering;
use vstd::string::*;
use vstd::utf8::encode_utf8;

verus! {

/// Whether `a` comes no later than `b` in the lexicographic order of bytes.
pub open spec fn bytes_in_order(a: Seq<u8>, b: Seq<u8>) -> bool
    decreases a.len(),
{
    if a.len() == 0 {
        true
    } else if b.len() == 0 {
        false
    } else {
        a[0] < b[0] || a[0] == b[0] && bytes_in_order(a.drop_first(), b.drop_first())
    }
}

/// The order of texts: that of their bytes.
pub open spec fn text_order() -> spec_fn(Seq<char>, Seq<char>) -> bool {
    |a: Seq<char>, b: Seq<char>| bytes_in_order(encode_utf8(a), encode_utf8(b))
}

/// The texts of names.
pub open spec fn texts(names: Seq<String>) -> Seq<Seq<char>> {
    names.map_values(|name: String| name@)
}

/// Names in lexicographic order.
pub open spec fn sorted_names(names: Seq<Seq<char>>) -> Seq<Seq<char>> {
    names.sort_by(text_order())
}

proof fn lemma_bytes_reflexive(a: Seq<u8>)
    ensures
        bytes_in_order(a, a),
    decreases a.len(),
{
    if a.len() > 0 {
        lemma_bytes_reflexive(a.drop_first());
    }
}

proof fn lemma_bytes_antisymmetric(a: Seq<u8>, b: Seq<u8>)
    requires
        bytes_in_order(a, b),
        bytes_in_order(b, a),
    ensures
        a == b,
    decreases a.len(),
{
    if a.len() == 0 || b.len() == 0 {
        assert(a =~= b);
    } else {
        lemma_bytes_antisymmetric(a.drop_first(), b.drop_first());
        assert(a =~= seq![a[0]] + a.drop_first());
        assert(b =~= seq![b[0]] + b.drop_first());
    }
}

proof fn lemma_bytes_transitive(a: Seq<u8>, b: Seq<u8>, c: Seq<u8>)
    requires
        bytes_in_order(a, b),
        bytes_in_order(b, c),
    ensures
        bytes_in_order(a, c),
    decreases a.len(),
{
    if a.len() > 0 && b.len() > 0 && c.len() > 0 && a[0] == b[0] && b[0] == c[0] {
        lemma_bytes_transitive(a.drop_first(), b.drop_first(), c.drop_first());
    }
}

proof fn lemma_bytes_total(a: Seq<u8>, b: Seq<u8>)
    ensures
        bytes_in_order(a, b) || bytes_in_order(b, a),
    decreases a.len(),
{
    if a.len() > 0 && b.len() > 0 && a[0] == b[0] {
        lemma_bytes_total(a.drop_first(), b.drop_first());
    }
}

/// The order of texts is total.
pub proof fn lemma_text_order_total()
    ensures
        total_ordering(text_order()),
{
    let order = text_order();
    assert forall|a: Seq<char>| #[trigger] order(a, a) by {
        lemma_bytes_reflexive(encode_utf8(a));
    }
    assert forall|a: Seq<char>, b: Seq<char>| #[trigger] order(a, b) && #[trigger] order(
        b,
        a,
    ) implies a == b by {
        lemma_bytes_antisymmetric(encode_utf8(a), encode_utf8(b));
        vstd::utf8::encode_utf8_decode_utf8(a);
        vstd::utf8::encode_utf8_decode_utf8(b);
    }
    assert forall|a: Seq<char>, b: Seq<char>, c: Seq<char>| #[trigger] order(a, b)
        && #[trigger] order(b, c) implies order(a, c) by {
        lemma_bytes_transitive(encode_utf8(a), encode_utf8(b), encode_utf8(c));
    }
    assert forall|a: Seq<char>, b: Seq<char>| #[trigger] order(a, b) || #[trigger] order(b, a) by {
        lemma_bytes_total(encode_utf8(a), encode_utf8(b));
    }
}

/// Names in lexicographic order do not depend on the order in which they were listed.
pub proof fn law_sorted_names_do_not_depend_on_listing(
    first: Seq<Seq<char>>,
    second: Seq<Seq<char>>,
)
    requires
        first.to_multiset() == second.to_multiset(),
    ensures
        sorted_names(first) == sorted_names(second),
{
    lemma_text_order_total();
    first.lemma_sort_by_ensures(text_order());
    second.lemma_sort_by_ensures(text_order());
    vstd::seq_lib::lemma_sorted_unique(sorted_names(first), sorted_names(second), text_order());
}

/// Sorting keeps the names: each is there as often as before.
pub proof fn law_sorting_keeps_names(names: Seq<Seq<char>>)
    ensures
        sorted_names(names).to_multiset() == names.to_multiset(),
        sorted_names(names).len() == names.len(),
        sorted_by(sorted_names(names), text_order()),
        names.no_duplicates() ==> sorted_names(names).no_duplicates(),
        forall|name: Seq<char>| #[trigger]
            sorted_names(names).contains(name) <==> names.contains(name),
{
    broadcast use vstd::seq_lib::group_to_multiset_ensures;

    lemma_text_order_total();
    names.lemma_sort_by_ensures(text_order());
    let sorted = sorted_names(names);
    assert(sorted.to_multiset().len() == sorted.len());
    assert(names.to_multiset().len() == names.len());
    assert forall|name: Seq<char>| #[trigger] sorted.contains(name) <==> names.contains(name) by {
        assert(sorted.contains(name) <==> sorted.to_multiset().count(name) > 0);
        assert(names.contains(name) <==> names.to_multiset().count(name) > 0);
    }
    if names.no_duplicates() {
        names.lemma_multiset_has_no_duplicates();
        sorted.lemma_multiset_has_no_duplicates_conv();
    }
}

/// Compares byte strings.
fn bytes_le(a: &[u8], b: &[u8]) -> (yes: bool)
    ensures
        yes == bytes_in_order(a@, b@),
{
    let mut k: usize = 0;
    assert(a@.skip(0) =~= a@);
    assert(b@.skip(0) =~= b@);
    while k < a.len() && k < b.len()
        invariant
            k <= a@.len(),
            k <= b@.len(),
            bytes_in_order(a@, b@) == bytes_in_order(a@.skip(k as int), b@.skip(k as int)),
        decreases a@.len() - k,
    {
        assert(a@.skip(k as int).drop_first() =~= a@.skip(k + 1));
        assert(b@.skip(k as int).drop_first() =~= b@.skip(k + 1));
        if a[k] != b[k] {
            return a[k] < b[k];
        }
        k = k + 1;
    }
    k >= a.len()
}

/// Sorts parameter names lexicographically.
///
/// The names of a search space come in no fixed order. Sorting them fixes the order in which
/// random numbers are drawn for them.
pub fn sorted_parameter_names(names: &Vec<String>) -> (sorted: Vec<String>)
    ensures
        texts(sorted@) == sorted_names(texts(names@)),
{
    broadcast use vstd::seq_lib::group_to_multiset_ensures;

    let ghost order = text_order();
    proof {
        lemma_text_order_total();
    }
    let mut sorted: Vec<String> = Vec::new();
    assert(texts(sorted@) =~= texts(names@).take(0));
    for p in 0..names.len()
        invariant
            order == text_order(),
            total_ordering(order),
            sorted@.len() == p,
            texts(sorted@).to_multiset() == texts(names@).take(p as int).to_multiset(),
            forall|i: int, j: int|
                0 <= i < j < p ==> order(#[trigger] texts(sorted@)[i], #[trigger] texts(sorted@)[j]),
    {
        broadcast use vstd::seq_lib::group_to_multiset_ensures;

        let ghost name = names@[p as int]@;
        let ghost before = texts(sorted@);
        let mut slot: usize = p;
        while slot > 0 && !bytes_le(sorted[slot - 1].as_str().as_bytes(), names[p].as_str().as_bytes())
            invariant
                p < names@.len(),
                name == names@[p as int]@,
                order == text_order(),
                total_ordering(order),
                before == texts(sorted@),
                sorted@.len() == p,
                slot <= p,
                forall|i: int| slot <= i < p ==> order(name, #[trigger] before[i]),
            decreases slot,
        {
            proof {
                assert(!order(before[slot - 1], name));
                assert(order(name, before[slot - 1]));
            }
            slot = slot - 1;
        }
        proof {
            if slot > 0 {
                assert(order(before[slot - 1], name));
                assert forall|i: int| 0 <= i < slot implies order(#[trigger] before[i], name) by {
                    if i < slot - 1 {
                        assert(order(before[i], before[slot - 1]));
                    }
                }
            }
        }
        sorted.insert(slot, names[p].clone());
        proof {
            let after = texts(sorted@);
            let listed = texts(names@);
            assert(after =~= before.insert(slot as int, name));
            assert(listed.take(p + 1) =~= listed.take(p as int).push(name));
            assert(after.to_multiset() =~= before.to_multiset().insert(name));
            assert(listed.take(p + 1).to_multiset() =~= listed.take(p as int).to_multiset().insert(
                name,
            ));
            assert forall|i: int, j: int| 0 <= i < j < p + 1 implies order(
                #[trigger] after[i],
                #[trigger] after[j],
            ) by {
                let a = if i < slot {
                    i
                } else {
                    i - 1
                };
                let b = if j < slot {
                    j
                } else {
                    j - 1
                };
                if i == slot {
                    assert(after[j] == before[b]);
                } else if j == slot {
                    assert(after[i] == before[a]);
                } else {
                    assert(after[i] == before[a] && after[j] == before[b]);
                    assert(order(before[a], before[b]));
                }
            }
        }
    }
    proof {
        let listed = texts(names@);
        assert(listed.take(listed.len() as int) =~= listed);
        listed.lemma_sort_by_ensures(order);
        vstd::seq_lib::lemma_sorted_unique(texts(sorted@), sorted_names(listed), order);
    }
    sorted
}

/// Names are sorted by their bytes: of two names the one that comes first has the smaller byte
/// where their bytes first differ, or is the beginning of the other.
pub proof fn law_names_are_sorted_by_their_bytes(names: Seq<Seq<char>>, i: int, j: int, at: int)
    requires
        0 <= i < j < names.len(),
        0 <= at,
        at <= encode_utf8(sorted_names(names)[i]).len(),
        at <= encode_utf8(sorted_names(names)[j]).len(),
        encode_utf8(sorted_names(names)[i]).take(at) == encode_utf8(sorted_names(names)[j]).take(
            at,
        ),
    ensures
        ({
            let earlier = encode_utf8(sorted_names(names)[i]);
            let later = encode_utf8(sorted_names(names)[j]);
            at == later.len() ==> at == earlier.len()
        }),
        ({
            let earlier = encode_utf8(sorted_names(names)[i]);
            let later = encode_utf8(sorted_names(names)[j]);
            at < earlier.len() && at < later.len() ==> earlier[at] <= later[at]
        }),
        sorted_names(names).len() == names.len(),
        sorted_names(names).to_multiset() == names.to_multiset(),
{
    law_sorting_keeps_names(names);
    let order = text_order();
    let sorted = sorted_names(names);
    assert(order(sorted[i], sorted[j]));
    lemma_bytes_after_common(encode_utf8(sorted[i]), encode_utf8(sorted[j]), at);
}

proof fn lemma_bytes_after_common(a: Seq<u8>, b: Seq<u8>, at: int)
    requires
        bytes_in_order(a, b),
        0 <= at <= a.len(),
        at <= b.len(),
        a.take(at) == b.take(at),
    ensures
        at == b.len() ==> at == a.len(),
        at < a.len() && at < b.len() ==> a[at] <= b[at],
    decreases at,
{
    if at > 0 {
        assert(a[0] == a.take(at)[0]);
        assert(b[0] == b.take(at)[0]);
        assert(a.drop_first().take(at - 1) =~= a.take(at).drop_first());
        assert(b.drop_first().take(at - 1) =~= b.take(at).drop_first());
        lemma_bytes_after_common(a.drop_first(), b.drop_first(), at - 1);
    }
}

/// The texts of names are those of the names, in their order.
pub proof fn law_names_are_read_one_by_one(names: Seq<String>)
    ensures
        texts(names).len() == names.len(),
        forall|k: int| 0 <= k < names.len() ==> #[trigger] texts(names)[k] == names[k]@,
{
}

} // verus!
