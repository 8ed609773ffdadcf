//! The registry of names: how it is listed and how it is rebuilt from a listing.

use std::collections::BTreeMap;

use vstd::prelude::*;

use super::columnar;

verus! {

/// The names of a registry as texts.
pub open spec fn name_texts<K>(names: Map<K, String>) -> Map<K, Seq<char>> {
    names.map_values(|name: String| name@)
}

/// A registry after names have been entered one by one, each in place of the one
/// that its key had.
pub open spec fn entered<K>(
    registry: Map<K, Seq<char>>,
    keys: Seq<K>,
    names: Seq<Seq<char>>,
) -> Map<K, Seq<char>>
    decreases keys.len(),
{
    if keys.len() == 0 {
        registry
    } else {
        entered(registry, keys.drop_last(), names.drop_last()).insert(keys.last(), names.last())
    }
}

/// Whether keys and names list a registry: every key once, with its name.
pub open spec fn lists<K>(
    registry: Map<K, Seq<char>>,
    keys: Seq<K>,
    names: Seq<Seq<char>>,
) -> bool {
    &&& keys.no_duplicates()
    &&& keys.to_set() == registry.dom()
    &&& names.len() == keys.len()
    &&& forall|i: int| 0 <= i < keys.len() ==> #[trigger] names[i] == registry[keys[i]]
}

/// Whether keys are in ascending order of a rank.
pub open spec fn ascends<K>(keys: Seq<K>, rank: spec_fn(K) -> int) -> bool {
    forall|i: int, j: int|
        0 <= i < j < keys.len() ==> rank(#[trigger] keys[i]) < rank(#[trigger] keys[j])
}

/// The keys of a registry in ascending order of a rank.
pub open spec fn ordered_keys<K>(registry: Map<K, Seq<char>>, rank: spec_fn(K) -> int) -> Seq<K> {
    choose|keys: Seq<K>| #[trigger] ascends(keys, rank) && keys.to_set() == registry.dom()
}

/// The names of keys in a registry.
pub open spec fn names_of<K>(registry: Map<K, Seq<char>>, keys: Seq<K>) -> Seq<Seq<char>> {
    Seq::new(keys.len(), |i: int| registry[keys[i]])
}

/// Keys with different ranks can be put in ascending order in one way.
pub(crate) proof fn lemma_order_is_unique<K>(a: Seq<K>, b: Seq<K>, rank: spec_fn(K) -> int)
    requires
        ascends(a, rank),
        ascends(b, rank),
        a.to_set() == b.to_set(),
    ensures
        a == b,
    decreases a.len(),
{
    if a.len() == 0 {
        if b.len() > 0 {
            assert(b.to_set().contains(b[0]));
        }
        assert(a =~= b);
    } else {
        let x = a.last();
        assert(a[a.len() - 1] == x);
        assert(a.to_set().contains(x));
        let i = choose|i: int| 0 <= i < b.len() && b[i] == x;
        let y = b.last();
        assert(b[b.len() - 1] == y);
        assert(b.to_set().contains(y));
        let j = choose|j: int| 0 <= j < a.len() && a[j] == y;
        if i < b.len() - 1 {
            assert(rank(b[i]) < rank(b[b.len() - 1]));
        }
        if j < a.len() - 1 {
            assert(rank(a[j]) < rank(a[a.len() - 1]));
        }
        assert(x == y);
        let rest_a = a.drop_last();
        let rest_b = b.drop_last();
        assert forall|key: K| rest_a.to_set().contains(key) <==> rest_b.to_set().contains(key) by {
            if rest_a.contains(key) {
                let m = choose|m: int| 0 <= m < rest_a.len() && rest_a[m] == key;
                assert(rank(a[m]) < rank(a[a.len() - 1]));
                assert(a.to_set().contains(a[m]));
                let n = choose|n: int| 0 <= n < b.len() && b[n] == key;
                assert(rest_b[n] == key);
            }
            if rest_b.contains(key) {
                let m = choose|m: int| 0 <= m < rest_b.len() && rest_b[m] == key;
                assert(rank(b[m]) < rank(b[b.len() - 1]));
                assert(b.to_set().contains(b[m]));
                let n = choose|n: int| 0 <= n < a.len() && a[n] == key;
                assert(rest_a[n] == key);
            }
        }
        assert(rest_a.to_set() =~= rest_b.to_set());
        lemma_order_is_unique(rest_a, rest_b, rank);
        assert(a =~= rest_a.push(x));
        assert(b =~= rest_b.push(y));
    }
}

/// A listing in ascending order is the listing by ordered keys.
pub(crate) proof fn lemma_listing_is_ordered<K>(
    registry: Map<K, Seq<char>>,
    keys: Seq<K>,
    names: Seq<Seq<char>>,
    rank: spec_fn(K) -> int,
)
    requires
        lists(registry, keys, names),
        ascends(keys, rank),
    ensures
        keys == ordered_keys(registry, rank),
        names == names_of(registry, keys),
{
    lemma_order_is_unique(keys, ordered_keys(registry, rank), rank);
    assert(names =~= names_of(registry, keys));
}

/// Entering the first entries and then the others is entering all.
pub(crate) proof fn lemma_entered_in_parts<K>(
    registry: Map<K, Seq<char>>,
    keys: Seq<K>,
    names: Seq<Seq<char>>,
    n: int,
)
    requires
        0 <= n <= keys.len() == names.len(),
    ensures
        entered(entered(registry, keys.take(n), names.take(n)), keys.skip(n), names.skip(n))
            == entered(registry, keys, names),
    decreases keys.len() - n,
{
    if n == keys.len() {
        assert(keys.take(n) =~= keys);
        assert(names.take(n) =~= names);
    } else {
        let m = keys.len() - 1;
        lemma_entered_in_parts(registry, keys.drop_last(), names.drop_last(), n);
        assert(keys.drop_last().take(n) =~= keys.take(n));
        assert(names.drop_last().take(n) =~= names.take(n));
        assert(keys.drop_last().skip(n) =~= keys.skip(n).drop_last());
        assert(names.drop_last().skip(n) =~= names.skip(n).drop_last());
        assert(keys.skip(n).last() == keys.last());
        assert(names.skip(n).last() == names.last());
    }
}

/// What entering different keys into an empty registry makes of it.
pub(crate) proof fn lemma_entered_different<K>(keys: Seq<K>, names: Seq<Seq<char>>)
    requires
        keys.no_duplicates(),
        keys.len() == names.len(),
    ensures
        forall|key: K| #[trigger]
            entered(Map::<K, Seq<char>>::empty(), keys, names).contains_key(key) <==> keys.contains(
                key,
            ),
        forall|i: int|
            0 <= i < keys.len() ==> entered(
                Map::<K, Seq<char>>::empty(),
                keys,
                names,
            )[#[trigger] keys[i]] == names[i],
    decreases keys.len(),
{
    if keys.len() > 0 {
        let rest = keys.drop_last();
        let empty = Map::<K, Seq<char>>::empty();
        lemma_entered_different(rest, names.drop_last());
        assert forall|key: K| #[trigger]
            entered(empty, keys, names).contains_key(key) <==> keys.contains(key) by {
            assert(entered(empty, rest, names.drop_last()).contains_key(key) <==> rest.contains(
                key,
            ));
            if rest.contains(key) {
                let i = choose|i: int| 0 <= i < rest.len() && rest[i] == key;
                assert(keys[i] == key);
            }
            if keys.contains(key) && key != keys.last() {
                let i = choose|i: int| 0 <= i < keys.len() && keys[i] == key;
                assert(rest[i] == key);
            }
            assert(keys[keys.len() - 1] == keys.last());
        }
        assert forall|i: int| 0 <= i < keys.len() implies entered(
            empty,
            keys,
            names,
        )[#[trigger] keys[i]] == names[i] by {
            if i < rest.len() {
                assert(rest[i] == keys[i]);
                assert(keys[i] != keys[keys.len() - 1]);
            }
        }
    }
}

/// A registry is what entering its listing into an empty one gives.
pub proof fn law_listing_gives_the_registry<K>(
    registry: Map<K, Seq<char>>,
    keys: Seq<K>,
    names: Seq<Seq<char>>,
)
    requires
        lists(registry, keys, names),
    ensures
        entered(Map::<K, Seq<char>>::empty(), keys, names) == registry,
{
    let res = entered(Map::<K, Seq<char>>::empty(), keys, names);
    lemma_entered_different(keys, names);
    assert forall|key: K| res.contains_key(key) <==> registry.contains_key(key) by {
        assert(keys.contains(key) <==> keys.to_set().contains(key));
        assert(registry.contains_key(key) <==> registry.dom().contains(key));
    }
    assert forall|key: K| #[trigger] registry.contains_key(key) implies res[key]
        == registry[key] by {
        assert(res.contains_key(key));
        let i = choose|i: int| 0 <= i < keys.len() && keys[i] == key;
        assert(res[keys[i]] == names[i]);
    }
    assert(res =~= registry);
}

/// Tells whether texts fit into one column.
pub(crate) fn fits_text_column(names: &Vec<&str>) -> (res: bool)
    ensures
        res == (columnar::text_size(columnar::str_texts(names@)) <= i32::MAX),
{
    let ghost texts = columnar::str_texts(names@);
    let limit: usize = 0x7FFF_FFFF;
    let mut total: usize = 0;
    let mut n: usize = 0;
    while n < names.len()
        invariant
            n <= names@.len(),
            limit == i32::MAX,
            texts == columnar::str_texts(names@),
            total <= limit,
            total == columnar::text_size(texts.take(n as int)),
        decreases names@.len() - n,
    {
        let size = names[n].as_bytes().len();
        assert(texts.take(n + 1).drop_last() =~= texts.take(n as int));
        if size > limit - total {
            proof {
                lemma_text_size_grows(texts, n + 1);
            }
            return false;
        }
        total += size;
        n += 1;
    }
    assert(texts.take(n as int) =~= texts);
    true
}

/// All texts take at least the bytes that the first ones take.
pub(crate) proof fn lemma_text_size_grows(texts: Seq<Seq<char>>, n: int)
    requires
        0 <= n <= texts.len(),
    ensures
        columnar::text_size(texts.take(n)) <= columnar::text_size(texts),
    decreases texts.len() - n,
{
    if n < texts.len() {
        lemma_text_size_grows(texts, n + 1);
        assert(texts.take(n + 1).drop_last() =~= texts.take(n));
    } else {
        assert(texts.take(n) =~= texts);
    }
}

/// The entries of a map, taken apart, list it.
pub(crate) proof fn lemma_lists_entries<K>(
    registry: BTreeMap<K, String>,
    entries: Seq<(&K, &String)>,
    keys: Seq<K>,
    names: Seq<Seq<char>>,
)
    requires
        keys.no_duplicates(),
        keys.len() == entries.len(),
        names.len() == entries.len(),
        forall|i: int| 0 <= i < entries.len() ==> #[trigger] keys[i] == *entries[i].0,
        forall|i: int| 0 <= i < entries.len() ==> #[trigger] names[i] == entries[i].1@,
        forall|i: int|
            0 <= i < entries.len() ==> registry@.contains_key(*(#[trigger] entries[i]).0)
                && registry@[*entries[i].0] == *entries[i].1,
        forall|key: K| #[trigger]
            registry@.contains_key(key) ==> entries.contains((&key, &registry@[key])),
    ensures
        lists(name_texts(registry@), keys, names),
{
    let texts = name_texts(registry@);
    assert forall|key: K| keys.to_set().contains(key) <==> texts.dom().contains(key) by {
        if registry@.contains_key(key) {
            let i = choose|i: int|
                0 <= i < entries.len() && entries[i] == (&key, &registry@[key]);
            assert(keys[i] == key);
        }
        if keys.contains(key) {
            let i = choose|i: int| 0 <= i < keys.len() && keys[i] == key;
            assert(registry@.contains_key(*entries[i].0));
        }
    }
    assert(keys.to_set() =~= texts.dom());
    assert forall|i: int| 0 <= i < keys.len() implies #[trigger] names[i] == texts[keys[i]] by {
        assert(registry@.contains_key(*entries[i].0));
    }
}

/// Entering names, a key has the last name that was entered for it, and the one that it
/// had before where none was.
pub proof fn law_the_last_name_stays<K>(
    registry: Map<K, Seq<char>>,
    keys: Seq<K>,
    names: Seq<Seq<char>>,
    key: K,
)
    requires
        keys.len() == names.len(),
    ensures
        forall|i: int|
            0 <= i < keys.len() && #[trigger] keys[i] == key && (forall|j: int|
                i < j < keys.len() ==> #[trigger] keys[j] != key) ==> entered(
                registry,
                keys,
                names,
            ).contains_key(key) && entered(registry, keys, names)[key] == names[i],
        !keys.contains(key) ==> entered(registry, keys, names).contains_key(key)
            == registry.contains_key(key) && entered(registry, keys, names)[key] == registry[key],
    decreases keys.len(),
{
    if keys.len() > 0 {
        let rest = keys.drop_last();
        law_the_last_name_stays(registry, rest, names.drop_last(), key);
        let last = keys.len() - 1;
        assert(keys[last] == keys.last());
        assert forall|i: int|
            0 <= i < keys.len() && #[trigger] keys[i] == key && (forall|j: int|
                i < j < keys.len() ==> #[trigger] keys[j] != key) implies entered(
            registry,
            keys,
            names,
        ).contains_key(key) && entered(registry, keys, names)[key] == names[i] by {
            if i < last {
                assert(keys[last] != key);
                assert(rest[i] == key);
                assert forall|j: int| i < j < rest.len() implies #[trigger] rest[j] != key by {
                    assert(keys[j] != key);
                }
            }
        }
        if !keys.contains(key) {
            assert forall|i: int| 0 <= i < rest.len() implies rest[i] != key by {
                assert(keys[i] != key);
            }
        }
    }
}

/// The names of a registry as texts are those of its keys, each the text of its name.
pub proof fn law_name_texts<K>(names: Map<K, String>, key: K)
    ensures
        name_texts(names).contains_key(key) == names.contains_key(key),
        names.contains_key(key) ==> name_texts(names)[key] == names[key]@,
{
}

} // verus!
