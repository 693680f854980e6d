//! Dictionaries: byte-string keys, each with one value.

use vstd::prelude::*;
use vstd::set_lib::lemma_subset_equality;
use vstd::std_specs::cmp::PartialEqSpecImpl;
use crate::bytes::{
    bytes_eq, bytes_lt, is_ascending_listing, lemma_lex_lt_total, lemma_lex_lt_transitive,
    lemma_sorted_keys_unique, lex_lt, sorted_keys, strictly_ascending,
};
use crate::value::{lemma_view_representable, view_of, Bencoded, Value};

verus! {

/// A dictionary: byte-string keys, each with one value.
///
/// The entries are kept in the order in which their keys first came. That
/// order means nothing: two dictionaries are equal where they hold the same
/// keys with the same values, and the encoder puts the entries in order
/// itself. Looking a key up, and storing under one, walks the entries.
#[derive(Debug)]
pub struct Dictionary {
    entries: Vec<(Vec<u8>, Bencoded)>,
}

/// The map that pairs `keys[i]` with `values[i]`.
spec fn assoc_map(keys: Seq<Seq<u8>>, values: Seq<Value>) -> Map<Seq<u8>, Value> {
    Map::new(|k: Seq<u8>| keys.contains(k), |k: Seq<u8>| values[keys.index_of(k)])
}

spec fn entry_keys(entries: Seq<(Vec<u8>, Bencoded)>) -> Seq<Seq<u8>> {
    Seq::new(entries.len(), |i: int| entries[i].0@)
}

spec fn entry_values(entries: Seq<(Vec<u8>, Bencoded)>) -> Seq<Value>
    decreases entries, 0int,
{
    Seq::new(
        entries.len(),
        |i: int|
            if 0 <= i < entries.len() {
                view_of(entries[i].1)
            } else {
                arbitrary()
            },
    )
}

impl View for Dictionary {
    type V = Map<Seq<u8>, Value>;

    closed spec fn view(&self) -> Map<Seq<u8>, Value>
        decreases self, 0int,
    {
        assoc_map(entry_keys(self.entries@), entry_values(self.entries@))
    }
}

/// The keys at the positions that `order` names, in that order.
spec fn keys_in_order(keys: Seq<Seq<u8>>, order: Seq<usize>) -> Seq<Seq<u8>> {
    Seq::new(order.len(), |t: int| keys[order[t] as int])
}

proof fn lemma_assoc_map_at(keys: Seq<Seq<u8>>, values: Seq<Value>, i: int)
    requires
        keys.no_duplicates(),
        0 <= i < keys.len(),
    ensures
        assoc_map(keys, values).dom().contains(keys[i]),
        assoc_map(keys, values)[keys[i]] == values[i],
{
    assert(keys.contains(keys[i]));
}

proof fn lemma_assoc_map_push(keys: Seq<Seq<u8>>, values: Seq<Value>, k: Seq<u8>, v: Value)
    requires
        keys.no_duplicates(),
        keys.len() == values.len(),
        !keys.contains(k),
    ensures
        assoc_map(keys.push(k), values.push(v)) == assoc_map(keys, values).insert(k, v),
        keys.push(k).no_duplicates(),
{
    let keys2 = keys.push(k);
    let values2 = values.push(v);
    assert(keys2.no_duplicates()) by {
        assert forall|i: int, j: int|
            0 <= i < keys2.len() && 0 <= j < keys2.len() && i != j implies keys2[i] != keys2[j] by {
            if i < keys.len() && j < keys.len() {
            } else if i < keys.len() {
                assert(keys.contains(keys[i]));
            } else {
                assert(keys.contains(keys[j]));
            }
        }
    }
    let before = assoc_map(keys, values);
    let after = assoc_map(keys2, values2);
    assert forall|x: Seq<u8>| after.dom().contains(x) <==> before.insert(k, v).dom().contains(
        x,
    ) by {
        if keys2.contains(x) {
            let i = choose|i: int| 0 <= i < keys2.len() && keys2[i] == x;
            if i < keys.len() {
                assert(keys.contains(x));
            }
        }
        if keys.contains(x) {
            let i = choose|i: int| 0 <= i < keys.len() && keys[i] == x;
            assert(keys2[i] == x);
        }
        if x == k {
            assert(keys2[keys.len() as int] == x);
        }
    }
    assert forall|x: Seq<u8>| after.dom().contains(x) implies after[x] == before.insert(k, v)[x] by {
        let i = keys2.index_of(x);
        lemma_assoc_map_at(keys2, values2, i);
        if i < keys.len() {
            lemma_assoc_map_at(keys, values, i);
        }
    }
    assert(after =~= before.insert(k, v));
}

proof fn lemma_assoc_map_update(keys: Seq<Seq<u8>>, values: Seq<Value>, i: int, v: Value)
    requires
        keys.no_duplicates(),
        keys.len() == values.len(),
        0 <= i < keys.len(),
    ensures
        assoc_map(keys, values.update(i, v)) == assoc_map(keys, values).insert(keys[i], v),
{
    let values2 = values.update(i, v);
    let before = assoc_map(keys, values);
    let after = assoc_map(keys, values2);
    assert(keys.contains(keys[i]));
    assert forall|x: Seq<u8>| after.dom().contains(x) implies after[x] == before.insert(
        keys[i],
        v,
    )[x] by {
        let j = keys.index_of(x);
        lemma_assoc_map_at(keys, values2, j);
        lemma_assoc_map_at(keys, values, j);
    }
    assert(after =~= before.insert(keys[i], v));
}

impl Dictionary {
    #[verifier::type_invariant]
    spec fn keys_distinct(&self) -> bool {
        entry_keys(self.entries@).no_duplicates()
    }

    /// The keys, in the order in which the entries are kept.
    spec fn keys(&self) -> Seq<Seq<u8>> {
        entry_keys(self.entries@)
    }

    /// Whatever a dictionary holds, the map that it stands for is finite
    /// and its values are representable.
    pub proof fn lemma_view_representable(self)
        ensures
            Value::Dict(self@).representable(),
        decreases self,
    {
        let keys = entry_keys(self.entries@);
        let values = entry_values(self.entries@);
        vstd::seq_lib::seq_to_set_is_finite(keys);
        assert(self@.dom() =~= keys.to_set());
        assert forall|k: Seq<u8>| self@.dom().contains(k) implies (
        #[trigger] self@[k]).representable() by {
            let i = keys.index_of(k);
            lemma_view_representable(self.entries@[i].1);
        }
    }

    /// The empty dictionary.
    pub fn new() -> (d: Dictionary)
        ensures
            d@ == Map::<Seq<u8>, Value>::empty(),
    {
        let d = Dictionary { entries: Vec::new() };
        assert(d@ =~= Map::<Seq<u8>, Value>::empty());
        d
    }

    /// The number of entries.
    pub fn len(&self) -> (n: usize)
        ensures
            self@.dom().finite(),
            n == self@.dom().len(),
    {
        proof {
            use_type_invariant(self);
            self.lemma_dom();
        }
        self.entries.len()
    }

    proof fn lemma_dom(&self)
        requires
            self.keys().no_duplicates(),
        ensures
            self@.dom() == self.keys().to_set(),
            self@.dom().finite(),
            self@.dom().len() == self.keys().len(),
    {
        assert(self@.dom() =~= self.keys().to_set());
        self.keys().unique_seq_to_set();
        vstd::seq_lib::seq_to_set_is_finite(self.keys());
    }

    /// The position of `key` among the entries, if it has one.
    fn position(&self, key: &[u8]) -> (r: Option<usize>)
        ensures
            match r {
                Some(i) => i < self.keys().len() && self.keys()[i as int] == key@,
                None => !self.keys().contains(key@),
            },
    {
        let mut i: usize = 0;
        while i < self.entries.len()
            invariant
                i <= self.entries.len(),
                forall|j: int| 0 <= j < i ==> self.entries[j].0@ != key@,
            decreases self.entries.len() - i,
        {
            if bytes_eq(self.entries[i].0.as_slice(), key) {
                return Some(i);
            }
            i += 1;
        }
        None
    }

    /// The value stored under `key`, if there is one.
    pub fn get(&self, key: &[u8]) -> (r: Option<&Bencoded>)
        ensures
            match r {
                Some(v) => self@.dom().contains(key@) && v@ == self@[key@],
                None => !self@.dom().contains(key@),
            },
    {
        match self.position(key) {
            Some(i) => {
                proof {
                    use_type_invariant(self);
                    lemma_assoc_map_at(self.keys(), entry_values(self.entries@), i as int);
                }
                Some(&self.entries[i].1)
            },
            None => None,
        }
    }

    /// Stores `value` under `key`. Where the key had a value, the new one
    /// takes its place and the old one is returned.
    pub fn insert(&mut self, key: Vec<u8>, value: Bencoded) -> (previous: Option<Bencoded>)
        ensures
            final(self)@ == old(self)@.insert(key@, value@),
            match previous {
                Some(v) => old(self)@.dom().contains(key@) && v@ == old(self)@[key@],
                None => !old(self)@.dom().contains(key@),
            },
    {
        proof {
            use_type_invariant(&*self);
        }
        let ghost keys = self.keys();
        let ghost values = entry_values(self.entries@);
        let found = self.position(key.as_slice());
        let mut entries: Vec<(Vec<u8>, Bencoded)> = Vec::new();
        core::mem::swap(&mut self.entries, &mut entries);
        let previous = match found {
            Some(i) => {
                entries.push((key, value));
                let replaced = entries.swap_remove(i);
                proof {
                    lemma_assoc_map_at(keys, values, i as int);
                    lemma_assoc_map_update(keys, values, i as int, value@);
                    assert(entry_keys(entries@) =~= keys);
                    assert(entry_values(entries@) =~= values.update(i as int, value@));
                }
                Some(replaced.1)
            },
            None => {
                entries.push((key, value));
                proof {
                    lemma_assoc_map_push(keys, values, key@, value@);
                    assert(entry_keys(entries@) =~= keys.push(key@));
                    assert(entry_values(entries@) =~= values.push(value@));
                }
                None
            },
        };
        core::mem::swap(&mut self.entries, &mut entries);
        previous
    }

    /// Whether the two dictionaries hold the same keys with the same values.
    pub(crate) fn same(&self, other: &Dictionary) -> (r: bool)
        ensures
            r == (self@ == other@),
        decreases self,
    {
        proof {
            use_type_invariant(self);
            use_type_invariant(other);
            self.lemma_dom();
            other.lemma_dom();
        }
        if self.entries.len() != other.entries.len() {
            return false;
        }
        let mut i: usize = 0;
        while i < self.entries.len()
            invariant
                i <= self.entries.len(),
                self.keys().no_duplicates(),
                forall|j: int|
                    0 <= j < i ==> other@.dom().contains(#[trigger] self.keys()[j])
                        && other@[self.keys()[j]] == self@[self.keys()[j]],
            decreases self.entries.len() - i,
        {
            proof {
                lemma_assoc_map_at(self.keys(), entry_values(self.entries@), i as int);
                assert(decreases_to!(self => self.entries[i as int].1));
            }
            match other.get(self.entries[i].0.as_slice()) {
                Some(value) => {
                    if !self.entries[i].1.same(value) {
                        return false;
                    }
                },
                None => {
                    return false;
                },
            }
            i += 1;
        }
        proof {
            assert forall|k: Seq<u8>| self@.dom().contains(k) implies other@.dom().contains(k)
                && other@[k] == self@[k] by {
                let j = choose|j: int| 0 <= j < self.keys().len() && self.keys()[j] == k;
                assert(other@.dom().contains(self.keys()[j]));
            }
            lemma_subset_equality(self@.dom(), other@.dom());
            assert(self@ =~= other@);
        }
        true
    }

    /// The positions of the entries, in ascending order of their keys.
    fn ascending_positions(&self) -> (order: Vec<usize>)
        ensures
            order@.len() == self.keys().len(),
            forall|t: int| 0 <= t < order@.len() ==> order@[t] < self.keys().len(),
            is_ascending_listing(keys_in_order(self.keys(), order@), self.keys().to_set()),
    {
        let n = self.entries.len();
        let mut order: Vec<usize> = Vec::new();
        let mut i: usize = 0;
        while i < n
            invariant
                n == self.entries.len(),
                i <= n,
                order@.len() == i,
                forall|t: int| 0 <= t < order@.len() ==> order@[t] < i,
                strictly_ascending(keys_in_order(self.keys(), order@)),
                forall|p: usize| p < i ==> order@.contains(p),
            decreases n - i,
        {
            let ghost keys = self.keys();
            let ghost before = order@;
            let mut j: usize = order.len();
            while j > 0 && bytes_lt(
                self.entries[i].0.as_slice(),
                self.entries[order[j - 1]].0.as_slice(),
            )
                invariant
                    i < n,
                    n == self.entries.len(),
                    keys == self.keys(),
                    before == order@,
                    j <= order@.len(),
                    forall|t: int| 0 <= t < order@.len() ==> order@[t] < i,
                    forall|t: int|
                        j <= t < order@.len() ==> lex_lt(keys[i as int], keys[#[trigger] order@[t] as int]),
                decreases j,
            {
                j -= 1;
            }
            order.insert(j, i);
            proof {
                use_type_invariant(self);
                let ks0 = keys_in_order(keys, before);
                let ks1 = keys_in_order(keys, order@);
                let k = keys[i as int];
                assert forall|t: int| 0 <= t < j implies lex_lt(ks0[t], k) by {
                    let last = before[j - 1] as int;
                    assert(keys[last] != k);
                    lemma_lex_lt_total(keys[last], k);
                    if t < j - 1 {
                        assert(lex_lt(ks0[t], ks0[j - 1]));
                        lemma_lex_lt_transitive(ks0[t], keys[last], k);
                    }
                }
                assert forall|a: int, b: int| 0 <= a < b < ks1.len() implies lex_lt(
                    #[trigger] ks1[a],
                    #[trigger] ks1[b],
                ) by {
                    if b < j {
                        assert(lex_lt(ks0[a], ks0[b]));
                    } else if b == j {
                        assert(lex_lt(ks0[a], k));
                    } else if a < j {
                        assert(lex_lt(ks0[a], ks0[b - 1]));
                    } else if a == j {
                        assert(lex_lt(k, keys[before[b - 1] as int]));
                    } else {
                        assert(lex_lt(ks0[a - 1], ks0[b - 1]));
                    }
                }
                assert forall|p: usize| p < i + 1 implies order@.contains(p) by {
                    if p < i {
                        assert(before.contains(p));
                        let t = choose|t: int| 0 <= t < before.len() && before[t] == p;
                        if t < j {
                            assert(order@[t] == p);
                        } else {
                            assert(order@[t + 1] == p);
                        }
                    } else {
                        assert(order@[j as int] == p);
                    }
                }
            }
            i += 1;
        }
        proof {
            let keys = self.keys();
            let ks = keys_in_order(keys, order@);
            assert forall|k: Seq<u8>| keys.contains(k) implies ks.contains(k) by {
                let p = choose|p: int| 0 <= p < keys.len() && keys[p] == k;
                assert(order@.contains(p as usize));
                let t = choose|t: int| 0 <= t < order@.len() && order@[t] == p as usize;
                assert(ks[t] == k);
            }
            assert forall|k: Seq<u8>| ks.contains(k) implies keys.contains(k) by {
                let t = choose|t: int| 0 <= t < ks.len() && ks[t] == k;
                assert(keys[order@[t] as int] == k);
            }
            assert(ks.to_set() =~= keys.to_set());
        }
        order
    }

    /// The entries in ascending order of their keys: the order in which the
    /// encoding of the dictionary holds them. Each value that comes back is
    /// a part of the dictionary, so that a function that calls itself on
    /// these values is known to end.
    pub fn sorted_entries(&self) -> (sorted: Vec<(&[u8], &Bencoded)>)
        ensures
            self@.dom().finite(),
            sorted@.len() == sorted_keys(self@.dom()).len(),
            forall|t: int|
                0 <= t < sorted@.len() ==> (#[trigger] sorted@[t]).0@ == sorted_keys(self@.dom())[t],
            forall|t: int|
                0 <= t < sorted@.len() ==> self@.dom().contains(sorted@[t].0@) && (
                #[trigger] sorted@[t]).1@ == self@[sorted@[t].0@],
            forall|t: int| 0 <= t < sorted@.len() ==> decreases_to!(self => (#[trigger] sorted@[t]).1),
    {
        let order = self.ascending_positions();
        let ghost keys = self.keys();
        let ghost listing = keys_in_order(keys, order@);
        proof {
            use_type_invariant(self);
            self.lemma_dom();
            lemma_sorted_keys_unique(listing, self@.dom());
        }
        let mut sorted: Vec<(&[u8], &Bencoded)> = Vec::new();
        let mut t: usize = 0;
        while t < order.len()
            invariant
                t <= order@.len(),
                sorted@.len() == t,
                keys == self.keys(),
                keys.len() == self.entries@.len(),
                listing == keys_in_order(keys, order@),
                forall|u: int| 0 <= u < order@.len() ==> order@[u] < keys.len(),
                forall|u: int| 0 <= u < t ==> (#[trigger] sorted@[u]).0@ == listing[u],
                forall|u: int|
                    0 <= u < t ==> self@.dom().contains(sorted@[u].0@) && (#[trigger] sorted@[u]).1@
                        == self@[sorted@[u].0@],
                forall|u: int| 0 <= u < t ==> decreases_to!(self => (#[trigger] sorted@[u]).1),
            decreases order@.len() - t,
        {
            let p = order[t];
            proof {
                use_type_invariant(self);
                lemma_assoc_map_at(keys, entry_values(self.entries@), p as int);
            }
            sorted.push((self.entries[p].0.as_slice(), &self.entries[p].1));
            t += 1;
        }
        sorted
    }
}

impl PartialEq for Dictionary {
    fn eq(&self, other: &Dictionary) -> (r: bool) {
        self.same(other)
    }
}

impl PartialEqSpecImpl for Dictionary {
    open spec fn obeys_eq_spec() -> bool {
        true
    }

    open spec fn eq_spec(&self, other: &Dictionary) -> bool {
        self@ == other@
    }
}

impl Eq for Dictionary {

}

} // verus!
