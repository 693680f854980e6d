//! Byte strings as the keys of a dictionary: equality and the lexicographic
//! order by byte value, with the facts that make it a strict total order.

use vstd::prelude::*;

verus! {

/// `a` comes strictly before `b`: at the first position where the two differ
/// `a` holds the smaller byte, or `a` ends there and `b` goes on.
pub open spec fn lex_lt(a: Seq<u8>, b: Seq<u8>) -> bool
    decreases a.len(),
{
    if b.len() == 0 {
        false
    } else if a.len() == 0 {
        true
    } else if a[0] != b[0] {
        a[0] < b[0]
    } else {
        lex_lt(a.drop_first(), b.drop_first())
    }
}

/// Each element of `keys` comes strictly before the next.
pub open spec fn strictly_ascending(keys: Seq<Seq<u8>>) -> bool {
    forall|i: int, j: int| 0 <= i < j < keys.len() ==> lex_lt(#[trigger] keys[i], #[trigger] keys[j])
}

/// No byte string comes before itself.
pub proof fn lemma_lex_lt_irreflexive(a: Seq<u8>)
    ensures
        !lex_lt(a, a),
    decreases a.len(),
{
    if a.len() > 0 {
        lemma_lex_lt_irreflexive(a.drop_first());
    }
}

/// The order is transitive.
pub proof fn lemma_lex_lt_transitive(a: Seq<u8>, b: Seq<u8>, c: Seq<u8>)
    requires
        lex_lt(a, b),
        lex_lt(b, c),
    ensures
        lex_lt(a, c),
    decreases a.len(),
{
    if a.len() > 0 && a[0] == b[0] && b[0] == c[0] {
        lemma_lex_lt_transitive(a.drop_first(), b.drop_first(), c.drop_first());
    }
}

/// Of two different byte strings one comes before the other.
pub proof fn lemma_lex_lt_total(a: Seq<u8>, b: Seq<u8>)
    ensures
        a == b || lex_lt(a, b) || lex_lt(b, a),
    decreases a.len(),
{
    if a.len() == 0 || b.len() == 0 {
        if a.len() == 0 && b.len() == 0 {
            assert(a =~= b);
        }
    } else if a[0] == b[0] {
        lemma_lex_lt_total(a.drop_first(), b.drop_first());
        if a.drop_first() == b.drop_first() {
            assert(a =~= seq![a[0]] + a.drop_first());
            assert(b =~= seq![b[0]] + b.drop_first());
        }
    }
}

/// Never both `a` before `b` and `b` before `a`.
pub proof fn lemma_lex_lt_asymmetric(a: Seq<u8>, b: Seq<u8>)
    requires
        lex_lt(a, b),
    ensures
        !lex_lt(b, a),
{
    if lex_lt(b, a) {
        lemma_lex_lt_transitive(a, b, a);
        lemma_lex_lt_irreflexive(a);
    }
}

/// `keys` lists the elements of `dom`, each once, in ascending order.
pub open spec fn is_ascending_listing(keys: Seq<Seq<u8>>, dom: Set<Seq<u8>>) -> bool {
    strictly_ascending(keys) && keys.to_set() == dom
}

/// The elements of a finite set of byte strings in ascending order.
pub open spec fn sorted_keys(dom: Set<Seq<u8>>) -> Seq<Seq<u8>> {
    choose|keys: Seq<Seq<u8>>| is_ascending_listing(keys, dom)
}

/// An ascending sequence holds no byte string twice.
pub proof fn lemma_ascending_no_duplicates(keys: Seq<Seq<u8>>)
    requires
        strictly_ascending(keys),
    ensures
        keys.no_duplicates(),
{
    assert forall|i: int, j: int| 0 <= i < keys.len() && 0 <= j < keys.len() && i != j implies keys[i]
        != keys[j] by {
        if i < j {
            assert(lex_lt(keys[i], keys[j]));
        } else {
            assert(lex_lt(keys[j], keys[i]));
        }
        lemma_lex_lt_irreflexive(keys[i]);
    }
}

/// Two ascending sequences with the same elements are the same sequence.
pub proof fn lemma_ascending_unique(a: Seq<Seq<u8>>, b: Seq<Seq<u8>>)
    requires
        strictly_ascending(a),
        strictly_ascending(b),
        a.to_set() == b.to_set(),
    ensures
        a == b,
    decreases a.len(),
{
    lemma_ascending_no_duplicates(a);
    lemma_ascending_no_duplicates(b);
    a.unique_seq_to_set();
    b.unique_seq_to_set();
    if a.len() == 0 {
        assert(a =~= b);
    } else {
        let x = a.last();
        let y = b.last();
        assert(x == y) by {
            assert(a.contains(x));
            assert(b.to_set().contains(x));
            let i = choose|i: int| 0 <= i < b.len() && b[i] == x;
            assert(b.contains(y));
            assert(a.to_set().contains(y));
            let j = choose|j: int| 0 <= j < a.len() && a[j] == y;
            if x != y {
                assert(lex_lt(b[i], b[b.len() - 1]));
                assert(lex_lt(a[j], a[a.len() - 1]));
                lemma_lex_lt_asymmetric(x, y);
            }
        }
        let a0 = a.drop_last();
        let b0 = b.drop_last();
        assert(a0.to_set() =~= b0.to_set()) by {
            assert forall|k: Seq<u8>| a0.contains(k) implies b0.contains(k) by {
                let i = choose|i: int| 0 <= i < a0.len() && a0[i] == k;
                assert(a[i] == k);
                assert(a.contains(k));
                assert(b.to_set().contains(k));
                let j = choose|j: int| 0 <= j < b.len() && b[j] == k;
                assert(b0[j] == k);
            }
            assert forall|k: Seq<u8>| b0.contains(k) implies a0.contains(k) by {
                let i = choose|i: int| 0 <= i < b0.len() && b0[i] == k;
                assert(b[i] == k);
                assert(b.contains(k));
                assert(a.to_set().contains(k));
                let j = choose|j: int| 0 <= j < a.len() && a[j] == k;
                assert(a0[j] == k);
            }
        }
        assert(strictly_ascending(a0)) by {
            assert forall|i: int, j: int| 0 <= i < j < a0.len() implies lex_lt(
                #[trigger] a0[i],
                #[trigger] a0[j],
            ) by {
                assert(lex_lt(a[i], a[j]));
            }
        }
        assert(strictly_ascending(b0)) by {
            assert forall|i: int, j: int| 0 <= i < j < b0.len() implies lex_lt(
                #[trigger] b0[i],
                #[trigger] b0[j],
            ) by {
                assert(lex_lt(b[i], b[j]));
            }
        }
        lemma_ascending_unique(a0, b0);
        assert(a =~= a0.push(x));
        assert(b =~= b0.push(y));
    }
}

/// `keys` with `k` put in at its place in the order.
spec fn insert_ascending(keys: Seq<Seq<u8>>, k: Seq<u8>) -> Seq<Seq<u8>>
    decreases keys.len(),
{
    if keys.len() == 0 || lex_lt(keys.last(), k) {
        keys.push(k)
    } else {
        insert_ascending(keys.drop_last(), k).push(keys.last())
    }
}

proof fn lemma_insert_ascending(keys: Seq<Seq<u8>>, k: Seq<u8>)
    requires
        strictly_ascending(keys),
        !keys.contains(k),
    ensures
        strictly_ascending(insert_ascending(keys, k)),
        insert_ascending(keys, k).to_set() == keys.to_set().insert(k),
    decreases keys.len(),
{
    let r = insert_ascending(keys, k);
    if keys.len() == 0 || lex_lt(keys.last(), k) {
        keys.lemma_push_to_set_commute(k);
        assert forall|i: int, j: int| 0 <= i < j < r.len() implies lex_lt(
            #[trigger] r[i],
            #[trigger] r[j],
        ) by {
            if j < keys.len() {
                assert(lex_lt(keys[i], keys[j]));
            } else if i < keys.len() - 1 {
                assert(lex_lt(keys[i], keys[keys.len() - 1]));
                lemma_lex_lt_transitive(keys[i], keys.last(), k);
            }
        }
    } else {
        let rest = keys.drop_last();
        let last = keys.last();
        assert(keys =~= rest.push(last));
        assert(strictly_ascending(rest)) by {
            assert forall|i: int, j: int| 0 <= i < j < rest.len() implies lex_lt(
                #[trigger] rest[i],
                #[trigger] rest[j],
            ) by {
                assert(lex_lt(keys[i], keys[j]));
            }
        }
        assert(!rest.contains(k)) by {
            if rest.contains(k) {
                let i = choose|i: int| 0 <= i < rest.len() && rest[i] == k;
                assert(keys[i] == k);
            }
        }
        lemma_insert_ascending(rest, k);
        let r0 = insert_ascending(rest, k);
        assert(keys.contains(last));
        lemma_lex_lt_total(k, last);
        r0.lemma_push_to_set_commute(last);
        rest.lemma_push_to_set_commute(last);
        assert(r.to_set() =~= keys.to_set().insert(k));
        assert forall|i: int, j: int| 0 <= i < j < r.len() implies lex_lt(
            #[trigger] r[i],
            #[trigger] r[j],
        ) by {
            if j < r0.len() {
                assert(lex_lt(r0[i], r0[j]));
            } else {
                assert(r0.contains(r0[i]));
                assert(r0.to_set().contains(r0[i]));
                if r0[i] != k {
                    assert(rest.to_set().contains(r0[i]));
                    let p = choose|p: int| 0 <= p < rest.len() && rest[p] == r0[i];
                    assert(lex_lt(keys[p], keys[keys.len() - 1]));
                }
            }
        }
    }
}

/// Every finite set of byte strings has its ascending listing.
pub proof fn lemma_sorted_keys(dom: Set<Seq<u8>>)
    requires
        dom.finite(),
    ensures
        is_ascending_listing(sorted_keys(dom), dom),
        sorted_keys(dom).no_duplicates(),
        sorted_keys(dom).len() == dom.len(),
    decreases dom.len(),
{
    if dom.len() == 0 {
        let empty = Seq::<Seq<u8>>::empty();
        assert(empty.to_set() =~= dom);
        assert(is_ascending_listing(empty, dom));
    } else {
        let x = dom.choose();
        let rest = dom.remove(x);
        lemma_sorted_keys(rest);
        let keys = sorted_keys(rest);
        assert(!keys.contains(x)) by {
            if keys.contains(x) {
                assert(keys.to_set().contains(x));
            }
        }
        lemma_insert_ascending(keys, x);
        assert(rest.insert(x) =~= dom);
        assert(is_ascending_listing(insert_ascending(keys, x), dom));
    }
    lemma_ascending_no_duplicates(sorted_keys(dom));
    sorted_keys(dom).unique_seq_to_set();
}

/// The ascending listing of a set is the only one.
pub proof fn lemma_sorted_keys_unique(keys: Seq<Seq<u8>>, dom: Set<Seq<u8>>)
    requires
        is_ascending_listing(keys, dom),
    ensures
        sorted_keys(dom) == keys,
{
    lemma_ascending_unique(sorted_keys(dom), keys);
}

/// Whether two byte slices hold the same bytes.
pub(crate) fn bytes_eq(a: &[u8], b: &[u8]) -> (r: bool)
    ensures
        r == (a@ == b@),
{
    if a.len() != b.len() {
        return false;
    }
    let mut i: usize = 0;
    while i < a.len()
        invariant
            i <= a.len(),
            a.len() == b.len(),
            forall|j: int| 0 <= j < i ==> a@[j] == b@[j],
        decreases a.len() - i,
    {
        if a[i] != b[i] {
            return false;
        }
        i += 1;
    }
    assert(a@ =~= b@);
    true
}

/// Whether `a` comes strictly before `b` in the lexicographic order.
pub(crate) fn bytes_lt(a: &[u8], b: &[u8]) -> (r: bool)
    ensures
        r == lex_lt(a@, b@),
{
    let mut i: usize = 0;
    assert(a@.skip(0) =~= a@ && b@.skip(0) =~= b@);
    while i < a.len() && i < b.len()
        invariant
            i <= a.len(),
            i <= b.len(),
            lex_lt(a@, b@) == lex_lt(a@.skip(i as int), b@.skip(i as int)),
        decreases a.len() - i,
    {
        if a[i] != b[i] {
            return a[i] < b[i];
        }
        proof {
            assert(a@.skip(i as int).drop_first() =~= a@.skip(i + 1));
            assert(b@.skip(i as int).drop_first() =~= b@.skip(i + 1));
        }
        i += 1;
    }
    i < b.len()
}

} // verus!
