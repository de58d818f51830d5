//! Sorted association sequences: the canonical representation behind every
//! mapping in this crate.  Strict sorting makes equal mappings equal
//! sequences, which is what the composition laws rest on.

use vstd::prelude::*;

verus! {

/// `lt` is a strict total order.
pub open spec fn strict_order<K>(lt: spec_fn(K, K) -> bool) -> bool {
    &&& forall|a: K| !#[trigger] lt(a, a)
    &&& forall|a: K, b: K| #[trigger] lt(a, b) ==> !lt(b, a)
    &&& forall|a: K, b: K| a != b ==> #[trigger] lt(a, b) || #[trigger] lt(b, a)
    &&& forall|a: K, b: K, c: K| #[trigger] lt(a, b) && #[trigger] lt(b, c) ==> lt(a, c)
}

/// Keys strictly increase along the sequence.
pub open spec fn al_sorted<K, V>(s: Seq<(K, V)>, lt: spec_fn(K, K) -> bool) -> bool {
    forall|i: int, j: int| 0 <= i < j < s.len() ==> lt(#[trigger] s[i].0, #[trigger] s[j].0)
}

/// The value bound to `k`, if any.
pub open spec fn al_lookup<K, V>(s: Seq<(K, V)>, k: K) -> Option<V>
    decreases s.len(),
{
    if s.len() == 0 {
        None
    } else if s[0].0 == k {
        Some(s[0].1)
    } else {
        al_lookup(s.drop_first(), k)
    }
}

/// A bound key sits at some index with its value.
pub proof fn lemma_al_lookup_index<K, V>(s: Seq<(K, V)>, k: K)
    requires
        al_lookup(s, k) is Some,
    ensures
        exists|i: int|
            0 <= i < s.len() && #[trigger] s[i].0 == k && s[i].1 == al_lookup(s, k)->0,
    decreases s.len(),
{
    if s.len() > 0 {
        if s[0].0 == k {
            assert(s[0].0 == k && s[0].1 == al_lookup(s, k)->0);
        } else {
            lemma_al_lookup_index(s.drop_first(), k);
            let i = choose|i: int|
                0 <= i < s.drop_first().len() && #[trigger] s.drop_first()[i].0 == k
                    && s.drop_first()[i].1 == al_lookup(s.drop_first(), k)->0;
            assert(s[i + 1].0 == k && s[i + 1].1 == al_lookup(s, k)->0);
        }
    }
}

/// A key at no index is unbound.
pub proof fn lemma_al_none_when_absent<K, V>(s: Seq<(K, V)>, k: K)
    requires
        forall|i: int| 0 <= i < s.len() ==> (#[trigger] s[i].0) != k,
    ensures
        al_lookup(s, k) is None,
    decreases s.len(),
{
    if s.len() > 0 {
        assert(s[0].0 != k);
        assert forall|i: int| 0 <= i < s.drop_first().len() implies (#[trigger] s.drop_first()[i].0)
            != k by {
            assert(s.drop_first()[i] == s[i + 1]);
        }
        lemma_al_none_when_absent(s.drop_first(), k);
    }
}

/// A key at an index is bound, to that index's value, when keys are sorted.
pub proof fn lemma_al_index_lookup<K, V>(s: Seq<(K, V)>, lt: spec_fn(K, K) -> bool, i: int)
    requires
        strict_order(lt),
        al_sorted(s, lt),
        0 <= i < s.len(),
    ensures
        al_lookup(s, s[i].0) == Some(s[i].1),
    decreases s.len(),
{
    if i == 0 {
    } else {
        assert(lt(s[0].0, s[i].0));
        assert(s[0].0 != s[i].0);
        assert(al_sorted(s.drop_first(), lt)) by {
            assert forall|x: int, y: int| 0 <= x < y < s.drop_first().len() implies lt(
                #[trigger] s.drop_first()[x].0,
                #[trigger] s.drop_first()[y].0,
            ) by {
                assert(s.drop_first()[x] == s[x + 1]);
                assert(s.drop_first()[y] == s[y + 1]);
            }
        }
        lemma_al_index_lookup(s.drop_first(), lt, i - 1);
        assert(s.drop_first()[i - 1] == s[i]);
    }
}

/// An unbound key sits at no index.
pub proof fn lemma_al_lookup_none<K, V>(s: Seq<(K, V)>, k: K)
    requires
        al_lookup(s, k) is None,
    ensures
        forall|i: int| 0 <= i < s.len() ==> (#[trigger] s[i].0) != k,
    decreases s.len(),
{
    if s.len() > 0 {
        lemma_al_lookup_none(s.drop_first(), k);
        assert forall|i: int| 0 <= i < s.len() implies (#[trigger] s[i].0) != k by {
            if i > 0 {
                assert(s.drop_first()[i - 1] == s[i]);
            }
        }
    }
}

/// Two sorted association sequences with the same lookup function are the
/// same sequence.
pub proof fn lemma_al_ext<K, V>(x: Seq<(K, V)>, y: Seq<(K, V)>, lt: spec_fn(K, K) -> bool)
    requires
        strict_order(lt),
        al_sorted(x, lt),
        al_sorted(y, lt),
        forall|k: K| #[trigger] al_lookup(x, k) == al_lookup(y, k),
    ensures
        x =~= y,
    decreases x.len() + y.len(),
{
    if x.len() == 0 {
        if y.len() > 0 {
            lemma_al_index_lookup(y, lt, 0);
            assert(al_lookup(x, y[0].0) is None);
        }
    } else if y.len() == 0 {
        lemma_al_index_lookup(x, lt, 0);
        assert(al_lookup(y, x[0].0) is None);
    } else {
        lemma_al_index_lookup(x, lt, 0);
        lemma_al_index_lookup(y, lt, 0);
        assert(al_lookup(y, x[0].0) == Some(x[0].1));
        lemma_al_lookup_index(y, x[0].0);
        let i = choose|i: int| 0 <= i < y.len() && #[trigger] y[i].0 == x[0].0;
        assert(al_lookup(x, y[0].0) == Some(y[0].1));
        lemma_al_lookup_index(x, y[0].0);
        let j = choose|j: int| 0 <= j < x.len() && #[trigger] x[j].0 == y[0].0;
        if i > 0 {
            assert(lt(y[0].0, y[i].0));
            if j > 0 {
                assert(lt(x[0].0, x[j].0));
            } else {
                assert(x[0].0 == y[0].0);
            }
            assert(false);
        }
        assert(x[0].0 == y[0].0);
        assert(x[0] == y[0]);
        let xt = x.drop_first();
        let yt = y.drop_first();
        assert(al_sorted(xt, lt)) by {
            assert forall|a: int, b: int| 0 <= a < b < xt.len() implies lt(
                #[trigger] xt[a].0,
                #[trigger] xt[b].0,
            ) by {
                assert(xt[a] == x[a + 1]);
                assert(xt[b] == x[b + 1]);
            }
        }
        assert(al_sorted(yt, lt)) by {
            assert forall|a: int, b: int| 0 <= a < b < yt.len() implies lt(
                #[trigger] yt[a].0,
                #[trigger] yt[b].0,
            ) by {
                assert(yt[a] == y[a + 1]);
                assert(yt[b] == y[b + 1]);
            }
        }
        assert forall|k: K| #[trigger] al_lookup(xt, k) == al_lookup(yt, k) by {
            if k == x[0].0 {
                if al_lookup(xt, k) is Some {
                    lemma_al_lookup_index(xt, k);
                    let a = choose|a: int| 0 <= a < xt.len() && #[trigger] xt[a].0 == k;
                    assert(xt[a] == x[a + 1]);
                    assert(lt(x[0].0, x[a + 1].0));
                    assert(false);
                }
                if al_lookup(yt, k) is Some {
                    lemma_al_lookup_index(yt, k);
                    let a = choose|a: int| 0 <= a < yt.len() && #[trigger] yt[a].0 == k;
                    assert(yt[a] == y[a + 1]);
                    assert(lt(y[0].0, y[a + 1].0));
                    assert(false);
                }
            } else {
                assert(al_lookup(x, k) == al_lookup(xt, k));
                assert(al_lookup(y, k) == al_lookup(yt, k));
            }
        }
        lemma_al_ext(xt, yt, lt);
        assert forall|m: int| 0 <= m < x.len() implies x[m] == y[m] by {
            if m > 0 {
                assert(xt[m - 1] == x[m]);
                assert(yt[m - 1] == y[m]);
            }
        }
    }
}

/// Elements strictly increase along the sequence.
pub open spec fn el_sorted<K>(s: Seq<K>, lt: spec_fn(K, K) -> bool) -> bool {
    forall|i: int, j: int| 0 <= i < j < s.len() ==> lt(#[trigger] s[i], #[trigger] s[j])
}

/// Two sorted sequences with the same membership are the same sequence.
pub proof fn lemma_el_ext<K>(x: Seq<K>, y: Seq<K>, lt: spec_fn(K, K) -> bool)
    requires
        strict_order(lt),
        el_sorted(x, lt),
        el_sorted(y, lt),
        forall|k: K| x.contains(k) == #[trigger] y.contains(k),
    ensures
        x =~= y,
    decreases x.len() + y.len(),
{
    if x.len() == 0 {
        if y.len() > 0 {
            assert(y.contains(y[0]));
            assert(x.contains(y[0]));
        }
    } else if y.len() == 0 {
        assert(x.contains(x[0]));
        assert(y.contains(x[0]));
    } else {
        assert(x.contains(x[0]));
        assert(y.contains(x[0]));
        let i = choose|i: int| 0 <= i < y.len() && y[i] == x[0];
        assert(y.contains(y[0]));
        assert(x.contains(y[0]));
        let j = choose|j: int| 0 <= j < x.len() && x[j] == y[0];
        if i > 0 {
            assert(lt(y[0], y[i]));
            if j > 0 {
                assert(lt(x[0], x[j]));
            }
            assert(false);
        }
        assert(x[0] == y[0]);
        let xt = x.drop_first();
        let yt = y.drop_first();
        assert(el_sorted(xt, lt)) by {
            assert forall|a: int, b: int| 0 <= a < b < xt.len() implies lt(
                #[trigger] xt[a],
                #[trigger] xt[b],
            ) by {
                assert(xt[a] == x[a + 1]);
                assert(xt[b] == x[b + 1]);
            }
        }
        assert(el_sorted(yt, lt)) by {
            assert forall|a: int, b: int| 0 <= a < b < yt.len() implies lt(
                #[trigger] yt[a],
                #[trigger] yt[b],
            ) by {
                assert(yt[a] == y[a + 1]);
                assert(yt[b] == y[b + 1]);
            }
        }
        assert forall|k: K| xt.contains(k) == #[trigger] yt.contains(k) by {
            lemma_el_tail_membership(x, lt, k);
            lemma_el_tail_membership(y, lt, k);
            assert(x.contains(k) == y.contains(k));
        }
        lemma_el_ext(xt, yt, lt);
        assert forall|m: int| 0 <= m < x.len() implies x[m] == y[m] by {
            if m > 0 {
                assert(xt[m - 1] == x[m]);
                assert(yt[m - 1] == y[m]);
            }
        }
    }
}

/// Appending a pair binds its key only when the key was unbound before.
pub proof fn lemma_al_lookup_snoc<K, V>(s: Seq<(K, V)>, e: (K, V), k: K)
    ensures
        al_lookup(s.push(e), k) == (if al_lookup(s, k) is Some {
            al_lookup(s, k)
        } else if e.0 == k {
            Some(e.1)
        } else {
            None
        }),
    decreases s.len(),
{
    if s.len() == 0 {
        assert(s.push(e)[0] == e);
        assert(s.push(e).drop_first() =~= Seq::<(K, V)>::empty());
        assert(s.push(e).drop_first().len() == 0);
        assert(al_lookup(s.push(e).drop_first(), k) is None);
    } else {
        assert(s.push(e)[0] == s[0]);
        assert(s.push(e).drop_first() =~= s.drop_first().push(e));
        lemma_al_lookup_snoc(s.drop_first(), e, k);
        assert(al_lookup(s.push(e).drop_first(), k) == al_lookup(s.drop_first().push(e), k));
    }
}

/// Inserting a pair between smaller and larger keys keeps the sequence
/// sorted, binds the new key, and leaves every other key's binding unchanged.
pub proof fn lemma_al_insert<K, V>(s: Seq<(K, V)>, lt: spec_fn(K, K) -> bool, p: int, k: K, v: V)
    requires
        strict_order(lt),
        al_sorted(s, lt),
        0 <= p <= s.len(),
        forall|j: int| 0 <= j < p ==> lt(#[trigger] s[j].0, k),
        forall|j: int| p <= j < s.len() ==> lt(k, #[trigger] s[j].0),
    ensures
        al_sorted(s.insert(p, (k, v)), lt),
        al_lookup(s.insert(p, (k, v)), k) == Some(v),
        forall|q: K| q != k ==> al_lookup(s.insert(p, (k, v)), q) == #[trigger] al_lookup(s, q),
{
    let t = s.insert(p, (k, v));
    assert forall|i: int, j: int| 0 <= i < j < t.len() implies lt(
        #[trigger] t[i].0,
        #[trigger] t[j].0,
    ) by {
        if i < p {
            assert(t[i] == s[i]);
        } else if i > p {
            assert(t[i] == s[i - 1]);
        }
        if j < p {
            assert(t[j] == s[j]);
        } else if j > p {
            assert(t[j] == s[j - 1]);
        }
    }
    assert(t[p] == (k, v));
    lemma_al_index_lookup(t, lt, p);
    assert forall|q: K| q != k implies al_lookup(t, q) == #[trigger] al_lookup(s, q) by {
        if al_lookup(s, q) is Some {
            lemma_al_lookup_index(s, q);
            let i = choose|i: int| 0 <= i < s.len() && #[trigger] s[i].0 == q;
            lemma_al_index_lookup(s, lt, i);
            if i < p {
                assert(t[i] == s[i]);
                lemma_al_index_lookup(t, lt, i);
            } else {
                assert(t[i + 1] == s[i]);
                lemma_al_index_lookup(t, lt, i + 1);
            }
        } else {
            lemma_al_lookup_none(s, q);
            if al_lookup(t, q) is Some {
                lemma_al_lookup_index(t, q);
                let i = choose|i: int| 0 <= i < t.len() && #[trigger] t[i].0 == q;
                if i < p {
                    assert(t[i] == s[i]);
                } else if i > p {
                    assert(t[i] == s[i - 1]);
                }
                assert(false);
            }
        }
    }
}

/// Replacing the value at one index rebinds that index's key and leaves every
/// other key's binding unchanged.
pub proof fn lemma_al_update<K, V>(s: Seq<(K, V)>, lt: spec_fn(K, K) -> bool, p: int, v: V)
    requires
        strict_order(lt),
        al_sorted(s, lt),
        0 <= p < s.len(),
    ensures
        al_sorted(s.update(p, (s[p].0, v)), lt),
        al_lookup(s.update(p, (s[p].0, v)), s[p].0) == Some(v),
        forall|q: K|
            q != s[p].0 ==> al_lookup(s.update(p, (s[p].0, v)), q) == #[trigger] al_lookup(s, q),
{
    let k = s[p].0;
    let t = s.update(p, (k, v));
    assert forall|i: int, j: int| 0 <= i < j < t.len() implies lt(
        #[trigger] t[i].0,
        #[trigger] t[j].0,
    ) by {
        if i != p {
            assert(t[i] == s[i]);
        }
        if j != p {
            assert(t[j] == s[j]);
        }
    }
    lemma_al_index_lookup(t, lt, p);
    assert forall|q: K| q != k implies al_lookup(t, q) == #[trigger] al_lookup(s, q) by {
        if al_lookup(s, q) is Some {
            lemma_al_lookup_index(s, q);
            let i = choose|i: int| 0 <= i < s.len() && #[trigger] s[i].0 == q;
            lemma_al_index_lookup(s, lt, i);
            assert(t[i] == s[i]);
            lemma_al_index_lookup(t, lt, i);
        } else {
            lemma_al_lookup_none(s, q);
            if al_lookup(t, q) is Some {
                lemma_al_lookup_index(t, q);
                let i = choose|i: int| 0 <= i < t.len() && #[trigger] t[i].0 == q;
                if i != p {
                    assert(t[i] == s[i]);
                }
                assert(false);
            }
        }
    }
}

/// Inserting an element between smaller and larger ones keeps the sequence
/// sorted and adds exactly that element to the membership.
pub proof fn lemma_el_insert<K>(s: Seq<K>, lt: spec_fn(K, K) -> bool, p: int, e: K)
    requires
        strict_order(lt),
        el_sorted(s, lt),
        0 <= p <= s.len(),
        forall|j: int| 0 <= j < p ==> lt(#[trigger] s[j], e),
        forall|j: int| p <= j < s.len() ==> lt(e, #[trigger] s[j]),
    ensures
        el_sorted(s.insert(p, e), lt),
        forall|x: K| s.insert(p, e).contains(x) == (s.contains(x) || x == e),
{
    let t = s.insert(p, e);
    assert forall|i: int, j: int| 0 <= i < j < t.len() implies lt(#[trigger] t[i], #[trigger] t[j]) by {
        if i < p {
            assert(t[i] == s[i]);
        } else if i > p {
            assert(t[i] == s[i - 1]);
        }
        if j < p {
            assert(t[j] == s[j]);
        } else if j > p {
            assert(t[j] == s[j - 1]);
        }
    }
    assert forall|x: K| t.contains(x) == (s.contains(x) || x == e) by {
        if t.contains(x) {
            let i = choose|i: int| 0 <= i < t.len() && t[i] == x;
            if i < p {
                assert(s[i] == x);
                assert(s.contains(x));
            } else if i > p {
                assert(s[i - 1] == x);
                assert(s.contains(x));
            }
        }
        if s.contains(x) {
            let i = choose|i: int| 0 <= i < s.len() && s[i] == x;
            if i < p {
                assert(t[i] == x);
            } else {
                assert(t[i + 1] == x);
            }
            assert(t.contains(x));
        }
        assert(t[p] == e);
        if x == e {
            assert(t.contains(x));
        }
    }
}

/// Membership in the tail of a sorted sequence: everything but the head.
pub proof fn lemma_el_tail_membership<K>(x: Seq<K>, lt: spec_fn(K, K) -> bool, k: K)
    requires
        strict_order(lt),
        el_sorted(x, lt),
        x.len() > 0,
    ensures
        x.drop_first().contains(k) == (x.contains(k) && k != x[0]),
{
    let xt = x.drop_first();
    if xt.contains(k) {
        let a = choose|a: int| 0 <= a < xt.len() && xt[a] == k;
        assert(xt[a] == x[a + 1]);
        assert(x.contains(k));
        assert(lt(x[0], x[a + 1]));
    }
    if x.contains(k) && k != x[0] {
        let a = choose|a: int| 0 <= a < x.len() && x[a] == k;
        assert(xt[a - 1] == x[a]);
        assert(xt.contains(k));
    }
}

} // verus!
