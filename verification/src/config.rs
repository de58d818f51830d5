//! The mergeable policy unit and its composition algebra.

use vstd::prelude::*;
use crate::assoc::{
    al_lookup, al_sorted, lemma_al_ext, lemma_al_index_lookup, lemma_al_insert,
    lemma_al_lookup_index, lemma_al_lookup_snoc, lemma_al_none_when_absent, lemma_al_update,
    lemma_el_ext, el_sorted, strict_order,
};
use crate::parser::{
    lemma_template_lt_strict_order, template_lt, toks_lt, wf_tokens, TemplateString, TokenModel,
};
use crate::strutil::char_seq_lt;
use crate::variable::{valid_name, Variables};

verus! {

/// The numeric order on ports, as a function value.
pub open spec fn u64_lt() -> spec_fn(u64, u64) -> bool {
    |a: u64, b: u64| a < b
}

/// `u64_lt()` is a strict total order.
pub proof fn lemma_u64_lt_strict_order()
    ensures
        strict_order(u64_lt()),
{
}

/// Bitwise facts the composition algebra rests on.
proof fn lemma_bit_facts()
    by (bit_vector)
    ensures
        forall|a: u64, b: u64, h: u64| #[trigger] ((a & h) | (b & h)) == ((a | b) & h),
        forall|a: u64, b: u64, h: u64|
            (a & h) == 0 ==> #[trigger] ((a | b) & h) == (b & h),
        forall|a: u64, b: u64, h: u64|
            (b & h) == 0 ==> #[trigger] ((a | b) & h) == (a & h),
        forall|x: u64, h1: u64, h2: u64| #[trigger] ((x & (h1 & h2)) & h1) == (x & (h1 & h2)),
        forall|x: u64, h1: u64, h2: u64| #[trigger] ((x & (h1 & h2)) & h2) == (x & (h1 & h2)),
        forall|v: u64, h: u64| (v & h) == v ==> #[trigger] ((v | v) & (h & h)) == v,
        forall|v: u64, h: u64| #[trigger] ((v & h) & h) == (v & h),
        forall|v: u64| #[trigger] (v | 0) == v,
        forall|v: u64| #[trigger] (0 | v) == v,
        forall|v: u64| #[trigger] (v & 0) == 0,
        forall|v: u64| #[trigger] (0 & v) == 0,
        forall|a: u64, b: u64| #[trigger] (a | b) == 0 ==> a == 0 && b == 0,
{
}

/// The bits of an optional rule value; an absent rule grants nothing.
pub open spec fn opt_bits(x: Option<u64>) -> u64 {
    match x {
        Some(v) => v,
        None => 0,
    }
}

/// How two optional rule values merge under a common handled set: their
/// grants are unioned, cut down to the handled bits, and the rule disappears
/// when nothing is left.
pub open spec fn merge_rule(x: Option<u64>, y: Option<u64>, h: u64) -> Option<u64> {
    if (opt_bits(x) | opt_bits(y)) & h == 0 {
        None
    } else {
        Some((opt_bits(x) | opt_bits(y)) & h)
    }
}

/// Some index carries this key.
pub open spec fn key_in<K>(s: Seq<(K, u64)>, k: K) -> bool {
    exists|i: int| 0 <= i < s.len() && (#[trigger] s[i]).0 == k
}

/// The rules that keep some access under `h`, each cut down to `h`.
pub open spec fn filter_rules<K>(s: Seq<(K, u64)>, h: u64) -> Seq<(K, u64)>
    decreases s.len(),
{
    if s.len() == 0 {
        Seq::empty()
    } else {
        let rest = filter_rules(s.drop_first(), h);
        if s[0].1 & h != 0 {
            seq![(s[0].0, s[0].1 & h)] + rest
        } else {
            rest
        }
    }
}

proof fn lemma_filter_rules_sorted<K>(s: Seq<(K, u64)>, lt: spec_fn(K, K) -> bool, h: u64)
    requires
        strict_order(lt),
        al_sorted(s, lt),
    ensures
        al_sorted(filter_rules(s, h), lt),
        forall|j: int|
            0 <= j < filter_rules(s, h).len() ==> key_in(s, (#[trigger] filter_rules(s, h)[j]).0),
    decreases s.len(),
{
    if s.len() > 0 {
        let tail = s.drop_first();
        assert(al_sorted(tail, lt)) by {
            assert forall|x: int, y: int| 0 <= x < y < tail.len() implies lt(
                #[trigger] tail[x].0,
                #[trigger] tail[y].0,
            ) by {
                assert(tail[x] == s[x + 1]);
                assert(tail[y] == s[y + 1]);
            }
        }
        lemma_filter_rules_sorted(tail, lt, h);
        let rest = filter_rules(tail, h);
        let r = filter_rules(s, h);
        assert forall|j: int| 0 <= j < r.len() implies key_in(s, (#[trigger] r[j]).0) by {
            if s[0].1 & h != 0 {
                if j == 0 {
                    assert(r[0].0 == s[0].0);
                    assert(key_in(s, s[0].0));
                } else {
                    assert(r[j] == rest[j - 1]);
                    assert(key_in(tail, rest[j - 1].0));
                    let i = choose|i: int| 0 <= i < tail.len() && (#[trigger] tail[i]).0 == rest[j
                        - 1].0;
                    assert(s[i + 1].0 == rest[j - 1].0);
                    assert(key_in(s, r[j].0));
                }
            } else {
                assert(r[j] == rest[j]);
                assert(key_in(tail, rest[j].0));
                let i = choose|i: int| 0 <= i < tail.len() && (#[trigger] tail[i]).0 == rest[j].0;
                assert(s[i + 1].0 == rest[j].0);
                assert(key_in(s, r[j].0));
            }
        }
        assert forall|x: int, y: int| 0 <= x < y < r.len() implies lt(
            #[trigger] r[x].0,
            #[trigger] r[y].0,
        ) by {
            if s[0].1 & h != 0 {
                if x == 0 {
                    assert(r[y] == rest[y - 1]);
                    assert(key_in(tail, rest[y - 1].0));
                    let i = choose|i: int| 0 <= i < tail.len() && (#[trigger] tail[i]).0 == rest[y
                        - 1].0;
                    assert(tail[i] == s[i + 1]);
                    assert(lt(s[0].0, s[i + 1].0));
                } else {
                    assert(r[x] == rest[x - 1]);
                    assert(r[y] == rest[y - 1]);
                }
            } else {
                assert(r[x] == rest[x]);
                assert(r[y] == rest[y]);
            }
        }
    }
}

proof fn lemma_filter_rules_lookup<K>(s: Seq<(K, u64)>, lt: spec_fn(K, K) -> bool, h: u64, k: K)
    requires
        strict_order(lt),
        al_sorted(s, lt),
    ensures
        al_lookup(filter_rules(s, h), k) == merge_rule(al_lookup(s, k), None, h),
    decreases s.len(),
{
    lemma_bit_facts();
    if s.len() == 0 {
        assert(filter_rules(s, h).len() == 0);
        assert(al_lookup(filter_rules(s, h), k) is None);
        assert(al_lookup(s, k) is None);
        assert((0u64 | 0u64) & h == 0);
    } else {
        let tail = s.drop_first();
        assert(al_sorted(tail, lt)) by {
            assert forall|x: int, y: int| 0 <= x < y < tail.len() implies lt(
                #[trigger] tail[x].0,
                #[trigger] tail[y].0,
            ) by {
                assert(tail[x] == s[x + 1]);
                assert(tail[y] == s[y + 1]);
            }
        }
        lemma_filter_rules_lookup(tail, lt, h, k);
        lemma_filter_rules_sorted(tail, lt, h);
        let rest = filter_rules(tail, h);
        let r = filter_rules(s, h);
        if s[0].0 == k {
            // The key sits at the head; sortedness keeps it out of the tail.
            assert(al_lookup(s, k) == Some(s[0].1));
            assert forall|i: int| 0 <= i < tail.len() implies (#[trigger] tail[i].0) != k by {
                assert(tail[i] == s[i + 1]);
                assert(lt(s[0].0, s[i + 1].0));
            }
            lemma_al_none_when_absent(tail, k);
            assert forall|i: int| 0 <= i < rest.len() implies (#[trigger] rest[i].0) != k by {
                assert(key_in(tail, rest[i].0));
                let q = choose|q: int| 0 <= q < tail.len() && (#[trigger] tail[q]).0 == rest[i].0;
                assert(tail[q].0 != k);
            }
            lemma_al_none_when_absent(rest, k);
            assert(al_lookup(rest, k) is None);
            if s[0].1 & h != 0 {
                assert(r == seq![(s[0].0, s[0].1 & h)] + rest);
                assert(r[0] == (k, s[0].1 & h));
                assert(al_lookup(r, k) == Some(s[0].1 & h));
            } else {
                assert(r == rest);
            }
        } else {
            assert(al_lookup(s, k) == al_lookup(tail, k));
            if s[0].1 & h != 0 {
                assert(r == seq![(s[0].0, s[0].1 & h)] + rest);
                assert(r[0].0 == s[0].0);
                assert(r.drop_first() =~= rest);
                assert(al_lookup(r, k) == al_lookup(rest, k));
            } else {
                assert(r == rest);
            }
        }
    }
}

proof fn lemma_filter_rules_snoc<K>(s: Seq<(K, u64)>, e: (K, u64), h: u64)
    ensures
        filter_rules(s.push(e), h) =~= filter_rules(s, h) + (if e.1 & h != 0 {
            seq![(e.0, e.1 & h)]
        } else {
            Seq::<(K, u64)>::empty()
        }),
    decreases s.len(),
{
    if s.len() == 0 {
        assert(s.push(e)[0] == e);
        assert(s.push(e).drop_first() =~= Seq::<(K, u64)>::empty());
        assert(filter_rules(Seq::<(K, u64)>::empty(), h) =~= Seq::<(K, u64)>::empty());
    } else {
        assert(s.push(e)[0] == s[0]);
        assert(s.push(e).drop_first() =~= s.drop_first().push(e));
        lemma_filter_rules_snoc(s.drop_first(), e, h);
    }
}

/// One merge step: after unioning rule `i` of `b` into the accumulator, the
/// accumulator reads as the merge of `a` with one more rule of `b`.
proof fn lemma_merge_step<K>(
    av: Seq<(K, u64)>,
    bv: Seq<(K, u64)>,
    pre: Seq<(K, u64)>,
    post: Seq<(K, u64)>,
    i: int,
    h: u64,
    lt: spec_fn(K, K) -> bool,
)
    requires
        strict_order(lt),
        al_sorted(bv, lt),
        0 <= i < bv.len(),
        forall|k: K| #[trigger]
            al_lookup(pre, k) == merge_rule(
                al_lookup(av, k),
                al_lookup(bv.subrange(0, i), k),
                h,
            ),
        bv[i].1 & h != 0,
        al_lookup(post, bv[i].0) == Some(opt_bits(al_lookup(pre, bv[i].0)) | (bv[i].1 & h)),
        forall|q: K| q != bv[i].0 ==> al_lookup(post, q) == #[trigger] al_lookup(pre, q),
    ensures
        forall|k: K| #[trigger]
            al_lookup(post, k) == merge_rule(
                al_lookup(av, k),
                al_lookup(bv.subrange(0, i + 1), k),
                h,
            ),
{
    lemma_bit_facts();
    let kb = bv[i].0;
    let v = bv[i].1;
    assert(bv.subrange(0, i + 1) =~= bv.subrange(0, i).push(bv[i]));
    assert forall|q: int| 0 <= q < i implies (#[trigger] bv.subrange(0, i)[q].0) != kb by {
        assert(bv.subrange(0, i)[q] == bv[q]);
        assert(lt(bv[q].0, bv[i].0));
        assert(!lt(bv[q].0, bv[q].0));
    }
    lemma_al_none_when_absent(bv.subrange(0, i), kb);
    assert forall|k: K| #[trigger] al_lookup(post, k) == merge_rule(
        al_lookup(av, k),
        al_lookup(bv.subrange(0, i + 1), k),
        h,
    ) by {
        lemma_al_lookup_snoc(bv.subrange(0, i), bv[i], k);
        if k == kb {
            assert(al_lookup(bv.subrange(0, i + 1), k) == Some(v));
            assert(al_lookup(post, kb) == Some(opt_bits(al_lookup(pre, kb)) | (v & h)));
            assert(al_lookup(pre, kb) == merge_rule(
                al_lookup(av, kb),
                al_lookup(bv.subrange(0, i), kb),
                h,
            ));
            let ab = opt_bits(al_lookup(av, kb));
            if (ab | 0) & h == 0 {
                assert(ab & h == 0);
                assert((ab | v) & h == (v & h));
                assert(opt_bits(al_lookup(pre, kb)) | (v & h) == (ab | v) & h);
            } else {
                assert(al_lookup(pre, kb) == Some((ab | 0) & h));
                assert((ab | 0) & h == ab & h);
                assert(((ab & h) | (v & h)) == ((ab | v) & h));
                assert(opt_bits(al_lookup(pre, kb)) | (v & h) == (ab | v) & h);
            }
            assert(((ab & h) | (v & h)) == ((ab | v) & h));
            assert(((ab | v) & h) != 0);
        } else {
            assert(al_lookup(bv.subrange(0, i + 1), k) == al_lookup(bv.subrange(0, i), k));
            assert(al_lookup(post, k) == al_lookup(pre, k));
        }
    }
}

/// A rule of `b` with nothing left under `h` changes no merge result.
proof fn lemma_merge_skip<K>(
    av: Seq<(K, u64)>,
    bv: Seq<(K, u64)>,
    pre: Seq<(K, u64)>,
    i: int,
    h: u64,
    lt: spec_fn(K, K) -> bool,
)
    requires
        strict_order(lt),
        al_sorted(bv, lt),
        0 <= i < bv.len(),
        forall|k: K| #[trigger]
            al_lookup(pre, k) == merge_rule(
                al_lookup(av, k),
                al_lookup(bv.subrange(0, i), k),
                h,
            ),
        bv[i].1 & h == 0,
    ensures
        forall|k: K| #[trigger]
            al_lookup(pre, k) == merge_rule(
                al_lookup(av, k),
                al_lookup(bv.subrange(0, i + 1), k),
                h,
            ),
{
    lemma_bit_facts();
    let kb = bv[i].0;
    let v = bv[i].1;
    assert(bv.subrange(0, i + 1) =~= bv.subrange(0, i).push(bv[i]));
    assert forall|q: int| 0 <= q < i implies (#[trigger] bv.subrange(0, i)[q].0) != kb by {
        assert(bv.subrange(0, i)[q] == bv[q]);
        assert(lt(bv[q].0, bv[i].0));
        assert(!lt(bv[q].0, bv[q].0));
    }
    lemma_al_none_when_absent(bv.subrange(0, i), kb);
    assert forall|k: K| #[trigger] al_lookup(pre, k) == merge_rule(
        al_lookup(av, k),
        al_lookup(bv.subrange(0, i + 1), k),
        h,
    ) by {
        lemma_al_lookup_snoc(bv.subrange(0, i), bv[i], k);
        if k == kb {
            let ab = opt_bits(al_lookup(av, kb));
            assert(((ab | v) & h) == (ab & h));
            assert((ab | 0) & h == ab & h);
        }
    }
}

/// The model of a path-rule vector: template models bound to bit-sets.
pub open spec fn pb_view(v: Seq<(TemplateString, u64)>) -> Seq<(Seq<TokenModel>, u64)> {
    v.map_values(|e: (TemplateString, u64)| (e.0@, e.1))
}

/// Mathematical model of a policy unit.
#[verifier::ext_equal]
pub struct ConfigModel {
    pub vars: Seq<(Seq<char>, Seq<Seq<char>>)>,
    pub handled_fs: u64,
    pub handled_net: u64,
    pub scoped: u64,
    pub pb: Seq<(Seq<TokenModel>, u64)>,
    pub np: Seq<(u64, u64)>,
}

/// One mergeable policy unit: handled bit-sets per domain, a variable table,
/// and the path and port rules, each map strictly sorted by key.
#[derive(Clone, Debug, PartialEq, Eq)]
pub struct Config {
    pub variables: Variables,
    pub handled_fs: u64,
    pub handled_net: u64,
    pub scoped: u64,
    pub rules_path_beneath: Vec<(TemplateString, u64)>,
    pub rules_net_port: Vec<(u64, u64)>,
}

impl View for Config {
    type V = ConfigModel;

    open spec fn view(&self) -> ConfigModel {
        ConfigModel {
            vars: self.variables@,
            handled_fs: self.handled_fs,
            handled_net: self.handled_net,
            scoped: self.scoped,
            pb: pb_view(self.rules_path_beneath@),
            np: self.rules_net_port@,
        }
    }
}

/// Well-formed variable tables, at the model level.
pub open spec fn vars_wf(v: Seq<(Seq<char>, Seq<Seq<char>>)>) -> bool {
    &&& al_sorted(v, char_seq_lt())
    &&& forall|i: int|
        0 <= i < v.len() ==> valid_name(#[trigger] v[i].0) && el_sorted(v[i].1, char_seq_lt())
}

/// Well-formed path rules: sorted well-formed template keys, and every
/// allowed bit-set non-empty and inside the handled set.
pub open spec fn rules_wf(pb: Seq<(Seq<TokenModel>, u64)>, handled: u64) -> bool {
    &&& al_sorted(pb, template_lt())
    &&& forall|i: int|
        0 <= i < pb.len() ==> wf_tokens((#[trigger] pb[i]).0) && pb[i].1 != 0 && pb[i].1 & handled
            == pb[i].1
}

/// Well-formed port rules: sorted ports, every bit-set non-empty and inside
/// the handled set.
pub open spec fn ports_wf(np: Seq<(u64, u64)>, handled: u64) -> bool {
    &&& al_sorted(np, u64_lt())
    &&& forall|i: int|
        0 <= i < np.len() ==> (#[trigger] np[i]).1 != 0 && np[i].1 & handled == np[i].1
}

/// The invariant every policy unit keeps: canonical maps, and no rule
/// granting outside its domain's handled set.
pub open spec fn wf_model(m: ConfigModel) -> bool {
    &&& vars_wf(m.vars)
    &&& rules_wf(m.pb, m.handled_fs)
    &&& ports_wf(m.np, m.handled_net)
}

/// The members of `cs` are those of the bound sides of `x` and `y` together.
pub open spec fn union_opt_members(
    cs: Seq<Seq<char>>,
    x: Option<Seq<Seq<char>>>,
    y: Option<Seq<Seq<char>>>,
) -> bool {
    forall|s: Seq<char>|
        #[trigger] cs.contains(s) == ((x is Some && x->0.contains(s)) || (y is Some
            && y->0.contains(s)))
}

/// What composing `a` and `b` must produce: handled sets intersect, every
/// rule's grant becomes the union of both sides' grants cut to the common
/// handled set (dropping rules left empty), and variable tables merge by
/// per-name union.
pub open spec fn compose_post(a: ConfigModel, b: ConfigModel, c: ConfigModel) -> bool {
    &&& c.handled_fs == a.handled_fs & b.handled_fs
    &&& c.handled_net == a.handled_net & b.handled_net
    &&& c.scoped == a.scoped & b.scoped
    &&& al_sorted(c.pb, template_lt())
    &&& forall|k: Seq<TokenModel>|
        #[trigger] al_lookup(c.pb, k) == merge_rule(
            al_lookup(a.pb, k),
            al_lookup(b.pb, k),
            a.handled_fs & b.handled_fs,
        )
    &&& al_sorted(c.np, u64_lt())
    &&& forall|k: u64|
        #[trigger] al_lookup(c.np, k) == merge_rule(
            al_lookup(a.np, k),
            al_lookup(b.np, k),
            a.handled_net & b.handled_net,
        )
    &&& al_sorted(c.vars, char_seq_lt())
    &&& forall|k: Seq<char>|
        #[trigger] al_lookup(c.vars, k) is Some <==> (al_lookup(a.vars, k) is Some || al_lookup(
            b.vars,
            k,
        ) is Some)
    &&& forall|k: Seq<char>|
        al_lookup(c.vars, k) is Some ==> union_opt_members(
            #[trigger] al_lookup(c.vars, k)->0,
            al_lookup(a.vars, k),
            al_lookup(b.vars, k),
        )
}

/// Unions `m` into the rule at `key`, inserting the rule if absent.
pub(crate) fn pb_insert_or(rules: &mut Vec<(TemplateString, u64)>, key: &TemplateString, m: u64)
    requires
        m != 0,
        al_sorted(pb_view(old(rules)@), template_lt()),
    ensures
        al_sorted(pb_view(final(rules)@), template_lt()),
        al_lookup(pb_view(final(rules)@), key@) == Some(
            opt_bits(al_lookup(pb_view(old(rules)@), key@)) | m,
        ),
        forall|q: Seq<TokenModel>|
            q != key@ ==> al_lookup(pb_view(final(rules)@), q) == #[trigger] al_lookup(
                pb_view(old(rules)@),
                q,
            ),
        forall|j: int|
            0 <= j < final(rules)@.len() ==> (key_in(
                pb_view(old(rules)@),
                (#[trigger] pb_view(final(rules)@)[j]).0,
            ) || pb_view(final(rules)@)[j].0 == key@),
{
    proof {
        lemma_template_lt_strict_order();
        lemma_bit_facts();
    }
    let ghost lt = template_lt();
    let n = rules.len();
    let mut p: usize = 0;
    while p < n && rules[p].0.before(key)
        invariant
            p <= n,
            n == rules@.len(),
            rules@ == old(rules)@,
            al_sorted(pb_view(rules@), lt),
            forall|j: int| 0 <= j < p ==> toks_lt(#[trigger] pb_view(rules@)[j].0, key@),
        decreases n - p,
    {
        proof {
            assert(pb_view(rules@)[p as int].0 == rules@[p as int].0@);
        }
        p = p + 1;
    }
    let ghost pre = pb_view(rules@);
    if p < n && rules[p].0.same_as(key) {
        proof {
            assert(pre[p as int].0 == key@);
            lemma_al_index_lookup(pre, lt, p as int);
        }
        let (k0, v0) = rules.remove(p);
        let merged = v0 | m;
        let ghost kv = k0@;
        rules.insert(p, (k0, merged));
        proof {
            assert(pb_view(rules@) =~= pre.update(p as int, (key@, (pre[p as int].1 | m) as u64)));
            lemma_al_update(pre, lt, p as int, (pre[p as int].1 | m) as u64);
            assert forall|j: int| 0 <= j < rules@.len() implies (key_in(
                pre,
                (#[trigger] pb_view(rules@)[j]).0,
            ) || pb_view(rules@)[j].0 == key@) by {
                if j != p {
                    assert(pb_view(rules@)[j] == pre[j]);
                    assert(key_in(pre, pre[j].0));
                }
            }
        }
    } else {
        proof {
            assert(pre.len() == n);
            assert forall|j: int| p <= j < pre.len() implies lt(key@, #[trigger] pre[j].0) by {
                assert(p < n);
                assert(pre[p as int].0 == rules@[p as int].0@);
                assert(!toks_lt(pre[p as int].0, key@));
                assert(pre[p as int].0 != key@);
                assert(!lt(pre[p as int].0, key@));
                assert(lt(key@, pre[p as int].0));
                if j > p {
                    assert(lt(pre[p as int].0, pre[j].0));
                }
            }
            assert forall|j: int| 0 <= j < pre.len() implies (#[trigger] pre[j].0) != key@ by {
                if j < p {
                    assert(lt(pre[j].0, key@));
                } else {
                    assert(lt(key@, pre[j].0));
                }
            }
            lemma_al_none_when_absent(pre, key@);
        }
        let kd = key.duplicate();
        let ghost kv = kd@;
        rules.insert(p, (kd, m));
        proof {
            assert(pb_view(rules@) =~= pre.insert(p as int, (key@, m)));
            lemma_al_insert(pre, lt, p as int, key@, m);
            assert forall|j: int| 0 <= j < rules@.len() implies (key_in(
                pre,
                (#[trigger] pb_view(rules@)[j]).0,
            ) || pb_view(rules@)[j].0 == key@) by {
                if j < p {
                    assert(pb_view(rules@)[j] == pre[j]);
                    assert(key_in(pre, pre[j].0));
                } else if j > p {
                    assert(pb_view(rules@)[j] == pre[j - 1]);
                    assert(key_in(pre, pre[j - 1].0));
                } else {
                    assert(pb_view(rules@)[j] == (key@, m));
                }
            }
        }
    }
}

/// Unions `m` into the rule at `port`, inserting the rule if absent.
pub(crate) fn np_insert_or(rules: &mut Vec<(u64, u64)>, port: u64, m: u64)
    requires
        m != 0,
        al_sorted(old(rules)@, u64_lt()),
    ensures
        al_sorted(final(rules)@, u64_lt()),
        al_lookup(final(rules)@, port) == Some(opt_bits(al_lookup(old(rules)@, port)) | m),
        forall|q: u64|
            q != port ==> al_lookup(final(rules)@, q) == #[trigger] al_lookup(old(rules)@, q),
{
    proof {
        lemma_u64_lt_strict_order();
        lemma_bit_facts();
    }
    let ghost lt = u64_lt();
    let n = rules.len();
    let mut p: usize = 0;
    while p < n && rules[p].0 < port
        invariant
            p <= n,
            n == rules@.len(),
            rules@ == old(rules)@,
            al_sorted(rules@, lt),
            forall|j: int| 0 <= j < p ==> (#[trigger] rules@[j].0) < port,
        decreases n - p,
    {
        p = p + 1;
    }
    let ghost pre = rules@;
    if p < n && rules[p].0 == port {
        proof {
            lemma_al_index_lookup(pre, lt, p as int);
        }
        let (k0, v0) = rules.remove(p);
        rules.insert(p, (k0, v0 | m));
        proof {
            assert(rules@ =~= pre.update(p as int, (port, (pre[p as int].1 | m) as u64)));
            lemma_al_update(pre, lt, p as int, (pre[p as int].1 | m) as u64);
        }
    } else {
        proof {
            assert forall|j: int| 0 <= j < pre.len() implies (#[trigger] pre[j].0) != port by {
                if j < p {
                    assert(pre[j].0 < port);
                } else {
                    assert(lt(pre[p as int].0, pre[j].0) || j == p);
                }
            }
            lemma_al_none_when_absent(pre, port);
        }
        rules.insert(p, (port, m));
        proof {
            assert(rules@ =~= pre.insert(p as int, (port, m)));
            lemma_al_insert(pre, lt, p as int, port, m);
        }
    }
}

impl Config {
    /// The invariant of a policy unit, at the model level.
    pub open spec fn wf(&self) -> bool {
        wf_model(self@)
    }

    /// The neutral starting point: nothing handled, no variables, no rules.
    pub fn empty() -> (r: Config)
        ensures
            r.wf(),
            r@.vars =~= Seq::<(Seq<char>, Seq<Seq<char>>)>::empty(),
            r@.handled_fs == 0,
            r@.handled_net == 0,
            r@.scoped == 0,
            r@.pb =~= Seq::<(Seq<TokenModel>, u64)>::empty(),
            r@.np =~= Seq::<(u64, u64)>::empty(),
    {
        let r = Config {
            variables: Variables::new(),
            handled_fs: 0,
            handled_net: 0,
            scoped: 0,
            rules_path_beneath: Vec::new(),
            rules_net_port: Vec::new(),
        };
        proof {
            assert(pb_view(r.rules_path_beneath@) =~= Seq::<(Seq<TokenModel>, u64)>::empty());
        }
        r
    }

    /// Merges `other` into `self` in the safe best-effort way: common handled
    /// rights only, every rule downgraded to them, rules left with nothing
    /// dropped, variables unioned.  The operation is commutative and
    /// idempotent; see [`lemma_compose_commutative`] and
    /// [`lemma_compose_idempotent`].
    pub fn compose(&mut self, other: &Config)
        requires
            old(self).wf(),
            other.wf(),
        ensures
            final(self).wf(),
            compose_post(old(self)@, other@, final(self)@),
    {
        proof {
            lemma_bit_facts();
        }
        let ghost av = old(self)@;
        let ghost bv = other@;
        let cf = self.handled_fs & other.handled_fs;
        let cn = self.handled_net & other.handled_net;
        let cscope = self.scoped & other.scoped;
        let pb = composed_pb(&self.rules_path_beneath, &other.rules_path_beneath, cf);
        let np = composed_np(&self.rules_net_port, &other.rules_net_port, cn);
        self.rules_path_beneath = pb;
        self.rules_net_port = np;
        absorb_vars(&mut self.variables, &other.variables);
        self.handled_fs = cf;
        self.handled_net = cn;
        self.scoped = cscope;
        proof {
            let c = self@;
            assert forall|j: int| 0 <= j < c.pb.len() implies wf_tokens((#[trigger] c.pb[j]).0)
                && c.pb[j].1 != 0 && c.pb[j].1 & c.handled_fs == c.pb[j].1 by {
                lemma_template_lt_strict_order();
                lemma_al_index_lookup(c.pb, template_lt(), j);
                assert(al_lookup(c.pb, c.pb[j].0) == Some(c.pb[j].1));
                assert(al_lookup(c.pb, c.pb[j].0) == merge_rule(
                    al_lookup(av.pb, c.pb[j].0),
                    al_lookup(bv.pb, c.pb[j].0),
                    cf,
                ));
                if key_in(av.pb, c.pb[j].0) {
                    let q = choose|q: int| 0 <= q < av.pb.len() && (#[trigger] av.pb[q]).0 == c.pb[
                        j].0;
                    assert(wf_tokens(av.pb[q].0));
                } else {
                    assert(key_in(bv.pb, c.pb[j].0));
                    let q = choose|q: int| 0 <= q < bv.pb.len() && (#[trigger] bv.pb[q]).0 == c.pb[
                        j].0;
                    assert(wf_tokens(bv.pb[q].0));
                }
            }
            assert forall|j: int| 0 <= j < c.np.len() implies (#[trigger] c.np[j]).1 != 0
                && c.np[j].1 & c.handled_net == c.np[j].1 by {
                lemma_u64_lt_strict_order();
                lemma_al_index_lookup(c.np, u64_lt(), j);
                assert(al_lookup(c.np, c.np[j].0) == Some(c.np[j].1));
                assert(al_lookup(c.np, c.np[j].0) == merge_rule(
                    al_lookup(av.np, c.np[j].0),
                    al_lookup(bv.np, c.np[j].0),
                    cn,
                ));
            }
            assert(vars_wf(c.vars));
            assert(wf_model(c));
        }
    }
}

/// The composed path rules: own rules cut to the common handled set, then the
/// other side's unioned in.
fn composed_pb(mine: &Vec<(TemplateString, u64)>, theirs: &Vec<(TemplateString, u64)>, cf: u64)
    -> (r: Vec<(TemplateString, u64)>)
    requires
        al_sorted(pb_view(mine@), template_lt()),
        al_sorted(pb_view(theirs@), template_lt()),
    ensures
        al_sorted(pb_view(r@), template_lt()),
        forall|k: Seq<TokenModel>| #[trigger]
            al_lookup(pb_view(r@), k) == merge_rule(
                al_lookup(pb_view(mine@), k),
                al_lookup(pb_view(theirs@), k),
                cf,
            ),
        forall|j: int|
            0 <= j < pb_view(r@).len() ==> (key_in(
                pb_view(mine@),
                (#[trigger] pb_view(r@)[j]).0,
            ) || key_in(pb_view(theirs@), pb_view(r@)[j].0)),
{
    proof {
        lemma_bit_facts();
        lemma_template_lt_strict_order();
    }
    let ghost avp = pb_view(mine@);
    let ghost bvp = pb_view(theirs@);
    let mut pb: Vec<(TemplateString, u64)> = Vec::new();
    let n1 = mine.len();
    let mut i: usize = 0;
    proof {
        assert(avp.subrange(0, 0) =~= Seq::<(Seq<TokenModel>, u64)>::empty());
        assert(pb_view(pb@) =~= filter_rules(avp.subrange(0, 0), cf));
    }
    while i < n1
        invariant
            i <= n1,
            n1 == mine@.len(),
            avp == pb_view(mine@),
            pb_view(pb@) =~= filter_rules(avp.subrange(0, i as int), cf),
        decreases n1 - i,
    {
        let v = mine[i].1;
        let m = v & cf;
        let ghost pre = pb_view(pb@);
        proof {
            assert(avp[i as int] == (mine@[i as int].0@, v));
            assert(avp.subrange(0, i + 1) =~= avp.subrange(0, i as int).push(avp[i as int]));
            lemma_filter_rules_snoc(avp.subrange(0, i as int), avp[i as int], cf);
        }
        if m != 0 {
            let kd = mine[i].0.duplicate();
            pb.push((kd, m));
            proof {
                assert(pb_view(pb@) =~= pre.push((avp[i as int].0, m)));
                assert(pb_view(pb@) =~= filter_rules(avp.subrange(0, i + 1), cf));
            }
        } else {
            proof {
                assert(pb_view(pb@) =~= filter_rules(avp.subrange(0, i + 1), cf));
            }
        }
        i = i + 1;
    }
    proof {
        assert(avp.subrange(0, n1 as int) =~= avp);
        lemma_filter_rules_sorted(avp, template_lt(), cf);
        assert forall|k: Seq<TokenModel>| #[trigger] al_lookup(pb_view(pb@), k) == merge_rule(
            al_lookup(avp, k),
            al_lookup(bvp.subrange(0, 0), k),
            cf,
        ) by {
            lemma_filter_rules_lookup(avp, template_lt(), cf, k);
            assert(bvp.subrange(0, 0).len() == 0);
            assert(al_lookup(bvp.subrange(0, 0), k) is None);
        }
        assert forall|j: int| 0 <= j < pb_view(pb@).len() implies (key_in(
            avp,
            (#[trigger] pb_view(pb@)[j]).0,
        ) || key_in(bvp, pb_view(pb@)[j].0)) by {
            assert(key_in(avp, filter_rules(avp, cf)[j].0));
        }
    }
    let n2 = theirs.len();
    i = 0;
    while i < n2
        invariant
            i <= n2,
            n2 == theirs@.len(),
            avp == pb_view(mine@),
            bvp == pb_view(theirs@),
            al_sorted(bvp, template_lt()),
            al_sorted(pb_view(pb@), template_lt()),
            forall|k: Seq<TokenModel>| #[trigger]
                al_lookup(pb_view(pb@), k) == merge_rule(
                    al_lookup(avp, k),
                    al_lookup(bvp.subrange(0, i as int), k),
                    cf,
                ),
            forall|j: int|
                0 <= j < pb_view(pb@).len() ==> (key_in(
                    avp,
                    (#[trigger] pb_view(pb@)[j]).0,
                ) || key_in(bvp, pb_view(pb@)[j].0)),
        decreases n2 - i,
    {
        let v = theirs[i].1;
        let m = v & cf;
        let ghost kb = bvp[i as int].0;
        let ghost pre = pb_view(pb@);
        proof {
            assert(bvp[i as int] == (theirs@[i as int].0@, v));
        }
        if m != 0 {
            pb_insert_or(&mut pb, &theirs[i].0, m);
            proof {
                lemma_template_lt_strict_order();
                lemma_merge_step(avp, bvp, pre, pb_view(pb@), i as int, cf, template_lt());
                assert forall|j: int| 0 <= j < pb_view(pb@).len() implies (key_in(
                    avp,
                    (#[trigger] pb_view(pb@)[j]).0,
                ) || key_in(bvp, pb_view(pb@)[j].0)) by {
                    if pb_view(pb@)[j].0 == kb {
                        assert(bvp[i as int].0 == kb);
                        assert(key_in(bvp, kb));
                    } else {
                        assert(key_in(pre, pb_view(pb@)[j].0) || pb_view(pb@)[j].0 == kb);
                        let q = choose|q: int|
                            0 <= q < pre.len() && (#[trigger] pre[q]).0 == pb_view(pb@)[j].0;
                        assert(key_in(avp, pre[q].0) || key_in(bvp, pre[q].0));
                    }
                }
            }
        } else {
            proof {
                lemma_template_lt_strict_order();
                lemma_merge_skip(avp, bvp, pre, i as int, cf, template_lt());
            }
        }
        i = i + 1;
    }
    proof {
        assert(bvp.subrange(0, n2 as int) =~= bvp);
    }
    pb
}

/// The composed port rules, built the same way as the path rules.
fn composed_np(mine: &Vec<(u64, u64)>, theirs: &Vec<(u64, u64)>, cn: u64) -> (r: Vec<(u64, u64)>)
    requires
        al_sorted(mine@, u64_lt()),
        al_sorted(theirs@, u64_lt()),
    ensures
        al_sorted(r@, u64_lt()),
        forall|k: u64| #[trigger]
            al_lookup(r@, k) == merge_rule(al_lookup(mine@, k), al_lookup(theirs@, k), cn),
{
    proof {
        lemma_bit_facts();
        lemma_u64_lt_strict_order();
    }
    let ghost avp = mine@;
    let ghost bvp = theirs@;
    let mut np: Vec<(u64, u64)> = Vec::new();
    let n1 = mine.len();
    let mut i: usize = 0;
    proof {
        assert(avp.subrange(0, 0) =~= Seq::<(u64, u64)>::empty());
        assert(np@ =~= filter_rules(avp.subrange(0, 0), cn));
    }
    while i < n1
        invariant
            i <= n1,
            n1 == mine@.len(),
            avp == mine@,
            np@ =~= filter_rules(avp.subrange(0, i as int), cn),
        decreases n1 - i,
    {
        let (port, v) = mine[i];
        let m = v & cn;
        proof {
            assert(avp[i as int] == (port, v));
            assert(avp.subrange(0, i + 1) =~= avp.subrange(0, i as int).push(avp[i as int]));
            lemma_filter_rules_snoc(avp.subrange(0, i as int), avp[i as int], cn);
        }
        if m != 0 {
            np.push((port, m));
        }
        proof {
            assert(np@ =~= filter_rules(avp.subrange(0, i + 1), cn));
        }
        i = i + 1;
    }
    proof {
        assert(avp.subrange(0, n1 as int) =~= avp);
        lemma_filter_rules_sorted(avp, u64_lt(), cn);
        assert forall|k: u64| #[trigger] al_lookup(np@, k) == merge_rule(
            al_lookup(avp, k),
            al_lookup(bvp.subrange(0, 0), k),
            cn,
        ) by {
            lemma_filter_rules_lookup(avp, u64_lt(), cn, k);
            assert(bvp.subrange(0, 0).len() == 0);
            assert(al_lookup(bvp.subrange(0, 0), k) is None);
        }
    }
    let n2 = theirs.len();
    i = 0;
    while i < n2
        invariant
            i <= n2,
            n2 == theirs@.len(),
            avp == mine@,
            bvp == theirs@,
            al_sorted(bvp, u64_lt()),
            al_sorted(np@, u64_lt()),
            forall|k: u64| #[trigger]
                al_lookup(np@, k) == merge_rule(
                    al_lookup(avp, k),
                    al_lookup(bvp.subrange(0, i as int), k),
                    cn,
                ),
        decreases n2 - i,
    {
        let (port, v) = theirs[i];
        let m = v & cn;
        let ghost pre = np@;
        proof {
            assert(bvp[i as int] == (port, v));
        }
        if m != 0 {
            np_insert_or(&mut np, port, m);
            proof {
                lemma_u64_lt_strict_order();
                lemma_merge_step(avp, bvp, pre, np@, i as int, cn, u64_lt());
            }
        } else {
            proof {
                lemma_u64_lt_strict_order();
                lemma_merge_skip(avp, bvp, pre, i as int, cn, u64_lt());
            }
        }
        i = i + 1;
    }
    proof {
        assert(bvp.subrange(0, n2 as int) =~= bvp);
    }
    np
}

/// Unions every binding of `other` into `vars`.
fn absorb_vars(vars: &mut Variables, other: &Variables)
    requires
        old(vars).wf(),
        other.wf(),
    ensures
        final(vars).wf(),
        forall|k: Seq<char>| #[trigger]
            al_lookup(final(vars)@, k) is Some <==> (al_lookup(old(vars)@, k) is Some || al_lookup(
                other@,
                k,
            ) is Some),
        forall|k: Seq<char>|
            al_lookup(final(vars)@, k) is Some ==> union_opt_members(
                #[trigger] al_lookup(final(vars)@, k)->0,
                al_lookup(old(vars)@, k),
                al_lookup(other@, k),
            ),
{
    let ghost av = old(vars)@;
    let ghost bvv = other@;
    let oe = other.iter();
    let n5 = oe.len();
    let mut i: usize = 0;
    proof {
        assert(crate::variable::entries_view(oe@).len() == oe@.len());
        assert(bvv.subrange(0, 0).len() == 0);
        assert forall|k: Seq<char>| #[trigger] al_lookup(vars@, k) is Some <==> (al_lookup(
            av,
            k,
        ) is Some || al_lookup(bvv.subrange(0, 0), k) is Some) by {
            assert(al_lookup(bvv.subrange(0, 0), k) is None);
        }
        assert forall|k: Seq<char>| al_lookup(vars@, k) is Some implies union_opt_members(
            #[trigger] al_lookup(vars@, k)->0,
            al_lookup(av, k),
            al_lookup(bvv.subrange(0, 0), k),
        ) by {
            assert(al_lookup(bvv.subrange(0, 0), k) is None);
            assert(al_lookup(vars@, k) == al_lookup(av, k));
        }
    }
    while i < n5
        invariant
            i <= n5,
            n5 == oe@.len(),
            crate::variable::entries_view(oe@) == bvv,
            bvv.len() == n5,
            av == old(vars)@,
            bvv == other@,
            other.wf(),
            vars.wf(),
            forall|k: Seq<char>| #[trigger]
                al_lookup(vars@, k) is Some <==> (al_lookup(av, k) is Some || al_lookup(
                    bvv.subrange(0, i as int),
                    k,
                ) is Some),
            forall|k: Seq<char>|
                al_lookup(vars@, k) is Some ==> union_opt_members(
                    #[trigger] al_lookup(vars@, k)->0,
                    al_lookup(av, k),
                    al_lookup(bvv.subrange(0, i as int), k),
                ),
        decreases n5 - i,
    {
        let ghost kb = bvv[i as int].0;
        let ghost prev = vars@;
        proof {
            crate::strutil::lemma_char_seq_lt_strict_order();
            assert(bvv[i as int] == (oe@[i as int].0@, oe@[i as int].1@));
            assert(valid_name(kb));
            assert(bvv.subrange(0, i + 1) =~= bvv.subrange(0, i as int).push(bvv[i as int]));
            assert forall|q: int| 0 <= q < i implies (#[trigger] bvv.subrange(0, i as int)[q].0)
                != kb by {
                assert(bvv.subrange(0, i as int)[q] == bvv[q]);
                assert(char_seq_lt()(bvv[q].0, bvv[i as int].0));
                assert(!char_seq_lt()(bvv[q].0, bvv[q].0));
            }
            lemma_al_none_when_absent(bvv.subrange(0, i as int), kb);
        }
        let nm = oe[i].0.duplicate();
        vars.extend_set(nm, &oe[i].1);
        proof {
            assert forall|k: Seq<char>| #[trigger] al_lookup(vars@, k) is Some <==> (al_lookup(
                av,
                k,
            ) is Some || al_lookup(bvv.subrange(0, i + 1), k) is Some) by {
                lemma_al_lookup_snoc(bvv.subrange(0, i as int), bvv[i as int], k);
                if k != kb {
                    assert(al_lookup(vars@, k) == al_lookup(prev, k));
                }
            }
            assert forall|k: Seq<char>| al_lookup(vars@, k) is Some implies union_opt_members(
                #[trigger] al_lookup(vars@, k)->0,
                al_lookup(av, k),
                al_lookup(bvv.subrange(0, i + 1), k),
            ) by {
                lemma_al_lookup_snoc(bvv.subrange(0, i as int), bvv[i as int], k);
                if k == kb {
                    assert(crate::variable::merged_members(
                        al_lookup(vars@, kb)->0,
                        al_lookup(prev, kb),
                        oe@[i as int].1@,
                    ));
                    assert(al_lookup(bvv.subrange(0, i + 1), kb) == Some(bvv[i as int].1));
                    assert(al_lookup(bvv.subrange(0, i as int), kb) is None);
                    let cs = al_lookup(vars@, kb)->0;
                    assert forall|s: Seq<char>| #[trigger] cs.contains(s) == ((al_lookup(
                        av,
                        kb,
                    ) is Some && al_lookup(av, kb)->0.contains(s)) || (al_lookup(
                        bvv.subrange(0, i + 1),
                        kb,
                    ) is Some && al_lookup(bvv.subrange(0, i + 1), kb)->0.contains(s))) by {
                        assert(cs.contains(s) == ((al_lookup(prev, kb) is Some && al_lookup(
                            prev,
                            kb,
                        )->0.contains(s)) || oe@[i as int].1@.contains(s)));
                        if al_lookup(prev, kb) is Some {
                            assert(union_opt_members(
                                al_lookup(prev, kb)->0,
                                al_lookup(av, kb),
                                al_lookup(bvv.subrange(0, i as int), kb),
                            ));
                            assert(al_lookup(prev, kb)->0.contains(s) == (al_lookup(av, kb)
                                is Some && al_lookup(av, kb)->0.contains(s)));
                        }
                    }
                } else {
                    assert(al_lookup(vars@, k) == al_lookup(prev, k));
                    if al_lookup(prev, k) is Some {
                        assert(union_opt_members(
                            al_lookup(prev, k)->0,
                            al_lookup(av, k),
                            al_lookup(bvv.subrange(0, i as int), k),
                        ));
                    }
                }
            }
        }
        i = i + 1;
    }
    proof {
        assert(bvv.subrange(0, n5 as int) =~= bvv);
    }
}


/// Commutativity: composing in either order yields the same policy unit.
/// Stated over any two results meeting the composition contract.
pub proof fn lemma_compose_commutative(a: ConfigModel, b: ConfigModel, c1: ConfigModel, c2: ConfigModel)
    requires
        wf_model(a),
        wf_model(b),
        wf_model(c1),
        wf_model(c2),
        compose_post(a, b, c1),
        compose_post(b, a, c2),
    ensures
        c1.handled_fs == c2.handled_fs,
        c1.handled_net == c2.handled_net,
        c1.scoped == c2.scoped,
        c1.pb =~= c2.pb,
        c1.np =~= c2.np,
        c1.vars =~= c2.vars,
{
    lemma_template_lt_strict_order();
    lemma_u64_lt_strict_order();
    crate::strutil::lemma_char_seq_lt_strict_order();
    let hf1 = a.handled_fs;
    let hf2 = b.handled_fs;
    assert(hf1 & hf2 == hf2 & hf1) by (bit_vector);
    let hn1 = a.handled_net;
    let hn2 = b.handled_net;
    assert(hn1 & hn2 == hn2 & hn1) by (bit_vector);
    let hs1 = a.scoped;
    let hs2 = b.scoped;
    assert(hs1 & hs2 == hs2 & hs1) by (bit_vector);
    assert forall|k: Seq<TokenModel>| #[trigger] al_lookup(c1.pb, k) == al_lookup(c2.pb, k) by {
        let xa = opt_bits(al_lookup(a.pb, k));
        let xb = opt_bits(al_lookup(b.pb, k));
        assert((xa | xb) == (xb | xa)) by (bit_vector);
    }
    lemma_al_ext(c1.pb, c2.pb, template_lt());
    assert forall|k: u64| #[trigger] al_lookup(c1.np, k) == al_lookup(c2.np, k) by {
        let xa = opt_bits(al_lookup(a.np, k));
        let xb = opt_bits(al_lookup(b.np, k));
        assert((xa | xb) == (xb | xa)) by (bit_vector);
    }
    lemma_al_ext(c1.np, c2.np, u64_lt());
    assert forall|k: Seq<char>| #[trigger] al_lookup(c1.vars, k) == al_lookup(c2.vars, k) by {
        if al_lookup(c1.vars, k) is Some {
            assert(al_lookup(c2.vars, k) is Some);
            let v1 = al_lookup(c1.vars, k)->0;
            let v2 = al_lookup(c2.vars, k)->0;
            assert(union_opt_members(v1, al_lookup(a.vars, k), al_lookup(b.vars, k)));
            assert(union_opt_members(v2, al_lookup(b.vars, k), al_lookup(a.vars, k)));
            lemma_al_lookup_index(c1.vars, k);
            let i1 = choose|i: int|
                0 <= i < c1.vars.len() && #[trigger] c1.vars[i].0 == k && c1.vars[i].1 == v1;
            assert(el_sorted(v1, char_seq_lt()));
            lemma_al_lookup_index(c2.vars, k);
            let i2 = choose|i: int|
                0 <= i < c2.vars.len() && #[trigger] c2.vars[i].0 == k && c2.vars[i].1 == v2;
            assert(el_sorted(v2, char_seq_lt()));
            assert forall|s: Seq<char>| v1.contains(s) == #[trigger] v2.contains(s) by {
                assert(v1.contains(s) == ((al_lookup(a.vars, k) is Some && al_lookup(
                    a.vars,
                    k,
                )->0.contains(s)) || (al_lookup(b.vars, k) is Some && al_lookup(
                    b.vars,
                    k,
                )->0.contains(s))));
                assert(v2.contains(s) == ((al_lookup(b.vars, k) is Some && al_lookup(
                    b.vars,
                    k,
                )->0.contains(s)) || (al_lookup(a.vars, k) is Some && al_lookup(
                    a.vars,
                    k,
                )->0.contains(s))));
            }
            lemma_el_ext(v1, v2, char_seq_lt());
            assert(v1 == v2);
        } else {
            assert(al_lookup(c2.vars, k) is None);
        }
    }
    lemma_al_ext(c1.vars, c2.vars, char_seq_lt());
}

/// Idempotence: composing a policy unit with itself yields it unchanged.
pub proof fn lemma_compose_idempotent(a: ConfigModel, c: ConfigModel)
    requires
        wf_model(a),
        wf_model(c),
        compose_post(a, a, c),
    ensures
        c.handled_fs == a.handled_fs,
        c.handled_net == a.handled_net,
        c.scoped == a.scoped,
        c.pb =~= a.pb,
        c.np =~= a.np,
        c.vars =~= a.vars,
{
    lemma_bit_facts();
    lemma_template_lt_strict_order();
    lemma_u64_lt_strict_order();
    crate::strutil::lemma_char_seq_lt_strict_order();
    let hf = a.handled_fs;
    assert(hf & hf == hf) by (bit_vector);
    let hn = a.handled_net;
    assert(hn & hn == hn) by (bit_vector);
    let hs = a.scoped;
    assert(hs & hs == hs) by (bit_vector);
    assert forall|k: Seq<TokenModel>| #[trigger] al_lookup(c.pb, k) == al_lookup(a.pb, k) by {
        if al_lookup(a.pb, k) is Some {
            let v = al_lookup(a.pb, k)->0;
            lemma_al_lookup_index(a.pb, k);
            let i = choose|i: int|
                0 <= i < a.pb.len() && #[trigger] a.pb[i].0 == k && a.pb[i].1 == v;
            assert(v != 0 && v & hf == v);
            assert((v | v) & (hf & hf) == v);
        } else {
            assert((0u64 | 0u64) & (hf & hf) == 0) by (bit_vector);
        }
    }
    lemma_al_ext(c.pb, a.pb, template_lt());
    assert forall|k: u64| #[trigger] al_lookup(c.np, k) == al_lookup(a.np, k) by {
        if al_lookup(a.np, k) is Some {
            let v = al_lookup(a.np, k)->0;
            lemma_al_lookup_index(a.np, k);
            let i = choose|i: int|
                0 <= i < a.np.len() && #[trigger] a.np[i].0 == k && a.np[i].1 == v;
            assert(v != 0 && v & hn == v);
            assert((v | v) & (hn & hn) == v);
        } else {
            assert((0u64 | 0u64) & (hn & hn) == 0) by (bit_vector);
        }
    }
    lemma_al_ext(c.np, a.np, u64_lt());
    assert forall|k: Seq<char>| #[trigger] al_lookup(c.vars, k) == al_lookup(a.vars, k) by {
        if al_lookup(c.vars, k) is Some {
            assert(al_lookup(a.vars, k) is Some);
            let v1 = al_lookup(c.vars, k)->0;
            let v2 = al_lookup(a.vars, k)->0;
            assert(union_opt_members(v1, al_lookup(a.vars, k), al_lookup(a.vars, k)));
            lemma_al_lookup_index(c.vars, k);
            let i1 = choose|i: int|
                0 <= i < c.vars.len() && #[trigger] c.vars[i].0 == k && c.vars[i].1 == v1;
            assert(el_sorted(v1, char_seq_lt()));
            lemma_al_lookup_index(a.vars, k);
            let i2 = choose|i: int|
                0 <= i < a.vars.len() && #[trigger] a.vars[i].0 == k && a.vars[i].1 == v2;
            assert(el_sorted(v2, char_seq_lt()));
            assert forall|s: Seq<char>| v1.contains(s) == #[trigger] v2.contains(s) by {
                assert(v1.contains(s) == ((al_lookup(a.vars, k) is Some && al_lookup(
                    a.vars,
                    k,
                )->0.contains(s)) || (al_lookup(a.vars, k) is Some && al_lookup(
                    a.vars,
                    k,
                )->0.contains(s))));
            }
            lemma_el_ext(v1, v2, char_seq_lt());
            assert(v1 == v2);
        } else {
            assert(al_lookup(a.vars, k) is None);
        }
    }
    lemma_al_ext(c.vars, a.vars, char_seq_lt());
}

/// Intersection safety: every rule of a composition grants only rights that
/// both operands declared handled in that rule's domain.
pub proof fn lemma_compose_intersection_safe(a: ConfigModel, b: ConfigModel, c: ConfigModel)
    requires
        compose_post(a, b, c),
    ensures
        forall|k: Seq<TokenModel>|
            #[trigger] al_lookup(c.pb, k) is Some ==> al_lookup(c.pb, k)->0 & a.handled_fs
                == al_lookup(c.pb, k)->0 && al_lookup(c.pb, k)->0 & b.handled_fs == al_lookup(
                c.pb,
                k,
            )->0,
        forall|k: u64|
            #[trigger] al_lookup(c.np, k) is Some ==> al_lookup(c.np, k)->0 & a.handled_net
                == al_lookup(c.np, k)->0 && al_lookup(c.np, k)->0 & b.handled_net == al_lookup(
                c.np,
                k,
            )->0,
{
    lemma_bit_facts();
    assert forall|k: Seq<TokenModel>| #[trigger] al_lookup(c.pb, k) is Some implies al_lookup(
        c.pb,
        k,
    )->0 & a.handled_fs == al_lookup(c.pb, k)->0 && al_lookup(c.pb, k)->0 & b.handled_fs
        == al_lookup(c.pb, k)->0 by {
        let x = opt_bits(al_lookup(a.pb, k));
        let y = opt_bits(al_lookup(b.pb, k));
        assert(al_lookup(c.pb, k)->0 == (x | y) & (a.handled_fs & b.handled_fs));
        assert((((x | y) & (a.handled_fs & b.handled_fs)) & a.handled_fs) == ((x | y) & (
        a.handled_fs & b.handled_fs)));
        assert((((x | y) & (a.handled_fs & b.handled_fs)) & b.handled_fs) == ((x | y) & (
        a.handled_fs & b.handled_fs)));
    }
    assert forall|k: u64| #[trigger] al_lookup(c.np, k) is Some implies al_lookup(c.np, k)->0
        & a.handled_net == al_lookup(c.np, k)->0 && al_lookup(c.np, k)->0 & b.handled_net
        == al_lookup(c.np, k)->0 by {
        let x = opt_bits(al_lookup(a.np, k));
        let y = opt_bits(al_lookup(b.np, k));
        assert(al_lookup(c.np, k)->0 == (x | y) & (a.handled_net & b.handled_net));
        assert((((x | y) & (a.handled_net & b.handled_net)) & a.handled_net) == ((x | y) & (
        a.handled_net & b.handled_net)));
        assert((((x | y) & (a.handled_net & b.handled_net)) & b.handled_net) == ((x | y) & (
        a.handled_net & b.handled_net)));
    }
}

} // verus!
