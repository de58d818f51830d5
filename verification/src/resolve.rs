//! The resolver: expands a composed policy's templated path rules into
//! concrete, normalized paths.

use vstd::prelude::*;
use crate::assoc::{
    al_lookup, al_sorted, lemma_al_ext, lemma_al_index_lookup, lemma_al_insert,
    lemma_al_none_when_absent, lemma_al_update,
};
use crate::config::{Config, ConfigModel};
use crate::expand::{spec_expansion, VecStringIterator};
use crate::parser::TokenModel;
use crate::strutil::{char_seq_lt, lemma_char_seq_lt_strict_order, seq_char_lt, str_eq, str_lt};
use crate::variable::{
    first_unbound, sets_view, strings_view, token_set, ResolveError,
};

verus! {

/// Closes the segment being read: empty segments vanish, a `.` segment
/// survives only as the first segment of a relative path, anything else is
/// kept.
pub open spec fn close_seg(cur: Seq<char>, first: bool) -> Seq<Seq<char>> {
    if cur.len() == 0 {
        Seq::empty()
    } else if cur == "."@ {
        if first {
            seq![cur]
        } else {
            Seq::empty()
        }
    } else {
        seq![cur]
    }
}

/// The kept segments of the path from position `i` on: separators collapse,
/// `.` segments vanish (but for a leading one), `..` stays untouched.
pub open spec fn norm_from(s: Seq<char>, i: int, cur: Seq<char>, first: bool) -> Seq<Seq<char>>
    decreases s.len() - i,
{
    if i < 0 || i >= s.len() {
        close_seg(cur, first)
    } else if s[i] == '/' {
        close_seg(cur, first) + norm_from(s, i + 1, Seq::empty(), first && cur.len() == 0)
    } else {
        norm_from(s, i + 1, cur.push(s[i]), first)
    }
}

/// The kept segments joined with single separators.
pub open spec fn join_slash(gs: Seq<Seq<char>>) -> Seq<char>
    decreases gs.len(),
{
    if gs.len() == 0 {
        Seq::empty()
    } else if gs.len() == 1 {
        gs[0]
    } else {
        gs[0] + "/"@ + join_slash(gs.drop_first())
    }
}

/// A path with `.` segments and duplicate separators collapsed; `..` is
/// deliberately left unresolved, and a leading `/` or `.` is kept.
pub open spec fn spec_normalize(s: Seq<char>) -> Seq<char> {
    if s.len() == 0 {
        Seq::empty()
    } else if s[0] == '/' {
        "/"@ + join_slash(norm_from(s, 0, Seq::empty(), false))
    } else {
        join_slash(norm_from(s, 0, Seq::empty(), true))
    }
}

proof fn lemma_join_snoc(gs: Seq<Seq<char>>, g: Seq<char>)
    ensures
        join_slash(gs.push(g)) =~= (if gs.len() == 0 {
            g
        } else {
            join_slash(gs) + "/"@ + g
        }),
    decreases gs.len(),
{
    if gs.len() == 0 {
        assert(gs.push(g)[0] == g);
        assert(gs.push(g).len() == 1);
    } else {
        assert(gs.push(g)[0] == gs[0]);
        assert(gs.push(g).drop_first() =~= gs.drop_first().push(g));
        lemma_join_snoc(gs.drop_first(), g);
        if gs.len() == 1 {
            assert(join_slash(gs.push(g)) =~= gs[0] + "/"@ + g);
            assert(join_slash(gs) == gs[0]);
        } else {
            assert(join_slash(gs.push(g)) =~= gs[0] + "/"@ + (join_slash(gs.drop_first()) + "/"@
                + g));
        }
    }
}

/// Normalizes one path string as [`spec_normalize`] describes.
pub fn normalize_path(s: &str) -> (r: String)
    ensures
        r@ == spec_normalize(s@),
{
    let n = s.unicode_len();
    if n == 0 {
        let r = String::new();
        return r;
    }
    let absolute = s.get_char(0) == '/';
    let ghost first0 = !absolute;
    let mut kept: Vec<String> = Vec::new();
    let mut first = !absolute;
    let mut seg_start: usize = 0;
    let mut i: usize = 0;
    proof {
        assert(s@.subrange(0, 0) =~= Seq::<char>::empty());
        assert(strings_view(kept@) =~= Seq::<Seq<char>>::empty());
        assert(strings_view(kept@) + norm_from(s@, 0, s@.subrange(0, 0), first) =~= norm_from(
            s@,
            0,
            Seq::empty(),
            first0,
        ));
    }
    while i < n
        invariant
            i <= n,
            n == s@.len(),
            seg_start <= i,
            strings_view(kept@) + norm_from(
                s@,
                i as int,
                s@.subrange(seg_start as int, i as int),
                first,
            ) =~= norm_from(s@, 0, Seq::empty(), first0),
        decreases n - i,
    {
        let c = s.get_char(i);
        let ghost pre_kept = strings_view(kept@);
        let ghost pre_cur = s@.subrange(seg_start as int, i as int);
        let ghost pre_first = first;
        if c == '/' {
            let keep_it = if seg_start == i {
                false
            } else if str_eq(s.substring_char(seg_start, i), ".") {
                first
            } else {
                true
            };
            let next_first = first && seg_start == i;
            if keep_it {
                kept.push(s.substring_char(seg_start, i).to_owned());
                first = false;
            } else {
                first = next_first;
            }
            seg_start = i + 1;
            proof {
                assert(close_seg(pre_cur, pre_first) =~= (if keep_it {
                    seq![pre_cur]
                } else {
                    Seq::<Seq<char>>::empty()
                }));
                assert(first == (pre_first && pre_cur.len() == 0));
                assert(strings_view(kept@) =~= pre_kept + close_seg(pre_cur, pre_first));
                assert(norm_from(s@, i as int, pre_cur, pre_first) == close_seg(
                    pre_cur,
                    pre_first,
                ) + norm_from(s@, i + 1, Seq::empty(), pre_first && pre_cur.len() == 0));
                assert(s@.subrange(i + 1, i + 1) =~= Seq::<char>::empty());
                assert(strings_view(kept@) + norm_from(s@, i + 1, s@.subrange(i + 1, i + 1), first)
                    =~= pre_kept + norm_from(s@, i as int, pre_cur, pre_first));
            }
        } else {
            proof {
                assert(s@.subrange(seg_start as int, i + 1) =~= pre_cur.push(s@[i as int]));
            }
        }
        i = i + 1;
    }
    let keep_it = if seg_start == n {
        false
    } else if str_eq(s.substring_char(seg_start, n), ".") {
        first
    } else {
        true
    };
    let ghost end_cur = s@.subrange(seg_start as int, n as int);
    let ghost end_first = first;
    let ghost pre_kept = strings_view(kept@);
    if keep_it {
        kept.push(s.substring_char(seg_start, n).to_owned());
    }
    proof {
        assert(close_seg(end_cur, end_first) =~= (if keep_it {
            seq![end_cur]
        } else {
            Seq::<Seq<char>>::empty()
        }));
        assert(norm_from(s@, n as int, end_cur, end_first) == close_seg(end_cur, end_first));
        assert(strings_view(kept@) =~= pre_kept + close_seg(end_cur, end_first));
        assert(strings_view(kept@) =~= norm_from(s@, 0, Seq::empty(), first0));
    }
    // Join the kept segments with single separators.
    let mut out = String::new();
    if absolute {
        out.append("/");
    }
    let ghost prefix = out@;
    let m = kept.len();
    let ghost gs = strings_view(kept@);
    let mut j: usize = 0;
    proof {
        assert(gs.subrange(0, 0) =~= Seq::<Seq<char>>::empty());
        assert(out@ =~= prefix + join_slash(gs.subrange(0, 0)));
    }
    while j < m
        invariant
            j <= m,
            m == kept@.len(),
            gs == strings_view(kept@),
            gs.len() == m,
            out@ =~= prefix + join_slash(gs.subrange(0, j as int)),
        decreases m - j,
    {
        if j > 0 {
            out.append("/");
        }
        out.append(kept[j].as_str());
        proof {
            assert(kept@[j as int]@ == gs[j as int]);
            assert(gs.subrange(0, j + 1) =~= gs.subrange(0, j as int).push(gs[j as int]));
            lemma_join_snoc(gs.subrange(0, j as int), gs[j as int]);
            assert(out@ =~= prefix + join_slash(gs.subrange(0, j + 1)));
        }
        j = j + 1;
    }
    proof {
        assert(gs.subrange(0, m as int) =~= gs);
        assert(out@ =~= spec_normalize(s@));
    }
    out
}

/// The model of a resolved-path vector.
pub open spec fn paths_view(v: Seq<(String, u64)>) -> Seq<(Seq<char>, u64)> {
    v.map_values(|e: (String, u64)| (e.0@, e.1))
}

/// Mathematical model of a resolved policy.
#[verifier::ext_equal]
pub struct ResolvedModel {
    pub handled_fs: u64,
    pub handled_net: u64,
    pub scoped: u64,
    pub paths: Seq<(Seq<char>, u64)>,
    pub np: Seq<(u64, u64)>,
}

/// A fully expanded policy: concrete normalized paths bound to filesystem
/// bit-sets, plus the untouched port rules.  The path map is deduplicated
/// and strictly sorted by plain character order of the normalized path (not
/// by path components, so `a!b` sorts before `a/b`); any fixed total order
/// serves determinism, and this one is the order the rest of the crate's
/// maps use.
#[derive(Clone, Debug, PartialEq, Eq)]
pub struct ResolvedConfig {
    pub handled_fs: u64,
    pub handled_net: u64,
    pub scoped: u64,
    pub rules_path_beneath: Vec<(String, u64)>,
    pub rules_net_port: Vec<(u64, u64)>,
}

impl View for ResolvedConfig {
    type V = ResolvedModel;

    open spec fn view(&self) -> ResolvedModel {
        ResolvedModel {
            handled_fs: self.handled_fs,
            handled_net: self.handled_net,
            scoped: self.scoped,
            paths: paths_view(self.rules_path_beneath@),
            np: self.rules_net_port@,
        }
    }
}

/// The per-token string sets of one rule's template.
pub open spec fn rule_sets(
    vars: Seq<(Seq<char>, Seq<Seq<char>>)>,
    toks: Seq<TokenModel>,
) -> Seq<Seq<Seq<char>>> {
    toks.map_values(|t: TokenModel| token_set(vars, t))
}

/// The rule's expansion contains a combination normalizing to `p`.
pub open spec fn rule_yields(
    vars: Seq<(Seq<char>, Seq<Seq<char>>)>,
    toks: Seq<TokenModel>,
    p: Seq<char>,
) -> bool {
    exists|j: int|
        0 <= j < spec_expansion(rule_sets(vars, toks)).len() && spec_normalize(
            #[trigger] spec_expansion(rule_sets(vars, toks))[j],
        ) == p
}

/// The union of the grants of every rule that yields `p`.
pub open spec fn path_bits(
    vars: Seq<(Seq<char>, Seq<Seq<char>>)>,
    pb: Seq<(Seq<TokenModel>, u64)>,
    p: Seq<char>,
) -> u64
    decreases pb.len(),
{
    if pb.len() == 0 {
        0
    } else {
        (if rule_yields(vars, pb[0].0, p) {
            pb[0].1
        } else {
            0
        }) | path_bits(vars, pb.drop_first(), p)
    }
}

/// The first rule (in map order) referencing an unbound name, and that name.
pub open spec fn rules_first_unbound(
    vars: Seq<(Seq<char>, Seq<Seq<char>>)>,
    pb: Seq<(Seq<TokenModel>, u64)>,
) -> Option<Seq<char>>
    decreases pb.len(),
{
    if pb.len() == 0 {
        None
    } else {
        match first_unbound(vars, pb[0].0) {
            Some(n) => Some(n),
            None => rules_first_unbound(vars, pb.drop_first()),
        }
    }
}

/// What a successful resolution must produce: handled sets and port rules
/// unchanged, and each normalized path bound to exactly the union of the
/// grants of the rules that expand to it, in a map strictly sorted by
/// character order.
pub open spec fn resolve_ok_post(c: ConfigModel, rm: ResolvedModel) -> bool {
    &&& rm.handled_fs == c.handled_fs
    &&& rm.handled_net == c.handled_net
    &&& rm.scoped == c.scoped
    &&& rm.np == c.np
    &&& al_sorted(rm.paths, char_seq_lt())
    &&& forall|p: Seq<char>|
        #[trigger] al_lookup(rm.paths, p) == (if path_bits(c.vars, c.pb, p) == 0 {
            None
        } else {
            Some(path_bits(c.vars, c.pb, p))
        })
}

proof fn lemma_path_bits_snoc(
    vars: Seq<(Seq<char>, Seq<Seq<char>>)>,
    pb: Seq<(Seq<TokenModel>, u64)>,
    e: (Seq<TokenModel>, u64),
    p: Seq<char>,
)
    ensures
        path_bits(vars, pb.push(e), p) == path_bits(vars, pb, p) | (if rule_yields(vars, e.0, p) {
            e.1
        } else {
            0
        }),
    decreases pb.len(),
{
    crate::strutil::lemma_char_seq_lt_strict_order();
    if pb.len() == 0 {
        assert(pb.push(e)[0] == e);
        assert(pb.push(e).drop_first() =~= Seq::<(Seq<TokenModel>, u64)>::empty());
        assert(path_bits(vars, pb.push(e).drop_first(), p) == 0);
        let y: u64 = if rule_yields(vars, e.0, p) {
            e.1
        } else {
            0
        };
        assert((y | 0) == (0u64 | y)) by (bit_vector);
    } else {
        assert(pb.push(e)[0] == pb[0]);
        assert(pb.push(e).drop_first() =~= pb.drop_first().push(e));
        lemma_path_bits_snoc(vars, pb.drop_first(), e, p);
        let x: u64 = if rule_yields(vars, pb[0].0, p) {
            pb[0].1
        } else {
            0
        };
        let r: u64 = path_bits(vars, pb.drop_first(), p);
        let y: u64 = if rule_yields(vars, e.0, p) {
            e.1
        } else {
            0
        };
        assert((x | (r | y)) == ((x | r) | y)) by (bit_vector);
    }
}

proof fn lemma_rules_first_unbound_snoc(
    vars: Seq<(Seq<char>, Seq<Seq<char>>)>,
    pb: Seq<(Seq<TokenModel>, u64)>,
    e: (Seq<TokenModel>, u64),
)
    ensures
        rules_first_unbound(vars, pb.push(e)) == (match rules_first_unbound(vars, pb) {
            Some(n) => Some(n),
            None => first_unbound(vars, e.0),
        }),
    decreases pb.len(),
{
    if pb.len() == 0 {
        assert(pb.push(e)[0] == e);
        assert(pb.push(e).drop_first() =~= Seq::<(Seq<TokenModel>, u64)>::empty());
        assert(rules_first_unbound(vars, pb.push(e).drop_first()) is None);
    } else {
        assert(pb.push(e)[0] == pb[0]);
        assert(pb.push(e).drop_first() =~= pb.drop_first().push(e));
        lemma_rules_first_unbound_snoc(vars, pb.drop_first(), e);
    }
}

/// Unions `m` into the path rule at `key`, inserting the rule if absent.
fn path_insert_or(rules: &mut Vec<(String, u64)>, key: String, m: u64)
    requires
        m != 0,
        al_sorted(paths_view(old(rules)@), char_seq_lt()),
    ensures
        al_sorted(paths_view(final(rules)@), char_seq_lt()),
        al_lookup(paths_view(final(rules)@), key@) == Some(
            crate::config::opt_bits(al_lookup(paths_view(old(rules)@), key@)) | m,
        ),
        forall|q: Seq<char>|
            q != key@ ==> al_lookup(paths_view(final(rules)@), q) == #[trigger] al_lookup(
                paths_view(old(rules)@),
                q,
            ),
{
    proof {
        lemma_char_seq_lt_strict_order();
    }
    let ghost lt = char_seq_lt();
    let n = rules.len();
    let mut p: usize = 0;
    while p < n && str_lt(rules[p].0.as_str(), key.as_str())
        invariant
            p <= n,
            n == rules@.len(),
            rules@ == old(rules)@,
            al_sorted(paths_view(rules@), lt),
            forall|j: int| 0 <= j < p ==> seq_char_lt(#[trigger] paths_view(rules@)[j].0, key@),
        decreases n - p,
    {
        proof {
            assert(paths_view(rules@)[p as int].0 == rules@[p as int].0@);
        }
        p = p + 1;
    }
    let ghost pre = paths_view(rules@);
    if p < n && str_eq(rules[p].0.as_str(), key.as_str()) {
        proof {
            assert(pre[p as int].0 == key@);
            lemma_al_index_lookup(pre, lt, p as int);
        }
        let (k0, v0) = rules.remove(p);
        rules.insert(p, (k0, v0 | m));
        proof {
            assert(paths_view(rules@) =~= pre.update(
                p as int,
                (key@, (pre[p as int].1 | m) as u64),
            ));
            lemma_al_update(pre, lt, p as int, (pre[p as int].1 | m) as u64);
        }
    } else {
        proof {
            assert(pre.len() == n);
            assert forall|j: int| p <= j < pre.len() implies lt(key@, #[trigger] pre[j].0) by {
                assert(p < n);
                assert(pre[p as int].0 == rules@[p as int].0@);
                assert(!seq_char_lt(pre[p as int].0, key@));
                assert(pre[p as int].0 != key@);
                crate::strutil::lemma_seq_char_lt_connex(pre[p as int].0, key@);
                assert(seq_char_lt(key@, pre[p as int].0));
                if j > p {
                    assert(lt(pre[p as int].0, pre[j].0));
                    crate::strutil::lemma_seq_char_lt_trans(key@, pre[p as int].0, pre[j].0);
                }
                assert(seq_char_lt(key@, pre[j].0));
            }
            assert forall|j: int| 0 <= j < pre.len() implies (#[trigger] pre[j].0) != key@ by {
                crate::strutil::lemma_seq_char_lt_irrefl(key@);
                if j < p {
                    assert(seq_char_lt(pre[j].0, key@));
                }
            }
            lemma_al_none_when_absent(pre, key@);
        }
        let ghost kv = key@;
        rules.insert(p, (key, m));
        proof {
            assert(paths_view(rules@) =~= pre.insert(p as int, (kv, m)));
            lemma_al_insert(pre, lt, p as int, kv, m);
            let mv = m;
            assert((0u64 | mv) == mv) by (bit_vector);
        }
    }
}

/// `v` once the first `k` combinations include one normalizing to `p`,
/// nothing before that.
pub open spec fn partial_yield_bits(exp: Seq<Seq<char>>, k: int, v: u64, p: Seq<char>) -> u64 {
    if exists|j: int| 0 <= j < k && spec_normalize(#[trigger] exp[j]) == p {
        v
    } else {
        0
    }
}

/// Copies a vector of port rules.
fn clone_ports(v: &Vec<(u64, u64)>) -> (r: Vec<(u64, u64)>)
    ensures
        r@ =~= v@,
{
    let n = v.len();
    let mut out: Vec<(u64, u64)> = Vec::new();
    let mut i: usize = 0;
    while i < n
        invariant
            i <= n,
            n == v@.len(),
            out@ =~= v@.subrange(0, i as int),
        decreases n - i,
    {
        out.push(v[i]);
        proof {
            assert(out@ =~= v@.subrange(0, i + 1));
        }
        i = i + 1;
    }
    proof {
        assert(v@.subrange(0, n as int) =~= v@);
    }
    out
}

impl Config {
    /// Expands every templated path rule against the variable table,
    /// normalizes the results, and unions access per normalized path.  Fails
    /// on the first rule that references an unbound name.
    pub fn resolve(&self) -> (r: Result<ResolvedConfig, ResolveError>)
        requires
            self.wf(),
        ensures
            r is Ok <==> rules_first_unbound(self@.vars, self@.pb) is None,
            r is Ok ==> resolve_ok_post(self@, r->Ok_0@),
            r is Err ==> match r->Err_0 {
                ResolveError::VariableNotFound(n) => Some(n@) == rules_first_unbound(
                    self@.vars,
                    self@.pb,
                ),
            },
    {
        proof {
            lemma_char_seq_lt_strict_order();
        }
        let ghost cv = self@;
        let mut paths: Vec<(String, u64)> = Vec::new();
        let n = self.rules_path_beneath.len();
        let mut i: usize = 0;
        proof {
            assert(cv.pb.skip(0) =~= cv.pb);
            assert(cv.pb.subrange(0, 0).len() == 0);
            assert(paths_view(paths@) =~= Seq::<(Seq<char>, u64)>::empty());
            assert forall|p: Seq<char>| #[trigger] al_lookup(paths_view(paths@), p) == (if
                path_bits(cv.vars, cv.pb.subrange(0, 0), p) == 0 {
                None::<u64>
            } else {
                Some(path_bits(cv.vars, cv.pb.subrange(0, 0), p))
            }) by {
                assert(al_lookup(paths_view(paths@), p) is None);
            }
        }
        while i < n
            invariant
                i <= n,
                n == self.rules_path_beneath@.len(),
                self.wf(),
                cv == self@,
                cv.pb.len() == n,
                rules_first_unbound(cv.vars, cv.pb) == rules_first_unbound(
                    cv.vars,
                    cv.pb.skip(i as int),
                ),
                al_sorted(paths_view(paths@), char_seq_lt()),
                forall|p: Seq<char>| #[trigger]
                    al_lookup(paths_view(paths@), p) == (if path_bits(
                        cv.vars,
                        cv.pb.subrange(0, i as int),
                        p,
                    ) == 0 {
                        None::<u64>
                    } else {
                        Some(path_bits(cv.vars, cv.pb.subrange(0, i as int), p))
                    }),
            decreases n - i,
        {
            let ghost toks = cv.pb[i as int].0;
            let v = self.rules_path_beneath[i].1;
            proof {
                assert(cv.pb[i as int] == (self.rules_path_beneath@[i as int].0@, v));
                assert(cv.pb.skip(i as int)[0] == cv.pb[i as int]);
                assert(cv.pb.skip(i as int).drop_first() =~= cv.pb.skip(i + 1));
                assert(self.variables.wf());
                assert(cv.pb[i as int].1 != 0);
            }
            let sets = match self.variables.resolve(&self.rules_path_beneath[i].0) {
                Ok(sets) => sets,
                Err(e) => {
                    proof {
                        match &e {
                            ResolveError::VariableNotFound(nm) => {
                                assert(first_unbound(cv.vars, toks) == Some(nm@));
                                assert(rules_first_unbound(cv.vars, cv.pb.skip(i as int)) == Some(
                                    nm@,
                                ));
                            },
                        }
                    }
                    return Err(e);
                },
            };
            let ghost exp = spec_expansion(rule_sets(cv.vars, toks));
            proof {
                assert(first_unbound(cv.vars, toks) is None);
                assert(sets_view(sets@) =~= rule_sets(cv.vars, toks)) by {
                    assert forall|j: int| 0 <= j < toks.len() implies sets_view(sets@)[j]
                        == rule_sets(cv.vars, toks)[j] by {
                        assert(sets_view(sets@)[j] == token_set(cv.vars, toks[j]));
                    }
                }
            }
            let mut it = VecStringIterator::new(&sets);
            let ghost mut k: int = 0;
            proof {
                assert(it.remaining() == spec_expansion(sets_view(sets@)));
                assert(sets_view(sets@) == rule_sets(cv.vars, toks));
                assert(exp.skip(0) =~= exp);
                assert(it.remaining() =~= exp.skip(0));
                assert forall|p: Seq<char>| #[trigger]
                    al_lookup(paths_view(paths@), p) == (if (path_bits(
                    cv.vars,
                    cv.pb.subrange(0, i as int),
                    p,
                ) | partial_yield_bits(exp, 0, v, p)) == 0 {
                    None::<u64>
                } else {
                    Some(
                        path_bits(cv.vars, cv.pb.subrange(0, i as int), p) | partial_yield_bits(
                            exp,
                            0,
                            v,
                            p,
                        ),
                    )
                }) by {
                    assert(partial_yield_bits(exp, 0, v, p) == 0);
                    let xb = path_bits(cv.vars, cv.pb.subrange(0, i as int), p);
                    assert((xb | 0u64) == xb) by (bit_vector);
                }
            }
            loop
                invariant_except_break
                    it.wf(),
                    0 <= k <= exp.len(),
                    it.remaining() =~= exp.skip(k),
                    v != 0,
                    al_sorted(paths_view(paths@), char_seq_lt()),
                    forall|p: Seq<char>| #[trigger]
                        al_lookup(paths_view(paths@), p) == (if (path_bits(
                            cv.vars,
                            cv.pb.subrange(0, i as int),
                            p,
                        ) | partial_yield_bits(exp, k, v, p)) == 0 {
                            None::<u64>
                        } else {
                            Some(
                                path_bits(cv.vars, cv.pb.subrange(0, i as int), p)
                                    | partial_yield_bits(exp, k, v, p),
                            )
                        }),
                ensures
                    0 <= k <= exp.len(),
                    exp.skip(k).len() == 0,
                    al_sorted(paths_view(paths@), char_seq_lt()),
                    forall|p: Seq<char>| #[trigger]
                        al_lookup(paths_view(paths@), p) == (if (path_bits(
                            cv.vars,
                            cv.pb.subrange(0, i as int),
                            p,
                        ) | partial_yield_bits(exp, k, v, p)) == 0 {
                            None::<u64>
                        } else {
                            Some(
                                path_bits(cv.vars, cv.pb.subrange(0, i as int), p)
                                    | partial_yield_bits(exp, k, v, p),
                            )
                        }),
                decreases exp.len() - k,
            {
                match it.next() {
                    None => {
                        break;
                    },
                    Some(sname) => {
                        proof {
                            assert(exp.skip(k).len() > 0);
                            assert(sname@ == exp.skip(k)[0]);
                            assert(exp.skip(k)[0] == exp[k]);
                        }
                        let normd = normalize_path(sname.as_str());
                        let ghost p0 = spec_normalize(exp[k]);
                        let ghost pre = paths_view(paths@);
                        proof {
                            assert(normd@ == p0);
                        }
                        path_insert_or(&mut paths, normd, v);
                        proof {
                            assert(exp.skip(k).drop_first() =~= exp.skip(k + 1));
                            let xb = path_bits(cv.vars, cv.pb.subrange(0, i as int), p0);
                            let vv = v;
                            assert forall|p: Seq<char>| #[trigger]
                                al_lookup(paths_view(paths@), p) == (if (path_bits(
                                cv.vars,
                                cv.pb.subrange(0, i as int),
                                p,
                            ) | partial_yield_bits(exp, k + 1, v, p)) == 0 {
                                None::<u64>
                            } else {
                                Some(
                                    path_bits(cv.vars, cv.pb.subrange(0, i as int), p)
                                        | partial_yield_bits(exp, k + 1, v, p),
                                )
                            }) by {
                                if p == p0 {
                                    assert(spec_normalize(exp[k]) == p);
                                    assert(partial_yield_bits(exp, k + 1, v, p) == v);
                                    assert(al_lookup(paths_view(paths@), p0) == Some(
                                        crate::config::opt_bits(al_lookup(pre, p0)) | v,
                                    ));
                                    let yk = partial_yield_bits(exp, k, v, p0);
                                    assert(yk == 0 || yk == v);
                                    if (xb | yk) == 0 {
                                        assert(al_lookup(pre, p0) is None);
                                        assert((xb | yk) == 0 ==> xb == 0) by (bit_vector);
                                        assert((0u64 | vv) == (xb | vv)) by (bit_vector)
                                            requires
                                                xb == 0,
                                        ;
                                    } else {
                                        assert(al_lookup(pre, p0) == Some(xb | yk));
                                        if yk == 0 {
                                            assert(((xb | 0) | vv) == (xb | vv)) by (bit_vector);
                                        } else {
                                            assert(((xb | vv) | vv) == (xb | vv)) by (bit_vector);
                                        }
                                    }
                                    assert((xb | vv) != 0) by (bit_vector)
                                        requires
                                            vv != 0,
                                    ;
                                } else {
                                    assert(al_lookup(paths_view(paths@), p) == al_lookup(pre, p));
                                    assert(partial_yield_bits(exp, k + 1, v, p)
                                        == partial_yield_bits(exp, k, v, p)) by {
                                        if exists|j: int|
                                            0 <= j < k + 1 && spec_normalize(#[trigger] exp[j])
                                                == p {
                                            let j = choose|j: int|
                                                0 <= j < k + 1 && spec_normalize(
                                                    #[trigger] exp[j],
                                                ) == p;
                                            assert(j < k);
                                        }
                                    }
                                }
                            }
                            k = k + 1;
                        }
                    },
                }
            }
            proof {
                assert(k == exp.len());
                assert(cv.pb.subrange(0, i + 1) =~= cv.pb.subrange(0, i as int).push(
                    cv.pb[i as int],
                ));
                assert forall|p: Seq<char>| #[trigger]
                    al_lookup(paths_view(paths@), p) == (if path_bits(
                    cv.vars,
                    cv.pb.subrange(0, i + 1),
                    p,
                ) == 0 {
                    None::<u64>
                } else {
                    Some(path_bits(cv.vars, cv.pb.subrange(0, i + 1), p))
                }) by {
                    lemma_path_bits_snoc(cv.vars, cv.pb.subrange(0, i as int), cv.pb[i as int], p);
                    assert(partial_yield_bits(exp, k, v, p) == (if rule_yields(cv.vars, toks, p) {
                        v
                    } else {
                        0
                    }));
                }
            }
            i = i + 1;
        }
        proof {
            assert(cv.pb.skip(n as int).len() == 0);
            assert(rules_first_unbound(cv.vars, cv.pb) is None);
            assert(cv.pb.subrange(0, n as int) =~= cv.pb);
        }
        let ports = clone_ports(&self.rules_net_port);
        let r = ResolvedConfig {
            handled_fs: self.handled_fs,
            handled_net: self.handled_net,
            scoped: self.scoped,
            rules_path_beneath: paths,
            rules_net_port: ports,
        };
        proof {
            assert(r@.np =~= cv.np);
        }
        Ok(r)
    }
}

/// Determinism: any two resolutions of equal policy units are equal, so the
/// resolution of a composition does not depend on the order the operands
/// were composed in (with [`lemma_compose_commutative`]).
pub proof fn lemma_resolve_deterministic(c: ConfigModel, r1: ResolvedModel, r2: ResolvedModel)
    requires
        resolve_ok_post(c, r1),
        resolve_ok_post(c, r2),
    ensures
        r1.handled_fs == r2.handled_fs,
        r1.handled_net == r2.handled_net,
        r1.scoped == r2.scoped,
        r1.np == r2.np,
        r1.paths =~= r2.paths,
{
    lemma_char_seq_lt_strict_order();
    assert forall|p: Seq<char>| #[trigger] al_lookup(r1.paths, p) == al_lookup(r2.paths, p) by {}
    lemma_al_ext(r1.paths, r2.paths, char_seq_lt());
}

/// Determinism across composition order: composing two policy units in
/// either order and resolving yields the same resolved policy.
pub proof fn lemma_compose_resolve_deterministic(
    a: ConfigModel,
    b: ConfigModel,
    c1: ConfigModel,
    c2: ConfigModel,
    r1: ResolvedModel,
    r2: ResolvedModel,
)
    requires
        crate::config::wf_model(a),
        crate::config::wf_model(b),
        crate::config::wf_model(c1),
        crate::config::wf_model(c2),
        crate::config::compose_post(a, b, c1),
        crate::config::compose_post(b, a, c2),
        resolve_ok_post(c1, r1),
        resolve_ok_post(c2, r2),
    ensures
        r1.handled_fs == r2.handled_fs,
        r1.handled_net == r2.handled_net,
        r1.scoped == r2.scoped,
        r1.np == r2.np,
        r1.paths =~= r2.paths,
{
    crate::config::lemma_compose_commutative(a, b, c1, c2);
    assert(c1.pb == c2.pb);
    assert(c1.np == c2.np);
    assert(c1.vars == c2.vars);
    assert(resolve_ok_post(c1, r2)) by {
        assert forall|p: Seq<char>| #[trigger] al_lookup(r2.paths, p) == (if path_bits(
            c1.vars,
            c1.pb,
            p,
        ) == 0 {
            None::<u64>
        } else {
            Some(path_bits(c1.vars, c1.pb, p))
        }) by {
            assert(path_bits(c1.vars, c1.pb, p) == path_bits(c2.vars, c2.pb, p));
        }
    }
    lemma_resolve_deterministic(c1, r1, r2);
}

} // verus!
