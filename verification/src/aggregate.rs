//! Directory aggregation: which files count as fragments, and how per-file
//! parse outcomes fold into one composed policy.  Reading the directory
//! itself is the caller's concern; this module holds the decisions.

use vstd::prelude::*;
use crate::config::{compose_post, Config};
use crate::fragment::ConfigFormat;
use crate::strutil::str_eq;

verus! {

/// Why a directory yields no policy.
#[derive(Clone, Debug, PartialEq, Eq)]
pub enum AggregateError {
    /// Every failing file, in input order, with its error message.
    ParseFiles(Vec<(String, String)>),
    /// No file matched the chosen format at all.
    NoConfigFile,
}

/// A file name that counts as a fragment of the given extension: not hidden
/// (no leading `.`) and ending in `.` followed by the extension.
pub open spec fn is_fragment_name(nm: Seq<char>, ext: Seq<char>) -> bool {
    &&& nm.len() > ext.len() + 1
    &&& nm[0] != '.'
    &&& nm.subrange(nm.len() - ext.len() - 1, nm.len() as int) =~= seq!['.'] + ext
}

/// Decides whether a directory entry name is a fragment of this format.
pub fn matches_config_file(name: &str, format: &ConfigFormat) -> (r: bool)
    ensures
        r == is_fragment_name(
            name@,
            match format {
                ConfigFormat::Json => "json"@,
                ConfigFormat::Toml => "toml"@,
            },
        ),
{
    proof {
        reveal_strlit("json");
        reveal_strlit("toml");
        reveal_strlit(".");
    }
    let ext = format.extension();
    let ghost ev = ext@;
    let en = ext.unicode_len();
    proof {
        assert(en == 4);
    }
    let n = name.unicode_len();
    if n <= en + 1 {
        return false;
    }
    if name.get_char(0) == '.' {
        return false;
    }
    let tail = name.substring_char(n - en - 1, n);
    let mut dotted = String::new();
    dotted.append(".");
    dotted.append(ext);
    let r = str_eq(tail, dotted.as_str());
    proof {
        assert("."@ =~= seq!['.']);
        assert(dotted@ =~= seq!['.'] + ev);
        assert(tail@ == name@.subrange(n - en - 1, n as int));
    }
    r
}

/// The failing outcomes, in input order, as name and message pairs.
pub open spec fn failed_list(outs: Seq<(String, Result<Config, String>)>) -> Seq<
    (Seq<char>, Seq<char>),
>
    decreases outs.len(),
{
    if outs.len() == 0 {
        Seq::empty()
    } else {
        (match outs[0].1 {
            Ok(_) => Seq::empty(),
            Err(m) => seq![(outs[0].0@, m@)],
        }) + failed_list(outs.drop_first())
    }
}

/// How many outcomes parsed successfully.
pub open spec fn ok_count(outs: Seq<(String, Result<Config, String>)>) -> int
    decreases outs.len(),
{
    if outs.len() == 0 {
        0
    } else {
        (if outs[0].1 is Ok {
            1int
        } else {
            0int
        }) + ok_count(outs.drop_first())
    }
}

/// The parsed policies among the outcomes, in input order.
pub open spec fn oks_of(outs: Seq<(String, Result<Config, String>)>) -> Seq<
    crate::config::ConfigModel,
>
    decreases outs.len(),
{
    if outs.len() == 0 {
        Seq::empty()
    } else {
        (match outs[0].1 {
            Ok(c) => seq![c@],
            Err(_) => Seq::empty(),
        }) + oks_of(outs.drop_first())
    }
}

/// `out` is the left fold of composing the parts in order: the first part
/// alone, then each later part merged in by the composition contract.
pub open spec fn fold_post(parts: Seq<crate::config::ConfigModel>, out: crate::config::ConfigModel) -> bool
    decreases parts.len(),
{
    if parts.len() == 0 {
        false
    } else if parts.len() == 1 {
        out == parts[0]
    } else {
        exists|mid: crate::config::ConfigModel|
            fold_post(parts.drop_last(), mid) && #[trigger] crate::config::wf_model(mid)
                && compose_post(mid, parts.last(), out)
    }
}

proof fn lemma_oks_snoc(outs: Seq<(String, Result<Config, String>)>, e: (String, Result<Config, String>))
    ensures
        oks_of(outs.push(e)) =~= oks_of(outs) + (match e.1 {
            Ok(c) => seq![c@],
            Err(_) => Seq::<crate::config::ConfigModel>::empty(),
        }),
    decreases outs.len(),
{
    if outs.len() == 0 {
        assert(outs.push(e)[0] == e);
        assert(outs.push(e).drop_first() =~= Seq::<(String, Result<Config, String>)>::empty());
        assert(oks_of(outs.push(e).drop_first()) =~= Seq::<crate::config::ConfigModel>::empty());
    } else {
        assert(outs.push(e)[0] == outs[0]);
        assert(outs.push(e).drop_first() =~= outs.drop_first().push(e));
        lemma_oks_snoc(outs.drop_first(), e);
    }
}

#[verifier::spinoff_prover]
#[verifier::rlimit(50)]
proof fn lemma_fold_snoc(
    prefix: Seq<crate::config::ConfigModel>,
    c: crate::config::ConfigModel,
    out: crate::config::ConfigModel,
    mid: crate::config::ConfigModel,
)
    requires
        prefix.len() > 0,
        fold_post(prefix, mid),
        crate::config::wf_model(mid),
        compose_post(mid, c, out),
    ensures
        fold_post(prefix.push(c), out),
{
    let parts = prefix.push(c);
    assert(parts.drop_last() =~= prefix);
    assert(parts.last() == c);
    assert(parts.len() >= 2);
    assert(fold_post(parts.drop_last(), mid));
    assert(compose_post(mid, parts.last(), out));
}

/// The model of collected error pairs.
pub open spec fn pairs_view(v: Seq<(String, String)>) -> Seq<(Seq<char>, Seq<char>)> {
    v.map_values(|e: (String, String)| (e.0@, e.1@))
}

/// Folds per-file outcomes into one policy: every failure is collected and
/// reported together; with no failure the parsed fragments compose in input
/// order; a run with no matching file at all is its own error, never an
/// empty policy.
pub fn aggregate_outcomes(outcomes: Vec<(String, Result<Config, String>)>) -> (r: Result<
    Config,
    AggregateError,
>)
    requires
        forall|i: int|
            0 <= i < outcomes@.len() ==> ((#[trigger] outcomes@[i].1) is Ok
                ==> outcomes@[i].1->Ok_0.wf()),
    ensures
        failed_list(outcomes@).len() > 0 ==> r is Err && match r->Err_0 {
            AggregateError::ParseFiles(v) => pairs_view(v@) =~= failed_list(outcomes@),
            AggregateError::NoConfigFile => false,
        },
        failed_list(outcomes@).len() == 0 && ok_count(outcomes@) == 0 ==> r == Err::<
            Config,
            AggregateError,
        >(AggregateError::NoConfigFile),
        failed_list(outcomes@).len() == 0 && ok_count(outcomes@) > 0 ==> r is Ok
            && r->Ok_0.wf() && fold_post(oks_of(outcomes@), r->Ok_0@),
{
    let ghost all = outcomes@;
    let mut outcomes = outcomes;
    let mut errs: Vec<(String, String)> = Vec::new();
    let mut acc = Config::empty();
    let mut have = false;
    proof {
        assert(all.skip(0) =~= all);
        assert(all.take(0) =~= Seq::<(String, Result<Config, String>)>::empty());
        assert(oks_of(all.take(0)) =~= Seq::<crate::config::ConfigModel>::empty());
        assert(pairs_view(errs@) =~= Seq::<(Seq<char>, Seq<char>)>::empty());
        assert(pairs_view(errs@) + failed_list(all.skip(0)) =~= failed_list(all));
    }
    while outcomes.len() > 0
        invariant
            outcomes@.len() <= all.len(),
            outcomes@ =~= all.skip(all.len() - outcomes@.len()),
            forall|i: int|
                0 <= i < outcomes@.len() ==> ((#[trigger] outcomes@[i].1) is Ok
                    ==> outcomes@[i].1->Ok_0.wf()),
            pairs_view(errs@) + failed_list(outcomes@) =~= failed_list(all),
            ok_count(all) == ok_count(outcomes@) + (ok_count(all) - ok_count(outcomes@)),
            have <==> ok_count(all) - ok_count(outcomes@) > 0,
            ok_count(all) - ok_count(outcomes@) >= 0,
            have ==> acc.wf(),
            oks_of(all) =~= oks_of(all.take(all.len() - outcomes@.len())) + oks_of(outcomes@),
            have ==> fold_post(oks_of(all.take(all.len() - outcomes@.len())), acc@),
            have ==> oks_of(all.take(all.len() - outcomes@.len())).len() > 0,
            !have ==> oks_of(all.take(all.len() - outcomes@.len())).len() == 0,
        decreases outcomes@.len(),
    {
        let ghost pre = outcomes@;
        let ghost pre_errs = pairs_view(errs@);
        let ghost k = all.len() - pre.len();
        let (path, res) = outcomes.remove(0);
        proof {
            assert(outcomes@ =~= pre.drop_first());
            assert(all.skip(all.len() - pre.len()).drop_first() =~= all.skip(
                all.len() - pre.len() + 1,
            ));
            assert forall|i: int|
                0 <= i < outcomes@.len() implies ((#[trigger] outcomes@[i].1) is Ok
                ==> outcomes@[i].1->Ok_0.wf()) by {
                assert(outcomes@[i] == pre[i + 1]);
            }
            assert(pre[0] == all[k]);
            assert(all.take(k + 1) =~= all.take(k).push(all[k]));
            lemma_oks_snoc(all.take(k), all[k]);
        }
        match res {
            Ok(c) => {
                let ghost cv = c@;
                let ghost pre_acc = acc@;
                let ghost had = have;
                proof {
                    assert(all[k].1 is Ok && all[k].1->Ok_0@ == cv);
                    assert(oks_of(all.take(k + 1)) =~= oks_of(all.take(k)).push(cv));
                }
                if have {
                    acc.compose(&c);
                } else {
                    acc = c;
                    have = true;
                }
                proof {
                    let parts = oks_of(all.take(k + 1));
                    let prefix = oks_of(all.take(k));
                    assert(parts.drop_last() =~= prefix);
                    assert(parts.last() == cv);
                    if had {
                        assert(fold_post(prefix, pre_acc));
                        assert(crate::config::wf_model(pre_acc));
                        assert(compose_post(pre_acc, cv, acc@));
                        assert(parts.len() >= 2);
                        lemma_fold_snoc(prefix, cv, acc@, pre_acc);
                        assert(fold_post(parts, acc@));
                    } else {
                        assert(prefix.len() == 0);
                        assert(parts.len() == 1);
                        assert(parts[0] == cv);
                        assert(acc@ == cv);
                        assert(fold_post(parts, acc@));
                    }
                    assert(pairs_view(errs@) + failed_list(outcomes@) =~= failed_list(all));
                }
            },
            Err(m) => {
                errs.push((path, m));
                proof {
                    assert(all[k].1 is Err);
                    assert(oks_of(all.take(k + 1)) =~= oks_of(all.take(k)));
                    assert(pairs_view(errs@) =~= pre_errs.push(
                        (errs@[errs@.len() - 1].0@, errs@[errs@.len() - 1].1@),
                    ));
                    assert(pairs_view(errs@) + failed_list(outcomes@) =~= failed_list(all));
                }
            },
        }
    }
    proof {
        assert(failed_list(outcomes@).len() == 0);
        assert(ok_count(outcomes@) == 0);
        assert(pairs_view(errs@) =~= failed_list(all));
        assert(all.take(all.len() as int) =~= all);
    }
    if errs.len() > 0 {
        proof {
            assert(pairs_view(errs@).len() == errs@.len());
            assert(failed_list(all).len() > 0);
        }
        return Err(AggregateError::ParseFiles(errs));
    }
    if !have {
        return Err(AggregateError::NoConfigFile);
    }
    Ok(acc)
}

} // verus!