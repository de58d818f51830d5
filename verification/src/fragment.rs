//! One parsed, not-yet-composed policy fragment, and the structural
//! validator that turns it into a policy unit.

use vstd::prelude::*;
use crate::access::{
    fs_item_bits, net_item_bits, scope_item_bits, spec_fs_item_bits, spec_net_item_bits,
    spec_scope_item_bits, AbiVersion, AccessItemError, ABI_MAX,
};
use crate::assoc::al_lookup;
use crate::config::{pb_view, Config};
use crate::parser::{TemplateError, TemplateString, TokenModel};
use crate::variable::{strings_view, NameError};

verus! {

/// One declared variable: a name and its literal strings, if any.
pub struct RawVariable {
    pub name: String,
    pub literal: Option<Vec<String>>,
}

/// One ruleset statement: the capabilities a fragment declares handled.
pub struct RawRuleset {
    pub handled_access_fs: Option<Vec<String>>,
    pub handled_access_net: Option<Vec<String>>,
    pub scoped: Option<Vec<String>>,
}

/// One path rule: access items and the parent templates they apply to.
pub struct RawPathRule {
    pub allowed_access: Vec<String>,
    pub parent: Vec<String>,
}

/// One port rule: access items and the ports they apply to.
pub struct RawPortRule {
    pub allowed_access: Vec<String>,
    pub port: Vec<u64>,
}

/// A decoded fragment, before structural validation.  Textual decoding is
/// not this crate's concern; both surface syntaxes converge on this shape.
pub struct Fragment {
    pub abi: Option<i64>,
    pub variable: Option<Vec<RawVariable>>,
    pub ruleset: Option<Vec<RawRuleset>>,
    pub path_beneath: Option<Vec<RawPathRule>>,
    pub net_port: Option<Vec<RawPortRule>>,
}

/// Why a fragment is rejected.
#[derive(Clone, Debug, PartialEq, Eq)]
pub enum ConfigError {
    Name(NameError),
    Template(TemplateError),
    UnknownAccessItem(String),
    MissingTargetVersion,
    InvalidAbi(i64),
    EmptyCollection,
    EmptyRuleset,
    EmptyConfiguration,
}

/// The two surface syntaxes a fragment can arrive in.
pub enum ConfigFormat {
    Json,
    Toml,
}

impl ConfigFormat {
    /// The file extension of this format.
    pub fn extension(&self) -> (r: &'static str)
        ensures
            match self {
                ConfigFormat::Json => r@ == "json"@,
                ConfigFormat::Toml => r@ == "toml"@,
            },
    {
        match self {
            ConfigFormat::Json => "json",
            ConfigFormat::Toml => "toml",
        }
    }
}

/// The target version is absent or inside the accepted range.
pub open spec fn abi_ok(abi: Option<i64>) -> bool {
    match abi {
        None => true,
        Some(a) => 1 <= a <= ABI_MAX as i64,
    }
}

/// A fragment that declares nothing: no section present or every present
/// section an empty list.
pub open spec fn fragment_unpopulated(f: &Fragment) -> bool {
    &&& match f.variable {
        Some(v) => v@.len() == 0,
        None => true,
    }
    &&& match f.ruleset {
        Some(v) => v@.len() == 0,
        None => true,
    }
    &&& match f.path_beneath {
        Some(v) => v@.len() == 0,
        None => true,
    }
    &&& match f.net_port {
        Some(v) => v@.len() == 0,
        None => true,
    }
}

/// Validates an explicit target version: an integer from one up to the
/// largest accepted version.
pub fn validate_abi(abi: &Option<i64>) -> (r: Result<Option<AbiVersion>, ConfigError>)
    ensures
        r is Ok <==> abi_ok(*abi),
        r is Ok ==> match *abi {
            None => r->Ok_0 is None,
            Some(a) => r->Ok_0 == Some(a as AbiVersion),
        },
        r is Err ==> (*abi matches Some(a) && r->Err_0 == ConfigError::InvalidAbi(a)),
{
    match abi {
        None => Ok(None),
        Some(a) => {
            let v = *a;
            if 1 <= v && v <= ABI_MAX as i64 {
                Ok(Some(v as u32))
            } else {
                Err(ConfigError::InvalidAbi(v))
            }
        },
    }
}

/// The bits of a filesystem access-item list at an optional target version:
/// the union of the items' bits, or the first item's failure.
pub open spec fn spec_fs_bits(items: Seq<Seq<char>>, abi: Option<AbiVersion>) -> Result<
    u64,
    AccessItemError,
>
    decreases items.len(),
{
    if items.len() == 0 {
        Ok(0u64)
    } else {
        match spec_fs_item_bits(items[0], abi) {
            Err(e) => Err(e),
            Ok(b) => match spec_fs_bits(items.drop_first(), abi) {
                Err(e) => Err(e),
                Ok(rest) => Ok(b | rest),
            },
        }
    }
}

/// Resolves a filesystem access-item list, unioning the items' bits.
pub fn fs_bits(items: &Vec<String>, abi: Option<AbiVersion>) -> (r: Result<u64, ConfigError>)
    ensures
        match spec_fs_bits(strings_view(items@), abi) {
            Ok(b) => r == Ok::<u64, ConfigError>(b),
            Err(AccessItemError::MissingVersion) => r == Err::<u64, ConfigError>(
                ConfigError::MissingTargetVersion,
            ),
            Err(AccessItemError::Unknown) => r is Err && r->Err_0 matches
                ConfigError::UnknownAccessItem(_),
        },
{
    let ghost iv = strings_view(items@);
    let n = items.len();
    let mut acc: u64 = 0;
    let mut i: usize = 0;
    proof {
        lemma_grow_facts();
        assert(iv.skip(0) =~= iv);
    }
    while i < n
        invariant
            i <= n,
            n == items@.len(),
            iv == strings_view(items@),
            iv.len() == n,
            spec_fs_bits(iv, abi) == (match spec_fs_bits(iv.skip(i as int), abi) {
                Ok(rest) => Ok::<u64, AccessItemError>(acc | rest),
                Err(e) => Err::<u64, AccessItemError>(e),
            }),
        decreases n - i,
    {
        proof {
            assert(iv.skip(i as int)[0] == iv[i as int]);
            assert(iv.skip(i as int).drop_first() =~= iv.skip(i + 1));
            assert(iv[i as int] == items@[i as int]@);
        }
        match fs_item_bits(items[i].as_str(), abi) {
            Ok(b) => {
                proof {
                    lemma_grow_facts();
                }
                acc = acc | b;
            },
            Err(AccessItemError::MissingVersion) => {
                return Err(ConfigError::MissingTargetVersion);
            },
            Err(AccessItemError::Unknown) => {
                return Err(ConfigError::UnknownAccessItem(items[i].clone()));
            },
        }
        i = i + 1;
    }
    proof {
        assert(iv.skip(n as int).len() == 0);
        assert(spec_fs_bits(iv.skip(n as int), abi) == Ok::<u64, AccessItemError>(0u64));
        lemma_grow_facts();
        assert((acc | 0u64) == acc);
    }
    Ok(acc)
}

/// The bits of a network access-item list, as [`spec_fs_bits`] but over the
/// network vocabulary.
pub open spec fn spec_net_bits(items: Seq<Seq<char>>, abi: Option<AbiVersion>) -> Result<
    u64,
    AccessItemError,
>
    decreases items.len(),
{
    if items.len() == 0 {
        Ok(0u64)
    } else {
        match spec_net_item_bits(items[0], abi) {
            Err(e) => Err(e),
            Ok(b) => match spec_net_bits(items.drop_first(), abi) {
                Err(e) => Err(e),
                Ok(rest) => Ok(b | rest),
            },
        }
    }
}

/// Resolves a network access-item list, unioning the items' bits.
pub fn net_bits(items: &Vec<String>, abi: Option<AbiVersion>) -> (r: Result<u64, ConfigError>)
    ensures
        match spec_net_bits(strings_view(items@), abi) {
            Ok(b) => r == Ok::<u64, ConfigError>(b),
            Err(AccessItemError::MissingVersion) => r == Err::<u64, ConfigError>(
                ConfigError::MissingTargetVersion,
            ),
            Err(AccessItemError::Unknown) => r is Err && r->Err_0 matches
                ConfigError::UnknownAccessItem(_),
        },
{
    let ghost iv = strings_view(items@);
    let n = items.len();
    let mut acc: u64 = 0;
    let mut i: usize = 0;
    proof {
        lemma_grow_facts();
        assert(iv.skip(0) =~= iv);
    }
    while i < n
        invariant
            i <= n,
            n == items@.len(),
            iv == strings_view(items@),
            iv.len() == n,
            spec_net_bits(iv, abi) == (match spec_net_bits(iv.skip(i as int), abi) {
                Ok(rest) => Ok::<u64, AccessItemError>(acc | rest),
                Err(e) => Err::<u64, AccessItemError>(e),
            }),
        decreases n - i,
    {
        proof {
            assert(iv.skip(i as int)[0] == iv[i as int]);
            assert(iv.skip(i as int).drop_first() =~= iv.skip(i + 1));
            assert(iv[i as int] == items@[i as int]@);
        }
        match net_item_bits(items[i].as_str(), abi) {
            Ok(b) => {
                proof {
                    lemma_grow_facts();
                }
                acc = acc | b;
            },
            Err(AccessItemError::MissingVersion) => {
                return Err(ConfigError::MissingTargetVersion);
            },
            Err(AccessItemError::Unknown) => {
                return Err(ConfigError::UnknownAccessItem(items[i].clone()));
            },
        }
        i = i + 1;
    }
    proof {
        assert(iv.skip(n as int).len() == 0);
        assert(spec_net_bits(iv.skip(n as int), abi) == Ok::<u64, AccessItemError>(0u64));
        lemma_grow_facts();
        assert((acc | 0u64) == acc);
    }
    Ok(acc)
}

/// The bits of a scope item list, as [`spec_fs_bits`] but over the scope
/// vocabulary.
pub open spec fn spec_scope_bits(items: Seq<Seq<char>>, abi: Option<AbiVersion>) -> Result<
    u64,
    AccessItemError,
>
    decreases items.len(),
{
    if items.len() == 0 {
        Ok(0u64)
    } else {
        match spec_scope_item_bits(items[0], abi) {
            Err(e) => Err(e),
            Ok(b) => match spec_scope_bits(items.drop_first(), abi) {
                Err(e) => Err(e),
                Ok(rest) => Ok(b | rest),
            },
        }
    }
}

/// Resolves a scope item list, unioning the items' bits.
pub fn scope_bits(items: &Vec<String>, abi: Option<AbiVersion>) -> (r: Result<u64, ConfigError>)
    ensures
        match spec_scope_bits(strings_view(items@), abi) {
            Ok(b) => r == Ok::<u64, ConfigError>(b),
            Err(AccessItemError::MissingVersion) => r == Err::<u64, ConfigError>(
                ConfigError::MissingTargetVersion,
            ),
            Err(AccessItemError::Unknown) => r is Err && r->Err_0 matches
                ConfigError::UnknownAccessItem(_),
        },
{
    let ghost iv = strings_view(items@);
    let n = items.len();
    let mut acc: u64 = 0;
    let mut i: usize = 0;
    proof {
        lemma_grow_facts();
        assert(iv.skip(0) =~= iv);
    }
    while i < n
        invariant
            i <= n,
            n == items@.len(),
            iv == strings_view(items@),
            iv.len() == n,
            spec_scope_bits(iv, abi) == (match spec_scope_bits(iv.skip(i as int), abi) {
                Ok(rest) => Ok::<u64, AccessItemError>(acc | rest),
                Err(e) => Err::<u64, AccessItemError>(e),
            }),
        decreases n - i,
    {
        proof {
            assert(iv.skip(i as int)[0] == iv[i as int]);
            assert(iv.skip(i as int).drop_first() =~= iv.skip(i + 1));
            assert(iv[i as int] == items@[i as int]@);
        }
        match scope_item_bits(items[i].as_str(), abi) {
            Ok(b) => {
                proof {
                    lemma_grow_facts();
                }
                acc = acc | b;
            },
            Err(AccessItemError::MissingVersion) => {
                return Err(ConfigError::MissingTargetVersion);
            },
            Err(AccessItemError::Unknown) => {
                return Err(ConfigError::UnknownAccessItem(items[i].clone()));
            },
        }
        i = i + 1;
    }
    proof {
        assert(iv.skip(n as int).len() == 0);
        assert(spec_scope_bits(iv.skip(n as int), abi) == Ok::<u64, AccessItemError>(0u64));
        lemma_grow_facts();
        assert((acc | 0u64) == acc);
    }
    Ok(acc)
}

/// The version the item resolvers see: the fragment's own target, if any.
pub open spec fn abi_view(abi: Option<i64>) -> Option<AbiVersion> {
    match abi {
        None => None,
        Some(a) => Some(a as AbiVersion),
    }
}

/// A valid variable declaration: a well-formed name, and a non-empty
/// literal list when one is declared.
pub open spec fn variable_ok(e: RawVariable) -> bool {
    &&& crate::variable::valid_name(e.name@)
    &&& match e.literal {
        Some(l) => l@.len() > 0,
        None => true,
    }
}

/// A valid ruleset statement: at least one populated field, each present
/// list non-empty with every item resolving.
pub open spec fn ruleset_ok(s: RawRuleset, abi: Option<AbiVersion>) -> bool {
    &&& !(s.handled_access_fs is None && s.handled_access_net is None && s.scoped is None)
    &&& match s.handled_access_fs {
        Some(l) => l@.len() > 0 && spec_fs_bits(strings_view(l@), abi) is Ok,
        None => true,
    }
    &&& match s.handled_access_net {
        Some(l) => l@.len() > 0 && spec_net_bits(strings_view(l@), abi) is Ok,
        None => true,
    }
    &&& match s.scoped {
        Some(l) => l@.len() > 0 && spec_scope_bits(strings_view(l@), abi) is Ok,
        None => true,
    }
}

/// A valid path rule: non-empty lists, resolving access items, and every
/// parent a parseable template.
pub open spec fn path_rule_ok(r: RawPathRule, abi: Option<AbiVersion>) -> bool {
    &&& r.allowed_access@.len() > 0
    &&& r.parent@.len() > 0
    &&& spec_fs_bits(strings_view(r.allowed_access@), abi) is Ok
    &&& forall|j: int|
        0 <= j < r.parent@.len() ==> crate::parser::spec_parse((#[trigger] r.parent@[j])@) is Ok
}

/// A valid port rule: non-empty lists with resolving access items.
pub open spec fn port_rule_ok(r: RawPortRule, abi: Option<AbiVersion>) -> bool {
    &&& r.allowed_access@.len() > 0
    &&& r.port@.len() > 0
    &&& spec_net_bits(strings_view(r.allowed_access@), abi) is Ok
}

/// A fragment the validator accepts: a target version in range, at least one
/// populated section, and every declared section non-empty with valid
/// entries.
pub open spec fn fragment_ok(f: &Fragment) -> bool {
    &&& abi_ok(f.abi)
    &&& !fragment_unpopulated(f)
    &&& match f.variable {
        Some(l) => l@.len() > 0 && forall|i: int|
            0 <= i < l@.len() ==> variable_ok(#[trigger] l@[i]),
        None => true,
    }
    &&& match f.ruleset {
        Some(l) => l@.len() > 0 && forall|i: int|
            0 <= i < l@.len() ==> ruleset_ok(#[trigger] l@[i], abi_view(f.abi)),
        None => true,
    }
    &&& match f.path_beneath {
        Some(l) => l@.len() > 0 && forall|i: int|
            0 <= i < l@.len() ==> path_rule_ok(#[trigger] l@[i], abi_view(f.abi)),
        None => true,
    }
    &&& match f.net_port {
        Some(l) => l@.len() > 0 && forall|i: int|
            0 <= i < l@.len() ==> port_rule_ok(#[trigger] l@[i], abi_view(f.abi)),
        None => true,
    }
}

/// The items of an optional section, an absent section declaring none.
pub open spec fn opt_vec_view<T>(o: Option<Vec<T>>) -> Seq<T> {
    match o {
        Some(v) => v@,
        None => Seq::empty(),
    }
}

/// The union of `g` over a list, one `u64` bit-set per element.
pub open spec fn or_fold<T>(l: Seq<T>, g: spec_fn(T) -> u64) -> u64
    decreases l.len(),
{
    if l.len() == 0 {
        0
    } else {
        g(l[0]) | or_fold(l.drop_first(), g)
    }
}

proof fn lemma_or_fold_snoc<T>(l: Seq<T>, e: T, g: spec_fn(T) -> u64)
    ensures
        or_fold(l.push(e), g) == or_fold(l, g) | g(e),
    decreases l.len(),
{
    if l.len() == 0 {
        assert(l.push(e)[0] == e);
        assert(l.push(e).drop_first() =~= Seq::<T>::empty());
        assert(or_fold(l.push(e).drop_first(), g) == 0);
        let x = g(e);
        assert((x | 0) == (0u64 | x)) by (bit_vector);
    } else {
        assert(l.push(e)[0] == l[0]);
        assert(l.push(e).drop_first() =~= l.drop_first().push(e));
        lemma_or_fold_snoc(l.drop_first(), e, g);
        let a = g(l[0]);
        let b = or_fold(l.drop_first(), g);
        let c = g(e);
        assert((a | (b | c)) == ((a | b) | c)) by (bit_vector);
    }
}

/// The filesystem bits one ruleset statement declares handled.
pub open spec fn stmt_fs_bits(s: RawRuleset, abi: Option<AbiVersion>) -> u64 {
    match s.handled_access_fs {
        Some(l) => spec_fs_bits(strings_view(l@), abi)->Ok_0,
        None => 0,
    }
}

/// The network bits one ruleset statement declares handled.
pub open spec fn stmt_net_bits(s: RawRuleset, abi: Option<AbiVersion>) -> u64 {
    match s.handled_access_net {
        Some(l) => spec_net_bits(strings_view(l@), abi)->Ok_0,
        None => 0,
    }
}

/// The scope bits one ruleset statement declares handled.
pub open spec fn stmt_scope_bits(s: RawRuleset, abi: Option<AbiVersion>) -> u64 {
    match s.scoped {
        Some(l) => spec_scope_bits(strings_view(l@), abi)->Ok_0,
        None => 0,
    }
}

/// Folders for the statement contributions, one function value per version.
pub open spec fn stmt_fs_fn(abi: Option<AbiVersion>) -> spec_fn(RawRuleset) -> u64 {
    |s: RawRuleset| stmt_fs_bits(s, abi)
}

pub open spec fn stmt_net_fn(abi: Option<AbiVersion>) -> spec_fn(RawRuleset) -> u64 {
    |s: RawRuleset| stmt_net_bits(s, abi)
}

pub open spec fn stmt_scope_fn(abi: Option<AbiVersion>) -> spec_fn(RawRuleset) -> u64 {
    |s: RawRuleset| stmt_scope_bits(s, abi)
}

/// The access one path rule grants.
pub open spec fn rule_fs_bits(rp: RawPathRule, abi: Option<AbiVersion>) -> u64 {
    spec_fs_bits(strings_view(rp.allowed_access@), abi)->Ok_0
}

pub open spec fn rule_fs_fn(abi: Option<AbiVersion>) -> spec_fn(RawPathRule) -> u64 {
    |rp: RawPathRule| rule_fs_bits(rp, abi)
}

/// One of the rule's parents parses to the template `t`.
pub open spec fn rule_mentions(rp: RawPathRule, t: Seq<TokenModel>) -> bool {
    exists|j: int|
        0 <= j < rp.parent@.len() && crate::parser::spec_parse((#[trigger] rp.parent@[j])@)
            == Ok::<Seq<TokenModel>, crate::parser::TemplateErrorModel>(t)
}

/// One path rule's contribution to the template `t`.
pub open spec fn pb_rule_fn(abi: Option<AbiVersion>, t: Seq<TokenModel>) -> spec_fn(
    RawPathRule,
) -> u64 {
    |rp: RawPathRule|
        if rule_mentions(rp, t) {
            rule_fs_bits(rp, abi)
        } else {
            0
        }
}

/// The access one port rule grants.
pub open spec fn rule_net_bits(rp: RawPortRule, abi: Option<AbiVersion>) -> u64 {
    spec_net_bits(strings_view(rp.allowed_access@), abi)->Ok_0
}

pub open spec fn rule_net_fn(abi: Option<AbiVersion>) -> spec_fn(RawPortRule) -> u64 {
    |rp: RawPortRule| rule_net_bits(rp, abi)
}

/// One port rule's contribution to the port `p`.
pub open spec fn np_rule_fn(abi: Option<AbiVersion>, p: u64) -> spec_fn(RawPortRule) -> u64 {
    |rp: RawPortRule|
        if rp.port@.contains(p) {
            rule_net_bits(rp, abi)
        } else {
            0
        }
}

/// Some declaration of the list carries this name.
pub open spec fn var_declares(l: Seq<RawVariable>, k: Seq<char>) -> bool {
    exists|i: int| 0 <= i < l.len() && (#[trigger] l[i]).name@ == k
}

/// The literal strings one declaration binds.
pub open spec fn var_literals(e: RawVariable) -> Seq<Seq<char>> {
    match e.literal {
        Some(lit) => strings_view(lit@),
        None => Seq::empty(),
    }
}

/// Some declaration of the list binds `x` to the name `k`.
pub open spec fn var_binds(l: Seq<RawVariable>, k: Seq<char>, x: Seq<char>) -> bool {
    exists|i: int|
        0 <= i < l.len() && (#[trigger] l[i]).name@ == k && var_literals(l[i]).contains(x)
}

/// The variable table built from a declaration list: a name is bound iff
/// declared, to exactly the union of its declared literals.
pub open spec fn built_vars(l: Seq<RawVariable>, vs: Seq<(Seq<char>, Seq<Seq<char>>)>) -> bool {
    &&& forall|k: Seq<char>| #[trigger] al_lookup(vs, k) is Some <==> var_declares(l, k)
    &&& forall|k: Seq<char>, x: Seq<char>|
        al_lookup(vs, k) is Some ==> (#[trigger] al_lookup(vs, k)->0.contains(x) <==> var_binds(
            l,
            k,
            x,
        ))
}

/// Bitwise facts for the augmentation pass: handled sets only grow, and a
/// grant stays inside a handled set it was unioned into.
proof fn lemma_grow_facts()
    by (bit_vector)
    ensures
        forall|v: u64, h: u64, x: u64| (v & h) == v ==> #[trigger] (v & (h | x)) == v,
        forall|b: u64, h: u64| #[trigger] (b & (h | b)) == b,
        forall|a: u64, b: u64, h: u64|
            (a & h) == a && (b & h) == b ==> #[trigger] ((a | b) & h) == (a | b),
        forall|v: u64| #[trigger] (v | 0) == v,
        forall|v: u64| #[trigger] (0 | v) == v,
        forall|a: u64, b: u64, c: u64| #[trigger] ((a | b) | c) == (a | (b | c)),
        forall|a: u64, b: u64| #[trigger] ((a | b) | b) == (a | b),
        forall|a: u64, b: u64| #[trigger] (a | b) == 0 ==> a == 0 && b == 0,
{
}

/// `access` once the first `j` parents include one parsing to `t`.
pub open spec fn partial_parents(parents: Seq<String>, j: int, access: u64, t: Seq<TokenModel>) -> u64 {
    if exists|jj: int|
        0 <= jj < j && crate::parser::spec_parse((#[trigger] parents[jj])@) == Ok::<
            Seq<TokenModel>,
            crate::parser::TemplateErrorModel,
        >(t) {
        access
    } else {
        0
    }
}

/// `access` once the first `j` ports include `p`.
pub open spec fn partial_ports(ports: Seq<u64>, j: int, access: u64, p: u64) -> u64 {
    if exists|jj: int| 0 <= jj < j && (#[trigger] ports[jj]) == p {
        access
    } else {
        0
    }
}

impl Config {
    /// Validates one decoded fragment and builds the policy unit it
    /// describes.  Declared collections must be non-empty; names, templates
    /// and access items must be valid; the target version must be in range.
    /// Every rule's access is automatically unioned into the handled set of
    /// its domain, each handled set is the union of its statements' bits and
    /// its rules' grants, every rule key is bound to the union of the rules
    /// naming it, and each variable to the union of its declared literals.
    pub fn from_fragment(f: &Fragment) -> (r: Result<Config, ConfigError>)
        ensures
            r is Ok <==> fragment_ok(f),
            !abi_ok(f.abi) ==> (f.abi matches Some(a) && r == Err::<Config, ConfigError>(
                ConfigError::InvalidAbi(a),
            )),
            abi_ok(f.abi) && fragment_unpopulated(f) ==> r == Err::<Config, ConfigError>(
                ConfigError::EmptyConfiguration,
            ),
            r is Ok ==> r->Ok_0.wf(),
            r is Ok ==> r->Ok_0@.handled_fs == (or_fold(
                opt_vec_view(f.ruleset),
                stmt_fs_fn(abi_view(f.abi)),
            ) | or_fold(opt_vec_view(f.path_beneath), rule_fs_fn(abi_view(f.abi)))),
            r is Ok ==> r->Ok_0@.handled_net == (or_fold(
                opt_vec_view(f.ruleset),
                stmt_net_fn(abi_view(f.abi)),
            ) | or_fold(opt_vec_view(f.net_port), rule_net_fn(abi_view(f.abi)))),
            r is Ok ==> r->Ok_0@.scoped == or_fold(
                opt_vec_view(f.ruleset),
                stmt_scope_fn(abi_view(f.abi)),
            ),
            r is Ok ==> forall|t: Seq<TokenModel>|
                #[trigger] al_lookup(r->Ok_0@.pb, t) == (if or_fold(
                    opt_vec_view(f.path_beneath),
                    pb_rule_fn(abi_view(f.abi), t),
                ) == 0 {
                    None::<u64>
                } else {
                    Some(or_fold(opt_vec_view(f.path_beneath), pb_rule_fn(abi_view(f.abi), t)))
                }),
            r is Ok ==> forall|p: u64|
                #[trigger] al_lookup(r->Ok_0@.np, p) == (if or_fold(
                    opt_vec_view(f.net_port),
                    np_rule_fn(abi_view(f.abi), p),
                ) == 0 {
                    None::<u64>
                } else {
                    Some(or_fold(opt_vec_view(f.net_port), np_rule_fn(abi_view(f.abi), p)))
                }),
            r is Ok ==> built_vars(opt_vec_view(f.variable), r->Ok_0@.vars),
    {
        proof {
            lemma_grow_facts();
        }
        let abi = match validate_abi(&f.abi) {
            Ok(a) => a,
            Err(e) => {
                return Err(e);
            },
        };
        proof {
            assert(abi == abi_view(f.abi));
        }
        let unpopulated = (match &f.variable {
            Some(v) => v.len() == 0,
            None => true,
        }) && (match &f.ruleset {
            Some(v) => v.len() == 0,
            None => true,
        }) && (match &f.path_beneath {
            Some(v) => v.len() == 0,
            None => true,
        }) && (match &f.net_port {
            Some(v) => v.len() == 0,
            None => true,
        });
        if unpopulated {
            return Err(ConfigError::EmptyConfiguration);
        }
        let mut cfg = Config::empty();
        let ghost lv = opt_vec_view(f.variable);
        let ghost rlv = opt_vec_view(f.ruleset);
        let ghost plv = opt_vec_view(f.path_beneath);
        let ghost nlv = opt_vec_view(f.net_port);
        // Variables: validate each name, union repeated declarations.
        proof {
            assert forall|k: Seq<char>| !(#[trigger] al_lookup(cfg.variables@, k) is Some) by {
                assert(cfg.variables@.len() == 0);
            }
        }
        if let Some(vars) = &f.variable {
            if vars.len() == 0 {
                return Err(ConfigError::EmptyCollection);
            }
            let n = vars.len();
            let mut i: usize = 0;
            proof {
                let sub = vars@.subrange(0, 0);
                assert(sub.len() == 0);
                assert forall|k: Seq<char>| #[trigger]
                    al_lookup(cfg.variables@, k) is Some <==> var_declares(sub, k) by {
                    assert(cfg.variables@.len() == 0);
                }
            }
            while i < n
                invariant
                    i <= n,
                    n == vars@.len(),
                    f.variable == Some(*vars),
                    lv == vars@,
                    abi_ok(f.abi),
                    !fragment_unpopulated(f),
                    cfg.variables.wf(),
                    cfg.rules_path_beneath@.len() == 0,
                    cfg.rules_net_port@.len() == 0,
                    cfg.handled_fs == 0,
                    cfg.handled_net == 0,
                    cfg.scoped == 0,
                    forall|j: int| 0 <= j < i ==> variable_ok(#[trigger] vars@[j]),
                    built_vars(vars@.subrange(0, i as int), cfg.variables@),
                decreases n - i,
            {
                let ghost sub = vars@.subrange(0, i as int);
                let ghost nsub = vars@.subrange(0, i + 1);
                proof {
                    assert(nsub =~= sub.push(vars@[i as int]));
                }
                let name = match crate::variable::Name::from_str(vars[i].name.as_str()) {
                    Ok(nm) => nm,
                    Err(e) => {
                        proof {
                            assert(!variable_ok(vars@[i as int]));
                        }
                        return Err(ConfigError::Name(e));
                    },
                };
                let lits = match &vars[i].literal {
                    Some(l) => {
                        if l.len() == 0 {
                            proof {
                                assert(!variable_ok(vars@[i as int]));
                            }
                            return Err(ConfigError::EmptyCollection);
                        }
                        crate::variable::clone_strings(l)
                    },
                    None => Vec::new(),
                };
                let ghost kv = name@;
                let ghost vvs = strings_view(lits@);
                let ghost pre = cfg.variables@;
                proof {
                    assert(vvs =~= var_literals(vars@[i as int]));
                    assert(kv == vars@[i as int].name@);
                }
                cfg.variables.extend(name, lits);
                proof {
                    assert(crate::variable::merged_members(
                        al_lookup(cfg.variables@, kv)->0,
                        al_lookup(pre, kv),
                        vvs,
                    ));
                    assert forall|k: Seq<char>| #[trigger]
                        al_lookup(cfg.variables@, k) is Some <==> var_declares(nsub, k) by {
                        if k == kv {
                            assert(nsub[i as int].name@ == k);
                            assert(var_declares(nsub, k));
                        } else {
                            assert(al_lookup(cfg.variables@, k) == al_lookup(pre, k));
                            if var_declares(sub, k) {
                                let w = choose|w: int|
                                    0 <= w < sub.len() && (#[trigger] sub[w]).name@ == k;
                                assert(nsub[w] == sub[w]);
                                assert(var_declares(nsub, k));
                            }
                            if var_declares(nsub, k) {
                                let w = choose|w: int|
                                    0 <= w < nsub.len() && (#[trigger] nsub[w]).name@ == k;
                                assert(w < i);
                                assert(sub[w] == nsub[w]);
                                assert(var_declares(sub, k));
                            }
                        }
                    }
                    assert forall|k: Seq<char>, x: Seq<char>|
                        al_lookup(cfg.variables@, k) is Some implies (#[trigger] al_lookup(
                        cfg.variables@,
                        k,
                    )->0.contains(x) <==> var_binds(nsub, k, x)) by {
                        if k == kv {
                            assert(al_lookup(cfg.variables@, kv)->0.contains(x) == ((al_lookup(
                                pre,
                                kv,
                            ) is Some && al_lookup(pre, kv)->0.contains(x)) || vvs.contains(x)));
                            if al_lookup(cfg.variables@, k)->0.contains(x) {
                                if al_lookup(pre, kv) is Some && al_lookup(pre, kv)->0.contains(
                                    x,
                                ) {
                                    assert(var_binds(sub, k, x));
                                    let w = choose|w: int|
                                        0 <= w < sub.len() && (#[trigger] sub[w]).name@ == k
                                            && var_literals(sub[w]).contains(x);
                                    assert(nsub[w] == sub[w]);
                                    assert(var_binds(nsub, k, x));
                                } else {
                                    assert(vvs.contains(x));
                                    assert(nsub[i as int].name@ == k && var_literals(
                                        nsub[i as int],
                                    ).contains(x));
                                    assert(var_binds(nsub, k, x));
                                }
                            }
                            if var_binds(nsub, k, x) {
                                let w = choose|w: int|
                                    0 <= w < nsub.len() && (#[trigger] nsub[w]).name@ == k
                                        && var_literals(nsub[w]).contains(x);
                                if w < i {
                                    assert(sub[w] == nsub[w]);
                                    assert(var_binds(sub, k, x));
                                    assert(al_lookup(pre, k) is Some);
                                    assert(al_lookup(pre, k)->0.contains(x));
                                } else {
                                    assert(vvs.contains(x));
                                }
                                assert(al_lookup(cfg.variables@, k)->0.contains(x));
                            }
                        } else {
                            assert(al_lookup(cfg.variables@, k) == al_lookup(pre, k));
                            assert(al_lookup(pre, k) is Some);
                            assert(al_lookup(pre, k)->0.contains(x) <==> var_binds(sub, k, x));
                            if var_binds(nsub, k, x) {
                                let w = choose|w: int|
                                    0 <= w < nsub.len() && (#[trigger] nsub[w]).name@ == k
                                        && var_literals(nsub[w]).contains(x);
                                assert(w < i);
                                assert(sub[w] == nsub[w]);
                                assert(var_binds(sub, k, x));
                            }
                            if var_binds(sub, k, x) {
                                let w = choose|w: int|
                                    0 <= w < sub.len() && (#[trigger] sub[w]).name@ == k
                                        && var_literals(sub[w]).contains(x);
                                assert(nsub[w] == sub[w]);
                                assert(var_binds(nsub, k, x));
                            }
                        }
                    }
                }
                i = i + 1;
            }
            proof {
                assert(vars@.subrange(0, n as int) =~= vars@);
            }
        }
        proof {
            assert(built_vars(lv, cfg.variables@)) by {
                if f.variable is None {
                    assert(lv.len() == 0);
                    assert forall|k: Seq<char>| #[trigger]
                        al_lookup(cfg.variables@, k) is Some <==> var_declares(lv, k) by {
                        assert(cfg.variables@.len() == 0);
                    }
                }
            }
        }
        // Ruleset statements: each must have a populated field; handled sets
        // union across repeats.
        proof {
            assert(rlv.subrange(0, 0).len() == 0);
        }
        if let Some(rs) = &f.ruleset {
            if rs.len() == 0 {
                return Err(ConfigError::EmptyCollection);
            }
            let n = rs.len();
            let mut i: usize = 0;
            while i < n
                invariant
                    i <= n,
                    n == rs@.len(),
                    f.ruleset == Some(*rs),
                    rlv == rs@,
                    abi == abi_view(f.abi),
                    abi_ok(f.abi),
                    !fragment_unpopulated(f),
                    cfg.variables.wf(),
                    built_vars(opt_vec_view(f.variable), cfg.variables@),
                    cfg.rules_path_beneath@.len() == 0,
                    cfg.rules_net_port@.len() == 0,
                    forall|j: int| 0 <= j < i ==> ruleset_ok(#[trigger] rs@[j], abi),
                    cfg.handled_fs == or_fold(rs@.subrange(0, i as int), stmt_fs_fn(abi)),
                    cfg.handled_net == or_fold(rs@.subrange(0, i as int), stmt_net_fn(abi)),
                    cfg.scoped == or_fold(rs@.subrange(0, i as int), stmt_scope_fn(abi)),
                decreases n - i,
            {
                let stmt = &rs[i];
                let ghost sv = rs@[i as int];
                let ghost sub = rs@.subrange(0, i as int);
                let ghost nsub = rs@.subrange(0, i + 1);
                proof {
                    assert(nsub =~= sub.push(sv));
                    lemma_or_fold_snoc(sub, sv, stmt_fs_fn(abi));
                    lemma_or_fold_snoc(sub, sv, stmt_net_fn(abi));
                    lemma_or_fold_snoc(sub, sv, stmt_scope_fn(abi));
                }
                let mut populated = false;
                if let Some(items) = &stmt.handled_access_fs {
                    if items.len() == 0 {
                        proof {
                            assert(!ruleset_ok(sv, abi));
                        }
                        return Err(ConfigError::EmptyCollection);
                    }
                    populated = true;
                    let bits = match fs_bits(items, abi) {
                        Ok(b) => b,
                        Err(e) => {
                            proof {
                                assert(spec_fs_bits(strings_view(items@), abi) is Err);
                                assert(!ruleset_ok(sv, abi));
                            }
                            return Err(e);
                        },
                    };
                    proof {
                        assert(bits == stmt_fs_bits(sv, abi));
                    }
                    cfg.handled_fs = cfg.handled_fs | bits;
                } else {
                    proof {
                        assert(stmt_fs_bits(sv, abi) == 0);
                        lemma_grow_facts();
                        assert((cfg.handled_fs | 0u64) == cfg.handled_fs);
                    }
                }
                if let Some(items) = &stmt.handled_access_net {
                    if items.len() == 0 {
                        proof {
                            assert(!ruleset_ok(sv, abi));
                        }
                        return Err(ConfigError::EmptyCollection);
                    }
                    populated = true;
                    let bits = match net_bits(items, abi) {
                        Ok(b) => b,
                        Err(e) => {
                            proof {
                                assert(spec_net_bits(strings_view(items@), abi) is Err);
                                assert(!ruleset_ok(sv, abi));
                            }
                            return Err(e);
                        },
                    };
                    proof {
                        assert(bits == stmt_net_bits(sv, abi));
                    }
                    cfg.handled_net = cfg.handled_net | bits;
                } else {
                    proof {
                        assert(stmt_net_bits(sv, abi) == 0);
                        lemma_grow_facts();
                        assert((cfg.handled_net | 0u64) == cfg.handled_net);
                    }
                }
                if let Some(items) = &stmt.scoped {
                    if items.len() == 0 {
                        proof {
                            assert(!ruleset_ok(sv, abi));
                        }
                        return Err(ConfigError::EmptyCollection);
                    }
                    populated = true;
                    let bits = match scope_bits(items, abi) {
                        Ok(b) => b,
                        Err(e) => {
                            proof {
                                assert(spec_scope_bits(strings_view(items@), abi) is Err);
                                assert(!ruleset_ok(sv, abi));
                            }
                            return Err(e);
                        },
                    };
                    proof {
                        assert(bits == stmt_scope_bits(sv, abi));
                    }
                    cfg.scoped = cfg.scoped | bits;
                } else {
                    proof {
                        assert(stmt_scope_bits(sv, abi) == 0);
                        lemma_grow_facts();
                        assert((cfg.scoped | 0u64) == cfg.scoped);
                    }
                }
                if !populated {
                    proof {
                        assert(!ruleset_ok(sv, abi));
                    }
                    return Err(ConfigError::EmptyRuleset);
                }
                i = i + 1;
            }
            proof {
                assert(rs@.subrange(0, n as int) =~= rs@);
            }
        }
        let ghost base_fs = cfg.handled_fs;
        let ghost base_net = cfg.handled_net;
        proof {
            assert(base_fs == or_fold(rlv, stmt_fs_fn(abi)));
            assert(base_net == or_fold(rlv, stmt_net_fn(abi)));
            assert(cfg.scoped == or_fold(rlv, stmt_scope_fn(abi)));
        }
        // Path rules: resolve the access items, automatically widen the
        // handled set, and union the access at each parent template.
        proof {
            assert(plv.subrange(0, 0).len() == 0);
            assert forall|t: Seq<TokenModel>| #[trigger]
                al_lookup(pb_view(cfg.rules_path_beneath@), t) == (if or_fold(
                plv.subrange(0, 0),
                pb_rule_fn(abi, t),
            ) == 0 {
                None::<u64>
            } else {
                Some(or_fold(plv.subrange(0, 0), pb_rule_fn(abi, t)))
            }) by {
                assert(pb_view(cfg.rules_path_beneath@).len() == 0);
            }
            lemma_grow_facts();
            assert((base_fs | 0u64) == base_fs);
        }
        if let Some(prs) = &f.path_beneath {
            if prs.len() == 0 {
                return Err(ConfigError::EmptyCollection);
            }
            let n = prs.len();
            let mut i: usize = 0;
            while i < n
                invariant
                    i <= n,
                    n == prs@.len(),
                    f.path_beneath == Some(*prs),
                    plv == prs@,
                    abi == abi_view(f.abi),
                    abi_ok(f.abi),
                    !fragment_unpopulated(f),
                    cfg.variables.wf(),
                    built_vars(opt_vec_view(f.variable), cfg.variables@),
                    crate::config::rules_wf(pb_view(cfg.rules_path_beneath@), cfg.handled_fs),
                    cfg.rules_net_port@.len() == 0,
                    cfg.handled_net == base_net,
                    cfg.scoped == or_fold(rlv, stmt_scope_fn(abi)),
                    forall|j: int| 0 <= j < i ==> path_rule_ok(#[trigger] prs@[j], abi),
                    cfg.handled_fs == (base_fs | or_fold(
                        prs@.subrange(0, i as int),
                        rule_fs_fn(abi),
                    )),
                    forall|t: Seq<TokenModel>| #[trigger]
                        al_lookup(pb_view(cfg.rules_path_beneath@), t) == (if or_fold(
                            prs@.subrange(0, i as int),
                            pb_rule_fn(abi, t),
                        ) == 0 {
                            None::<u64>
                        } else {
                            Some(or_fold(prs@.subrange(0, i as int), pb_rule_fn(abi, t)))
                        }),
                decreases n - i,
            {
                proof {
                    lemma_grow_facts();
                }
                let pr = &prs[i];
                let ghost rv = prs@[i as int];
                let ghost sub = prs@.subrange(0, i as int);
                let ghost nsub = prs@.subrange(0, i + 1);
                proof {
                    assert(nsub =~= sub.push(rv));
                }
                if pr.allowed_access.len() == 0 || pr.parent.len() == 0 {
                    proof {
                        assert(!path_rule_ok(rv, abi));
                    }
                    return Err(ConfigError::EmptyCollection);
                }
                let access = match fs_bits(&pr.allowed_access, abi) {
                    Ok(b) => b,
                    Err(e) => {
                        proof {
                            assert(spec_fs_bits(strings_view(pr.allowed_access@), abi) is Err);
                            assert(!path_rule_ok(rv, abi));
                        }
                        return Err(e);
                    },
                };
                proof {
                    assert(access == rule_fs_bits(rv, abi));
                }
                let ghost pre_pb = pb_view(cfg.rules_path_beneath@);
                let ghost pre_h = cfg.handled_fs;
                cfg.handled_fs = cfg.handled_fs | access;
                proof {
                    assert forall|j: int| 0 <= j < pre_pb.len() implies (#[trigger] pre_pb[j]).1
                        & cfg.handled_fs == pre_pb[j].1 by {
                        assert(pre_pb[j].1 & pre_h == pre_pb[j].1);
                        assert(pre_pb[j].1 & (pre_h | access) == pre_pb[j].1);
                    }
                    assert(access & cfg.handled_fs == access);
                    lemma_or_fold_snoc(sub, rv, rule_fs_fn(abi));
                    assert(((base_fs | or_fold(sub, rule_fs_fn(abi))) | access) == (base_fs | (
                    or_fold(sub, rule_fs_fn(abi)) | access)));
                }
                let m = pr.parent.len();
                let mut j: usize = 0;
                proof {
                    assert forall|t: Seq<TokenModel>| #[trigger]
                        al_lookup(pb_view(cfg.rules_path_beneath@), t) == (if (or_fold(
                        sub,
                        pb_rule_fn(abi, t),
                    ) | partial_parents(pr.parent@, 0, access, t)) == 0 {
                        None::<u64>
                    } else {
                        Some(
                            or_fold(sub, pb_rule_fn(abi, t)) | partial_parents(
                                pr.parent@,
                                0,
                                access,
                                t,
                            ),
                        )
                    }) by {
                        lemma_grow_facts();
                        assert(partial_parents(pr.parent@, 0, access, t) == 0);
                        let xb = or_fold(sub, pb_rule_fn(abi, t));
                        assert((xb | 0u64) == xb);
                    }
                }
                while j < m
                    invariant
                        j <= m,
                        m == pr.parent@.len(),
                        i < prs@.len(),
                        *pr == prs@[i as int],
                        rv == prs@[i as int],
                        sub == prs@.subrange(0, i as int),
                        f.path_beneath == Some(*prs),
                        plv == prs@,
                        abi == abi_view(f.abi),
                        abi_ok(f.abi),
                        !fragment_unpopulated(f),
                        cfg.variables.wf(),
                        built_vars(opt_vec_view(f.variable), cfg.variables@),
                        cfg.rules_net_port@.len() == 0,
                        cfg.handled_net == base_net,
                        cfg.scoped == or_fold(rlv, stmt_scope_fn(abi)),
                        access == rule_fs_bits(rv, abi),
                        access & cfg.handled_fs == access,
                        cfg.handled_fs == (base_fs | or_fold(
                            prs@.subrange(0, i + 1),
                            rule_fs_fn(abi),
                        )),
                        crate::config::rules_wf(
                            pb_view(cfg.rules_path_beneath@),
                            cfg.handled_fs,
                        ),
                        forall|jj: int|
                            0 <= jj < j ==> crate::parser::spec_parse(
                                (#[trigger] pr.parent@[jj])@,
                            ) is Ok,
                        forall|t: Seq<TokenModel>| #[trigger]
                            al_lookup(pb_view(cfg.rules_path_beneath@), t) == (if (or_fold(
                                sub,
                                pb_rule_fn(abi, t),
                            ) | partial_parents(pr.parent@, j as int, access, t)) == 0 {
                                None::<u64>
                            } else {
                                Some(
                                    or_fold(sub, pb_rule_fn(abi, t)) | partial_parents(
                                        pr.parent@,
                                        j as int,
                                        access,
                                        t,
                                    ),
                                )
                            }),
                    decreases m - j,
                {
                    proof {
                        lemma_grow_facts();
                        crate::parser::lemma_template_lt_strict_order();
                    }
                    let t = match TemplateString::parse(pr.parent[j].as_str()) {
                        Ok(t) => t,
                        Err(e) => {
                            proof {
                                assert(crate::parser::spec_parse(pr.parent@[j as int]@) is Err);
                                assert(!path_rule_ok(prs@[i as int], abi));
                            }
                            return Err(ConfigError::Template(e));
                        },
                    };
                    proof {
                        crate::parser::lemma_spec_parse_wf(pr.parent@[j as int]@);
                        assert(crate::parser::wf_tokens(t@));
                    }
                    let ghost tv = t@;
                    let ghost pre = pb_view(cfg.rules_path_beneath@);
                    if access != 0 {
                        crate::config::pb_insert_or(&mut cfg.rules_path_beneath, &t, access);
                        proof {
                            let now = pb_view(cfg.rules_path_beneath@);
                            let h = cfg.handled_fs;
                            assert forall|q: int| 0 <= q < now.len() implies
                                crate::parser::wf_tokens((#[trigger] now[q]).0) && now[q].1 != 0
                                && now[q].1 & h == now[q].1 by {
                                crate::assoc::lemma_al_index_lookup(
                                    now,
                                    crate::parser::template_lt(),
                                    q,
                                );
                                assert(al_lookup(now, now[q].0) == Some(now[q].1));
                                if now[q].0 == tv {
                                    let ob = crate::config::opt_bits(al_lookup(pre, tv));
                                    assert(now[q].1 == ob | access);
                                    if al_lookup(pre, tv) is Some {
                                        crate::assoc::lemma_al_lookup_index(pre, tv);
                                        let w = choose|w: int|
                                            0 <= w < pre.len() && (#[trigger] pre[w]).0 == tv
                                                && pre[w].1 == ob;
                                        assert(ob & h == ob);
                                        assert((ob | access) & h == (ob | access));
                                        assert((ob | access) != 0);
                                    } else {
                                        assert(now[q].1 == (0u64 | access));
                                        assert((0u64 | access) == access);
                                    }
                                } else {
                                    assert(al_lookup(now, now[q].0) == al_lookup(pre, now[q].0));
                                    crate::assoc::lemma_al_lookup_index(pre, now[q].0);
                                    let w = choose|w: int|
                                        0 <= w < pre.len() && (#[trigger] pre[w]).0 == now[q].0
                                            && pre[w].1 == now[q].1;
                                }
                            }
                            assert forall|t2: Seq<TokenModel>| #[trigger]
                                al_lookup(now, t2) == (if (or_fold(sub, pb_rule_fn(abi, t2))
                                | partial_parents(pr.parent@, j + 1, access, t2)) == 0 {
                                None::<u64>
                            } else {
                                Some(
                                    or_fold(sub, pb_rule_fn(abi, t2)) | partial_parents(
                                        pr.parent@,
                                        j + 1,
                                        access,
                                        t2,
                                    ),
                                )
                            }) by {
                                let xb = or_fold(sub, pb_rule_fn(abi, t2));
                                let av2 = access;
                                if t2 == tv {
                                    assert(crate::parser::spec_parse(pr.parent@[j as int]@)
                                        == Ok::<
                                        Seq<TokenModel>,
                                        crate::parser::TemplateErrorModel,
                                    >(tv));
                                    assert(partial_parents(pr.parent@, j + 1, access, t2)
                                        == access);
                                    assert(al_lookup(now, tv) == Some(
                                        crate::config::opt_bits(al_lookup(pre, tv)) | access,
                                    ));
                                    let yk = partial_parents(pr.parent@, j as int, access, tv);
                                    assert(yk == 0 || yk == access);
                                    if (xb | yk) == 0 {
                                        assert(al_lookup(pre, tv) is None);
                                        assert(xb == 0);
                                        assert((0u64 | av2) == (xb | av2));
                                    } else {
                                        assert(al_lookup(pre, tv) == Some(xb | yk));
                                        if yk == 0 {
                                            assert(((xb | 0) | av2) == (xb | av2));
                                        } else {
                                            assert(((xb | av2) | av2) == (xb | av2));
                                        }
                                    }
                                    assert((xb | av2) != 0);
                                } else {
                                    assert(al_lookup(now, t2) == al_lookup(pre, t2));
                                    assert(partial_parents(pr.parent@, j + 1, access, t2)
                                        == partial_parents(
                                        pr.parent@,
                                        j as int,
                                        access,
                                        t2,
                                    )) by {
                                        if exists|jj: int|
                                            0 <= jj < j + 1 && crate::parser::spec_parse(
                                                (#[trigger] pr.parent@[jj])@,
                                            ) == Ok::<
                                                Seq<TokenModel>,
                                                crate::parser::TemplateErrorModel,
                                            >(t2) {
                                            let jj = choose|jj: int|
                                                0 <= jj < j + 1 && crate::parser::spec_parse(
                                                    (#[trigger] pr.parent@[jj])@,
                                                ) == Ok::<
                                                    Seq<TokenModel>,
                                                    crate::parser::TemplateErrorModel,
                                                >(t2);
                                            assert(jj < j);
                                        }
                                    }
                                }
                            }
                        }
                    } else {
                        proof {
                            assert forall|t2: Seq<TokenModel>| #[trigger]
                                al_lookup(pb_view(cfg.rules_path_beneath@), t2) == (if (or_fold(
                                sub,
                                pb_rule_fn(abi, t2),
                            ) | partial_parents(pr.parent@, j + 1, access, t2)) == 0 {
                                None::<u64>
                            } else {
                                Some(
                                    or_fold(sub, pb_rule_fn(abi, t2)) | partial_parents(
                                        pr.parent@,
                                        j + 1,
                                        access,
                                        t2,
                                    ),
                                )
                            }) by {
                                assert(partial_parents(pr.parent@, j + 1, access, t2) == 0);
                                assert(partial_parents(pr.parent@, j as int, access, t2) == 0);
                            }
                        }
                    }
                    j = j + 1;
                }
                proof {
                    assert forall|t: Seq<TokenModel>| #[trigger]
                        al_lookup(pb_view(cfg.rules_path_beneath@), t) == (if or_fold(
                        nsub,
                        pb_rule_fn(abi, t),
                    ) == 0 {
                        None::<u64>
                    } else {
                        Some(or_fold(nsub, pb_rule_fn(abi, t)))
                    }) by {
                        lemma_or_fold_snoc(sub, rv, pb_rule_fn(abi, t));
                        assert(partial_parents(pr.parent@, m as int, access, t) == (
                        if rule_mentions(rv, t) {
                            access
                        } else {
                            0
                        }));
                    }
                    assert(path_rule_ok(rv, abi));
                }
                i = i + 1;
            }
            proof {
                assert(prs@.subrange(0, n as int) =~= prs@);
            }
        }
        proof {
            assert(cfg.handled_fs == (base_fs | or_fold(plv, rule_fs_fn(abi)))) by {
                if f.path_beneath is None {
                    assert(plv.len() == 0);
                    lemma_grow_facts();
                    assert((base_fs | 0u64) == base_fs);
                }
            }
            assert forall|t: Seq<TokenModel>| #[trigger]
                al_lookup(pb_view(cfg.rules_path_beneath@), t) == (if or_fold(
                plv,
                pb_rule_fn(abi, t),
            ) == 0 {
                None::<u64>
            } else {
                Some(or_fold(plv, pb_rule_fn(abi, t)))
            }) by {
                if f.path_beneath is None {
                    assert(plv.len() == 0);
                    assert(or_fold(plv, pb_rule_fn(abi, t)) == 0);
                    assert(pb_view(cfg.rules_path_beneath@).len() == 0);
                }
            }
        }
        // Port rules, the same way in the network domain.
        proof {
            assert(nlv.subrange(0, 0).len() == 0);
            assert forall|p: u64| #[trigger]
                al_lookup(cfg.rules_net_port@, p) == (if or_fold(
                nlv.subrange(0, 0),
                np_rule_fn(abi, p),
            ) == 0 {
                None::<u64>
            } else {
                Some(or_fold(nlv.subrange(0, 0), np_rule_fn(abi, p)))
            }) by {
                assert(cfg.rules_net_port@.len() == 0);
            }
            lemma_grow_facts();
            assert((base_net | 0u64) == base_net);
        }
        if let Some(nps) = &f.net_port {
            if nps.len() == 0 {
                return Err(ConfigError::EmptyCollection);
            }
            let n = nps.len();
            let mut i: usize = 0;
            while i < n
                invariant
                    i <= n,
                    n == nps@.len(),
                    f.net_port == Some(*nps),
                    nlv == nps@,
                    abi == abi_view(f.abi),
                    abi_ok(f.abi),
                    !fragment_unpopulated(f),
                    cfg.variables.wf(),
                    built_vars(opt_vec_view(f.variable), cfg.variables@),
                    crate::config::rules_wf(pb_view(cfg.rules_path_beneath@), cfg.handled_fs),
                    crate::config::ports_wf(cfg.rules_net_port@, cfg.handled_net),
                    cfg.handled_fs == (base_fs | or_fold(plv, rule_fs_fn(abi))),
                    cfg.scoped == or_fold(rlv, stmt_scope_fn(abi)),
                    forall|t: Seq<TokenModel>| #[trigger]
                        al_lookup(pb_view(cfg.rules_path_beneath@), t) == (if or_fold(
                            plv,
                            pb_rule_fn(abi, t),
                        ) == 0 {
                            None::<u64>
                        } else {
                            Some(or_fold(plv, pb_rule_fn(abi, t)))
                        }),
                    forall|j: int| 0 <= j < i ==> port_rule_ok(#[trigger] nps@[j], abi),
                    cfg.handled_net == (base_net | or_fold(
                        nps@.subrange(0, i as int),
                        rule_net_fn(abi),
                    )),
                    forall|p: u64| #[trigger]
                        al_lookup(cfg.rules_net_port@, p) == (if or_fold(
                            nps@.subrange(0, i as int),
                            np_rule_fn(abi, p),
                        ) == 0 {
                            None::<u64>
                        } else {
                            Some(or_fold(nps@.subrange(0, i as int), np_rule_fn(abi, p)))
                        }),
                decreases n - i,
            {
                proof {
                    lemma_grow_facts();
                }
                let pr = &nps[i];
                let ghost rv = nps@[i as int];
                let ghost sub = nps@.subrange(0, i as int);
                let ghost nsub = nps@.subrange(0, i + 1);
                proof {
                    assert(nsub =~= sub.push(rv));
                }
                if pr.allowed_access.len() == 0 || pr.port.len() == 0 {
                    proof {
                        assert(!port_rule_ok(rv, abi));
                    }
                    return Err(ConfigError::EmptyCollection);
                }
                let access = match net_bits(&pr.allowed_access, abi) {
                    Ok(b) => b,
                    Err(e) => {
                        proof {
                            assert(spec_net_bits(strings_view(pr.allowed_access@), abi) is Err);
                            assert(!port_rule_ok(rv, abi));
                        }
                        return Err(e);
                    },
                };
                proof {
                    assert(access == rule_net_bits(rv, abi));
                }
                let ghost pre_np = cfg.rules_net_port@;
                let ghost pre_h = cfg.handled_net;
                cfg.handled_net = cfg.handled_net | access;
                proof {
                    assert forall|q: int| 0 <= q < pre_np.len() implies (#[trigger] pre_np[q]).1
                        & cfg.handled_net == pre_np[q].1 by {
                        assert(pre_np[q].1 & pre_h == pre_np[q].1);
                        assert(pre_np[q].1 & (pre_h | access) == pre_np[q].1);
                    }
                    assert(access & cfg.handled_net == access);
                    lemma_or_fold_snoc(sub, rv, rule_net_fn(abi));
                    assert(((base_net | or_fold(sub, rule_net_fn(abi))) | access) == (base_net | (
                    or_fold(sub, rule_net_fn(abi)) | access)));
                }
                let m = pr.port.len();
                let mut j: usize = 0;
                proof {
                    assert forall|p: u64| #[trigger]
                        al_lookup(cfg.rules_net_port@, p) == (if (or_fold(
                        sub,
                        np_rule_fn(abi, p),
                    ) | partial_ports(pr.port@, 0, access, p)) == 0 {
                        None::<u64>
                    } else {
                        Some(
                            or_fold(sub, np_rule_fn(abi, p)) | partial_ports(
                                pr.port@,
                                0,
                                access,
                                p,
                            ),
                        )
                    }) by {
                        lemma_grow_facts();
                        assert(partial_ports(pr.port@, 0, access, p) == 0);
                        let xb = or_fold(sub, np_rule_fn(abi, p));
                        assert((xb | 0u64) == xb);
                    }
                }
                while j < m
                    invariant
                        j <= m,
                        m == pr.port@.len(),
                        i < nps@.len(),
                        *pr == nps@[i as int],
                        rv == nps@[i as int],
                        sub == nps@.subrange(0, i as int),
                        f.net_port == Some(*nps),
                        nlv == nps@,
                        abi == abi_view(f.abi),
                        abi_ok(f.abi),
                        !fragment_unpopulated(f),
                        cfg.variables.wf(),
                        built_vars(opt_vec_view(f.variable), cfg.variables@),
                        crate::config::rules_wf(
                            pb_view(cfg.rules_path_beneath@),
                            cfg.handled_fs,
                        ),
                        cfg.handled_fs == (base_fs | or_fold(plv, rule_fs_fn(abi))),
                        cfg.scoped == or_fold(rlv, stmt_scope_fn(abi)),
                        forall|t: Seq<TokenModel>| #[trigger]
                            al_lookup(pb_view(cfg.rules_path_beneath@), t) == (if or_fold(
                                plv,
                                pb_rule_fn(abi, t),
                            ) == 0 {
                                None::<u64>
                            } else {
                                Some(or_fold(plv, pb_rule_fn(abi, t)))
                            }),
                        access == rule_net_bits(rv, abi),
                        access & cfg.handled_net == access,
                        cfg.handled_net == (base_net | or_fold(
                            nps@.subrange(0, i + 1),
                            rule_net_fn(abi),
                        )),
                        crate::config::ports_wf(cfg.rules_net_port@, cfg.handled_net),
                        forall|p: u64| #[trigger]
                            al_lookup(cfg.rules_net_port@, p) == (if (or_fold(
                                sub,
                                np_rule_fn(abi, p),
                            ) | partial_ports(pr.port@, j as int, access, p)) == 0 {
                                None::<u64>
                            } else {
                                Some(
                                    or_fold(sub, np_rule_fn(abi, p)) | partial_ports(
                                        pr.port@,
                                        j as int,
                                        access,
                                        p,
                                    ),
                                )
                            }),
                    decreases m - j,
                {
                    proof {
                        lemma_grow_facts();
                        crate::config::lemma_u64_lt_strict_order();
                    }
                    let port = pr.port[j];
                    let ghost pre = cfg.rules_net_port@;
                    if access != 0 {
                        crate::config::np_insert_or(&mut cfg.rules_net_port, port, access);
                        proof {
                            let now = cfg.rules_net_port@;
                            let h = cfg.handled_net;
                            assert forall|q: int| 0 <= q < now.len() implies (#[trigger] now[q]).1
                                != 0 && now[q].1 & h == now[q].1 by {
                                crate::assoc::lemma_al_index_lookup(
                                    now,
                                    crate::config::u64_lt(),
                                    q,
                                );
                                assert(al_lookup(now, now[q].0) == Some(now[q].1));
                                if now[q].0 == port {
                                    let ob = crate::config::opt_bits(al_lookup(pre, port));
                                    assert(now[q].1 == ob | access);
                                    if al_lookup(pre, port) is Some {
                                        crate::assoc::lemma_al_lookup_index(pre, port);
                                        let w = choose|w: int|
                                            0 <= w < pre.len() && (#[trigger] pre[w]).0 == port
                                                && pre[w].1 == ob;
                                        assert(ob & h == ob);
                                        assert((ob | access) & h == (ob | access));
                                        assert((ob | access) != 0);
                                    } else {
                                        assert(now[q].1 == (0u64 | access));
                                        assert((0u64 | access) == access);
                                    }
                                } else {
                                    assert(al_lookup(now, now[q].0) == al_lookup(pre, now[q].0));
                                    crate::assoc::lemma_al_lookup_index(pre, now[q].0);
                                    let w = choose|w: int|
                                        0 <= w < pre.len() && (#[trigger] pre[w]).0 == now[q].0
                                            && pre[w].1 == now[q].1;
                                }
                            }
                            assert forall|p: u64| #[trigger]
                                al_lookup(now, p) == (if (or_fold(sub, np_rule_fn(abi, p))
                                | partial_ports(pr.port@, j + 1, access, p)) == 0 {
                                None::<u64>
                            } else {
                                Some(
                                    or_fold(sub, np_rule_fn(abi, p)) | partial_ports(
                                        pr.port@,
                                        j + 1,
                                        access,
                                        p,
                                    ),
                                )
                            }) by {
                                let xb = or_fold(sub, np_rule_fn(abi, p));
                                let av2 = access;
                                if p == port {
                                    assert(pr.port@[j as int] == port);
                                    assert(partial_ports(pr.port@, j + 1, access, p) == access);
                                    assert(al_lookup(now, port) == Some(
                                        crate::config::opt_bits(al_lookup(pre, port)) | access,
                                    ));
                                    let yk = partial_ports(pr.port@, j as int, access, port);
                                    assert(yk == 0 || yk == access);
                                    if (xb | yk) == 0 {
                                        assert(al_lookup(pre, port) is None);
                                        assert(xb == 0);
                                        assert((0u64 | av2) == (xb | av2));
                                    } else {
                                        assert(al_lookup(pre, port) == Some(xb | yk));
                                        if yk == 0 {
                                            assert(((xb | 0) | av2) == (xb | av2));
                                        } else {
                                            assert(((xb | av2) | av2) == (xb | av2));
                                        }
                                    }
                                    assert((xb | av2) != 0);
                                } else {
                                    assert(al_lookup(now, p) == al_lookup(pre, p));
                                    assert(partial_ports(pr.port@, j + 1, access, p)
                                        == partial_ports(pr.port@, j as int, access, p)) by {
                                        if exists|jj: int|
                                            0 <= jj < j + 1 && (#[trigger] pr.port@[jj]) == p {
                                            let jj = choose|jj: int|
                                                0 <= jj < j + 1 && (#[trigger] pr.port@[jj])
                                                    == p;
                                            assert(jj < j);
                                        }
                                    }
                                }
                            }
                        }
                    } else {
                        proof {
                            assert forall|p: u64| #[trigger]
                                al_lookup(cfg.rules_net_port@, p) == (if (or_fold(
                                sub,
                                np_rule_fn(abi, p),
                            ) | partial_ports(pr.port@, j + 1, access, p)) == 0 {
                                None::<u64>
                            } else {
                                Some(
                                    or_fold(sub, np_rule_fn(abi, p)) | partial_ports(
                                        pr.port@,
                                        j + 1,
                                        access,
                                        p,
                                    ),
                                )
                            }) by {
                                assert(partial_ports(pr.port@, j + 1, access, p) == 0);
                                assert(partial_ports(pr.port@, j as int, access, p) == 0);
                            }
                        }
                    }
                    j = j + 1;
                }
                proof {
                    assert forall|p: u64| #[trigger]
                        al_lookup(cfg.rules_net_port@, p) == (if or_fold(
                        nsub,
                        np_rule_fn(abi, p),
                    ) == 0 {
                        None::<u64>
                    } else {
                        Some(or_fold(nsub, np_rule_fn(abi, p)))
                    }) by {
                        lemma_or_fold_snoc(sub, rv, np_rule_fn(abi, p));
                        assert(partial_ports(pr.port@, m as int, access, p) == (
                        if rv.port@.contains(p) {
                            access
                        } else {
                            0
                        })) by {
                            if rv.port@.contains(p) {
                                let w = choose|w: int|
                                    0 <= w < rv.port@.len() && rv.port@[w] == p;
                                assert(0 <= w < m && (pr.port@[w]) == p);
                            }
                            if exists|jj: int|
                                0 <= jj < m && (#[trigger] pr.port@[jj]) == p {
                                let jj = choose|jj: int|
                                    0 <= jj < m && (#[trigger] pr.port@[jj]) == p;
                                assert(rv.port@[jj] == p);
                                assert(rv.port@.contains(p));
                            }
                        }
                    }
                    assert(port_rule_ok(rv, abi));
                }
                i = i + 1;
            }
            proof {
                assert(nps@.subrange(0, n as int) =~= nps@);
            }
        }
        proof {
            assert(cfg.handled_net == (base_net | or_fold(nlv, rule_net_fn(abi)))) by {
                if f.net_port is None {
                    assert(nlv.len() == 0);
                    lemma_grow_facts();
                    assert((base_net | 0u64) == base_net);
                }
            }
            assert forall|p: u64| #[trigger]
                al_lookup(cfg.rules_net_port@, p) == (if or_fold(nlv, np_rule_fn(abi, p)) == 0 {
                None::<u64>
            } else {
                Some(or_fold(nlv, np_rule_fn(abi, p)))
            }) by {
                if f.net_port is None {
                    assert(nlv.len() == 0);
                    assert(or_fold(nlv, np_rule_fn(abi, p)) == 0);
                    assert(cfg.rules_net_port@.len() == 0);
                }
            }
            assert(crate::config::vars_wf(cfg.variables@));
            assert(crate::config::wf_model(cfg@));
            assert(fragment_ok(f));
        }
        Ok(cfg)
    }
}

} // verus!
