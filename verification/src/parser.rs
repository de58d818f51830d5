//! Template strings: ordered sequences of literal-text runs and variable
//! references, parsed from raw strings by a single-pass scan.

use vstd::prelude::*;
use crate::strutil::{dec_chars, usize_to_string};
use crate::variable::{name_error_of, valid_name, Name, NameError, NameErrorModel};

verus! {

/// Mathematical model of one template token.
pub enum TokenModel {
    Text(Seq<char>),
    Var(Seq<char>),
}

/// One token of a template: a literal-text run or a variable reference.
#[derive(Clone, Debug, PartialEq, Eq)]
pub enum TemplateToken {
    Text(String),
    Var(Name),
}

impl View for TemplateToken {
    type V = TokenModel;

    open spec fn view(&self) -> TokenModel {
        match self {
            TemplateToken::Text(t) => TokenModel::Text(t@),
            TemplateToken::Var(n) => TokenModel::Var(n@),
        }
    }
}

/// An ordered token sequence, expanded at resolution time.
#[derive(Clone, Debug, PartialEq, Eq)]
pub struct TemplateString(pub Vec<TemplateToken>);

/// The model of a token vector: each token replaced by its model.
pub open spec fn tokens_view(v: Seq<TemplateToken>) -> Seq<TokenModel> {
    v.map_values(|t: TemplateToken| t@)
}

impl View for TemplateString {
    type V = Seq<TokenModel>;

    open spec fn view(&self) -> Seq<TokenModel> {
        tokens_view(self.0@)
    }
}

/// One token in isolation is acceptable: a non-empty text run or a valid
/// name.
pub open spec fn tok_ok(t: TokenModel) -> bool {
    match t {
        TokenModel::Text(x) => x.len() > 0,
        TokenModel::Var(n) => valid_name(n),
    }
}

/// Well-formed token sequences: text runs are non-empty and coalesced, and
/// every referenced name is valid.
pub open spec fn wf_tokens(ts: Seq<TokenModel>) -> bool {
    &&& forall|i: int| 0 <= i < ts.len() ==> tok_ok(#[trigger] ts[i])
    &&& forall|i: int|
        0 <= i && i + 1 < ts.len() ==> !((#[trigger] ts[i]) is Text && ts[i + 1] is Text)
}

/// Mathematical model of a template parse error.
pub enum TemplateErrorModel {
    Unclosed { offset: int },
    BadName { offset: int, source: NameErrorModel },
}

/// Why a raw string is not a template: an unterminated `${`, or an invalid
/// name between the braces.  Offsets are character positions: an unterminated
/// reference cites its opening `${`, a bad name the position inside the
/// braces.
#[derive(Clone, Debug, PartialEq, Eq)]
pub enum TemplateError {
    UnclosedVariable { offset: usize },
    InvalidName { offset: usize, source: NameError },
}

impl View for TemplateError {
    type V = TemplateErrorModel;

    open spec fn view(&self) -> TemplateErrorModel {
        match self {
            TemplateError::UnclosedVariable { offset } => TemplateErrorModel::Unclosed {
                offset: *offset as int,
            },
            TemplateError::InvalidName { offset, source } => TemplateErrorModel::BadName {
                offset: *offset as int,
                source: source@,
            },
        }
    }
}

/// Appends a text run, coalescing with a trailing text token.
pub open spec fn push_text_model(ts: Seq<TokenModel>, text: Seq<char>) -> Seq<TokenModel> {
    if text.len() == 0 {
        ts
    } else if ts.len() > 0 && ts.last() is Text {
        ts.update(ts.len() - 1, TokenModel::Text(ts.last()->Text_0 + text))
    } else {
        ts.push(TokenModel::Text(text))
    }
}

/// Scanner state: a text run started at an offset, a text run with a pending
/// `$`, or an open variable reference whose name starts at an offset.
pub enum ScanState {
    Text(int),
    Dollar(int),
    Var(int),
}

/// One pass of the template scanner from position `i` in `s`, with tokens
/// accumulated so far.  `$$` yields a literal `$`; `${` opens a reference
/// closed by the first `}`; any other `$` is literal text.
pub open spec fn scan(s: Seq<char>, i: int, state: ScanState, acc: Seq<TokenModel>) -> Result<
    Seq<TokenModel>,
    TemplateErrorModel,
>
    decreases s.len() - i,
{
    if i < 0 || i >= s.len() {
        match state {
            ScanState::Text(ts) => Ok(push_text_model(acc, s.subrange(ts, s.len() as int))),
            ScanState::Dollar(ts) => Ok(push_text_model(acc, s.subrange(ts, s.len() as int))),
            ScanState::Var(ns) => Err(TemplateErrorModel::Unclosed { offset: ns - 2 }),
        }
    } else {
        let c = s[i];
        match state {
            ScanState::Text(ts) => {
                if c == '$' {
                    scan(s, i + 1, ScanState::Dollar(ts), acc)
                } else {
                    scan(s, i + 1, ScanState::Text(ts), acc)
                }
            },
            ScanState::Dollar(ts) => {
                if c == '$' {
                    scan(s, i + 1, ScanState::Text(i + 1), push_text_model(acc, s.subrange(ts, i)))
                } else if c == '{' {
                    scan(
                        s,
                        i + 1,
                        ScanState::Var(i + 1),
                        push_text_model(acc, s.subrange(ts, i - 1)),
                    )
                } else {
                    scan(s, i + 1, ScanState::Text(ts), acc)
                }
            },
            ScanState::Var(ns) => {
                if c == '}' {
                    let name = s.subrange(ns, i);
                    if valid_name(name) {
                        scan(s, i + 1, ScanState::Text(i + 1), acc.push(TokenModel::Var(name)))
                    } else {
                        Err(
                            TemplateErrorModel::BadName {
                                offset: ns,
                                source: name_error_of(name),
                            },
                        )
                    }
                } else {
                    scan(s, i + 1, ScanState::Var(ns), acc)
                }
            },
        }
    }
}

/// The template denoted by a raw string, or the error its scan hits.
pub open spec fn spec_parse(s: Seq<char>) -> Result<Seq<TokenModel>, TemplateErrorModel> {
    scan(s, 0, ScanState::Text(0), Seq::empty())
}

/// The characters a single token serializes to.
pub open spec fn token_chars(t: TokenModel) -> Seq<char> {
    match t {
        TokenModel::Text(s) => s,
        TokenModel::Var(n) => "${"@ + n + "}"@,
    }
}

/// The raw string a token sequence serializes to.
pub open spec fn spec_serialize(ts: Seq<TokenModel>) -> Seq<char>
    decreases ts.len(),
{
    if ts.len() == 0 {
        Seq::empty()
    } else {
        token_chars(ts[0]) + spec_serialize(ts.drop_first())
    }
}

/// Exec scanner state, mirroring [`ScanState`] with concrete offsets.
enum TemplateState {
    Text(usize),
    FirstDollar(usize),
    Variable(usize),
}

impl TemplateState {
    spec fn model(&self) -> ScanState {
        match self {
            TemplateState::Text(ts) => ScanState::Text(*ts as int),
            TemplateState::FirstDollar(ts) => ScanState::Dollar(*ts as int),
            TemplateState::Variable(ns) => ScanState::Var(*ns as int),
        }
    }
}

/// Appends a text run to the token vector, merging adjacent text.
fn push_text(tokens: &mut Vec<TemplateToken>, txt: &str)
    ensures
        tokens_view(final(tokens)@) == push_text_model(tokens_view(old(tokens)@), txt@),
{
    if txt.unicode_len() == 0 {
        assert(tokens_view(tokens@) =~= push_text_model(tokens_view(tokens@), txt@));
        return;
    }
    let n = tokens.len();
    let mut merge = false;
    if n > 0 {
        merge = match &tokens[n - 1] {
            TemplateToken::Text(_) => true,
            TemplateToken::Var(_) => false,
        };
    }
    if merge {
        match tokens.pop() {
            Some(TemplateToken::Text(mut t)) => {
                t.append(txt);
                tokens.push(TemplateToken::Text(t));
                proof {
                    assert(tokens_view(tokens@) =~= push_text_model(
                        tokens_view(old(tokens)@),
                        txt@,
                    ));
                }
            },
            _ => {
                proof {
                    assert(false);
                }
            },
        }
    } else {
        tokens.push(TemplateToken::Text(txt.to_owned()));
        proof {
            assert(tokens_view(tokens@) =~= push_text_model(tokens_view(old(tokens)@), txt@));
        }
    }
}

impl TemplateString {
    /// A template made of one literal text run.
    pub fn from_text(text: &str) -> (r: TemplateString)
        requires
            text@.len() > 0,
        ensures
            r@ == seq![TokenModel::Text(text@)],
    {
        let tokens = vec![TemplateToken::Text(text.to_owned())];
        let r = TemplateString(tokens);
        proof {
            assert(r@ =~= seq![TokenModel::Text(text@)]);
        }
        r
    }

    /// Parses a raw string by the single-pass scan that [`spec_parse`]
    /// describes.
    pub fn parse(s: &str) -> (r: Result<TemplateString, TemplateError>)
        ensures
            match r {
                Ok(t) => spec_parse(s@) == Ok::<Seq<TokenModel>, TemplateErrorModel>(t@),
                Err(e) => spec_parse(s@) == Err::<Seq<TokenModel>, TemplateErrorModel>(e@),
            },
    {
        let n = s.unicode_len();
        let mut tokens: Vec<TemplateToken> = Vec::new();
        let mut state = TemplateState::Text(0);
        let mut i: usize = 0;
        proof {
            assert(tokens_view(tokens@) =~= Seq::<TokenModel>::empty());
        }
        while i < n
            invariant
                i <= n,
                n == s@.len(),
                match state {
                    TemplateState::Text(ts) => ts <= i,
                    TemplateState::FirstDollar(ts) => ts + 1 <= i && i >= 1,
                    TemplateState::Variable(ns) => 2 <= ns && ns <= i,
                },
                scan(s@, i as int, state.model(), tokens_view(tokens@)) == spec_parse(s@),
            decreases n - i,
        {
            let c = s.get_char(i);
            let ghost pre_state = state.model();
            let ghost pre_tokens = tokens_view(tokens@);
            match state {
                TemplateState::Text(ts) => {
                    if c == '$' {
                        state = TemplateState::FirstDollar(ts);
                    }
                },
                TemplateState::FirstDollar(ts) => {
                    if c == '$' {
                        let run = s.substring_char(ts, i);
                        push_text(&mut tokens, run);
                        state = TemplateState::Text(i + 1);
                    } else if c == '{' {
                        let run = s.substring_char(ts, i - 1);
                        push_text(&mut tokens, run);
                        state = TemplateState::Variable(i + 1);
                    } else {
                        state = TemplateState::Text(ts);
                    }
                },
                TemplateState::Variable(ns) => {
                    if c == '}' {
                        let raw = s.substring_char(ns, i);
                        match Name::from_str(raw) {
                            Ok(name) => {
                                tokens.push(TemplateToken::Var(name));
                                proof {
                                    assert(tokens_view(tokens@) =~= pre_tokens.push(
                                        TokenModel::Var(raw@),
                                    ));
                                }
                                state = TemplateState::Text(i + 1);
                            },
                            Err(e) => {
                                return Err(TemplateError::InvalidName { offset: ns, source: e });
                            },
                        }
                    }
                },
            }
            i = i + 1;
        }
        match state {
            TemplateState::Text(ts) => {
                let run = s.substring_char(ts, n);
                push_text(&mut tokens, run);
                Ok(TemplateString(tokens))
            },
            TemplateState::FirstDollar(ts) => {
                let run = s.substring_char(ts, n);
                push_text(&mut tokens, run);
                Ok(TemplateString(tokens))
            },
            TemplateState::Variable(ns) => {
                Err(TemplateError::UnclosedVariable { offset: ns - 2 })
            },
        }
    }

    /// Writes the template back as a raw string: text runs verbatim, each
    /// reference as `${name}`.
    pub fn serialize(&self) -> (r: String)
        ensures
            r@ == spec_serialize(self@),
    {
        let mut out = String::new();
        let n = self.0.len();
        let mut i: usize = 0;
        proof {
            assert(self@.skip(0) =~= self@);
            assert(out@ + spec_serialize(self@) =~= spec_serialize(self@));
        }
        while i < n
            invariant
                i <= n,
                n == self.0@.len(),
                out@ + spec_serialize(self@.skip(i as int)) == spec_serialize(self@),
            decreases n - i,
        {
            let ghost pre = out@;
            match &self.0[i] {
                TemplateToken::Text(t) => {
                    out.append(t.as_str());
                },
                TemplateToken::Var(name) => {
                    out.append("${");
                    out.append(name.as_str());
                    out.append("}");
                },
            }
            proof {
                assert(self@.skip(i as int).drop_first() =~= self@.skip(i + 1));
                assert(self@.skip(i as int)[0] == self.0@[i as int]@);
                assert(out@ + spec_serialize(self@.skip(i + 1)) =~= spec_serialize(self@));
            }
            i = i + 1;
        }
        proof {
            assert(self@.skip(n as int) =~= Seq::<TokenModel>::empty());
            assert(out@ =~= spec_serialize(self@));
        }
        out
    }
}

/// A text run the scanner reads back verbatim: no `$` directly followed by
/// `$` or `{`, and a trailing `$` only in the template's last token (where
/// nothing follows that could pair with it).
pub open spec fn serializable_text(x: Seq<char>, last: bool) -> bool {
    &&& forall|k: int|
        0 <= k && k + 1 < x.len() && (#[trigger] x[k]) == '$' ==> x[k + 1] != '$' && x[k + 1]
            != '{'
    &&& (x.len() > 0 && x[x.len() - 1] == '$' ==> last)
}

/// Every text run of the sequence re-scans as itself.
pub open spec fn serializable_texts(ts: Seq<TokenModel>) -> bool {
    forall|i: int|
        0 <= i < ts.len() ==> ((#[trigger] ts[i]) is Text ==> serializable_text(
            ts[i]->Text_0,
            i == ts.len() - 1,
        ))
}

proof fn lemma_push_text_wf(acc: Seq<TokenModel>, text: Seq<char>)
    requires
        wf_tokens(acc),
    ensures
        wf_tokens(push_text_model(acc, text)),
{
    let r = push_text_model(acc, text);
    if text.len() == 0 {
    } else if acc.len() > 0 && acc.last() is Text {
        let m = acc.len() - 1;
        assert forall|i: int| 0 <= i < r.len() implies tok_ok(#[trigger] r[i]) by {
            if i < m {
                assert(r[i] == acc[i]);
            } else {
                assert(r[i] == TokenModel::Text(acc.last()->Text_0 + text));
            }
        }
        assert forall|i: int| 0 <= i && i + 1 < r.len() implies !((#[trigger] r[i]) is Text && r[i + 1]
            is Text) by {
            assert(r[i] == acc[i]);
            if i + 1 < m {
                assert(r[i + 1] == acc[i + 1]);
            }
        }
    } else {
        assert forall|i: int| 0 <= i < r.len() implies tok_ok(#[trigger] r[i]) by {
            if i < acc.len() {
                assert(r[i] == acc[i]);
            }
        }
        assert forall|i: int| 0 <= i && i + 1 < r.len() implies !((#[trigger] r[i]) is Text && r[i + 1]
            is Text) by {
            assert(r[i] == acc[i]);
            if i + 1 < acc.len() {
                assert(r[i + 1] == acc[i + 1]);
            }
        }
    }
}

#[verifier::rlimit(80)]
proof fn lemma_scan_wf(s: Seq<char>, i: int, state: ScanState, acc: Seq<TokenModel>)
    requires
        wf_tokens(acc),
    ensures
        scan(s, i, state, acc) is Ok ==> wf_tokens(scan(s, i, state, acc)->Ok_0),
    decreases s.len() - i,
{
    if i < 0 || i >= s.len() {
        match state {
            ScanState::Text(ts) => {
                lemma_push_text_wf(acc, s.subrange(ts, s.len() as int));
            },
            ScanState::Dollar(ts) => {
                lemma_push_text_wf(acc, s.subrange(ts, s.len() as int));
            },
            ScanState::Var(_) => {},
        }
    } else {
        let c = s[i];
        match state {
            ScanState::Text(ts) => {
                if c == '$' {
                    lemma_scan_wf(s, i + 1, ScanState::Dollar(ts), acc);
                } else {
                    lemma_scan_wf(s, i + 1, ScanState::Text(ts), acc);
                }
            },
            ScanState::Dollar(ts) => {
                if c == '$' {
                    lemma_push_text_wf(acc, s.subrange(ts, i));
                    lemma_scan_wf(
                        s,
                        i + 1,
                        ScanState::Text(i + 1),
                        push_text_model(acc, s.subrange(ts, i)),
                    );
                } else if c == '{' {
                    lemma_push_text_wf(acc, s.subrange(ts, i - 1));
                    lemma_scan_wf(
                        s,
                        i + 1,
                        ScanState::Var(i + 1),
                        push_text_model(acc, s.subrange(ts, i - 1)),
                    );
                } else {
                    lemma_scan_wf(s, i + 1, ScanState::Text(ts), acc);
                }
            },
            ScanState::Var(ns) => {
                if c == '}' {
                    let name = s.subrange(ns, i);
                    if valid_name(name) {
                        let acc2 = acc.push(TokenModel::Var(name));
                        assert(wf_tokens(acc2)) by {
                            assert forall|k: int| 0 <= k < acc2.len() implies tok_ok(
                                #[trigger] acc2[k],
                            ) by {
                                if k < acc.len() {
                                    assert(acc2[k] == acc[k]);
                                }
                            }
                            assert forall|k: int| 0 <= k && k + 1 < acc2.len() implies !((
                            #[trigger] acc2[k]) is Text && acc2[k + 1] is Text) by {
                                assert(acc2[k] == acc[k]);
                                if k + 1 < acc.len() {
                                    assert(acc2[k + 1] == acc[k + 1]);
                                }
                            }
                        }
                        lemma_scan_wf(s, i + 1, ScanState::Text(i + 1), acc2);
                    }
                } else {
                    lemma_scan_wf(s, i + 1, ScanState::Var(ns), acc);
                }
            },
        }
    }
}

/// What a successful parse returns is always a well-formed token sequence:
/// text runs non-empty and coalesced, names valid.
pub proof fn lemma_spec_parse_wf(s: Seq<char>)
    ensures
        spec_parse(s) is Ok ==> wf_tokens(spec_parse(s)->Ok_0),
{
    lemma_scan_wf(s, 0, ScanState::Text(0), Seq::empty());
}

proof fn lemma_scan_text_run(s: Seq<char>, i: int, j: int, ts: int, acc: Seq<TokenModel>)
    requires
        0 <= ts <= i <= j <= s.len(),
        forall|k: int|
            i <= k && k + 1 < j && (#[trigger] s[k]) == '$' ==> s[k + 1] != '$' && s[k + 1] != '{',
    ensures
        scan(s, i, ScanState::Text(ts), acc) == (if j > i && s[j - 1] == '$' {
            scan(s, j, ScanState::Dollar(ts), acc)
        } else {
            scan(s, j, ScanState::Text(ts), acc)
        }),
    decreases j - i,
{
    if i < j {
        if s[i] == '$' {
            assert(scan(s, i, ScanState::Text(ts), acc) == scan(
                s,
                i + 1,
                ScanState::Dollar(ts),
                acc,
            ));
            if i + 1 < j {
                assert(s[i + 1] != '$' && s[i + 1] != '{');
                assert(scan(s, i + 1, ScanState::Dollar(ts), acc) == scan(
                    s,
                    i + 2,
                    ScanState::Text(ts),
                    acc,
                ));
                lemma_scan_text_run(s, i + 2, j, ts, acc);
            }
        } else {
            assert(scan(s, i, ScanState::Text(ts), acc) == scan(
                s,
                i + 1,
                ScanState::Text(ts),
                acc,
            ));
            lemma_scan_text_run(s, i + 1, j, ts, acc);
        }
    }
}

proof fn lemma_scan_name_run(s: Seq<char>, i: int, j: int, ns: int, acc: Seq<TokenModel>)
    requires
        0 <= ns <= i <= j <= s.len(),
        forall|k: int| i <= k < j ==> (#[trigger] s[k]) != '}',
    ensures
        scan(s, i, ScanState::Var(ns), acc) == scan(s, j, ScanState::Var(ns), acc),
    decreases j - i,
{
    if i < j {
        lemma_scan_name_run(s, i + 1, j, ns, acc);
    }
}

proof fn lemma_name_chars_plain(n: Seq<char>)
    requires
        valid_name(n),
    ensures
        forall|k: int| 0 <= k < n.len() ==> (#[trigger] n[k]) != '}',
        forall|k: int| 0 <= k < n.len() ==> (#[trigger] n[k]) != '$',
{
    assert forall|k: int| 0 <= k < n.len() implies (#[trigger] n[k]) != '}' && n[k] != '$' by {
        assert(crate::strutil::is_name_char(n[k]));
        vstd::utf8::char_u32_cast(n[k], n[k] as u32);
        vstd::utf8::char_u32_cast('}', '}' as u32);
        vstd::utf8::char_u32_cast('$', '$' as u32);
    }
}

proof fn lemma_tail_wf(rest: Seq<TokenModel>)
    requires
        wf_tokens(rest),
        serializable_texts(rest),
        rest.len() > 0,
    ensures
        wf_tokens(rest.drop_first()),
        serializable_texts(rest.drop_first()),
{
    let t = rest.drop_first();
    assert forall|k: int| 0 <= k < t.len() implies tok_ok(#[trigger] t[k]) && (t[k] is Text
        ==> serializable_text(t[k]->Text_0, k == t.len() - 1)) by {
        assert(t[k] == rest[k + 1]);
    }
    assert forall|k: int| 0 <= k && k + 1 < t.len() implies !((#[trigger] t[k]) is Text && t[k + 1]
        is Text) by {
        assert(t[k] == rest[k + 1]);
        assert(t[k + 1] == rest[k + 2]);
    }
}

#[verifier::rlimit(100)]
proof fn lemma_scan_serialize(s: Seq<char>, i: int, ts: int, acc: Seq<TokenModel>, rest: Seq<
    TokenModel,
>)
    requires
        0 <= ts <= i <= s.len(),
        s.subrange(i, s.len() as int) == spec_serialize(rest),
        forall|k: int|
            ts <= k && k + 1 < i && (#[trigger] s[k]) == '$' ==> s[k + 1] != '$' && s[k + 1]
                != '{',
        i > ts ==> s[i - 1] != '$',
        wf_tokens(rest),
        serializable_texts(rest),
        i > ts ==> (rest.len() == 0 || rest[0] is Var),
        acc.len() > 0 && acc.last() is Text ==> (i == ts && (rest.len() == 0 || rest[0] is Var)),
    ensures
        scan(s, i, ScanState::Text(ts), acc) == Ok::<Seq<TokenModel>, TemplateErrorModel>(
            push_text_model(acc, s.subrange(ts, i)) + rest,
        ),
    decreases rest.len(),
{
    let pending = s.subrange(ts, i);
    if rest.len() == 0 {
        assert(s.subrange(i, s.len() as int).len() == 0);
        assert(i == s.len());
        assert(push_text_model(acc, pending) + rest =~= push_text_model(acc, pending));
    } else {
        let head = rest[0];
        let tail = rest.drop_first();
        lemma_tail_wf(rest);
        assert(spec_serialize(rest) == token_chars(head) + spec_serialize(tail));
        let hc = token_chars(head);
        let j = i + hc.len();
        assert(j <= s.len()) by {
            assert(s.subrange(i, s.len() as int).len() == hc.len() + spec_serialize(tail).len());
        }
        assert forall|k: int| 0 <= k < hc.len() implies s[i + k] == hc[k] by {
            assert(s.subrange(i, s.len() as int)[k] == s[i + k]);
            assert((token_chars(head) + spec_serialize(tail))[k] == hc[k]);
        }
        assert(s.subrange(j, s.len() as int) =~= spec_serialize(tail)) by {
            assert forall|k: int| 0 <= k < s.len() - j implies s.subrange(j, s.len() as int)[k]
                == spec_serialize(tail)[k] by {
                assert(s.subrange(i, s.len() as int)[hc.len() + k] == s[j + k]);
                assert((token_chars(head) + spec_serialize(tail))[hc.len() + k]
                    == spec_serialize(tail)[k]);
            }
        }
        match head {
            TokenModel::Text(txt) => {
                // A pending run would sit directly before this text run; the
                // well-formedness preconditions rule that out.
                assert(i == ts);
                assert(txt.len() > 0);
                assert(serializable_text(txt, rest.len() == 1));
                assert forall|k: int|
                    i <= k && k + 1 < j && (#[trigger] s[k]) == '$' implies s[k + 1] != '$' && s[k
                    + 1] != '{' by {
                    assert(s[i + (k - i)] == hc[k - i]);
                    assert(hc[k - i] == txt[k - i]);
                    assert(s[i + (k + 1 - i)] == hc[k + 1 - i]);
                    assert(hc[k + 1 - i] == txt[k + 1 - i]);
                }
                lemma_scan_text_run(s, i, j, ts, acc);
                assert(s.subrange(ts, j) =~= txt);
                assert(s[j - 1] == txt[txt.len() - 1]) by {
                    assert(s[i + (txt.len() - 1)] == hc[txt.len() - 1]);
                }
                if s[j - 1] == '$' {
                    // A trailing dollar means this is the last token, so the
                    // scan ends here, in the pending-dollar state.
                    assert(rest.len() == 1);
                    assert(tail.len() == 0);
                    assert(spec_serialize(tail).len() == 0);
                    assert(j == s.len());
                    assert(scan(s, j, ScanState::Dollar(ts), acc) == Ok::<
                        Seq<TokenModel>,
                        TemplateErrorModel,
                    >(push_text_model(acc, s.subrange(ts, s.len() as int))));
                    assert(push_text_model(acc, pending) + rest =~= push_text_model(
                        acc,
                        s.subrange(ts, s.len() as int),
                    ));
                } else {
                    lemma_scan_serialize(s, j, ts, acc, tail);
                    assert(scan(s, j, ScanState::Text(ts), acc) == Ok::<
                        Seq<TokenModel>,
                        TemplateErrorModel,
                    >(push_text_model(acc, s.subrange(ts, j)) + tail));
                    assert(push_text_model(acc, pending) + rest =~= push_text_model(
                        acc,
                        s.subrange(ts, j),
                    ) + tail);
                }
            },
            TokenModel::Var(name) => {
                assert(valid_name(name));
                assert(hc == "${"@ + name + "}"@);
                reveal_strlit("${");
                reveal_strlit("}");
                assert(hc.len() == name.len() + 3);
                assert(s[i + 0] == hc[0]);
                assert(hc[0] == "${"@[0]);
                assert(s[i] == '$');
                assert(s[i + 1] == hc[1]);
                assert(hc[1] == "${"@[1]);
                assert(s[i + 1] == '{');
                let close = i + 2 + name.len();
                assert(s[close] == '}') by {
                    assert(s[i + (2 + name.len() as int)] == hc[2 + name.len() as int]);
                    assert(hc[2 + name.len() as int] == "}"@[0]);
                }
                assert forall|k: int| i + 2 <= k < close implies (#[trigger] s[k]) != '}' by {
                    assert(s[k] == hc[k - i]);
                    assert(hc[k - i] == name[k - i - 2]);
                    lemma_name_chars_plain(name);
                }
                // Step through `$` and `{`.
                assert(scan(s, i, ScanState::Text(ts), acc) == scan(
                    s,
                    i + 1,
                    ScanState::Dollar(ts),
                    acc,
                ));
                let flushed = push_text_model(acc, s.subrange(ts, i));
                assert(scan(s, i + 1, ScanState::Dollar(ts), acc) == scan(
                    s,
                    i + 2,
                    ScanState::Var(i + 2),
                    flushed,
                ));
                lemma_scan_name_run(s, i + 2, close, i + 2, flushed);
                assert(s.subrange(i + 2, close) =~= name) by {
                    assert forall|k: int| 0 <= k < name.len() implies s.subrange(i + 2, close)[k]
                        == name[k] by {
                        assert(s[i + 2 + k] == hc[2 + k]);
                        assert(hc[2 + k] == name[k]);
                    }
                }
                let acc2 = flushed.push(TokenModel::Var(name));
                assert(scan(s, close, ScanState::Var(i + 2), flushed) == scan(
                    s,
                    close + 1,
                    ScanState::Text(close + 1),
                    acc2,
                ));
                assert(s.subrange(close + 1, s.len() as int) =~= spec_serialize(tail)) by {
                    assert(close + 1 == j);
                }
                lemma_scan_serialize(s, close + 1, close + 1, acc2, tail);
                assert(s.subrange(close + 1, close + 1) =~= Seq::<char>::empty());
                assert(push_text_model(acc2, s.subrange(close + 1, close + 1)) == acc2);
                assert(push_text_model(acc, pending) + rest =~= acc2 + tail);
            },
        }
    }
}

/// Round trip: parsing the serialization of a well-formed template yields
/// the template again, provided every text run re-scans as itself.  A text
/// run holding `$$` or `${`, or ending in `$` with a reference behind it,
/// serializes ambiguously: `$$` in a text run parses back to a single `$`.
pub proof fn lemma_template_round_trip(t: Seq<TokenModel>)
    requires
        wf_tokens(t),
        serializable_texts(t),
    ensures
        spec_parse(spec_serialize(t)) == Ok::<Seq<TokenModel>, TemplateErrorModel>(t),
{
    let s = spec_serialize(t);
    assert(s.subrange(0, s.len() as int) =~= s);
    lemma_scan_serialize(s, 0, 0, Seq::empty(), t);
    assert(s.subrange(0, 0) =~= Seq::<char>::empty());
    assert(push_text_model(Seq::empty(), s.subrange(0, 0)) + t =~= t);
}

/// Order on single tokens: text runs before references, then by content.
pub open spec fn tok_lt(a: TokenModel, b: TokenModel) -> bool {
    match (a, b) {
        (TokenModel::Text(x), TokenModel::Text(y)) => crate::strutil::seq_char_lt(x, y),
        (TokenModel::Text(_), TokenModel::Var(_)) => true,
        (TokenModel::Var(_), TokenModel::Text(_)) => false,
        (TokenModel::Var(x), TokenModel::Var(y)) => crate::strutil::seq_char_lt(x, y),
    }
}

/// Lexicographic order on token sequences.
pub open spec fn toks_lt(a: Seq<TokenModel>, b: Seq<TokenModel>) -> bool
    decreases a.len(),
{
    if b.len() == 0 {
        false
    } else if a.len() == 0 {
        true
    } else if a[0] != b[0] {
        tok_lt(a[0], b[0])
    } else {
        toks_lt(a.drop_first(), b.drop_first())
    }
}

/// The template order as a function value, for the sorted rule maps.
pub open spec fn template_lt() -> spec_fn(Seq<TokenModel>, Seq<TokenModel>) -> bool {
    |a: Seq<TokenModel>, b: Seq<TokenModel>| toks_lt(a, b)
}

proof fn lemma_tok_lt_order(a: TokenModel, b: TokenModel, c: TokenModel)
    ensures
        !tok_lt(a, a),
        a != b ==> (tok_lt(a, b) || tok_lt(b, a)),
        !(tok_lt(a, b) && tok_lt(b, a)),
        tok_lt(a, b) && tok_lt(b, c) ==> tok_lt(a, c),
{
    crate::strutil::lemma_seq_char_lt_order();
}

proof fn lemma_toks_lt_irrefl(a: Seq<TokenModel>)
    ensures
        !toks_lt(a, a),
    decreases a.len(),
{
    if a.len() > 0 {
        lemma_toks_lt_irrefl(a.drop_first());
    }
}

proof fn lemma_toks_lt_connex(a: Seq<TokenModel>, b: Seq<TokenModel>)
    ensures
        a != b ==> (toks_lt(a, b) || toks_lt(b, a)),
        !(toks_lt(a, b) && toks_lt(b, a)),
    decreases a.len() + b.len(),
{
    if a.len() == 0 && b.len() == 0 {
        assert(a =~= b);
    }
    if a.len() > 0 && b.len() > 0 {
        lemma_tok_lt_order(a[0], b[0], b[0]);
        if a[0] == b[0] {
            lemma_toks_lt_connex(a.drop_first(), b.drop_first());
            if a.drop_first() == b.drop_first() {
                assert(a =~= b) by {
                    assert forall|i: int| 0 <= i < a.len() implies a[i] == b[i] by {
                        if i > 0 {
                            assert(a[i] == a.drop_first()[i - 1]);
                            assert(b[i] == b.drop_first()[i - 1]);
                        }
                    }
                }
            }
        }
    }
}

proof fn lemma_toks_lt_trans(a: Seq<TokenModel>, b: Seq<TokenModel>, c: Seq<TokenModel>)
    ensures
        toks_lt(a, b) && toks_lt(b, c) ==> toks_lt(a, c),
    decreases a.len() + b.len() + c.len(),
{
    if a.len() > 0 && b.len() > 0 && c.len() > 0 {
        lemma_tok_lt_order(a[0], b[0], c[0]);
        lemma_toks_lt_trans(a.drop_first(), b.drop_first(), c.drop_first());
    }
}

/// `template_lt()` is a strict total order.
pub proof fn lemma_template_lt_strict_order()
    ensures
        crate::assoc::strict_order(template_lt()),
{
    let lt = template_lt();
    assert forall|a: Seq<TokenModel>| !#[trigger] lt(a, a) by {
        lemma_toks_lt_irrefl(a);
    }
    assert forall|a: Seq<TokenModel>, b: Seq<TokenModel>| #[trigger] lt(a, b) implies !lt(
        b,
        a,
    ) by {
        lemma_toks_lt_connex(a, b);
    }
    assert forall|a: Seq<TokenModel>, b: Seq<TokenModel>|
        a != b implies #[trigger] lt(a, b) || #[trigger] lt(b, a) by {
        lemma_toks_lt_connex(a, b);
    }
    assert forall|a: Seq<TokenModel>, b: Seq<TokenModel>, c: Seq<TokenModel>|
        #[trigger] lt(a, b) && #[trigger] lt(b, c) implies lt(a, c) by {
        lemma_toks_lt_trans(a, b, c);
    }
}

/// Runtime equality of single tokens, matching model equality.
fn token_eq(a: &TemplateToken, b: &TemplateToken) -> (r: bool)
    ensures
        r == (a@ == b@),
{
    match (a, b) {
        (TemplateToken::Text(x), TemplateToken::Text(y)) => crate::strutil::str_eq(
            x.as_str(),
            y.as_str(),
        ),
        (TemplateToken::Var(x), TemplateToken::Var(y)) => x.same_as(y),
        _ => false,
    }
}

/// Runtime comparison of single tokens, matching [`tok_lt`].
fn token_lt(a: &TemplateToken, b: &TemplateToken) -> (r: bool)
    ensures
        r == tok_lt(a@, b@),
{
    match (a, b) {
        (TemplateToken::Text(x), TemplateToken::Text(y)) => crate::strutil::str_lt(
            x.as_str(),
            y.as_str(),
        ),
        (TemplateToken::Text(_), TemplateToken::Var(_)) => true,
        (TemplateToken::Var(_), TemplateToken::Text(_)) => false,
        (TemplateToken::Var(x), TemplateToken::Var(y)) => crate::strutil::str_lt(
            x.as_str(),
            y.as_str(),
        ),
    }
}

impl TemplateString {
    /// Runtime equality with another template, matching model equality.
    pub fn same_as(&self, other: &TemplateString) -> (r: bool)
        ensures
            r == (self@ == other@),
    {
        let an = self.0.len();
        let bn = other.0.len();
        if an != bn {
            return false;
        }
        let mut i: usize = 0;
        while i < an
            invariant
                i <= an,
                an == self@.len(),
                bn == other@.len(),
                an == bn,
                forall|j: int| 0 <= j < i ==> self@[j] == other@[j],
            decreases an - i,
        {
            if !token_eq(&self.0[i], &other.0[i]) {
                proof {
                    assert(self@[i as int] != other@[i as int]);
                }
                return false;
            }
            proof {
                assert(self@[i as int] == other@[i as int]);
            }
            i = i + 1;
        }
        proof {
            assert(self@ =~= other@);
        }
        true
    }

    /// Runtime comparison with another template, matching [`toks_lt`].
    pub fn before(&self, other: &TemplateString) -> (r: bool)
        ensures
            r == toks_lt(self@, other@),
    {
        let an = self.0.len();
        let bn = other.0.len();
        let mut i: usize = 0;
        proof {
            assert(self@.skip(0) =~= self@);
            assert(other@.skip(0) =~= other@);
        }
        while i < an && i < bn
            invariant
                i <= an,
                i <= bn,
                an == self@.len(),
                bn == other@.len(),
                toks_lt(self@, other@) == toks_lt(self@.skip(i as int), other@.skip(i as int)),
            decreases an - i,
        {
            if !token_eq(&self.0[i], &other.0[i]) {
                proof {
                    assert(self@.skip(i as int)[0] == self@[i as int]);
                    assert(other@.skip(i as int)[0] == other@[i as int]);
                }
                return token_lt(&self.0[i], &other.0[i]);
            }
            proof {
                assert(self@.skip(i as int)[0] == self@[i as int]);
                assert(other@.skip(i as int)[0] == other@[i as int]);
                assert(self@.skip(i as int).drop_first() =~= self@.skip(i + 1));
                assert(other@.skip(i as int).drop_first() =~= other@.skip(i + 1));
            }
            i = i + 1;
        }
        an < bn
    }

    /// An identical copy.
    pub fn duplicate(&self) -> (r: TemplateString)
        ensures
            r@ == self@,
    {
        let n = self.0.len();
        let mut tokens: Vec<TemplateToken> = Vec::new();
        let mut i: usize = 0;
        while i < n
            invariant
                i <= n,
                n == self.0@.len(),
                tokens_view(tokens@) =~= self@.subrange(0, i as int),
            decreases n - i,
        {
            let t = match &self.0[i] {
                TemplateToken::Text(x) => TemplateToken::Text(x.clone()),
                TemplateToken::Var(nm) => TemplateToken::Var(nm.duplicate()),
            };
            proof {
                assert(t@ == self@[i as int]);
            }
            let ghost pre = tokens@;
            tokens.push(t);
            proof {
                assert(tokens_view(pre).len() == pre.len());
                assert(pre.len() == i);
                assert forall|j: int| 0 <= j < i + 1 implies tokens_view(tokens@)[j]
                    == self@.subrange(0, i + 1)[j] by {
                    if j < i {
                        assert(tokens@[j] == pre[j]);
                        assert(tokens_view(tokens@)[j] == tokens_view(pre)[j]);
                    } else {
                        assert(tokens_view(tokens@)[j] == tokens@[j]@);
                    }
                }
                assert(tokens_view(tokens@) =~= self@.subrange(0, i + 1));
            }
            i = i + 1;
        }
        let r = TemplateString(tokens);
        proof {
            assert(self@.subrange(0, n as int) =~= self@);
        }
        r
    }
}

impl TemplateError {
    /// The human-readable description of this error.
    pub fn message(&self) -> (r: String)
        ensures
            match self {
                TemplateError::UnclosedVariable { offset } => r@
                    == "unclosed variable reference starting at position "@ + dec_chars(
                    *offset as nat,
                ),
                TemplateError::InvalidName { offset, source } => r@
                    == "invalid variable name at position "@ + dec_chars(*offset as nat) + ": "@
                    + source.message_model(),
            },
    {
        match self {
            TemplateError::UnclosedVariable { offset } => {
                let mut s = String::from_str("unclosed variable reference starting at position ");
                let d = usize_to_string(*offset);
                s.append(d.as_str());
                s
            },
            TemplateError::InvalidName { offset, source } => {
                let mut s = String::from_str("invalid variable name at position ");
                let d = usize_to_string(*offset);
                s.append(d.as_str());
                s.append(": ");
                let m = source.message();
                s.append(m.as_str());
                s
            },
        }
    }
}

} // verus!
