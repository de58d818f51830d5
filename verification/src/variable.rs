//! Variable names and the per-fragment variable table.

use vstd::prelude::*;
use crate::assoc::{
    al_lookup, al_sorted, el_sorted, lemma_al_index_lookup, lemma_al_insert, lemma_al_update,
    lemma_el_insert,
};
use crate::strutil::{
    char_seq_lt, check_ascii_alpha, check_name_char, is_ascii_alpha, is_name_char,
    lemma_char_seq_lt_strict_order, seq_char_lt, str_eq, str_lt,
};

verus! {

/// A well-formed variable name: an ASCII-alphabetic first character followed
/// by ASCII-alphanumeric characters or underscores.
pub open spec fn valid_name(s: Seq<char>) -> bool {
    &&& s.len() > 0
    &&& is_ascii_alpha(s[0])
    &&& forall|i: int| 0 <= i < s.len() ==> is_name_char(#[trigger] s[i])
}

/// A validated, case-sensitive variable name.
#[derive(Clone, Debug, PartialEq, Eq)]
pub struct Name {
    name: String,
}

impl View for Name {
    type V = Seq<char>;

    closed spec fn view(&self) -> Seq<char> {
        self.name@
    }
}

/// Mathematical model of a name error.
pub enum NameErrorModel {
    Empty,
    InvalidFirst(Seq<char>),
    InvalidChar(Seq<char>),
}

/// Why a string is not acceptable as a variable name.
#[derive(Clone, Debug, PartialEq, Eq)]
pub enum NameError {
    Empty,
    InvalidFirstCharacter(String),
    InvalidCharacter(String),
}

impl View for NameError {
    type V = NameErrorModel;

    open spec fn view(&self) -> NameErrorModel {
        match self {
            NameError::Empty => NameErrorModel::Empty,
            NameError::InvalidFirstCharacter(t) => NameErrorModel::InvalidFirst(t@),
            NameError::InvalidCharacter(t) => NameErrorModel::InvalidChar(t@),
        }
    }
}

/// The error an invalid name is rejected with.
pub open spec fn name_error_of(s: Seq<char>) -> NameErrorModel {
    if s.len() == 0 {
        NameErrorModel::Empty
    } else if !is_ascii_alpha(s[0]) {
        NameErrorModel::InvalidFirst(s)
    } else {
        NameErrorModel::InvalidChar(s)
    }
}

impl Name {
    /// Validates `s` as a variable name.
    pub fn from_str(s: &str) -> (r: Result<Name, NameError>)
        ensures
            r is Ok <==> valid_name(s@),
            r is Ok ==> r->Ok_0@ == s@,
            r is Err ==> r->Err_0@ == name_error_of(s@),
    {
        let n = s.unicode_len();
        if n == 0 {
            return Err(NameError::Empty);
        }
        if !check_ascii_alpha(s.get_char(0)) {
            return Err(NameError::InvalidFirstCharacter(s.to_owned()));
        }
        let mut i: usize = 0;
        while i < n
            invariant
                i <= n,
                n == s@.len(),
                n > 0,
                is_ascii_alpha(s@[0]),
                forall|j: int| 0 <= j < i ==> is_name_char(#[trigger] s@[j]),
            decreases n - i,
        {
            if !check_name_char(s.get_char(i)) {
                proof {
                    assert(!is_name_char(s@[i as int]));
                    assert(!valid_name(s@));
                }
                return Err(NameError::InvalidCharacter(s.to_owned()));
            }
            i = i + 1;
        }
        Ok(Name { name: s.to_owned() })
    }

    /// The name's characters.
    pub fn as_str(&self) -> (r: &str)
        ensures
            r@ == self@,
    {
        self.name.as_str()
    }

    /// Character-wise equality with another name.
    pub fn same_as(&self, other: &Name) -> (r: bool)
        ensures
            r == (self@ == other@),
    {
        str_eq(self.name.as_str(), other.name.as_str())
    }

    /// An identical copy.
    pub fn duplicate(&self) -> (r: Name)
        ensures
            r@ == self@,
    {
        Name { name: self.name.clone() }
    }
}

impl NameError {
    /// The message this error carries, as a character sequence.
    pub open spec fn message_model(&self) -> Seq<char> {
        match self {
            NameError::Empty => "name cannot be empty"@,
            NameError::InvalidFirstCharacter(t) => "invalid first character in name (must be ASCII alphabetic): "@
                + t@,
            NameError::InvalidCharacter(t) => "invalid character(s) in name (must be ASCII alphanumeric or '_'): "@
                + t@,
        }
    }

    /// The human-readable description of this error.
    pub fn message(&self) -> (r: String)
        ensures
            r@ == self.message_model(),
    {
        match self {
            NameError::Empty => String::from_str("name cannot be empty"),
            NameError::InvalidFirstCharacter(t) => {
                let mut s = String::from_str(
                    "invalid first character in name (must be ASCII alphabetic): ",
                );
                s.append(t.as_str());
                s
            },
            NameError::InvalidCharacter(t) => {
                let mut s = String::from_str(
                    "invalid character(s) in name (must be ASCII alphanumeric or '_'): ",
                );
                s.append(t.as_str());
                s
            },
        }
    }
}

/// The members of `new` are exactly the members of `old` plus `e`.
pub open spec fn added_member(new: Seq<Seq<char>>, old: Seq<Seq<char>>, e: Seq<char>) -> bool {
    forall|x: Seq<char>| #[trigger] new.contains(x) == (old.contains(x) || x == e)
}

/// The members of `new` are exactly the members of `a` and `b` together.
pub open spec fn union_members(new: Seq<Seq<char>>, a: Seq<Seq<char>>, b: Seq<Seq<char>>) -> bool {
    forall|x: Seq<char>| #[trigger] new.contains(x) == (a.contains(x) || b.contains(x))
}

/// A set of literal strings, kept as a strictly sorted vector so that equal
/// sets are equal values.
#[derive(Clone, Debug, PartialEq, Eq)]
pub struct StringSet {
    items: Vec<String>,
}

/// The contents of a string vector, as character sequences.
pub open spec fn strings_view(v: Seq<String>) -> Seq<Seq<char>> {
    v.map_values(|s: String| s@)
}

impl View for StringSet {
    type V = Seq<Seq<char>>;

    closed spec fn view(&self) -> Seq<Seq<char>> {
        strings_view(self.items@)
    }
}

impl StringSet {
    /// The canonical-form invariant: members strictly increase.
    pub open spec fn wf(&self) -> bool {
        el_sorted(self@, char_seq_lt())
    }

    /// The empty set.
    pub fn new() -> (r: StringSet)
        ensures
            r@ == Seq::<Seq<char>>::empty(),
            r.wf(),
    {
        let r = StringSet { items: Vec::new() };
        proof {
            assert(r@ =~= Seq::<Seq<char>>::empty());
        }
        r
    }

    /// How many members the set has.
    pub fn len(&self) -> (n: usize)
        ensures
            n == self@.len(),
    {
        self.items.len()
    }

    /// The member at a position of the sorted order.
    pub fn get(&self, i: usize) -> (r: &String)
        requires
            i < self@.len(),
        ensures
            r@ == self@[i as int],
    {
        &self.items[i]
    }

    /// Membership test.
    pub fn contains(&self, s: &str) -> (r: bool)
        ensures
            r == self@.contains(s@),
    {
        let n = self.items.len();
        let mut i: usize = 0;
        while i < n
            invariant
                i <= n,
                n == self@.len(),
                forall|j: int| 0 <= j < i ==> self@[j] != s@,
            decreases n - i,
        {
            if str_eq(self.items[i].as_str(), s) {
                assert(self@.contains(s@)) by {
                    assert(self@[i as int] == s@);
                }
                return true;
            }
            i = i + 1;
        }
        proof {
            if self@.contains(s@) {
                let j = choose|j: int| 0 <= j < self@.len() && self@[j] == s@;
                assert(false);
            }
        }
        false
    }

    /// Adds a member, keeping the sorted order; adding an existing member
    /// changes nothing.
    pub fn insert(&mut self, s: String)
        requires
            old(self).wf(),
        ensures
            final(self).wf(),
            added_member(final(self)@, old(self)@, s@),
    {
        let n = self.items.len();
        let mut p: usize = 0;
        while p < n && str_lt(self.items[p].as_str(), s.as_str())
            invariant
                p <= n,
                n == self@.len(),
                self.wf(),
                self@ == old(self)@,
                forall|j: int| 0 <= j < p ==> seq_char_lt(#[trigger] self@[j], s@),
            decreases n - p,
        {
            p = p + 1;
        }
        if p < n && str_eq(self.items[p].as_str(), s.as_str()) {
            proof {
                assert(self@[p as int] == s@);
                assert(self@.contains(s@));
                assert(added_member(self@, old(self)@, s@));
            }
            return;
        }
        proof {
            lemma_char_seq_lt_strict_order();
            let lt = char_seq_lt();
            if p < n {
                assert(self@[p as int] == self.items@[p as int]@);
                assert(!seq_char_lt(self@[p as int], s@));
                assert(self@[p as int] != s@);
                crate::strutil::lemma_seq_char_lt_connex(self@[p as int], s@);
                assert(seq_char_lt(s@, self@[p as int]));
            }
            assert forall|j: int| p <= j < self@.len() implies lt(s@, #[trigger] self@[j]) by {
                assert(seq_char_lt(s@, self@[p as int]));
                if j > p {
                    assert(lt(self@[p as int], self@[j]));
                    crate::strutil::lemma_seq_char_lt_trans(s@, self@[p as int], self@[j]);
                }
                assert(seq_char_lt(s@, self@[j]));
            }
            lemma_el_insert(self@, lt, p as int, s@);
        }
        let ghost pre = self@;
        let ghost sv = s@;
        self.items.insert(p, s);
        proof {
            assert(self@ =~= pre.insert(p as int, sv));
        }
    }

    /// Adds every member of `other`.
    pub fn insert_all(&mut self, other: &StringSet)
        requires
            old(self).wf(),
        ensures
            final(self).wf(),
            union_members(final(self)@, old(self)@, other@),
    {
        let n = other.items.len();
        let mut i: usize = 0;
        while i < n
            invariant
                i <= n,
                n == other@.len(),
                self.wf(),
                forall|x: Seq<char>|
                    self@.contains(x) == (old(self)@.contains(x) || other@.subrange(
                        0,
                        i as int,
                    ).contains(x)),
            decreases n - i,
        {
            let ghost pre = self@;
            let item = other.items[i].clone();
            assert(item@ == other@[i as int]);
            self.insert(item);
            proof {
                assert forall|x: Seq<char>|
                    self@.contains(x) == (old(self)@.contains(x) || other@.subrange(
                        0,
                        i + 1,
                    ).contains(x)) by {
                    let pre_sub = other@.subrange(0, i as int);
                    let new_sub = other@.subrange(0, i + 1);
                    if new_sub.contains(x) {
                        let j = choose|j: int| 0 <= j < new_sub.len() && new_sub[j] == x;
                        if j < i {
                            assert(pre_sub[j] == x);
                            assert(pre_sub.contains(x));
                        } else {
                            assert(x == other@[i as int]);
                        }
                    }
                    if pre_sub.contains(x) {
                        let j = choose|j: int| 0 <= j < pre_sub.len() && pre_sub[j] == x;
                        assert(new_sub[j] == x);
                        assert(new_sub.contains(x));
                    }
                    if x == other@[i as int] {
                        assert(new_sub[i as int] == x);
                        assert(new_sub.contains(x));
                    }
                }
            }
            i = i + 1;
        }
        proof {
            assert(other@.subrange(0, n as int) =~= other@);
            assert(union_members(self@, old(self)@, other@));
        }
    }

    /// The set holding exactly one string.
    pub fn singleton(s: String) -> (r: StringSet)
        ensures
            r@ =~= seq![s@],
            r.wf(),
    {
        let ghost sv = s@;
        let items = vec![s];
        let r = StringSet { items };
        proof {
            assert(r@ =~= seq![sv]);
        }
        r
    }

    /// Adds every string of `values`.
    pub fn insert_vec(&mut self, values: &Vec<String>)
        requires
            old(self).wf(),
        ensures
            final(self).wf(),
            union_members(final(self)@, old(self)@, strings_view(values@)),
    {
        let n = values.len();
        let ghost vv = strings_view(values@);
        let mut i: usize = 0;
        while i < n
            invariant
                i <= n,
                n == values@.len(),
                vv == strings_view(values@),
                self.wf(),
                forall|x: Seq<char>|
                    self@.contains(x) == (old(self)@.contains(x) || vv.subrange(
                        0,
                        i as int,
                    ).contains(x)),
            decreases n - i,
        {
            let ghost pre = self@;
            let item = values[i].clone();
            assert(item@ == vv[i as int]);
            self.insert(item);
            proof {
                assert forall|x: Seq<char>|
                    self@.contains(x) == (old(self)@.contains(x) || vv.subrange(
                        0,
                        i + 1,
                    ).contains(x)) by {
                    let pre_sub = vv.subrange(0, i as int);
                    let new_sub = vv.subrange(0, i + 1);
                    if new_sub.contains(x) {
                        let j = choose|j: int| 0 <= j < new_sub.len() && new_sub[j] == x;
                        if j < i {
                            assert(pre_sub[j] == x);
                            assert(pre_sub.contains(x));
                        } else {
                            assert(x == vv[i as int]);
                        }
                    }
                    if pre_sub.contains(x) {
                        let j = choose|j: int| 0 <= j < pre_sub.len() && pre_sub[j] == x;
                        assert(new_sub[j] == x);
                        assert(new_sub.contains(x));
                    }
                    if x == vv[i as int] {
                        assert(new_sub[i as int] == x);
                        assert(new_sub.contains(x));
                    }
                }
            }
            i = i + 1;
        }
        proof {
            assert(vv.subrange(0, n as int) =~= vv);
            assert(union_members(self@, old(self)@, strings_view(values@)));
        }
    }

    /// An identical copy.
    pub fn duplicate(&self) -> (r: StringSet)
        ensures
            r@ == self@,
    {
        let n = self.items.len();
        let mut items: Vec<String> = Vec::new();
        let mut i: usize = 0;
        while i < n
            invariant
                i <= n,
                n == self@.len(),
                strings_view(items@) =~= self@.subrange(0, i as int),
            decreases n - i,
        {
            let ghost pre_items = items@;
            let c = self.items[i].clone();
            let ghost cv = c@;
            items.push(c);
            proof {
                let m = strings_view(items@);
                let pre = strings_view(pre_items);
                assert(pre =~= self@.subrange(0, i as int));
                assert(pre.len() == i);
                assert(pre.len() == pre_items.len());
                assert(items@.len() == pre_items.len() + 1);
                assert(cv == self@[i as int]);
                assert forall|j: int| 0 <= j < m.len() implies m[j] == self@.subrange(0, i + 1)[j] by {
                    assert(m[j] == items@[j]@);
                    if j < i {
                        assert(items@[j] == pre_items[j]);
                        assert(m[j] == pre[j]);
                        assert(pre[j] == self@.subrange(0, i as int)[j]);
                    } else {
                        assert(items@[j]@ == cv);
                    }
                }
                assert(m =~= self@.subrange(0, i + 1));
            }
            i = i + 1;
        }
        let r = StringSet { items };
        proof {
            assert(strings_view(r.items@) =~= self@);
        }
        r
    }
}

/// The members of `new` are exactly the members of `old` (when bound) plus
/// `vals`.
pub open spec fn merged_members(
    new: Seq<Seq<char>>,
    old: Option<Seq<Seq<char>>>,
    vals: Seq<Seq<char>>,
) -> bool {
    forall|x: Seq<char>|
        #[trigger] new.contains(x) == ((old is Some && old->0.contains(x)) || vals.contains(x))
}

/// The model of a variable-table entry vector.
pub open spec fn entries_view(v: Seq<(Name, StringSet)>) -> Seq<(Seq<char>, Seq<Seq<char>>)> {
    v.map_values(|e: (Name, StringSet)| (e.0@, e.1@))
}

/// The per-fragment variable table: names bound to sets of literal strings,
/// kept strictly sorted by name.
#[derive(Clone, Debug, PartialEq, Eq)]
pub struct Variables {
    entries: Vec<(Name, StringSet)>,
}

impl View for Variables {
    type V = Seq<(Seq<char>, Seq<Seq<char>>)>;

    closed spec fn view(&self) -> Seq<(Seq<char>, Seq<Seq<char>>)> {
        entries_view(self.entries@)
    }
}

impl Variables {
    /// The canonical-form invariant: names strictly increase, every name is
    /// valid, and every bound set is itself in canonical form.
    pub open spec fn wf(&self) -> bool {
        &&& al_sorted(self@, char_seq_lt())
        &&& forall|i: int|
            0 <= i < self@.len() ==> valid_name(#[trigger] self@[i].0) && el_sorted(
                self@[i].1,
                char_seq_lt(),
            )
    }

    /// The empty table.
    pub fn new() -> (r: Variables)
        ensures
            r@ == Seq::<(Seq<char>, Seq<Seq<char>>)>::empty(),
            r.wf(),
    {
        let r = Variables { entries: Vec::new() };
        proof {
            assert(r@ =~= Seq::<(Seq<char>, Seq<Seq<char>>)>::empty());
        }
        r
    }

    /// The set bound to a name, if any.
    pub fn get(&self, name: &Name) -> (r: Option<&StringSet>)
        requires
            self.wf(),
        ensures
            match r {
                Some(s) => al_lookup(self@, name@) == Some(s@),
                None => al_lookup(self@, name@) is None,
            },
    {
        let n = self.entries.len();
        let mut i: usize = 0;
        while i < n
            invariant
                i <= n,
                n == self@.len(),
                self.wf(),
                forall|j: int| 0 <= j < i ==> (#[trigger] self@[j].0) != name@,
            decreases n - i,
        {
            if self.entries[i].0.same_as(name) {
                proof {
                    assert(self@[i as int].0 == name@);
                    lemma_char_seq_lt_strict_order();
                    lemma_al_index_lookup(self@, char_seq_lt(), i as int);
                }
                return Some(&self.entries[i].1);
            }
            proof {
                assert(self@[i as int].0 == self.entries@[i as int].0@);
            }
            i = i + 1;
        }
        proof {
            crate::assoc::lemma_al_none_when_absent(self@, name@);
        }
        None
    }

    /// The entries, in sorted order.
    pub fn iter(&self) -> (r: &Vec<(Name, StringSet)>)
        ensures
            entries_view(r@) == self@,
    {
        &self.entries
    }

    /// Unions `values` into the set bound to `key`; a name bound twice keeps
    /// both bindings' strings.
    #[verifier::rlimit(100)]
    pub fn extend(&mut self, key: Name, values: Vec<String>)
        requires
            old(self).wf(),
            valid_name(key@),
        ensures
            final(self).wf(),
            al_lookup(final(self)@, key@) is Some,
            merged_members(
                al_lookup(final(self)@, key@)->0,
                al_lookup(old(self)@, key@),
                strings_view(values@),
            ),
            forall|q: Seq<char>|
                q != key@ ==> al_lookup(final(self)@, q) == #[trigger] al_lookup(old(self)@, q),
    {
        proof {
            lemma_char_seq_lt_strict_order();
        }
        let n = self.entries.len();
        let mut p: usize = 0;
        while p < n && str_lt(self.entries[p].0.as_str(), key.as_str())
            invariant
                p <= n,
                n == self@.len(),
                self.wf(),
                self@ == old(self)@,
                forall|j: int| 0 <= j < p ==> seq_char_lt(#[trigger] self@[j].0, key@),
            decreases n - p,
        {
            proof {
                assert(self@[p as int].0 == self.entries@[p as int].0@);
            }
            p = p + 1;
        }
        let ghost lt = char_seq_lt();
        let ghost pre = self@;
        if p < n && str_eq(self.entries[p].0.as_str(), key.as_str()) {
            proof {
                assert(self@[p as int].0 == key@);
                lemma_al_index_lookup(self@, lt, p as int);
            }
            let (nm, mut set) = self.entries.remove(p);
            assert(set@ == pre[p as int].1);
            set.insert_vec(&values);
            let ghost sv = set@;
            self.entries.insert(p, (nm, set));
            proof {
                assert(self@ =~= pre.update(p as int, (key@, sv)));
                lemma_al_update(pre, lt, p as int, sv);
                assert(al_lookup(self@, key@) == Some(sv));
                assert(union_members(sv, pre[p as int].1, strings_view(values@)));
                assert forall|x: Seq<char>| #[trigger] sv.contains(x) == ((al_lookup(
                    pre,
                    key@,
                ) is Some && al_lookup(pre, key@)->0.contains(x)) || strings_view(
                    values@,
                ).contains(x)) by {
                    assert(sv.contains(x) == (pre[p as int].1.contains(x) || strings_view(
                        values@,
                    ).contains(x)));
                    assert(al_lookup(pre, key@)->0 == pre[p as int].1);
                }
                assert(merged_members(sv, al_lookup(pre, key@), strings_view(values@)));
                assert forall|i: int| 0 <= i < self@.len() implies valid_name(
                    #[trigger] self@[i].0,
                ) by {
                    if i != p {
                        assert(self@[i] == pre[i]);
                    } else {
                        assert(self@[i] == (key@, sv));
                    }
                }
                assert forall|i: int| 0 <= i < self@.len() implies el_sorted(
                    #[trigger] self@[i].1,
                    char_seq_lt(),
                ) by {
                    if i != p {
                        assert(self@[i] == pre[i]);
                        assert(valid_name(pre[i].0));
                        assert(el_sorted(pre[i].1, char_seq_lt()));
                        assert(self@[i].1 == pre[i].1);
                    } else {
                        assert(self@[i] == (key@, sv));
                        assert(el_sorted(sv, char_seq_lt()));
                    }
                }
            }
        } else {
            proof {
                if p < n {
                    assert(self@[p as int].0 == self.entries@[p as int].0@);
                    assert(!seq_char_lt(self@[p as int].0, key@));
                    assert(self@[p as int].0 != key@);
                    crate::strutil::lemma_seq_char_lt_connex(self@[p as int].0, key@);
                    assert(seq_char_lt(key@, self@[p as int].0));
                }
                assert forall|j: int| p <= j < self@.len() implies lt(
                    key@,
                    #[trigger] self@[j].0,
                ) by {
                    assert(seq_char_lt(key@, self@[p as int].0));
                    if j > p {
                        assert(lt(self@[p as int].0, self@[j].0));
                        crate::strutil::lemma_seq_char_lt_trans(
                            key@,
                            self@[p as int].0,
                            self@[j].0,
                        );
                    }
                    assert(seq_char_lt(key@, self@[j].0));
                }
                assert forall|j: int| 0 <= j < self@.len() implies (#[trigger] self@[j].0)
                    != key@ by {
                    if j < p {
                        assert(seq_char_lt(self@[j].0, key@));
                        crate::strutil::lemma_seq_char_lt_irrefl(key@);
                    } else {
                        crate::strutil::lemma_seq_char_lt_irrefl(key@);
                    }
                }
                crate::assoc::lemma_al_none_when_absent(self@, key@);
            }
            let mut set = StringSet::new();
            set.insert_vec(&values);
            let ghost sv = set@;
            let ghost kv = key@;
            self.entries.insert(p, (key, set));
            proof {
                assert(self@ =~= pre.insert(p as int, (kv, sv)));
                lemma_al_insert(pre, lt, p as int, kv, sv);
                assert(al_lookup(self@, kv) == Some(sv));
                assert(union_members(sv, Seq::<Seq<char>>::empty(), strings_view(values@)));
                assert forall|x: Seq<char>| #[trigger] sv.contains(x) == ((al_lookup(pre, kv)
                    is Some && al_lookup(pre, kv)->0.contains(x)) || strings_view(
                    values@,
                ).contains(x)) by {
                    assert(sv.contains(x) == (Seq::<Seq<char>>::empty().contains(x)
                        || strings_view(values@).contains(x)));
                    if Seq::<Seq<char>>::empty().contains(x) {
                        let q = choose|q: int|
                            0 <= q < Seq::<Seq<char>>::empty().len() && Seq::<
                                Seq<char>,
                            >::empty()[q] == x;
                        assert(false);
                    }
                }
                assert(merged_members(sv, al_lookup(pre, kv), strings_view(values@)));
                assert forall|i: int| 0 <= i < self@.len() implies valid_name(
                    #[trigger] self@[i].0,
                ) by {
                    if i < p {
                        assert(self@[i] == pre[i]);
                    } else if i > p {
                        assert(self@[i] == pre[i - 1]);
                    } else {
                        assert(self@[i] == (kv, sv));
                    }
                }
                assert forall|i: int| 0 <= i < self@.len() implies el_sorted(
                    #[trigger] self@[i].1,
                    char_seq_lt(),
                ) by {
                    if i < p {
                        assert(self@[i] == pre[i]);
                        assert(valid_name(pre[i].0));
                        assert(el_sorted(pre[i].1, char_seq_lt()));
                        assert(self@[i].1 == pre[i].1);
                    } else if i > p {
                        assert(self@[i] == pre[i - 1]);
                        assert(valid_name(pre[i - 1].0));
                        assert(el_sorted(pre[i - 1].1, char_seq_lt()));
                        assert(self@[i].1 == pre[i - 1].1);
                    } else {
                        assert(self@[i] == (kv, sv));
                        assert(el_sorted(sv, char_seq_lt()));
                    }
                }
            }
        }
    }

    /// Unions the members of another set into the set bound to `key`.
    #[verifier::rlimit(100)]
    pub fn extend_set(&mut self, key: Name, values: &StringSet)
        requires
            old(self).wf(),
            valid_name(key@),
        ensures
            final(self).wf(),
            al_lookup(final(self)@, key@) is Some,
            merged_members(
                al_lookup(final(self)@, key@)->0,
                al_lookup(old(self)@, key@),
                values@,
            ),
            forall|q: Seq<char>|
                q != key@ ==> al_lookup(final(self)@, q) == #[trigger] al_lookup(old(self)@, q),
    {
        proof {
            lemma_char_seq_lt_strict_order();
        }
        let n = self.entries.len();
        let mut p: usize = 0;
        while p < n && str_lt(self.entries[p].0.as_str(), key.as_str())
            invariant
                p <= n,
                n == self@.len(),
                self.wf(),
                self@ == old(self)@,
                forall|j: int| 0 <= j < p ==> seq_char_lt(#[trigger] self@[j].0, key@),
            decreases n - p,
        {
            proof {
                assert(self@[p as int].0 == self.entries@[p as int].0@);
            }
            p = p + 1;
        }
        let ghost lt = char_seq_lt();
        let ghost pre = self@;
        if p < n && str_eq(self.entries[p].0.as_str(), key.as_str()) {
            proof {
                assert(self@[p as int].0 == key@);
                lemma_al_index_lookup(self@, lt, p as int);
            }
            let (nm, mut set) = self.entries.remove(p);
            assert(set@ == pre[p as int].1);
            set.insert_all(values);
            let ghost sv = set@;
            self.entries.insert(p, (nm, set));
            proof {
                assert(self@ =~= pre.update(p as int, (key@, sv)));
                lemma_al_update(pre, lt, p as int, sv);
                assert(al_lookup(self@, key@) == Some(sv));
                assert(union_members(sv, pre[p as int].1, values@));
                assert forall|x: Seq<char>| #[trigger] sv.contains(x) == ((al_lookup(
                    pre,
                    key@,
                ) is Some && al_lookup(pre, key@)->0.contains(x)) || values@.contains(x)) by {
                    assert(sv.contains(x) == (pre[p as int].1.contains(x) || values@.contains(
                        x,
                    )));
                    assert(al_lookup(pre, key@)->0 == pre[p as int].1);
                }
                assert(merged_members(sv, al_lookup(pre, key@), values@));
                assert forall|i: int| 0 <= i < self@.len() implies valid_name(
                    #[trigger] self@[i].0,
                ) by {
                    if i != p {
                        assert(self@[i] == pre[i]);
                    } else {
                        assert(self@[i] == (key@, sv));
                    }
                }
                assert forall|i: int| 0 <= i < self@.len() implies el_sorted(
                    #[trigger] self@[i].1,
                    char_seq_lt(),
                ) by {
                    if i != p {
                        assert(self@[i] == pre[i]);
                        assert(valid_name(pre[i].0));
                        assert(el_sorted(pre[i].1, char_seq_lt()));
                        assert(self@[i].1 == pre[i].1);
                    } else {
                        assert(self@[i] == (key@, sv));
                        assert(el_sorted(sv, char_seq_lt()));
                    }
                }
            }
        } else {
            proof {
                if p < n {
                    assert(self@[p as int].0 == self.entries@[p as int].0@);
                    assert(!seq_char_lt(self@[p as int].0, key@));
                    assert(self@[p as int].0 != key@);
                    crate::strutil::lemma_seq_char_lt_connex(self@[p as int].0, key@);
                    assert(seq_char_lt(key@, self@[p as int].0));
                }
                assert forall|j: int| p <= j < self@.len() implies lt(
                    key@,
                    #[trigger] self@[j].0,
                ) by {
                    assert(seq_char_lt(key@, self@[p as int].0));
                    if j > p {
                        assert(lt(self@[p as int].0, self@[j].0));
                        crate::strutil::lemma_seq_char_lt_trans(
                            key@,
                            self@[p as int].0,
                            self@[j].0,
                        );
                    }
                    assert(seq_char_lt(key@, self@[j].0));
                }
                assert forall|j: int| 0 <= j < self@.len() implies (#[trigger] self@[j].0)
                    != key@ by {
                    if j < p {
                        assert(seq_char_lt(self@[j].0, key@));
                        crate::strutil::lemma_seq_char_lt_irrefl(key@);
                    } else {
                        crate::strutil::lemma_seq_char_lt_irrefl(key@);
                    }
                }
                crate::assoc::lemma_al_none_when_absent(self@, key@);
            }
            let mut set = StringSet::new();
            set.insert_all(values);
            let ghost sv = set@;
            let ghost kv = key@;
            self.entries.insert(p, (key, set));
            proof {
                assert(self@ =~= pre.insert(p as int, (kv, sv)));
                lemma_al_insert(pre, lt, p as int, kv, sv);
                assert(al_lookup(self@, kv) == Some(sv));
                assert(union_members(sv, Seq::<Seq<char>>::empty(), values@));
                assert forall|x: Seq<char>| #[trigger] sv.contains(x) == ((al_lookup(pre, kv)
                    is Some && al_lookup(pre, kv)->0.contains(x)) || values@.contains(x)) by {
                    assert(sv.contains(x) == (Seq::<Seq<char>>::empty().contains(x)
                        || values@.contains(x)));
                    if Seq::<Seq<char>>::empty().contains(x) {
                        let q = choose|q: int|
                            0 <= q < Seq::<Seq<char>>::empty().len() && Seq::<Seq<char>>::empty()[q]
                                == x;
                        assert(false);
                    }
                }
                assert(merged_members(sv, al_lookup(pre, kv), values@));
                assert forall|i: int| 0 <= i < self@.len() implies valid_name(
                    #[trigger] self@[i].0,
                ) by {
                    if i < p {
                        assert(self@[i] == pre[i]);
                    } else if i > p {
                        assert(self@[i] == pre[i - 1]);
                    } else {
                        assert(self@[i] == (kv, sv));
                    }
                }
                assert forall|i: int| 0 <= i < self@.len() implies el_sorted(
                    #[trigger] self@[i].1,
                    char_seq_lt(),
                ) by {
                    if i < p {
                        assert(self@[i] == pre[i]);
                        assert(valid_name(pre[i].0));
                        assert(el_sorted(pre[i].1, char_seq_lt()));
                        assert(self@[i].1 == pre[i].1);
                    } else if i > p {
                        assert(self@[i] == pre[i - 1]);
                        assert(valid_name(pre[i - 1].0));
                        assert(el_sorted(pre[i - 1].1, char_seq_lt()));
                        assert(self@[i].1 == pre[i - 1].1);
                    } else {
                        assert(self@[i] == (kv, sv));
                        assert(el_sorted(sv, char_seq_lt()));
                    }
                }
            }
        }
    }
}

/// Clones a vector of strings, value for value.
pub fn clone_strings(v: &Vec<String>) -> (r: Vec<String>)
    ensures
        r@ =~= v@,
{
    let n = v.len();
    let mut out: Vec<String> = Vec::new();
    let mut i: usize = 0;
    while i < n
        invariant
            i <= n,
            n == v@.len(),
            out@ =~= v@.subrange(0, i as int),
        decreases n - i,
    {
        out.push(v[i].clone());
        proof {
            assert(out@ =~= v@.subrange(0, i + 1));
        }
        i = i + 1;
    }
    out
}

/// The model of a raw binding list: names and string sets as sequences.
pub open spec fn list_view(l: Seq<(String, Vec<String>)>) -> Seq<(Seq<char>, Seq<Seq<char>>)> {
    l.map_values(|e: (String, Vec<String>)| (e.0@, strings_view(e.1@)))
}

/// The first name of the list that is not a valid variable name.
pub open spec fn first_bad_name(l: Seq<(Seq<char>, Seq<Seq<char>>)>) -> Option<Seq<char>>
    decreases l.len(),
{
    if l.len() == 0 {
        None
    } else if !valid_name(l[0].0) {
        Some(l[0].0)
    } else {
        first_bad_name(l.drop_first())
    }
}

/// Some entry of the list binds `x` to the name `k`.
pub open spec fn list_binds(l: Seq<(Seq<char>, Seq<Seq<char>>)>, k: Seq<char>, x: Seq<char>) -> bool {
    exists|i: int| 0 <= i < l.len() && (#[trigger] l[i]).0 == k && l[i].1.contains(x)
}

/// Some entry of the list declares the name `k`.
pub open spec fn list_has(l: Seq<(Seq<char>, Seq<Seq<char>>)>, k: Seq<char>) -> bool {
    exists|i: int| 0 <= i < l.len() && (#[trigger] l[i]).0 == k
}

impl Variables {
    /// Builds a table from raw name/literal pairs, validating each name and
    /// unioning the literals of repeated names.
    pub fn try_from(list: Vec<(String, Vec<String>)>) -> (r: Result<Variables, NameError>)
        ensures
            r is Ok <==> first_bad_name(list_view(list@)) is None,
            r is Err ==> r->Err_0@ == name_error_of(first_bad_name(list_view(list@))->0),
            r is Ok ==> {
                let v = r->Ok_0;
                &&& v.wf()
                &&& forall|k: Seq<char>|
                    #[trigger] al_lookup(v@, k) is Some <==> list_has(list_view(list@), k)
                &&& forall|k: Seq<char>, x: Seq<char>|
                    al_lookup(v@, k) is Some ==> (#[trigger] al_lookup(v@, k)->0.contains(x)
                        <==> list_binds(list_view(list@), k, x))
            },
    {
        let ghost lv = list_view(list@);
        let mut vars = Variables::new();
        let n = list.len();
        let mut i: usize = 0;
        proof {
            assert(lv.skip(0) =~= lv);
            assert(lv.subrange(0, 0) =~= Seq::<(Seq<char>, Seq<Seq<char>>)>::empty());
        }
        while i < n
            invariant
                i <= n,
                n == list@.len(),
                lv == list_view(list@),
                lv.len() == n,
                vars.wf(),
                first_bad_name(lv) == first_bad_name(lv.skip(i as int)),
                forall|k: Seq<char>|
                    #[trigger] al_lookup(vars@, k) is Some <==> list_has(
                        lv.subrange(0, i as int),
                        k,
                    ),
                forall|k: Seq<char>, x: Seq<char>|
                    al_lookup(vars@, k) is Some ==> (#[trigger] al_lookup(vars@, k)->0.contains(x)
                        <==> list_binds(lv.subrange(0, i as int), k, x)),
            decreases n - i,
        {
            proof {
                assert(lv.skip(i as int)[0] == lv[i as int]);
                assert(lv.skip(i as int).drop_first() =~= lv.skip(i + 1));
                assert(lv[i as int] == (list@[i as int].0@, strings_view(list@[i as int].1@)));
            }
            let name = match Name::from_str(list[i].0.as_str()) {
                Ok(name) => name,
                Err(e) => {
                    return Err(e);
                },
            };
            let values = clone_strings(&list[i].1);
            let ghost vvs = values@;
            let ghost pre = vars@;
            let ghost nv = name@;
            vars.extend(name, values);
            proof {
                assert(vvs == list@[i as int].1@);
                assert(strings_view(vvs) == strings_view(list@[i as int].1@));
                assert(al_lookup(vars@, nv) is Some);
                assert(merged_members(
                    al_lookup(vars@, nv)->0,
                    al_lookup(pre, nv),
                    strings_view(vvs),
                ));
            }
            proof {
                let pre_sub = lv.subrange(0, i as int);
                let new_sub = lv.subrange(0, i + 1);
                assert(new_sub[i as int] == lv[i as int]);
                assert forall|k: Seq<char>|
                    #[trigger] al_lookup(vars@, k) is Some <==> list_has(new_sub, k) by {
                    if al_lookup(vars@, k) is Some {
                        if k == nv {
                            assert(new_sub[i as int].0 == k);
                            assert(list_has(new_sub, k));
                        } else {
                            assert(al_lookup(pre, k) is Some);
                            let j = choose|j: int|
                                0 <= j < pre_sub.len() && (#[trigger] pre_sub[j]).0 == k;
                            assert(new_sub[j] == pre_sub[j]);
                            assert(list_has(new_sub, k));
                        }
                    }
                    if list_has(new_sub, k) {
                        let j = choose|j: int| 0 <= j < new_sub.len() && (#[trigger] new_sub[j]).0 == k;
                        if j < i {
                            assert(pre_sub[j] == new_sub[j]);
                            assert(list_has(pre_sub, k));
                            assert(al_lookup(pre, k) is Some);
                            if k != nv {
                                assert(al_lookup(vars@, k) == al_lookup(pre, k));
                            }
                        } else {
                            assert(k == nv);
                        }
                        assert(al_lookup(vars@, k) is Some);
                    }
                }
                assert forall|k: Seq<char>, x: Seq<char>|
                    al_lookup(vars@, k) is Some implies (#[trigger] al_lookup(
                    vars@,
                    k,
                )->0.contains(x) <==> list_binds(new_sub, k, x)) by {
                    if k == nv {
                        assert(merged_members(
                            al_lookup(vars@, nv)->0,
                            al_lookup(pre, nv),
                            strings_view(vvs),
                        ));
                        assert(al_lookup(vars@, k)->0.contains(x) == ((al_lookup(pre, k) is Some
                            && al_lookup(pre, k)->0.contains(x)) || strings_view(
                            list@[i as int].1@,
                        ).contains(x)));
                        if al_lookup(vars@, k)->0.contains(x) {
                            if al_lookup(pre, k) is Some && al_lookup(pre, k)->0.contains(x) {
                                let j = choose|j: int|
                                    0 <= j < pre_sub.len() && (#[trigger] pre_sub[j]).0 == k
                                        && pre_sub[j].1.contains(x);
                                assert(new_sub[j] == pre_sub[j]);
                                assert(list_binds(new_sub, k, x));
                            } else {
                                assert(new_sub[i as int].0 == k && new_sub[i as int].1.contains(
                                    x,
                                ));
                                assert(list_binds(new_sub, k, x));
                            }
                        }
                        if list_binds(new_sub, k, x) {
                            let j = choose|j: int|
                                0 <= j < new_sub.len() && (#[trigger] new_sub[j]).0 == k
                                    && new_sub[j].1.contains(x);
                            if j < i {
                                assert(pre_sub[j] == new_sub[j]);
                                assert(list_binds(pre_sub, k, x));
                                assert(al_lookup(pre, k) is Some);
                                assert(al_lookup(pre, k)->0.contains(x));
                            } else {
                                assert(strings_view(list@[i as int].1@).contains(x));
                            }
                            assert(al_lookup(vars@, k)->0.contains(x));
                        }
                    } else {
                        assert(al_lookup(vars@, k) == al_lookup(pre, k));
                        assert(al_lookup(pre, k) is Some);
                        assert(al_lookup(pre, k)->0.contains(x) <==> list_binds(pre_sub, k, x));
                        if list_binds(new_sub, k, x) {
                            let j = choose|j: int|
                                0 <= j < new_sub.len() && (#[trigger] new_sub[j]).0 == k
                                    && new_sub[j].1.contains(x);
                            assert(j < i);
                            assert(pre_sub[j] == new_sub[j]);
                            assert(list_binds(pre_sub, k, x));
                        }
                        if list_binds(pre_sub, k, x) {
                            let j = choose|j: int|
                                0 <= j < pre_sub.len() && (#[trigger] pre_sub[j]).0 == k
                                    && pre_sub[j].1.contains(x);
                            assert(new_sub[j] == pre_sub[j]);
                            assert(list_binds(new_sub, k, x));
                        }
                    }
                }
            }
            i = i + 1;
        }
        proof {
            assert(lv.subrange(0, n as int) =~= lv);
            assert(lv.skip(n as int) =~= Seq::<(Seq<char>, Seq<Seq<char>>)>::empty());
        }
        Ok(vars)
    }
}

/// Resolution failure: a template refers to a name the table does not bind.
#[derive(Clone, Debug, PartialEq, Eq)]
pub enum ResolveError {
    VariableNotFound(Name),
}

/// The first referenced name that the table leaves unbound, scanning the
/// tokens left to right.
pub open spec fn first_unbound(
    vars: Seq<(Seq<char>, Seq<Seq<char>>)>,
    toks: Seq<crate::parser::TokenModel>,
) -> Option<Seq<char>>
    decreases toks.len(),
{
    if toks.len() == 0 {
        None
    } else {
        match toks[0] {
            crate::parser::TokenModel::Text(_) => first_unbound(vars, toks.drop_first()),
            crate::parser::TokenModel::Var(n) => {
                if al_lookup(vars, n) is Some {
                    first_unbound(vars, toks.drop_first())
                } else {
                    Some(n)
                }
            },
        }
    }
}

/// The set of strings one token stands for: a literal is a singleton, a
/// reference is its bound set.
pub open spec fn token_set(
    vars: Seq<(Seq<char>, Seq<Seq<char>>)>,
    t: crate::parser::TokenModel,
) -> Seq<Seq<char>> {
    match t {
        crate::parser::TokenModel::Text(x) => seq![x],
        crate::parser::TokenModel::Var(n) => {
            if al_lookup(vars, n) is Some {
                al_lookup(vars, n)->0
            } else {
                Seq::empty()
            }
        },
    }
}

/// The model of a vector of string sets.
pub open spec fn sets_view(v: Seq<StringSet>) -> Seq<Seq<Seq<char>>> {
    v.map_values(|s: StringSet| s@)
}

impl Variables {
    /// Maps each token of the template to its set of strings, failing on the
    /// first reference to an unbound name.
    pub fn resolve(&self, template: &crate::parser::TemplateString) -> (r: Result<
        Vec<StringSet>,
        ResolveError,
    >)
        requires
            self.wf(),
        ensures
            r is Ok <==> first_unbound(self@, template@) is None,
            r is Ok ==> sets_view(r->Ok_0@).len() == template@.len(),
            r is Ok ==> forall|i: int|
                0 <= i < template@.len() ==> sets_view(r->Ok_0@)[i] == token_set(
                    self@,
                    #[trigger] template@[i],
                ),
            r is Ok ==> forall|i: int|
                0 <= i < template@.len() ==> el_sorted(
                    #[trigger] sets_view(r->Ok_0@)[i],
                    char_seq_lt(),
                ),
            r is Err ==> match r->Err_0 {
                ResolveError::VariableNotFound(n) => Some(n@) == first_unbound(self@, template@),
            },
    {
        let n = template.0.len();
        let mut out: Vec<StringSet> = Vec::new();
        let mut i: usize = 0;
        proof {
            assert(template@.skip(0) =~= template@);
            assert(template@.len() == n);
        }
        while i < n
            invariant
                i <= n,
                n == template@.len(),
                self.wf(),
                first_unbound(self@, template@) == first_unbound(self@, template@.skip(i as int)),
                sets_view(out@).len() == i,
                forall|j: int|
                    0 <= j < i ==> sets_view(out@)[j] == token_set(self@, #[trigger] template@[j]),
                forall|j: int|
                    0 <= j < i ==> el_sorted(#[trigger] sets_view(out@)[j], char_seq_lt()),
            decreases n - i,
        {
            proof {
                assert(template@.skip(i as int)[0] == template@[i as int]);
                assert(template@.skip(i as int).drop_first() =~= template@.skip(i + 1));
                assert(template@[i as int] == template.0@[i as int]@);
            }
            let ghost pre = out@;
            match &template.0[i] {
                crate::parser::TemplateToken::Text(t) => {
                    let set = StringSet::singleton(t.clone());
                    proof {
                        crate::strutil::lemma_char_seq_lt_strict_order();
                        assert(el_sorted(set@, char_seq_lt()));
                    }
                    out.push(set);
                },
                crate::parser::TemplateToken::Var(name) => {
                    match self.get(name) {
                        Some(set) => {
                            let copy = set.duplicate();
                            proof {
                                assert(copy@ == token_set(self@, template@[i as int]));
                                crate::assoc::lemma_al_lookup_index(self@, name@);
                                let idx = choose|idx: int|
                                    0 <= idx < self@.len() && #[trigger] self@[idx].0 == name@
                                        && self@[idx].1 == al_lookup(self@, name@)->0;
                                assert(el_sorted(self@[idx].1, char_seq_lt()));
                                assert(el_sorted(copy@, char_seq_lt()));
                            }
                            out.push(copy);
                        },
                        None => {
                            return Err(ResolveError::VariableNotFound(name.duplicate()));
                        },
                    }
                },
            }
            proof {
                assert forall|j: int| 0 <= j < i + 1 implies sets_view(out@)[j] == token_set(
                    self@,
                    #[trigger] template@[j],
                ) by {
                    if j < i {
                        assert(out@[j] == pre[j]);
                        assert(sets_view(out@)[j] == sets_view(pre)[j]);
                    } else {
                        assert(sets_view(out@)[j] == out@[j]@);
                    }
                }
                assert forall|j: int| 0 <= j < i + 1 implies el_sorted(
                    #[trigger] sets_view(out@)[j],
                    char_seq_lt(),
                ) by {
                    if j < i {
                        assert(out@[j] == pre[j]);
                        assert(sets_view(out@)[j] == sets_view(pre)[j]);
                        assert(el_sorted(sets_view(pre)[j], char_seq_lt()));
                    } else {
                        assert(sets_view(out@)[j] == out@[j]@);
                    }
                }
            }
            i = i + 1;
        }
        proof {
            assert(template@.skip(n as int) =~= Seq::<crate::parser::TokenModel>::empty());
        }
        Ok(out)
    }
}

} // verus!
