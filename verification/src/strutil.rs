//! Verified helpers for character sequences: equality, lexicographic order,
//! and decimal formatting.

use vstd::prelude::*;

verus! {

/// Strict lexicographic order on character sequences, by Unicode code point.
pub open spec fn seq_char_lt(a: Seq<char>, b: Seq<char>) -> bool
    decreases a.len(),
{
    if b.len() == 0 {
        false
    } else if a.len() == 0 {
        true
    } else if a[0] != b[0] {
        (a[0] as u32) < (b[0] as u32)
    } else {
        seq_char_lt(a.drop_first(), b.drop_first())
    }
}

/// ASCII letter.
pub open spec fn is_ascii_alpha(c: char) -> bool {
    (97 <= c as u32 && c as u32 <= 122) || (65 <= c as u32 && c as u32 <= 90)
}

/// ASCII letter, ASCII digit, or underscore.
pub open spec fn is_name_char(c: char) -> bool {
    is_ascii_alpha(c) || (48 <= c as u32 && c as u32 <= 57) || c as u32 == 95
}

/// Runtime test matching [`is_ascii_alpha`].
pub fn check_ascii_alpha(c: char) -> (r: bool)
    ensures
        r == is_ascii_alpha(c),
{
    let u = c as u32;
    (97 <= u && u <= 122) || (65 <= u && u <= 90)
}

/// Runtime test matching [`is_name_char`].
pub fn check_name_char(c: char) -> (r: bool)
    ensures
        r == is_name_char(c),
{
    let u = c as u32;
    (97 <= u && u <= 122) || (65 <= u && u <= 90) || (48 <= u && u <= 57) || u == 95
}

/// Character-wise equality test for string slices.
pub fn str_eq(a: &str, b: &str) -> (r: bool)
    ensures
        r == (a@ == b@),
{
    let an = a.unicode_len();
    let bn = b.unicode_len();
    if an != bn {
        return false;
    }
    let mut i: usize = 0;
    while i < an
        invariant
            i <= an,
            an == a@.len(),
            bn == b@.len(),
            an == bn,
            forall|j: int| 0 <= j < i ==> a@[j] == b@[j],
        decreases an - i,
    {
        let ca = a.get_char(i);
        let cb = b.get_char(i);
        if ca != cb {
            return false;
        }
        i = i + 1;
    }
    proof {
        assert(a@ =~= b@);
    }
    true
}

/// Character-wise strict lexicographic comparison of string slices.
pub fn str_lt(a: &str, b: &str) -> (r: bool)
    ensures
        r == seq_char_lt(a@, b@),
{
    let an = a.unicode_len();
    let bn = b.unicode_len();
    let mut i: usize = 0;
    proof {
        assert(a@.skip(0) =~= a@);
        assert(b@.skip(0) =~= b@);
    }
    while i < an && i < bn
        invariant
            i <= an,
            i <= bn,
            an == a@.len(),
            bn == b@.len(),
            seq_char_lt(a@, b@) == seq_char_lt(a@.skip(i as int), b@.skip(i as int)),
        decreases an - i,
    {
        let ca = a.get_char(i);
        let cb = b.get_char(i);
        if ca != cb {
            return (ca as u32) < (cb as u32);
        }
        proof {
            assert(a@.skip(i as int).drop_first() =~= a@.skip(i + 1));
            assert(b@.skip(i as int).drop_first() =~= b@.skip(i + 1));
        }
        i = i + 1;
    }
    an < bn
}

/// `seq_char_lt` never relates a sequence to itself.
pub proof fn lemma_seq_char_lt_irrefl(a: Seq<char>)
    ensures
        !seq_char_lt(a, a),
    decreases a.len(),
{
    if a.len() > 0 {
        lemma_seq_char_lt_irrefl(a.drop_first());
    }
}

/// `seq_char_lt` relates two distinct sequences one way or the other, never
/// both.
pub proof fn lemma_seq_char_lt_connex(a: Seq<char>, b: Seq<char>)
    ensures
        a != b ==> (seq_char_lt(a, b) || seq_char_lt(b, a)),
        !(seq_char_lt(a, b) && seq_char_lt(b, a)),
    decreases a.len() + b.len(),
{
    if a.len() == 0 && b.len() == 0 {
        assert(a =~= b);
    }
    if a.len() > 0 && b.len() > 0 && a[0] != b[0] {
        vstd::utf8::char_u32_cast(a[0], a[0] as u32);
        vstd::utf8::char_u32_cast(b[0], b[0] as u32);
    }
    if a.len() > 0 && b.len() > 0 && a[0] == b[0] {
        lemma_seq_char_lt_connex(a.drop_first(), b.drop_first());
        if a.drop_first() == b.drop_first() {
            assert(a =~= b) by {
                assert forall|i: int| 0 <= i < a.len() implies a[i] == b[i] by {
                    if i > 0 {
                        assert(a[i] == a.drop_first()[i - 1]);
                        assert(b[i] == b.drop_first()[i - 1]);
                    }
                }
            }
        }
    }
}

/// `seq_char_lt` is transitive.
pub proof fn lemma_seq_char_lt_trans(a: Seq<char>, b: Seq<char>, c: Seq<char>)
    ensures
        seq_char_lt(a, b) && seq_char_lt(b, c) ==> seq_char_lt(a, c),
    decreases a.len() + b.len() + c.len(),
{
    if a.len() > 0 && b.len() > 0 && c.len() > 0 {
        lemma_seq_char_lt_trans(a.drop_first(), b.drop_first(), c.drop_first());
    }
}

/// All order facts about `seq_char_lt`, quantified for reuse.
pub proof fn lemma_seq_char_lt_order()
    ensures
        forall|a: Seq<char>| !#[trigger] seq_char_lt(a, a),
        forall|a: Seq<char>, b: Seq<char>| #[trigger]
            seq_char_lt(a, b) ==> !seq_char_lt(b, a),
        forall|a: Seq<char>, b: Seq<char>|
            a != b ==> #[trigger] seq_char_lt(a, b) || #[trigger] seq_char_lt(b, a),
        forall|a: Seq<char>, b: Seq<char>, c: Seq<char>|
            #[trigger] seq_char_lt(a, b) && #[trigger] seq_char_lt(b, c) ==> seq_char_lt(a, c),
{
    assert forall|a: Seq<char>| !#[trigger] seq_char_lt(a, a) by {
        lemma_seq_char_lt_irrefl(a);
    }
    assert forall|a: Seq<char>, b: Seq<char>| #[trigger]
        seq_char_lt(a, b) implies !seq_char_lt(b, a) by {
        lemma_seq_char_lt_connex(a, b);
    }
    assert forall|a: Seq<char>, b: Seq<char>|
        a != b implies #[trigger] seq_char_lt(a, b) || #[trigger] seq_char_lt(b, a) by {
        lemma_seq_char_lt_connex(a, b);
    }
    assert forall|a: Seq<char>, b: Seq<char>, c: Seq<char>|
        #[trigger] seq_char_lt(a, b) && #[trigger] seq_char_lt(b, c) implies seq_char_lt(
        a,
        c,
    ) by {
        lemma_seq_char_lt_trans(a, b, c);
    }
}

/// The lexicographic character order as a function value, for the sorted
/// sequences of this crate.
pub open spec fn char_seq_lt() -> spec_fn(Seq<char>, Seq<char>) -> bool {
    |a: Seq<char>, b: Seq<char>| seq_char_lt(a, b)
}

/// `char_seq_lt()` is a strict total order.
pub proof fn lemma_char_seq_lt_strict_order()
    ensures
        crate::assoc::strict_order(char_seq_lt()),
{
    let lt = char_seq_lt();
    assert forall|a: Seq<char>| !#[trigger] lt(a, a) by {
        lemma_seq_char_lt_irrefl(a);
    }
    assert forall|a: Seq<char>, b: Seq<char>| #[trigger] lt(a, b) implies !lt(b, a) by {
        lemma_seq_char_lt_connex(a, b);
    }
    assert forall|a: Seq<char>, b: Seq<char>|
        a != b implies #[trigger] lt(a, b) || #[trigger] lt(b, a) by {
        lemma_seq_char_lt_connex(a, b);
    }
    assert forall|a: Seq<char>, b: Seq<char>, c: Seq<char>|
        #[trigger] lt(a, b) && #[trigger] lt(b, c) implies lt(a, c) by {
        lemma_seq_char_lt_trans(a, b, c);
    }
}

/// Decimal digit character for `d`, which must be below ten.
pub open spec fn digit_char(d: nat) -> char {
    ((48 + d) as u32) as char
}

/// Decimal representation of `n`, most significant digit first.
pub open spec fn dec_chars(n: nat) -> Seq<char>
    decreases n,
{
    if n < 10 {
        seq![digit_char(n)]
    } else {
        dec_chars(n / 10).push(digit_char(n % 10))
    }
}

fn digit_str(d: usize) -> (r: &'static str)
    requires
        d < 10,
    ensures
        r@ =~= seq![digit_char(d as nat)],
{
    proof {
        reveal_strlit("0");
        reveal_strlit("1");
        reveal_strlit("2");
        reveal_strlit("3");
        reveal_strlit("4");
        reveal_strlit("5");
        reveal_strlit("6");
        reveal_strlit("7");
        reveal_strlit("8");
        reveal_strlit("9");
    }
    match d {
        0 => "0",
        1 => "1",
        2 => "2",
        3 => "3",
        4 => "4",
        5 => "5",
        6 => "6",
        7 => "7",
        8 => "8",
        _ => "9",
    }
}

/// Formats `n` in decimal.
pub fn usize_to_string(n: usize) -> (r: String)
    ensures
        r@ == dec_chars(n as nat),
    decreases n,
{
    if n < 10 {
        String::from_str(digit_str(n))
    } else {
        let mut s = usize_to_string(n / 10);
        s.append(digit_str(n % 10));
        proof {
            assert(s@ =~= dec_chars(n as nat));
        }
        s
    }
}

} // verus!
