//! Names for members that have none of their own.

use crate::text::{
    decimal, decimal_holds_digits, decimal_is_injective, lemma_decimal_last, to_decimal,
};
use vstd::prelude::*;

verus! {

/// The code of `a`.
const LETTER_A: u8 = 97;

/// The prefix that stands for an absent one.
pub open spec fn prefix_text(prefix: Option<&str>) -> Seq<char> {
    match prefix {
        Some(text) => text@,
        None => Seq::<char>::empty(),
    }
}

/// The `i`-th letter of the alphabet, which starts over after `z`.
pub open spec fn letter(i: nat) -> char {
    ('a' as nat + i % 26) as char
}

/// The `i`-th anonymous name: `a` to `z`, then `a0` to `z0`, then `a1` to `z1`, and so on, each
/// behind the prefix.
pub open spec fn anon_name(prefix: Seq<char>, i: nat) -> Seq<char> {
    if i < 26 {
        prefix.push(letter(i))
    } else {
        prefix.push(letter(i)) + decimal((i / 26 - 1) as nat)
    }
}

/// The `i`-th name of the endless sequence of anonymous names.
pub fn anon_ident(prefix: Option<&str>, i: usize) -> (name: String)
    ensures
        name@ == anon_name(prefix_text(prefix), i as nat),
{
    let mut name: String = match prefix {
        Some(text) => text.to_owned(),
        None => String::new(),
    };
    let offset: u8 = (i % 26) as u8;
    name.push((LETTER_A + offset) as char);
    if i >= 26 {
        let wrap: usize = i / 26;
        name.append(to_decimal((wrap - 1) as u128).as_str());
    }
    name
}

/// The first `count` anonymous names, in order.
pub fn anon_ident_iter(prefix: Option<&str>, count: usize) -> (names: Vec<String>)
    ensures
        names@.len() == count,
        forall|i: int|
            0 <= i < count ==> (#[trigger] names@[i])@ == anon_name(prefix_text(prefix), i as nat),
{
    let mut names: Vec<String> = Vec::new();
    let mut i: usize = 0;
    while i < count
        invariant
            i <= count,
            names@.len() == i,
            forall|j: int|
                0 <= j < i ==> (#[trigger] names@[j])@ == anon_name(prefix_text(prefix), j as nat),
        decreases count - i,
    {
        names.push(anon_ident(prefix, i));
        i += 1;
    }
    names
}

/// A character that may stand anywhere in an ASCII identifier but at its start.
pub open spec fn is_ident_char(ch: char) -> bool {
    'a' <= ch <= 'z' || 'A' <= ch <= 'Z' || '0' <= ch <= '9' || ch == '_'
}

/// A non-empty text of letters, digits and underscores that does not start with a digit.
pub open spec fn is_ident_text(text: Seq<char>) -> bool {
    &&& text.len() > 0
    &&& !('0' <= text[0] <= '9')
    &&& forall|i: int| 0 <= i < text.len() ==> is_ident_char(#[trigger] text[i])
}

/// Behind a prefix that is absent or itself an identifier, every anonymous name is an
/// identifier.
pub proof fn anon_names_are_identifiers(prefix: Seq<char>, i: nat)
    requires
        prefix.len() > 0 ==> is_ident_text(prefix),
    ensures
        is_ident_text(anon_name(prefix, i)),
{
    let name = anon_name(prefix, i);
    let at = prefix.len() as int;
    if i >= 26 {
        decimal_holds_digits((i / 26 - 1) as nat);
    }
    assert forall|k: int| 0 <= k < name.len() implies is_ident_char(#[trigger] name[k]) by {
        if k < at {
            assert(name[k] == prefix[k]);
        } else if k == at {
            assert(name[k] == letter(i));
        } else {
            assert(name[k] == decimal((i / 26 - 1) as nat)[k - at - 1]);
        }
    }
    if at > 0 {
        assert(name[0] == prefix[0]);
    }
}

/// No two anonymous names behind the same prefix are equal.
pub proof fn anon_names_are_distinct(prefix: Seq<char>, i: nat, j: nat)
    requires
        anon_name(prefix, i) == anon_name(prefix, j),
    ensures
        i == j,
{
    let at = prefix.len() as int;
    assert(anon_name(prefix, i)[at] == letter(i));
    assert(anon_name(prefix, j)[at] == letter(j));
    assert(i % 26 == j % 26);
    if i >= 26 {
        lemma_decimal_last((i / 26 - 1) as nat);
        assert(anon_name(prefix, i).skip(at + 1) =~= decimal((i / 26 - 1) as nat));
    }
    if j >= 26 {
        lemma_decimal_last((j / 26 - 1) as nat);
        assert(anon_name(prefix, j).skip(at + 1) =~= decimal((j / 26 - 1) as nat));
    }
    if i >= 26 && j >= 26 {
        decimal_is_injective((i / 26 - 1) as nat, (j / 26 - 1) as nat);
    }
}

/// The first names are the letters from `a` to `z` behind the prefix. From there on the letters
/// come again, and behind them how often they have come again before.
pub proof fn names_go_round_the_alphabet(prefix: Seq<char>, i: nat)
    ensures
        i < 26 ==> anon_name(prefix, i).len() == prefix.len() + 1 && anon_name(prefix, i).drop_last()
            == prefix && anon_name(prefix, i).last() as nat == 'a' as nat + i,
        i >= 26 ==> anon_name(prefix, i) == anon_name(prefix, i % 26) + decimal(
            (i / 26 - 1) as nat,
        ),
{
    if i < 26 {
        assert(anon_name(prefix, i).drop_last() =~= prefix);
    } else {
        assert(i % 26 < 26);
        assert((i % 26) % 26 == i % 26);
    }
}

/// An absent prefix is an empty one.
pub proof fn an_absent_prefix_is_empty()
    ensures
        prefix_text(None).len() == 0,
        forall|text: &str| #[trigger] prefix_text(Some(text)) == text@,
{
}

} // verus!
