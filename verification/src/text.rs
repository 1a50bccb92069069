//! Text as a sequence of characters: conversions between `str` and `Vec<char>`, and the
//! order by which keys are kept.

use vstd::prelude::*;

verus! {

/// `String::push` of std appends the given character to the end of the string.
pub assume_specification[ String::push ](text: &mut String, ch: char)
    ensures
        final(text)@ == old(text)@.push(ch),
;

/// The characters of `text`, in order.
pub fn to_chars(text: &str) -> (chars: Vec<char>)
    ensures
        chars@ == text@,
{
    let mut chars: Vec<char> = Vec::new();
    for ch in it: text.chars()
        invariant
            chars@ == it.seq().take(it.index@),
    {
        chars.push(ch);
    }
    chars
}

/// The text of `chars` from position `from` up to position `to`.
pub fn text_between(chars: &Vec<char>, from: usize, to: usize) -> (text: String)
    requires
        from <= to <= chars.len(),
    ensures
        text@ == chars@.subrange(from as int, to as int),
{
    let mut text = String::new();
    let mut i: usize = from;
    while i < to
        invariant
            from <= i <= to <= chars.len(),
            text@ == chars@.subrange(from as int, i as int),
        decreases to - i,
    {
        text.push(chars[i]);
        proof {
            assert(chars@.subrange(from as int, i + 1) =~= chars@.subrange(
                from as int,
                i as int,
            ).push(chars@[i as int]));
        }
        i += 1;
    }
    text
}

/// A copy of a list of texts.
pub fn clone_texts(texts: &Vec<String>) -> (copy: Vec<String>)
    ensures
        copy.deep_view() == texts.deep_view(),
{
    let mut copy: Vec<String> = Vec::new();
    let mut i: usize = 0;
    while i < texts.len()
        invariant
            i <= texts.len(),
            copy.deep_view() == texts.deep_view().take(i as int),
        decreases texts.len() - i,
    {
        let ghost before = copy.deep_view();
        copy.push(texts[i].clone());
        proof {
            assert(copy.deep_view() =~= before.push(texts@[i as int]@));
            assert(texts.deep_view().take(i + 1) =~= before.push(texts@[i as int]@));
        }
        i += 1;
    }
    proof {
        assert(texts.deep_view().take(i as int) =~= texts.deep_view());
    }
    copy
}

/// A copy of a text that may be missing.
pub fn clone_text_option(text: &Option<String>) -> (copy: Option<String>)
    ensures
        copy.deep_view() == text.deep_view(),
{
    match text {
        Some(text) => Some(text.clone()),
        None => None,
    }
}

/// Whether `chars` starts with the characters of `prefix`.
pub fn starts_with(chars: &Vec<char>, prefix: &Vec<char>) -> (yes: bool)
    ensures
        yes == prefix@.is_prefix_of(chars@),
{
    if prefix.len() > chars.len() {
        return false;
    }
    let mut i: usize = 0;
    while i < prefix.len()
        invariant
            i <= prefix.len() <= chars.len(),
            prefix@.take(i as int) == chars@.take(i as int),
        decreases prefix.len() - i,
    {
        if prefix[i] != chars[i] {
            proof {
                assert(chars@.subrange(0, prefix.len() as int)[i as int] != prefix@[i as int]);
            }
            return false;
        }
        proof {
            assert(prefix@.take(i + 1) =~= prefix@.take(i as int).push(prefix@[i as int]));
            assert(chars@.take(i + 1) =~= chars@.take(i as int).push(chars@[i as int]));
        }
        i += 1;
    }
    proof {
        assert(prefix@.take(i as int) =~= prefix@);
    }
    true
}

/// Whether `a` comes before `b` when both are read from position `from` on: at the first
/// position where they differ `a` has the smaller character, or `a` ends there and `b` goes on.
pub open spec fn precedes_from(a: Seq<char>, b: Seq<char>, from: int) -> bool
    decreases a.len() - from,
{
    if from >= b.len() {
        false
    } else if from >= a.len() {
        true
    } else if a[from] != b[from] {
        a[from] < b[from]
    } else {
        precedes_from(a, b, from + 1)
    }
}

/// The strict lexicographic order of texts by code point.
pub open spec fn precedes(a: Seq<char>, b: Seq<char>) -> bool {
    precedes_from(a, b, 0)
}

/// No text comes before itself.
pub proof fn lemma_precedes_irreflexive(a: Seq<char>, from: int)
    ensures
        !precedes_from(a, a, from),
    decreases a.len() - from,
{
    if from < a.len() {
        lemma_precedes_irreflexive(a, from + 1);
    }
}

/// The order is transitive.
pub proof fn lemma_precedes_transitive(a: Seq<char>, b: Seq<char>, c: Seq<char>, from: int)
    requires
        precedes_from(a, b, from),
        precedes_from(b, c, from),
    ensures
        precedes_from(a, c, from),
    decreases c.len() - from,
{
    if from < a.len() && from < c.len() && a[from] == b[from] && b[from] == c[from] {
        lemma_precedes_transitive(a, b, c, from + 1);
    }
}

/// Two texts of which neither comes before the other agree from `from` on.
pub proof fn lemma_precedes_total(a: Seq<char>, b: Seq<char>, from: int)
    requires
        0 <= from <= a.len(),
        from <= b.len(),
        !precedes_from(a, b, from),
        !precedes_from(b, a, from),
    ensures
        a.skip(from) == b.skip(from),
    decreases a.len() - from,
{
    if from < a.len() {
        lemma_precedes_total(a, b, from + 1);
        assert(a.skip(from) =~= seq![a[from]] + a.skip(from + 1));
        assert(b.skip(from) =~= seq![b[from]] + b.skip(from + 1));
    } else {
        assert(a.skip(from) =~= b.skip(from));
    }
}

/// Two different texts are ordered one way or the other.
pub proof fn lemma_precedes_connected(a: Seq<char>, b: Seq<char>)
    ensures
        a == b || precedes(a, b) || precedes(b, a),
{
    if !precedes(a, b) && !precedes(b, a) {
        lemma_precedes_total(a, b, 0);
        assert(a.skip(0) =~= a);
        assert(b.skip(0) =~= b);
    }
}

/// How two texts stand to each other in the order of [`precedes`].
#[derive(Clone, Copy, Debug, PartialEq, Eq)]
pub enum Rank {
    /// The first text comes before the second.
    Before,
    /// The two texts are the same.
    Same,
    /// The first text comes after the second.
    After,
}

/// Compares two texts character by character.
pub fn rank(a: &str, b: &str) -> (r: Rank)
    ensures
        r is Before <==> precedes(a@, b@),
        r is Same <==> a@ == b@,
        r is After <==> precedes(b@, a@),
{
    let left = to_chars(a);
    let right = to_chars(b);
    let mut i: usize = 0;
    while i < left.len() && i < right.len() && left[i] == right[i]
        invariant
            i <= left.len(),
            i <= right.len(),
            precedes_from(left@, right@, i as int) == precedes(left@, right@),
            precedes_from(right@, left@, i as int) == precedes(right@, left@),
        decreases left.len() - i,
    {
        i += 1;
    }
    proof {
        lemma_precedes_irreflexive(a@, 0);
        lemma_precedes_connected(a@, b@);
        if precedes(a@, b@) && precedes(b@, a@) {
            lemma_precedes_transitive(a@, b@, a@, 0);
        }
    }
    if i >= right.len() {
        if i >= left.len() {
            Rank::Same
        } else {
            Rank::After
        }
    } else if i >= left.len() {
        Rank::Before
    } else if left[i] < right[i] {
        Rank::Before
    } else {
        Rank::After
    }
}

} // verus!
