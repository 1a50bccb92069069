//! Variable tokens in template text, and their replacement by values.
//!
//! A token is a `$` followed by a name. The name is either wrapped in braces, `${NAME}`, and
//! then reaches to the first `}`, or it is bare, `$NAME`, and then reaches as far as letters,
//! digits and `_` go. A token whose name is known is replaced by the value of that name; any
//! other text, unknown tokens included, stays as it is.

use crate::env_map::EnvMap;
use crate::text::{text_between, to_chars};
use vstd::prelude::*;

verus! {

/// Whether `c` can stand in a bare name: an ASCII letter, a digit or `_`.
pub open spec fn is_name_char(c: char) -> bool {
    ('a' <= c && c <= 'z') || ('A' <= c && c <= 'Z') || ('0' <= c && c <= '9') || c == '_'
}

/// How many name characters `text` starts with.
pub open spec fn name_len(text: Seq<char>) -> nat
    decreases text.len(),
{
    if text.len() > 0 && is_name_char(text[0]) {
        1 + name_len(text.skip(1))
    } else {
        0
    }
}

/// How many characters of `text` stand before its first `}`: all of them, if it has none.
pub open spec fn brace_len(text: Seq<char>) -> nat
    decreases text.len(),
{
    if text.len() > 0 && text[0] != '}' {
        1 + brace_len(text.skip(1))
    } else {
        0
    }
}

/// A variable token at the head of a text.
pub struct Token {
    /// The name that the token refers to.
    pub name: Seq<char>,
    /// The number of characters that the token takes up, `$` and braces included.
    pub len: nat,
}

/// The token that `text` starts with, if it starts with one.
pub open spec fn leading_token(text: Seq<char>) -> Option<Token> {
    if text.len() < 2 || text[0] != '$' {
        None
    } else if text[1] == '{' {
        let inner = brace_len(text.skip(2));
        if 2 + inner < text.len() {
            Some(Token { name: text.subrange(2, 2 + inner as int), len: inner + 3 })
        } else {
            None
        }
    } else {
        let bare = name_len(text.skip(1));
        if bare > 0 {
            Some(Token { name: text.subrange(1, 1 + bare as int), len: bare + 1 })
        } else {
            None
        }
    }
}

/// `text` with every token of a name that `variables` knows replaced by the value of that
/// name, read from left to right. A value that was put in is not read again.
pub open spec fn substituted(text: Seq<char>, variables: Map<Seq<char>, Seq<char>>) -> Seq<char>
    decreases text.len(),
    via substituted_decreases
{
    if text.len() == 0 {
        text
    } else {
        match leading_token(text) {
            Some(token) => (if variables.contains_key(token.name) {
                variables[token.name]
            } else {
                text.take(token.len as int)
            }) + substituted(text.skip(token.len as int), variables),
            None => seq![text[0]] + substituted(text.skip(1), variables),
        }
    }
}

#[via_fn]
proof fn substituted_decreases(text: Seq<char>, variables: Map<Seq<char>, Seq<char>>) {
    if text.len() > 0 {
        lemma_token_fits(text);
    }
}

/// A run of name characters is no longer than its text.
pub proof fn lemma_name_len_fits(text: Seq<char>)
    ensures
        name_len(text) <= text.len(),
    decreases text.len(),
{
    if text.len() > 0 && is_name_char(text[0]) {
        lemma_name_len_fits(text.skip(1));
    }
}

/// The part before the first `}` is no longer than its text.
pub proof fn lemma_brace_len_fits(text: Seq<char>)
    ensures
        brace_len(text) <= text.len(),
    decreases text.len(),
{
    if text.len() > 0 && text[0] != '}' {
        lemma_brace_len_fits(text.skip(1));
    }
}

/// A leading token has at least two characters and lies within its text.
pub proof fn lemma_token_fits(text: Seq<char>)
    ensures
        leading_token(text) matches Some(token) ==> 2 <= token.len <= text.len(),
{
    if text.len() >= 2 {
        lemma_name_len_fits(text.skip(1));
        lemma_brace_len_fits(text.skip(2));
    }
}

/// Every character of `text` can stand in a bare name.
pub open spec fn is_bare_name(text: Seq<char>) -> bool {
    forall|i: int| 0 <= i < text.len() ==> is_name_char(#[trigger] text[i])
}

/// `text` holds the character `c` nowhere.
pub open spec fn is_free_of(text: Seq<char>, c: char) -> bool {
    forall|i: int| 0 <= i < text.len() ==> #[trigger] text[i] != c
}

/// A bare name ends where a character follows that cannot stand in one.
pub proof fn lemma_name_len_of_run(name: Seq<char>, rest: Seq<char>)
    requires
        is_bare_name(name),
        rest.len() > 0 ==> !is_name_char(rest[0]),
    ensures
        name_len(name + rest) == name.len(),
    decreases name.len(),
{
    if name.len() > 0 {
        assert((name + rest)[0] == name[0]);
        assert((name + rest).skip(1) =~= name.skip(1) + rest);
        lemma_name_len_of_run(name.skip(1), rest);
    } else {
        assert(name + rest =~= rest);
    }
}

/// A text without `}` in front of a `}` is what stands before the first `}`.
pub proof fn lemma_brace_len_of_run(name: Seq<char>, rest: Seq<char>)
    requires
        is_free_of(name, '}'),
    ensures
        brace_len(name + seq!['}'] + rest) == name.len(),
    decreases name.len(),
{
    let text = name + seq!['}'] + rest;
    if name.len() > 0 {
        assert(text[0] == name[0]);
        assert(text.skip(1) =~= name.skip(1) + seq!['}'] + rest);
        lemma_brace_len_of_run(name.skip(1), rest);
    } else {
        assert(text[0] == '}');
    }
}

/// Text without `$` in front of other text stays as it is, and what follows it is resolved
/// as if it stood alone.
pub proof fn lemma_plain_prefix(
    plain: Seq<char>,
    rest: Seq<char>,
    variables: Map<Seq<char>, Seq<char>>,
)
    requires
        is_free_of(plain, '$'),
    ensures
        substituted(plain + rest, variables) == plain + substituted(rest, variables),
    decreases plain.len(),
{
    if plain.len() > 0 {
        let text = plain + rest;
        assert(text[0] == plain[0]);
        assert(text.skip(1) =~= plain.skip(1) + rest);
        lemma_plain_prefix(plain.skip(1), rest, variables);
        assert(seq![plain[0]] + (plain.skip(1) + substituted(rest, variables)) =~= plain
            + substituted(rest, variables));
    } else {
        assert(plain + rest =~= rest);
        assert(plain + substituted(rest, variables) =~= substituted(rest, variables));
    }
}

/// Text without `$` resolves to itself, whatever the variables are.
pub proof fn lemma_plain_text(text: Seq<char>, variables: Map<Seq<char>, Seq<char>>)
    requires
        is_free_of(text, '$'),
    ensures
        substituted(text, variables) == text,
{
    lemma_plain_prefix(text, Seq::empty(), variables);
    assert(text + Seq::<char>::empty() =~= text);
}

/// Where no variable is known, every text resolves to itself.
pub proof fn lemma_no_variables(text: Seq<char>)
    ensures
        substituted(text, Map::empty()) == text,
    decreases text.len(),
{
    if text.len() > 0 {
        lemma_token_fits(text);
        match leading_token(text) {
            Some(token) => {
                lemma_no_variables(text.skip(token.len as int));
                assert(text.take(token.len as int) + text.skip(token.len as int) =~= text);
            },
            None => {
                lemma_no_variables(text.skip(1));
                assert(seq![text[0]] + text.skip(1) =~= text);
            },
        }
    }
}

/// What a token of the name `name`, written as `written`, resolves to: the value of the
/// name where it is known, else the token as it was written.
pub open spec fn token_value(
    name: Seq<char>,
    written: Seq<char>,
    variables: Map<Seq<char>, Seq<char>>,
) -> Seq<char> {
    if variables.contains_key(name) {
        variables[name]
    } else {
        written
    }
}

/// The braced token of `name`.
pub open spec fn braced(name: Seq<char>) -> Seq<char> {
    seq!['$', '{'] + name + seq!['}']
}

/// The bare token of `name`.
pub open spec fn bare(name: Seq<char>) -> Seq<char> {
    seq!['$'] + name
}

/// A braced token resolves as the token of its name, whatever text follows it.
pub proof fn lemma_braced_token(
    name: Seq<char>,
    rest: Seq<char>,
    variables: Map<Seq<char>, Seq<char>>,
)
    requires
        is_free_of(name, '}'),
    ensures
        substituted(braced(name) + rest, variables) == token_value(name, braced(name), variables)
            + substituted(rest, variables),
{
    let text = braced(name) + rest;
    assert(text.skip(2) =~= name + seq!['}'] + rest);
    lemma_brace_len_of_run(name, rest);
    let n: int = name.len() as int;
    assert(text.subrange(2, 2 + n) =~= name);
    assert(text.take(n + 3) =~= braced(name));
    assert(text.skip(n + 3) =~= rest);
}

/// A bare token resolves as the token of its name where the text that follows it does not
/// start with a character that can stand in a name.
pub proof fn lemma_bare_token(
    name: Seq<char>,
    rest: Seq<char>,
    variables: Map<Seq<char>, Seq<char>>,
)
    requires
        name.len() > 0,
        is_bare_name(name),
        rest.len() > 0 ==> !is_name_char(rest[0]),
    ensures
        substituted(bare(name) + rest, variables) == token_value(name, bare(name), variables)
            + substituted(rest, variables),
{
    let text = bare(name) + rest;
    assert(text[1] == name[0]);
    assert(is_name_char(name[0]));
    assert(text.skip(1) =~= name + rest);
    lemma_name_len_of_run(name, rest);
    let n: int = name.len() as int;
    assert(text.subrange(1, 1 + n) =~= name);
    assert(text.take(n + 1) =~= bare(name));
    assert(text.skip(n + 1) =~= rest);
}

/// A bare token takes in every name character that follows it: with `more` behind `name`
/// the name that is looked up is `name + more`, and the value of `name` is not put in.
pub proof fn lemma_bare_token_runs_on(
    name: Seq<char>,
    more: Seq<char>,
    rest: Seq<char>,
    variables: Map<Seq<char>, Seq<char>>,
)
    requires
        name.len() > 0,
        is_bare_name(name),
        is_bare_name(more),
        rest.len() > 0 ==> !is_name_char(rest[0]),
    ensures
        substituted(bare(name) + more + rest, variables) == token_value(
            name + more,
            bare(name) + more,
            variables,
        ) + substituted(rest, variables),
{
    assert(bare(name) + more =~= bare(name + more));
    lemma_bare_token(name + more, rest, variables);
}

/// Whether `c` can stand in a bare name.
pub fn name_char(c: char) -> (yes: bool)
    ensures
        yes == is_name_char(c),
{
    ('a' <= c && c <= 'z') || ('A' <= c && c <= 'Z') || ('0' <= c && c <= '9') || c == '_'
}

/// The position behind the name characters that start at `from`.
fn bare_end(chars: &Vec<char>, from: usize) -> (end: usize)
    requires
        from <= chars.len(),
    ensures
        from <= end <= chars.len(),
        end - from == name_len(chars@.skip(from as int)),
{
    let mut end: usize = from;
    while end < chars.len() && name_char(chars[end])
        invariant
            from <= end <= chars.len(),
            name_len(chars@.skip(from as int)) == (end - from) + name_len(chars@.skip(end as int)),
        decreases chars.len() - end,
    {
        proof {
            assert(chars@.skip(end as int).skip(1) =~= chars@.skip(end + 1));
        }
        end += 1;
    }
    end
}

/// The position of the first `}` at or behind `from`, or the length of `chars` if there is none.
fn close_at(chars: &Vec<char>, from: usize) -> (end: usize)
    requires
        from <= chars.len(),
    ensures
        from <= end <= chars.len(),
        end - from == brace_len(chars@.skip(from as int)),
{
    let mut end: usize = from;
    while end < chars.len() && chars[end] != '}'
        invariant
            from <= end <= chars.len(),
            brace_len(chars@.skip(from as int)) == (end - from) + brace_len(
                chars@.skip(end as int),
            ),
        decreases chars.len() - end,
    {
        proof {
            assert(chars@.skip(end as int).skip(1) =~= chars@.skip(end + 1));
        }
        end += 1;
    }
    end
}

/// Where a token and its name lie in a text.
struct Span {
    /// The position of the first character of the name.
    name_from: usize,
    /// The position behind the last character of the name.
    name_to: usize,
    /// The position behind the token.
    end: usize,
}

/// The token that starts at position `at` of `chars`, if one starts there.
fn token_span(chars: &Vec<char>, at: usize) -> (found: Option<Span>)
    requires
        at < chars.len(),
    ensures
        match found {
            Some(span) => {
                &&& at < span.name_from <= span.name_to <= span.end <= chars.len()
                &&& leading_token(chars@.skip(at as int)) == Some(
                    Token {
                        name: chars@.subrange(span.name_from as int, span.name_to as int),
                        len: (span.end - at) as nat,
                    },
                )
            },
            None => leading_token(chars@.skip(at as int)) is None,
        },
{
    let ghost rest = chars@.skip(at as int);
    if chars[at] != '$' || chars.len() - at < 2 {
        return None;
    }
    if chars[at + 1] == '{' {
        let close = close_at(chars, at + 2);
        proof {
            assert(rest.skip(2) =~= chars@.skip(at + 2));
            assert(rest.subrange(2, 2 + (close - (at + 2))) =~= chars@.subrange(
                at + 2,
                close as int,
            ));
        }
        if close < chars.len() {
            Some(Span { name_from: at + 2, name_to: close, end: close + 1 })
        } else {
            None
        }
    } else {
        let end = bare_end(chars, at + 1);
        proof {
            assert(rest.skip(1) =~= chars@.skip(at + 1));
            assert(rest.subrange(1, 1 + (end - (at + 1))) =~= chars@.subrange(at + 1, end as int));
        }
        if end > at + 1 {
            Some(Span { name_from: at + 1, name_to: end, end })
        } else {
            None
        }
    }
}

/// Replaces in `text` every token of a name that `variables` holds by the value of that name.
/// All other text stays as it is, tokens of unknown names included.
pub fn substitute(text: &str, variables: &EnvMap) -> (resolved: String)
    ensures
        resolved@ == substituted(text@, variables@),
{
    let chars = to_chars(text);
    let mut resolved = String::new();
    let mut at: usize = 0;
    proof {
        assert(chars@.skip(0) =~= chars@);
    }
    while at < chars.len()
        invariant
            at <= chars.len(),
            resolved@ + substituted(chars@.skip(at as int), variables@) == substituted(
                chars@,
                variables@,
            ),
        decreases chars.len() - at,
    {
        let ghost rest = chars@.skip(at as int);
        let ghost done = resolved@;
        match token_span(&chars, at) {
            Some(span) => {
                let name = text_between(&chars, span.name_from, span.name_to);
                match variables.get(name.as_str()) {
                    Some(value) => {
                        resolved.append(value.as_str());
                    },
                    None => {
                        let verbatim = text_between(&chars, at, span.end);
                        resolved.append(verbatim.as_str());
                        proof {
                            assert(rest.take(span.end - at) =~= chars@.subrange(
                                at as int,
                                span.end as int,
                            ));
                        }
                    },
                }
                proof {
                    assert(rest.skip(span.end - at) =~= chars@.skip(span.end as int));
                    let piece = if variables@.contains_key(name@) {
                        variables@[name@]
                    } else {
                        rest.take(span.end - at)
                    };
                    assert(resolved@ == done + piece);
                    assert(substituted(rest, variables@) == piece + substituted(
                        chars@.skip(span.end as int),
                        variables@,
                    ));
                    assert(done + (piece + substituted(chars@.skip(span.end as int), variables@))
                        =~= (done + piece) + substituted(chars@.skip(span.end as int), variables@));
                }
                at = span.end;
            },
            None => {
                resolved.push(chars[at]);
                proof {
                    assert(rest.skip(1) =~= chars@.skip(at + 1));
                    assert(substituted(rest, variables@) == seq![rest[0]] + substituted(
                        chars@.skip(at + 1),
                        variables@,
                    ));
                    assert(done + (seq![rest[0]] + substituted(chars@.skip(at + 1), variables@))
                        =~= done.push(chars@[at as int]) + substituted(
                        chars@.skip(at + 1),
                        variables@,
                    ));
                }
                at += 1;
            },
        }
    }
    proof {
        assert(substituted(chars@.skip(at as int), variables@) =~= Seq::<char>::empty());
        assert(resolved@ + Seq::<char>::empty() =~= resolved@);
    }
    resolved
}

} // verus!
