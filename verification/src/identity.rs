//! The identity of a resolved task: a text from which the template and the context that
//! made the task can be read back, so that two tasks have the same identity exactly when
//! they were made from the same template in the same context.
//!
//! Every part is written so that it can be told from what follows it. A text is framed as
//! its length in decimal digits, a `:` and the text itself.

use crate::context::{env_of, ContextView};
use crate::env_map::{is_listable, lemma_listed_injective, listed, EnvMap, Pairs};
use crate::template::{RevealStrategy, TaskTemplate, TemplateView};
use crate::variable::{lemma_env_variable_of_name, VariableKey};
use vstd::prelude::*;

verus! {

/// Task identifier, unique within the application.
/// Based on it, task reruns and terminal tabs are managed.
#[derive(Debug, PartialEq, Eq, Hash)]
pub struct TaskId(pub String);

impl View for TaskId {
    type V = Seq<char>;

    open spec fn view(&self) -> Seq<char> {
        self.0@
    }
}

impl Clone for TaskId {
    fn clone(&self) -> (copy: TaskId)
        ensures
            copy@ == self@,
    {
        TaskId(self.0.clone())
    }
}

/// The decimal digit for `d`.
pub open spec fn digit(d: nat) -> char
    recommends
        d < 10,
{
    (48 + d) as char
}

/// Whether `c` is a decimal digit.
pub open spec fn is_digit(c: char) -> bool {
    '0' <= c && c <= '9'
}

/// The decimal digits of `n`, without leading zeros.
pub open spec fn decimal(n: nat) -> Seq<char>
    decreases n,
{
    if n < 10 {
        seq![digit(n)]
    } else {
        decimal(n / 10).push(digit(n % 10))
    }
}

/// The number `n` in decimal, closed by the character `mark`.
pub open spec fn counted(n: nat, mark: char) -> Seq<char> {
    decimal(n).push(mark)
}

/// A text with its length in front: the length in decimal, a `:`, the text.
pub open spec fn frame(text: Seq<char>) -> Seq<char> {
    counted(text.len(), ':') + text
}

/// A text that may be missing: `-` for none, `+` and the framed text for one.
pub open spec fn frame_option(text: Option<Seq<char>>) -> Seq<char> {
    match text {
        Some(text) => seq!['+'] + frame(text),
        None => seq!['-'],
    }
}

/// A flag: `1` where it is set, `0` where it is not.
pub open spec fn frame_flag(flag: bool) -> Seq<char> {
    if flag {
        seq!['1']
    } else {
        seq!['0']
    }
}

/// The framed texts of `list`, one after the other.
pub open spec fn frames(list: Seq<Seq<char>>) -> Seq<char>
    decreases list.len(),
{
    if list.len() == 0 {
        Seq::empty()
    } else {
        frame(list[0]) + frames(list.skip(1))
    }
}

/// A list of texts: their number, a `[`, and the framed texts.
pub open spec fn frame_list(list: Seq<Seq<char>>) -> Seq<char> {
    counted(list.len(), '[') + frames(list)
}

/// The framed names and values of `pairs`, one pair after the other.
pub open spec fn pair_frames(pairs: Pairs) -> Seq<char>
    decreases pairs.len(),
{
    if pairs.len() == 0 {
        Seq::empty()
    } else {
        frame(pairs[0].0) + frame(pairs[0].1) + pair_frames(pairs.skip(1))
    }
}

/// A list of names with their values: their number, a `{`, and the framed names and values.
pub open spec fn frame_pairs(pairs: Pairs) -> Seq<char> {
    counted(pairs.len(), '{') + pair_frames(pairs)
}

/// The decimal digits of a number are digits, and there is at least one.
pub proof fn lemma_decimal_digits(n: nat)
    ensures
        decimal(n).len() > 0,
        forall|i: int| 0 <= i < decimal(n).len() ==> is_digit(#[trigger] decimal(n)[i]),
    decreases n,
{
    if n >= 10 {
        lemma_decimal_digits(n / 10);
    }
}

/// Different numbers have different decimal digits.
pub proof fn lemma_decimal_injective(m: nat, n: nat)
    requires
        decimal(m) == decimal(n),
    ensures
        m == n,
    decreases m,
{
    lemma_decimal_digits(m / 10);
    lemma_decimal_digits(n / 10);
    if m >= 10 && n >= 10 {
        assert(decimal(m).drop_last() =~= decimal(m / 10));
        assert(decimal(n).drop_last() =~= decimal(n / 10));
        assert(decimal(m).last() == digit(m % 10));
        assert(decimal(n).last() == digit(n % 10));
        assert(digit(m % 10) as int == 48 + m % 10);
        assert(digit(n % 10) as int == 48 + n % 10);
        lemma_decimal_injective(m / 10, n / 10);
    } else if m < 10 && n < 10 {
        assert(decimal(m)[0] == digit(m));
        assert(decimal(n)[0] == digit(n));
        assert(digit(m) as int == 48 + m);
        assert(digit(n) as int == 48 + n);
    } else if m < 10 {
        assert(decimal(m).len() == 1);
        assert(decimal(n).len() == decimal(n / 10).len() + 1);
    } else {
        assert(decimal(n).len() == 1);
        assert(decimal(m).len() == decimal(m / 10).len() + 1);
    }
}

/// A counted number can be told from whatever follows it.
pub proof fn lemma_counted_unique(m: nat, rest_m: Seq<char>, n: nat, rest_n: Seq<char>, mark: char)
    requires
        !is_digit(mark),
        counted(m, mark) + rest_m == counted(n, mark) + rest_n,
    ensures
        m == n,
        rest_m == rest_n,
{
    let whole = counted(m, mark) + rest_m;
    let a = decimal(m);
    let b = decimal(n);
    lemma_decimal_digits(m);
    lemma_decimal_digits(n);
    if a.len() < b.len() {
        assert(whole[a.len() as int] == mark);
        assert(whole[a.len() as int] == b[a.len() as int]);
    } else if b.len() < a.len() {
        assert(whole[b.len() as int] == mark);
        assert(whole[b.len() as int] == a[b.len() as int]);
    }
    assert(a =~= whole.take(a.len() as int));
    assert(b =~= whole.take(b.len() as int));
    lemma_decimal_injective(m, n);
    assert(rest_m =~= whole.skip(a.len() as int + 1));
    assert(rest_n =~= whole.skip(b.len() as int + 1));
}

/// A framed text can be told from whatever follows it.
pub proof fn lemma_frame_unique(a: Seq<char>, rest_a: Seq<char>, b: Seq<char>, rest_b: Seq<char>)
    requires
        frame(a) + rest_a == frame(b) + rest_b,
    ensures
        a == b,
        rest_a == rest_b,
{
    assert(frame(a) + rest_a =~= counted(a.len(), ':') + (a + rest_a));
    assert(frame(b) + rest_b =~= counted(b.len(), ':') + (b + rest_b));
    lemma_counted_unique(a.len(), a + rest_a, b.len(), b + rest_b, ':');
    let tail = a + rest_a;
    assert(a =~= tail.take(a.len() as int));
    assert(b =~= tail.take(a.len() as int));
    assert(rest_a =~= tail.skip(a.len() as int));
    assert(rest_b =~= tail.skip(a.len() as int));
}

/// A text that may be missing can be told from whatever follows it.
pub proof fn lemma_option_unique(
    a: Option<Seq<char>>,
    rest_a: Seq<char>,
    b: Option<Seq<char>>,
    rest_b: Seq<char>,
)
    requires
        frame_option(a) + rest_a == frame_option(b) + rest_b,
    ensures
        a == b,
        rest_a == rest_b,
{
    let whole = frame_option(a) + rest_a;
    assert(whole[0] == frame_option(a)[0]);
    assert(whole[0] == frame_option(b)[0]);
    match (a, b) {
        (Some(x), Some(y)) => {
            assert(whole.skip(1) =~= frame(x) + rest_a);
            assert(whole.skip(1) =~= frame(y) + rest_b);
            lemma_frame_unique(x, rest_a, y, rest_b);
        },
        (None, None) => {
            assert(rest_a =~= whole.skip(1));
            assert(rest_b =~= whole.skip(1));
        },
        _ => {},
    }
}

/// A flag can be told from whatever follows it.
pub proof fn lemma_flag_unique(a: bool, rest_a: Seq<char>, b: bool, rest_b: Seq<char>)
    requires
        frame_flag(a) + rest_a == frame_flag(b) + rest_b,
    ensures
        a == b,
        rest_a == rest_b,
{
    let whole = frame_flag(a) + rest_a;
    assert(whole[0] == frame_flag(a)[0]);
    assert(whole[0] == frame_flag(b)[0]);
    assert(rest_a =~= whole.skip(1));
    assert(rest_b =~= whole.skip(1));
}

/// Framed texts of equal number can be told from whatever follows them.
pub proof fn lemma_frames_unique(
    a: Seq<Seq<char>>,
    rest_a: Seq<char>,
    b: Seq<Seq<char>>,
    rest_b: Seq<char>,
)
    requires
        a.len() == b.len(),
        frames(a) + rest_a == frames(b) + rest_b,
    ensures
        a == b,
        rest_a == rest_b,
    decreases a.len(),
{
    if a.len() == 0 {
        assert(frames(a) + rest_a =~= rest_a);
        assert(frames(b) + rest_b =~= rest_b);
        assert(a =~= b);
    } else {
        assert(frames(a) + rest_a =~= frame(a[0]) + (frames(a.skip(1)) + rest_a));
        assert(frames(b) + rest_b =~= frame(b[0]) + (frames(b.skip(1)) + rest_b));
        lemma_frame_unique(
            a[0],
            frames(a.skip(1)) + rest_a,
            b[0],
            frames(b.skip(1)) + rest_b,
        );
        lemma_frames_unique(a.skip(1), rest_a, b.skip(1), rest_b);
        assert(a =~= seq![a[0]] + a.skip(1));
        assert(b =~= seq![b[0]] + b.skip(1));
    }
}

/// A list of texts can be told from whatever follows it.
pub proof fn lemma_list_unique(
    a: Seq<Seq<char>>,
    rest_a: Seq<char>,
    b: Seq<Seq<char>>,
    rest_b: Seq<char>,
)
    requires
        frame_list(a) + rest_a == frame_list(b) + rest_b,
    ensures
        a == b,
        rest_a == rest_b,
{
    assert(frame_list(a) + rest_a =~= counted(a.len(), '[') + (frames(a) + rest_a));
    assert(frame_list(b) + rest_b =~= counted(b.len(), '[') + (frames(b) + rest_b));
    lemma_counted_unique(a.len(), frames(a) + rest_a, b.len(), frames(b) + rest_b, '[');
    lemma_frames_unique(a, rest_a, b, rest_b);
}

/// Framed pairs of equal number can be told from whatever follows them.
pub proof fn lemma_pair_frames_unique(a: Pairs, rest_a: Seq<char>, b: Pairs, rest_b: Seq<char>)
    requires
        a.len() == b.len(),
        pair_frames(a) + rest_a == pair_frames(b) + rest_b,
    ensures
        a == b,
        rest_a == rest_b,
    decreases a.len(),
{
    if a.len() == 0 {
        assert(pair_frames(a) + rest_a =~= rest_a);
        assert(pair_frames(b) + rest_b =~= rest_b);
        assert(a =~= b);
    } else {
        let tail_a = pair_frames(a.skip(1)) + rest_a;
        let tail_b = pair_frames(b.skip(1)) + rest_b;
        assert(pair_frames(a) + rest_a =~= frame(a[0].0) + (frame(a[0].1) + tail_a));
        assert(pair_frames(b) + rest_b =~= frame(b[0].0) + (frame(b[0].1) + tail_b));
        lemma_frame_unique(a[0].0, frame(a[0].1) + tail_a, b[0].0, frame(b[0].1) + tail_b);
        lemma_frame_unique(a[0].1, tail_a, b[0].1, tail_b);
        lemma_pair_frames_unique(a.skip(1), rest_a, b.skip(1), rest_b);
        assert(a =~= seq![a[0]] + a.skip(1));
        assert(b =~= seq![b[0]] + b.skip(1));
    }
}

/// A list of names with their values can be told from whatever follows it.
pub proof fn lemma_pairs_unique(a: Pairs, rest_a: Seq<char>, b: Pairs, rest_b: Seq<char>)
    requires
        frame_pairs(a) + rest_a == frame_pairs(b) + rest_b,
    ensures
        a == b,
        rest_a == rest_b,
{
    assert(frame_pairs(a) + rest_a =~= counted(a.len(), '{') + (pair_frames(a) + rest_a));
    assert(frame_pairs(b) + rest_b =~= counted(b.len(), '{') + (pair_frames(b) + rest_b));
    lemma_counted_unique(a.len(), pair_frames(a) + rest_a, b.len(), pair_frames(b) + rest_b, '{');
    lemma_pair_frames_unique(a, rest_a, b, rest_b);
}

/// Appends the decimal digits of `n` to `out`.
fn push_decimal(out: &mut String, n: usize)
    ensures
        final(out)@ == old(out)@ + decimal(n as nat),
    decreases n,
{
    if n >= 10 {
        push_decimal(out, n / 10);
    }
    let ghost before = out@;
    let d: u8 = (n % 10) as u8;
    out.push((48u8 + d) as char);
    proof {
        if n >= 10 {
            assert(old(out)@ + decimal(n as nat) =~= before.push(digit((n % 10) as nat)));
        } else {
            assert(old(out)@ + decimal(n as nat) =~= before.push(digit(n as nat)));
        }
    }
}

/// One more text behind a list adds its frame behind the frames of the list.
pub proof fn lemma_frames_push(list: Seq<Seq<char>>, text: Seq<char>)
    ensures
        frames(list.push(text)) == frames(list) + frame(text),
    decreases list.len(),
{
    let longer = list.push(text);
    if list.len() == 0 {
        assert(longer.skip(1) =~= Seq::<Seq<char>>::empty());
        assert(frames(longer.skip(1)) =~= Seq::<char>::empty());
        assert(longer[0] == text);
        assert(frames(longer) =~= frames(list) + frame(text));
    } else {
        assert(longer.skip(1) =~= list.skip(1).push(text));
        lemma_frames_push(list.skip(1), text);
        assert(longer[0] == list[0]);
        assert(frames(longer) == frame(list[0]) + (frames(list.skip(1)) + frame(text)));
        assert(frames(list) == frame(list[0]) + frames(list.skip(1)));
        assert(frames(longer) =~= frames(list) + frame(text));
    }
}

/// One more pair behind a list adds its frames behind the frames of the list.
pub proof fn lemma_pair_frames_push(pairs: Pairs, pair: (Seq<char>, Seq<char>))
    ensures
        pair_frames(pairs.push(pair)) == pair_frames(pairs) + frame(pair.0) + frame(pair.1),
    decreases pairs.len(),
{
    let longer = pairs.push(pair);
    if pairs.len() == 0 {
        assert(longer.skip(1) =~= Pairs::empty());
        assert(pair_frames(longer.skip(1)) =~= Seq::<char>::empty());
        assert(longer[0] == pair);
        assert(pair_frames(longer) =~= pair_frames(pairs) + frame(pair.0) + frame(pair.1));
    } else {
        assert(longer.skip(1) =~= pairs.skip(1).push(pair));
        lemma_pair_frames_push(pairs.skip(1), pair);
        assert(longer[0] == pairs[0]);
        let first = frame(pairs[0].0) + frame(pairs[0].1);
        assert(pair_frames(longer) == first + (pair_frames(pairs.skip(1)) + frame(pair.0)
            + frame(pair.1)));
        assert(pair_frames(pairs) == first + pair_frames(pairs.skip(1)));
        assert(pair_frames(longer) =~= pair_frames(pairs) + frame(pair.0) + frame(pair.1));
    }
}

/// Appends the frame of `text` to `out`.
pub fn push_frame(out: &mut String, text: &str)
    ensures
        final(out)@ == old(out)@ + frame(text@),
{
    push_decimal(out, text.unicode_len());
    out.push(':');
    out.append(text);
    proof {
        assert(out@ =~= old(out)@ + frame(text@));
    }
}

/// Appends the frame of a text that may be missing to `out`.
pub fn push_option(out: &mut String, text: &Option<String>)
    ensures
        final(out)@ == old(out)@ + frame_option(text.deep_view()),
{
    match text {
        Some(text) => {
            out.push('+');
            push_frame(out, text.as_str());
        },
        None => {
            out.push('-');
        },
    }
    proof {
        assert(out@ =~= old(out)@ + frame_option(text.deep_view()));
    }
}

/// Appends the frame of a flag to `out`.
pub fn push_flag(out: &mut String, flag: bool)
    ensures
        final(out)@ == old(out)@ + frame_flag(flag),
{
    out.push(if flag { '1' } else { '0' });
    proof {
        assert(out@ =~= old(out)@ + frame_flag(flag));
    }
}

/// Appends the frame of a list of texts to `out`.
pub fn push_list(out: &mut String, list: &Vec<String>)
    ensures
        final(out)@ == old(out)@ + frame_list(list.deep_view()),
{
    let ghost texts = list.deep_view();
    push_decimal(out, list.len());
    out.push('[');
    let ghost head = out@;
    let mut i: usize = 0;
    proof {
        assert(texts.take(0) =~= Seq::<Seq<char>>::empty());
        assert(head =~= old(out)@ + counted(texts.len(), '['));
        assert(head + frames(texts.take(0)) =~= head);
    }
    while i < list.len()
        invariant
            i <= list.len(),
            texts == list.deep_view(),
            out@ == head + frames(texts.take(i as int)),
        decreases list.len() - i,
    {
        push_frame(out, list[i].as_str());
        proof {
            lemma_frames_push(texts.take(i as int), texts[i as int]);
            assert(texts.take(i + 1) =~= texts.take(i as int).push(texts[i as int]));
            assert(texts[i as int] == list@[i as int]@);
            assert(out@ =~= head + frames(texts.take(i + 1)));
        }
        i += 1;
    }
    proof {
        assert(texts.take(i as int) =~= texts);
        assert(out@ =~= old(out)@ + frame_list(texts));
    }
}

/// Appends the frame of the entries of `map` to `out`.
pub fn push_pairs(out: &mut String, map: &EnvMap)
    ensures
        final(out)@ == old(out)@ + frame_pairs(map.entries()),
{
    let ghost pairs = map.entries();
    push_decimal(out, map.len());
    out.push('{');
    let ghost head = out@;
    let mut i: usize = 0;
    proof {
        assert(pairs.take(0) =~= Pairs::empty());
        assert(head =~= old(out)@ + counted(pairs.len(), '{'));
        assert(head + pair_frames(pairs.take(0)) =~= head);
    }
    while i < map.len()
        invariant
            i <= map.entries().len(),
            pairs == map.entries(),
            out@ == head + pair_frames(pairs.take(i as int)),
        decreases map.entries().len() - i,
    {
        let (name, value) = map.entry(i);
        push_frame(out, name.as_str());
        push_frame(out, value.as_str());
        proof {
            lemma_pair_frames_push(pairs.take(i as int), pairs[i as int]);
            assert(pairs.take(i + 1) =~= pairs.take(i as int).push(pairs[i as int]));
            assert(out@ =~= head + pair_frames(pairs.take(i + 1)));
        }
        i += 1;
    }
    proof {
        assert(pairs.take(i as int) =~= pairs);
        assert(out@ =~= old(out)@ + frame_pairs(pairs));
    }
}

/// The identity of the task that `template` makes in `context`: the label, the command, the
/// arguments, the environment, the working directory and the three settings of the
/// template, then the working directory and the variables of the context, each framed.
pub open spec fn task_id(template: TemplateView, context: ContextView) -> Seq<char> {
    frame(template.label) + frame(template.command) + frame_list(template.args) + frame_pairs(
        listed(template.env),
    ) + frame_option(template.cwd) + frame_flag(template.use_new_terminal) + frame_flag(
        template.allow_concurrent_runs,
    ) + frame_flag(template.reveal is Always) + frame_option(context.cwd) + frame_pairs(
        listed(env_of(context.variables)),
    )
}

/// Texts joined one after the other are the first text in front of the others joined.
proof fn lemma_join(x: Seq<char>, y: Seq<char>, z: Seq<char>)
    ensures
        (x + y) + z == x + (y + z),
{
    assert((x + y) + z =~= x + (y + z));
}

/// Ten texts joined from the left are the same text as joined from the right.
proof fn lemma_regroup(
    first: Seq<char>,
    second: Seq<char>,
    third: Seq<char>,
    fourth: Seq<char>,
    fifth: Seq<char>,
    sixth: Seq<char>,
    seventh: Seq<char>,
    eighth: Seq<char>,
    ninth: Seq<char>,
    tenth: Seq<char>,
)
    ensures
        first + second + third + fourth + fifth + sixth + seventh + eighth + ninth + tenth
            == first + (second + (third + (fourth + (fifth + (sixth + (seventh + (eighth + (ninth
            + (tenth + Seq::<char>::empty()))))))))),
{
    let from_tenth = tenth + Seq::<char>::empty();
    let from_ninth = ninth + from_tenth;
    let from_eighth = eighth + from_ninth;
    let from_seventh = seventh + from_eighth;
    let from_sixth = sixth + from_seventh;
    let from_fifth = fifth + from_sixth;
    let from_fourth = fourth + from_fifth;
    let from_third = third + from_fourth;
    let from_second = second + from_third;
    let upto_second = first + second;
    let upto_third = upto_second + third;
    let upto_fourth = upto_third + fourth;
    let upto_fifth = upto_fourth + fifth;
    let upto_sixth = upto_fifth + sixth;
    let upto_seventh = upto_sixth + seventh;
    let upto_eighth = upto_seventh + eighth;
    let upto_ninth = upto_eighth + ninth;
    assert(from_tenth =~= tenth);
    lemma_join(upto_eighth, ninth, from_tenth);
    lemma_join(upto_seventh, eighth, from_ninth);
    lemma_join(upto_sixth, seventh, from_eighth);
    lemma_join(upto_fifth, sixth, from_seventh);
    lemma_join(upto_fourth, fifth, from_sixth);
    lemma_join(upto_third, fourth, from_fifth);
    lemma_join(upto_second, third, from_fourth);
    lemma_join(first, second, from_third);
}

/// Variables that make the same environment are the same variables.
pub proof fn lemma_env_of_injective(
    a: Map<VariableKey, Seq<char>>,
    b: Map<VariableKey, Seq<char>>,
)
    requires
        env_of(a) == env_of(b),
    ensures
        a == b,
{
    assert forall|key: VariableKey| #[trigger]
        a.dom().contains(key) == b.dom().contains(key) by {
        lemma_env_variable_of_name(key);
        let name = key.env_name();
        assert(env_of(a).contains_key(name) == a.contains_key(key));
        assert(env_of(b).contains_key(name) == b.contains_key(key));
    }
    assert forall|key: VariableKey| a.dom().contains(key) implies #[trigger] a[key] == b[key] by {
        lemma_env_variable_of_name(key);
        let name = key.env_name();
        assert(env_of(a).contains_key(name));
        assert(env_of(a)[name] == a[key]);
        assert(env_of(b)[name] == b[key]);
    }
    assert(a =~= b);
}

/// Two tasks have the same identity only if they were made from the same template in the
/// same context: with the same working directory and the same variables.
pub proof fn lemma_task_id_injective(
    template_a: TemplateView,
    context_a: ContextView,
    template_b: TemplateView,
    context_b: ContextView,
)
    requires
        is_listable(template_a.env),
        is_listable(template_b.env),
        is_listable(env_of(context_a.variables)),
        is_listable(env_of(context_b.variables)),
        task_id(template_a, context_a) == task_id(template_b, context_b),
    ensures
        template_a == template_b,
        context_a == context_b,
{
    let end = Seq::<char>::empty();
    let a10 = frame_pairs(listed(env_of(context_a.variables))) + end;
    let b10 = frame_pairs(listed(env_of(context_b.variables))) + end;
    let a9 = frame_option(context_a.cwd) + a10;
    let b9 = frame_option(context_b.cwd) + b10;
    let a8 = frame_flag(template_a.reveal is Always) + a9;
    let b8 = frame_flag(template_b.reveal is Always) + b9;
    let a7 = frame_flag(template_a.allow_concurrent_runs) + a8;
    let b7 = frame_flag(template_b.allow_concurrent_runs) + b8;
    let a6 = frame_flag(template_a.use_new_terminal) + a7;
    let b6 = frame_flag(template_b.use_new_terminal) + b7;
    let a5 = frame_option(template_a.cwd) + a6;
    let b5 = frame_option(template_b.cwd) + b6;
    let a4 = frame_pairs(listed(template_a.env)) + a5;
    let b4 = frame_pairs(listed(template_b.env)) + b5;
    let a3 = frame_list(template_a.args) + a4;
    let b3 = frame_list(template_b.args) + b4;
    let a2 = frame(template_a.command) + a3;
    let b2 = frame(template_b.command) + b3;
    lemma_regroup(
        frame(template_a.label),
        frame(template_a.command),
        frame_list(template_a.args),
        frame_pairs(listed(template_a.env)),
        frame_option(template_a.cwd),
        frame_flag(template_a.use_new_terminal),
        frame_flag(template_a.allow_concurrent_runs),
        frame_flag(template_a.reveal is Always),
        frame_option(context_a.cwd),
        frame_pairs(listed(env_of(context_a.variables))),
    );
    lemma_regroup(
        frame(template_b.label),
        frame(template_b.command),
        frame_list(template_b.args),
        frame_pairs(listed(template_b.env)),
        frame_option(template_b.cwd),
        frame_flag(template_b.use_new_terminal),
        frame_flag(template_b.allow_concurrent_runs),
        frame_flag(template_b.reveal is Always),
        frame_option(context_b.cwd),
        frame_pairs(listed(env_of(context_b.variables))),
    );
    assert(task_id(template_a, context_a) == frame(template_a.label) + a2);
    assert(task_id(template_b, context_b) == frame(template_b.label) + b2);
    lemma_frame_unique(template_a.label, a2, template_b.label, b2);
    lemma_frame_unique(template_a.command, a3, template_b.command, b3);
    lemma_list_unique(template_a.args, a4, template_b.args, b4);
    lemma_pairs_unique(listed(template_a.env), a5, listed(template_b.env), b5);
    lemma_option_unique(template_a.cwd, a6, template_b.cwd, b6);
    lemma_flag_unique(template_a.use_new_terminal, a7, template_b.use_new_terminal, b7);
    lemma_flag_unique(template_a.allow_concurrent_runs, a8, template_b.allow_concurrent_runs, b8);
    lemma_flag_unique(template_a.reveal is Always, a9, template_b.reveal is Always, b9);
    lemma_option_unique(context_a.cwd, a10, context_b.cwd, b10);
    lemma_pairs_unique(
        listed(env_of(context_a.variables)),
        end,
        listed(env_of(context_b.variables)),
        end,
    );
    lemma_listed_injective(template_a.env, template_b.env);
    lemma_listed_injective(env_of(context_a.variables), env_of(context_b.variables));
    lemma_env_of_injective(context_a.variables, context_b.variables);
}

/// Writes the identity of the task that `template` makes in the directory `cwd` with the
/// variables that reach the environment as `variables`.
pub fn identify(template: &TaskTemplate, cwd: &Option<String>, variables: &EnvMap) -> (id: TaskId)
    ensures
        id@ == frame(template@.label) + frame(template@.command) + frame_list(template@.args)
            + frame_pairs(listed(template@.env)) + frame_option(template@.cwd) + frame_flag(
            template@.use_new_terminal,
        ) + frame_flag(template@.allow_concurrent_runs) + frame_flag(template@.reveal is Always)
            + frame_option(cwd.deep_view()) + frame_pairs(listed(variables@)),
{
    proof {
        use_type_invariant(&template.env);
        use_type_invariant(variables);
        template.env.lemma_ordered();
        variables.lemma_ordered();
    }
    let mut id = String::new();
    push_frame(&mut id, template.label.as_str());
    push_frame(&mut id, template.command.as_str());
    push_list(&mut id, &template.args);
    push_pairs(&mut id, &template.env);
    push_option(&mut id, &template.cwd);
    push_flag(&mut id, template.use_new_terminal);
    push_flag(&mut id, template.allow_concurrent_runs);
    push_flag(
        &mut id,
        match template.reveal {
            RevealStrategy::Always => true,
            RevealStrategy::Never => false,
        },
    );
    push_option(&mut id, cwd);
    push_pairs(&mut id, variables);
    proof {
        assert(Seq::<char>::empty() + frame(template@.label) =~= frame(template@.label));
    }
    TaskId(id)
}

} // verus!
