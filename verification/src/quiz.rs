//! The quiz's decisions: which topic, which options, how a reply moves the
//! quiz on, and how exercises and hints are laid out.

use crate::random::{shuffle, thread_rng};
use crate::sampling::Exercise;
use crate::text::{chars_of, parse_usize, unsigned_value, views, word_wrap_preserving_lines, wrap_text};
use vstd::prelude::*;

verus! {

/// The width, in characters, at which a task is wrapped on screen.
pub const TASK_WIDTH: usize = 58;

/// The lines a task is shown in: wrapped at the task width, its own line
/// breaks and bullets kept.
pub fn task_lines(task: &str) -> (r: Vec<String>)
    ensures
        views(r@) == wrap_text(task@, TASK_WIDTH as nat),
{
    word_wrap_preserving_lines(task, TASK_WIDTH)
}

/// The sample size used when `--sample` is given without a count.
pub const DEFAULT_SAMPLE_SIZE: usize = 5;

/// `a` comes before `b` or equals it in the order `str` compares by: the first
/// differing character decides by code point, and a prefix comes first.
pub open spec fn lex_le(a: Seq<char>, b: Seq<char>) -> bool
    decreases a.len(),
{
    if a.len() == 0 {
        true
    } else if b.len() == 0 {
        false
    } else if a[0] != b[0] {
        (a[0] as u32) < (b[0] as u32)
    } else {
        lex_le(a.drop_first(), b.drop_first())
    }
}

/// The order is total.
pub proof fn lemma_lex_total(a: Seq<char>, b: Seq<char>)
    ensures
        lex_le(a, b) || lex_le(b, a),
    decreases a.len(),
{
    if a.len() > 0 && b.len() > 0 {
        if a[0] == b[0] {
            lemma_lex_total(a.drop_first(), b.drop_first());
        } else {
            vstd::utf8::char_u32_cast(a[0], a[0] as u32);
            vstd::utf8::char_u32_cast(b[0], b[0] as u32);
        }
    }
}

/// The order is transitive.
pub proof fn lemma_lex_transitive(a: Seq<char>, b: Seq<char>, c: Seq<char>)
    requires
        lex_le(a, b),
        lex_le(b, c),
    ensures
        lex_le(a, c),
    decreases a.len(),
{
    if a.len() > 0 && b.len() > 0 && c.len() > 0 && a[0] == b[0] && b[0] == c[0] {
        lemma_lex_transitive(a.drop_first(), b.drop_first(), c.drop_first());
    }
}

/// The order is antisymmetric: two texts each at most the other are equal.
pub proof fn lemma_lex_antisymmetric(a: Seq<char>, b: Seq<char>)
    requires
        lex_le(a, b),
        lex_le(b, a),
    ensures
        a == b,
    decreases a.len(),
{
    if a.len() > 0 && b.len() > 0 {
        if a[0] == b[0] {
            lemma_lex_antisymmetric(a.drop_first(), b.drop_first());
            assert(a =~= seq![a[0]] + a.drop_first());
            assert(b =~= seq![b[0]] + b.drop_first());
        } else {
            vstd::utf8::char_u32_cast(a[0], a[0] as u32);
            vstd::utf8::char_u32_cast(b[0], b[0] as u32);
        }
    } else {
        assert(a.len() == 0 && b.len() == 0);
        assert(a =~= b);
    }
}

/// The first difference decides: after a common prefix `p`, the text with the
/// smaller next character comes first, whatever follows, and not the other
/// way round; and a text comes before any text that extends it.
pub proof fn lemma_lex_first_difference(p: Seq<char>, c1: char, c2: char, x: Seq<char>, y: Seq<char>)
    requires
        (c1 as u32) < (c2 as u32),
    ensures
        lex_le(p + seq![c1] + x, p + seq![c2] + y),
        !lex_le(p + seq![c2] + y, p + seq![c1] + x),
        lex_le(p, p + x),
    decreases p.len(),
{
    let a = p + seq![c1] + x;
    let b = p + seq![c2] + y;
    if p.len() == 0 {
        assert(a[0] == c1);
        assert(b[0] == c2);
        assert(a[0] != b[0]);
    } else {
        lemma_lex_first_difference(p.drop_first(), c1, c2, x, y);
        assert(a.drop_first() =~= p.drop_first() + seq![c1] + x);
        assert(b.drop_first() =~= p.drop_first() + seq![c2] + y);
        assert((p + x).drop_first() =~= p.drop_first() + x);
        assert(a[0] == p[0] && b[0] == p[0] && (p + x)[0] == p[0]);
    }
}

/// Whether `a` comes before `b` or equals it.
pub fn str_le(a: &str, b: &str) -> (r: bool)
    ensures
        r == lex_le(a@, b@),
{
    let x = chars_of(a);
    let y = chars_of(b);
    let mut i: usize = 0;
    assert(a@.skip(0) =~= a@);
    assert(b@.skip(0) =~= b@);
    while i < x.len() && i < y.len() && x[i] == y[i]
        invariant
            x@ == a@,
            y@ == b@,
            i <= x@.len(),
            i <= y@.len(),
            lex_le(a@, b@) == lex_le(a@.skip(i as int), b@.skip(i as int)),
        decreases x@.len() - i,
    {
        assert(a@.skip(i as int).drop_first() =~= a@.skip(i + 1));
        assert(b@.skip(i as int).drop_first() =~= b@.skip(i + 1));
        i = i + 1;
    }
    if i == x.len() {
        true
    } else if i == y.len() {
        false
    } else {
        (x[i] as u32) < (y[i] as u32)
    }
}

/// `names` is in order: each name comes before or equals every later one.
pub open spec fn sorted_names(names: Seq<Seq<char>>) -> bool {
    forall|i: int, j: int| 0 <= i < j < names.len() ==> lex_le(names[i], names[j])
}

/// The topic names sorted, as the topic list shows them.
pub fn sort_topic_names(names: Vec<String>) -> (r: Vec<String>)
    ensures
        sorted_names(views(r@)),
        r@.to_multiset() == names@.to_multiset(),
{
    broadcast use vstd::seq_lib::group_to_multiset_ensures;

    let mut rest = names;
    let mut sorted: Vec<String> = Vec::new();
    let ghost all = rest@;
    assert(sorted@ + rest@ =~= rest@);
    while rest.len() > 0
        invariant
            sorted_names(views(sorted@)),
            (sorted@ + rest@).to_multiset() == all.to_multiset(),
        decreases rest@.len(),
    {
        let ghost rest0 = rest@;
        let ghost sorted0 = sorted@;
        let x = rest.pop().unwrap();
        assert(rest0 =~= rest@.push(x));
        let mut p: usize = 0;
        while p < sorted.len() && str_le(sorted[p].as_str(), x.as_str())
            invariant
                sorted@ == sorted0,
                p <= sorted@.len(),
                forall|k: int| 0 <= k < p ==> lex_le(sorted@[k]@, x@),
            decreases sorted@.len() - p,
        {
            p = p + 1;
        }
        proof {
            if p < sorted@.len() {
                lemma_lex_total(sorted@[p as int]@, x@);
            }
        }
        sorted.insert(p, x);
        proof {
            let v = views(sorted@);
            assert forall|i: int, j: int| 0 <= i < j < v.len() implies lex_le(v[i], v[j]) by {
                let old_v = views(sorted0);
                if j < p {
                    assert(v[i] == old_v[i] && v[j] == old_v[j]);
                } else if j == p {
                    assert(v[i] == old_v[i]);
                } else if i == p {
                    assert(v[j] == old_v[j - 1]);
                    if j - 1 > p {
                        assert(lex_le(old_v[p as int], old_v[j - 1]));
                        lemma_lex_transitive(x@, old_v[p as int], old_v[j - 1]);
                    }
                } else if i < p {
                    assert(v[i] == old_v[i] && v[j] == old_v[j - 1]);
                } else {
                    assert(v[i] == old_v[i - 1] && v[j] == old_v[j - 1]);
                }
            }
            vstd::seq_lib::lemma_multiset_commutative(sorted@, rest@);
            vstd::seq_lib::lemma_multiset_commutative(sorted0, rest0);
            vstd::seq_lib::to_multiset_insert(sorted0, p as int, x);
            vstd::seq_lib::to_multiset_build(rest@, x);
            assert((sorted@ + rest@).to_multiset() =~= (sorted0 + rest0).to_multiset());
        }
    }
    assert(sorted@ + rest@ =~= sorted@);
    sorted
}

/// The first position of `name` among the topic names, if any.
pub fn find_topic(names: &Vec<String>, name: &String) -> (r: Option<usize>)
    ensures
        match r {
            Some(i) => i < names@.len() && names@[i as int]@ == name@ && forall|j: int|
                0 <= j < i ==> names@[j]@ != name@,
            None => forall|j: int| 0 <= j < names@.len() ==> names@[j]@ != name@,
        },
{
    let mut i: usize = 0;
    while i < names.len()
        invariant
            i <= names@.len(),
            forall|j: int| 0 <= j < i ==> names@[j]@ != name@,
        decreases names@.len() - i,
    {
        if names[i] == *name {
            return Some(i);
        }
        i = i + 1;
    }
    None
}

/// What is wrong with the command line after the topic.
#[derive(Debug)]
pub enum ArgsError {
    /// The count after `--sample` is not a positive integer.
    InvalidSampleSize,
    /// The word after the topic is not `--sample`.
    UnknownOption(String),
    /// More words follow than `quiz [topic] [--sample [count]]` takes.
    TooManyArguments,
}

/// The option that asks for a random review sample.
pub open spec fn sample_flag() -> Seq<char> {
    seq!['-', '-', 's', 'a', 'm', 'p', 'l', 'e']
}

/// The sample size that the count `raw` asks for: a positive `usize`.
pub open spec fn sample_size_of(raw: Seq<char>) -> Option<nat> {
    match unsigned_value(raw) {
        Some(v) => if 0 < v <= usize::MAX {
            Some(v)
        } else {
            None
        },
        None => None,
    }
}

/// Reads the sample option from the command line `args` (program, topic,
/// option, count): no option asks for no sample; `--sample` asks for the
/// given count, or the default one; a bad count, another option, or words
/// beyond the count are errors, checked in that order.
pub fn sample_request(args: &Vec<String>) -> (r: Result<Option<usize>, ArgsError>)
    ensures
        args@.len() <= 2 ==> r is Ok && r->Ok_0 is None,
        args@.len() >= 3 && args@[2]@ != sample_flag() ==> (r matches Err(
            ArgsError::UnknownOption(o),
        ) && o@ == args@[2]@),
        args@.len() == 3 && args@[2]@ == sample_flag() ==> r is Ok && r->Ok_0 == Some(
            DEFAULT_SAMPLE_SIZE,
        ),
        args@.len() >= 4 && args@[2]@ == sample_flag() ==> match sample_size_of(args@[3]@) {
            None => r matches Err(ArgsError::InvalidSampleSize),
            Some(n) => if args@.len() > 4 {
                r matches Err(ArgsError::TooManyArguments)
            } else {
                r is Ok && r->Ok_0 == Some(n as usize)
            },
        },
{
    let flag = String::from_str("--sample");
    proof {
        reveal_strlit("--sample");
        assert(flag@ =~= sample_flag());
    }
    let size = if args.len() <= 2 {
        None
    } else if args[2] == flag {
        if args.len() <= 3 {
            Some(DEFAULT_SAMPLE_SIZE)
        } else {
            match parse_usize(args[3].as_str()) {
                Some(n) => {
                    if n == 0 {
                        return Err(ArgsError::InvalidSampleSize);
                    }
                    Some(n)
                },
                None => {
                    return Err(ArgsError::InvalidSampleSize);
                },
            }
        }
    } else {
        return Err(ArgsError::UnknownOption(args[2].clone()));
    };
    if args.len() > 4 {
        return Err(ArgsError::TooManyArguments);
    }
    Ok(size)
}

/// How the topic is chosen when none is named on the command line.
#[derive(Debug, PartialEq, Eq, Structural)]
pub enum TopicStart {
    /// There is no topic to choose from.
    NoTopics,
    /// The only topic is taken without asking.
    Only,
    /// The user picks from a numbered list.
    Ask,
}

/// How the topic is chosen among `count` topics.
pub fn topic_start(count: usize) -> (r: TopicStart)
    ensures
        r == (if count == 0 {
            TopicStart::NoTopics
        } else if count == 1 {
            TopicStart::Only
        } else {
            TopicStart::Ask
        }),
{
    if count == 0 {
        TopicStart::NoTopics
    } else if count == 1 {
        TopicStart::Only
    } else {
        TopicStart::Ask
    }
}

/// The topic (a position in the list) that the normalised reply `reply`
/// picks among `count` topics: an empty reply picks the first, a number from
/// 1 to `count` picks that one; anything else picks none and is asked again.
pub fn topic_choice(reply: &String, count: usize) -> (r: Option<usize>)
    ensures
        reply@.len() == 0 ==> r == (if count >= 1 {
            Some(0usize)
        } else {
            None
        }),
        reply@.len() > 0 ==> r == (match unsigned_value(reply@) {
            Some(n) => if 1 <= n <= count {
                Some((n - 1) as usize)
            } else {
                None
            },
            None => None,
        }),
{
    let n = if reply.as_str().is_empty() {
        Some(1usize)
    } else {
        parse_usize(reply.as_str())
    };
    match n {
        Some(n) => if 1 <= n && n <= count {
            Some(n - 1)
        } else {
            None
        },
        None => None,
    }
}

/// The normalised reply `reply` says yes.
pub fn is_yes(reply: &String) -> (r: bool)
    ensures
        r == (reply@ == seq!['y']),
{
    let y = String::from_str("y");
    proof {
        reveal_strlit("y");
        assert(y@ =~= seq!['y']);
    }
    *reply == y
}

/// The normalised reply `reply` asks to quit.
pub fn is_quit(reply: &String) -> (r: bool)
    ensures
        r == (reply@ == seq!['q']),
{
    let q = String::from_str("q");
    proof {
        reveal_strlit("q");
        assert(q@ =~= seq!['q']);
    }
    *reply == q
}

/// Where a quiz over `total` exercises stands: showing the task or the hint
/// of an exercise (by position), ended by the user at an exercise, or done.
#[derive(Debug, Clone, Copy, PartialEq, Eq, Structural)]
pub enum QuizStep {
    ShowTask(usize),
    ShowHint(usize),
    Quit(usize),
    Finished,
}

/// The step is one of a quiz over `total` exercises.
pub open spec fn step_in_range(step: QuizStep, total: nat) -> bool {
    match step {
        QuizStep::ShowTask(i) => i < total,
        QuizStep::ShowHint(i) => i < total,
        QuizStep::Quit(i) => i < total,
        QuizStep::Finished => true,
    }
}

/// The first step of a quiz over `total` exercises.
pub fn quiz_start(total: usize) -> (r: QuizStep)
    ensures
        r == (if total == 0 {
            QuizStep::Finished
        } else {
            QuizStep::ShowTask(0)
        }),
{
    if total == 0 {
        QuizStep::Finished
    } else {
        QuizStep::ShowTask(0)
    }
}

/// The step after `step` once the user has replied `reply` (normalised): `q`
/// ends the quiz at the current exercise; otherwise a task is followed by its
/// hint, and a hint by the next task, or the end after the last one.
pub fn quiz_next(step: QuizStep, reply: &String, total: usize) -> (r: QuizStep)
    requires
        step_in_range(step, total as nat),
    ensures
        step_in_range(r, total as nat),
        r == (match step {
            QuizStep::ShowTask(i) => if reply@ == seq!['q'] {
                QuizStep::Quit(i)
            } else {
                QuizStep::ShowHint(i)
            },
            QuizStep::ShowHint(i) => if reply@ == seq!['q'] {
                QuizStep::Quit(i)
            } else if i + 1 < total {
                QuizStep::ShowTask((i + 1) as usize)
            } else {
                QuizStep::Finished
            },
            other => other,
        }),
{
    match step {
        QuizStep::ShowTask(i) => if is_quit(reply) {
            QuizStep::Quit(i)
        } else {
            QuizStep::ShowHint(i)
        },
        QuizStep::ShowHint(i) => if is_quit(reply) {
            QuizStep::Quit(i)
        } else if i + 1 < total {
            QuizStep::ShowTask(i + 1)
        } else {
            QuizStep::Finished
        },
        other => other,
    }
}

/// Puts the exercises of a quiz in a random order: the same exercises, each
/// as often as before.
pub fn shuffle_exercises(exercises: &mut Vec<Exercise>)
    ensures
        final(exercises)@.to_multiset() == old(exercises)@.to_multiset(),
{
    let mut rng = thread_rng();
    shuffle(exercises, &mut rng);
}

} // verus!
