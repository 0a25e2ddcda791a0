//! Exercises, the review history, and the choice of a random review sample
//! that does not repeat an exercise until the whole topic has been reviewed.

use crate::random::{shuffle, thread_rng};
use crate::text::views;
use rand::rngs::ThreadRng;
use vstd::prelude::*;

verus! {

/// One quiz exercise: its level (such as "data-structures"), the task shown
/// first and the hint shown on request.
#[derive(Debug)]
pub struct Exercise {
    pub level: String,
    pub task: String,
    pub hint: String,
}

impl Clone for Exercise {
    /// A copy with the same level, task and hint.
    fn clone(&self) -> (r: Self)
        ensures
            r == *self,
    {
        Exercise { level: self.level.clone(), task: self.task.clone(), hint: self.hint.clone() }
    }
}

/// The review history of a topic: the tasks already shown in the current
/// cycle, in the order they were shown.
#[derive(Debug)]
pub struct SampleState {
    pub reviewed_tasks: Vec<String>,
}

impl Default for SampleState {
    /// An empty history.
    fn default() -> (r: Self)
        ensures
            r.reviewed_tasks@.len() == 0,
    {
        SampleState { reviewed_tasks: Vec::new() }
    }
}

/// Some exercise of `exercises` has the task `t`.
pub open spec fn task_listed(exercises: Seq<Exercise>, t: Seq<char>) -> bool {
    exists|i: int| 0 <= i < exercises.len() && (#[trigger] exercises[i]).task@ == t
}

/// The tasks of `reviewed` that some exercise still has, in order.
pub open spec fn still_listed(reviewed: Seq<Seq<char>>, exercises: Seq<Exercise>) -> Seq<Seq<char>>
    decreases reviewed.len(),
{
    if reviewed.len() == 0 {
        Seq::empty()
    } else {
        let kept = still_listed(reviewed.drop_last(), exercises);
        if task_listed(exercises, reviewed.last()) {
            kept.push(reviewed.last())
        } else {
            kept
        }
    }
}

/// The positions below `n`, in increasing order, of the exercises whose task
/// is not in `reviewed`.
pub open spec fn fresh_indices(exercises: Seq<Exercise>, reviewed: Seq<Seq<char>>, n: nat) -> Seq<
    usize,
>
    decreases n,
{
    if n == 0 {
        Seq::empty()
    } else {
        let before = fresh_indices(exercises, reviewed, (n - 1) as nat);
        if reviewed.contains(exercises[n - 1].task@) {
            before
        } else {
            before.push((n - 1) as usize)
        }
    }
}

/// The positions `0, 1, ..., n - 1`.
pub open spec fn all_indices(n: nat) -> Seq<usize> {
    Seq::new(n, |i: int| i as usize)
}

/// Whether the view of one of the strings of `v` is that of `t`.
fn contains_view(v: &Vec<String>, t: &String) -> (r: bool)
    ensures
        r == views(v@).contains(t@),
{
    let mut i: usize = 0;
    while i < v.len()
        invariant
            i <= v@.len(),
            forall|j: int| 0 <= j < i ==> v@[j]@ != t@,
        decreases v@.len() - i,
    {
        if v[i] == *t {
            assert(views(v@)[i as int] == t@);
            return true;
        }
        i = i + 1;
    }
    proof {
        if views(v@).contains(t@) {
            let j = choose|j: int| 0 <= j < views(v@).len() && views(v@)[j] == t@;
            assert(v@[j]@ == t@);
        }
    }
    false
}

/// Whether some exercise has the task `t`.
fn has_task(exercises: &[Exercise], t: &String) -> (r: bool)
    ensures
        r == task_listed(exercises@, t@),
{
    let mut i: usize = 0;
    while i < exercises.len()
        invariant
            i <= exercises@.len(),
            forall|j: int| 0 <= j < i ==> exercises@[j].task@ != t@,
        decreases exercises@.len() - i,
    {
        if exercises[i].task == *t {
            assert(exercises@[i as int].task@ == t@);
            return true;
        }
        i = i + 1;
    }
    false
}

/// The reviewed tasks that some exercise still has, in order.
fn keep_listed(reviewed: &Vec<String>, exercises: &[Exercise]) -> (kept: Vec<String>)
    ensures
        views(kept@) == still_listed(views(reviewed@), exercises@),
{
    let ghost r = views(reviewed@);
    let mut kept: Vec<String> = Vec::new();
    let mut i: usize = 0;
    assert(r.take(0) =~= Seq::<Seq<char>>::empty());
    while i < reviewed.len()
        invariant
            r == views(reviewed@),
            i <= reviewed@.len(),
            views(kept@) == still_listed(r.take(i as int), exercises@),
        decreases reviewed@.len() - i,
    {
        assert(r.take(i + 1).drop_last() =~= r.take(i as int));
        assert(r.take(i + 1).last() == reviewed@[i as int]@);
        if has_task(exercises, &reviewed[i]) {
            let ghost before = views(kept@);
            kept.push(reviewed[i].clone());
            assert(views(kept@) =~= before.push(reviewed@[i as int]@));
        }
        i = i + 1;
    }
    assert(r.take(reviewed@.len() as int) =~= r);
    kept
}

/// The positions of the exercises whose task is not in `reviewed`.
fn fresh_positions(exercises: &[Exercise], reviewed: &Vec<String>) -> (r: Vec<usize>)
    ensures
        r@ == fresh_indices(exercises@, views(reviewed@), exercises@.len()),
{
    let mut r: Vec<usize> = Vec::new();
    let mut i: usize = 0;
    while i < exercises.len()
        invariant
            i <= exercises@.len(),
            r@ == fresh_indices(exercises@, views(reviewed@), i as nat),
        decreases exercises@.len() - i,
    {
        if !contains_view(reviewed, &exercises[i].task) {
            r.push(i);
        }
        i = i + 1;
    }
    r
}

/// The positions `0, 1, ..., n - 1`.
fn positions(n: usize) -> (r: Vec<usize>)
    ensures
        r@ == all_indices(n as nat),
{
    let mut r: Vec<usize> = Vec::new();
    let mut i: usize = 0;
    while i < n
        invariant
            i <= n,
            r@ == all_indices(i as nat),
        decreases n - i,
    {
        r.push(i);
        i = i + 1;
        assert(r@ =~= all_indices(i as nat));
    }
    r
}

/// A sequence with the elements of `0, 1, ..., n - 1`, each as often, is a
/// permutation of them: it has `n` elements, all distinct and below `n`.
proof fn lemma_permutation_of_positions(p: Seq<usize>, n: nat)
    requires
        p.to_multiset() == all_indices(n).to_multiset(),
        n <= usize::MAX,
    ensures
        p.len() == n,
        p.no_duplicates(),
        forall|k: int| 0 <= k < p.len() ==> (p[k] as int) < n,
        forall|i: usize| (i as int) < n ==> p.contains(i),
{
    broadcast use vstd::seq_lib::group_to_multiset_ensures;

    let a = all_indices(n);
    assert(a.len() == n);
    assert(p.len() == p.to_multiset().len());
    assert(a.len() == a.to_multiset().len());
    assert forall|i: int, j: int| 0 <= i < a.len() && 0 <= j < a.len() && i != j implies a[i]
        != a[j] by {
        assert(a[i] == i as usize);
        assert(a[j] == j as usize);
    }
    assert(a.no_duplicates());
    a.lemma_multiset_has_no_duplicates();
    p.lemma_multiset_has_no_duplicates_conv();
    assert forall|k: int| 0 <= k < p.len() implies (p[k] as int) < n by {
        assert(p.contains(p[k]));
        assert(p.to_multiset().count(p[k]) > 0);
        assert(a.contains(p[k]));
    }
    assert forall|i: usize| (i as int) < n implies p.contains(i) by {
        assert(a[i as int] == i);
        assert(a.contains(i));
        assert(a.to_multiset().count(i) > 0);
    }
}

/// The elements of `s` in order of first appearance, each once.
pub open spec fn first_appearances(s: Seq<Seq<char>>) -> Seq<Seq<char>>
    decreases s.len(),
{
    if s.len() == 0 {
        Seq::empty()
    } else {
        let d = first_appearances(s.drop_last());
        if d.contains(s.last()) {
            d
        } else {
            d.push(s.last())
        }
    }
}

/// `first_appearances(s)` holds each element of `s` exactly once.
pub proof fn lemma_first_appearances(s: Seq<Seq<char>>)
    ensures
        first_appearances(s).no_duplicates(),
        forall|x: Seq<char>| first_appearances(s).contains(x) <==> s.contains(x),
    decreases s.len(),
{
    if s.len() > 0 {
        let p = s.drop_last();
        lemma_first_appearances(p);
        let d = first_appearances(p);
        assert(s =~= p.push(s.last()));
        assert forall|x: Seq<char>| first_appearances(s).contains(x) <==> s.contains(x) by {
            if s.contains(x) && x != s.last() {
                let j = choose|j: int| 0 <= j < s.len() && s[j] == x;
                assert(p[j] == x);
            }
            if p.contains(x) {
                let j = choose|j: int| 0 <= j < p.len() && p[j] == x;
                assert(s[j] == x);
            }
            if !d.contains(s.last()) {
                if d.push(s.last()).contains(x) && x != s.last() {
                    let j = choose|j: int| 0 <= j < d.push(s.last()).len() && d.push(s.last())[j] == x;
                    assert(d[j] == x);
                }
                if d.contains(x) {
                    let j = choose|j: int| 0 <= j < d.len() && d[j] == x;
                    assert(d.push(s.last())[j] == x);
                }
                assert(d.push(s.last())[d.len() as int] == s.last());
            }
            assert(s[s.len() - 1] == s.last());
        }
    }
}

/// The levels of the exercises at `order`, in that order.
pub open spec fn levels_at(exercises: Seq<Exercise>, order: Seq<usize>) -> Seq<Seq<char>> {
    order.map_values(|i: usize| exercises[i as int].level@)
}

/// The distinct levels of the exercises at `order`, in order of first appearance.
fn distinct_levels(exercises: &[Exercise], order: &Vec<usize>) -> (r: Vec<String>)
    requires
        forall|k: int| 0 <= k < order@.len() ==> order@[k] < exercises@.len(),
    ensures
        views(r@) == first_appearances(levels_at(exercises@, order@)),
{
    let ghost all = levels_at(exercises@, order@);
    let mut r: Vec<String> = Vec::new();
    let mut i: usize = 0;
    assert(all.take(0) =~= Seq::<Seq<char>>::empty());
    while i < order.len()
        invariant
            all == levels_at(exercises@, order@),
            forall|k: int| 0 <= k < order@.len() ==> order@[k] < exercises@.len(),
            i <= order@.len(),
            views(r@) == first_appearances(all.take(i as int)),
        decreases order@.len() - i,
    {
        let level = &exercises[order[i]].level;
        assert(all.take(i + 1).drop_last() =~= all.take(i as int));
        assert(all.take(i + 1).last() == level@);
        if !contains_view(&r, level) {
            let ghost before = views(r@);
            r.push(level.clone());
            assert(views(r@) =~= before.push(level@));
        }
        i = i + 1;
    }
    assert(all.take(order@.len() as int) =~= all);
    r
}

/// The levels of `exercises` in order of first appearance, each once.
pub fn levels_in_order(exercises: &[Exercise]) -> (r: Vec<String>)
    ensures
        views(r@) == first_appearances(exercises@.map_values(|e: Exercise| e.level@)),
        views(r@).no_duplicates(),
        forall|l: Seq<char>|
            views(r@).contains(l) <==> exists|i: int|
                0 <= i < exercises@.len() && (#[trigger] exercises@[i]).level@ == l,
{
    let order = positions(exercises.len());
    let r = distinct_levels(exercises, &order);
    let ghost all = exercises@.map_values(|e: Exercise| e.level@);
    assert(levels_at(exercises@, order@) =~= all);
    proof {
        lemma_first_appearances(all);
        assert(views(r@) == first_appearances(all));
        assert forall|l: Seq<char>| views(r@).contains(l) <==> exists|i: int|
            0 <= i < exercises@.len() && (#[trigger] exercises@[i]).level@ == l by {
            if views(r@).contains(l) {
                assert(all.contains(l));
                let i = choose|i: int| 0 <= i < all.len() && all[i] == l;
                assert(exercises@[i].level@ == l);
            }
            if exists|i: int| 0 <= i < exercises@.len() && (#[trigger] exercises@[i]).level@ == l {
                let i = choose|i: int| 0 <= i < exercises@.len() && (#[trigger] exercises@[i]).level@ == l;
                assert(all[i] == l);
                assert(all.contains(l));
                assert(first_appearances(all).contains(l));
            }
        }
    }
    r
}

/// The exercises of `exercises` at `level`, in order.
pub open spec fn at_level(exercises: Seq<Exercise>, level: Seq<char>) -> Seq<Exercise>
    decreases exercises.len(),
{
    if exercises.len() == 0 {
        Seq::empty()
    } else {
        let before = at_level(exercises.drop_last(), level);
        if exercises.last().level@ == level {
            before.push(exercises.last())
        } else {
            before
        }
    }
}

/// Whether an exercise is at `level`.
pub open spec fn level_is(level: Seq<char>) -> spec_fn(Exercise) -> bool {
    |e: Exercise| e.level@ == level
}

/// Copies of the exercises at `level`, in their order.
pub fn exercises_at_level(exercises: &[Exercise], level: &String) -> (r: Vec<Exercise>)
    ensures
        r@ == at_level(exercises@, level@),
        r@ == exercises@.filter(level_is(level@)),
        forall|i: int|
            0 <= i < exercises@.len() && (#[trigger] exercises@[i]).level@ == level@ ==> r@.contains(
                exercises@[i],
            ),
        forall|k: int| 0 <= k < r@.len() ==> (#[trigger] r@[k]).level@ == level@,
{
    let mut r: Vec<Exercise> = Vec::new();
    let mut i: usize = 0;
    assert(exercises@.take(0) =~= Seq::<Exercise>::empty());
    while i < exercises.len()
        invariant
            i <= exercises@.len(),
            r@ == at_level(exercises@.take(i as int), level@),
        decreases exercises@.len() - i,
    {
        assert(exercises@.take(i + 1).drop_last() =~= exercises@.take(i as int));
        assert(exercises@.take(i + 1).last() == exercises@[i as int]);
        if exercises[i].level == *level {
            r.push(exercises[i].clone());
        }
        i = i + 1;
    }
    assert(exercises@.take(exercises@.len() as int) =~= exercises@);
    proof {
        lemma_at_level_filter(exercises@, level@);
    }
    r
}

/// Keeping the exercises at a level is filtering by that level: every
/// exercise at `level` is kept, in order, and no other.
pub proof fn lemma_at_level_filter(exercises: Seq<Exercise>, level: Seq<char>)
    ensures
        at_level(exercises, level) == exercises.filter(level_is(level)),
        forall|i: int|
            0 <= i < exercises.len() && (#[trigger] exercises[i]).level@ == level ==> at_level(
                exercises,
                level,
            ).contains(exercises[i]),
        forall|k: int|
            0 <= k < at_level(exercises, level).len() ==> (#[trigger] at_level(
                exercises,
                level,
            )[k]).level@ == level,
    decreases exercises.len(),
{
    let pred = level_is(level);
    if exercises.len() == 0 {
        assert(exercises.filter(pred) =~= Seq::<Exercise>::empty()) by {
            reveal(Seq::filter);
        }
    } else {
        let init = exercises.drop_last();
        lemma_at_level_filter(init, level);
        assert(init.push(exercises.last()) =~= exercises);
        init.lemma_filter_push(exercises.last(), pred);
        let a = at_level(init, level);
        let r = at_level(exercises, level);
        assert(forall|k: int| 0 <= k < a.len() ==> r[k] == a[k]);
        assert forall|i: int|
            0 <= i < exercises.len() && (#[trigger] exercises[i]).level@ == level implies r.contains(
                exercises[i],
            ) by {
            if i < init.len() {
                assert(init[i] == exercises[i]);
                let j = choose|j: int| 0 <= j < a.len() && a[j] == init[i];
                assert(r[j] == exercises[i]);
            } else {
                assert(r[a.len() as int] == exercises[i]);
            }
        }
    }
}

/// Removing the element at `q` as `Vec::swap_remove` does takes one copy of it
/// out of the multiset of elements.
proof fn lemma_swap_remove_multiset(s: Seq<usize>, q: int)
    requires
        0 <= q < s.len(),
    ensures
        s.update(q, s.last()).drop_last().to_multiset() == s.to_multiset().remove(s[q]),
{
    broadcast use vstd::seq_lib::group_to_multiset_ensures;

    let u = s.update(q, s.last());
    let d = u.drop_last();
    assert(u =~= d.push(u.last()));
    assert(u.last() == s.last());
    vstd::seq_lib::to_multiset_build(d, s.last());
    vstd::seq_lib::to_multiset_update(s, q, s.last());
    assert(u.to_multiset() == d.to_multiset().insert(s.last()));
    assert(u.to_multiset() == s.to_multiset().insert(s.last()).remove(s[q]));
    assert forall|y: usize| d.to_multiset().count(y) == s.to_multiset().remove(s[q]).count(y) by {
        assert(u.to_multiset().count(y) == d.to_multiset().count(y) + (if y == s.last() {
            1nat
        } else {
            0nat
        }));
    }
    assert(d.to_multiset() =~= s.to_multiset().remove(s[q]));
}

/// Some exercise at a position in `pool` has level `level`.
pub open spec fn level_available(exercises: Seq<Exercise>, pool: Seq<usize>, level: Seq<char>) -> bool {
    exists|x: usize| pool.contains(x) && exercises[x as int].level@ == level
}

/// How many exercises at the front of `r` are not at level `l`: the position
/// of the first one that is, or the length of `r` if none is.
pub open spec fn first_at_level(exercises: Seq<Exercise>, r: Seq<usize>, l: Seq<char>) -> nat
    decreases r.len(),
{
    if r.len() == 0 {
        0
    } else if exercises[r[0] as int].level@ == l {
        0
    } else {
        1 + first_at_level(exercises, r.drop_first(), l)
    }
}

/// The first `j` picks by level: for each of the levels `levels[lo[0]]`,
/// `levels[lo[1]]`, ..., the first exercise of that level still unpicked
/// is moved out of the unpicked positions as `Vec::swap_remove` does (the
/// last position takes its place). The picks, and the positions left.
pub open spec fn level_picks(
    exercises: Seq<Exercise>,
    unseen: Seq<usize>,
    levels: Seq<Seq<char>>,
    lo: Seq<usize>,
    j: nat,
) -> (Seq<usize>, Seq<usize>)
    decreases j,
{
    if j == 0 {
        (Seq::empty(), unseen)
    } else {
        let (picks, rest) = level_picks(exercises, unseen, levels, lo, (j - 1) as nat);
        let q = first_at_level(exercises, rest, levels[lo[j - 1] as int]) as int;
        if q < rest.len() {
            (picks.push(rest[q]), rest.update(q, rest.last()).drop_last())
        } else {
            (picks, rest)
        }
    }
}

/// The first position whose exercise is at level `l` is `q`, when every
/// earlier one is at another level and `q` is at `l` or past the end.
proof fn lemma_first_at_level(exercises: Seq<Exercise>, r: Seq<usize>, l: Seq<char>, q: int)
    requires
        0 <= q <= r.len(),
        forall|k: int| 0 <= k < q ==> exercises[r[k] as int].level@ != l,
        q == r.len() || exercises[r[q] as int].level@ == l,
    ensures
        first_at_level(exercises, r, l) == q,
    decreases q,
{
    if q > 0 {
        assert(exercises[r[0] as int].level@ != l);
        let d = r.drop_first();
        assert forall|k: int| 0 <= k < q - 1 implies exercises[d[k] as int].level@ != l by {
            assert(d[k] == r[k + 1]);
        }
        if q < r.len() {
            assert(d[q - 1] == r[q]);
        }
        lemma_first_at_level(exercises, d, l, q - 1);
    }
}

/// For each level taken in `level_order`, up to `take` of them, moves the
/// first exercise of that level out of `unseen` and into the picks.
fn pick_by_level(
    exercises: &[Exercise],
    unseen: &mut Vec<usize>,
    levels: &Vec<String>,
    level_order: &Vec<usize>,
    take: usize,
) -> (picks: Vec<usize>)
    requires
        take <= level_order@.len(),
        level_order@.no_duplicates(),
        forall|k: int| 0 <= k < level_order@.len() ==> level_order@[k] < levels@.len(),
        views(levels@).no_duplicates(),
        forall|k: int| 0 <= k < old(unseen)@.len() ==> old(unseen)@[k] < exercises@.len(),
        forall|t: int|
            0 <= t < levels@.len() ==> level_available(
                exercises@,
                old(unseen)@,
                (#[trigger] levels@[t])@,
            ),
    ensures
        picks@.len() == take,
        forall|j: int|
            0 <= j < take ==> exercises@[(#[trigger] picks@[j]) as int].level@
                == levels@[level_order@[j] as int]@,
        (picks@ + final(unseen)@).to_multiset() == old(unseen)@.to_multiset(),
        forall|k: int| 0 <= k < final(unseen)@.len() ==> final(unseen)@[k] < exercises@.len(),
        (picks@, final(unseen)@) == level_picks(
            exercises@,
            old(unseen)@,
            views(levels@),
            level_order@,
            take as nat,
        ),
{
    broadcast use vstd::seq_lib::group_to_multiset_ensures;
    broadcast use vstd::seq_lib::lemma_multiset_commutative;

    let ghost initial = unseen@;
    let mut picks: Vec<usize> = Vec::new();
    let mut j: usize = 0;
    assert(picks@ + unseen@ =~= unseen@);
    assert forall|i: int| 0 <= i < take implies level_available(
        exercises@,
        unseen@,
        levels@[(#[trigger] level_order@[i]) as int]@,
    ) by {
        let t = level_order@[i] as int;
        assert(levels@[t] == levels@[t]);
    }
    while j < take
        invariant
            take <= level_order@.len(),
            level_order@.no_duplicates(),
            forall|k: int| 0 <= k < level_order@.len() ==> level_order@[k] < levels@.len(),
            views(levels@).no_duplicates(),
            j <= take,
            picks@.len() == j,
            forall|k: int| 0 <= k < unseen@.len() ==> unseen@[k] < exercises@.len(),
            forall|i: int|
                0 <= i < j ==> exercises@[(#[trigger] picks@[i]) as int].level@
                    == levels@[level_order@[i] as int]@,
            (picks@ + unseen@).to_multiset() == initial.to_multiset(),
            (picks@, unseen@) == level_picks(exercises@, initial, views(levels@), level_order@, j as nat),
            forall|i: int|
                j <= i < take ==> level_available(
                    exercises@,
                    unseen@,
                    levels@[(#[trigger] level_order@[i]) as int]@,
                ),
        decreases take - j,
    {
        let level = &levels[level_order[j]];
        let mut q: usize = 0;
        while q < unseen.len() && !(exercises[unseen[q]].level == *level)
            invariant
                forall|k: int| 0 <= k < unseen@.len() ==> unseen@[k] < exercises@.len(),
                q <= unseen@.len(),
                forall|k: int| 0 <= k < q ==> exercises@[unseen@[k] as int].level@ != level@,
            decreases unseen@.len() - q,
        {
            q = q + 1;
        }
        proof {
            assert(level@ == views(levels@)[level_order@[j as int] as int]);
            if q < unseen@.len() {
                lemma_first_at_level(exercises@, unseen@, level@, q as int);
            } else {
                lemma_first_at_level(exercises@, unseen@, level@, q as int);
            }
        }
        if q < unseen.len() {
            let ghost before = unseen@;
            let ghost picked_before = picks@;
            let r = unseen.swap_remove(q);
            proof {
                lemma_swap_remove_multiset(before, q as int);
            }
            picks.push(r);
            proof {
                assert(unseen@.to_multiset() == before.to_multiset().remove(r));
                assert(before.contains(r));
                assert(picks@ =~= picked_before.push(r));
                assert((picks@ + unseen@).to_multiset() =~= initial.to_multiset()) by {
                    vstd::seq_lib::to_multiset_build(picked_before, r);
                    vstd::seq_lib::lemma_multiset_commutative(picked_before, before);
                    vstd::seq_lib::lemma_multiset_commutative(picks@, unseen@);
                    assert((picked_before + before).to_multiset() == initial.to_multiset());
                    vstd::seq_lib::to_multiset_contains(before, r);
                    assert(before.to_multiset().remove(r).insert(r) =~= before.to_multiset());
                }
                assert forall|k: int| 0 <= k < unseen@.len() implies unseen@[k] < exercises@.len() by {
                    if k == q {
                        assert(unseen@[k] == before.last());
                    } else {
                        assert(unseen@[k] == before[k]);
                    }
                }
                assert forall|i: int| j + 1 <= i < take implies level_available(
                    exercises@,
                    unseen@,
                    levels@[(#[trigger] level_order@[i]) as int]@,
                ) by {
                    let x = choose|x: usize|
                        before.contains(x) && exercises@[x as int].level@ == levels@[(
                        level_order@[i]) as int]@;
                    assert(level_order@[i] != level_order@[j as int]);
                    assert(views(levels@)[level_order@[i] as int] != views(levels@)[level_order@[
                        j as int] as int]);
                    assert(x != r);
                    vstd::seq_lib::to_multiset_contains(before, x);
                    vstd::seq_lib::to_multiset_contains(unseen@, x);
                    assert(before.to_multiset().count(x) > 0);
                    assert(unseen@.to_multiset().count(x) > 0);
                    assert(unseen@.contains(x));
                }
            }
        } else {
            proof {
                let x = choose|x: usize|
                    unseen@.contains(x) && exercises@[x as int].level@ == levels@[(
                    level_order@[j as int]) as int]@;
                let k = choose|k: int| 0 <= k < unseen@.len() && unseen@[k] == x;
                assert(false);
            }
        }
        j = j + 1;
    }
    picks
}

/// The set of levels of the exercises at the positions of `pool`.
pub open spec fn pool_levels(exercises: Seq<Exercise>, pool: Seq<usize>) -> Set<Seq<char>> {
    levels_at(exercises, pool).to_set()
}

/// The distinct levels of the pool, listed once each, are as many as the set
/// of its levels has elements, and no more than the pool's exercises.
proof fn lemma_level_set(exercises: Seq<Exercise>, pool: Seq<usize>)
    ensures
        first_appearances(levels_at(exercises, pool)).len() == pool_levels(exercises, pool).len(),
        first_appearances(levels_at(exercises, pool)).len() <= pool.len(),
        forall|l: Seq<char>|
            pool_levels(exercises, pool).contains(l) <==> first_appearances(
                levels_at(exercises, pool),
            ).contains(l),
{
    let all = levels_at(exercises, pool);
    let d = first_appearances(all);
    lemma_first_appearances(all);
    assert(d.to_set() =~= all.to_set());
    d.unique_seq_to_set();
    all.lemma_cardinality_of_set();
}

/// The positions of `pool` hold `x` exactly when `pool` contains it, whatever
/// order they come in.
proof fn lemma_same_elements(a: Seq<usize>, b: Seq<usize>, x: usize)
    requires
        a.to_multiset() == b.to_multiset(),
    ensures
        a.contains(x) == b.contains(x),
{
    vstd::seq_lib::to_multiset_contains(a, x);
    vstd::seq_lib::to_multiset_contains(b, x);
}

/// Some exercise of `sample` has level `l`.
pub open spec fn sample_has_level(sample: Seq<Exercise>, l: Seq<char>) -> bool {
    exists|k: int| 0 <= k < sample.len() && (#[trigger] sample[k]).level@ == l
}

/// The exercise at one of the positions `picked` has level `l`.
pub open spec fn drawn_has_level(exercises: Seq<Exercise>, picked: Seq<usize>, l: Seq<char>) -> bool {
    exists|k: int| 0 <= k < picked.len() && exercises[(#[trigger] picked[k]) as int].level@ == l
}

/// The size of a sample of `count` from `n` exercises.
pub open spec fn sample_size(count: nat, n: nat) -> nat {
    if count <= n {
        count
    } else {
        n
    }
}

/// The positions a sample of `count` takes from the unpicked positions
/// `unseen` (in their shuffled order), given the order `lo` in which the
/// levels are visited and the order `order` in which the sample is shown.
/// When `count` exceeds one, each of the first `count` levels in `lo` (of the
/// distinct levels of `unseen`, in first-appearance order) gives its first
/// unpicked exercise; the rest of the sample comes from the front of what is
/// left; `order` then arranges the picks.
pub open spec fn chosen(
    exercises: Seq<Exercise>,
    count: nat,
    unseen: Seq<usize>,
    lo: Seq<usize>,
    order: Seq<usize>,
) -> Seq<usize> {
    let levels = first_appearances(levels_at(exercises, unseen));
    let take = if count > 1 {
        sample_size(count, levels.len())
    } else {
        0
    };
    let (picks, rest) = level_picks(exercises, unseen, levels, lo, take);
    let all = picks + rest.take(sample_size((count - take) as nat, rest.len()) as int);
    Seq::new(order.len(), |k: int| all[order[k] as int])
}

/// `p` lists `0, 1, ..., n - 1` in some order.
pub open spec fn is_order_of(p: Seq<usize>, n: nat) -> bool {
    p.to_multiset() == all_indices(n).to_multiset()
}

/// Orders that the shuffles of a sample of `count` from `pool` may give: `u`
/// holds the positions of the pool in some order, `lo` orders the distinct
/// levels of `u` (when they are visited at all) and `order` the sample.
pub open spec fn shuffle_orders(
    exercises: Seq<Exercise>,
    count: nat,
    pool: Seq<usize>,
    u: Seq<usize>,
    lo: Seq<usize>,
    order: Seq<usize>,
) -> bool {
    &&& u.to_multiset() == pool.to_multiset()
    &&& count > 1 ==> is_order_of(lo, first_appearances(levels_at(exercises, u)).len())
    &&& is_order_of(order, sample_size(count, u.len()))
}

/// The exercises at the positions `picked`, in that order.
pub open spec fn exercises_at(exercises: Seq<Exercise>, picked: Seq<usize>) -> Seq<Exercise> {
    picked.map_values(|i: usize| exercises[i as int])
}

/// `sample` is what a sample of `count` from `pool` holds under some orders
/// that the shuffles may give.
pub open spec fn drawn_by_shuffle(
    exercises: Seq<Exercise>,
    count: nat,
    pool: Seq<usize>,
    sample: Seq<Exercise>,
) -> bool {
    exists|u: Seq<usize>, lo: Seq<usize>, order: Seq<usize>|
        #![trigger chosen(exercises, count, u, lo, order)]
        shuffle_orders(exercises, count, pool, u, lo, order) && sample == exercises_at(
            exercises,
            chosen(exercises, count, u, lo, order),
        )
}

/// Every exercise of the pool can be drawn: for each position `p` of the pool,
/// some order that the shuffle may leave the pool in makes a sample of one
/// hold exactly the exercise at `p`, so the sample is no fixed function of the
/// exercises and the history.
pub proof fn lemma_each_position_drawable(exercises: Seq<Exercise>, pool: Seq<usize>, p: usize)
    requires
        pool.contains(p),
    ensures
        drawn_by_shuffle(exercises, 1, pool, seq![exercises[p as int]]),
{
    broadcast use vstd::seq_lib::group_to_multiset_ensures;

    let i = choose|i: int| 0 <= i < pool.len() && pool[i] == p;
    let r = pool.remove(i);
    let u = seq![p] + r;
    vstd::seq_lib::lemma_multiset_commutative(seq![p], r);
    vstd::seq_lib::lemma_multiset_commutative(r, seq![p]);
    assert(r + seq![p] =~= r.push(p));
    assert(u.to_multiset() =~= pool.to_multiset());
    let lo = Seq::<usize>::empty();
    let order = seq![0usize];
    assert(all_indices(1) =~= order);
    assert(sample_size(1, u.len()) == 1);
    let levels = first_appearances(levels_at(exercises, u));
    assert(level_picks(exercises, u, levels, lo, 0) == (Seq::<usize>::empty(), u));
    assert(chosen(exercises, 1, u, lo, order) =~= seq![p]);
    assert(exercises_at(exercises, seq![p]) =~= seq![exercises[p as int]]);
    assert(shuffle_orders(exercises, 1, pool, u, lo, order));
}

/// The positions of a sample of `count` taken from the unpicked positions
/// `unseen` in their given order, with the levels visited in the order
/// `level_order` and the sample shown in the order `order` (the
/// random orders that `select_sample` draws).
#[verifier::spinoff_prover]
#[verifier::rlimit(60)]
pub fn choose_from_orders(
    exercises: &[Exercise],
    count: usize,
    unseen: Vec<usize>,
    level_order: &Vec<usize>,
    order: &Vec<usize>,
) -> (picked: Vec<usize>)
    requires
        unseen@.no_duplicates(),
        forall|k: int| 0 <= k < unseen@.len() ==> unseen@[k] < exercises@.len(),
        count > 1 ==> is_order_of(
            level_order@,
            first_appearances(levels_at(exercises@, unseen@)).len(),
        ),
        is_order_of(order@, sample_size(count as nat, unseen@.len())),
    ensures
        picked@ == chosen(exercises@, count as nat, unseen@, level_order@, order@),
        picked@.len() == sample_size(count as nat, unseen@.len()),
        picked@.no_duplicates(),
        forall|k: int| 0 <= k < picked@.len() ==> unseen@.contains(#[trigger] picked@[k]),
        pool_levels(exercises@, unseen@).len() <= count ==> forall|l: Seq<char>|
            #[trigger] pool_levels(exercises@, unseen@).contains(l) ==> drawn_has_level(
                exercises@,
                picked@,
                l,
            ),
        count <= pool_levels(exercises@, unseen@).len() ==> forall|a: int, b: int|
            0 <= a < picked@.len() && 0 <= b < picked@.len() && a != b
                ==> exercises@[picked@[a] as int].level@ != exercises@[picked@[b] as int].level@,
{
    broadcast use vstd::seq_lib::lemma_multiset_commutative;

    let ghost initial = unseen@;
    let ghost all_levels = first_appearances(levels_at(exercises@, initial));
    let mut unseen = unseen;
    let mut picks: Vec<usize> = Vec::new();
    let ghost mut lv: Seq<Seq<char>> = Seq::empty();
    let ghost mut take: nat = 0;
    proof {
        lemma_level_set(exercises@, initial);
        lemma_first_appearances(levels_at(exercises@, initial));
    }
    if count > 1 {
        let levels = distinct_levels(exercises, &unseen);
        let level_count = levels.len();
        proof {
            lemma_permutation_of_positions(level_order@, level_count as nat);
            assert forall|t: int| 0 <= t < levels@.len() implies level_available(
                exercises@,
                unseen@,
                (#[trigger] levels@[t])@,
            ) by {
                let l = levels@[t]@;
                assert(views(levels@)[t] == l);
                assert(levels_at(exercises@, unseen@).contains(l));
                let q = choose|q: int|
                    0 <= q < levels_at(exercises@, unseen@).len() && levels_at(exercises@, unseen@)[q] == l;
                assert(unseen@.contains(unseen@[q]));
            }
        }
        let t = if count <= levels.len() {
            count
        } else {
            levels.len()
        };
        picks = pick_by_level(exercises, &mut unseen, &levels, level_order, t);
        proof {
            lv = views(levels@);
            take = t as nat;
        }
    } else {
        assert(picks@ + unseen@ =~= unseen@);
    }
    proof {
        vstd::seq_lib::to_multiset_len(picks@ + unseen@);
        vstd::seq_lib::to_multiset_len(initial);
        assert(picks@.len() + unseen@.len() == initial.len());
        assert(picks@.len() <= count);
    }
    let remaining = count - picks.len();
    let m = if remaining <= unseen.len() {
        remaining
    } else {
        unseen.len()
    };
    let ghost lo = level_order@;
    assert(count > 1 ==> {
        &&& lv == all_levels
        &&& lo.len() == lv.len()
        &&& lo.no_duplicates()
        &&& forall|k: int| 0 <= k < lo.len() ==> (lo[k] as int) < lv.len()
        &&& forall|i: usize| (i as int) < lv.len() ==> lo.contains(i)
        &&& take == sample_size(count as nat, lv.len())
        &&& picks@.len() == take
        &&& forall|j: int| 0 <= j < picks@.len() ==> exercises@[(#[trigger] picks@[j]) as int].level@ == lv[lo[j] as int]
    });
    assert((picks@, unseen@) == level_picks(exercises@, initial, all_levels, lo, take));
    let ghost taken = picks@;
    let ghost rest = unseen@;
    let mut k: usize = 0;
    while k < m
        invariant
            m <= rest.len(),
            rest == unseen@,
            k <= m,
            picks@ == taken + rest.take(k as int),
        decreases m - k,
    {
        picks.push(unseen[k]);
        assert(rest.take(k + 1) =~= rest.take(k as int).push(rest[k as int]));
        k = k + 1;
    }
    // every position taken is distinct and comes from `unseen`
    proof {
        assert((taken + rest).to_multiset() == initial.to_multiset());
        initial.lemma_multiset_has_no_duplicates();
        assert forall|x: usize| (taken + rest).to_multiset().contains(x) implies (taken
            + rest).to_multiset().count(x) == 1 by {
        }
        (taken + rest).lemma_multiset_has_no_duplicates_conv();
        assert(picks@ =~= (taken + rest).subrange(0, taken.len() + m));
        assert forall|k: int| 0 <= k < picks@.len() implies initial.contains(#[trigger] picks@[k]) by {
            assert((taken + rest)[k] == picks@[k]);
            lemma_same_elements(taken + rest, initial, picks@[k]);
        }
        assert(m == sample_size((count - take) as nat, rest.len()));
        assert(picks@.len() == sample_size(count as nat, initial.len()));
        lemma_permutation_of_positions(order@, picks@.len());
    }
    let mut picked: Vec<usize> = Vec::new();
    let mut k: usize = 0;
    while k < order.len()
        invariant
            order@.len() == picks@.len(),
            forall|j: int| 0 <= j < order@.len() ==> order@[j] < picks@.len(),
            k <= order@.len(),
            picked@ == Seq::new(k as nat, |j: int| picks@[order@[j] as int]),
        decreases order@.len() - k,
    {
        picked.push(picks[order[k]]);
        assert(picked@ =~= Seq::new((k + 1) as nat, |j: int| picks@[order@[j] as int]));
        k = k + 1;
    }
    proof {
        assert(picked@ =~= chosen(exercises@, count as nat, initial, lo, order@));
        assert forall|a: int, b: int| 0 <= a < picked@.len() && 0 <= b < picked@.len() && a != b implies picked@[a]
            != picked@[b] by {
            assert(order@[a] != order@[b]);
        }
        assert forall|j: int| 0 <= j < picked@.len() implies initial.contains(#[trigger] picked@[j]) by {
            assert(picks@[order@[j] as int] == picked@[j]);
        }
        let set = pool_levels(exercises@, initial);
        let l0 = all_levels;
        if set.len() <= count {
            assert forall|l: Seq<char>| #[trigger] set.contains(l) implies drawn_has_level(
                exercises@,
                picked@,
                l,
            ) by {
                if count > 1 {
                    assert(lv.contains(l));
                    let t = choose|t: int| 0 <= t < lv.len() && lv[t] == l;
                    assert(lo.contains(t as usize));
                    let j = choose|j: int| 0 <= j < lo.len() && lo[j] == t as usize;
                    assert(picks@[j] == taken[j]);
                    assert(order@.contains(j as usize));
                    let k = choose|k: int| 0 <= k < order@.len() && order@[k] == j as usize;
                    assert(picked@[k] == picks@[j]);
                } else {
                    assert(l0.contains(l));
                    assert(l0.len() == 1);
                    assert(initial.len() >= 1);
                    assert(picked@.len() == 1);
                    let x = picked@[0];
                    assert(initial.contains(x));
                    let r = choose|r: int| 0 <= r < initial.len() && initial[r] == x;
                    assert(levels_at(exercises@, initial)[r] == exercises@[x as int].level@);
                    assert(levels_at(exercises@, initial).contains(exercises@[x as int].level@));
                    assert(l0.contains(exercises@[x as int].level@));
                    assert(l0[0] == l);
                }
            }
        }
        if count <= set.len() && count > 1 {
            assert(m == 0);
            assert(picks@ =~= taken);
            assert forall|a: int, b: int|
                0 <= a < picked@.len() && 0 <= b < picked@.len() && a != b implies exercises@[picked@[a] as int].level@
                != exercises@[picked@[b] as int].level@ by {
                let ja = order@[a] as int;
                let jb = order@[b] as int;
                assert(ja != jb);
                assert(picked@[a] == taken[ja]);
                assert(picked@[b] == taken[jb]);
                assert(lo[ja] != lo[jb]);
            }
        }
    }
    picked
}

/// Orders of positions keep a sequence free of repeats.
proof fn lemma_reordered_distinct(a: Seq<usize>, b: Seq<usize>)
    requires
        a.no_duplicates(),
        a.to_multiset() == b.to_multiset(),
    ensures
        b.no_duplicates(),
{
    a.lemma_multiset_has_no_duplicates();
    b.lemma_multiset_has_no_duplicates_conv();
}

/// The positions chosen for a sample of `count` from `pool`, in the order the
/// sample shows them: the pool, the levels and the sample are each put in a
/// random order, and the choice is made from those orders.
fn draw_indices(exercises: &[Exercise], count: usize, pool: Vec<usize>, rng: &mut ThreadRng) -> (picked: Vec<usize>)
    requires
        pool@.no_duplicates(),
        forall|k: int| 0 <= k < pool@.len() ==> pool@[k] < exercises@.len(),
    ensures
        picked@.len() == if count <= pool@.len() {
            count as int
        } else {
            pool@.len() as int
        },
        picked@.no_duplicates(),
        forall|k: int| 0 <= k < picked@.len() ==> pool@.contains(#[trigger] picked@[k]),
        pool_levels(exercises@, pool@).len() <= count ==> forall|l: Seq<char>|
            #[trigger] pool_levels(exercises@, pool@).contains(l) ==> drawn_has_level(
                exercises@,
                picked@,
                l,
            ),
        count <= pool_levels(exercises@, pool@).len() ==> forall|a: int, b: int|
            0 <= a < picked@.len() && 0 <= b < picked@.len() && a != b
                ==> exercises@[picked@[a] as int].level@ != exercises@[picked@[b] as int].level@,
        exists|u: Seq<usize>, lo: Seq<usize>, order: Seq<usize>|
            #![trigger chosen(exercises@, count as nat, u, lo, order)]
            shuffle_orders(exercises@, count as nat, pool@, u, lo, order) && picked@ == chosen(
                exercises@,
                count as nat,
                u,
                lo,
                order,
            ),
{
    let ghost initial = pool@;
    let mut unseen = pool;
    shuffle(&mut unseen, rng);
    let ghost shuffled = unseen@;
    proof {
        lemma_reordered_distinct(initial, shuffled);
        assert forall|k: int| 0 <= k < unseen@.len() implies unseen@[k] < exercises@.len() by {
            lemma_same_elements(unseen@, initial, unseen@[k]);
        }
        assert(pool_levels(exercises@, shuffled) =~= pool_levels(exercises@, initial)) by {
            assert forall|l: Seq<char>| levels_at(exercises@, shuffled).contains(l) implies levels_at(
                exercises@,
                initial,
            ).contains(l) by {
                let q = choose|q: int|
                    0 <= q < shuffled.len() && levels_at(exercises@, shuffled)[q] == l;
                lemma_same_elements(shuffled, initial, shuffled[q]);
                let r = choose|r: int| 0 <= r < initial.len() && initial[r] == shuffled[q];
                assert(levels_at(exercises@, initial)[r] == l);
            }
            assert forall|l: Seq<char>| levels_at(exercises@, initial).contains(l) implies levels_at(
                exercises@,
                shuffled,
            ).contains(l) by {
                let q = choose|q: int|
                    0 <= q < initial.len() && levels_at(exercises@, initial)[q] == l;
                lemma_same_elements(shuffled, initial, initial[q]);
                let r = choose|r: int| 0 <= r < shuffled.len() && shuffled[r] == initial[q];
                assert(levels_at(exercises@, shuffled)[r] == l);
            }
        }
        vstd::seq_lib::to_multiset_len(shuffled);
        vstd::seq_lib::to_multiset_len(initial);
    }
    let mut level_order: Vec<usize> = Vec::new();
    if count > 1 {
        let levels = distinct_levels(exercises, &unseen);
        level_order = positions(levels.len());
        shuffle(&mut level_order, rng);
    }
    let size = if count <= unseen.len() {
        count
    } else {
        unseen.len()
    };
    let mut order = positions(size);
    shuffle(&mut order, rng);
    let picked = choose_from_orders(exercises, count, unseen, &level_order, &order);
    proof {
        assert(shuffle_orders(exercises@, count as nat, initial, shuffled, level_order@, order@));
        assert(picked@ == chosen(exercises@, count as nat, shuffled, level_order@, order@));
        assert forall|k: int| 0 <= k < picked@.len() implies initial.contains(#[trigger] picked@[k]) by {
            lemma_same_elements(shuffled, initial, picked@[k]);
        }
    }
    picked
}

/// The fresh positions are increasing and below `n`, hence distinct.
proof fn lemma_fresh_indices(exercises: Seq<Exercise>, reviewed: Seq<Seq<char>>, n: nat)
    requires
        n <= usize::MAX,
    ensures
        fresh_indices(exercises, reviewed, n).no_duplicates(),
        forall|k: int|
            0 <= k < fresh_indices(exercises, reviewed, n).len() ==> (#[trigger] fresh_indices(
                exercises,
                reviewed,
                n,
            )[k] as int) < n,
        forall|k: int|
            0 <= k < fresh_indices(exercises, reviewed, n).len() ==> !reviewed.contains(
                exercises[(#[trigger] fresh_indices(exercises, reviewed, n)[k]) as int].task@,
            ),
    decreases n,
{
    if n > 0 {
        lemma_fresh_indices(exercises, reviewed, (n - 1) as nat);
        let before = fresh_indices(exercises, reviewed, (n - 1) as nat);
        let after = fresh_indices(exercises, reviewed, n);
        if !reviewed.contains(exercises[n - 1].task@) {
            assert(after == before.push((n - 1) as usize));
            assert forall|i: int, j: int| 0 <= i < after.len() && 0 <= j < after.len() && i != j implies after[i]
                != after[j] by {
                if i < before.len() && j < before.len() {
                    assert(after[i] == before[i] && after[j] == before[j]);
                } else if i < before.len() {
                    assert(after[i] == before[i]);
                } else if j < before.len() {
                    assert(after[j] == before[j]);
                }
            }
            assert forall|k: int| 0 <= k < after.len() implies !reviewed.contains(
                exercises[(#[trigger] after[k]) as int].task@,
            ) by {
                if k < before.len() {
                    assert(after[k] == before[k]);
                }
            }
        }
    }
}

/// All positions are distinct.
proof fn lemma_all_indices(n: nat)
    requires
        n <= usize::MAX + 1,
    ensures
        all_indices(n).no_duplicates(),
        forall|k: int| 0 <= k < n ==> (#[trigger] all_indices(n)[k] as int) == k,
{
}

/// The pool a sample is drawn from, given the history `reviewed`: the
/// positions of the exercises whose task the history (pruned of tasks no
/// exercise has any more) does not hold; all positions once every exercise
/// has been reviewed, which starts a new cycle.
pub open spec fn review_pool(exercises: Seq<Exercise>, reviewed: Seq<Seq<char>>) -> Seq<usize> {
    let kept = still_listed(reviewed, exercises);
    let fresh = fresh_indices(exercises, kept, exercises.len());
    if fresh.len() > 0 {
        fresh
    } else {
        all_indices(exercises.len())
    }
}

/// The part of the history that the next sample extends: the pruned history,
/// or nothing when a new cycle starts.
pub open spec fn history_kept(exercises: Seq<Exercise>, reviewed: Seq<Seq<char>>) -> Seq<Seq<char>> {
    let kept = still_listed(reviewed, exercises);
    let fresh = fresh_indices(exercises, kept, exercises.len());
    if fresh.len() > 0 {
        kept
    } else {
        Seq::empty()
    }
}

/// `sample` is the exercises at the distinct positions `picked` of `pool`.
pub open spec fn drawn_from(
    exercises: Seq<Exercise>,
    pool: Seq<usize>,
    picked: Seq<usize>,
    sample: Seq<Exercise>,
) -> bool {
    &&& sample.len() == picked.len()
    &&& picked.no_duplicates()
    &&& forall|k: int| 0 <= k < picked.len() ==> pool.contains(#[trigger] picked[k])
    &&& forall|k: int| 0 <= k < sample.len() ==> #[trigger] sample[k] == exercises[picked[k] as int]
}

/// What a call of `select_sample` with `count` does, from the history `before`
/// to the history `after`, drawing `sample`:
/// - the sample holds `count` exercises of the pool, or the whole pool where
///   it is smaller, no exercise twice;
/// - the history becomes the kept history followed by the sample's tasks;
/// - every level of the pool is in the sample when there is room for all;
/// - no two exercises of the sample share a level while levels outnumber it.
pub open spec fn sample_drawn(
    exercises: Seq<Exercise>,
    count: nat,
    before: Seq<Seq<char>>,
    after: Seq<Seq<char>>,
    sample: Seq<Exercise>,
) -> bool {
    let pool = review_pool(exercises, before);
    let levels = pool_levels(exercises, pool);
    &&& sample.len() == if count <= pool.len() {
        count
    } else {
        pool.len()
    }
    &&& exists|picked: Seq<usize>| drawn_from(exercises, pool, picked, sample)
    &&& after == history_kept(exercises, before) + sample.map_values(|e: Exercise| e.task@)
    &&& levels.len() <= count ==> forall|l: Seq<char>| #[trigger]
        levels.contains(l) ==> sample_has_level(sample, l)
    &&& count <= levels.len() ==> forall|a: int, b: int|
        0 <= a < sample.len() && 0 <= b < sample.len() && a != b ==> sample[a].level@
            != sample[b].level@
}

/// Draws a random review sample of `count` exercises that have not been
/// reviewed in the current cycle and records their tasks in `state`. Once every
/// exercise has been reviewed a new cycle starts; when fewer unreviewed
/// exercises remain than asked for, the sample is that smaller remainder.
/// When there is room, the sample covers each level of the pool.
pub fn select_sample(exercises: &[Exercise], count: usize, state: &mut SampleState) -> (sample: Vec<
    Exercise,
>)
    ensures
        sample_drawn(
            exercises@,
            count as nat,
            views(old(state).reviewed_tasks@),
            views(final(state).reviewed_tasks@),
            sample@,
        ),
        drawn_by_shuffle(
            exercises@,
            count as nat,
            review_pool(exercises@, views(old(state).reviewed_tasks@)),
            sample@,
        ),
{
    let ghost before = views(state.reviewed_tasks@);
    let n = exercises.len();
    let kept = keep_listed(&state.reviewed_tasks, exercises);
    let fresh = fresh_positions(exercises, &kept);
    proof {
        lemma_fresh_indices(exercises@, views(kept@), exercises@.len());
        lemma_all_indices(exercises@.len());
    }
    let (mut history, pool) = if fresh.len() > 0 {
        (kept, fresh)
    } else {
        (Vec::new(), positions(exercises.len()))
    };
    let ghost pool_view = pool@;
    let ghost base = views(history@);
    assert(pool_view == review_pool(exercises@, before));
    assert(base =~= history_kept(exercises@, before));
    let mut rng = thread_rng();
    let picked = draw_indices(exercises, count, pool, &mut rng);
    proof {
        assert forall|k: int| 0 <= k < picked@.len() implies picked@[k] < exercises@.len() by {
            assert(pool_view.contains(picked@[k]));
        }
    }
    let mut sample: Vec<Exercise> = Vec::new();
    let mut k: usize = 0;
    while k < picked.len()
        invariant
            forall|j: int| 0 <= j < picked@.len() ==> picked@[j] < exercises@.len(),
            k <= picked@.len(),
            sample@ == Seq::new(k as nat, |j: int| exercises@[picked@[j] as int]),
            views(history@) == base + sample@.map_values(|e: Exercise| e.task@),
        decreases picked@.len() - k,
    {
        let e = exercises[picked[k]].clone();
        let t = e.task.clone();
        let ghost h = views(history@);
        let ghost s0 = sample@;
        history.push(t);
        sample.push(e);
        proof {
            assert(sample@ =~= Seq::new((k + 1) as nat, |j: int| exercises@[picked@[j] as int]));
            assert(sample@.map_values(|e: Exercise| e.task@) =~= s0.map_values(|e: Exercise| e.task@).push(e.task@));
            assert(views(history@) =~= h.push(t@));
        }
        k = k + 1;
    }
    state.reviewed_tasks = history;
    proof {
        assert(drawn_from(exercises@, pool_view, picked@, sample@));
        let (u, lo, order) = choose|u: Seq<usize>, lo: Seq<usize>, order: Seq<usize>|
            #![trigger chosen(exercises@, count as nat, u, lo, order)]
            shuffle_orders(exercises@, count as nat, pool_view, u, lo, order) && picked@ == chosen(
                exercises@,
                count as nat,
                u,
                lo,
                order,
            );
        assert(sample@ =~= exercises_at(exercises@, chosen(exercises@, count as nat, u, lo, order)));
        let levels = pool_levels(exercises@, pool_view);
        if levels.len() <= count {
            assert forall|l: Seq<char>| #[trigger] levels.contains(l) implies sample_has_level(sample@, l) by {
                let j = choose|j: int| 0 <= j < picked@.len() && exercises@[(#[trigger] picked@[j]) as int].level@ == l;
                assert(sample@[j].level@ == l);
            }
        }
    }
    sample
}

/// The pruned history holds a task exactly when the history holds it and some
/// exercise still has it.
proof fn lemma_still_listed(reviewed: Seq<Seq<char>>, exercises: Seq<Exercise>, t: Seq<char>)
    ensures
        still_listed(reviewed, exercises).contains(t) <==> (reviewed.contains(t) && task_listed(
            exercises,
            t,
        )),
    decreases reviewed.len(),
{
    if reviewed.len() > 0 {
        let p = reviewed.drop_last();
        lemma_still_listed(p, exercises, t);
        let kept = still_listed(p, exercises);
        assert(reviewed =~= p.push(reviewed.last()));
        if reviewed.contains(t) && t != reviewed.last() {
            let j = choose|j: int| 0 <= j < reviewed.len() && reviewed[j] == t;
            assert(p[j] == t);
        }
        if p.contains(t) {
            let j = choose|j: int| 0 <= j < p.len() && p[j] == t;
            assert(reviewed[j] == t);
        }
        if task_listed(exercises, reviewed.last()) {
            if kept.push(reviewed.last()).contains(t) && t != reviewed.last() {
                let j = choose|j: int|
                    0 <= j < kept.push(reviewed.last()).len() && kept.push(reviewed.last())[j] == t;
                assert(kept[j] == t);
            }
            if kept.contains(t) {
                let j = choose|j: int| 0 <= j < kept.len() && kept[j] == t;
                assert(kept.push(reviewed.last())[j] == t);
            }
            assert(kept.push(reviewed.last())[kept.len() as int] == reviewed.last());
        }
        assert(reviewed[reviewed.len() - 1] == reviewed.last());
    }
}

/// The draw from the history `reviewed` continues the current cycle: some
/// exercise's task is not in the (pruned) history.
pub open spec fn continues_cycle(exercises: Seq<Exercise>, reviewed: Seq<Seq<char>>) -> bool {
    fresh_indices(exercises, still_listed(reviewed, exercises), exercises.len()).len() > 0
}

/// Samples do not repeat until the cycle is complete: when a draw follows
/// another on the same exercises and continues its cycle, no task of the
/// second sample is a task of the first.
pub proof fn lemma_no_repeat_within_cycle(
    exercises: Seq<Exercise>,
    first_count: nat,
    second_count: nat,
    history0: Seq<Seq<char>>,
    history1: Seq<Seq<char>>,
    history2: Seq<Seq<char>>,
    first: Seq<Exercise>,
    second: Seq<Exercise>,
)
    requires
        exercises.len() <= usize::MAX,
        sample_drawn(exercises, first_count, history0, history1, first),
        sample_drawn(exercises, second_count, history1, history2, second),
        continues_cycle(exercises, history1),
    ensures
        forall|a: int, b: int|
            0 <= a < first.len() && 0 <= b < second.len() ==> first[a].task@ != second[b].task@,
{
    let pool1 = review_pool(exercises, history0);
    let pool2 = review_pool(exercises, history1);
    let kept2 = still_listed(history1, exercises);
    lemma_fresh_indices(exercises, kept2, exercises.len());
    lemma_fresh_indices(exercises, still_listed(history0, exercises), exercises.len());
    let p1 = choose|p: Seq<usize>| drawn_from(exercises, pool1, p, first);
    let p2 = choose|p: Seq<usize>| drawn_from(exercises, pool2, p, second);
    assert forall|a: int, b: int| 0 <= a < first.len() && 0 <= b < second.len() implies first[a].task@
        != second[b].task@ by {
        let t = first[a].task@;
        let tasks1 = first.map_values(|e: Exercise| e.task@);
        assert(tasks1[a] == t);
        assert(history1[history_kept(exercises, history0).len() + a] == t);
        assert(history1.contains(t));
        assert(pool1.contains(p1[a]));
        let r = choose|r: int| 0 <= r < pool1.len() && pool1[r] == p1[a];
        assert((p1[a] as int) < exercises.len());
        assert(exercises[p1[a] as int].task@ == t);
        assert(task_listed(exercises, t));
        lemma_still_listed(history1, exercises, t);
        assert(pool2.contains(p2[b]));
        let q = choose|q: int| 0 <= q < pool2.len() && pool2[q] == p2[b];
        assert(!kept2.contains(exercises[pool2[q] as int].task@));
    }
}

/// A draw that takes the whole rest of a cycle completes it: when a draw
/// continues the cycle and asks for at least as many exercises as remain, the
/// draw after it starts a new cycle, from an empty history, over all
/// exercises.
pub proof fn lemma_remainder_completes_cycle(
    exercises: Seq<Exercise>,
    count: nat,
    history0: Seq<Seq<char>>,
    history1: Seq<Seq<char>>,
    sample: Seq<Exercise>,
)
    requires
        exercises.len() <= usize::MAX,
        sample_drawn(exercises, count, history0, history1, sample),
        continues_cycle(exercises, history0),
        review_pool(exercises, history0).len() <= count,
    ensures
        !continues_cycle(exercises, history1),
        review_pool(exercises, history1) == all_indices(exercises.len()),
        history_kept(exercises, history1) == Seq::<Seq<char>>::empty(),
{
    let kept0 = still_listed(history0, exercises);
    let kept1 = still_listed(history1, exercises);
    let pool = review_pool(exercises, history0);
    lemma_fresh_indices(exercises, kept0, exercises.len());
    lemma_fresh_indices(exercises, kept1, exercises.len());
    let p = choose|p: Seq<usize>| drawn_from(exercises, pool, p, sample);
    // the sample takes every position of the pool
    assert(p.to_set().subset_of(pool.to_set()));
    p.unique_seq_to_set();
    pool.unique_seq_to_set();
    vstd::set_lib::lemma_subset_equality(p.to_set(), pool.to_set());
    let fresh1 = fresh_indices(exercises, kept1, exercises.len());
    if fresh1.len() > 0 {
        let i = fresh1[0];
        assert(!kept1.contains(exercises[i as int].task@));
        let t = exercises[i as int].task@;
        assert(task_listed(exercises, t));
        lemma_still_listed(history1, exercises, t);
        assert(!history1.contains(t));
        if kept0.contains(t) {
            let j = choose|j: int| 0 <= j < kept0.len() && kept0[j] == t;
            assert(history1[j] == t);
        } else {
            // position i was fresh, so it is in the pool and in the sample
            assert(fresh_indices(exercises, kept0, exercises.len()).len() > 0);
            assert(i < exercises.len());
            assert(pool.contains(i)) by {
                lemma_fresh_positions_complete(exercises, kept0, exercises.len(), i);
            }
            assert(pool.to_set().contains(i));
            assert(p.to_set().contains(i));
            let a = choose|a: int| 0 <= a < p.len() && p[a] == i;
            assert(sample[a].task@ == t);
            let tasks = sample.map_values(|e: Exercise| e.task@);
            assert(tasks[a] == t);
            assert(history1[kept0.len() + a] == t);
        }
    }
}

/// Every position below `n` whose task is not in `reviewed` is fresh.
proof fn lemma_fresh_positions_complete(exercises: Seq<Exercise>, reviewed: Seq<Seq<char>>, n: nat, i: usize)
    requires
        (i as int) < n,
        n <= usize::MAX,
        !reviewed.contains(exercises[i as int].task@),
    ensures
        fresh_indices(exercises, reviewed, n).contains(i),
    decreases n,
{
    let before = fresh_indices(exercises, reviewed, (n - 1) as nat);
    if (i as int) < n - 1 {
        lemma_fresh_positions_complete(exercises, reviewed, (n - 1) as nat, i);
        let j = choose|j: int| 0 <= j < before.len() && before[j] == i;
        assert(fresh_indices(exercises, reviewed, n)[j] == i);
    } else {
        assert(fresh_indices(exercises, reviewed, n) == before.push(i));
        assert(fresh_indices(exercises, reviewed, n)[before.len() as int] == i);
    }
}

/// The tasks of `exercises`, in order.
pub open spec fn tasks_of(exercises: Seq<Exercise>) -> Seq<Seq<char>> {
    exercises.map_values(|e: Exercise| e.task@)
}

/// `samples` came from consecutive draws: draw `i` asked for `counts[i]`
/// exercises, went from history `histories[i]` to `histories[i + 1]` and drew
/// `samples[i]`, as `select_sample` states of each call (`sample_drawn`), so
/// repeated calls of `select_sample` on one `SampleState` form such a chain.
pub open spec fn draw_chain(
    exercises: Seq<Exercise>,
    counts: Seq<nat>,
    histories: Seq<Seq<Seq<char>>>,
    samples: Seq<Seq<Exercise>>,
) -> bool {
    &&& histories.len() == samples.len() + 1
    &&& counts.len() == samples.len()
    &&& forall|i: int|
        #![trigger samples[i]]
        0 <= i < samples.len() ==> sample_drawn(
            exercises,
            counts[i],
            histories[i],
            histories[i + 1],
            samples[i],
        )
}

/// An exercise of a drawn sample is an exercise of its pool.
proof fn lemma_sample_from_pool(
    exercises: Seq<Exercise>,
    count: nat,
    before: Seq<Seq<char>>,
    after: Seq<Seq<char>>,
    sample: Seq<Exercise>,
    a: int,
) -> (p: usize)
    requires
        sample_drawn(exercises, count, before, after, sample),
        0 <= a < sample.len(),
    ensures
        review_pool(exercises, before).contains(p),
        sample[a] == exercises[p as int],
{
    let pool = review_pool(exercises, before);
    let picked = choose|picked: Seq<usize>| drawn_from(exercises, pool, picked, sample);
    picked[a]
}

/// In a chain of draws whose later draws all continue the first one's cycle,
/// the history before a draw holds every task drawn so far.
proof fn lemma_chain_history(
    exercises: Seq<Exercise>,
    counts: Seq<nat>,
    histories: Seq<Seq<Seq<char>>>,
    samples: Seq<Seq<Exercise>>,
    j: int,
)
    requires
        exercises.len() <= usize::MAX,
        draw_chain(exercises, counts, histories, samples),
        forall|i: int| 1 <= i < samples.len() ==> continues_cycle(exercises, #[trigger] histories[i]),
        1 <= j <= samples.len(),
    ensures
        forall|i: int, a: int|
            0 <= i < j && 0 <= a < samples[i].len() ==> histories[j].contains(
                (#[trigger] samples[i][a]).task@,
            ),
    decreases j,
{
    let prev = j - 1;
    assert(sample_drawn(exercises, counts[prev], histories[prev], histories[j], samples[prev]));
    let base = history_kept(exercises, histories[prev]);
    let drawn = samples[prev].map_values(|e: Exercise| e.task@);
    assert forall|i: int, a: int| 0 <= i < j && 0 <= a < samples[i].len() implies histories[j].contains(
        (#[trigger] samples[i][a]).task@,
    ) by {
        if i == prev {
            assert(drawn[a] == samples[i][a].task@);
            assert(histories[j][base.len() + a] == samples[i][a].task@);
        } else {
            lemma_chain_history(exercises, counts, histories, samples, prev);
            let t = samples[i][a].task@;
            assert(histories[prev].contains(t));
            assert(sample_drawn(exercises, counts[i], histories[i], histories[i + 1], samples[i]));
            let p = lemma_sample_from_pool(exercises, counts[i], histories[i], histories[i + 1], samples[i], a);
            lemma_fresh_indices(exercises, still_listed(histories[i], exercises), exercises.len());
            let r = choose|r: int| 0 <= r < review_pool(exercises, histories[i]).len() && review_pool(exercises, histories[i])[r] == p;
            assert((p as int) < exercises.len());
            assert(exercises[p as int].task@ == t);
            assert(task_listed(exercises, t));
            lemma_still_listed(histories[prev], exercises, t);
            assert(continues_cycle(exercises, histories[prev]));
            assert(base == still_listed(histories[prev], exercises));
            let k = choose|k: int| 0 <= k < base.len() && base[k] == t;
            assert(histories[j][k] == t);
        }
    }
}

/// No task repeats within a cycle: in a chain of draws on the same exercises
/// whose later draws all continue the first one's cycle, no task of one draw
/// is a task of another.
pub proof fn lemma_no_repeat_in_cycle(
    exercises: Seq<Exercise>,
    counts: Seq<nat>,
    histories: Seq<Seq<Seq<char>>>,
    samples: Seq<Seq<Exercise>>,
)
    requires
        exercises.len() <= usize::MAX,
        draw_chain(exercises, counts, histories, samples),
        forall|i: int| 1 <= i < samples.len() ==> continues_cycle(exercises, #[trigger] histories[i]),
    ensures
        forall|i: int, j: int, a: int, b: int|
            0 <= i < j < samples.len() && 0 <= a < samples[i].len() && 0 <= b < samples[j].len()
                ==> (#[trigger] samples[i][a]).task@ != (#[trigger] samples[j][b]).task@,
{
    assert forall|i: int, j: int, a: int, b: int|
        0 <= i < j < samples.len() && 0 <= a < samples[i].len() && 0 <= b < samples[j].len() implies (
        #[trigger] samples[i][a]).task@ != (#[trigger] samples[j][b]).task@ by {
        lemma_chain_history(exercises, counts, histories, samples, j);
        let t = samples[i][a].task@;
        assert(histories[j].contains(t));
        assert(sample_drawn(exercises, counts[i], histories[i], histories[i + 1], samples[i]));
        let p = lemma_sample_from_pool(exercises, counts[i], histories[i], histories[i + 1], samples[i], a);
        lemma_fresh_indices(exercises, still_listed(histories[i], exercises), exercises.len());
        assert((p as int) < exercises.len());
        assert(task_listed(exercises, t));
        lemma_still_listed(histories[j], exercises, t);
        assert(sample_drawn(exercises, counts[j], histories[j], histories[j + 1], samples[j]));
        let q = lemma_sample_from_pool(exercises, counts[j], histories[j], histories[j + 1], samples[j], b);
        let kept = still_listed(histories[j], exercises);
        lemma_fresh_indices(exercises, kept, exercises.len());
        assert(continues_cycle(exercises, histories[j]));
        let pool = review_pool(exercises, histories[j]);
        let r = choose|r: int| 0 <= r < pool.len() && pool[r] == q;
        assert(!kept.contains(exercises[q as int].task@));
    }
}

/// With an empty history every position below `m` is fresh.
proof fn lemma_fresh_all(exercises: Seq<Exercise>, m: nat)
    ensures
        fresh_indices(exercises, Seq::empty(), m).len() == m,
    decreases m,
{
    if m > 0 {
        lemma_fresh_all(exercises, (m - 1) as nat);
    }
}

/// Adding the task `x` of position `p` (and of no other position) to the
/// history takes `p` out of the fresh positions, if it is below `m`.
proof fn lemma_fresh_push(exercises: Seq<Exercise>, h: Seq<Seq<char>>, x: Seq<char>, p: int, m: nat)
    requires
        tasks_of(exercises).no_duplicates(),
        0 <= p < exercises.len(),
        exercises[p].task@ == x,
        !h.contains(x),
        m <= exercises.len(),
    ensures
        fresh_indices(exercises, h.push(x), m).len() + (if p < m {
            1int
        } else {
            0int
        }) == fresh_indices(exercises, h, m).len(),
    decreases m,
{
    if m > 0 {
        lemma_fresh_push(exercises, h, x, p, (m - 1) as nat);
        let q = m - 1;
        let t = exercises[q].task@;
        assert(tasks_of(exercises)[q] == t);
        assert(tasks_of(exercises)[p] == x);
        assert(h.push(x).contains(t) <==> (h.contains(t) || t == x)) by {
            if h.push(x).contains(t) && t != x {
                let k = choose|k: int| 0 <= k < h.push(x).len() && h.push(x)[k] == t;
                assert(h[k] == t);
            }
            if h.contains(t) {
                let k = choose|k: int| 0 <= k < h.len() && h[k] == t;
                assert(h.push(x)[k] == t);
            }
            assert(h.push(x)[h.len() as int] == x);
        }
    }
}

/// With distinct tasks, a history of distinct tasks of the exercises leaves
/// as many fresh positions as there are exercises it does not name.
proof fn lemma_fresh_count(exercises: Seq<Exercise>, h: Seq<Seq<char>>)
    requires
        tasks_of(exercises).no_duplicates(),
        h.no_duplicates(),
        forall|t: Seq<char>| h.contains(t) ==> task_listed(exercises, t),
    ensures
        fresh_indices(exercises, h, exercises.len()).len() + h.len() == exercises.len(),
    decreases h.len(),
{
    if h.len() == 0 {
        assert(h =~= Seq::<Seq<char>>::empty());
        lemma_fresh_all(exercises, exercises.len());
    } else {
        let h0 = h.drop_last();
        let x = h.last();
        assert(h =~= h0.push(x));
        assert forall|t: Seq<char>| h0.contains(t) implies task_listed(exercises, t) by {
            let k = choose|k: int| 0 <= k < h0.len() && h0[k] == t;
            assert(h[k] == t);
        }
        lemma_fresh_count(exercises, h0);
        assert(h[h.len() - 1] == x);
        assert(task_listed(exercises, x));
        let p = choose|p: int| 0 <= p < exercises.len() && (#[trigger] exercises[p]).task@ == x;
        assert(!h0.contains(x)) by {
            if h0.contains(x) {
                let k = choose|k: int| 0 <= k < h0.len() && h0[k] == x;
                assert(h[k] == h[h.len() - 1]);
            }
        }
        lemma_fresh_push(exercises, h0, x, p, exercises.len());
    }
}

/// A history whose tasks all still exist is kept whole.
proof fn lemma_still_listed_all(h: Seq<Seq<char>>, exercises: Seq<Exercise>)
    requires
        forall|t: Seq<char>| h.contains(t) ==> task_listed(exercises, t),
    ensures
        still_listed(h, exercises) == h,
    decreases h.len(),
{
    if h.len() > 0 {
        let h0 = h.drop_last();
        assert forall|t: Seq<char>| h0.contains(t) implies task_listed(exercises, t) by {
            let k = choose|k: int| 0 <= k < h0.len() && h0[k] == t;
            assert(h[k] == t);
        }
        lemma_still_listed_all(h0, exercises);
        assert(h[h.len() - 1] == h.last());
        assert(h0.push(h.last()) =~= h);
    }
}

/// The tasks of the first `i` samples, in the order they were drawn.
pub open spec fn drawn_tasks(samples: Seq<Seq<Exercise>>, i: nat) -> Seq<Seq<char>>
    decreases i,
{
    if i == 0 {
        Seq::empty()
    } else {
        drawn_tasks(samples, (i - 1) as nat) + tasks_of(samples[i - 1])
    }
}

/// A task drawn in the first `i` samples is a task of one of them.
proof fn lemma_drawn_tasks_contains(samples: Seq<Seq<Exercise>>, i: nat, t: Seq<char>)
    requires
        i <= samples.len(),
        drawn_tasks(samples, i).contains(t),
    ensures
        exists|d: int, a: int| 0 <= d < i && 0 <= a < samples[d].len() && (#[trigger] samples[d][a]).task@ == t,
    decreases i,
{
    let before = drawn_tasks(samples, (i - 1) as nat);
    let last = tasks_of(samples[i - 1]);
    let k = choose|k: int| 0 <= k < drawn_tasks(samples, i).len() && drawn_tasks(samples, i)[k] == t;
    if k < before.len() {
        assert(before[k] == t);
        lemma_drawn_tasks_contains(samples, (i - 1) as nat, t);
    } else {
        let a = k - before.len();
        assert(last[a] == t);
        assert(samples[i - 1][a].task@ == t);
    }
}

/// The number of draws in a cycle of `n` exercises taken `count` at a time,
/// rounded up: the last one holds the remainder.
pub open spec fn cycle_draws(n: nat, count: nat) -> nat {
    ((n + count - 1) as int / count as int) as nat
}

/// `k` draws of `count` cover `n` exercises, and `k - 1` do not.
proof fn lemma_cycle_draws(n: nat, count: nat)
    requires
        n >= 1,
        count >= 1,
    ensures
        cycle_draws(n, count) >= 1,
        (cycle_draws(n, count) - 1) * count < n,
        n <= cycle_draws(n, count) * count,
{
    let k = cycle_draws(n, count) as int;
    let c = count as int;
    let x = (n + count - 1) as int;
    vstd::arithmetic::div_mod::lemma_fundamental_div_mod(x as int, count as int);
    vstd::arithmetic::div_mod::lemma_mod_bound(x as int, count as int);
    assert(k == x / c);
    assert(x == c * k + x % c);
    assert(k >= 1) by (nonlinear_arith)
        requires
            x == c * k + x % c,
            0 <= x % c < c,
            x >= c,
    ;
    assert((k - 1) * c == k * c - c) by (nonlinear_arith);
    assert(k * c == c * k) by (nonlinear_arith);
}

/// What holds before draw `j` of a full cycle from an empty history.
#[verifier::spinoff_prover]
#[verifier::rlimit(50)]
proof fn lemma_cycle_prefix(
    exercises: Seq<Exercise>,
    count: nat,
    counts: Seq<nat>,
    histories: Seq<Seq<Seq<char>>>,
    samples: Seq<Seq<Exercise>>,
    j: nat,
)
    requires
        tasks_of(exercises).no_duplicates(),
        1 <= exercises.len() <= usize::MAX,
        count >= 1,
        samples.len() == cycle_draws(exercises.len(), count),
        draw_chain(exercises, counts, histories, samples),
        forall|i: int| 0 <= i < counts.len() ==> #[trigger] counts[i] == count,
        histories[0] == Seq::<Seq<char>>::empty(),
        j <= samples.len(),
    ensures
        histories[j as int] == drawn_tasks(samples, j),
        histories[j as int].no_duplicates(),
        forall|t: Seq<char>| histories[j as int].contains(t) ==> task_listed(exercises, t),
        histories[j as int].len() == if j < samples.len() {
            j * count
        } else {
            exercises.len()
        },
        forall|i: int| 0 <= i < j ==> continues_cycle(exercises, #[trigger] histories[i]),
        forall|i: int|
            0 <= i < j ==> (#[trigger] samples[i]).len() == if i < samples.len() - 1 {
                count as int
            } else {
                exercises.len() - (samples.len() - 1) * count
            },
        forall|i: int, a: int, b: int|
            0 <= i < j && 0 <= a < samples[i].len() && 0 <= b < samples[i].len() && a != b
                ==> (#[trigger] samples[i][a]).task@ != (#[trigger] samples[i][b]).task@,
    decreases j,
{
    let n = exercises.len();
    let k = samples.len();
    lemma_cycle_draws(n, count);
    if j == 0 {
        assert(0 * count == 0) by (nonlinear_arith);
    }
    if j > 0 {
        let i = (j - 1) as int;
        lemma_cycle_prefix(exercises, count, counts, histories, samples, (j - 1) as nat);
        let h = histories[i];
        assert(h.len() == i * count);
        assert(i * count <= (k - 1) * count) by (nonlinear_arith)
            requires
                0 <= i <= k - 1,
                count >= 1,
        ;
        lemma_still_listed_all(h, exercises);
        lemma_fresh_count(exercises, h);
        lemma_fresh_indices(exercises, h, n);
        let fresh = fresh_indices(exercises, h, n);
        assert(fresh.len() == n - i * count);
        assert(continues_cycle(exercises, h));
        assert(counts[i] == count);
        let sample = samples[i];
        assert(sample_drawn(exercises, count, h, histories[j as int], sample));
        let pool = review_pool(exercises, h);
        assert(pool == fresh);
        assert(history_kept(exercises, h) == h);
        // the sample's size
        if i < k - 1 {
            assert((i + 1) * count <= (k - 1) * count) by (nonlinear_arith)
                requires
                    0 <= i + 1 <= k - 1,
                    count >= 1,
            ;
            assert((i + 1) * count == i * count + count) by (nonlinear_arith);
            assert(sample.len() == count);
        } else {
            assert(i == k - 1);
            assert(k * count == (k - 1) * count + count) by (nonlinear_arith);
            assert(sample.len() == n - (k - 1) * count);
        }
        // the sample's tasks are distinct, fresh and listed
        let picked = choose|picked: Seq<usize>| drawn_from(exercises, pool, picked, sample);
        let drawn = tasks_of(sample);
        assert forall|a: int| 0 <= a < drawn.len() implies (#[trigger] drawn[a]) == tasks_of(exercises)[picked[a] as int]
            && (picked[a] as int) < n && !h.contains(drawn[a]) by {
            assert(pool.contains(picked[a]));
            let r = choose|r: int| 0 <= r < pool.len() && pool[r] == picked[a];
        }
        assert forall|a: int, b: int| 0 <= a < sample.len() && 0 <= b < sample.len() && a != b implies (
            #[trigger] sample[a]).task@ != (#[trigger] sample[b]).task@ by {
            assert(drawn[a] == tasks_of(exercises)[picked[a] as int]);
            assert(drawn[b] == tasks_of(exercises)[picked[b] as int]);
            assert(picked[a] != picked[b]);
        }
        assert(drawn.no_duplicates()) by {
            assert forall|a: int, b: int| 0 <= a < drawn.len() && 0 <= b < drawn.len() && a != b implies drawn[a]
                != drawn[b] by {
                assert(drawn[a] == sample[a].task@);
                assert(drawn[b] == sample[b].task@);
            }
        }
        assert forall|x: int, y: int| 0 <= x < h.len() && 0 <= y < drawn.len() implies h[x] != drawn[y] by {
            assert(h.contains(h[x]));
        }
        vstd::seq_lib::lemma_no_dup_in_concat(h, drawn);
        let next = histories[j as int];
        assert(next == h + drawn);
        assert(next.len() == h.len() + sample.len());
        if i < k - 1 {
            assert(j * count == i * count + count) by (nonlinear_arith)
                requires
                    j == i + 1,
            ;
            assert(next.len() == j * count);
        } else {
            assert(next.len() == n);
        }
        assert forall|t: Seq<char>| next.contains(t) implies task_listed(exercises, t) by {
            let q = choose|q: int| 0 <= q < next.len() && next[q] == t;
            if q < h.len() {
                assert(h[q] == t);
            } else {
                let a = q - h.len();
                assert(drawn[a] == t);
                let p = picked[a] as int;
                assert(tasks_of(exercises)[p] == exercises[p].task@);
            }
        }
    }
}

/// A full cycle from an empty history: on exercises with distinct tasks, the
/// draws of `count` each, as many as it takes to cover them all (the last one
/// holding the remainder), draw every task exactly once. Each draw but the
/// last holds `count` exercises; no task repeats within a draw or across
/// draws; every task is drawn; and the history at the end holds each task
/// exactly once.
pub proof fn lemma_full_cycle(
    exercises: Seq<Exercise>,
    count: nat,
    counts: Seq<nat>,
    histories: Seq<Seq<Seq<char>>>,
    samples: Seq<Seq<Exercise>>,
)
    requires
        tasks_of(exercises).no_duplicates(),
        1 <= exercises.len() <= usize::MAX,
        count >= 1,
        samples.len() == cycle_draws(exercises.len(), count),
        draw_chain(exercises, counts, histories, samples),
        forall|i: int| 0 <= i < counts.len() ==> #[trigger] counts[i] == count,
        histories[0] == Seq::<Seq<char>>::empty(),
    ensures
        forall|i: int|
            0 <= i < samples.len() ==> (#[trigger] samples[i]).len() == if i < samples.len() - 1 {
                count as int
            } else {
                exercises.len() - (samples.len() - 1) * count
            },
        forall|i: int, a: int, b: int|
            0 <= i < samples.len() && 0 <= a < samples[i].len() && 0 <= b < samples[i].len() && a
                != b ==> (#[trigger] samples[i][a]).task@ != (#[trigger] samples[i][b]).task@,
        forall|i: int, j: int, a: int, b: int|
            0 <= i < j < samples.len() && 0 <= a < samples[i].len() && 0 <= b < samples[j].len()
                ==> (#[trigger] samples[i][a]).task@ != (#[trigger] samples[j][b]).task@,
        forall|p: int|
            0 <= p < exercises.len() ==> exists|d: int, a: int|
                0 <= d < samples.len() && 0 <= a < samples[d].len() && (#[trigger] samples[d][a]).task@
                    == (#[trigger] exercises[p]).task@,
        histories[samples.len() as int].to_multiset() == tasks_of(exercises).to_multiset(),
{
    let n = exercises.len();
    let k = samples.len();
    lemma_cycle_prefix(exercises, count, counts, histories, samples, k);
    lemma_no_repeat_in_cycle(exercises, counts, histories, samples);
    let last = histories[k as int];
    let all = tasks_of(exercises);
    lemma_fresh_count(exercises, last);
    assert forall|p: int| 0 <= p < n implies last.contains(#[trigger] exercises[p].task@) by {
        if !last.contains(exercises[p].task@) {
            lemma_fresh_positions_complete(exercises, last, n, p as usize);
        }
    }
    assert forall|p: int| 0 <= p < n implies exists|d: int, a: int|
        0 <= d < samples.len() && 0 <= a < samples[d].len() && (#[trigger] samples[d][a]).task@
            == (#[trigger] exercises[p]).task@ by {
        assert(last.contains(exercises[p].task@));
        lemma_drawn_tasks_contains(samples, k, exercises[p].task@);
    }
    // the final history and the tasks hold the same elements, each once
    last.lemma_multiset_has_no_duplicates();
    all.lemma_multiset_has_no_duplicates();
    assert forall|t: Seq<char>| last.to_multiset().count(t) == all.to_multiset().count(t) by {
        vstd::seq_lib::to_multiset_contains(last, t);
        vstd::seq_lib::to_multiset_contains(all, t);
        if last.contains(t) {
            assert(task_listed(exercises, t));
            let p = choose|p: int| 0 <= p < n && (#[trigger] exercises[p]).task@ == t;
            assert(all[p] == t);
        }
        if all.contains(t) {
            let p = choose|p: int| 0 <= p < all.len() && all[p] == t;
            assert(exercises[p].task@ == t);
        }
    }
    assert(last.to_multiset() =~= all.to_multiset());
}

/// Pruning keeps a history free of repeats.
proof fn lemma_still_listed_distinct(reviewed: Seq<Seq<char>>, exercises: Seq<Exercise>)
    requires
        reviewed.no_duplicates(),
    ensures
        still_listed(reviewed, exercises).no_duplicates(),
    decreases reviewed.len(),
{
    if reviewed.len() > 0 {
        let p = reviewed.drop_last();
        let x = reviewed.last();
        lemma_still_listed_distinct(p, exercises);
        lemma_still_listed(p, exercises, x);
        assert(!p.contains(x)) by {
            if p.contains(x) {
                let k = choose|k: int| 0 <= k < p.len() && p[k] == x;
                assert(reviewed[k] == reviewed[reviewed.len() - 1]);
            }
        }
        let kept = still_listed(p, exercises);
        if task_listed(exercises, x) {
            assert forall|a: int, b: int| 0 <= a < kept.push(x).len() && 0 <= b < kept.push(x).len() && a != b implies kept.push(x)[a]
                != kept.push(x)[b] by {
                if a < kept.len() && b < kept.len() {
                } else if a < kept.len() {
                    assert(kept.contains(kept[a]));
                } else {
                    assert(kept.contains(kept[b]));
                }
            }
        }
    }
}

/// A draw keeps the history sound: on exercises with distinct tasks, when the
/// history before a draw holds no task twice, the history after it holds no
/// task twice, only tasks some exercise has, and no more tasks than there are
/// exercises.
pub proof fn lemma_history_stays_distinct(
    exercises: Seq<Exercise>,
    count: nat,
    before: Seq<Seq<char>>,
    after: Seq<Seq<char>>,
    sample: Seq<Exercise>,
)
    requires
        tasks_of(exercises).no_duplicates(),
        exercises.len() <= usize::MAX,
        before.no_duplicates(),
        sample_drawn(exercises, count, before, after, sample),
    ensures
        after.no_duplicates(),
        forall|t: Seq<char>| after.contains(t) ==> task_listed(exercises, t),
        after.len() <= exercises.len(),
{
    let n = exercises.len();
    let kept = still_listed(before, exercises);
    let base = history_kept(exercises, before);
    let pool = review_pool(exercises, before);
    lemma_still_listed_distinct(before, exercises);
    lemma_fresh_indices(exercises, kept, n);
    lemma_all_indices(n);
    assert forall|t: Seq<char>| base.contains(t) implies task_listed(exercises, t) by {
        lemma_still_listed(before, exercises, t);
    }
    let picked = choose|picked: Seq<usize>| drawn_from(exercises, pool, picked, sample);
    let drawn = tasks_of(sample);
    assert forall|a: int| 0 <= a < drawn.len() implies (#[trigger] drawn[a]) == tasks_of(exercises)[picked[a] as int]
        && (picked[a] as int) < n && !base.contains(drawn[a]) by {
        assert(pool.contains(picked[a]));
        let r = choose|r: int| 0 <= r < pool.len() && pool[r] == picked[a];
    }
    assert forall|a: int, b: int| 0 <= a < drawn.len() && 0 <= b < drawn.len() && a != b implies drawn[a]
        != drawn[b] by {
        assert(picked[a] != picked[b]);
    }
    assert forall|x: int, y: int| 0 <= x < base.len() && 0 <= y < drawn.len() implies base[x] != drawn[y] by {
        assert(base.contains(base[x]));
    }
    vstd::seq_lib::lemma_no_dup_in_concat(base, drawn);
    assert(after == base + drawn);
    assert forall|t: Seq<char>| after.contains(t) implies task_listed(exercises, t) by {
        let q = choose|q: int| 0 <= q < after.len() && after[q] == t;
        if q < base.len() {
            assert(base[q] == t);
            assert(base.contains(t));
        } else {
            let a = q - base.len();
            assert(drawn[a] == t);
            let p = picked[a] as int;
            assert(tasks_of(exercises)[p] == exercises[p].task@);
        }
    }
    if fresh_indices(exercises, kept, n).len() > 0 {
        lemma_fresh_count(exercises, kept);
    }
}

} // verus!
