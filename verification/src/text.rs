//! Text handling: Unicode white space, trimming, splitting into words and
//! lines, greedy word wrapping, decimal numbers and reply normalisation.

use vstd::prelude::*;

verus! {

/// The characters of a string slice, in order.
pub fn chars_of(s: &str) -> (v: Vec<char>)
    ensures
        v@ == s@,
{
    let mut v: Vec<char> = Vec::new();
    for c in it: s.chars()
        invariant
            v@ == it.seq().take(it.index() as int),
    {
        v.push(c);
        proof {
            assert(v@ =~= it.seq().take(it.index() + 1));
        }
    }
    v
}

/// Unicode `White_Space`, the characters that `char::is_whitespace` accepts:
/// U+0009..U+000D, U+0020, U+0085, U+00A0, U+1680, U+2000..U+200A, U+2028,
/// U+2029, U+202F, U+205F and U+3000.
pub open spec fn is_ws(c: char) -> bool {
    let n = c as u32;
    ||| 0x09 <= n <= 0x0D
    ||| n == 0x20
    ||| n == 0x85
    ||| n == 0xA0
    ||| n == 0x1680
    ||| 0x2000 <= n <= 0x200A
    ||| n == 0x2028
    ||| n == 0x2029
    ||| n == 0x202F
    ||| n == 0x205F
    ||| n == 0x3000
}

/// Whether `c` is Unicode white space.
pub fn is_white_space(c: char) -> (r: bool)
    ensures
        r == is_ws(c),
{
    let n = c as u32;
    (0x09 <= n && n <= 0x0D) || n == 0x20 || n == 0x85 || n == 0xA0 || n == 0x1680 || (0x2000 <= n
        && n <= 0x200A) || n == 0x2028 || n == 0x2029 || n == 0x202F || n == 0x205F || n == 0x3000
}

/// `s` without its leading white space.
pub open spec fn trim_start(s: Seq<char>) -> Seq<char>
    decreases s.len(),
{
    if s.len() > 0 && is_ws(s[0]) {
        trim_start(s.drop_first())
    } else {
        s
    }
}

/// `s` without its trailing white space.
pub open spec fn trim_end(s: Seq<char>) -> Seq<char>
    decreases s.len(),
{
    if s.len() > 0 && is_ws(s.last()) {
        trim_end(s.drop_last())
    } else {
        s
    }
}

/// `s` without leading and trailing white space, as `str::trim` gives it.
pub open spec fn trim(s: Seq<char>) -> Seq<char> {
    trim_end(trim_start(s))
}

/// The bounds `(a, b)` of `trim(s)` within `s`: `trim(s) == s[a..b]`.
fn trim_bounds(s: &Vec<char>) -> (r: (usize, usize))
    ensures
        r.0 <= r.1 <= s@.len(),
        s@.subrange(r.0 as int, r.1 as int) == trim(s@),
{
    let n = s.len();
    let mut a: usize = 0;
    assert(s@.skip(0) =~= s@);
    while a < n && is_white_space(s[a])
        invariant
            a <= n == s@.len(),
            trim_start(s@) == trim_start(s@.skip(a as int)),
        decreases n - a,
    {
        proof {
            assert(s@.skip(a as int).drop_first() =~= s@.skip(a + 1));
        }
        a = a + 1;
    }
    let ghost front = s@.skip(a as int);
    assert(trim_start(s@) == front);
    let mut b: usize = n;
    while b > a && is_white_space(s[b - 1])
        invariant
            a <= b <= n == s@.len(),
            front == s@.skip(a as int),
            trim_end(front) == trim_end(s@.subrange(a as int, b as int)),
        decreases b,
    {
        proof {
            assert(s@.subrange(a as int, b as int).drop_last() =~= s@.subrange(a as int, b - 1));
        }
        b = b - 1;
    }
    proof {
        assert(front =~= s@.subrange(a as int, n as int));
    }
    (a, b)
}

/// `s` without leading and trailing white space.
pub fn trim_str(s: &str) -> (r: &str)
    ensures
        r@ == trim(s@),
{
    let v = chars_of(s);
    let (a, b) = trim_bounds(&v);
    s.substring_char(a, b)
}

/// The views of a sequence of strings.
pub open spec fn views(v: Seq<String>) -> Seq<Seq<char>> {
    v.map_values(|x: String| x@)
}

/// Splitting `s` into white-space separated words, as far as `s` goes: the
/// words completed so far and the word still being read.
pub open spec fn words_state(s: Seq<char>) -> (Seq<Seq<char>>, Seq<char>)
    decreases s.len(),
{
    if s.len() == 0 {
        (Seq::empty(), Seq::empty())
    } else {
        let (done, cur) = words_state(s.drop_last());
        if is_ws(s.last()) {
            if cur.len() > 0 {
                (done.push(cur), Seq::empty())
            } else {
                (done, Seq::empty())
            }
        } else {
            (done, cur.push(s.last()))
        }
    }
}

/// The maximal runs of non-white-space characters of `s`, in order, as
/// `str::split_whitespace` gives them.
pub open spec fn split_words(s: Seq<char>) -> Seq<Seq<char>> {
    let (done, cur) = words_state(s);
    if cur.len() > 0 {
        done.push(cur)
    } else {
        done
    }
}

/// The white-space separated words of `s`.
pub fn split_whitespace(s: &str) -> (r: Vec<String>)
    ensures
        views(r@) == split_words(s@),
{
    let v = chars_of(s);
    let n = v.len();
    let mut words: Vec<String> = Vec::new();
    let mut start: usize = 0;
    let mut i: usize = 0;
    assert(s@.take(0) =~= Seq::<char>::empty());
    while i < n
        invariant
            n == v@.len(),
            v@ == s@,
            start <= i <= n,
            words_state(s@.take(i as int)) == (views(words@), s@.subrange(start as int, i as int)),
        decreases n - i,
    {
        let c = v[i];
        let ghost pre = s@.take(i as int);
        assert(s@.take(i + 1).drop_last() =~= pre);
        assert(s@.take(i + 1).last() == c);
        if is_white_space(c) {
            if start < i {
                let w = String::from_str(s.substring_char(start, i));
                words.push(w);
                proof {
                    assert(views(words@) =~= words_state(pre).0.push(s@.subrange(start as int, i as int)));
                }
            }
            start = i + 1;
            proof {
                assert(s@.subrange(start as int, i + 1) =~= Seq::<char>::empty());
            }
        } else {
            proof {
                assert(s@.subrange(start as int, i + 1) =~= s@.subrange(start as int, i as int).push(c));
            }
        }
        i = i + 1;
    }
    assert(s@.take(n as int) =~= s@);
    if start < n {
        let w = String::from_str(s.substring_char(start, n));
        words.push(w);
        proof {
            assert(views(words@) =~= split_words(s@));
        }
    } else {
        proof {
            assert(s@.subrange(start as int, n as int).len() == 0);
        }
    }
    words
}

/// Greedy wrapping of `words` at `width` characters, as far as `words` goes: the
/// lines completed so far and the line still being filled. A word joins the
/// current line, after one space, while the line stays within `width` characters;
/// otherwise it starts the next line.
pub open spec fn wrap_state(words: Seq<Seq<char>>, width: nat) -> (Seq<Seq<char>>, Seq<char>)
    decreases words.len(),
{
    if words.len() == 0 {
        (Seq::empty(), Seq::empty())
    } else {
        let (lines, cur) = wrap_state(words.drop_last(), width);
        let w = words.last();
        if cur.len() == 0 {
            (lines, w)
        } else if cur.len() + 1 + w.len() <= width {
            (lines, cur + seq![' '] + w)
        } else {
            (lines.push(cur), w)
        }
    }
}

/// The lines of `s` word-wrapped greedily at `width` characters.
pub open spec fn wrap_line(s: Seq<char>, width: nat) -> Seq<Seq<char>> {
    let (lines, cur) = wrap_state(split_words(s), width);
    if cur.len() > 0 {
        lines.push(cur)
    } else {
        lines
    }
}

/// `ws` joined with single spaces.
pub open spec fn join_words(ws: Seq<Seq<char>>) -> Seq<char>
    decreases ws.len(),
{
    if ws.len() == 0 {
        Seq::empty()
    } else if ws.len() == 1 {
        ws[0]
    } else {
        join_words(ws.drop_last()) + seq![' '] + ws.last()
    }
}

/// `w` holds no white space.
pub open spec fn no_ws(w: Seq<char>) -> bool {
    forall|i: int| 0 <= i < w.len() ==> !is_ws(#[trigger] w[i])
}

/// The words read so far are non-empty and free of white space, and so is the
/// word being read.
proof fn lemma_words_state(s: Seq<char>)
    ensures
        forall|k: int|
            0 <= k < words_state(s).0.len() ==> (#[trigger] words_state(s).0[k]).len() > 0 && no_ws(
                words_state(s).0[k],
            ),
        no_ws(words_state(s).1),
    decreases s.len(),
{
    if s.len() > 0 {
        lemma_words_state(s.drop_last());
        let (done, cur) = words_state(s.drop_last());
        if !is_ws(s.last()) {
            assert forall|i: int| 0 <= i < cur.push(s.last()).len() implies !is_ws(
                #[trigger] cur.push(s.last())[i],
            ) by {
                if i < cur.len() {
                    assert(cur.push(s.last())[i] == cur[i]);
                }
            }
        }
    }
}

/// Every word of `s` is non-empty and holds no white space.
pub proof fn lemma_split_words(s: Seq<char>)
    ensures
        forall|k: int|
            0 <= k < split_words(s).len() ==> (#[trigger] split_words(s)[k]).len() > 0 && no_ws(
                split_words(s)[k],
            ),
{
    lemma_words_state(s);
}

/// The lines of a wrapping state, the line being filled included.
pub open spec fn all_lines(state: (Seq<Seq<char>>, Seq<char>)) -> Seq<Seq<char>> {
    if state.1.len() > 0 {
        state.0.push(state.1)
    } else {
        state.0
    }
}

/// Joining the lines with single spaces gives the words joined with single
/// spaces; every line is non-empty and either fits in `width` characters or is a
/// single word.
proof fn lemma_wrap_state(words: Seq<Seq<char>>, width: nat)
    requires
        forall|k: int| 0 <= k < words.len() ==> (#[trigger] words[k]).len() > 0,
    ensures
        (words.len() == 0) == (wrap_state(words, width).1.len() == 0),
        wrap_state(words, width).1.len() == 0 ==> wrap_state(words, width).0.len() == 0,
        join_words(all_lines(wrap_state(words, width))) == join_words(words),
        forall|k: int|
            0 <= k < all_lines(wrap_state(words, width)).len() ==> {
                let line = #[trigger] all_lines(wrap_state(words, width))[k];
                line.len() > 0 && (line.len() <= width || words.contains(line))
            },
    decreases words.len(),
{
    if words.len() > 0 {
        let prev = words.drop_last();
        assert forall|k: int| 0 <= k < prev.len() implies (#[trigger] prev[k]).len() > 0 by {
            assert(prev[k] == words[k]);
        }
        lemma_wrap_state(prev, width);
        let (lines, cur) = wrap_state(prev, width);
        let w = words.last();
        assert(words[words.len() - 1] == w);
        assert(words.contains(w));
        assert forall|x: Seq<char>| prev.contains(x) implies words.contains(x) by {
            let j = choose|j: int| 0 <= j < prev.len() && prev[j] == x;
            assert(words[j] == x);
        }
        assert(words =~= prev.push(w));
        let next = wrap_state(words, width);
        if cur.len() == 0 {
            assert(prev.len() == 0);
            assert(all_lines(next) =~= seq![w]);
            assert(words =~= seq![w]);
        } else if cur.len() + 1 + w.len() <= width {
            let merged = cur + seq![' '] + w;
            assert(all_lines(next) =~= lines.push(merged));
            assert(all_lines(wrap_state(prev, width)) =~= lines.push(cur));
            assert(lines.push(merged).drop_last() =~= lines);
            assert(lines.push(cur).drop_last() =~= lines);
            if lines.len() == 0 {
                assert(join_words(lines.push(merged)) == merged);
                assert(join_words(lines.push(cur)) == cur);
            } else {
                assert(join_words(lines.push(merged)) == join_words(lines) + seq![' '] + merged);
                assert(join_words(lines.push(cur)) == join_words(lines) + seq![' '] + cur);
                assert(join_words(lines) + seq![' '] + merged =~= join_words(lines) + seq![' '] + cur
                    + seq![' '] + w);
            }
            assert(prev.len() >= 1);
            assert(join_words(words) == join_words(prev) + seq![' '] + w);
            assert forall|k: int| 0 <= k < all_lines(next).len() implies {
                let line = #[trigger] all_lines(next)[k];
                line.len() > 0 && (line.len() <= width || words.contains(line))
            } by {
                if k < lines.len() {
                    assert(all_lines(next)[k] == all_lines(wrap_state(prev, width))[k]);
                }
            }
        } else {
            assert(all_lines(next) =~= lines.push(cur).push(w));
            assert(all_lines(wrap_state(prev, width)) =~= lines.push(cur));
            assert(lines.push(cur).push(w).drop_last() =~= lines.push(cur));
            assert(prev.len() >= 1);
            assert(join_words(words) == join_words(prev) + seq![' '] + w);
            assert forall|k: int| 0 <= k < all_lines(next).len() implies {
                let line = #[trigger] all_lines(next)[k];
                line.len() > 0 && (line.len() <= width || words.contains(line))
            } by {
                if k <= lines.len() {
                    assert(all_lines(next)[k] == all_lines(wrap_state(prev, width))[k]);
                }
            }
        }
    }
}

/// Wrapping keeps the text and bounds the lines: joined with single spaces the
/// lines give the words of `s` joined with single spaces, and every line is
/// non-empty and fits in `width` characters unless it is a single word of `s`.
pub proof fn lemma_wrap_line(s: Seq<char>, width: nat)
    ensures
        join_words(wrap_line(s, width)) == join_words(split_words(s)),
        forall|k: int|
            0 <= k < wrap_line(s, width).len() ==> {
                let line = #[trigger] wrap_line(s, width)[k];
                line.len() > 0 && (line.len() <= width || split_words(s).contains(line))
            },
{
    lemma_split_words(s);
    lemma_wrap_state(split_words(s), width);
    assert(wrap_line(s, width) == all_lines(wrap_state(split_words(s), width)));
}

/// A run of characters without white space is one word, or none when empty.
proof fn lemma_words_state_no_ws(w: Seq<char>)
    requires
        no_ws(w),
    ensures
        words_state(w) == (Seq::<Seq<char>>::empty(), w),
    decreases w.len(),
{
    if w.len() > 0 {
        let p = w.drop_last();
        assert forall|i: int| 0 <= i < p.len() implies !is_ws(#[trigger] p[i]) by {
            assert(p[i] == w[i]);
        }
        lemma_words_state_no_ws(p);
        assert(!is_ws(w[w.len() - 1]));
        assert(p.push(w.last()) =~= w);
    }
}

/// Reading on after a completed word: the words of `x + b` are those of `x`
/// followed by those of `b`, when `x` ends between words.
proof fn lemma_words_state_append(x: Seq<char>, b: Seq<char>)
    requires
        words_state(x).1.len() == 0,
    ensures
        words_state(x + b) == (words_state(x).0 + words_state(b).0, words_state(b).1),
    decreases b.len(),
{
    if b.len() == 0 {
        assert(x + b =~= x);
        assert(words_state(x).0 + Seq::<Seq<char>>::empty() =~= words_state(x).0);
    } else {
        let b0 = b.drop_last();
        lemma_words_state_append(x, b0);
        assert((x + b).drop_last() =~= x + b0);
        assert((x + b).last() == b.last());
        let (d0, c0) = words_state(b0);
        let dx = words_state(x).0;
        assert((dx + d0).push(c0) =~= dx + d0.push(c0));
    }
}

/// White space separates words: the words of `a`, a white-space character
/// `c` and `b` are those of `a` followed by those of `b`.
proof fn lemma_split_words_sep(a: Seq<char>, c: char, b: Seq<char>)
    requires
        is_ws(c),
    ensures
        split_words(a + seq![c] + b) == split_words(a) + split_words(b),
{
    let x = a + seq![c];
    assert(x.drop_last() =~= a);
    assert(x.last() == c);
    assert(words_state(x) == (split_words(a), Seq::<char>::empty()));
    lemma_words_state_append(x, b);
    assert(a + seq![c] + b =~= x + b);
    let (db, cb) = words_state(b);
    assert((split_words(a) + db).push(cb) =~= split_words(a) + db.push(cb));
}

/// Words joined with single spaces split back into the same words.
pub proof fn lemma_split_join_words(ws: Seq<Seq<char>>)
    requires
        forall|k: int| 0 <= k < ws.len() ==> (#[trigger] ws[k]).len() > 0 && no_ws(ws[k]),
    ensures
        split_words(join_words(ws)) == ws,
    decreases ws.len(),
{
    if ws.len() == 1 {
        lemma_words_state_no_ws(ws[0]);
        assert(Seq::<Seq<char>>::empty().push(ws[0]) =~= ws);
    } else if ws.len() > 1 {
        let p = ws.drop_last();
        assert forall|k: int| 0 <= k < p.len() implies (#[trigger] p[k]).len() > 0 && no_ws(p[k]) by {
            assert(p[k] == ws[k]);
        }
        lemma_split_join_words(p);
        assert(ws[ws.len() - 1] == ws.last());
        lemma_words_state_no_ws(ws.last());
        lemma_split_words_sep(join_words(p), ' ', ws.last());
        assert(Seq::<Seq<char>>::empty().push(ws.last()) =~= seq![ws.last()]);
        assert(p + seq![ws.last()] =~= ws);
    } else {
        assert(split_words(Seq::<char>::empty()) =~= Seq::<Seq<char>>::empty());
    }
}

/// Greedy filling: no line but the last could have taken the first word of
/// the line after it; and the line being filled starts with a word.
proof fn lemma_wrap_state_greedy(words: Seq<Seq<char>>, width: nat)
    requires
        forall|k: int| 0 <= k < words.len() ==> (#[trigger] words[k]).len() > 0 && no_ws(words[k]),
    ensures
        wrap_state(words, width).1.len() > 0 ==> split_words(wrap_state(words, width).1).len() > 0,
        forall|i: int, j: int|
            0 <= i && j == i + 1 && j < all_lines(wrap_state(words, width)).len() ==> #[trigger] all_lines(
                wrap_state(words, width),
            )[i].len() + 1 + split_words(#[trigger] all_lines(wrap_state(words, width))[j])[0].len()
                > width,
    decreases words.len(),
{
    if words.len() > 0 {
        let prev = words.drop_last();
        assert forall|k: int| 0 <= k < prev.len() implies (#[trigger] prev[k]).len() > 0 && no_ws(
            prev[k],
        ) by {
            assert(prev[k] == words[k]);
        }
        lemma_wrap_state_greedy(prev, width);
        lemma_wrap_state(prev, width);
        let (lines, cur) = wrap_state(prev, width);
        let w = words.last();
        assert(words[words.len() - 1] == w);
        lemma_words_state_no_ws(w);
        assert(split_words(w) =~= seq![w]);
        let old_all = all_lines(wrap_state(prev, width));
        let next = all_lines(wrap_state(words, width));
        if cur.len() == 0 {
            assert(lines.len() == 0);
            assert(next =~= seq![w]);
        } else if cur.len() + 1 + w.len() <= width {
            let merged = cur + seq![' '] + w;
            lemma_split_words_sep(cur, ' ', w);
            assert(split_words(merged)[0] == split_words(cur)[0]);
            assert(next =~= lines.push(merged));
            assert(old_all =~= lines.push(cur));
            assert forall|i: int, j: int|
                0 <= i && j == i + 1 && j < next.len() implies #[trigger] next[i].len() + 1
                + split_words(#[trigger] next[j])[0].len() > width by {
                assert(old_all[i] == next[i]);
                if j < lines.len() {
                    assert(old_all[j] == next[j]);
                } else {
                    assert(next[j] == merged);
                    assert(old_all[j] == cur);
                }
            }
        } else {
            assert(next =~= lines.push(cur).push(w));
            assert(old_all =~= lines.push(cur));
            assert forall|i: int, j: int|
                0 <= i && j == i + 1 && j < next.len() implies #[trigger] next[i].len() + 1
                + split_words(#[trigger] next[j])[0].len() > width by {
                if j < old_all.len() {
                    assert(old_all[i] == next[i]);
                    assert(old_all[j] == next[j]);
                } else {
                    assert(next[i] == cur);
                    assert(next[j] == w);
                }
            }
        }
    }
}

/// Wrapping is greedy: for any two neighbouring lines, the first line, one
/// space and the first word of the second line together exceed `width`, so
/// that word could not have joined the first line.
pub proof fn lemma_wrap_line_greedy(s: Seq<char>, width: nat)
    ensures
        forall|i: int, j: int|
            0 <= i && j == i + 1 && j < wrap_line(s, width).len() ==> #[trigger] wrap_line(s, width)[i].len()
                + 1 + split_words(#[trigger] wrap_line(s, width)[j])[0].len() > width,
{
    lemma_split_words(s);
    lemma_wrap_state_greedy(split_words(s), width);
    assert(wrap_line(s, width) == all_lines(wrap_state(split_words(s), width)));
}

/// Word-wraps one logical line at `width` characters: the words of `s`, each line
/// holding as many as fit, separated by single spaces.
pub fn word_wrap(s: &str, width: usize) -> (lines: Vec<String>)
    ensures
        views(lines@) == wrap_line(s@, width as nat),
        join_words(views(lines@)) == join_words(split_words(s@)),
        words_of_lines(views(lines@)) == split_words(s@),
        forall|k: int|
            0 <= k < lines@.len() ==> {
                let line = #[trigger] lines@[k]@;
                line.len() > 0 && (line.len() <= width || split_words(s@).contains(line))
            },
        forall|i: int, j: int|
            0 <= i && j == i + 1 && j < lines@.len() ==> (#[trigger] lines@[i])@.len() + 1 + split_words(
                (#[trigger] lines@[j])@,
            )[0].len() > width,
{
    let words = split_whitespace(s);
    let ghost ws = views(words@);
    let mut lines: Vec<String> = Vec::new();
    let mut current = String::new();
    let mut current_len: u128 = 0;
    let space = " ";
    proof {
        reveal_strlit(" ");
        lemma_split_words(s@);
    }
    let mut k: usize = 0;
    assert(ws.take(0) =~= Seq::<Seq<char>>::empty());
    while k < words.len()
        invariant
            ws == views(words@),
            ws == split_words(s@),
            k <= words@.len(),
            space@ == seq![' '],
            wrap_state(ws.take(k as int), width as nat) == (views(lines@), current@),
            current_len == current@.len(),
            current_len <= usize::MAX as u128,
        decreases words@.len() - k,
    {
        let word = words[k].as_str();
        assert(ws.take(k + 1).drop_last() =~= ws.take(k as int));
        assert(ws.take(k + 1).last() == word@);
        let word_len = word.unicode_len() as u128;
        if current.as_str().is_empty() {
            current.append(word);
            assert(current@ =~= word@);
            current_len = word_len;
        } else {
            let ghost cur0 = current@;
            if current_len + 1 + word_len <= width as u128 {
                current.append(space);
                current.append(word);
                assert(current@ =~= cur0 + seq![' '] + word@);
                current_len = current_len + 1 + word_len;
            } else {
                lines.push(current.clone());
                current = String::from_str(word);
                current_len = word_len;
                assert(views(lines@) =~= wrap_state(ws.take(k + 1), width as nat).0);
            }
        }
        k = k + 1;
    }
    assert(ws.take(words@.len() as int) =~= ws);
    if !current.as_str().is_empty() {
        lines.push(current);
        assert(views(lines@) =~= wrap_line(s@, width as nat));
    }
    proof {
        lemma_wrap_line(s@, width as nat);
        assert forall|k: int| 0 <= k < lines@.len() implies {
            let line = #[trigger] lines@[k]@;
            line.len() > 0 && (line.len() <= width || split_words(s@).contains(line))
        } by {
            assert(views(lines@)[k] == lines@[k]@);
        }
        lemma_wrap_line_greedy(s@, width as nat);
        lemma_wrap_line_words(s@, width as nat);
        assert forall|i: int, j: int|
            0 <= i && j == i + 1 && j < lines@.len() implies (#[trigger] lines@[i])@.len() + 1
            + split_words((#[trigger] lines@[j])@)[0].len() > width by {
            assert(views(lines@)[i] == lines@[i]@);
            assert(views(lines@)[j] == lines@[j]@);
        }
    }
    lines
}

/// Splitting `t` at `'\n'`, as far as `t` goes: the lines completed so far
/// and the line being read.
pub open spec fn lines_state(t: Seq<char>) -> (Seq<Seq<char>>, Seq<char>)
    decreases t.len(),
{
    if t.len() == 0 {
        (Seq::empty(), Seq::empty())
    } else {
        let (done, cur) = lines_state(t.drop_last());
        if t.last() == '\n' {
            (done.push(cur), Seq::empty())
        } else {
            (done, cur.push(t.last()))
        }
    }
}

/// The lines of `t` split at `'\n'`; none for an empty `t`. On a trimmed text
/// (which does not end in a line break) these are the lines `str::lines`
/// gives, up to the `'\r'` before a `'\n'`, which trimming each line removes.
pub open spec fn source_lines(t: Seq<char>) -> Seq<Seq<char>> {
    if t.len() == 0 {
        Seq::empty()
    } else {
        lines_state(t).0.push(lines_state(t).1)
    }
}

/// `width - 2`, or 0 where `width` is below 2.
pub open spec fn bullet_width(width: nat) -> nat {
    if width >= 2 {
        (width - 2) as nat
    } else {
        0
    }
}

/// The first line behind `"- "`, the others behind two spaces.
pub open spec fn bulleted(ls: Seq<Seq<char>>) -> Seq<Seq<char>> {
    Seq::new(
        ls.len(),
        |i: int|
            if i == 0 {
                seq!['-', ' '] + ls[i]
            } else {
                seq![' ', ' '] + ls[i]
            },
    )
}

/// The displayed lines of one source line: an empty line for a blank one, a
/// bullet item (`"- "` then text) wrapped two columns narrower and indented,
/// and any other line wrapped at `width`.
pub open spec fn render_line(line: Seq<char>, width: nat) -> Seq<Seq<char>> {
    let t = trim(line);
    if t.len() == 0 {
        seq![Seq::empty()]
    } else if t.len() >= 2 && t[0] == '-' && t[1] == ' ' {
        bulleted(wrap_line(t.skip(2), bullet_width(width)))
    } else {
        wrap_line(t, width)
    }
}

/// The displayed lines of several source lines, in order.
pub open spec fn render_lines(ls: Seq<Seq<char>>, width: nat) -> Seq<Seq<char>>
    decreases ls.len(),
{
    if ls.len() == 0 {
        Seq::empty()
    } else {
        render_lines(ls.drop_last(), width) + render_line(ls.last(), width)
    }
}

/// The displayed lines of a text: its source lines (after trimming the text),
/// each rendered on its own.
pub open spec fn wrap_text(s: Seq<char>, width: nat) -> Seq<Seq<char>> {
    render_lines(source_lines(trim(s)), width)
}

/// A displayed line fits in `width` characters, or holds a single word,
/// alone or behind a two-character bullet prefix (`"- "` or `"  "`).
pub open spec fn fits_or_one_word(line: Seq<char>, width: nat) -> bool {
    ||| line.len() <= width
    ||| no_ws(line)
    ||| (line.len() >= 2 && (line[0] == '-' || line[0] == ' ') && line[1] == ' ' && no_ws(
        line.skip(2),
    ))
}

/// A line of a wrapped line that is not within the width is one of its words,
/// so it holds no white space.
proof fn lemma_wrapped_lines_fit(s: Seq<char>, width: nat)
    ensures
        forall|k: int|
            0 <= k < wrap_line(s, width).len() ==> {
                let line = #[trigger] wrap_line(s, width)[k];
                line.len() > 0 && (line.len() <= width || no_ws(line))
            },
{
    lemma_wrap_line(s, width);
    lemma_split_words(s);
    assert forall|k: int| 0 <= k < wrap_line(s, width).len() implies {
        let line = #[trigger] wrap_line(s, width)[k];
        line.len() > 0 && (line.len() <= width || no_ws(line))
    } by {
        let line = wrap_line(s, width)[k];
        if line.len() > width {
            let j = choose|j: int| 0 <= j < split_words(s).len() && split_words(s)[j] == line;
        }
    }
}

/// Every displayed line of one source line fits in `width` or holds one word.
proof fn lemma_render_line_fits(line: Seq<char>, width: nat)
    ensures
        forall|k: int|
            0 <= k < render_line(line, width).len() ==> fits_or_one_word(
                #[trigger] render_line(line, width)[k],
                width,
            ),
{
    let t = trim(line);
    if t.len() == 0 {
        assert(render_line(line, width)[0] =~= Seq::<char>::empty());
    } else if t.len() >= 2 && t[0] == '-' && t[1] == ' ' {
        let bw = bullet_width(width);
        let inner = wrap_line(t.skip(2), bw);
        lemma_wrapped_lines_fit(t.skip(2), bw);
        assert forall|k: int| 0 <= k < render_line(line, width).len() implies fits_or_one_word(
            #[trigger] render_line(line, width)[k],
            width,
        ) by {
            let shown = render_line(line, width)[k];
            let w = inner[k];
            assert(shown.skip(2) =~= w);
            assert(shown.len() == w.len() + 2);
        }
    } else {
        lemma_wrapped_lines_fit(t, width);
    }
}

/// Every displayed line of the source lines fits in `width` or holds one word.
proof fn lemma_render_lines_fit(ls: Seq<Seq<char>>, width: nat)
    ensures
        forall|k: int|
            0 <= k < render_lines(ls, width).len() ==> fits_or_one_word(
                #[trigger] render_lines(ls, width)[k],
                width,
            ),
    decreases ls.len(),
{
    if ls.len() > 0 {
        lemma_render_lines_fit(ls.drop_last(), width);
        lemma_render_line_fits(ls.last(), width);
        let a = render_lines(ls.drop_last(), width);
        let b = render_line(ls.last(), width);
        assert forall|k: int| 0 <= k < render_lines(ls, width).len() implies fits_or_one_word(
            #[trigger] render_lines(ls, width)[k],
            width,
        ) by {
            if k < a.len() {
                assert(render_lines(ls, width)[k] == a[k]);
            } else {
                assert(render_lines(ls, width)[k] == b[k - a.len()]);
            }
        }
    }
}

/// Wrapping a text bounds its lines: every displayed line fits in `width`
/// characters, or holds a single word, alone or behind a bullet prefix.
pub proof fn lemma_wrap_text_fits(s: Seq<char>, width: nat)
    ensures
        forall|k: int|
            0 <= k < wrap_text(s, width).len() ==> fits_or_one_word(
                #[trigger] wrap_text(s, width)[k],
                width,
            ),
{
    lemma_render_lines_fit(source_lines(trim(s)), width);
}

/// A trimmed text that is not empty starts and ends with a character that is
/// not white space.
proof fn lemma_trimmed_edges(s: Seq<char>)
    requires
        s == trim(s),
        s.len() > 0,
    ensures
        !is_ws(s[0]),
        !is_ws(s.last()),
{
    lemma_trim_start_edge(s);
    lemma_trim_end_edge(trim_start(s));
}

/// Trimming the start leaves nothing or a first character that is not white
/// space, and keeps the last character.
proof fn lemma_trim_start_edge(s: Seq<char>)
    ensures
        trim_start(s).len() > 0 ==> !is_ws(trim_start(s)[0]),
        trim_start(s).len() > 0 ==> trim_start(s).last() == s.last(),
    decreases s.len(),
{
    if s.len() > 0 && is_ws(s[0]) {
        lemma_trim_start_edge(s.drop_first());
    }
}

/// Trimming the end leaves nothing or a last character that is not white
/// space, and keeps the first character.
proof fn lemma_trim_end_edge(s: Seq<char>)
    ensures
        trim_end(s).len() > 0 ==> !is_ws(trim_end(s).last()),
        trim_end(s).len() > 0 ==> trim_end(s)[0] == s[0],
    decreases s.len(),
{
    if s.len() > 0 && is_ws(s.last()) {
        lemma_trim_end_edge(s.drop_last());
    }
}

/// A text whose first and last characters are not white space is trimmed.
proof fn lemma_trim_keeps(s: Seq<char>)
    requires
        s.len() > 0,
        !is_ws(s[0]),
        !is_ws(s.last()),
    ensures
        trim(s) == s,
{
}

/// The lines of a text with a line break: those of the part before, then
/// those of the part after.
proof fn lemma_lines_state_break(a: Seq<char>, b: Seq<char>)
    ensures
        lines_state(a + seq!['\n'] + b).0 == lines_state(a).0.push(lines_state(a).1) + lines_state(b).0,
        lines_state(a + seq!['\n'] + b).1 == lines_state(b).1,
    decreases b.len(),
{
    let full = lines_state(a).0.push(lines_state(a).1);
    if b.len() == 0 {
        assert(a + seq!['\n'] + b =~= a + seq!['\n']);
        assert((a + seq!['\n']).drop_last() =~= a);
        assert(full + Seq::<Seq<char>>::empty() =~= full);
    } else {
        let b0 = b.drop_last();
        lemma_lines_state_break(a, b0);
        let t = a + seq!['\n'] + b;
        assert(t.drop_last() =~= a + seq!['\n'] + b0);
        assert(t.last() == b.last());
        let (d0, c0) = lines_state(b0);
        if b.last() == '\n' {
            assert(full + d0.push(c0) =~= (full + d0).push(c0));
        }
    }
}

/// Rendering source lines one after the other gives their displayed lines one
/// after the other.
proof fn lemma_render_lines_concat(x: Seq<Seq<char>>, y: Seq<Seq<char>>, width: nat)
    ensures
        render_lines(x + y, width) == render_lines(x, width) + render_lines(y, width),
    decreases y.len(),
{
    if y.len() == 0 {
        assert(x + y =~= x);
        assert(render_lines(x, width) + render_lines(y, width) =~= render_lines(x, width));
    } else {
        lemma_render_lines_concat(x, y.drop_last(), width);
        assert((x + y).drop_last() =~= x + y.drop_last());
        assert((x + y).last() == y.last());
        assert(render_lines(x, width) + render_lines(y.drop_last(), width) + render_line(y.last(), width)
            =~= render_lines(x, width) + (render_lines(y.drop_last(), width) + render_line(y.last(), width)));
    }
}

/// Explicit line breaks are never merged away: for two trimmed, non-empty
/// texts, wrapping them joined by a line break gives the wrapped lines of the
/// first and then those of the second; joined by a blank line, an empty line
/// stands between them.
pub proof fn lemma_wrap_text_line_break(s1: Seq<char>, s2: Seq<char>, width: nat)
    requires
        s1 == trim(s1),
        s2 == trim(s2),
        s1.len() > 0,
        s2.len() > 0,
    ensures
        wrap_text(s1 + seq!['\n'] + s2, width) == wrap_text(s1, width) + wrap_text(s2, width),
        wrap_text(s1 + seq!['\n', '\n'] + s2, width) == wrap_text(s1, width) + seq![Seq::<char>::empty()]
            + wrap_text(s2, width),
{
    lemma_trimmed_edges(s1);
    lemma_trimmed_edges(s2);
    // one line break
    let t = s1 + seq!['\n'] + s2;
    assert(t[0] == s1[0]);
    assert(t.last() == s2.last());
    lemma_trim_keeps(t);
    lemma_lines_state_break(s1, s2);
    assert(source_lines(t) =~= source_lines(s1) + source_lines(s2));
    lemma_render_lines_concat(source_lines(s1), source_lines(s2), width);
    // a blank line
    let b2 = seq!['\n'] + s2;
    let u = s1 + seq!['\n'] + b2;
    assert(s1 + seq!['\n', '\n'] + s2 =~= u);
    assert(u[0] == s1[0]);
    assert(u.last() == s2.last());
    lemma_trim_keeps(u);
    lemma_lines_state_break(s1, b2);
    lemma_lines_state_break(Seq::<char>::empty(), s2);
    assert(Seq::<char>::empty() + seq!['\n'] + s2 =~= b2);
    assert(lines_state(Seq::<char>::empty()) == (Seq::<Seq<char>>::empty(), Seq::<char>::empty()));
    let blank = seq![Seq::<char>::empty()];
    assert(Seq::<Seq<char>>::empty().push(Seq::<char>::empty()) =~= blank);
    assert(source_lines(u) =~= source_lines(s1) + blank + source_lines(s2));
    lemma_render_lines_concat(source_lines(s1), blank, width);
    lemma_render_lines_concat(source_lines(s1) + blank, source_lines(s2), width);
    assert(blank.drop_last() =~= Seq::<Seq<char>>::empty());
    assert(trim(Seq::<char>::empty()) =~= Seq::<char>::empty());
    assert(render_line(Seq::<char>::empty(), width) == blank);
    assert(render_lines(Seq::<Seq<char>>::empty(), width) == Seq::<Seq<char>>::empty());
    assert(render_lines(blank, width) == render_lines(Seq::<Seq<char>>::empty(), width) + render_line(
        Seq::<char>::empty(),
        width,
    ));
    assert(Seq::<Seq<char>>::empty() + blank =~= blank);
}

/// The words of several lines, line after line.
pub open spec fn words_of_lines(ls: Seq<Seq<char>>) -> Seq<Seq<char>>
    decreases ls.len(),
{
    if ls.len() == 0 {
        Seq::empty()
    } else {
        words_of_lines(ls.drop_last()) + split_words(ls.last())
    }
}

/// The words of two runs of lines are those of the first, then those of the
/// second.
proof fn lemma_words_of_lines_concat(x: Seq<Seq<char>>, y: Seq<Seq<char>>)
    ensures
        words_of_lines(x + y) == words_of_lines(x) + words_of_lines(y),
    decreases y.len(),
{
    if y.len() == 0 {
        assert(x + y =~= x);
        assert(words_of_lines(x) + Seq::<Seq<char>>::empty() =~= words_of_lines(x));
    } else {
        lemma_words_of_lines_concat(x, y.drop_last());
        assert((x + y).drop_last() =~= x + y.drop_last());
        assert((x + y).last() == y.last());
        assert(words_of_lines(x) + words_of_lines(y.drop_last()) + split_words(y.last()) =~= words_of_lines(
            x,
        ) + (words_of_lines(y.drop_last()) + split_words(y.last())));
    }
}

/// The empty text has no words.
proof fn lemma_split_words_empty()
    ensures
        split_words(Seq::<char>::empty()) == Seq::<Seq<char>>::empty(),
{
}

/// Lines joined with single spaces have the words of the lines.
proof fn lemma_words_of_joined(ls: Seq<Seq<char>>)
    ensures
        split_words(join_words(ls)) == words_of_lines(ls),
    decreases ls.len(),
{
    lemma_split_words_empty();
    if ls.len() == 1 {
        assert(ls.drop_last() =~= Seq::<Seq<char>>::empty());
        assert(ls.last() == ls[0]);
        assert(words_of_lines(ls) == words_of_lines(ls.drop_last()) + split_words(ls.last()));
        assert(Seq::<Seq<char>>::empty() + split_words(ls[0]) =~= split_words(ls[0]));
    } else if ls.len() > 1 {
        lemma_words_of_joined(ls.drop_last());
        lemma_split_words_sep(join_words(ls.drop_last()), ' ', ls.last());
        assert(join_words(ls) == join_words(ls.drop_last()) + seq![' '] + ls.last());
        assert(words_of_lines(ls) == words_of_lines(ls.drop_last()) + split_words(ls.last()));
    } else {
        assert(join_words(ls) == Seq::<char>::empty());
        assert(words_of_lines(ls) == Seq::<Seq<char>>::empty());
    }
}

/// Lines joined with line breaks have the words of the lines.
proof fn lemma_words_of_broken(ls: Seq<Seq<char>>)
    ensures
        split_words(join_with(ls, seq!['\n'])) == words_of_lines(ls),
    decreases ls.len(),
{
    lemma_split_words_empty();
    if ls.len() == 1 {
        assert(ls.drop_last() =~= Seq::<Seq<char>>::empty());
        assert(ls.last() == ls[0]);
        assert(words_of_lines(ls) == words_of_lines(ls.drop_last()) + split_words(ls.last()));
        assert(Seq::<Seq<char>>::empty() + split_words(ls[0]) =~= split_words(ls[0]));
    } else if ls.len() > 1 {
        lemma_words_of_broken(ls.drop_last());
        assert(is_ws('\n'));
        lemma_split_words_sep(join_with(ls.drop_last(), seq!['\n']), '\n', ls.last());
        assert(join_with(ls, seq!['\n']) == join_with(ls.drop_last(), seq!['\n']) + seq!['\n'] + ls.last());
        assert(words_of_lines(ls) == words_of_lines(ls.drop_last()) + split_words(ls.last()));
    } else {
        assert(join_with(ls, seq!['\n']) == Seq::<char>::empty());
        assert(words_of_lines(ls) == Seq::<Seq<char>>::empty());
    }
}

/// The lines of `t`, the one being read included, joined with line breaks
/// give `t` back.
proof fn lemma_lines_rejoin(t: Seq<char>)
    ensures
        join_with(lines_state(t).0.push(lines_state(t).1), seq!['\n']) == t,
    decreases t.len(),
{
    if t.len() > 0 {
        let t0 = t.drop_last();
        lemma_lines_rejoin(t0);
        let (d0, c0) = lines_state(t0);
        let c = t.last();
        assert(t0.push(c) =~= t);
        if c == '\n' {
            let ls = d0.push(c0).push(Seq::<char>::empty());
            assert(ls.drop_last() =~= d0.push(c0));
            assert(join_with(ls, seq!['\n']) =~= t0 + seq!['\n'] + Seq::<char>::empty());
        } else {
            let ls = d0.push(c0.push(c));
            if d0.len() == 0 {
                assert(join_with(d0.push(c0), seq!['\n']) == c0);
                assert(join_with(ls, seq!['\n']) == c0.push(c));
            } else {
                assert(ls.drop_last() =~= d0);
                assert(d0.push(c0).drop_last() =~= d0);
                assert(join_with(ls, seq!['\n']) =~= join_with(d0, seq!['\n']) + seq!['\n'] + c0.push(c));
                assert(t0 == join_with(d0, seq!['\n']) + seq!['\n'] + c0);
            }
        }
    }
}

/// Leading white space holds no word.
proof fn lemma_split_words_trim_start(s: Seq<char>)
    ensures
        split_words(trim_start(s)) == split_words(s),
    decreases s.len(),
{
    if s.len() > 0 && is_ws(s[0]) {
        lemma_split_words_trim_start(s.drop_first());
        lemma_split_words_sep(Seq::<char>::empty(), s[0], s.drop_first());
        assert(Seq::<char>::empty() + seq![s[0]] + s.drop_first() =~= s);
        lemma_split_words_empty();
        assert(Seq::<Seq<char>>::empty() + split_words(s.drop_first()) =~= split_words(s.drop_first()));
    }
}

/// Trailing white space holds no word.
proof fn lemma_split_words_trim_end(s: Seq<char>)
    ensures
        split_words(trim_end(s)) == split_words(s),
    decreases s.len(),
{
    if s.len() > 0 && is_ws(s.last()) {
        lemma_split_words_trim_end(s.drop_last());
        lemma_split_words_sep(s.drop_last(), s.last(), Seq::<char>::empty());
        assert(s.drop_last() + seq![s.last()] + Seq::<char>::empty() =~= s);
        lemma_split_words_empty();
        assert(split_words(s.drop_last()) + Seq::<Seq<char>>::empty() =~= split_words(s.drop_last()));
    }
}

/// Trimming keeps the words.
proof fn lemma_split_words_trim(s: Seq<char>)
    ensures
        split_words(trim(s)) == split_words(s),
{
    lemma_split_words_trim_start(s);
    lemma_split_words_trim_end(trim_start(s));
}

/// A text ending in a character that is not white space has a word.
proof fn lemma_split_words_nonempty(x: Seq<char>)
    requires
        x.len() > 0,
        !is_ws(x.last()),
    ensures
        split_words(x).len() > 0,
{
}

/// The bullet prefixes add the one word `"-"` in front.
proof fn lemma_bulleted_words(ls: Seq<Seq<char>>)
    requires
        ls.len() > 0,
    ensures
        words_of_lines(bulleted(ls)) == seq![seq!['-']] + words_of_lines(ls),
    decreases ls.len(),
{
    lemma_split_words_empty();
    lemma_words_state_no_ws(seq!['-']);
    assert(split_words(seq!['-']) =~= seq![seq!['-']]);
    let b = bulleted(ls);
    assert(b.len() == ls.len());
    assert(words_of_lines(b) == words_of_lines(b.drop_last()) + split_words(b.last()));
    assert(words_of_lines(ls) == words_of_lines(ls.drop_last()) + split_words(ls.last()));
    assert(b.last() == b[ls.len() - 1]);
    assert(ls.last() == ls[ls.len() - 1]);
    if ls.len() == 1 {
        assert(b.drop_last() =~= Seq::<Seq<char>>::empty());
        assert(ls.drop_last() =~= Seq::<Seq<char>>::empty());
        lemma_split_words_sep(seq!['-'], ' ', ls[0]);
        assert(seq!['-'] + seq![' '] + ls[0] =~= b.last());
        assert(Seq::<Seq<char>>::empty() + split_words(b.last()) =~= split_words(b.last()));
        assert(Seq::<Seq<char>>::empty() + split_words(ls.last()) =~= split_words(ls.last()));
    } else {
        let p = ls.drop_last();
        lemma_bulleted_words(p);
        assert(b.drop_last() =~= bulleted(p));
        lemma_split_words_sep(seq![' '], ' ', ls.last());
        assert(seq![' '] + seq![' '] + ls.last() =~= b.last());
        lemma_words_state_no_ws(Seq::<char>::empty());
        assert(words_state(seq![' ']) == (Seq::<Seq<char>>::empty(), Seq::<char>::empty())) by {
            assert(seq![' '].drop_last() =~= Seq::<char>::empty());
        }
        assert(split_words(seq![' ']) =~= Seq::<Seq<char>>::empty());
        assert(Seq::<Seq<char>>::empty() + split_words(ls.last()) =~= split_words(ls.last()));
        assert(seq![seq!['-']] + words_of_lines(p) + split_words(ls.last()) =~= seq![seq!['-']] + (
        words_of_lines(p) + split_words(ls.last())));
    }
}

/// A wrapped line has the words of the line.
proof fn lemma_wrap_line_words(s: Seq<char>, width: nat)
    ensures
        words_of_lines(wrap_line(s, width)) == split_words(s),
{
    lemma_wrap_line(s, width);
    lemma_words_of_joined(wrap_line(s, width));
    lemma_split_words(s);
    lemma_split_join_words(split_words(s));
}

/// Rendering keeps the text of a source line: the words of its displayed
/// lines are those of the trimmed line, the bullet marker `"-"` included
/// (it is a word of the line, and the only text a bullet adds); a trimmed line
/// that does not start with `"- "` is shown exactly as its greedy wrap at the
/// full width.
pub proof fn lemma_render_line_keeps_words(line: Seq<char>, width: nat)
    ensures
        words_of_lines(render_line(line, width)) == split_words(trim(line)),
        trim(line).len() > 0 && !(trim(line).len() >= 2 && trim(line)[0] == '-' && trim(line)[1] == ' ')
            ==> render_line(line, width) == wrap_line(trim(line), width),
        trim(line).len() >= 2 && trim(line)[0] == '-' && trim(line)[1] == ' ' ==> render_line(line, width)
            == bulleted(wrap_line(trim(line).skip(2), bullet_width(width))),
{
    let t = trim(line);
    lemma_split_words_empty();
    if t.len() == 0 {
        let r = seq![Seq::<char>::empty()];
        assert(r.drop_last() =~= Seq::<Seq<char>>::empty());
        assert(r.last() == Seq::<char>::empty());
        assert(words_of_lines(r) == words_of_lines(r.drop_last()) + split_words(r.last()));
        assert(render_line(line, width) == r);
        assert(words_of_lines(r) =~= Seq::<Seq<char>>::empty() + split_words(Seq::<char>::empty()));
        assert(t =~= Seq::<char>::empty());
    } else if t.len() >= 2 && t[0] == '-' && t[1] == ' ' {
        let rest = t.skip(2);
        let bw = bullet_width(width);
        lemma_trim_end_edge(trim_start(line));
        assert(!is_ws(t.last()));
        assert(t.len() > 2);
        assert(rest.last() == t.last());
        lemma_split_words_nonempty(rest);
        lemma_split_words(rest);
        lemma_wrap_state(split_words(rest), bw);
        assert(wrap_line(rest, bw).len() > 0);
        lemma_bulleted_words(wrap_line(rest, bw));
        lemma_wrap_line_words(rest, bw);
        lemma_words_state_no_ws(seq!['-']);
        assert(split_words(seq!['-']) =~= seq![seq!['-']]);
        lemma_split_words_sep(seq!['-'], ' ', rest);
        assert(seq!['-'] + seq![' '] + rest =~= t);
    } else {
        lemma_wrap_line_words(t, width);
    }
}

/// The displayed lines of several source lines have the words of the trimmed
/// source lines.
proof fn lemma_render_lines_words(ls: Seq<Seq<char>>, width: nat)
    ensures
        words_of_lines(render_lines(ls, width)) == words_of_lines(ls),
    decreases ls.len(),
{
    if ls.len() > 0 {
        lemma_render_lines_words(ls.drop_last(), width);
        lemma_words_of_lines_concat(render_lines(ls.drop_last(), width), render_line(ls.last(), width));
        lemma_render_line_keeps_words(ls.last(), width);
        lemma_split_words_trim(ls.last());
    }
}

/// Wrapping a text keeps its words: the words of all displayed lines, in
/// order, are the words of the text (the bullet markers among them).
pub proof fn lemma_wrap_text_keeps_words(s: Seq<char>, width: nat)
    ensures
        words_of_lines(wrap_text(s, width)) == split_words(s),
{
    let t = trim(s);
    lemma_split_words_trim(s);
    lemma_render_lines_words(source_lines(t), width);
    if t.len() == 0 {
        lemma_split_words_empty();
    } else {
        lemma_lines_rejoin(t);
        lemma_words_of_broken(source_lines(t));
    }
}

/// `prefix` followed by `s`, as a new string.
fn prefixed(prefix: &str, s: &String) -> (r: String)
    ensures
        r@ == prefix@ + s@,
{
    let mut r = String::from_str(prefix);
    r.append(s.as_str());
    r
}

/// Appends the displayed lines of the source line `line` to `out`.
fn render_line_into(out: &mut Vec<String>, line: &str, width: usize)
    ensures
        views(final(out)@) == views(old(out)@) + render_line(line@, width as nat),
{
    let t = trim_str(line);
    let v = chars_of(t);
    let ghost before = views(out@);
    if v.len() == 0 {
        out.push(String::new());
        assert(views(out@) =~= before + seq![Seq::<char>::empty()]);
    } else if v.len() >= 2 && v[0] == '-' && v[1] == ' ' {
        let item = t.substring_char(2, v.len());
        assert(item@ =~= t@.skip(2));
        let inner = if width >= 2 {
            width - 2
        } else {
            0
        };
        let wrapped = word_wrap(item, inner);
        let ghost w = views(wrapped@);
        let dash = "- ";
        let indent = "  ";
        proof {
            reveal_strlit("- ");
            reveal_strlit("  ");
        }
        let mut j: usize = 0;
        while j < wrapped.len()
            invariant
                w == views(wrapped@),
                j <= wrapped@.len(),
                dash@ == seq!['-', ' '],
                indent@ == seq![' ', ' '],
                views(out@) == before + bulleted(w).take(j as int),
            decreases wrapped@.len() - j,
        {
            let piece = if j == 0 {
                prefixed(dash, &wrapped[j])
            } else {
                prefixed(indent, &wrapped[j])
            };
            let ghost prev = out@;
            let ghost pv = piece@;
            assert(w[j as int] == wrapped@[j as int]@);
            assert(pv == bulleted(w)[j as int]);
            out.push(piece);
            proof {
                assert(views(out@) =~= views(prev).push(pv));
                assert(bulleted(w).take(j + 1) =~= bulleted(w).take(j as int).push(bulleted(w)[j as int]));
                assert(views(out@) =~= before + bulleted(w).take(j + 1));
            }
            j = j + 1;
        }
        assert(bulleted(w).take(wrapped@.len() as int) =~= bulleted(w));
    } else {
        let wrapped = word_wrap(t, width);
        let ghost w = views(wrapped@);
        let mut j: usize = 0;
        while j < wrapped.len()
            invariant
                w == views(wrapped@),
                j <= wrapped@.len(),
                views(out@) == before + w.take(j as int),
            decreases wrapped@.len() - j,
        {
            let ghost prev = out@;
            let piece = wrapped[j].clone();
            assert(piece@ == w[j as int]);
            out.push(piece);
            proof {
                assert(views(out@) =~= views(prev).push(w[j as int]));
                assert(w.take(j + 1) =~= w.take(j as int).push(w[j as int]));
                assert(views(out@) =~= before + w.take(j + 1));
            }
            j = j + 1;
        }
        assert(w.take(wrapped@.len() as int) =~= w);
    }
}

/// Word-wraps a text at `width` characters while keeping its own line breaks: blank
/// lines stay, and a line starting with `"- "` becomes a bullet whose
/// continuation lines are indented by two spaces.
pub fn word_wrap_preserving_lines(s: &str, width: usize) -> (lines: Vec<String>)
    ensures
        views(lines@) == wrap_text(s@, width as nat),
        forall|k: int| 0 <= k < lines@.len() ==> fits_or_one_word(#[trigger] lines@[k]@, width as nat),
        words_of_lines(views(lines@)) == split_words(s@),
{
    let t = trim_str(s);
    let v = chars_of(t);
    let n = v.len();
    let mut lines: Vec<String> = Vec::new();
    if n == 0 {
        assert(views(lines@) =~= wrap_text(s@, width as nat));
        proof {
            lemma_wrap_text_keeps_words(s@, width as nat);
        }
        return lines;
    }
    let mut start: usize = 0;
    let mut i: usize = 0;
    assert(t@.take(0) =~= Seq::<char>::empty());
    while i < n
        invariant
            n == v@.len(),
            v@ == t@,
            start <= i <= n,
            lines_state(t@.take(i as int)).1 == t@.subrange(start as int, i as int),
            views(lines@) == render_lines(lines_state(t@.take(i as int)).0, width as nat),
        decreases n - i,
    {
        let ghost pre = t@.take(i as int);
        assert(t@.take(i + 1).drop_last() =~= pre);
        assert(t@.take(i + 1).last() == v@[i as int]);
        if v[i] == '\n' {
            let line = t.substring_char(start, i);
            render_line_into(&mut lines, line, width);
            start = i + 1;
            proof {
                let done = lines_state(pre).0;
                assert(done.push(line@).drop_last() =~= done);
                assert(t@.subrange(start as int, i + 1) =~= Seq::<char>::empty());
            }
        } else {
            proof {
                assert(t@.subrange(start as int, i + 1) =~= t@.subrange(start as int, i as int).push(
                    v@[i as int],
                ));
            }
        }
        i = i + 1;
    }
    assert(t@.take(n as int) =~= t@);
    let last = t.substring_char(start, n);
    render_line_into(&mut lines, last, width);
    proof {
        let done = lines_state(t@).0;
        assert(done.push(last@).drop_last() =~= done);
        assert(views(lines@) == wrap_text(s@, width as nat));
        lemma_wrap_text_fits(s@, width as nat);
        lemma_wrap_text_keeps_words(s@, width as nat);
        assert forall|k: int| 0 <= k < lines@.len() implies fits_or_one_word(
            #[trigger] lines@[k]@,
            width as nat,
        ) by {
            assert(views(lines@)[k] == lines@[k]@);
        }
    }
    lines
}

/// The decimal digit character for `d` (0 to 9).
pub open spec fn digit_char(d: nat) -> char {
    (48 + d) as char
}

/// The decimal digits of `n`, most significant first, without leading zeros
/// (`"0"` for zero).
pub open spec fn decimal_digits(n: nat) -> Seq<char>
    decreases n,
{
    if n < 10 {
        seq![digit_char(n)]
    } else {
        decimal_digits(n / 10).push(digit_char(n % 10))
    }
}

/// The decimal form of `n`, with a leading `-` when negative, as `Display`
/// writes integers.
pub open spec fn decimal(n: int) -> Seq<char> {
    if n < 0 {
        seq!['-'] + decimal_digits((-n) as nat)
    } else {
        decimal_digits(n as nat)
    }
}

/// Appends the decimal digits of `n` to `s`.
fn append_digits(s: &mut String, n: u64)
    ensures
        final(s)@ == old(s)@ + decimal_digits(n as nat),
    decreases n,
{
    if n >= 10 {
        append_digits(s, n / 10);
    }
    let d = (n % 10) as usize;
    let all = "0123456789";
    proof {
        reveal_strlit("0123456789");
    }
    let ghost before = s@;
    s.append(all.substring_char(d, d + 1));
    proof {
        assert(all@.subrange(d as int, d + 1) =~= seq![digit_char(d as nat)]);
        if n >= 10 {
            assert(s@ =~= old(s)@ + decimal_digits(n as nat));
        } else {
            assert(s@ =~= old(s)@ + decimal_digits(n as nat));
        }
    }
}

/// The decimal form of `n`.
pub fn i32_to_decimal(n: i32) -> (r: String)
    ensures
        r@ == decimal(n as int),
{
    let mut r = String::new();
    if n < 0 {
        r.append("-");
        proof {
            reveal_strlit("-");
        }
        let magnitude: u64 = (0i64 - (n as i64)) as u64;
        append_digits(&mut r, magnitude);
    } else {
        append_digits(&mut r, n as u64);
    }
    r
}

/// `parts` joined with `sep` between neighbours.
pub open spec fn join_with(parts: Seq<Seq<char>>, sep: Seq<char>) -> Seq<char>
    decreases parts.len(),
{
    if parts.len() == 0 {
        Seq::empty()
    } else if parts.len() == 1 {
        parts[0]
    } else {
        join_with(parts.drop_last(), sep) + sep + parts.last()
    }
}

/// Whether `c` is an ASCII decimal digit.
pub open spec fn is_digit(c: char) -> bool {
    '0' <= c <= '9'
}

/// Every character of `s` is an ASCII decimal digit.
pub open spec fn all_digits(s: Seq<char>) -> bool {
    forall|i: int| 0 <= i < s.len() ==> is_digit(#[trigger] s[i])
}

/// The number that the decimal digits `s` write.
pub open spec fn digits_value(s: Seq<char>) -> nat
    decreases s.len(),
{
    if s.len() == 0 {
        0
    } else {
        digits_value(s.drop_last()) * 10 + ((s.last() as u32) - 48) as nat
    }
}

/// The unsigned number that `s` writes, as `usize::from_str` reads it: an
/// optional `+`, then one or more ASCII digits; `None` for anything else.
pub open spec fn unsigned_value(s: Seq<char>) -> Option<nat> {
    let body = if s.len() > 0 && s[0] == '+' {
        s.drop_first()
    } else {
        s
    };
    if body.len() > 0 && all_digits(body) {
        Some(digits_value(body))
    } else {
        None
    }
}

/// Reads an unsigned decimal number as `str::parse::<usize>` does: `Some` of
/// its value exactly when `s` is an optional `+` followed by ASCII digits and
/// the value fits in a `usize`.
#[verifier::rlimit(30)]
pub fn parse_usize(s: &str) -> (r: Option<usize>)
    ensures
        r == (match unsigned_value(s@) {
            Some(v) => if v <= usize::MAX {
                Some(v as usize)
            } else {
                None
            },
            None => None,
        }),
{
    let v = chars_of(s);
    let start: usize = if v.len() > 0 && v[0] == '+' {
        1
    } else {
        0
    };
    let ghost body = if s@.len() > 0 && s@[0] == '+' {
        s@.drop_first()
    } else {
        s@
    };
    assert(body =~= s@.subrange(start as int, s@.len() as int));
    if start >= v.len() {
        return None;
    }
    let mut value: usize = 0;
    let mut i: usize = start;
    let mut overflow = false;
    assert(body.take(0) =~= Seq::<char>::empty());
    while i < v.len()
        invariant
            v@ == s@,
            start <= i <= v@.len(),
            body == s@.subrange(start as int, s@.len() as int),
            body == (if s@.len() > 0 && s@[0] == '+' {
                s@.drop_first()
            } else {
                s@
            }),
            forall|j: int| 0 <= j < i - start ==> is_digit(#[trigger] body[j]),
            !overflow ==> value == digits_value(body.take(i - start)),
            overflow ==> digits_value(body.take(i - start)) > usize::MAX,
        decreases v@.len() - i,
    {
        let c = v[i];
        if !('0' <= c && c <= '9') {
            assert(!is_digit(body[i - start]));
            assert(!all_digits(body));
            return None;
        }
        let ghost k = i - start;
        assert(body.take(k + 1).drop_last() =~= body.take(k));
        assert(body.take(k + 1).last() == c);
        let d = (c as u32 - 48) as usize;
        assert(digits_value(body.take(k + 1)) == digits_value(body.take(k)) * 10 + d);
        if !overflow {
            match value.checked_mul(10) {
                Some(x) => match x.checked_add(d) {
                    Some(y) => {
                        value = y;
                    },
                    None => {
                        overflow = true;
                    },
                },
                None => {
                    overflow = true;
                },
            }
        }
        i = i + 1;
    }
    assert(body.take(body.len() as int) =~= body);
    if overflow {
        None
    } else {
        Some(value)
    }
}

/// The lowercase form of `s` under Unicode's case mapping, as
/// `str::to_lowercase` gives it.
pub uninterp spec fn lowercase(s: Seq<char>) -> Seq<char>;

/// Calls `str::to_lowercase`. Unicode lowercasing takes tables to state, so
/// the result is only named: it is `lowercase` of the argument.
#[verifier::external_body]
fn to_lowercase(s: &str) -> (r: String)
    ensures
        r@ == lowercase(s@),
{
    s.to_lowercase()
}

/// A typed reply as the quiz compares it: trimmed, then lowercased.
pub fn normalize_reply(raw: &str) -> (r: String)
    ensures
        r@ == lowercase(trim(raw@)),
{
    to_lowercase(trim_str(raw))
}

/// `l` without a final `'\r'`.
pub open spec fn strip_cr(l: Seq<char>) -> Seq<char> {
    if l.len() > 0 && l.last() == '\r' {
        l.drop_last()
    } else {
        l
    }
}

/// The lines of a trimmed text, as `str::lines` splits them: at `'\n'`, a
/// `'\r'` before the `'\n'` dropped.
pub open spec fn text_lines(s: Seq<char>) -> Seq<Seq<char>> {
    source_lines(trim(s)).map_values(|l: Seq<char>| strip_cr(l))
}

/// `line` as a new string, without a final `'\r'`.
fn without_cr(line: &str) -> (r: String)
    ensures
        r@ == strip_cr(line@),
{
    let v = chars_of(line);
    if v.len() > 0 && v[v.len() - 1] == '\r' {
        let r = String::from_str(line.substring_char(0, v.len() - 1));
        assert(line@.subrange(0, v@.len() - 1) =~= line@.drop_last());
        r
    } else {
        String::from_str(line)
    }
}

/// The lines of `s` once trimmed, as `s.trim().lines()` gives them.
pub fn trimmed_lines(s: &str) -> (lines: Vec<String>)
    ensures
        views(lines@) == text_lines(s@),
{
    let t = trim_str(s);
    let v = chars_of(t);
    let n = v.len();
    let mut lines: Vec<String> = Vec::new();
    if n == 0 {
        assert(views(lines@) =~= text_lines(s@));
        return lines;
    }
    let mut start: usize = 0;
    let mut i: usize = 0;
    assert(t@.take(0) =~= Seq::<char>::empty());
    while i < n
        invariant
            n == v@.len(),
            v@ == t@,
            start <= i <= n,
            lines_state(t@.take(i as int)).1 == t@.subrange(start as int, i as int),
            views(lines@) == lines_state(t@.take(i as int)).0.map_values(|l: Seq<char>| strip_cr(l)),
        decreases n - i,
    {
        let ghost pre = t@.take(i as int);
        assert(t@.take(i + 1).drop_last() =~= pre);
        assert(t@.take(i + 1).last() == v@[i as int]);
        if v[i] == '\n' {
            let ghost before = views(lines@);
            let ghost s0 = start as int;
            let line = without_cr(t.substring_char(start, i));
            lines.push(line);
            start = i + 1;
            proof {
                let done = lines_state(pre).0;
                let cur = t@.subrange(s0, i as int);
                assert(views(lines@) =~= before.push(strip_cr(cur)));
                assert(done.push(cur).map_values(|l: Seq<char>| strip_cr(l)) =~= done.map_values(
                    |l: Seq<char>| strip_cr(l),
                ).push(strip_cr(cur)));
                assert(t@.subrange(start as int, i + 1) =~= Seq::<char>::empty());
            }
        } else {
            proof {
                assert(t@.subrange(start as int, i + 1) =~= t@.subrange(start as int, i as int).push(
                    v@[i as int],
                ));
            }
        }
        i = i + 1;
    }
    assert(t@.take(n as int) =~= t@);
    let ghost before = views(lines@);
    let last = without_cr(t.substring_char(start, n));
    lines.push(last);
    proof {
        let done = lines_state(t@).0;
        let cur = t@.subrange(start as int, n as int);
        assert(views(lines@) =~= before.push(strip_cr(cur)));
        assert(done.push(cur).map_values(|l: Seq<char>| strip_cr(l)) =~= done.map_values(
            |l: Seq<char>| strip_cr(l),
        ).push(strip_cr(cur)));
    }
    assert(views(lines@) =~= text_lines(s@));
    lines
}

} // verus!
