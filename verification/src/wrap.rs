//! Greedy word wrapping of title text into at most a given number of lines.
use vstd::prelude::*;
use crate::text::{is_white_space, string_of, white_space};

verus! {

/// Number of characters before the first `\n` of `s` (all of them if none).
pub open spec fn newline_index(s: Seq<char>) -> nat
    decreases s.len(),
{
    if s.len() == 0 || s[0] == '\n' {
        0
    } else {
        1 + newline_index(s.drop_first())
    }
}

/// `l` without one trailing carriage return.
pub open spec fn strip_cr(l: Seq<char>) -> Seq<char> {
    if l.len() > 0 && l.last() == '\r' {
        l.drop_last()
    } else {
        l
    }
}

/// The lines of `s` as `str::lines` gives them: split at each `\n`, a `\r`
/// before the `\n` removed, and no empty last line after a final `\n`.
pub open spec fn text_lines(s: Seq<char>) -> Seq<Seq<char>>
    decreases s.len(),
{
    if s.len() == 0 {
        Seq::empty()
    } else {
        let n = newline_index(s);
        if n < s.len() {
            seq![strip_cr(s.take(n as int))] + text_lines(s.skip(n + 1 as int))
        } else {
            seq![s]
        }
    }
}

/// The words of `s` as `str::split_whitespace` gives them, scanning from the
/// left; the flag tells whether the last character belongs to a word.
pub open spec fn words_scan(s: Seq<char>) -> (Seq<Seq<char>>, bool)
    decreases s.len(),
{
    if s.len() == 0 {
        (Seq::empty(), false)
    } else {
        let (ws, in_word) = words_scan(s.drop_last());
        let c = s.last();
        if is_white_space(c) {
            (ws, false)
        } else if in_word {
            (ws.update(ws.len() - 1, ws.last().push(c)), true)
        } else {
            (ws.push(seq![c]), true)
        }
    }
}

/// The maximal runs of non-white-space characters of `s`, in order.
pub open spec fn words(s: Seq<char>) -> Seq<Seq<char>> {
    words_scan(s).0
}

/// One step of the greedy fill: the word joins the current line when the
/// result fits in `max_chars` characters (or the current line is empty);
/// otherwise the current line is closed and the word starts the next one.
pub open spec fn wrap_step(lines: Seq<Seq<char>>, cur: Seq<char>, w: Seq<char>, max_chars: nat) -> (Seq<Seq<char>>, Seq<char>) {
    let next = if cur.len() == 0 { w } else { cur + seq![' '] + w };
    if next.len() > max_chars && cur.len() > 0 {
        (lines.push(cur), w)
    } else {
        (lines, next)
    }
}

/// The lines, the open line and whether the line cap was reached, after
/// feeding the words `ws` of one input line, starting from `lines0`. Once
/// the cap is reached the remaining words are not read.
pub open spec fn feed_words(lines0: Seq<Seq<char>>, ws: Seq<Seq<char>>, max_chars: nat, max_lines: nat) -> (Seq<Seq<char>>, Seq<char>, bool)
    decreases ws.len(),
{
    if ws.len() == 0 {
        (lines0, Seq::empty(), false)
    } else {
        let (l, c, stop) = feed_words(lines0, ws.drop_last(), max_chars, max_lines);
        if stop {
            (l, c, true)
        } else {
            let (l2, c2) = wrap_step(l, c, ws.last(), max_chars);
            (l2, c2, l2.len() >= max_lines)
        }
    }
}

/// The lines after wrapping one input line onto `lines0`: the open line is
/// closed at the end if it is not empty and the cap allows it.
pub open spec fn finish_line(lines0: Seq<Seq<char>>, line: Seq<char>, max_chars: nat, max_lines: nat) -> Seq<Seq<char>> {
    let (l, c, _) = feed_words(lines0, words(line), max_chars, max_lines);
    if c.len() > 0 && l.len() < max_lines {
        l.push(c)
    } else {
        l
    }
}

/// The output lines after the input lines `ls`, and whether the cap was reached.
pub open spec fn wrap_from(ls: Seq<Seq<char>>, max_chars: nat, max_lines: nat) -> (Seq<Seq<char>>, bool)
    decreases ls.len(),
{
    if ls.len() == 0 {
        (Seq::empty(), false)
    } else {
        let (l, stop) = wrap_from(ls.drop_last(), max_chars, max_lines);
        if stop {
            (l, true)
        } else {
            let l2 = finish_line(l, ls.last(), max_chars, max_lines);
            (l2, l2.len() >= max_lines)
        }
    }
}

/// `s` wrapped greedily into lines of at most `max_chars` characters (a single
/// longer word gets a line of its own), keeping explicit line breaks and
/// producing at most `max_lines` lines.
pub open spec fn spec_wrap(s: Seq<char>, max_chars: nat, max_lines: nat) -> Seq<Seq<char>> {
    wrap_from(text_lines(s), max_chars, max_lines).0
}

/// The sequences held by a list of character vectors.
pub open spec fn char_rows(v: Seq<Vec<char>>) -> Seq<Seq<char>> {
    v.map_values(|x: Vec<char>| x@)
}

fn copy_chars(v: &Vec<char>, lo: usize, hi: usize) -> (r: Vec<char>)
    requires
        lo <= hi <= v.len(),
    ensures
        r@ == v@.subrange(lo as int, hi as int),
{
    let mut r: Vec<char> = Vec::new();
    let mut i = lo;
    while i < hi
        invariant
            lo <= i <= hi <= v.len(),
            r@ == v@.subrange(lo as int, i as int),
        decreases hi - i,
    {
        r.push(v[i]);
        assert(v@.subrange(lo as int, i + 1) == v@.subrange(lo as int, i as int).push(v@[i as int]));
        i += 1;
    }
    r
}

proof fn lemma_newline_index(s: Seq<char>)
    ensures
        newline_index(s) <= s.len(),
        newline_index(s) < s.len() ==> s[newline_index(s) as int] == '\n',
        forall|i: int| 0 <= i < newline_index(s) ==> s[i] != '\n',
    decreases s.len(),
{
    if s.len() > 0 && s[0] != '\n' {
        lemma_newline_index(s.drop_first());
        assert forall|i: int| 0 <= i < newline_index(s) implies s[i] != '\n' by {
            if i > 0 {
                assert(s[i] == s.drop_first()[i - 1]);
            }
        }
    }
}

/// Splits `cs` into its lines (see [`text_lines`]).
pub fn split_lines(cs: &Vec<char>) -> (r: Vec<Vec<char>>)
    ensures
        char_rows(r@) == text_lines(cs@),
{
    let mut out: Vec<Vec<char>> = Vec::new();
    let mut pos: usize = 0;
    assert(cs@.skip(0) =~= cs@);
    while pos < cs.len()
        invariant
            pos <= cs.len(),
            text_lines(cs@) == char_rows(out@) + text_lines(cs@.skip(pos as int)),
        decreases cs.len() - pos,
    {
        let ghost rest = cs@.skip(pos as int);
        let mut e = pos;
        while e < cs.len() && cs[e] != '\n'
            invariant
                pos <= e <= cs.len(),
                forall|i: int| pos <= i < e ==> cs@[i] != '\n',
            decreases cs.len() - e,
        {
            e += 1;
        }
        proof {
            lemma_newline_index(rest);
            let n = newline_index(rest);
            if n < e - pos {
                assert(rest[n as int] == cs@[pos + n]);
            }
            if e < cs.len() && n > e - pos {
                assert(rest[e - pos] == cs@[e as int]);
            }
            if e == cs.len() && n < e - pos {
                assert(rest[n as int] == cs@[pos + n]);
            }
            assert(n == e - pos);
        }
        if e < cs.len() {
            let mut hi = e;
            if hi > pos && cs[hi - 1] == '\r' {
                hi -= 1;
            }
            let line = copy_chars(cs, pos, hi);
            assert(line@ =~= strip_cr(rest.take((e - pos) as int)));
            out.push(line);
            assert(rest.skip((e - pos) + 1) =~= cs@.skip(e + 1));
            assert(char_rows(out@) =~= char_rows(out@.drop_last()).push(line@));
            assert(text_lines(cs@) =~= char_rows(out@) + text_lines(cs@.skip(e + 1)));
            pos = e + 1;
        } else {
            let line = copy_chars(cs, pos, e);
            assert(line@ =~= rest);
            out.push(line);
            assert(char_rows(out@) =~= char_rows(out@.drop_last()).push(line@));
            assert(cs@.skip(e as int) =~= Seq::<char>::empty());
            assert(text_lines(cs@) =~= char_rows(out@) + text_lines(cs@.skip(e as int)));
            pos = e;
        }
    }
    assert(cs@.skip(pos as int) =~= Seq::<char>::empty());
    assert(text_lines(cs@) =~= char_rows(out@));
    out
}

/// Splits a line into its words (see [`words`]).
pub fn split_words(line: &Vec<char>) -> (r: Vec<Vec<char>>)
    ensures
        char_rows(r@) == words(line@),
{
    let mut ws: Vec<Vec<char>> = Vec::new();
    let mut cur: Vec<char> = Vec::new();
    let mut in_word = false;
    let mut i: usize = 0;
    while i < line.len()
        invariant
            i <= line.len(),
            in_word ==> cur@.len() > 0,
            !in_word ==> cur@.len() == 0,
            words_scan(line@.take(i as int)) == (
                if in_word { char_rows(ws@).push(cur@) } else { char_rows(ws@) },
                in_word,
            ),
        decreases line.len() - i,
    {
        let c = line[i];
        assert(line@.take(i + 1).drop_last() =~= line@.take(i as int));
        let ghost prev_rows = char_rows(ws@);
        if white_space(c) {
            if in_word {
                let w = cur;
                cur = Vec::new();
                ws.push(w);
                assert(char_rows(ws@) =~= prev_rows.push(w@));
            }
            in_word = false;
        } else {
            let ghost old_cur = cur@;
            cur.push(c);
            if in_word {
                assert(prev_rows.push(old_cur).update(prev_rows.len() as int, old_cur.push(c)) =~= prev_rows.push(cur@));
            } else {
                assert(cur@ =~= seq![c]);
            }
            in_word = true;
        }
        i += 1;
    }
    if in_word {
        ws.push(cur);
    }
    assert(line@.take(line.len() as int) =~= line@);
    assert(char_rows(ws@) =~= words(line@));
    ws
}

proof fn lemma_feed_stops(l0: Seq<Seq<char>>, ws: Seq<Seq<char>>, k: int, mc: nat, ml: nat)
    requires
        0 <= k <= ws.len(),
        feed_words(l0, ws.take(k), mc, ml).2,
    ensures
        feed_words(l0, ws, mc, ml) == feed_words(l0, ws.take(k), mc, ml),
    decreases ws.len(),
{
    if k == ws.len() {
        assert(ws.take(k) =~= ws);
    } else {
        assert(ws.drop_last().take(k) =~= ws.take(k));
        lemma_feed_stops(l0, ws.drop_last(), k, mc, ml);
    }
}

proof fn lemma_wrap_stops(ls: Seq<Seq<char>>, k: int, mc: nat, ml: nat)
    requires
        0 <= k <= ls.len(),
        wrap_from(ls.take(k), mc, ml).1,
    ensures
        wrap_from(ls, mc, ml) == wrap_from(ls.take(k), mc, ml),
    decreases ls.len(),
{
    if k == ls.len() {
        assert(ls.take(k) =~= ls);
    } else {
        assert(ls.drop_last().take(k) =~= ls.take(k));
        lemma_wrap_stops(ls.drop_last(), k, mc, ml);
    }
}

/// Wraps `s` greedily into lines of at most `max_chars` characters (a longer
/// single word stands alone on its line), keeping explicit line breaks and
/// stopping after `max_lines` lines. Words are separated by one space.
pub fn wrap_lines(s: &str, max_chars: usize, max_lines: usize) -> (r: Vec<String>)
    ensures
        r@.len() == spec_wrap(s@, max_chars as nat, max_lines as nat).len(),
        forall|i: int| 0 <= i < r@.len() ==> #[trigger] r@[i]@ == spec_wrap(s@, max_chars as nat, max_lines as nat)[i],
{
    let ghost mc = max_chars as nat;
    let ghost ml = max_lines as nat;
    let cs = crate::text::chars_of(s);
    let input = split_lines(&cs);
    let ghost ls = text_lines(s@);
    let mut lines: Vec<Vec<char>> = Vec::new();
    let mut stopped = false;
    let mut k: usize = 0;
    assert(ls.take(0) =~= Seq::<Seq<char>>::empty());
    assert(char_rows(lines@) =~= Seq::<Seq<char>>::empty());
    while k < input.len() && !stopped
        invariant
            k <= input.len(),
            char_rows(input@) == ls,
            mc == max_chars as nat,
            ml == max_lines as nat,
            (char_rows(lines@), stopped) == wrap_from(ls.take(k as int), mc, ml),
        decreases input.len() - k,
    {
        let ws = split_words(&input[k]);
        let ghost line = ls[k as int];
        assert(input@[k as int]@ == line);
        let ghost l0 = char_rows(lines@);
        let mut cur: Vec<char> = Vec::new();
        let mut stop_in = false;
        let mut j: usize = 0;
        assert(words(line).take(0) =~= Seq::<Seq<char>>::empty());
        while j < ws.len() && !stop_in
            invariant
                j <= ws.len(),
                char_rows(ws@) == words(line),
                mc == max_chars as nat,
                ml == max_lines as nat,
                (char_rows(lines@), cur@, stop_in) == feed_words(l0, words(line).take(j as int), mc, ml),
            decreases ws.len() - j,
        {
            let w = &ws[j];
            let ghost wv = words(line)[j as int];
            assert(w@ == wv);
            let ghost prev_rows = char_rows(lines@);
            let ghost prev_cur = cur@;
            assert(words(line).take(j + 1).drop_last() =~= words(line).take(j as int));
            if cur.len() == 0 {
                cur = copy_chars(w, 0, w.len());
                assert(w@.subrange(0, w@.len() as int) =~= w@);
            } else if cur.len() > max_chars || w.len() >= max_chars - cur.len() {
                let done = cur;
                lines.push(done);
                assert(char_rows(lines@) =~= prev_rows.push(prev_cur));
                cur = copy_chars(w, 0, w.len());
                assert(w@.subrange(0, w@.len() as int) =~= w@);
            } else {
                cur.push(' ');
                let mut t: usize = 0;
                while t < w.len()
                    invariant
                        t <= w.len(),
                        cur@ == prev_cur + seq![' '] + w@.take(t as int),
                    decreases w.len() - t,
                {
                    cur.push(w[t]);
                    assert(w@.take(t + 1) == w@.take(t as int).push(w@[t as int]));
                    t += 1;
                }
                assert(w@.take(w.len() as int) =~= w@);
            }
            assert((char_rows(lines@), cur@) == wrap_step(prev_rows, prev_cur, wv, mc));
            stop_in = lines.len() >= max_lines;
            j += 1;
        }
        proof {
            if stop_in {
                lemma_feed_stops(l0, words(line), j as int, mc, ml);
            } else {
                assert(words(line).take(j as int) =~= words(line));
            }
        }
        let ghost before_close = char_rows(lines@);
        if cur.len() > 0 && lines.len() < max_lines {
            lines.push(cur);
            assert(char_rows(lines@) =~= before_close.push(lines@.last()@));
        }
        assert(char_rows(lines@) == finish_line(l0, line, mc, ml));
        stopped = lines.len() >= max_lines;
        assert(ls.take(k + 1).drop_last() =~= ls.take(k as int));
        k += 1;
    }
    proof {
        if stopped {
            lemma_wrap_stops(ls, k as int, mc, ml);
        } else {
            assert(ls.take(k as int) =~= ls);
        }
    }
    let mut out: Vec<String> = Vec::new();
    let mut i: usize = 0;
    while i < lines.len()
        invariant
            i <= lines.len(),
            char_rows(lines@) == spec_wrap(s@, mc, ml),
            out@.len() == i,
            forall|q: int| 0 <= q < i ==> #[trigger] out@[q]@ == char_rows(lines@)[q],
        decreases lines.len() - i,
    {
        out.push(string_of(lines[i].as_slice()));
        i += 1;
    }
    out
}

proof fn lemma_words_nonempty(s: Seq<char>)
    ensures
        forall|i: int| 0 <= i < words_scan(s).0.len() ==> (#[trigger] words_scan(s).0[i]).len() > 0,
        words_scan(s).1 ==> words_scan(s).0.len() > 0,
    decreases s.len(),
{
    if s.len() > 0 {
        lemma_words_nonempty(s.drop_last());
    }
}

/// Every row of `l` holds at least one character.
pub open spec fn rows_nonempty(l: Seq<Seq<char>>) -> bool {
    forall|i: int| 0 <= i < l.len() ==> (#[trigger] l[i]).len() > 0
}

proof fn lemma_feed_bounds(l0: Seq<Seq<char>>, ws: Seq<Seq<char>>, mc: nat, ml: nat)
    requires
        l0.len() <= ml,
        rows_nonempty(l0),
        rows_nonempty(ws),
    ensures
        ({
            let (l, c, stop) = feed_words(l0, ws, mc, ml);
            &&& l.len() <= ml
            &&& rows_nonempty(l)
            &&& (!stop && c.len() > 0) ==> l.len() < ml
        }),
    decreases ws.len(),
{
    if ws.len() > 0 {
        assert(rows_nonempty(ws.drop_last())) by {
            assert forall|i: int| 0 <= i < ws.drop_last().len() implies (#[trigger] ws.drop_last()[i]).len() > 0 by {
                assert(ws.drop_last()[i] == ws[i]);
            }
        }
        lemma_feed_bounds(l0, ws.drop_last(), mc, ml);
        let (l, c, stop) = feed_words(l0, ws.drop_last(), mc, ml);
        if !stop {
            let (l2, c2) = wrap_step(l, c, ws.last(), mc);
            assert(rows_nonempty(l2)) by {
                assert forall|i: int| 0 <= i < l2.len() implies (#[trigger] l2[i]).len() > 0 by {
                    if i < l.len() {
                        assert(l2[i] == l[i]);
                    }
                }
            }
        }
    }
}

proof fn lemma_wrap_bounds(ls: Seq<Seq<char>>, mc: nat, ml: nat)
    ensures
        wrap_from(ls, mc, ml).0.len() <= ml,
        rows_nonempty(wrap_from(ls, mc, ml).0),
    decreases ls.len(),
{
    if ls.len() > 0 {
        lemma_wrap_bounds(ls.drop_last(), mc, ml);
        let (l, stop) = wrap_from(ls.drop_last(), mc, ml);
        if !stop {
            let ws = words(ls.last());
            lemma_words_nonempty(ls.last());
            lemma_feed_bounds(l, ws, mc, ml);
            let (l1, c, _) = feed_words(l, ws, mc, ml);
            let l2 = finish_line(l, ls.last(), mc, ml);
            assert(rows_nonempty(l2)) by {
                assert forall|i: int| 0 <= i < l2.len() implies (#[trigger] l2[i]).len() > 0 by {
                    if i < l1.len() {
                        assert(l2[i] == l1[i]);
                    }
                }
            }
        }
    }
}

/// Wrapping never gives more lines than the cap, and never an empty line.
pub proof fn lemma_wrap_respects_cap(s: Seq<char>, max_chars: nat, max_lines: nat)
    ensures
        spec_wrap(s, max_chars, max_lines).len() <= max_lines,
        rows_nonempty(spec_wrap(s, max_chars, max_lines)),
{
    lemma_wrap_bounds(text_lines(s), max_chars, max_lines);
}

/// The words of all the lines, in order.
pub open spec fn all_words(ls: Seq<Seq<char>>) -> Seq<Seq<char>>
    decreases ls.len(),
{
    if ls.len() == 0 {
        Seq::empty()
    } else {
        all_words(ls.drop_last()) + words(ls.last())
    }
}

/// `l` fits in `max_chars` characters, or is one of the words of `pool`.
pub open spec fn fits_or_word(l: Seq<char>, max_chars: nat, pool: Seq<Seq<char>>) -> bool {
    l.len() <= max_chars || pool.contains(l)
}

proof fn lemma_feed_fits(l0: Seq<Seq<char>>, ws: Seq<Seq<char>>, mc: nat, ml: nat, pool: Seq<Seq<char>>)
    requires
        forall|i: int| 0 <= i < l0.len() ==> fits_or_word(#[trigger] l0[i], mc, pool),
        forall|j: int| 0 <= j < ws.len() ==> pool.contains(#[trigger] ws[j]),
    ensures
        ({
            let (l, c, _) = feed_words(l0, ws, mc, ml);
            &&& forall|i: int| 0 <= i < l.len() ==> fits_or_word(#[trigger] l[i], mc, pool)
            &&& fits_or_word(c, mc, pool)
        }),
    decreases ws.len(),
{
    if ws.len() > 0 {
        lemma_feed_fits(l0, ws.drop_last(), mc, ml, pool);
        let (l, c, stop) = feed_words(l0, ws.drop_last(), mc, ml);
        if !stop {
            let w = ws.last();
            assert(pool.contains(ws[ws.len() - 1]));
            let (l2, c2) = wrap_step(l, c, w, mc);
            assert forall|i: int| 0 <= i < l2.len() implies fits_or_word(#[trigger] l2[i], mc, pool) by {
                if i < l.len() {
                    assert(l2[i] == l[i]);
                }
            }
        }
    }
}

proof fn lemma_all_words_grow(ls: Seq<Seq<char>>)
    requires
        ls.len() > 0,
    ensures
        forall|x: Seq<char>| all_words(ls.drop_last()).contains(x) ==> #[trigger] all_words(ls).contains(x),
        forall|x: Seq<char>| words(ls.last()).contains(x) ==> #[trigger] all_words(ls).contains(x),
{
    let a = all_words(ls.drop_last());
    let b = words(ls.last());
    assert forall|x: Seq<char>| a.contains(x) implies #[trigger] all_words(ls).contains(x) by {
        let i = choose|i: int| 0 <= i < a.len() && a[i] == x;
        assert(all_words(ls)[i] == x);
    }
    assert forall|x: Seq<char>| b.contains(x) implies #[trigger] all_words(ls).contains(x) by {
        let i = choose|i: int| 0 <= i < b.len() && b[i] == x;
        assert(all_words(ls)[a.len() + i] == x);
    }
}

proof fn lemma_wrap_fits(ls: Seq<Seq<char>>, mc: nat, ml: nat, pool: Seq<Seq<char>>)
    requires
        forall|x: Seq<char>| all_words(ls).contains(x) ==> #[trigger] pool.contains(x),
    ensures
        forall|i: int| 0 <= i < wrap_from(ls, mc, ml).0.len() ==> fits_or_word(#[trigger] wrap_from(ls, mc, ml).0[i], mc, pool),
    decreases ls.len(),
{
    if ls.len() > 0 {
        lemma_all_words_grow(ls);
        lemma_wrap_fits(ls.drop_last(), mc, ml, pool);
        let (l, stop) = wrap_from(ls.drop_last(), mc, ml);
        if !stop {
            let ws = words(ls.last());
            assert forall|j: int| 0 <= j < ws.len() implies pool.contains(#[trigger] ws[j]) by {
                assert(ws.contains(ws[j]));
            }
            lemma_feed_fits(l, ws, mc, ml, pool);
            let (l1, c, _) = feed_words(l, ws, mc, ml);
            let l2 = finish_line(l, ls.last(), mc, ml);
            assert forall|i: int| 0 <= i < l2.len() implies fits_or_word(#[trigger] l2[i], mc, pool) by {
                if i < l1.len() {
                    assert(l2[i] == l1[i]);
                }
            }
        }
    }
}

/// Every wrapped line fits in `max_chars` characters, unless it is a single
/// word of the text that is longer than that.
pub proof fn lemma_wrap_lines_fit(s: Seq<char>, max_chars: nat, max_lines: nat)
    ensures
        forall|i: int| 0 <= i < spec_wrap(s, max_chars, max_lines).len() ==> fits_or_word(
            #[trigger] spec_wrap(s, max_chars, max_lines)[i],
            max_chars,
            all_words(text_lines(s)),
        ),
{
    lemma_wrap_fits(text_lines(s), max_chars, max_lines, all_words(text_lines(s)));
}

/// `w` is a word: at least one character, none of them white space.
pub open spec fn is_word(w: Seq<char>) -> bool {
    w.len() > 0 && forall|k: int| 0 <= k < w.len() ==> !is_white_space(#[trigger] w[k])
}

proof fn lemma_words_are_words(s: Seq<char>)
    ensures
        forall|i: int| 0 <= i < words_scan(s).0.len() ==> is_word(#[trigger] words_scan(s).0[i]),
        words_scan(s).1 ==> words_scan(s).0.len() > 0,
    decreases s.len(),
{
    if s.len() > 0 {
        lemma_words_are_words(s.drop_last());
        let (ws, in_word) = words_scan(s.drop_last());
        let c = s.last();
        if !is_white_space(c) {
            if in_word {
                let u = ws.update(ws.len() - 1, ws.last().push(c));
                assert forall|i: int| 0 <= i < u.len() implies is_word(#[trigger] u[i]) by {
                    if i == ws.len() - 1 {
                        let w = ws.last().push(c);
                        assert forall|k: int| 0 <= k < w.len() implies !is_white_space(#[trigger] w[k]) by {
                            if k < ws.last().len() {
                                assert(w[k] == ws[ws.len() - 1][k]);
                            }
                        }
                    }
                }
            } else {
                let u = ws.push(seq![c]);
                assert forall|i: int| 0 <= i < u.len() implies is_word(#[trigger] u[i]) by {
                    if i < ws.len() {
                        assert(u[i] == ws[i]);
                    }
                }
            }
        }
    }
}

/// Appending a word right after white space (or at the start) adds it as one
/// more word.
proof fn lemma_scan_append_word(a: Seq<char>, w: Seq<char>)
    requires
        !words_scan(a).1,
        is_word(w),
    ensures
        words_scan(a + w) == (words(a).push(w), true),
    decreases w.len(),
{
    let v = w.drop_last();
    assert((a + w).drop_last() =~= a + v);
    assert((a + w).last() == w.last());
    if v.len() == 0 {
        assert(a + v =~= a);
        assert(seq![w.last()] =~= w);
    } else {
        assert forall|k: int| 0 <= k < v.len() implies !is_white_space(#[trigger] v[k]) by {
            assert(v[k] == w[k]);
        }
        lemma_scan_append_word(a, v);
        assert(v.push(w.last()) =~= w);
        assert(words(a).push(v).update(words(a).len() as int, v.push(w.last())) =~= words(a).push(w));
    }
}

/// The words of a wrapped line: joining a word to a line with a space adds
/// that word after the line's words, and a word alone is its only word.
proof fn lemma_words_join(c: Seq<char>, w: Seq<char>)
    requires
        is_word(w),
    ensures
        words(c + seq![' '] + w) == words(c).push(w),
        words(w) == seq![w],
{
    let a = c + seq![' '];
    assert(a.drop_last() =~= c);
    assert(is_white_space(a.last()));
    lemma_scan_append_word(a, w);
    let e = Seq::<char>::empty();
    lemma_scan_append_word(e, w);
    assert(e + w =~= w);
    assert(words(e).push(w) =~= seq![w]);
}

proof fn lemma_all_words_push(l: Seq<Seq<char>>, x: Seq<char>)
    ensures
        all_words(l.push(x)) == all_words(l) + words(x),
{
    assert(l.push(x).drop_last() =~= l);
}

/// What feeding words to a line keeps: the words of the closed lines and the
/// open line are the words before plus a prefix of the fed words, all of
/// them unless the cap stopped the feed; a stopped feed has reached the cap.
proof fn lemma_feed_keeps_words(l0: Seq<Seq<char>>, ws: Seq<Seq<char>>, mc: nat, ml: nat)
    requires
        forall|j: int| 0 <= j < ws.len() ==> is_word(#[trigger] ws[j]),
    ensures
        ({
            let (l, c, stop) = feed_words(l0, ws, mc, ml);
            &&& (all_words(l) + words(c)).is_prefix_of(all_words(l0) + ws)
            &&& !stop ==> all_words(l) + words(c) == all_words(l0) + ws
            &&& stop ==> l.len() >= ml
            &&& l0.len() <= l.len()
        }),
    decreases ws.len(),
{
    if ws.len() == 0 {
        assert(words(Seq::<char>::empty()) =~= Seq::<Seq<char>>::empty());
        assert(all_words(l0) + words(Seq::<char>::empty()) =~= all_words(l0) + ws);
    } else {
        let d = ws.drop_last();
        assert forall|j: int| 0 <= j < d.len() implies is_word(#[trigger] d[j]) by {
            assert(d[j] == ws[j]);
        }
        lemma_feed_keeps_words(l0, d, mc, ml);
        let (l, c, stop) = feed_words(l0, d, mc, ml);
        let p = all_words(l0);
        assert(p + ws =~= (p + d).push(ws.last()));
        if stop {
            let x = all_words(l) + words(c);
            assert(x =~= (p + ws).subrange(0, x.len() as int));
        } else {
            let w = ws.last();
            assert(is_word(ws[ws.len() - 1]));
            lemma_words_join(c, w);
            let (l2, c2) = wrap_step(l, c, w, mc);
            if c.len() == 0 {
                assert(words(c) =~= Seq::<Seq<char>>::empty());
            }
            if (if c.len() == 0 { w } else { c + seq![' '] + w }).len() > mc && c.len() > 0 {
                lemma_all_words_push(l, c);
                assert(all_words(l2) + words(c2) =~= (all_words(l) + words(c)).push(w));
            } else {
                assert(all_words(l2) + words(c2) =~= (all_words(l) + words(c)).push(w));
            }
            let x = all_words(l2) + words(c2);
            assert(x =~= (p + ws).subrange(0, x.len() as int));
        }
    }
}

proof fn lemma_wrap_keeps_words(ls: Seq<Seq<char>>, mc: nat, ml: nat)
    ensures
        ({
            let (out, stop) = wrap_from(ls, mc, ml);
            &&& all_words(out).is_prefix_of(all_words(ls))
            &&& !stop ==> all_words(out) == all_words(ls)
            &&& stop ==> out.len() >= ml
        }),
    decreases ls.len(),
{
    if ls.len() > 0 {
        let d = ls.drop_last();
        lemma_wrap_keeps_words(d, mc, ml);
        let (out, stop) = wrap_from(d, mc, ml);
        let q = all_words(ls);
        assert(q == all_words(d) + words(ls.last()));
        if stop {
            let x = all_words(out);
            assert(x =~= q.subrange(0, x.len() as int));
        } else {
            let ws = words(ls.last());
            lemma_words_are_words(ls.last());
            lemma_feed_keeps_words(out, ws, mc, ml);
            let (l, c, fs) = feed_words(out, ws, mc, ml);
            let l2 = finish_line(out, ls.last(), mc, ml);
            if c.len() > 0 && l.len() < ml {
                lemma_all_words_push(l, c);
            } else if c.len() == 0 {
                assert(words(c) =~= Seq::<Seq<char>>::empty());
                assert(all_words(l) + words(c) =~= all_words(l));
            }
            let x = all_words(l2);
            let y = all_words(l) + words(c);
            assert(y =~= q.subrange(0, y.len() as int));
            assert(x =~= y.subrange(0, x.len() as int));
            assert(x =~= q.subrange(0, x.len() as int));
        }
    }
}

/// Wrapping keeps the words of the text in order: the words of the output
/// lines are the first words of the text, and all of them when the output
/// stays under the line cap.
pub proof fn lemma_wrap_keeps_word_order(s: Seq<char>, max_chars: nat, max_lines: nat)
    ensures
        all_words(spec_wrap(s, max_chars, max_lines)).is_prefix_of(all_words(text_lines(s))),
        spec_wrap(s, max_chars, max_lines).len() < max_lines ==> all_words(spec_wrap(s, max_chars, max_lines))
            == all_words(text_lines(s)),
{
    lemma_wrap_keeps_words(text_lines(s), max_chars, max_lines);
}

/// Line `a` has no room for the first word of line `b`: joining that word to
/// `a` with a space would pass `max_chars` characters.
pub open spec fn no_room(a: Seq<char>, b: Seq<char>, max_chars: nat) -> bool {
    (a + seq![' '] + words(b)[0]).len() > max_chars
}

/// Greedy filling: no line of `l` has room for the first word of the next.
pub open spec fn greedy_lines(l: Seq<Seq<char>>, max_chars: nat) -> bool {
    forall|i: int, j: int| 0 <= i && j == i + 1 && j < l.len() ==> #[trigger] no_room(l[i], l[j], max_chars)
}

proof fn lemma_feed_is_greedy(ws: Seq<Seq<char>>, mc: nat, ml: nat)
    requires
        forall|j: int| 0 <= j < ws.len() ==> is_word(#[trigger] ws[j]),
    ensures
        ({
            let (l, c, _) = feed_words(Seq::empty(), ws, mc, ml);
            &&& greedy_lines(l, mc)
            &&& l.len() > 0 ==> c.len() > 0 && no_room(l.last(), c, mc)
            &&& forall|i: int| 0 <= i < l.len() ==> (#[trigger] words(l[i])).len() > 0
            &&& c.len() > 0 ==> words(c).len() > 0
        }),
    decreases ws.len(),
{
    if ws.len() > 0 {
        let d = ws.drop_last();
        assert forall|j: int| 0 <= j < d.len() implies is_word(#[trigger] d[j]) by {
            assert(d[j] == ws[j]);
        }
        lemma_feed_is_greedy(d, mc, ml);
        let (l, c, stop) = feed_words(Seq::empty(), d, mc, ml);
        if !stop {
            let w = ws.last();
            assert(is_word(ws[ws.len() - 1]));
            lemma_words_join(c, w);
            let next = if c.len() == 0 { w } else { c + seq![' '] + w };
            let (l2, c2) = wrap_step(l, c, w, mc);
            if next.len() > mc && c.len() > 0 {
                assert(l2 == l.push(c));
                assert forall|i: int, j: int| 0 <= i && j == i + 1 && j < l2.len() implies #[trigger] no_room(l2[i], l2[j], mc) by {
                    if j < l.len() {
                        assert(l2[i] == l[i] && l2[j] == l[j]);
                    } else {
                        assert(l2[i] == l.last() && l2[j] == c);
                    }
                }
                assert forall|i: int| 0 <= i < l2.len() implies (#[trigger] words(l2[i])).len() > 0 by {
                    if i < l.len() {
                        assert(l2[i] == l[i]);
                    }
                }
                assert(seq![w][0] == w);
                assert(c + seq![' '] + words(w)[0] == next);
            } else {
                if c.len() > 0 {
                    assert(words(next)[0] == words(c)[0]);
                }
            }
        }
    }
}

/// Wrapping a text without line breaks is greedy: no output line has room
/// for the first word of the line after it.
pub proof fn lemma_wrap_is_greedy(s: Seq<char>, max_chars: nat, max_lines: nat)
    requires
        forall|i: int| 0 <= i < s.len() ==> s[i] != '\n',
    ensures
        greedy_lines(spec_wrap(s, max_chars, max_lines), max_chars),
{
    if s.len() > 0 {
        lemma_newline_index(s);
        if newline_index(s) < s.len() {
            assert(s[newline_index(s) as int] == '\n');
        }
        assert(text_lines(s) == seq![s]);
        let ls = seq![s];
        assert(ls.drop_last() =~= Seq::<Seq<char>>::empty());
        assert(ls.last() == s);
        assert(wrap_from(ls.drop_last(), max_chars, max_lines) == (Seq::<Seq<char>>::empty(), false));
        let ws = words(s);
        lemma_words_are_words(s);
        lemma_feed_is_greedy(ws, max_chars, max_lines);
        let (l, c, _) = feed_words(Seq::empty(), ws, max_chars, max_lines);
        let l2 = finish_line(Seq::empty(), s, max_chars, max_lines);
        assert(wrap_from(ls, max_chars, max_lines).0 == l2);
        if c.len() > 0 && l.len() < max_lines {
            assert(l2 == l.push(c));
            assert forall|i: int, j: int| 0 <= i && j == i + 1 && j < l2.len() implies #[trigger] no_room(l2[i], l2[j], max_chars) by {
                if j < l.len() {
                    assert(l2[i] == l[i] && l2[j] == l[j]);
                } else {
                    assert(l2[i] == l.last() && l2[j] == c);
                }
            }
        }
    }
}

/// Some first `k` input lines hold exactly `n` words: a word at index `n` of
/// the text begins an input line.
pub open spec fn starts_input_line(ls: Seq<Seq<char>>, n: int) -> bool {
    exists|k: int| 0 <= k <= ls.len() && #[trigger] all_words(ls.take(k)).len() == n
}

/// Every line of `out` after the first either begins an input line of `ls`
/// (its first word is the first word of an input line), or the line before it
/// has no room for that first word.
pub open spec fn greedy_between_breaks(out: Seq<Seq<char>>, ls: Seq<Seq<char>>, max_chars: nat) -> bool {
    forall|i: int, j: int| 0 <= i && j == i + 1 && j < out.len() ==> #[trigger] no_room(out[i], out[j], max_chars)
        || starts_input_line(ls, all_words(out.take(j)).len() as int)
}

proof fn lemma_feed_greedy_from(l0: Seq<Seq<char>>, ws: Seq<Seq<char>>, mc: nat, ml: nat)
    requires
        forall|j: int| 0 <= j < ws.len() ==> is_word(#[trigger] ws[j]),
    ensures
        ({
            let (l, c, _) = feed_words(l0, ws, mc, ml);
            &&& l0.len() <= l.len()
            &&& l.take(l0.len() as int) == l0
            &&& forall|i: int, j: int| 0 <= i && j == i + 1 && l0.len() < j < l.len() ==> #[trigger] no_room(l[i], l[j], mc)
            &&& l.len() > l0.len() ==> c.len() > 0 && no_room(l.last(), c, mc)
            &&& c.len() > 0 ==> words(c).len() > 0
        }),
    decreases ws.len(),
{
    if ws.len() == 0 {
        assert(l0.take(l0.len() as int) =~= l0);
    } else {
        let d = ws.drop_last();
        assert forall|j: int| 0 <= j < d.len() implies is_word(#[trigger] d[j]) by {
            assert(d[j] == ws[j]);
        }
        lemma_feed_greedy_from(l0, d, mc, ml);
        let (l, c, stop) = feed_words(l0, d, mc, ml);
        if !stop {
            let w = ws.last();
            assert(is_word(ws[ws.len() - 1]));
            lemma_words_join(c, w);
            let next = if c.len() == 0 { w } else { c + seq![' '] + w };
            let (l2, c2) = wrap_step(l, c, w, mc);
            if next.len() > mc && c.len() > 0 {
                assert(l2 == l.push(c));
                assert(l2.take(l0.len() as int) =~= l.take(l0.len() as int));
                assert forall|i: int, j: int| 0 <= i && j == i + 1 && l0.len() < j < l2.len() implies #[trigger] no_room(l2[i], l2[j], mc) by {
                    if j < l.len() {
                        assert(l2[i] == l[i] && l2[j] == l[j]);
                    } else {
                        assert(l2[i] == l.last() && l2[j] == c);
                    }
                }
                assert(seq![w][0] == w);
                assert(c + seq![' '] + words(w)[0] == next);
            } else {
                if c.len() > 0 {
                    assert(words(next)[0] == words(c)[0]);
                }
            }
        }
    }
}

proof fn lemma_all_words_take_count(ls: Seq<Seq<char>>)
    requires
        ls.len() > 0,
    ensures
        starts_input_line(ls, all_words(ls.drop_last()).len() as int),
{
    let k = ls.len() - 1;
    assert(ls.take(k) =~= ls.drop_last());
}

proof fn lemma_starts_grow(ls: Seq<Seq<char>>, n: int)
    requires
        ls.len() > 0,
        starts_input_line(ls.drop_last(), n),
    ensures
        starts_input_line(ls, n),
{
    let k = choose|k: int| 0 <= k <= ls.drop_last().len() && #[trigger] all_words(ls.drop_last().take(k)).len() == n;
    assert(ls.drop_last().take(k) =~= ls.take(k));
}

proof fn lemma_wrap_greedy_from(ls: Seq<Seq<char>>, mc: nat, ml: nat)
    ensures
        greedy_between_breaks(wrap_from(ls, mc, ml).0, ls, mc),
    decreases ls.len(),
{
    if ls.len() > 0 {
        let d = ls.drop_last();
        lemma_wrap_greedy_from(d, mc, ml);
        lemma_wrap_keeps_words(d, mc, ml);
        let (out, stop) = wrap_from(d, mc, ml);
        let out2 = wrap_from(ls, mc, ml).0;
        if stop {
            assert forall|i: int, j: int| 0 <= i && j == i + 1 && j < out2.len() implies #[trigger] no_room(out2[i], out2[j], mc)
                || starts_input_line(ls, all_words(out2.take(j)).len() as int) by {
                if !no_room(out2[i], out2[j], mc) {
                    lemma_starts_grow(ls, all_words(out2.take(j)).len() as int);
                }
            }
        } else {
            let ws = words(ls.last());
            lemma_words_are_words(ls.last());
            lemma_feed_greedy_from(out, ws, mc, ml);
            let (l, c, _) = feed_words(out, ws, mc, ml);
            assert(out2 == finish_line(out, ls.last(), mc, ml));
            assert(out2.len() >= l.len());
            assert(out2.take(l.len() as int) =~= l);
            assert forall|i: int, j: int| 0 <= i && j == i + 1 && j < out2.len() implies #[trigger] no_room(out2[i], out2[j], mc)
                || starts_input_line(ls, all_words(out2.take(j)).len() as int) by {
                if j < out.len() {
                    assert(out2[i] == out[i] && out2[j] == out[j]);
                    assert(out2.take(j) =~= out.take(j));
                    if !no_room(out[i], out[j], mc) {
                        lemma_starts_grow(ls, all_words(out.take(j)).len() as int);
                    }
                } else if j == out.len() {
                    assert(out2.take(j) =~= out);
                    lemma_all_words_take_count(ls);
                } else if j < l.len() {
                    assert(out2[i] == l[i] && out2[j] == l[j]);
                } else {
                    assert(out2[i] == l.last() && out2[j] == c);
                }
            }
        }
    }
}

/// Wrapping is greedy between explicit line breaks: every output line after
/// the first either begins an input line, or the line before it has no room
/// for its first word.
pub proof fn lemma_wrap_is_greedy_between_breaks(s: Seq<char>, max_chars: nat, max_lines: nat)
    ensures
        greedy_between_breaks(spec_wrap(s, max_chars, max_lines), text_lines(s), max_chars),
{
    lemma_wrap_greedy_from(text_lines(s), max_chars, max_lines);
}

} // verus!
