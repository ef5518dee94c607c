//! Reading pieces of the source text: block names, list-item numbers.
use vstd::prelude::*;
use crate::text::{is_white_space, is_whitespace, is_digit, chars_of, push_char, utf8_len_seq, utf8_len, string_from};
use crate::lexer::{digits_value, lemma_digits_value_grows, byte_offsets, byte_offset};
use crate::text::char_utf8_len;

verus! {

// ---------------------------------------------------------------------------
// Block names
// ---------------------------------------------------------------------------

/// The maximal runs of non-whitespace characters of a text, in order.
pub open spec fn words(s: Seq<char>) -> Seq<Seq<char>>
    decreases s.len(),
{
    if s.len() == 0 {
        seq![]
    } else {
        let w = words(s.drop_last());
        let c = s.last();
        if is_white_space(c) {
            w
        } else if s.len() >= 2 && !is_white_space(s[s.len() - 2]) {
            w.update(w.len() - 1, w.last().push(c))
        } else {
            w.push(seq![c])
        }
    }
}

/// Words joined by single spaces.
pub open spec fn join_words(ws: Seq<Seq<char>>) -> Seq<char>
    decreases ws.len(),
{
    if ws.len() == 0 {
        seq![]
    } else if ws.len() == 1 {
        ws[0]
    } else {
        join_words(ws.drop_last()) + seq![' '] + ws.last()
    }
}

proof fn lemma_words_nonempty(s: Seq<char>)
    requires
        s.len() > 0,
        !is_white_space(s.last()),
    ensures
        words(s).len() > 0,
    decreases s.len(),
{
    if s.len() >= 2 && !is_white_space(s[s.len() - 2]) {
        lemma_words_nonempty(s.drop_last());
    }
}

proof fn lemma_words_empty_prefix(s: Seq<char>)
    ensures
        words(s).len() == 0 <==> (forall|i: int| 0 <= i < s.len() ==> is_white_space(#[trigger] s[i])),
    decreases s.len(),
{
    if s.len() > 0 {
        lemma_words_empty_prefix(s.drop_last());
        if words(s.drop_last()).len() == 0 && is_white_space(s.last()) {
            assert forall|i: int| 0 <= i < s.len() implies is_white_space(#[trigger] s[i]) by {
                if i < s.len() - 1 {
                    assert(s[i] == s.drop_last()[i]);
                }
            }
        }
        if words(s.drop_last()).len() > 0 {
            let i = choose|i: int| 0 <= i < s.drop_last().len() && !is_white_space(s.drop_last()[i]);
            assert(s[i] == s.drop_last()[i]);
        }
    }
}

proof fn lemma_join_extend(w: Seq<Seq<char>>, c: char)
    requires
        w.len() > 0,
    ensures
        join_words(w.update(w.len() - 1, w.last().push(c))) == join_words(w).push(c),
{
    let u = w.update(w.len() - 1, w.last().push(c));
    if w.len() > 1 {
        assert(u.drop_last() =~= w.drop_last());
        assert(join_words(u) =~= join_words(w).push(c));
    }
}

proof fn lemma_join_push(w: Seq<Seq<char>>, x: Seq<char>)
    ensures
        join_words(w.push(x)) == if w.len() == 0 {
            x
        } else {
            join_words(w) + seq![' '] + x
        },
{
    assert(w.push(x).drop_last() =~= w);
}

/// Every word is non-empty and holds no whitespace.
pub open spec fn proper_words(ws: Seq<Seq<char>>) -> bool {
    forall|i: int|
        0 <= i < ws.len() ==> (#[trigger] ws[i]).len() > 0 && forall|j: int|
            0 <= j < ws[i].len() ==> !is_white_space(#[trigger] ws[i][j])
}

proof fn lemma_words_proper(s: Seq<char>)
    ensures
        proper_words(words(s)),
    decreases s.len(),
{
    if s.len() > 0 {
        lemma_words_proper(s.drop_last());
        let w = words(s.drop_last());
        let c = s.last();
        if !is_white_space(c) {
            if s.len() >= 2 && !is_white_space(s[s.len() - 2]) {
                assert(s.drop_last().last() == s[s.len() - 2]);
                lemma_words_nonempty(s.drop_last());
                let u = w.update(w.len() - 1, w.last().push(c));
                assert forall|i: int| 0 <= i < u.len() implies (#[trigger] u[i]).len() > 0 && forall|j: int|
                    0 <= j < u[i].len() ==> !is_white_space(#[trigger] u[i][j]) by {
                    if i < w.len() - 1 {
                        assert(u[i] == w[i]);
                    } else {
                        assert(u[i] == w.last().push(c));
                        assert forall|j: int| 0 <= j < u[i].len() implies !is_white_space(#[trigger] u[i][j]) by {
                            if j < w.last().len() {
                                assert(u[i][j] == w[w.len() - 1][j]);
                            }
                        }
                    }
                }
            } else {
                let u = w.push(seq![c]);
                assert forall|i: int| 0 <= i < u.len() implies (#[trigger] u[i]).len() > 0 && forall|j: int|
                    0 <= j < u[i].len() ==> !is_white_space(#[trigger] u[i][j]) by {
                    if i < w.len() {
                        assert(u[i] == w[i]);
                    }
                }
            }
        }
    }
}

proof fn lemma_words_append_word(x: Seq<char>, w: Seq<char>)
    requires
        w.len() > 0,
        forall|j: int| 0 <= j < w.len() ==> !is_white_space(#[trigger] w[j]),
        x.len() == 0 || is_white_space(x.last()),
    ensures
        words(x + w) == words(x).push(w),
    decreases w.len(),
{
    let s = x + w;
    let c = w.last();
    assert(!is_white_space(w[w.len() - 1]));
    if w.len() == 1 {
        assert(s.drop_last() =~= x);
        assert(s.last() == w[0]);
        assert(w =~= seq![w[0]]);
        if s.len() >= 2 {
            assert(s[s.len() - 2] == x.last());
        }
        assert(words(s) == words(s.drop_last()).push(seq![s.last()]));
        assert(words(s) =~= words(x).push(w));
    } else {
        let v = w.drop_last();
        assert forall|j: int| 0 <= j < v.len() implies !is_white_space(#[trigger] v[j]) by {
            assert(v[j] == w[j]);
        }
        lemma_words_append_word(x, v);
        assert(s.drop_last() =~= x + v);
        assert(s[s.len() - 2] == v.last());
        assert(!is_white_space(v[v.len() - 1]));
        assert(words(s) =~= words(x).push(v).update(words(x).len() as int, v.push(c)));
        assert(v.push(c) =~= w);
        assert(words(s) =~= words(x).push(w));
    }
}

proof fn lemma_words_of_join(ws: Seq<Seq<char>>)
    requires
        proper_words(ws),
    ensures
        words(join_words(ws)) == ws,
    decreases ws.len(),
{
    if ws.len() == 0 {
        assert(words(Seq::<char>::empty()) =~= ws);
    } else if ws.len() == 1 {
        assert(ws[0].len() > 0);
        lemma_words_append_word(seq![], ws[0]);
        assert(Seq::<char>::empty() + ws[0] =~= ws[0]);
        assert(words(Seq::<char>::empty()) =~= Seq::<Seq<char>>::empty());
        assert(Seq::<Seq<char>>::empty().push(ws[0]) =~= ws);
    } else {
        let init = ws.drop_last();
        assert forall|i: int| 0 <= i < init.len() implies (#[trigger] init[i]).len() > 0 && forall|j: int|
            0 <= j < init[i].len() ==> !is_white_space(#[trigger] init[i][j]) by {
            assert(init[i] == ws[i]);
        }
        lemma_words_of_join(init);
        let j = join_words(init);
        let xs = j.push(' ');
        assert(xs.drop_last() =~= j);
        assert(words(xs) == words(j));
        assert(ws.last() == ws[ws.len() - 1]);
        lemma_words_append_word(xs, ws.last());
        assert(join_words(ws) =~= xs + ws.last());
        assert(init.push(ws.last()) =~= ws);
    }
}

/// Normalizing a block name twice gives what normalizing it once gives.
pub proof fn law_normalize_idempotent(s: Seq<char>)
    ensures
        join_words(words(join_words(words(s)))) == join_words(words(s)),
{
    lemma_words_proper(s);
    lemma_words_of_join(words(s));
}

/// Strips leading and trailing whitespace and collapses each inner run of whitespace into
/// one space.
pub fn normalize_block_name(name: &str) -> (r: String)
    ensures
        r@ == join_words(words(name@)),
{
    let cs = chars_of(name);
    let n = cs.len();
    let mut out = String::new();
    let mut any_word = false;
    let mut i: usize = 0;
    assert(cs@.take(0) =~= Seq::<char>::empty());
    while i < n
        invariant
            i <= n == cs@.len(),
            cs@ == name@,
            out@ == join_words(words(cs@.take(i as int))),
            any_word == (words(cs@.take(i as int)).len() > 0),
        decreases n - i,
    {
        let c = cs[i];
        let ghost pre = cs@.take(i as int);
        let ghost next = cs@.take(i + 1);
        assert(next.drop_last() =~= pre);
        assert(next.last() == c);
        if is_whitespace(c) {
        } else if i > 0 && !is_whitespace(cs[i - 1]) {
            proof {
                assert(next[next.len() - 2] == cs@[i - 1]);
                assert(pre.last() == cs@[i - 1]);
                lemma_words_nonempty(pre);
                lemma_join_extend(words(pre), c);
            }
            push_char(&mut out, c);
        } else {
            proof {
                if i > 0 {
                    assert(next[next.len() - 2] == cs@[i - 1]);
                }
                lemma_join_push(words(pre), seq![c]);
            }
            if any_word {
                push_char(&mut out, ' ');
            }
            push_char(&mut out, c);
            any_word = true;
            proof {
                if words(pre).len() == 0 {
                    assert(out@ =~= seq![c]);
                } else {
                    assert(out@ =~= join_words(words(pre)) + seq![' '] + seq![c]);
                }
            }
        }
        i += 1;
    }
    assert(cs@.take(n as int) =~= cs@);
    out
}

// ---------------------------------------------------------------------------
// List-item numbers
// ---------------------------------------------------------------------------

/// The index of the first non-whitespace character, or the length.
pub open spec fn trim_start_index(t: Seq<char>, i: int) -> int
    decreases t.len() - i,
{
    if i >= t.len() || i < 0 {
        t.len() as int
    } else if is_white_space(t[i]) {
        trim_start_index(t, i + 1)
    } else {
        i
    }
}

/// One past the index of the last non-whitespace character before `j`, or 0.
pub open spec fn trim_end_index(t: Seq<char>, j: int) -> int
    decreases j,
{
    if j <= 0 {
        0
    } else if is_white_space(t[j - 1]) {
        trim_end_index(t, j - 1)
    } else {
        j
    }
}

/// A text without its leading and trailing whitespace.
pub open spec fn trimmed(t: Seq<char>) -> Seq<char> {
    let a = trim_start_index(t, 0);
    let b = trim_end_index(t, t.len() as int);
    if a >= b {
        seq![]
    } else {
        t.subrange(a, b)
    }
}

/// The index of the first occurrence of `c` in `t`.
pub open spec fn first_index(t: Seq<char>, c: char, i: int) -> Option<int>
    decreases t.len() - i,
{
    if i >= t.len() || i < 0 {
        None
    } else if t[i] == c {
        Some(i)
    } else {
        first_index(t, c, i + 1)
    }
}

/// A text without its leading `+`, if it has one.
pub open spec fn strip_plus(s: Seq<char>) -> Seq<char> {
    if s.len() > 0 && s[0] == '+' {
        s.drop_first()
    } else {
        s
    }
}

/// The value of a run of decimal digits that fits in a `u64`.
pub open spec fn u64_digits(d: Seq<char>) -> Option<u64> {
    if d.len() > 0 && (forall|i: int| 0 <= i < d.len() ==> is_digit(#[trigger] d[i]))
        && digits_value(d) <= u64::MAX {
        Some(digits_value(d) as u64)
    } else {
        None
    }
}

/// What `u64::from_str` reads: an optional `+` and at least one decimal digit, with a
/// value that fits.
pub open spec fn parse_u64_spec(s: Seq<char>) -> Option<u64> {
    u64_digits(strip_plus(s))
}

/// The number of a list marker such as `1. ` or `  2) `: the trimmed text up to its first
/// `.` (else up to its first `)`) read as a `u64`.
pub open spec fn list_marker_spec(text: Seq<char>) -> Option<u64> {
    let t = trimmed(text);
    let by_dot = match first_index(t, '.', 0) {
        Some(p) => parse_u64_spec(t.take(p)),
        None => None,
    };
    match by_dot {
        Some(n) => Some(n),
        None => match first_index(t, ')', 0) {
            Some(p) => parse_u64_spec(t.take(p)),
            None => None,
        },
    }
}

/// One past the last newline before `k`, or 0.
pub open spec fn line_start(cs: Seq<char>, k: int) -> int
    decreases k,
{
    if k <= 0 {
        0
    } else if cs[k - 1] == '\n' {
        k
    } else {
        line_start(cs, k - 1)
    }
}

/// The first newline at or after `k`, or the end.
pub open spec fn line_end(cs: Seq<char>, k: int) -> int
    decreases cs.len() - k,
{
    if k >= cs.len() || k < 0 {
        cs.len() as int
    } else if cs[k] == '\n' {
        k
    } else {
        line_end(cs, k + 1)
    }
}

/// The number of the list item whose content starts at character `k`: the marker between
/// the start of its line and `k`, else the marker from `k` to the end of its line, else 1.
pub open spec fn item_number_spec(cs: Seq<char>, k: int) -> u64 {
    match list_marker_spec(cs.subrange(line_start(cs, k), k)) {
        Some(n) => n,
        None => match list_marker_spec(cs.subrange(k, line_end(cs, k))) {
            Some(n) => n,
            None => 1,
        },
    }
}

proof fn lemma_index_bounds(t: Seq<char>, i: int, j: int, c: char)
    requires
        0 <= i <= t.len(),
        0 <= j <= t.len(),
    ensures
        i <= trim_start_index(t, i) <= t.len(),
        0 <= trim_end_index(t, j) <= j,
        match first_index(t, c, i) {
            Some(p) => i <= p < t.len() && t[p] == c && forall|q: int| i <= q < p ==> t[q] != c,
            None => forall|q: int| i <= q < t.len() ==> t[q] != c,
        },
    decreases t.len() - i + j,
{
    if i < t.len() {
        lemma_index_bounds(t, i + 1, j, c);
    }
    if j > 0 {
        lemma_index_bounds(t, i, j - 1, c);
    }
}

proof fn lemma_line_bounds(cs: Seq<char>, k: int)
    requires
        0 <= k <= cs.len(),
    ensures
        0 <= line_start(cs, k) <= k,
        k <= line_end(cs, k) <= cs.len(),
    decreases cs.len() - k + k,
{
    if k > 0 {
        lemma_line_bounds_start(cs, k);
    }
    lemma_line_bounds_end(cs, k);
}

proof fn lemma_line_bounds_start(cs: Seq<char>, k: int)
    requires
        0 <= k <= cs.len(),
    ensures
        0 <= line_start(cs, k) <= k,
    decreases k,
{
    if k > 0 {
        lemma_line_bounds_start(cs, k - 1);
    }
}

proof fn lemma_line_bounds_end(cs: Seq<char>, k: int)
    requires
        0 <= k <= cs.len(),
    ensures
        k <= line_end(cs, k) <= cs.len(),
    decreases cs.len() - k,
{
    if k < cs.len() {
        lemma_line_bounds_end(cs, k + 1);
    }
}

/// Reads `t` as `u64::from_str` does.
pub(crate) fn parse_u64(t: &Vec<char>, from: usize, to: usize) -> (r: Option<u64>)
    requires
        from <= to <= t.len(),
    ensures
        r == parse_u64_spec(t@.subrange(from as int, to as int)),
{
    let ghost s = t@.subrange(from as int, to as int);
    let mut k = from;
    if k < to && t[k] == '+' {
        k += 1;
    }
    let ghost d = t@.subrange(k as int, to as int);
    assert(from < to && t@[from as int] == '+' ==> d =~= s.drop_first());
    assert(!(from < to && t@[from as int] == '+') ==> d =~= s);
    assert(d == strip_plus(s));
    if k == to {
        return None;
    }
    let start = k;
    let mut v: u64 = 0;
    while k < to
        invariant
            start <= k <= to <= t.len(),
            start < to,
            d == t@.subrange(start as int, to as int),
            d == strip_plus(s),
            s == t@.subrange(from as int, to as int),
            forall|m: int| start <= m < k ==> is_digit(#[trigger] t@[m]),
            v == digits_value(d.take(k - start)),
        decreases to - k,
    {
        assert(d.take(k + 1 - start).drop_last() =~= d.take(k - start));
        assert(d.take(k + 1 - start).last() == t@[k as int]);
        let c = t[k];
        if !('0' <= c && c <= '9') {
            assert(!is_digit(d[k - start]));
            assert(u64_digits(d) is None);
            return None;
        }
        let dv = (c as u32 - 48) as u64;
        if v > (u64::MAX - dv) / 10 {
            proof {
                assert(v * 10 + dv > u64::MAX) by (nonlinear_arith)
                    requires
                        v > (u64::MAX - dv) / 10,
                        dv < 10,
                ;
                assert(digits_value(d.take(k + 1 - start)) == v * 10 + dv);
                if forall|q: int| 0 <= q < d.len() ==> is_digit(#[trigger] d[q]) {
                    lemma_digits_value_grows(d, k + 1 - start);
                }
                assert(u64_digits(d) is None);
            }
            return None;
        }
        assert(v * 10 + dv <= u64::MAX) by (nonlinear_arith)
            requires
                v <= (u64::MAX - dv) / 10,
                dv < 10,
        ;
        v = v * 10 + dv;
        k += 1;
    }
    assert(d.take(to - start) =~= d);
    assert forall|q: int| 0 <= q < d.len() implies is_digit(#[trigger] d[q]) by {
        assert(d[q] == t@[start + q]);
    }
    Some(v)
}

/// Reads a list item number from text such as `1. ` or `  2) `.
pub fn parse_list_marker(text: &str) -> (r: Option<u64>)
    ensures
        r == list_marker_spec(text@),
{
    let cs = chars_of(text);
    assert(cs@.subrange(0, cs@.len() as int) =~= text@);
    marker_in(&cs, 0, cs.len())
}

/// The bounds of `cs[from..to]` without its leading and trailing whitespace.
fn trim_bounds(cs: &Vec<char>, from: usize, to: usize) -> (r: (usize, usize))
    requires
        from <= to <= cs.len(),
    ensures
        from <= r.0 <= r.1 <= to,
        trimmed(cs@.subrange(from as int, to as int)) == cs@.subrange(r.0 as int, r.1 as int),
{
    let ghost t = cs@.subrange(from as int, to as int);
    let mut a = from;
    while a < to && is_whitespace(cs[a])
        invariant
            from <= a <= to <= cs.len(),
            t == cs@.subrange(from as int, to as int),
            trim_start_index(t, a - from) == trim_start_index(t, 0),
        decreases to - a,
    {
        assert(t[a - from] == cs@[a as int]);
        a += 1;
    }
    proof {
        if a < to {
            assert(t[a - from] == cs@[a as int]);
        }
    }
    assert(trim_start_index(t, 0) == a - from);
    let mut b = to;
    while b > a && is_whitespace(cs[b - 1])
        invariant
            from <= a <= b <= to <= cs.len(),
            t == cs@.subrange(from as int, to as int),
            trim_end_index(t, b - from) == trim_end_index(t, t.len() as int),
        decreases b,
    {
        assert(t[b - 1 - from] == cs@[b - 1]);
        b -= 1;
    }
    proof {
        if b > a {
            assert(t[b - 1 - from] == cs@[b - 1]);
            assert(trim_end_index(t, b - from) == b - from);
            assert(trimmed(t) =~= cs@.subrange(a as int, b as int));
        } else {
            lemma_index_bounds(t, 0, b - from, '.');
            assert(cs@.subrange(a as int, b as int) =~= Seq::<char>::empty());
        }
    }
    (a, b)
}

/// A text without its leading and trailing whitespace.
pub fn trim(s: &str) -> (r: String)
    ensures
        r@ == trimmed(s@),
{
    let cs = chars_of(s);
    assert(cs@.subrange(0, cs@.len() as int) =~= s@);
    let (a, b) = trim_bounds(&cs, 0, cs.len());
    string_from(&cs, a, b)
}

/// The list marker of `cs[from..to]`.
fn marker_in(cs: &Vec<char>, from: usize, to: usize) -> (r: Option<u64>)
    requires
        from <= to <= cs.len(),
    ensures
        r == list_marker_spec(cs@.subrange(from as int, to as int)),
{
    let ghost t = cs@.subrange(from as int, to as int);
    let (a, b) = trim_bounds(cs, from, to);
    let ghost tt = trimmed(t);
    let by_dot = match find_char(cs, a, b, '.') {
        Some(p) => {
            assert(cs@.subrange(a as int, p as int) =~= tt.take(p - a));
            parse_u64(cs, a, p)
        },
        None => None,
    };
    proof {
        lemma_index_bounds(tt, 0, 0, '.');
        lemma_index_bounds(tt, 0, 0, ')');
    }
    if by_dot.is_some() {
        return by_dot;
    }
    match find_char(cs, a, b, ')') {
        Some(p) => {
            assert(cs@.subrange(a as int, p as int) =~= tt.take(p - a));
            parse_u64(cs, a, p)
        },
        None => None,
    }
}

/// The first index in `from..to` that holds `c`.
pub(crate) fn find_char(cs: &Vec<char>, from: usize, to: usize, c: char) -> (r: Option<usize>)
    requires
        from <= to <= cs.len(),
    ensures
        match r {
            Some(p) => from <= p < to && cs@[p as int] == c && (to > from ==> first_index(
                cs@.subrange(from as int, to as int),
                c,
                0,
            ) == Some(p - from)),
            None => to <= from || first_index(cs@.subrange(from as int, to as int), c, 0) is None,
        },
{
    let ghost t = cs@.subrange(from as int, to as int);
    let mut p = from;
    while p < to
        invariant
            from <= p <= to <= cs.len(),
            t == cs@.subrange(from as int, to as int),
            first_index(t, c, p - from) == first_index(t, c, 0),
        decreases to - p,
    {
        assert(t[p - from] == cs@[p as int]);
        if cs[p] == c {
            return Some(p);
        }
        p += 1;
    }
    None
}

/// Finds the number of the list item whose content or marker starts at byte `item_start`
/// of the source: the marker between the start of the line and `item_start`, else the one
/// from `item_start` to the end of the line, else 1.
pub fn extract_item_number(source: &str, item_start: usize) -> (r: u64)
    ensures
        forall|k: int|
            0 <= k <= source@.len() && utf8_len_seq(source@.take(k)) == item_start ==> r
                == item_number_spec(source@, k),
        (forall|k: int|
            0 <= k <= source@.len() ==> utf8_len_seq(#[trigger] source@.take(k)) != item_start)
            ==> r == 1,
{
    let cs = chars_of(source);
    let found = char_index_at(&cs, item_start);
    let k = match found {
        Some(k) => k,
        None => {
            return 1;
        },
    };
    proof {
        assert forall|m: int| 0 <= m <= source@.len() && utf8_len_seq(source@.take(m)) == item_start implies m == k by {
            if m < k {
                lemma_prefix_strict(source@, m, k as int);
            } else if m > k {
                lemma_prefix_strict(source@, k as int, m);
            }
        }
        lemma_line_bounds(cs@, k as int);
    }
    let ls = line_start_of(&cs, k);
    let n1 = marker_in(&cs, ls, k);
    if let Some(n) = n1 {
        return n;
    }
    let le = line_end_of(&cs, k);
    match marker_in(&cs, k, le) {
        Some(n) => n,
        None => 1,
    }
}

/// The index of the character that starts at byte `offset`, if one does (the end counts).
fn char_index_at(cs: &Vec<char>, offset: usize) -> (r: Option<usize>)
    ensures
        match r {
            Some(k) => k <= cs@.len() && utf8_len_seq(cs@.take(k as int)) == offset,
            None => forall|m: int| 0 <= m <= cs@.len() ==> utf8_len_seq(#[trigger] cs@.take(m)) != offset,
        },
{
    let mut total: u128 = 0;
    let mut k: usize = 0;
    assert(cs@.take(0) =~= Seq::<char>::empty());
    while k < cs.len()
        invariant
            k <= cs.len(),
            total == utf8_len_seq(cs@.take(k as int)),
            total <= 4 * k,
            forall|m: int| 0 <= m < k ==> utf8_len_seq(#[trigger] cs@.take(m)) != offset,
        decreases cs.len() - k,
    {
        if total == offset as u128 {
            return Some(k);
        }
        assert(cs@.take(k + 1).drop_last() =~= cs@.take(k as int));
        total = total + char_utf8_len(cs[k]) as u128;
        k += 1;
    }
    if total == offset as u128 {
        return Some(k);
    }
    None
}

proof fn lemma_prefix_len(s: Seq<char>, k: int)
    requires
        0 <= k <= s.len(),
    ensures
        utf8_len_seq(s.take(k)) <= utf8_len_seq(s),
    decreases s.len() - k,
{
    if k < s.len() {
        lemma_prefix_len(s, k + 1);
        assert(s.take(k + 1).drop_last() =~= s.take(k));
    } else {
        assert(s.take(k) =~= s);
    }
}

proof fn lemma_prefix_strict(s: Seq<char>, a: int, b: int)
    requires
        0 <= a < b <= s.len(),
    ensures
        utf8_len_seq(s.take(a)) < utf8_len_seq(s.take(b)),
    decreases b - a,
{
    assert(s.take(b).drop_last() =~= s.take(b - 1));
    if a < b - 1 {
        lemma_prefix_strict(s, a, b - 1);
    }
}

fn line_start_of(cs: &Vec<char>, k: usize) -> (r: usize)
    requires
        k <= cs.len(),
    ensures
        r == line_start(cs@, k as int),
{
    let mut j = k;
    while j > 0 && cs[j - 1] != '\n'
        invariant
            j <= k <= cs.len(),
            line_start(cs@, j as int) == line_start(cs@, k as int),
        decreases j,
    {
        j -= 1;
    }
    j
}

fn line_end_of(cs: &Vec<char>, k: usize) -> (r: usize)
    requires
        k <= cs.len(),
    ensures
        r == line_end(cs@, k as int),
{
    let mut j = k;
    while j < cs.len() && cs[j] != '\n'
        invariant
            k <= j <= cs.len(),
            line_end(cs@, j as int) == line_end(cs@, k as int),
        decreases cs.len() - j,
    {
        j += 1;
    }
    j
}

} // verus!
