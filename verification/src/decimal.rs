//! Printing a double as Rust's `{}` prints an `f64`: the fewest significant digits that
//! read back as the same double, written out in full, without an exponent.
use vstd::prelude::*;
use crate::number::{
    double_text_digits, decimal_double, write_double_digits, read_decimal, magnitude, sign_set,
    nat_text, push_nat_text, SIGN_BIT, INFINITY_BITS,
};
use crate::lexer::digits_value;
use crate::source_text::{first_index, parse_u64_spec, parse_u64, find_char};
use crate::text::{
    is_digit, chars_of, push_char, push_str, drop_leading, drop_trailing, leading_run, trailing_from,
};

verus! {

/// Every character is a decimal digit.
pub open spec fn all_digits(s: Seq<char>) -> bool {
    forall|i: int| 0 <= i < s.len() ==> is_digit(#[trigger] s[i])
}

/// Digits with at most one dot: the digits without the dot, and the power of ten that
/// scales them.
pub open spec fn mantissa_parts(m: Seq<char>) -> Option<(Seq<char>, int)> {
    match first_index(m, '.', 0) {
        Some(k) => {
            let d = m.take(k) + m.skip(k + 1);
            if d.len() > 0 && all_digits(d) {
                Some((d, k + 1 - m.len()))
            } else {
                None
            }
        },
        None => if m.len() > 0 && all_digits(m) {
            Some((m, 0))
        } else {
            None
        },
    }
}

/// An exponent: an optional sign and digits, at most a million in size.
pub open spec fn exponent_part(x: Seq<char>) -> Option<int> {
    let neg = x.len() > 0 && x[0] == '-';
    let d = if neg {
        x.drop_first()
    } else {
        x
    };
    match parse_u64_spec(d) {
        Some(n) => if n <= 1_000_000 {
            Some(if neg {
                -(n as int)
            } else {
                n as int
            })
        } else {
            None
        },
        None => None,
    }
}

/// A decimal numeral without its sign, in positional or `E` notation (at most a million
/// characters): its digits and the power of ten that scales them.
pub open spec fn decimal_parts(r: Seq<char>) -> Option<(Seq<char>, int)> {
    if r.len() > 1_000_000 {
        None
    } else {
        match first_index(r, 'E', 0) {
            Some(k) => match (mantissa_parts(r.take(k)), exponent_part(r.skip(k + 1))) {
                (Some((d, e1)), Some(e2)) => Some((d, e1 + e2)),
                _ => None,
            },
            None => mantissa_parts(r),
        }
    }
}

/// `n` zeros.
pub open spec fn zeros(n: nat) -> Seq<char> {
    Seq::new(n, |i: int| '0')
}

/// The value of digits `d` times 10^`e`, written out in full: no leading or trailing zeros
/// but those that place the point, and no point for an integer.
pub open spec fn positional(d: Seq<char>, e: int) -> Seq<char> {
    let t = drop_leading(d, '0');
    let s = drop_trailing(t, '0');
    let e2 = e + (t.len() - s.len());
    if s.len() == 0 {
        seq!['0']
    } else if e2 >= 0 {
        s + zeros(e2 as nat)
    } else if s.len() > -e2 {
        s.take(s.len() + e2) + seq!['.'] + s.skip(s.len() + e2)
    } else {
        seq!['0', '.'] + zeros((-e2 - s.len()) as nat) + s
    }
}

/// 10 to the power `n`.
pub open spec fn pow10(n: nat) -> nat
    decreases n,
{
    if n == 0 {
        1
    } else {
        10 * pow10((n - 1) as nat)
    }
}

/// The double printed with 800 significant digits, more than the exact decimal expansion
/// of any double has: that expansion.
pub open spec fn exact_text(b: u64) -> Seq<char> {
    double_text_digits(b, 800)
}

/// A numeral without its leading `-`.
pub open spec fn unsigned_text(t: Seq<char>) -> Seq<char> {
    if t.len() > 0 && t[0] == '-' {
        t.drop_first()
    } else {
        t
    }
}

/// The first `p` significant digits of `d` times 10^`e`, rounded down or up, as a
/// natural number and its power of ten (all of `d` when it has no more than `p` digits).
pub open spec fn candidate(d: Seq<char>, e: int, p: nat, up: bool) -> (nat, int) {
    if d.len() <= p {
        (digits_value(d), e)
    } else {
        (digits_value(d.take(p as int)) + if up {
            1nat
        } else {
            0nat
        }, e + d.len() - p)
    }
}

/// Rounding `d` to `p` significant digits goes up: the first digit dropped is 5 or more.
pub open spec fn rounds_up(d: Seq<char>, p: nat) -> bool {
    d.len() > p && d[p as int] >= '5'
}

/// A candidate in positional notation.
pub open spec fn candidate_text(c: (nat, int)) -> Seq<char> {
    positional(nat_text(c.0), c.1)
}

/// A candidate reads back as the double whose magnitude has the bits `m`.
pub open spec fn reads_back(m: u64, c: (nat, int)) -> bool {
    decimal_double(candidate_text(c)) == Some(m)
}

/// The shortest digits that read back as the double of magnitude `m`, whose exact
/// expansion is `d` times 10^`e` (`d` without leading zeros), from `p` significant digits
/// up: at each length the nearest rounding of the expansion, else the other neighbour;
/// the whole expansion when no length up to 17 reads back.
pub open spec fn shortest_from(m: u64, d: Seq<char>, e: int, p: nat) -> Seq<char>
    decreases 18 - p,
{
    if p > 17 {
        positional(d, e)
    } else {
        let near = candidate(d, e, p, rounds_up(d, p));
        let far = candidate(d, e, p, !rounds_up(d, p));
        if reads_back(m, near) {
            candidate_text(near)
        } else if d.len() > p && reads_back(m, far) {
            candidate_text(far)
        } else {
            shortest_from(m, d, e, p + 1)
        }
    }
}

/// How Rust's `{}` prints a double: `NaN`, `inf` or `-inf`, else the shortest digits that
/// read back as the double, in positional notation, after a `-` when the sign bit is set
/// (the exact expansion as printed when it is no numeral).
pub open spec fn double_display(b: u64) -> Seq<char> {
    if magnitude(b) > INFINITY_BITS {
        "NaN"@
    } else if magnitude(b) == INFINITY_BITS {
        if sign_set(b) {
            "-inf"@
        } else {
            "inf"@
        }
    } else {
        match decimal_parts(unsigned_text(exact_text(b))) {
            Some((d, e)) => (if sign_set(b) {
                seq!['-']
            } else {
                seq![]
            }) + shortest_from(magnitude(b) as u64, drop_leading(d, '0'), e, 1),
            None => exact_text(b),
        }
    }
}

proof fn lemma_pow10_le(a: nat, b: nat)
    requires
        a <= b,
    ensures
        pow10(a) <= pow10(b),
    decreases b,
{
    if a < b {
        lemma_pow10_le(a, (b - 1) as nat);
    }
}

proof fn lemma_pow10_values()
    ensures
        pow10(1) == 10,
        pow10(17) == 100000000000000000,
        pow10(18) == 1000000000000000000,
{
    reveal_with_fuel(pow10, 19);
}

proof fn lemma_nat_text_len(n: nat, k: nat)
    requires
        1 <= k,
        n < pow10(k),
    ensures
        nat_text(n).len() <= k,
    decreases n,
{
    if n >= 10 {
        if k == 1 {
            lemma_pow10_values();
        } else {
            assert(pow10(k) == 10 * pow10((k - 1) as nat));
            lemma_nat_text_len(n / 10, (k - 1) as nat);
        }
    }
}

/// Whether `v[from..to]` is all digits.
fn digits_in(v: &Vec<char>, from: usize, to: usize) -> (r: bool)
    requires
        from <= to <= v.len(),
    ensures
        r == all_digits(v@.subrange(from as int, to as int)),
{
    let mut k = from;
    while k < to
        invariant
            from <= k <= to <= v.len(),
            forall|i: int| from <= i < k ==> is_digit(#[trigger] v@[i]),
        decreases to - k,
    {
        if !('0' <= v[k] && v[k] <= '9') {
            assert(v@.subrange(from as int, to as int)[k - from] == v@[k as int]);
            return false;
        }
        k += 1;
    }
    assert forall|i: int| 0 <= i < to - from implies is_digit(#[trigger] v@.subrange(from as int, to as int)[i]) by {
        assert(v@.subrange(from as int, to as int)[i] == v@[from + i]);
    }
    true
}

/// The digits of `v[from..to]` read as a mantissa, as `mantissa_parts` says.
fn parse_mantissa(v: &Vec<char>, from: usize, to: usize) -> (r: Option<(Vec<char>, i64)>)
    requires
        from <= to <= v.len(),
        to - from <= 1_000_000,
    ensures
        match mantissa_parts(v@.subrange(from as int, to as int)) {
            Some((d, e)) => r matches Some((d2, e2)) && d2@ == d && e2 as int == e && d.len() <= to - from && -(to - from)
                <= e <= 0,
            None => r is None,
        },
{
    let ghost m = v@.subrange(from as int, to as int);
    match find_char(v, from, to, '.') {
        Some(k) => {
            let mut d: Vec<char> = Vec::new();
            let mut i = from;
            while i < to
                invariant
                    from <= i <= to <= v.len(),
                    from <= k < to,
                    d@ == if i <= k {
                        v@.subrange(from as int, i as int)
                    } else {
                        v@.subrange(from as int, k as int) + v@.subrange(k + 1, i as int)
                    },
                decreases to - i,
            {
                if i != k {
                    d.push(v[i]);
                }
                proof {
                    if i < k {
                        assert(d@ =~= v@.subrange(from as int, i + 1));
                    } else if i == k {
                        assert(v@.subrange(k + 1, i + 1) =~= Seq::<char>::empty());
                        assert(d@ =~= v@.subrange(from as int, k as int) + v@.subrange(k + 1, i + 1));
                    } else {
                        assert(d@ =~= v@.subrange(from as int, k as int) + v@.subrange(k + 1, i + 1));
                    }
                }
                i += 1;
            }
            proof {
                assert(m.take(k - from) =~= v@.subrange(from as int, k as int));
                assert(m.skip(k - from + 1) =~= v@.subrange(k + 1, to as int));
            }
            let ok = d.len() > 0 && digits_in(&d, 0, d.len());
            assert(d@.subrange(0, d@.len() as int) =~= d@);
            if ok {
                let e: i64 = (k - from) as i64 + 1 - (to - from) as i64;
                Some((d, e))
            } else {
                None
            }
        },
        None => {
            if to > from && digits_in(v, from, to) {
                let mut d: Vec<char> = Vec::new();
                let mut i = from;
                while i < to
                    invariant
                        from <= i <= to <= v.len(),
                        d@ == v@.subrange(from as int, i as int),
                    decreases to - i,
                {
                    d.push(v[i]);
                    i += 1;
                    assert(d@ =~= v@.subrange(from as int, i as int));
                }
                Some((d, 0))
            } else {
                None
            }
        },
    }
}

/// `v[from..to]` read as an exponent, as `exponent_part` says.
fn parse_exponent(v: &Vec<char>, from: usize, to: usize) -> (r: Option<i64>)
    requires
        from <= to <= v.len(),
    ensures
        match exponent_part(v@.subrange(from as int, to as int)) {
            Some(x) => r == Some(x as i64) && -1_000_000 <= x <= 1_000_000,
            None => r is None,
        },
{
    let ghost x = v@.subrange(from as int, to as int);
    let neg = from < to && v[from] == '-';
    let start = if neg { from + 1 } else { from };
    proof {
        if neg {
            assert(x[0] == v@[from as int]);
            assert(v@.subrange(start as int, to as int) =~= x.drop_first());
        } else {
            if from < to {
                assert(x[0] == v@[from as int]);
            }
        }
    }
    match parse_u64(v, start, to) {
        Some(n) => {
            if n <= 1_000_000 {
                if neg {
                    Some(-(n as i64))
                } else {
                    Some(n as i64)
                }
            } else {
                None
            }
        },
        None => None,
    }
}

/// `v[from..]` read as a numeral, as `decimal_parts` says.
fn parse_decimal(v: &Vec<char>, from: usize) -> (r: Option<(Vec<char>, i64)>)
    requires
        from <= v.len(),
    ensures
        match decimal_parts(v@.subrange(from as int, v@.len() as int)) {
            Some((d, e)) => r matches Some((d2, e2)) && d2@ == d && e2 as int == e && d.len() <= 1_000_000 && -2_000_000
                <= e <= 1_000_000,
            None => r is None,
        },
{
    let n = v.len();
    let ghost s = v@.subrange(from as int, n as int);
    if n - from > 1_000_000 {
        return None;
    }
    match find_char(v, from, n, 'E') {
        Some(k) => {
            proof {
                assert(s.take(k - from) =~= v@.subrange(from as int, k as int));
                assert(s.skip(k - from + 1) =~= v@.subrange(k + 1, n as int));
            }
            let m = parse_mantissa(v, from, k);
            let x = parse_exponent(v, k + 1, n);
            match (m, x) {
                (Some((d, e1)), Some(e2)) => Some((d, e1 + e2)),
                _ => None,
            }
        },
        None => {
            proof {
                if n <= from {
                    assert(s =~= Seq::<char>::empty());
                }
            }
            parse_mantissa(v, from, n)
        },
    }
}

/// Appends `v[from..to]`.
fn push_range(out: &mut String, v: &Vec<char>, from: usize, to: usize)
    requires
        from <= to <= v.len(),
    ensures
        final(out)@ == old(out)@ + v@.subrange(from as int, to as int),
{
    let mut i = from;
    while i < to
        invariant
            from <= i <= to <= v.len(),
            out@ == old(out)@ + v@.subrange(from as int, i as int),
        decreases to - i,
    {
        push_char(out, v[i]);
        i += 1;
        assert(out@ =~= old(out)@ + v@.subrange(from as int, i as int));
    }
}

/// Appends `n` zeros.
fn push_zeros(out: &mut String, n: u64)
    ensures
        final(out)@ == old(out)@ + zeros(n as nat),
{
    let mut i: u64 = 0;
    while i < n
        invariant
            i <= n,
            out@ == old(out)@ + zeros(i as nat),
        decreases n - i,
    {
        push_char(out, '0');
        i += 1;
        assert(out@ =~= old(out)@ + zeros(i as nat));
    }
}

/// Appends digits `d` times 10^`e` in positional notation.
fn push_positional(out: &mut String, d: &Vec<char>, e: i64)
    requires
        d.len() <= 1_000_000,
        -3_000_000 <= e <= 3_000_000,
    ensures
        final(out)@ == old(out)@ + positional(d@, e as int),
{
    let n = d.len();
    let lead = leading_run(d, '0');
    let end = trailing_from(d, lead, n, '0');
    proof {
        assert(d@.subrange(lead as int, n as int) =~= d@.skip(lead as int));
    }
    let ghost t = drop_leading(d@, '0');
    let ghost s = drop_trailing(t, '0');
    assert(s == d@.subrange(lead as int, end as int));
    let slen = end - lead;
    let e2: i64 = e + ((n - lead) - slen) as i64;
    if slen == 0 {
        push_char(out, '0');
    } else if e2 >= 0 {
        push_range(out, d, lead, end);
        push_zeros(out, e2 as u64);
    } else {
        let k = (-e2) as usize;
        if slen > k {
            let cut = end - k;
            push_range(out, d, lead, cut);
            push_char(out, '.');
            push_range(out, d, cut, end);
            proof {
                assert(s.take(s.len() + e2) =~= d@.subrange(lead as int, cut as int));
                assert(s.skip(s.len() + e2) =~= d@.subrange(cut as int, end as int));
            }
        } else {
            push_str(out, "0.");
            push_zeros(out, (k - slen) as u64);
            push_range(out, d, lead, end);
            proof {
                reveal_strlit("0.");
            }
        }
    }
}

/// The value of the first `p` digits of `d`.
fn prefix_value(d: &Vec<char>, p: usize) -> (v: u64)
    requires
        p <= 17,
        p <= d.len(),
        all_digits(d@),
    ensures
        v as nat == digits_value(d@.take(p as int)),
        (v as nat) < pow10(p as nat),
{
    let mut v: u64 = 0;
    let mut i: usize = 0;
    assert(d@.take(0) =~= Seq::<char>::empty());
    while i < p
        invariant
            i <= p <= 17,
            p <= d.len(),
            all_digits(d@),
            v as nat == digits_value(d@.take(i as int)),
            (v as nat) < pow10(i as nat),
        decreases p - i,
    {
        proof {
            assert(d@.take(i + 1).drop_last() =~= d@.take(i as int));
            assert(is_digit(d@[i as int]));
            lemma_pow10_le((i + 1) as nat, 17);
            lemma_pow10_values();
        }
        let c = d[i] as u32 - 48;
        v = v * 10 + c as u64;
        i += 1;
    }
    v
}

/// Appends a candidate in positional notation.
fn push_candidate(out: &mut String, m: u64, f: i64)
    requires
        (m as nat) <= pow10(17),
        -3_000_000 <= f <= 3_000_000,
    ensures
        final(out)@ == old(out)@ + candidate_text((m as nat, f as int)),
{
    let mut s = String::new();
    push_nat_text(&mut s, m as u128);
    let digits = chars_of(s.as_str());
    proof {
        lemma_pow10_values();
        lemma_nat_text_len(m as nat, 18);
    }
    push_positional(out, &digits, f);
}

/// Whether a numeral reads back as the double with bits `m`.
fn reads_back_text(t: &String, m: u64) -> (r: bool)
    ensures
        r == (decimal_double(t@) == Some(m)),
{
    match read_decimal(t.as_str()) {
        Some(x) => x == m,
        None => false,
    }
}

/// The shortest digits that read back as the double of magnitude `m`, as `shortest_from`
/// says from one digit up.
fn shortest_digits(m: u64, d: &Vec<char>, e: i64) -> (t: String)
    requires
        d.len() <= 1_000_000,
        -2_000_000 <= e <= 1_000_000,
        all_digits(d@),
    ensures
        t@ == shortest_from(m, d@, e as int, 1),
{
    let n = d.len();
    let mut p: usize = 1;
    while p <= 17
        invariant
            1 <= p <= 18,
            n == d.len() <= 1_000_000,
            -2_000_000 <= e <= 1_000_000,
            all_digits(d@),
            shortest_from(m, d@, e as int, p as nat) == shortest_from(m, d@, e as int, 1),
        decreases 18 - p,
    {
        let (near, far, f): (u64, u64, i64) = if n <= p {
            proof {
                assert(d@.take(n as int) =~= d@);
                lemma_pow10_le(n as nat, 17);
            }
            let v = prefix_value(d, n);
            (v, v, e)
        } else {
            let v = prefix_value(d, p);
            proof {
                lemma_pow10_le(p as nat, 17);
                lemma_pow10_values();
            }
            let up = d[p] >= '5';
            if up {
                (v + 1, v, e + (n - p) as i64)
            } else {
                (v, v + 1, e + (n - p) as i64)
            }
        };
        let mut t = String::new();
        push_candidate(&mut t, near, f);
        assert(t@ == candidate_text(candidate(d@, e as int, p as nat, rounds_up(d@, p as nat))));
        if reads_back_text(&t, m) {
            return t;
        }
        if n > p {
            let mut t2 = String::new();
            push_candidate(&mut t2, far, f);
            assert(t2@ == candidate_text(candidate(d@, e as int, p as nat, !rounds_up(d@, p as nat))));
            if reads_back_text(&t2, m) {
                return t2;
            }
        }
        p += 1;
    }
    let mut t = String::new();
    push_positional(&mut t, d, e);
    t
}

/// How Rust's `{}` prints a double, as `double_display` says.
pub fn display_double(b: u64) -> (s: String)
    ensures
        s@ == double_display(b),
{
    let m = b % SIGN_BIT;
    if m > INFINITY_BITS {
        return "NaN".to_owned();
    }
    if m == INFINITY_BITS {
        if b >= SIGN_BIT {
            return "-inf".to_owned();
        }
        return "inf".to_owned();
    }
    let t = write_double_digits(b, 800);
    let cs = chars_of(t.as_str());
    let from: usize = if cs.len() > 0 && cs[0] == '-' { 1 } else { 0 };
    proof {
        if from == 1 {
            assert(cs@.subrange(1, cs@.len() as int) =~= t@.drop_first());
        } else {
            assert(cs@.subrange(0, cs@.len() as int) =~= t@);
        }
    }
    match parse_decimal(&cs, from) {
        Some((d0, e)) => {
            let lead = leading_run(&d0, '0');
            let mut d: Vec<char> = Vec::new();
            let mut i = lead;
            while i < d0.len()
                invariant
                    lead <= i <= d0.len(),
                    d@ == d0@.subrange(lead as int, i as int),
                decreases d0.len() - i,
            {
                d.push(d0[i]);
                i += 1;
                assert(d@ =~= d0@.subrange(lead as int, i as int));
            }
            proof {
                assert(d@ =~= d0@.skip(lead as int));
                assert forall|k: int| 0 <= k < d@.len() implies is_digit(#[trigger] d@[k]) by {
                    assert(d@[k] == d0@[lead + k]);
                }
            }
            let mut out = String::new();
            if b >= SIGN_BIT {
                push_char(&mut out, '-');
            }
            assert(out@ == if sign_set(b) { seq!['-'] } else { Seq::<char>::empty() });
            let digits = shortest_digits(m, &d, e);
            push_str(&mut out, digits.as_str());
            out
        },
        None => t,
    }
}

} // verus!
