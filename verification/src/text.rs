//! Plain-text reading and writing: characters, lines, whitespace-separated
//! words and decimal numbers, following the rules of Rust's `str::lines`,
//! `str::split_whitespace`, `str::trim`, `FromStr` for integers and
//! `Display` for integers.

use vstd::prelude::*;

verus! {

/// The characters of a string.
pub fn chars_of(s: &str) -> (r: Vec<char>)
    ensures
        r@ == s@,
{
    let mut out: Vec<char> = Vec::new();
    for c in it: s.chars()
        invariant
            it.seq() == s@,
            out@ == it.seq().take(it.index() as int),
    {
        out.push(c);
    }
    out
}

// ---------------------------------------------------------------------------
// Whitespace.

/// Unicode White_Space, as `char::is_whitespace` defines it.
pub open spec fn is_ws(c: char) -> bool {
    let u = c as u32;
    (9 <= u <= 13) || u == 32 || u == 0x85 || u == 0xA0 || u == 0x1680 || (0x2000 <= u <= 0x200A)
        || u == 0x2028 || u == 0x2029 || u == 0x202F || u == 0x205F || u == 0x3000
}

pub fn is_whitespace(c: char) -> (r: bool)
    ensures
        r == is_ws(c),
{
    let u = c as u32;
    (9 <= u && u <= 13) || u == 32 || u == 0x85 || u == 0xA0 || u == 0x1680 || (0x2000 <= u && u
        <= 0x200A) || u == 0x2028 || u == 0x2029 || u == 0x202F || u == 0x205F || u == 0x3000
}

/// Number of whitespace characters at the start of `s`.
pub open spec fn lead_ws(s: Seq<char>) -> nat
    decreases s.len(),
{
    if s.len() == 0 {
        0
    } else if is_ws(s[0]) {
        1 + lead_ws(s.drop_first())
    } else {
        0
    }
}

/// Number of non-whitespace characters at the start of `s`.
pub open spec fn lead_word(s: Seq<char>) -> nat
    decreases s.len(),
{
    if s.len() == 0 {
        0
    } else if is_ws(s[0]) {
        0
    } else {
        1 + lead_word(s.drop_first())
    }
}

/// Number of whitespace characters at the end of `s`.
pub open spec fn trail_ws(s: Seq<char>) -> nat
    decreases s.len(),
{
    if s.len() == 0 {
        0
    } else if is_ws(s.last()) {
        1 + trail_ws(s.drop_last())
    } else {
        0
    }
}

pub proof fn lemma_lead_ws(s: Seq<char>)
    ensures
        lead_ws(s) <= s.len(),
        forall|i: int| 0 <= i < lead_ws(s) ==> is_ws(#[trigger] s[i]),
        lead_ws(s) < s.len() ==> !is_ws(s[lead_ws(s) as int]),
    decreases s.len(),
{
    if s.len() > 0 && is_ws(s[0]) {
        lemma_lead_ws(s.drop_first());
        assert forall|i: int| 0 <= i < lead_ws(s) implies is_ws(#[trigger] s[i]) by {
            if i > 0 {
                assert(s[i] == s.drop_first()[i - 1]);
            }
        }
    }
}

pub proof fn lemma_lead_word(s: Seq<char>)
    ensures
        lead_word(s) <= s.len(),
        forall|i: int| 0 <= i < lead_word(s) ==> !is_ws(#[trigger] s[i]),
        lead_word(s) < s.len() ==> is_ws(s[lead_word(s) as int]),
    decreases s.len(),
{
    if s.len() > 0 && !is_ws(s[0]) {
        lemma_lead_word(s.drop_first());
        assert forall|i: int| 0 <= i < lead_word(s) implies !is_ws(#[trigger] s[i]) by {
            if i > 0 {
                assert(s[i] == s.drop_first()[i - 1]);
            }
        }
    }
}

pub proof fn lemma_trail_ws(s: Seq<char>)
    ensures
        trail_ws(s) <= s.len(),
        forall|i: int| s.len() - trail_ws(s) <= i < s.len() ==> is_ws(#[trigger] s[i]),
        trail_ws(s) < s.len() ==> !is_ws(s[s.len() - trail_ws(s) - 1]),
    decreases s.len(),
{
    if s.len() > 0 && is_ws(s.last()) {
        lemma_trail_ws(s.drop_last());
        assert forall|i: int| s.len() - trail_ws(s) <= i < s.len() implies is_ws(#[trigger] s[i]) by {
            if i < s.len() - 1 {
                assert(s[i] == s.drop_last()[i]);
            }
        }
        if trail_ws(s) < s.len() {
            assert(s[s.len() - trail_ws(s) - 1] == s.drop_last()[s.len() - trail_ws(s) - 1]);
        }
    }
}

/// `s` without leading and trailing whitespace, as `str::trim` gives it.
pub open spec fn spec_trim(s: Seq<char>) -> Seq<char> {
    let a = lead_ws(s);
    if a >= s.len() {
        Seq::empty()
    } else {
        s.subrange(a as int, s.len() - trail_ws(s))
    }
}

/// The whitespace-separated words of `s`, as `str::split_whitespace`
/// yields them.
pub open spec fn spec_words(s: Seq<char>) -> Seq<Seq<char>>
    decreases s.len(),
{
    let t = s.skip(lead_ws(s) as int);
    if lead_ws(s) >= s.len() {
        Seq::empty()
    } else {
        let n = lead_word(t);
        proof {
            lemma_lead_ws(s);
            lemma_lead_word(t);
        }
        if n == 0 {
            // not reached: the first character of `t` is not whitespace
            Seq::empty()
        } else {
            seq![t.take(n as int)] + spec_words(t.skip(n as int))
        }
    }
}

/// Index of the first character at or after `i` that is whitespace
/// (`ws == true`) or not (`ws == false`), or the length.
fn scan(s: &Vec<char>, i: usize, ws: bool) -> (j: usize)
    requires
        i <= s.len(),
    ensures
        i <= j <= s.len(),
        j - i == (if ws {
            lead_word(s@.skip(i as int))
        } else {
            lead_ws(s@.skip(i as int))
        }),
{
    let ghost t = s@.skip(i as int);
    let mut j = i;
    while j < s.len() && is_whitespace(s[j]) != ws
        invariant
            i <= j <= s.len(),
            t == s@.skip(i as int),
            j - i <= (if ws {
                lead_word(t)
            } else {
                lead_ws(t)
            }),
        decreases s.len() - j,
    {
        proof {
            assert(t[j - i] == s@[j as int]);
            if ws {
                lemma_lead_word(t);
            } else {
                lemma_lead_ws(t);
            }
        }
        j = j + 1;
    }
    proof {
        if ws {
            lemma_lead_word(t);
        } else {
            lemma_lead_ws(t);
        }
        if j < s.len() {
            assert(t[j - i] == s@[j as int]);
        }
    }
    j
}

/// The whitespace-separated words of `s`.
pub fn words(s: &Vec<char>) -> (r: Vec<Vec<char>>)
    ensures
        r@.len() == spec_words(s@).len(),
        forall|k: int| 0 <= k < r@.len() ==> (#[trigger] r@[k])@ == spec_words(s@)[k],
{
    let mut out: Vec<Vec<char>> = Vec::new();
    let ghost mut acc: Seq<Seq<char>> = Seq::empty();
    let mut i: usize = 0;
    assert(s@.skip(0) =~= s@);
    assert(acc + spec_words(s@) =~= spec_words(s@));
    while i < s.len()
        invariant
            i <= s.len(),
            out@.len() == acc.len(),
            forall|k: int| 0 <= k < out@.len() ==> (#[trigger] out@[k])@ == acc[k],
            acc + spec_words(s@.skip(i as int)) == spec_words(s@),
        decreases s.len() - i,
    {
        let a = scan(s, i, false);
        let ghost rest = s@.skip(i as int);
        if a == s.len() {
            assert(spec_words(rest) == Seq::<Seq<char>>::empty());
            assert(s@.skip(s.len() as int) =~= Seq::<char>::empty());
            assert(spec_words(Seq::<char>::empty()) =~= Seq::<Seq<char>>::empty());
            assert(acc + spec_words(s@.skip(s.len() as int)) == spec_words(s@));
            i = a;
        } else {
        let b = scan(s, a, true);
        proof {
            let t = rest.skip(lead_ws(rest) as int);
            assert(t =~= s@.skip(a as int));
            lemma_lead_ws(rest);
            assert(rest[lead_ws(rest) as int] == s@[a as int]);
            lemma_lead_word(t);
            assert(lead_word(t) > 0) by {
                assert(t[0] == s@[a as int]);
            }
        }
        let mut w: Vec<char> = Vec::new();
        let mut k = a;
        while k < b
            invariant
                a <= k <= b,
                b <= s.len(),
                w@ == s@.subrange(a as int, k as int),
            decreases b - k,
        {
            w.push(s[k]);
            k = k + 1;
            assert(w@ =~= s@.subrange(a as int, k as int));
        }
        proof {
            let t = rest.skip(lead_ws(rest) as int);
            let n = lead_word(t);
            assert(t.take(n as int) =~= w@);
            assert(t.skip(n as int) =~= s@.skip(b as int));
            acc = acc.push(w@);
            assert(acc + spec_words(s@.skip(b as int)) =~= (acc.drop_last() + spec_words(rest)));
        }
        out.push(w);
        i = b;
        }
    }
    proof {
        assert(s@.skip(s.len() as int) =~= Seq::<char>::empty());
        assert(spec_words(Seq::<char>::empty()) =~= Seq::<Seq<char>>::empty());
        assert(acc =~= spec_words(s@));
    }
    out
}

/// `s` without leading and trailing whitespace.
pub fn trim(s: &Vec<char>, from: usize, to: usize) -> (r: Vec<char>)
    requires
        from <= to <= s.len(),
    ensures
        r@ == spec_trim(s@.subrange(from as int, to as int)),
{
    let ghost u = s@.subrange(from as int, to as int);
    proof {
        lemma_lead_ws(u);
        lemma_trail_ws(u);
    }
    let mut a = from;
    while a < to && is_whitespace(s[a])
        invariant
            from <= a <= to,
            to <= s.len(),
            u == s@.subrange(from as int, to as int),
            a - from <= lead_ws(u),
        decreases to - a,
    {
        proof {
            lemma_lead_ws(u);
            assert(u[a - from] == s@[a as int]);
        }
        a = a + 1;
    }
    proof {
        lemma_lead_ws(u);
        if a < to {
            assert(u[a - from] == s@[a as int]);
        }
    }
    if a == to {
        assert(spec_trim(u) =~= Seq::<char>::empty());
        return Vec::new();
    }
    let mut b = to;
    while b > a && is_whitespace(s[b - 1])
        invariant
            a < to,
            a <= b <= to,
            to <= s.len(),
            from <= a,
            a - from == lead_ws(u),
            u == s@.subrange(from as int, to as int),
            to - b <= trail_ws(u),
        decreases b,
    {
        proof {
            lemma_trail_ws(u);
            lemma_lead_ws(u);
            assert(u[u.len() - (to - b) - 1] == s@[b - 1]);
            if to - b == trail_ws(u) {
                assert(!is_ws(u[u.len() - trail_ws(u) - 1]));
            }
            assert(u[a - from] == s@[a as int]);
        }
        b = b - 1;
    }
    proof {
        lemma_trail_ws(u);
        lemma_lead_ws(u);
        assert(u[a - from] == s@[a as int]);
        if b > a {
            assert(u[u.len() - (to - b) - 1] == s@[b - 1]);
        }
    }
    let mut r: Vec<char> = Vec::new();
    let mut k = a;
    while k < b
        invariant
            a <= k <= b,
            b <= s.len(),
            r@ == s@.subrange(a as int, k as int),
        decreases b - k,
    {
        r.push(s[k]);
        k = k + 1;
        assert(r@ =~= s@.subrange(a as int, k as int));
    }
    assert(r@ =~= spec_trim(u));
    r
}

// ---------------------------------------------------------------------------
// Lines.

/// Index of the first `'\n'` in `s`, or its length.
pub open spec fn first_newline(s: Seq<char>) -> nat
    decreases s.len(),
{
    if s.len() == 0 {
        0
    } else if s[0] == '\n' {
        0
    } else {
        1 + first_newline(s.drop_first())
    }
}

pub proof fn lemma_first_newline(s: Seq<char>)
    ensures
        first_newline(s) <= s.len(),
        forall|i: int| 0 <= i < first_newline(s) ==> #[trigger] s[i] != '\n',
        first_newline(s) < s.len() ==> s[first_newline(s) as int] == '\n',
    decreases s.len(),
{
    if s.len() > 0 && s[0] != '\n' {
        lemma_first_newline(s.drop_first());
        assert forall|i: int| 0 <= i < first_newline(s) implies #[trigger] s[i] != '\n' by {
            if i > 0 {
                assert(s[i] == s.drop_first()[i - 1]);
            }
        }
    }
}

/// A line without the `'\r'` that ends it when a `'\n'` follows.
pub open spec fn strip_cr(line: Seq<char>, ended: bool) -> Seq<char> {
    if ended && line.len() > 0 && line.last() == '\r' {
        line.drop_last()
    } else {
        line
    }
}

/// The lines of `s`, as `str::lines` yields them: split at `'\n'`, a `'\r'`
/// just before it dropped, and no empty line after a final `'\n'`.
pub open spec fn spec_lines(s: Seq<char>) -> Seq<Seq<char>>
    decreases s.len(),
{
    if s.len() == 0 {
        Seq::empty()
    } else {
        let e = first_newline(s);
        if e >= s.len() {
            seq![s]
        } else {
            seq![strip_cr(s.take(e as int), true)] + spec_lines(s.skip(e + 1int))
        }
    }
}

/// The line that starts at `i`, and where the next one starts.
pub fn next_line(s: &Vec<char>, i: usize) -> (r: (Vec<char>, usize))
    requires
        i < s.len(),
    ensures
        i < r.1 <= s.len(),
        spec_lines(s@.skip(i as int)) == seq![r.0@] + spec_lines(s@.skip(r.1 as int)),
{
    let ghost t = s@.skip(i as int);
    proof {
        lemma_first_newline(t);
    }
    let mut e = i;
    while e < s.len() && s[e] != '\n'
        invariant
            i <= e <= s.len(),
            t == s@.skip(i as int),
            e - i <= first_newline(t),
        decreases s.len() - e,
    {
        proof {
            lemma_first_newline(t);
            assert(t[e - i] == s@[e as int]);
        }
        e = e + 1;
    }
    proof {
        lemma_first_newline(t);
        if e < s.len() {
            assert(t[e - i] == s@[e as int]);
        }
    }
    let mut end = e;
    if e < s.len() && e > i && s[e - 1] == '\r' {
        end = e - 1;
    }
    let mut line: Vec<char> = Vec::new();
    let mut k = i;
    while k < end
        invariant
            i <= k <= end,
            end <= s.len(),
            line@ == s@.subrange(i as int, k as int),
        decreases end - k,
    {
        line.push(s[k]);
        k = k + 1;
        assert(line@ =~= s@.subrange(i as int, k as int));
    }
    let next = if e < s.len() {
        e + 1
    } else {
        e
    };
    proof {
        let f = first_newline(t);
        if e < s.len() {
            assert(t.take(f as int) =~= s@.subrange(i as int, e as int));
            assert(line@ =~= strip_cr(t.take(f as int), true));
            assert(t.skip(f + 1int) =~= s@.skip(next as int));
        } else {
            assert(line@ =~= t);
            assert(s@.skip(next as int) =~= Seq::<char>::empty());
            assert(spec_lines(Seq::<char>::empty()) =~= Seq::<Seq<char>>::empty());
        }
        assert(spec_lines(t) =~= seq![line@] + spec_lines(s@.skip(next as int)));
    }
    (line, next)
}

// ---------------------------------------------------------------------------
// Decimal numbers.

pub open spec fn is_digit(c: char) -> bool {
    '0' <= c <= '9'
}

pub open spec fn digit_value(c: char) -> int {
    c as int - '0' as int
}

pub open spec fn all_digits(s: Seq<char>) -> bool {
    forall|i: int| 0 <= i < s.len() ==> is_digit(#[trigger] s[i])
}

/// Value of a string of decimal digits.
pub open spec fn digits_value(s: Seq<char>) -> nat
    decreases s.len(),
{
    if s.len() == 0 {
        0
    } else {
        (digits_value(s.drop_last()) * 10 + digit_value(s.last())) as nat
    }
}

/// What parsing `s` as an unsigned integer type whose largest value is
/// `max` gives: an optional `'+'`, then at least one decimal digit and
/// nothing else, with a value up to `max`.
pub open spec fn spec_parse_unsigned(s: Seq<char>, max: nat) -> Option<nat> {
    let d = if s.len() > 0 && s[0] == '+' {
        s.drop_first()
    } else {
        s
    };
    if d.len() > 0 && all_digits(d) && digits_value(d) <= max {
        Some(digits_value(d))
    } else {
        None
    }
}

/// What parsing `s` as an `i32` gives: an optional sign, then at least one
/// decimal digit and nothing else, with a value in the range of `i32`.
pub open spec fn spec_parse_i32(s: Seq<char>) -> Option<int> {
    if s.len() > 0 && s[0] == '-' {
        let d = s.drop_first();
        if d.len() > 0 && all_digits(d) && digits_value(d) <= 0x8000_0000 {
            Some(-digits_value(d))
        } else {
            None
        }
    } else {
        match spec_parse_unsigned(s, 0x7fff_ffff) {
            Some(v) => Some(v as int),
            None => None,
        }
    }
}

proof fn lemma_digits_value_prefix(s: Seq<char>, k: int)
    requires
        0 <= k <= s.len(),
        all_digits(s),
    ensures
        digits_value(s.take(k)) <= digits_value(s),
    decreases s.len(),
{
    if k < s.len() {
        let r = s.drop_last();
        assert(all_digits(r)) by {
            assert forall|i: int| 0 <= i < r.len() implies is_digit(#[trigger] r[i]) by {
                assert(r[i] == s[i]);
            }
        }
        lemma_digits_value_prefix(r, k);
        assert(r.take(k) =~= s.take(k));
        assert(is_digit(s.last()));
    } else {
        assert(s.take(k) =~= s);
    }
}

/// Parses `s[from..]` as digits: the value if it is made of at least one
/// digit and nothing else and does not exceed `max`.
fn parse_digits(s: &Vec<char>, from: usize, max: u64) -> (r: Option<u64>)
    requires
        from <= s.len(),
        max <= 0xffff_ffff,
    ensures
        ({
            let d = s@.skip(from as int);
            match r {
                Some(v) => d.len() > 0 && all_digits(d) && digits_value(d) <= max && v == digits_value(d),
                None => !(d.len() > 0 && all_digits(d) && digits_value(d) <= max),
            }
        }),
{
    let ghost d = s@.skip(from as int);
    if from == s.len() {
        return None;
    }
    let mut v: u64 = 0;
    let mut i = from;
    while i < s.len()
        invariant
            from <= i <= s.len(),
            max <= 0xffff_ffff,
            d == s@.skip(from as int),
            all_digits(d.take(i - from)),
            v == digits_value(d.take(i - from)),
            v <= max,
        decreases s.len() - i,
    {
        let c = s[i];
        if !('0' <= c && c <= '9') {
            proof {
                assert(d[i - from] == c);
            }
            return None;
        }
        let dv = (c as u32 - '0' as u32) as u64;
        proof {
            assert(d.take(i - from + 1).drop_last() =~= d.take(i - from));
            assert(d.take(i - from + 1).last() == c);
            assert(all_digits(d.take(i - from + 1))) by {
                assert forall|k: int| 0 <= k < i - from + 1 implies is_digit(
                    #[trigger] d.take(i - from + 1)[k],
                ) by {
                    if k < i - from {
                        assert(d.take(i - from + 1)[k] == d.take(i - from)[k]);
                    }
                }
            }
        }
        let nv = v * 10 + dv;
        if nv > max {
            proof {
                if all_digits(d) {
                    lemma_digits_value_prefix(d, i - from + 1);
                }
            }
            return None;
        }
        v = nv;
        i = i + 1;
    }
    proof {
        assert(d.take(i - from) =~= d);
    }
    Some(v)
}

/// Parses an unsigned integer no larger than `max`, as `FromStr` does for
/// the unsigned integer types.
pub fn parse_unsigned(s: &Vec<char>, max: u64) -> (r: Option<u64>)
    requires
        max <= 0xffff_ffff,
    ensures
        match spec_parse_unsigned(s@, max as nat) {
            Some(v) => r == Some(v as u64),
            None => r is None,
        },
{
    let from: usize = if s.len() > 0 && s[0] == '+' {
        1
    } else {
        0
    };
    proof {
        if from == 1 {
            assert(s@.skip(1) =~= s@.drop_first());
        } else {
            assert(s@.skip(0) =~= s@);
        }
    }
    parse_digits(s, from, max)
}

/// Parses an `i32`, as `FromStr` for `i32` does.
pub fn parse_i32(s: &Vec<char>) -> (r: Option<i32>)
    ensures
        match spec_parse_i32(s@) {
            Some(v) => r == Some(v as i32),
            None => r is None,
        },
{
    if s.len() > 0 && s[0] == '-' {
        proof {
            assert(s@.skip(1) =~= s@.drop_first());
        }
        match parse_digits(s, 1, 0x8000_0000) {
            Some(v) => {
                if v == 0x8000_0000 {
                    Some(i32::MIN)
                } else {
                    Some(-(v as i32))
                }
            },
            None => None,
        }
    } else {
        match parse_unsigned(s, 0x7fff_ffff) {
            Some(v) => Some(v as i32),
            None => None,
        }
    }
}

// ---------------------------------------------------------------------------
// Writing numbers.

pub open spec fn digit_char(d: nat) -> char {
    if d == 0 {
        '0'
    } else if d == 1 {
        '1'
    } else if d == 2 {
        '2'
    } else if d == 3 {
        '3'
    } else if d == 4 {
        '4'
    } else if d == 5 {
        '5'
    } else if d == 6 {
        '6'
    } else if d == 7 {
        '7'
    } else if d == 8 {
        '8'
    } else {
        '9'
    }
}

/// Decimal digits of `n`, as `Display` writes it.
pub open spec fn fmt_nat(n: nat) -> Seq<char>
    decreases n,
{
    if n < 10 {
        seq![digit_char(n)]
    } else {
        fmt_nat(n / 10).push(digit_char(n % 10))
    }
}

/// An `i32` as `Display` writes it: a `'-'` before negative values.
pub open spec fn fmt_i32(v: i32) -> Seq<char> {
    if v < 0 {
        seq!['-'] + fmt_nat((-(v as int)) as nat)
    } else {
        fmt_nat(v as nat)
    }
}

/// Appends the decimal digits of `n`.
pub fn push_nat(out: &mut Vec<char>, n: u32)
    ensures
        final(out)@ == old(out)@ + fmt_nat(n as nat),
    decreases n,
{
    if n >= 10 {
        push_nat(out, n / 10);
    }
    let d = n % 10;
    let c = match d {
        0 => '0',
        1 => '1',
        2 => '2',
        3 => '3',
        4 => '4',
        5 => '5',
        6 => '6',
        7 => '7',
        8 => '8',
        _ => '9',
    };
    out.push(c);
    proof {
        assert(c == digit_char(d as nat));
        if n >= 10 {
            assert(fmt_nat(n as nat) == fmt_nat((n / 10) as nat).push(digit_char((n % 10) as nat)));
        }
    }
    assert(final(out)@ =~= old(out)@ + fmt_nat(n as nat));
}

/// Appends an `i32` as `Display` writes it.
pub fn push_i32(out: &mut Vec<char>, v: i32)
    ensures
        final(out)@ == old(out)@ + fmt_i32(v),
{
    if v < 0 {
        out.push('-');
        let m: u32 = if v == i32::MIN {
            0x8000_0000
        } else {
            (-v) as u32
        };
        push_nat(out, m);
        assert(final(out)@ =~= old(out)@ + fmt_i32(v));
    } else {
        push_nat(out, v as u32);
    }
}

proof fn lemma_digit_char(d: nat)
    requires
        d < 10,
    ensures
        is_digit(digit_char(d)),
        digit_value(digit_char(d)) == d,
{
}

pub proof fn lemma_fmt_nat(n: nat)
    ensures
        fmt_nat(n).len() > 0,
        all_digits(fmt_nat(n)),
        digits_value(fmt_nat(n)) == n,
    decreases n,
{
    lemma_digit_char(n % 10);
    if n < 10 {
        assert(fmt_nat(n).drop_last() =~= Seq::<char>::empty());
        assert(digits_value(fmt_nat(n)) == digits_value(Seq::<char>::empty()) * 10 + digit_value(
            digit_char(n),
        ));
    }
    if n >= 10 {
        lemma_fmt_nat(n / 10);
        let s = fmt_nat(n);
        assert(s.drop_last() =~= fmt_nat(n / 10));
        assert(s.last() == digit_char(n % 10));
        vstd::arithmetic::div_mod::lemma_fundamental_div_mod(n as int, 10);
        assert(digits_value(s) == digits_value(s.drop_last()) * 10 + digit_value(s.last()));
        assert forall|i: int| 0 <= i < s.len() implies is_digit(#[trigger] s[i]) by {
            if i < s.len() - 1 {
                assert(s[i] == fmt_nat(n / 10)[i]);
            }
        }
    }
}

/// Reading back a written number gives it again.
pub proof fn law_parse_fmt_nat(n: nat, max: nat)
    requires
        n <= max,
    ensures
        spec_parse_unsigned(fmt_nat(n), max) == Some(n),
{
    lemma_fmt_nat(n);
}

/// Reading back a written `i32` gives it again.
pub proof fn law_parse_fmt_i32(v: i32)
    ensures
        spec_parse_i32(fmt_i32(v)) == Some(v as int),
{
    if v < 0 {
        let m = (-(v as int)) as nat;
        lemma_fmt_nat(m);
        assert((seq!['-'] + fmt_nat(m)).drop_first() =~= fmt_nat(m));
    } else {
        lemma_fmt_nat(v as nat);
    }
}

} // verus!
