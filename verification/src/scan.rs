//! Scanning plain text: lines, whitespace-separated words, a leading keyword,
//! unsigned decimal numbers, and joining words back together.
use vstd::prelude::*;
use crate::text::{decimal, digit_char, digit_value, is_ascii_digit, is_digit, is_whitespace, is_ws};

verus! {

/// The deep view of a list of character vectors.
pub open spec fn views(v: Seq<Vec<char>>) -> Seq<Seq<char>> {
    v.map_values(|x: Vec<char>| x@)
}

/// `s` cut at every line feed. A carriage return before a line feed stays at
/// the end of its line; it is whitespace, so words and leading keywords read
/// the same as when it is removed. A text that ends with a line feed gives a
/// last line that is empty, which holds no word.
pub open spec fn split_lines(s: Seq<char>) -> Seq<Seq<char>>
    decreases s.len(),
{
    if s.len() == 0 {
        seq![Seq::empty()]
    } else {
        let p = split_lines(s.drop_last());
        if s.last() == '\n' {
            p.push(Seq::empty())
        } else {
            p.update(p.len() - 1, p.last().push(s.last()))
        }
    }
}

/// The maximal runs of non-whitespace characters of `s`, in order: what
/// `str::split_whitespace` yields.
pub open spec fn words(s: Seq<char>) -> Seq<Seq<char>>
    decreases s.len(),
{
    if s.len() == 0 {
        Seq::empty()
    } else {
        let p = words(s.drop_last());
        let c = s.last();
        if is_ws(c) {
            p
        } else if s.len() > 1 && !is_ws(s[s.len() - 2]) {
            p.update(p.len() - 1, p.last().push(c))
        } else {
            p.push(seq![c])
        }
    }
}

/// The number of whitespace characters at the start of `s`.
pub open spec fn leading_ws(s: Seq<char>) -> nat
    decreases s.len(),
{
    if s.len() == 0 {
        0
    } else if is_ws(s[0]) {
        1 + leading_ws(s.drop_first())
    } else {
        0
    }
}

/// `s` without its leading whitespace: what `str::trim_start` yields.
pub open spec fn trim_start(s: Seq<char>) -> Seq<char> {
    s.skip(leading_ws(s) as int)
}

/// The value of a string of decimal digits.
pub open spec fn digits_value(s: Seq<char>) -> nat
    decreases s.len(),
{
    if s.len() == 0 {
        0
    } else {
        digits_value(s.drop_last()) * 10 + digit_value(s.last())
    }
}

pub open spec fn all_digits(s: Seq<char>) -> bool {
    forall|i: int| 0 <= i < s.len() ==> is_digit(#[trigger] s[i])
}

/// What `str::parse::<u64>` accepts: an optional `+` and then one or more
/// decimal digits whose value fits in `u64`.
pub open spec fn parse_u64(s: Seq<char>) -> Option<u64> {
    let body = number_body(s);
    if body.len() > 0 && all_digits(body) && digits_value(body) <= u64::MAX {
        Some(digits_value(body) as u64)
    } else {
        None
    }
}

/// `s` without one leading `+`.
pub open spec fn number_body(s: Seq<char>) -> Seq<char> {
    if s.len() > 0 && s[0] == '+' {
        s.drop_first()
    } else {
        s
    }
}

/// The number `s` holds, or zero when it is not one.
pub open spec fn number_or_zero(s: Seq<char>) -> u64 {
    match parse_u64(s) {
        Some(v) => v,
        None => 0,
    }
}

/// The words of `ws` separated by single spaces.
pub open spec fn join_words(ws: Seq<Seq<char>>) -> Seq<char>
    decreases ws.len(),
{
    if ws.len() == 0 {
        Seq::empty()
    } else if ws.len() == 1 {
        ws[0]
    } else {
        join_words(ws.drop_last()) + seq![' '] + ws.last()
    }
}

proof fn lemma_split_lines_nonempty(s: Seq<char>)
    ensures
        split_lines(s).len() >= 1,
    decreases s.len(),
{
    if s.len() > 0 {
        lemma_split_lines_nonempty(s.drop_last());
    }
}

/// The lines of `text`.
pub fn lines_of(text: &Vec<char>) -> (lines: Vec<Vec<char>>)
    ensures
        views(lines@) == split_lines(text@),
{
    let n = text.len();
    let mut lines: Vec<Vec<char>> = Vec::new();
    let mut cur: Vec<char> = Vec::new();
    for i in 0..n
        invariant
            n == text@.len(),
            views(lines@).push(cur@) == split_lines(text@.take(i as int)),
    {
        let c = text[i];
        let ghost before = text@.take(i as int);
        assert(text@.take(i + 1).drop_last() =~= before);
        assert(text@.take(i + 1).last() == c);
        proof {
            lemma_split_lines_nonempty(before);
        }
        if c == '\n' {
            lines.push(cur);
            cur = Vec::new();
            assert(views(lines@).push(cur@) =~= split_lines(text@.take(i + 1)));
        } else {
            cur.push(c);
            assert(views(lines@).push(cur@) =~= split_lines(text@.take(i + 1)));
        }
    }
    assert(text@.take(n as int) =~= text@);
    lines.push(cur);
    assert(views(lines@) =~= split_lines(text@));
    lines
}

/// The words of `line`.
pub fn words_of(line: &Vec<char>) -> (ws: Vec<Vec<char>>)
    ensures
        views(ws@) == words(line@),
{
    let n = line.len();
    let mut ws: Vec<Vec<char>> = Vec::new();
    let mut cur: Vec<char> = Vec::new();
    for i in 0..n
        invariant
            n == line@.len(),
            cur@.len() > 0 <==> (i > 0 && !is_ws(line@[i - 1])),
            cur@.len() > 0 ==> words(line@.take(i as int)) == views(ws@).push(cur@),
            cur@.len() == 0 ==> words(line@.take(i as int)) == views(ws@),
    {
        let c = line[i];
        let ghost before = line@.take(i as int);
        assert(line@.take(i + 1).drop_last() =~= before);
        assert(line@.take(i + 1).last() == c);
        if i > 0 {
            assert(line@.take(i + 1)[i - 1] == line@[i - 1]);
        }
        if is_whitespace(c) {
            if cur.len() > 0 {
                ws.push(cur);
                cur = Vec::new();
            }
            assert(views(ws@) =~~= words(line@.take(i + 1)));
        } else {
            cur.push(c);
            assert(views(ws@).push(cur@) =~~= words(line@.take(i + 1)));
        }
    }
    assert(line@.take(n as int) =~= line@);
    if cur.len() > 0 {
        ws.push(cur);
    }
    assert(views(ws@) =~= words(line@));
    ws
}

proof fn lemma_leading_ws(s: Seq<char>, k: int)
    requires
        0 <= k <= s.len(),
        forall|j: int| 0 <= j < k ==> is_ws(s[j]),
        k == s.len() || !is_ws(s[k]),
    ensures
        leading_ws(s) == k,
    decreases s.len(),
{
    if s.len() > 0 && k > 0 {
        let rest = s.drop_first();
        assert forall|j: int| 0 <= j < k - 1 implies is_ws(rest[j]) by {
            assert(rest[j] == s[j + 1]);
        }
        if k < s.len() {
            assert(rest[k - 1] == s[k]);
        }
        lemma_leading_ws(rest, k - 1);
    }
}

/// Whether `line`, once its leading whitespace is removed, starts with
/// `keyword`.
pub fn starts_with_after_blanks(line: &Vec<char>, keyword: &[char]) -> (b: bool)
    ensures
        b == keyword@.is_prefix_of(trim_start(line@)),
{
    let n = line.len();
    let mut k: usize = 0;
    while k < n && is_whitespace(line[k])
        invariant
            n == line@.len(),
            k <= n,
            forall|j: int| 0 <= j < k ==> is_ws(line@[j]),
        decreases n - k,
    {
        k = k + 1;
    }
    proof {
        lemma_leading_ws(line@, k as int);
    }
    let ghost rest = trim_start(line@);
    assert(rest =~= line@.skip(k as int));
    let m = keyword.len();
    if m > n - k {
        return false;
    }
    for j in 0..m
        invariant
            m == keyword@.len(),
            k + m <= n,
            n == line@.len(),
            rest == trim_start(line@),
            rest =~= line@.skip(k as int),
            forall|t: int| 0 <= t < j ==> keyword@[t] == rest[t],
    {
        if keyword[j] != line[k + j] {
            assert(rest.subrange(0, m as int)[j as int] != keyword@[j as int]);
            return false;
        }
    }
    assert(rest.subrange(0, m as int) =~= keyword@);
    true
}

/// A digit character reads back as the digit it writes.
pub proof fn lemma_digit_char(d: nat)
    requires
        d < 10,
    ensures
        digit_value(digit_char(d)) == d,
        is_digit(digit_char(d)),
{
}

/// The decimal writing of `n` is made of digits only and reads back as `n`.
pub proof fn lemma_decimal_value(n: nat)
    ensures
        decimal(n).len() >= 1,
        digits_value(decimal(n)) == n,
        forall|i: int| 0 <= i < decimal(n).len() ==> is_digit(#[trigger] decimal(n)[i]),
    decreases n,
{
    lemma_digit_char(n % 10);
    if n < 10 {
        assert(decimal(n).drop_last() =~= Seq::<char>::empty());
        assert(digits_value(decimal(n)) == digits_value(Seq::<char>::empty()) * 10 + digit_value(
            digit_char(n),
        ));
    } else {
        lemma_decimal_value(n / 10);
        let s = decimal(n);
        assert(s.drop_last() =~= decimal(n / 10));
        assert(s.last() == digit_char(n % 10));
        assert(digits_value(s) == digits_value(decimal(n / 10)) * 10 + digit_value(
            digit_char(n % 10),
        ));
        assert forall|i: int| 0 <= i < s.len() implies is_digit(#[trigger] s[i]) by {
            if i < s.len() - 1 {
                assert(s[i] == decimal(n / 10)[i]);
            }
        }
    }
}

proof fn lemma_digits_value_prefix(s: Seq<char>, k: int)
    requires
        0 <= k <= s.len(),
    ensures
        digits_value(s.take(k)) <= digits_value(s),
    decreases s.len() - k,
{
    if k < s.len() {
        lemma_digits_value_prefix(s, k + 1);
        assert(s.take(k + 1).drop_last() =~= s.take(k));
    } else {
        assert(s.take(k) =~= s);
    }
}

/// The number `s` holds, or zero when it is not a `u64` in decimal.
pub fn parse_number_or_zero(s: &Vec<char>) -> (v: u64)
    ensures
        v == number_or_zero(s@),
{
    let n = s.len();
    let start: usize = if n > 0 && s[0] == '+' {
        1
    } else {
        0
    };
    let ghost body = number_body(s@);
    assert(body =~= s@.skip(start as int));
    if start == n {
        return 0;
    }
    let mut value: u128 = 0;
    let mut i = start;
    while i < n
        invariant
            n == s@.len(),
            start <= i <= n,
            start < n,
            body == number_body(s@),
            body =~= s@.skip(start as int),
            all_digits(body.take(i - start)),
            value == digits_value(body.take(i - start)),
            value <= u64::MAX,
        decreases n - i,
    {
        let c = s[i];
        let ghost k = (i - start) as int;
        assert(body[k] == c);
        assert(body.take(k + 1).drop_last() =~= body.take(k));
        assert(body.take(k + 1).last() == c);
        if !is_ascii_digit(c) {
            assert(!all_digits(body));
            return 0;
        }
        let d = (c as u32 - '0' as u32) as u128;
        value = value * 10 + d;
        if value > u64::MAX as u128 {
            proof {
                lemma_digits_value_prefix(body, k + 1);
            }
            return 0;
        }
        i = i + 1;
    }
    assert(body.take(n - start) =~= body);
    value as u64
}

/// The words `ws[from..to]` separated by single spaces.
pub fn join_range(ws: &Vec<Vec<char>>, from: usize, to: usize) -> (s: Vec<char>)
    requires
        from <= to <= ws@.len(),
    ensures
        s@ == join_words(views(ws@.subrange(from as int, to as int))),
{
    let mut s: Vec<char> = Vec::new();
    let mut i = from;
    while i < to
        invariant
            from <= i <= to <= ws@.len(),
            s@ == join_words(views(ws@.subrange(from as int, i as int))),
        decreases to - i,
    {
        let ghost prev = views(ws@.subrange(from as int, i as int));
        let ghost next = views(ws@.subrange(from as int, i + 1));
        assert(next.drop_last() =~= prev);
        assert(next.last() == ws@[i as int]@);
        if i > from {
            s.push(' ');
        }
        let w = &ws[i];
        let m = w.len();
        let ghost s0 = s@;
        for j in 0..m
            invariant
                m == w@.len(),
                s@ == s0 + w@.take(j as int),
        {
            s.push(w[j]);
            assert(w@.take(j + 1) =~= w@.take(j as int).push(w@[j as int]));
        }
        assert(w@.take(m as int) =~= w@);
        assert(s@ =~= join_words(next));
        i = i + 1;
    }
    s
}

} // verus!
