//! The compact speed figures of the menu bar title ("4.0K", "12M", "1.00G"),
//! and the fixed-width two-line title built from them.
use vstd::prelude::*;
use crate::scan::{digits_value, lemma_decimal_value, lemma_digit_char};
use crate::text::{decimal, digit, digit_char, digit_value, is_digit, push_decimal};

verus! {

pub const KIB: u64 = 1024;

pub const MIB: u64 = 1048576;

pub const GIB: u64 = 1073741824;

pub const TIB: u64 = 1099511627776;

pub const PIB: u64 = 1125899906842624;

pub const EIB: u64 = 1152921504606846976;

/// The number of columns every title line is padded to: the widest line the
/// title produces, such as "↑ 1.00G/s" or "↑ 1024T/s".
pub const TITLE_COLS: usize = 9;

/// U+2007 FIGURE SPACE, the padding character of the title.
pub const FIGURE_SPACE: char = '\u{2007}';

/// `n / d` rounded to the nearest integer, an exact half going to the even
/// neighbour.
pub open spec fn round_half_even(n: nat, d: nat) -> nat
    recommends
        d > 0,
{
    let q = n / d;
    let r = n % d;
    if r * 2 > d || (r * 2 == d && q % 2 == 1) {
        q + 1
    } else {
        q
    }
}

/// `q / 10` written with one decimal.
pub open spec fn one_decimal(q: nat) -> Seq<char> {
    decimal(q / 10) + seq!['.', digit_char(q % 10)]
}

/// `q / 100` written with two decimals.
pub open spec fn two_decimals(q: nat) -> Seq<char> {
    decimal(q / 100) + seq!['.', digit_char((q / 10) % 10), digit_char(q % 10)]
}

/// Two decimals of gigabytes stay below ten: "9.99G" at most.
pub open spec fn small_giga(bps: nat) -> bool {
    round_half_even(bps * 100, GIB as nat) < 1000
}

/// A figure with one decimal below ten of `unit`, none from ten on.
pub open spec fn unit_figure(bps: nat, unit: nat, letter: char) -> Seq<char> {
    if bps < 10 * unit {
        one_decimal(round_half_even(bps * 10, unit)).push(letter)
    } else {
        decimal(round_half_even(bps, unit)).push(letter)
    }
}

/// The title figure for `bps` bytes a second, in units that are powers of
/// 1024: anything under a kilobyte reads "0K"; kilo- and megabytes carry one
/// decimal below ten of the unit and none above; gigabytes carry two decimals
/// while they stay below ten, as "9.99G"; beyond, whole gigabytes up to a
/// terabyte, then tera-, peta- and exabytes like kilobytes. No figure is longer
/// than five characters.
pub open spec fn speed_text(bps: nat) -> Seq<char> {
    if bps < KIB {
        seq!['0', 'K']
    } else if bps < MIB {
        unit_figure(bps, KIB as nat, 'K')
    } else if bps < GIB {
        unit_figure(bps, MIB as nat, 'M')
    } else if small_giga(bps) {
        two_decimals(round_half_even(bps * 100, GIB as nat)).push('G')
    } else if bps < TIB {
        decimal(round_half_even(bps, GIB as nat)).push('G')
    } else if bps < PIB {
        unit_figure(bps, TIB as nat, 'T')
    } else if bps < EIB {
        unit_figure(bps, PIB as nat, 'P')
    } else {
        unit_figure(bps, EIB as nat, 'E')
    }
}

/// `s` followed by as many figure spaces as it takes to reach `TITLE_COLS`
/// characters.
pub open spec fn padded(s: Seq<char>) -> Seq<char> {
    if s.len() < TITLE_COLS {
        s + Seq::new((TITLE_COLS - s.len()) as nat, |i: int| FIGURE_SPACE)
    } else {
        s
    }
}

/// A title line: an arrow, a space, the speed figure and "/s", padded.
pub open spec fn title_line(arrow: char, bps: nat) -> Seq<char> {
    padded(seq![arrow, ' '] + speed_text(bps) + seq!['/', 's'])
}

/// The two lines of the title: upload on top, download below.
pub open spec fn title_lines_spec(recv: nat, sent: nat) -> (Seq<char>, Seq<char>) {
    (title_line('\u{2191}', sent), title_line('\u{2193}', recv))
}

fn rounded_div(n: u128, d: u128) -> (q: u128)
    requires
        0 < d < 0x1_0000_0000_0000_0000_0000_0000,
        n < 0x1_0000_0000_0000_0000_0000_0000,
    ensures
        q == round_half_even(n as nat, d as nat),
{
    let q = n / d;
    let r = n % d;
    assert(q <= n) by (nonlinear_arith)
        requires
            q == n / d,
            d > 0,
    ;
    if r * 2 > d || (r * 2 == d && q % 2 == 1) {
        q + 1
    } else {
        q
    }
}

fn push_one_decimal(out: &mut String, q: u128)
    requires
        q < 0x1_0000_0000_0000_0000,
    ensures
        final(out)@ == old(out)@ + one_decimal(q as nat),
{
    push_decimal(out, q / 10);
    out.push('.');
    out.push(digit(q % 10));
    assert(out@ =~= old(out)@ + one_decimal(q as nat));
}

fn push_two_decimals(out: &mut String, q: u128)
    requires
        q < 0x1_0000_0000_0000_0000_0000,
    ensures
        final(out)@ == old(out)@ + two_decimals(q as nat),
{
    push_decimal(out, q / 100);
    out.push('.');
    out.push(digit((q / 10) % 10));
    out.push(digit(q % 10));
    assert(out@ =~= old(out)@ + two_decimals(q as nat));
}

fn push_unit_figure(out: &mut String, bps: u64, unit: u64, letter: char)
    requires
        1 <= unit <= EIB,
    ensures
        final(out)@ == old(out)@ + unit_figure(bps as nat, unit as nat, letter),
{
    let b = bps as u128;
    if b < 10 * unit as u128 {
        let q = rounded_div(b * 10, unit as u128);
        assert((b * 10) as nat / (unit as nat) < 100) by (nonlinear_arith)
            requires
                b < 10 * unit,
                unit >= 1,
        ;
        assert(q <= 100);
        push_one_decimal(out, q);
    } else {
        push_decimal(out, rounded_div(b, unit as u128));
    }
    out.push(letter);
    assert(out@ =~= old(out)@ + unit_figure(bps as nat, unit as nat, letter));
}

/// The title figure for `bps` bytes a second, such as "4.0K", "12M",
/// "1.00G" or "16E".
pub fn format_speed_bytes(bps: u64) -> (s: String)
    ensures
        s@ == speed_text(bps as nat),
{
    let mut out = String::new();
    let b = bps as u128;
    if bps < KIB {
        out.push('0');
        out.push('K');
    } else if bps < MIB {
        push_unit_figure(&mut out, bps, KIB, 'K');
    } else if bps < GIB {
        push_unit_figure(&mut out, bps, MIB, 'M');
    } else {
        let q = rounded_div(b * 100, GIB as u128);
        if q < 1000 {
            push_two_decimals(&mut out, q);
            out.push('G');
        } else if bps < TIB {
            push_decimal(&mut out, rounded_div(b, GIB as u128));
            out.push('G');
        } else if bps < PIB {
            push_unit_figure(&mut out, bps, TIB, 'T');
        } else if bps < EIB {
            push_unit_figure(&mut out, bps, PIB, 'P');
        } else {
            push_unit_figure(&mut out, bps, EIB, 'E');
        }
    }
    assert(out@ =~= speed_text(bps as nat));
    out
}

/// `s` padded with figure spaces to `TITLE_COLS` characters.
pub fn pad_title(s: &str) -> (out: String)
    ensures
        out@ == padded(s@),
{
    let n = s.unicode_len();
    let mut out = String::from_str(s);
    let mut i = n;
    while i < TITLE_COLS
        invariant
            n == s@.len(),
            n <= i <= TITLE_COLS || (n > TITLE_COLS && i == n),
            out@ == s@ + Seq::new((i - n) as nat, |k: int| FIGURE_SPACE),
        decreases TITLE_COLS - i,
    {
        out.push(FIGURE_SPACE);
        i = i + 1;
        assert(out@ =~= s@ + Seq::new((i - n) as nat, |k: int| FIGURE_SPACE));
    }
    assert(out@ =~= padded(s@));
    out
}

fn arrow_line(arrow: char, bps: u64) -> (line: String)
    ensures
        line@ == seq![arrow, ' '] + speed_text(bps as nat) + seq!['/', 's'],
{
    let mut line = String::new();
    line.push(arrow);
    line.push(' ');
    let figure = format_speed_bytes(bps);
    line.append(figure.as_str());
    line.push('/');
    line.push('s');
    assert(line@ =~= seq![arrow, ' '] + speed_text(bps as nat) + seq!['/', 's']);
    line
}

/// The two title lines for the given download and upload speeds: upload on
/// top, download below, each padded to `TITLE_COLS`.
pub fn title_lines(recv_speed: u64, sent_speed: u64) -> (lines: (String, String))
    ensures
        (lines.0@, lines.1@) == title_lines_spec(recv_speed as nat, sent_speed as nat),
{
    let top = arrow_line('\u{2191}', sent_speed);
    let bottom = arrow_line('\u{2193}', recv_speed);
    (pad_title(top.as_str()), pad_title(bottom.as_str()))
}

/// The text of the two-line title: `top`, a line break, `bottom`.
pub fn two_line_text(top: &str, bottom: &str) -> (text: String)
    ensures
        text@ == top@ + seq!['\n'] + bottom@,
{
    let mut text = String::from_str(top);
    text.push('\n');
    text.append(bottom);
    text
}

proof fn lemma_decimal_len(n: nat)
    ensures
        n < 10 ==> decimal(n).len() == 1,
        10 <= n < 100 ==> decimal(n).len() == 2,
        100 <= n < 1000 ==> decimal(n).len() == 3,
        1000 <= n < 10000 ==> decimal(n).len() == 4,
{
    reveal_with_fuel(decimal, 4);
}

/// Padding never shortens a title line, keeps it as its prefix, brings it to
/// at least `TITLE_COLS` characters, and padding twice changes nothing.
pub proof fn lemma_padded(s: Seq<char>)
    ensures
        padded(s).len() == if s.len() < TITLE_COLS { TITLE_COLS as nat } else { s.len() },
        s.is_prefix_of(padded(s)),
        padded(padded(s)) == padded(s),
{
    assert(s.is_prefix_of(padded(s))) by {
        assert(padded(s).subrange(0, s.len() as int) =~= s);
    }
}

proof fn lemma_unit_figure_len(bps: nat, unit: nat, letter: char)
    requires
        unit >= 1,
        bps < 1024 * unit,
    ensures
        unit_figure(bps, unit, letter).len() <= 5,
{
    if bps < 10 * unit {
        let q = round_half_even(bps * 10, unit);
        assert(bps * 10 < 100 * unit) by (nonlinear_arith)
            requires
                bps < 10 * unit,
        ;
        assert((bps * 10) / unit < 100) by (nonlinear_arith)
            requires
                bps * 10 < 100 * unit,
                unit >= 1,
        ;
        assert(q <= 100);
        lemma_decimal_len(q / 10);
    } else {
        let q = round_half_even(bps, unit);
        assert(bps / unit < 1024) by (nonlinear_arith)
            requires
                bps < 1024 * unit,
                unit >= 1,
        ;
        assert(q <= 1024);
        lemma_decimal_len(q);
    }
}

/// Every title figure is at most five characters long, such as "1024K",
/// "9.99G" or "16E".
pub proof fn lemma_speed_text_len(bps: nat)
    requires
        bps <= u64::MAX,
    ensures
        speed_text(bps).len() <= 5,
{
    if bps < KIB {
    } else if bps < MIB {
        lemma_unit_figure_len(bps, KIB as nat, 'K');
    } else if bps < GIB {
        lemma_unit_figure_len(bps, MIB as nat, 'M');
    } else if small_giga(bps) {
        let q = round_half_even(bps * 100, GIB as nat);
        lemma_decimal_len(q / 100);
    } else if bps < TIB {
        let q = round_half_even(bps, GIB as nat);
        assert(q <= 1024);
        lemma_decimal_len(q);
    } else if bps < PIB {
        lemma_unit_figure_len(bps, TIB as nat, 'T');
    } else if bps < EIB {
        lemma_unit_figure_len(bps, PIB as nat, 'P');
    } else {
        lemma_unit_figure_len(bps, EIB as nat, 'E');
    }
}

/// The two title lines always have exactly `TITLE_COLS` characters, whatever
/// the speeds, so the title never shifts the neighbouring menu bar icons.
pub proof fn lemma_title_constant_width(recv: u64, sent: u64)
    ensures
        title_lines_spec(recv as nat, sent as nat).0.len() == TITLE_COLS,
        title_lines_spec(recv as nat, sent as nat).1.len() == TITLE_COLS,
{
    lemma_speed_text_len(recv as nat);
    lemma_speed_text_len(sent as nat);
    lemma_padded(seq!['\u{2191}', ' '] + speed_text(sent as nat) + seq!['/', 's']);
    lemma_padded(seq!['\u{2193}', ' '] + speed_text(recv as nat) + seq!['/', 's']);
}

/// The number a figure shows multiplied by its unit, in hundredths of a
/// byte a second: "4.0K" stands for 409600, "12M" for 1258291200.
pub open spec fn shown_value(bps: nat) -> nat {
    if bps < KIB {
        0
    } else if bps < MIB {
        unit_value(bps, KIB as nat)
    } else if bps < GIB {
        unit_value(bps, MIB as nat)
    } else if small_giga(bps) {
        (round_half_even(bps * 100, GIB as nat) * GIB) as nat
    } else if bps < TIB {
        (round_half_even(bps, GIB as nat) * GIB * 100) as nat
    } else if bps < PIB {
        unit_value(bps, TIB as nat)
    } else if bps < EIB {
        unit_value(bps, PIB as nat)
    } else {
        unit_value(bps, EIB as nat)
    }
}

/// What `unit_figure` shows, times the unit, in hundredths.
pub open spec fn unit_value(bps: nat, unit: nat) -> nat {
    if bps < 10 * unit {
        round_half_even(bps * 10, unit) * unit * 10
    } else {
        round_half_even(bps, unit) * unit * 100
    }
}

/// Rounding to the nearest never goes down as the numerator grows.
pub proof fn lemma_round_monotone(x: nat, y: nat, d: nat)
    requires
        x <= y,
        d > 0,
    ensures
        round_half_even(x, d) <= round_half_even(y, d),
{
    let qx = x / d;
    let qy = y / d;
    vstd::arithmetic::div_mod::lemma_div_is_ordered(x as int, y as int, d as int);
    if qx == qy {
        vstd::arithmetic::div_mod::lemma_fundamental_div_mod(x as int, d as int);
        vstd::arithmetic::div_mod::lemma_fundamental_div_mod(y as int, d as int);
        assert(x % d <= y % d);
    }
}

/// Rounding a multiple of the divisor gives the exact quotient.
proof fn lemma_round_exact(k: nat, d: nat)
    requires
        d > 0,
    ensures
        round_half_even(k * d, d) == k,
{
    vstd::arithmetic::div_mod::lemma_div_multiples_vanish(k as int, d as int);
    vstd::arithmetic::div_mod::lemma_mod_multiples_vanish(k as int, 0, d as int);
    assert(k * d == d * k) by (nonlinear_arith);
    assert((d * k) % d == 0) by {
        vstd::arithmetic::div_mod::lemma_mod_multiples_basic(k as int, d as int);
    }
}

proof fn lemma_unit_value(x: nat, y: nat, unit: nat)
    requires
        unit >= 1,
        unit <= x <= y < 1024 * unit,
    ensures
        100 * unit <= unit_value(x, unit) <= unit_value(y, unit) <= 102400 * unit,
{
    lemma_round_exact(10, unit);
    lemma_round_exact(100, unit);
    lemma_round_exact(1024, unit);
    assert(10 * unit == unit * 10 && 100 * unit == unit * 100 && 1024 * unit == unit * 1024)
        by (nonlinear_arith);
    if x < 10 * unit {
        lemma_round_monotone(10 * unit, x * 10, unit);
        lemma_round_monotone(x * 10, 100 * unit, unit);
    } else {
        lemma_round_monotone(10 * unit, x, unit);
    }
    if y < 10 * unit {
        lemma_round_monotone(x * 10, y * 10, unit);
        lemma_round_monotone(y * 10, 100 * unit, unit);
    } else {
        lemma_round_monotone(x, y, unit);
        lemma_round_monotone(y, 1024 * unit, unit);
        lemma_round_monotone(10 * unit, y, unit);
    }
    let qx = if x < 10 * unit { round_half_even(x * 10, unit) } else { round_half_even(x, unit) };
    let qy = if y < 10 * unit { round_half_even(y * 10, unit) } else { round_half_even(y, unit) };
    if x < 10 * unit {
        assert(10 <= qx <= 100);
        assert(100 * unit <= qx * unit * 10) by (nonlinear_arith)
            requires
                10 <= qx,
        ;
    } else {
        assert(10 <= qx);
        assert(100 * unit <= qx * unit * 100) by (nonlinear_arith)
            requires
                10 <= qx,
        ;
    }
    if y < 10 * unit {
        assert(qy <= 100);
        assert(qy * unit * 10 <= 102400 * unit) by (nonlinear_arith)
            requires
                qy <= 100,
        ;
        assert(x < 10 * unit);
        assert(qx <= qy);
        assert(qx * unit * 10 <= qy * unit * 10) by (nonlinear_arith)
            requires
                qx <= qy,
        ;
    } else {
        assert(10 <= qy <= 1024);
        assert(qy * unit * 100 <= 102400 * unit) by (nonlinear_arith)
            requires
                qy <= 1024,
        ;
        if x < 10 * unit {
            assert(qx <= 100);
            assert(qx * unit * 10 <= qy * unit * 100) by (nonlinear_arith)
                requires
                    qx <= 100,
                    10 <= qy,
            ;
        } else {
            assert(qx * unit * 100 <= qy * unit * 100) by (nonlinear_arith)
                requires
                    qx <= qy,
            ;
        }
    }
}

/// Which rule of `speed_text` applies to `bps`.
spec fn figure_rule(bps: nat) -> nat {
    if bps < KIB {
        0
    } else if bps < MIB {
        1
    } else if bps < GIB {
        2
    } else if small_giga(bps) {
        3
    } else if bps < TIB {
        4
    } else if bps < PIB {
        5
    } else if bps < EIB {
        6
    } else {
        7
    }
}

spec fn rule_low(i: nat) -> nat {
    if i == 0 {
        0
    } else if i == 1 {
        (100 * KIB) as nat
    } else if i == 2 {
        (100 * MIB) as nat
    } else if i == 3 {
        (100 * GIB) as nat
    } else if i == 4 {
        (1000 * GIB) as nat
    } else if i == 5 {
        (100 * TIB) as nat
    } else if i == 6 {
        (100 * PIB) as nat
    } else {
        (100 * EIB) as nat
    }
}

spec fn rule_high(i: nat) -> nat {
    if i == 0 {
        0
    } else if i == 1 {
        (102400 * KIB) as nat
    } else if i == 2 {
        (102400 * MIB) as nat
    } else if i == 3 {
        (999 * GIB) as nat
    } else if i == 4 {
        (102400 * GIB) as nat
    } else if i == 5 {
        (102400 * TIB) as nat
    } else if i == 6 {
        (102400 * PIB) as nat
    } else {
        (102400 * EIB) as nat
    }
}

/// Two gigabyte figures stay below ten exactly up to 10732049530 bytes a
/// second.
proof fn lemma_small_giga(bps: nat)
    ensures
        small_giga(bps) <==> bps <= 10732049530,
        !small_giga(bps) && bps >= GIB ==> round_half_even(bps, GIB as nat) >= 10,
{
    assert(round_half_even(10732049530 * 100, GIB as nat) == 999);
    assert(round_half_even(10732049531 * 100, GIB as nat) == 1000);
    assert(round_half_even(10732049531, GIB as nat) == 10);
    if bps <= 10732049530 {
        lemma_round_monotone(bps * 100, 10732049530 * 100, GIB as nat);
    } else {
        lemma_round_monotone(10732049531 * 100, bps * 100, GIB as nat);
        lemma_round_monotone(10732049531, bps, GIB as nat);
    }
}

/// Within one rule the shown value grows with the speed and stays between
/// the rule's bounds.
proof fn lemma_rule_bounds(x: nat, y: nat)
    requires
        x <= y <= u64::MAX,
        figure_rule(x) == figure_rule(y),
    ensures
        rule_low(figure_rule(x)) <= shown_value(x) <= shown_value(y) <= rule_high(figure_rule(y)),
{
    lemma_small_giga(x);
    lemma_small_giga(y);
    let i = figure_rule(x);
    if i == 1 {
        lemma_unit_value(x, y, KIB as nat);
    } else if i == 2 {
        lemma_unit_value(x, y, MIB as nat);
    } else if i == 3 {
        lemma_round_exact(100, GIB as nat);
        lemma_round_monotone(100 * (GIB as nat), x * 100, GIB as nat);
        lemma_round_monotone(x * 100, y * 100, GIB as nat);
        let qx = round_half_even(x * 100, GIB as nat);
        let qy = round_half_even(y * 100, GIB as nat);
        assert(100 <= qx <= qy <= 999);
        assert(100 * GIB <= qx * GIB <= qy * GIB <= 999 * GIB) by (nonlinear_arith)
            requires
                100 <= qx <= qy <= 999,
        ;
    } else if i == 4 {
        lemma_round_exact(1024, GIB as nat);
        lemma_round_monotone(x, y, GIB as nat);
        lemma_round_monotone(y, TIB as nat, GIB as nat);
        assert(TIB == 1024 * GIB);
        let qx = round_half_even(x, GIB as nat);
        let qy = round_half_even(y, GIB as nat);
        assert(10 <= qx <= qy <= 1024);
        assert(1000 * GIB <= qx * GIB * 100 <= qy * GIB * 100 <= 102400 * GIB) by (nonlinear_arith)
            requires
                10 <= qx <= qy <= 1024,
        ;
    } else if i == 5 {
        lemma_unit_value(x, y, TIB as nat);
    } else if i == 6 {
        lemma_unit_value(x, y, PIB as nat);
    } else if i == 7 {
        lemma_unit_value(x, y, EIB as nat);
    }
}

/// A faster speed never shows a smaller figure: the number shown times its
/// unit never goes down as the speed goes up.
pub proof fn lemma_shown_value_monotone(a: nat, b: nat)
    requires
        a <= b <= u64::MAX,
    ensures
        shown_value(a) <= shown_value(b),
{
    lemma_small_giga(a);
    lemma_small_giga(b);
    let i = figure_rule(a);
    let j = figure_rule(b);
    assert(i <= j);
    if i == j {
        lemma_rule_bounds(a, b);
    } else {
        lemma_rule_bounds(a, a);
        lemma_rule_bounds(b, b);
        assert(rule_high(i) <= rule_low(j));
    }
}

/// The unit a figure's letter names, in bytes a second.
pub open spec fn letter_unit(c: char) -> nat {
    if c == 'K' {
        KIB as nat
    } else if c == 'M' {
        MIB as nat
    } else if c == 'G' {
        GIB as nat
    } else if c == 'T' {
        TIB as nat
    } else if c == 'P' {
        PIB as nat
    } else if c == 'E' {
        EIB as nat
    } else {
        0
    }
}

/// The number `s` writes in decimal with at most two decimals, in
/// hundredths: "4.0" is 400, "1.25" is 125, "12" is 1200.
pub open spec fn hundredths(s: Seq<char>) -> nat {
    let n = s.len() as int;
    if n >= 2 && s[n - 2] == '.' {
        digits_value(s.take(n - 2)) * 100 + digit_value(s[n - 1]) * 10
    } else if n >= 3 && s[n - 3] == '.' {
        digits_value(s.take(n - 3)) * 100 + digits_value(s.skip(n - 2))
    } else {
        digits_value(s) * 100
    }
}

/// What a title figure reads as, in hundredths of a byte a second: the
/// number before its last letter times the unit the letter names, so that
/// "4.0K" reads 409600 and "12M" reads 1258291200.
pub open spec fn figure_value(s: Seq<char>) -> nat {
    hundredths(s.drop_last()) * letter_unit(s.last())
}

proof fn lemma_hundredths_whole(q: nat)
    ensures
        hundredths(decimal(q)) == q * 100,
{
    lemma_decimal_value(q);
    let s = decimal(q);
    let n = s.len() as int;
    if n >= 2 {
        assert(is_digit(s[n - 2]));
    }
    if n >= 3 {
        assert(is_digit(s[n - 3]));
    }
}

proof fn lemma_hundredths_one_decimal(q: nat)
    ensures
        hundredths(one_decimal(q)) == q * 10,
{
    let s = one_decimal(q);
    let n = s.len() as int;
    lemma_decimal_value(q / 10);
    lemma_digit_char(q % 10);
    assert(s.take(n - 2) =~= decimal(q / 10));
    assert(s[n - 2] == '.');
    assert(s[n - 1] == digit_char(q % 10));
}

proof fn lemma_hundredths_two_decimals(q: nat)
    ensures
        hundredths(two_decimals(q)) == q,
{
    let s = two_decimals(q);
    let n = s.len() as int;
    let d1 = digit_char((q / 10) % 10);
    let d0 = digit_char(q % 10);
    lemma_decimal_value(q / 100);
    lemma_digit_char((q / 10) % 10);
    lemma_digit_char(q % 10);
    assert(s.take(n - 3) =~= decimal(q / 100));
    assert(s[n - 3] == '.');
    assert(s[n - 2] == d1);
    assert(s.skip(n - 2) =~= seq![d1, d0]);
    assert(seq![d1, d0].drop_last() =~= seq![d1]);
    assert(seq![d1].drop_last() =~= Seq::<char>::empty());
    assert(digits_value(Seq::<char>::empty()) == 0);
    assert(digits_value(seq![d1]) == digit_value(d1));
    assert(digits_value(seq![d1, d0]) == digit_value(d1) * 10 + digit_value(d0));
    vstd::arithmetic::div_mod::lemma_breakdown(q as int, 10, 10);
    vstd::arithmetic::div_mod::lemma_div_denominator(q as int, 10, 10);
    vstd::arithmetic::div_mod::lemma_fundamental_div_mod(q as int, 100);
}

proof fn lemma_unit_figure_value(bps: nat, unit: nat, letter: char)
    requires
        unit >= 1,
        letter_unit(letter) == unit,
    ensures
        figure_value(unit_figure(bps, unit, letter)) == unit_value(bps, unit),
{
    let s = unit_figure(bps, unit, letter);
    if bps < 10 * unit {
        let q = round_half_even(bps * 10, unit);
        assert(s.drop_last() =~= one_decimal(q));
        lemma_hundredths_one_decimal(q);
        assert(q * 10 * unit == q * unit * 10) by (nonlinear_arith);
    } else {
        let q = round_half_even(bps, unit);
        assert(s.drop_last() =~= decimal(q));
        lemma_hundredths_whole(q);
        assert(q * 100 * unit == q * unit * 100) by (nonlinear_arith);
    }
}

/// The number a title figure shows, times its unit, is `shown_value`: the
/// figure text reads back as exactly the value the lemmas on `shown_value`
/// speak of.
pub proof fn lemma_figure_value(bps: nat)
    ensures
        figure_value(speed_text(bps)) == shown_value(bps),
{
    let s = speed_text(bps);
    if bps < KIB {
        assert(s == seq!['0', 'K']);
        assert(s.drop_last() =~= decimal(0));
        lemma_hundredths_whole(0);
        let h = hundredths(s.drop_last());
        let u = letter_unit(s.last());
        assert(h * u == 0) by (nonlinear_arith)
            requires
                h == 0,
        ;
    } else if bps < MIB {
        assert(s == unit_figure(bps, KIB as nat, 'K'));
        lemma_unit_figure_value(bps, KIB as nat, 'K');
    } else if bps < GIB {
        assert(s == unit_figure(bps, MIB as nat, 'M'));
        lemma_unit_figure_value(bps, MIB as nat, 'M');
    } else if small_giga(bps) {
        lemma_giga_figure_value(bps);
    } else if bps < TIB {
        lemma_giga_figure_value(bps);
    } else if bps < PIB {
        assert(s == unit_figure(bps, TIB as nat, 'T'));
        lemma_unit_figure_value(bps, TIB as nat, 'T');
    } else if bps < EIB {
        assert(s == unit_figure(bps, PIB as nat, 'P'));
        lemma_unit_figure_value(bps, PIB as nat, 'P');
    } else {
        assert(s == unit_figure(bps, EIB as nat, 'E'));
        lemma_unit_figure_value(bps, EIB as nat, 'E');
    }
}

#[verifier::spinoff_prover]
proof fn lemma_giga_figure_value(bps: nat)
    requires
        GIB <= bps < TIB,
    ensures
        figure_value(speed_text(bps)) == shown_value(bps),
{
    let s = speed_text(bps);
    if small_giga(bps) {
        let q = round_half_even(bps * 100, GIB as nat);
        assert(s == two_decimals(q).push('G'));
        assert(s.drop_last() =~= two_decimals(q));
        lemma_hundredths_two_decimals(q);
        assert(s.last() == 'G');
        assert(shown_value(bps) == q * GIB);
    } else {
        let q = round_half_even(bps, GIB as nat);
        assert(s == decimal(q).push('G'));
        assert(s.drop_last() =~= decimal(q));
        lemma_hundredths_whole(q);
        assert(s.last() == 'G');
        assert(q * 100 * GIB == q * GIB * 100) by (nonlinear_arith);
        assert(shown_value(bps) == q * GIB * 100);
    }
}

/// The displayed speed never goes down as the speed goes up: the number a
/// title figure reads, times its unit, grows with the bytes a second.
pub proof fn lemma_figure_monotone(a: nat, b: nat)
    requires
        a <= b <= u64::MAX,
    ensures
        figure_value(speed_text(a)) <= figure_value(speed_text(b)),
{
    lemma_figure_value(a);
    lemma_figure_value(b);
    lemma_shown_value_monotone(a, b);
}

/// Rounding to the nearest is off by at most half the divisor.
proof fn lemma_round_close(n: nat, d: nat)
    requires
        d > 0,
    ensures
        2 * n <= 2 * (round_half_even(n, d) * d) + d,
        2 * (round_half_even(n, d) * d) <= 2 * n + d,
{
    let q = n / d;
    vstd::arithmetic::div_mod::lemma_fundamental_div_mod(n as int, d as int);
    assert((q + 1) * d == q * d + d) by (nonlinear_arith);
}

proof fn lemma_unit_value_close(bps: nat, unit: nat)
    requires
        1 <= unit <= bps,
    ensures
        95 * bps <= unit_value(bps, unit) <= 105 * bps,
{
    if bps < 10 * unit {
        let q = round_half_even(bps * 10, unit);
        lemma_round_close(bps * 10, unit);
        assert(q * unit * 10 == 10 * (q * unit)) by (nonlinear_arith);
    } else {
        let q = round_half_even(bps, unit);
        lemma_round_close(bps, unit);
        assert(q * unit * 100 == 100 * (q * unit)) by (nonlinear_arith);
    }
}

/// A title figure is within five percent of the speed it stands for: from a
/// kilobyte a second on, the number it reads times its unit lies between 95%
/// and 105% of the bytes a second.
pub proof fn lemma_figure_close(bps: nat)
    requires
        KIB <= bps <= u64::MAX,
    ensures
        95 * bps <= figure_value(speed_text(bps)) <= 105 * bps,
{
    lemma_figure_value(bps);
    lemma_small_giga(bps);
    if bps < MIB {
        lemma_unit_value_close(bps, KIB as nat);
    } else if bps < GIB {
        lemma_unit_value_close(bps, MIB as nat);
    } else if small_giga(bps) {
        lemma_round_close(bps * 100, GIB as nat);
    } else if bps < TIB {
        let q = round_half_even(bps, GIB as nat);
        lemma_round_close(bps, GIB as nat);
        assert(q * GIB * 100 == 100 * (q * GIB)) by (nonlinear_arith);
        if bps < 10 * GIB {
            lemma_round_exact(10, GIB as nat);
            lemma_round_monotone(bps, 10 * (GIB as nat), GIB as nat);
            assert(q == 10);
        }
    } else if bps < PIB {
        lemma_unit_value_close(bps, TIB as nat);
    } else if bps < EIB {
        lemma_unit_value_close(bps, PIB as nat);
    } else {
        lemma_unit_value_close(bps, EIB as nat);
    }
}

} // verus!
