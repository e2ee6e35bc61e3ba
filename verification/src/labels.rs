//! The texts of the menu: bandwidth, session and peak lines, the tooltip, the
//! title and one line per interface.
use vstd::prelude::*;
use crate::monitor::InterfaceStats;
use crate::speed::{one_decimal, title_lines, title_lines_spec};
use crate::state::AppState;
use crate::text::{chars_of, decimal};

verus! {

/// A thousand to the power `e`.
pub open spec fn pow1000(e: nat) -> nat
    decreases e,
{
    if e == 0 {
        1
    } else {
        1000 * pow1000((e - 1) as nat)
    }
}

/// The unit letter of `1000^e` bytes in bytesize's texts.
pub open spec fn unit_letter(e: nat) -> char {
    if e == 1 {
        'K'
    } else if e == 2 {
        'M'
    } else if e == 3 {
        'G'
    } else if e == 4 {
        'T'
    } else if e == 5 {
        'P'
    } else {
        'E'
    }
}

/// `t` shows `bytes` as `q / 10` units of `1000^e` bytes, with one decimal, a
/// space, the unit letter and "B", such as "4.1 KB"; the shown amount is
/// within a tenth of a unit of `bytes`.
pub open spec fn scaled_text(bytes: u64, q: nat, e: nat, t: Seq<char>) -> bool {
    &&& 1 <= e <= 6
    &&& t == one_decimal(q) + seq![' ', unit_letter(e), 'B']
    &&& q * pow1000(e) < 10 * bytes + pow1000(e)
    &&& 10 * bytes < q * pow1000(e) + pow1000(e)
}

/// What holds of every text the `bytesize` crate shows for `bytes`: below
/// 1000 bytes, the count in decimal followed by " B"; from 1000 on, an amount
/// with one decimal in K, M, G, T, P or E bytes (powers of 1000) within a
/// tenth of a unit of the count.
pub open spec fn size_text_ok(bytes: u64, t: Seq<char>) -> bool {
    if bytes < 1000 {
        t == decimal(bytes as nat) + seq![' ', 'B']
    } else {
        exists|q: nat, e: nat| #[trigger] scaled_text(bytes, q, e, t)
    }
}

/// Calls `Display` of `bytesize::ByteSize`. Trusted: below 1000 bytes the
/// text is the count followed by " B", as `bytesize::to_string` writes it.
/// From 1000 on it writes `{:.1} {}B` of the count divided by `1000^e`, the
/// letter `KMGTPE[e - 1]`, where `e` (at least 1, at most 6 for a `u64`) comes
/// from `f64::ln`; the division in `f64` is off by far less than the half
/// tenth that the rounding to one decimal adds, so the amount shown is within
/// a tenth of a unit of the count. Which `e` is picked near a power of 1024 is
/// left open: std leaves the precision of `f64::ln` to the platform.
#[verifier::external_body]
fn byte_size(bytes: u64) -> (s: String)
    ensures
        size_text_ok(bytes, s@),
{
    bytesize::ByteSize(bytes).to_string()
}

/// Index of the first `:` of `s`, or `s.len()`.
pub open spec fn first_colon(s: Seq<char>) -> nat
    decreases s.len(),
{
    if s.len() == 0 {
        0
    } else if s[0] == ':' {
        0
    } else {
        1 + first_colon(s.drop_first())
    }
}

/// An interface name up to its first `:`, or the whole name.
pub open spec fn short_name_spec(name: Seq<char>) -> Seq<char> {
    name.take(first_colon(name) as int)
}

/// The short name of an interface is the part of its name before the first
/// `:`, which it does not contain; a name without `:` is kept whole.
pub proof fn lemma_short_name(name: Seq<char>)
    ensures
        short_name_spec(name).is_prefix_of(name),
        !short_name_spec(name).contains(':'),
        !name.contains(':') ==> short_name_spec(name) == name,
        name.contains(':') ==> name[short_name_spec(name).len() as int] == ':',
{
    lemma_first_colon_bounds(name);
    let k = first_colon(name) as int;
    assert(name.take(k) =~= name.subrange(0, k));
    if !name.contains(':') {
        if k < name.len() {
            assert(name.contains(name[k]));
        }
        assert(name.take(k) =~= name);
    }
    if name.contains(':') {
        let i = choose|i: int| 0 <= i < name.len() && name[i] == ':';
        assert(k <= i);
    }
}

proof fn lemma_first_colon_bounds(s: Seq<char>)
    ensures
        first_colon(s) <= s.len(),
        forall|j: int| 0 <= j < first_colon(s) ==> s[j] != ':',
        first_colon(s) < s.len() ==> s[first_colon(s) as int] == ':',
    decreases s.len(),
{
    if s.len() > 0 && s[0] != ':' {
        let rest = s.drop_first();
        lemma_first_colon_bounds(rest);
        assert forall|j: int| 0 <= j < first_colon(s) implies s[j] != ':' by {
            if j > 0 {
                assert(s[j] == rest[j - 1]);
            }
        }
    }
}

/// `prefix`, a byte count and "/s".
pub open spec fn rate_text(prefix: Seq<char>, size: Seq<char>) -> Seq<char> {
    prefix + size + "/s"@
}

/// The tooltip: the application's name, then download and upload rates.
pub open spec fn tooltip_spec(recv: Seq<char>, sent: Seq<char>) -> Seq<char> {
    "NeTray\n\u{2193} "@ + recv + "/s  \u{2191} "@ + sent + "/s"@
}

/// One interface line: short name, rates, and the traffic it carried in all.
pub open spec fn interface_line_spec(
    name: Seq<char>,
    recv: Seq<char>,
    sent: Seq<char>,
    total: Seq<char>,
) -> Seq<char> {
    short_name_spec(name) + "  \u{2193} "@ + recv + "/s  \u{2191} "@ + sent + "/s   "@ + total
        + " B"@
}

/// The overall traffic of an interface fits in a `u64`.
pub open spec fn interface_fits(s: InterfaceStats) -> bool {
    s.total_received + s.total_transmitted <= u64::MAX
}

/// `line` is a menu line of the interface `name` with figures `s`: its short
/// name, its rates and its overall traffic, each shown through bytesize.
#[verifier::opaque]
pub open spec fn interface_line_ok(name: Seq<char>, s: InterfaceStats, line: Seq<char>) -> bool {
    exists|r: Seq<char>, t: Seq<char>, a: Seq<char>|
        #![trigger interface_line_spec(name, r, t, a)]
        size_text_ok(s.recv_speed, r) && size_text_ok(s.sent_speed, t) && size_text_ok(
            (s.total_received + s.total_transmitted) as u64,
            a,
        ) && line == interface_line_spec(name, r, t, a)
}

/// `x` is `prefix` followed by a bytesize text of `bytes`.
pub open spec fn amount_ok(prefix: Seq<char>, bytes: u64, x: Seq<char>) -> bool {
    exists|t: Seq<char>| #![trigger prefix + t] size_text_ok(bytes, t) && x == prefix + t
}

/// `x` is `prefix`, a bytesize text of `bytes` and "/s".
pub open spec fn rate_ok(prefix: Seq<char>, bytes: u64, x: Seq<char>) -> bool {
    exists|t: Seq<char>| #![trigger rate_text(prefix, t)] size_text_ok(bytes, t) && x == rate_text(
        prefix,
        t,
    )
}

/// Every text the menu and the status item show for a state.
pub struct MenuTexts {
    pub recv_speed: String,
    pub sent_speed: String,
    pub total_recv: String,
    pub total_sent: String,
    pub peak_recv: String,
    pub peak_sent: String,
    pub title_top: String,
    pub title_bottom: String,
    pub tooltip: String,
    /// One line per interface, or the single line "No active interfaces".
    pub interfaces: Vec<String>,
}

/// The first part of `name`, up to its first `:`: "en0:1" reads "en0".
pub fn short_name(name: &str) -> (s: &str)
    ensures
        s@ == short_name_spec(name@),
{
    let chars = chars_of(name);
    let n = chars.len();
    let mut i: usize = 0;
    while i < n && chars[i] != ':'
        invariant
            n == chars@.len(),
            i <= n,
            forall|j: int| 0 <= j < i ==> chars@[j] != ':',
        decreases n - i,
    {
        i = i + 1;
    }
    proof {
        lemma_first_colon(chars@, i as int);
    }
    name.substring_char(0, i)
}

proof fn lemma_first_colon(s: Seq<char>, i: int)
    requires
        0 <= i <= s.len(),
        forall|j: int| 0 <= j < i ==> s[j] != ':',
        i == s.len() || s[i] == ':',
    ensures
        first_colon(s) == i,
    decreases s.len(),
{
    if s.len() > 0 && i > 0 {
        let rest = s.drop_first();
        assert forall|j: int| 0 <= j < i - 1 implies rest[j] != ':' by {
            assert(rest[j] == s[j + 1]);
        }
        if i < s.len() {
            assert(rest[i - 1] == s[i]);
        }
        lemma_first_colon(rest, i - 1);
    }
}

/// `prefix` followed by `size` and "/s", such as "↓ 4.0 KB/s".
pub fn rate_label(prefix: &str, size: &str) -> (s: String)
    ensures
        s@ == rate_text(prefix@, size@),
{
    let mut s = String::from_str(prefix);
    s.append(size);
    s.append("/s");
    s
}

/// `prefix` followed by `size`, such as "Session ↓ 12.3 MB".
pub fn amount_label(prefix: &str, size: &str) -> (s: String)
    ensures
        s@ == prefix@ + size@,
{
    let mut s = String::from_str(prefix);
    s.append(size);
    s
}

/// The tooltip for the given download and upload byte counts.
pub fn tooltip_text(recv: &str, sent: &str) -> (s: String)
    ensures
        s@ == tooltip_spec(recv@, sent@),
{
    let mut s = String::from_str("NeTray\n\u{2193} ");
    s.append(recv);
    s.append("/s  \u{2191} ");
    s.append(sent);
    s.append("/s");
    s
}

/// The menu line of interface `name` with the given rate and volume texts.
pub fn interface_line(name: &str, recv: &str, sent: &str, total: &str) -> (s: String)
    ensures
        s@ == interface_line_spec(name@, recv@, sent@, total@),
{
    let mut s = String::from_str(short_name(name));
    s.append("  \u{2193} ");
    s.append(recv);
    s.append("/s  \u{2191} ");
    s.append(sent);
    s.append("/s   ");
    s.append(total);
    s.append(" B");
    s
}

/// The menu line of one interface, or `None` when its overall traffic
/// overflows `u64`.
pub fn interface_label(name: &str, stats: &InterfaceStats) -> (s: Option<String>)
    ensures
        match s {
            Some(t) => interface_fits(*stats) && interface_line_ok(name@, *stats, t@),
            None => !interface_fits(*stats),
        },
{
    match stats.total_received.checked_add(stats.total_transmitted) {
        Some(total) => {
            let recv = byte_size(stats.recv_speed);
            let sent = byte_size(stats.sent_speed);
            let all = byte_size(total);
            let line = interface_line(name, recv.as_str(), sent.as_str(), all.as_str());
            assert(interface_line_ok(name@, *stats, line@)) by {
                reveal(interface_line_ok);
                assert(line@ == interface_line_spec(name@, recv@, sent@, all@));
            }
            Some(line)
        },
        None => None,
    }
}

/// Line `k` of `lines` shows interface `k` of `interfaces`.
pub open spec fn line_fits_at(interfaces: Seq<(String, InterfaceStats)>, lines: Seq<String>, k: int) -> bool {
    interface_fits(interfaces[k].1) && interface_line_ok(interfaces[k].0@, interfaces[k].1, lines[k]@)
}

/// The lines of the interface submenu: one per interface, or "No active
/// interfaces" when there is none; `None` when an interface's overall
/// traffic overflows `u64`.
pub fn interface_labels(interfaces: &Vec<(String, InterfaceStats)>) -> (lines: Option<Vec<String>>)
    ensures
        interfaces@.len() == 0 ==> (lines matches Some(v) && v@.len() == 1 && v@[0]@
            == "No active interfaces"@),
        interfaces@.len() > 0 ==> match lines {
            Some(v) => {
                &&& v@.len() == interfaces@.len()
                &&& forall|i: int|
                    0 <= i < v@.len() ==> #[trigger] line_fits_at(interfaces@, v@, i)
            },
            None => exists|i: int|
                0 <= i < interfaces@.len() && !interface_fits(#[trigger] interfaces@[i].1),
        },
{
    let mut lines: Vec<String> = Vec::new();
    let n = interfaces.len();
    if n == 0 {
        lines.push(String::from_str("No active interfaces"));
        return Some(lines);
    }
    for i in 0..n
        invariant
            n == interfaces@.len(),
            lines@.len() == i,
            forall|k: int|
                0 <= k < i ==> line_fits_at(interfaces@, lines@, k),
    {
        let ghost before = lines@;
        match interface_label(interfaces[i].0.as_str(), &interfaces[i].1) {
            Some(line) => {
                assert(interface_fits(interfaces@[i as int].1));
                assert(interface_line_ok(interfaces@[i as int].0@, interfaces@[i as int].1, line@));
                lines.push(line);
                assert forall|k: int| 0 <= k < i + 1 implies #[trigger] line_fits_at(interfaces@, lines@, k) by {
                    if k < i {
                        assert(line_fits_at(interfaces@, before, k));
                        assert(lines@[k] == before[k]);
                    } else {
                        assert(lines@[k] == line);
                    }
                }
            },
            None => {
                assert(!interface_fits(interfaces@[i as int].1));
                return None;
            },
        }
    }
    Some(lines)
}

/// Every text of the menu and the status item for `state`, or `None` when an
/// interface's overall traffic overflows `u64`.
pub fn menu_texts(state: &AppState) -> (t: Option<MenuTexts>)
    ensures
        match t {
            Some(m) => {
                &&& exists|r: Seq<char>, t: Seq<char>|
                    #![trigger tooltip_spec(r, t)]
                    size_text_ok(state.network.recv_speed, r) && size_text_ok(
                        state.network.sent_speed,
                        t,
                    ) && m.recv_speed@ == rate_text("\u{2193} "@, r) && m.sent_speed@ == rate_text(
                        "\u{2191} "@,
                        t,
                    ) && m.tooltip@ == tooltip_spec(r, t)
                &&& amount_ok("Session \u{2193} "@, state.network.total_recv, m.total_recv@)
                &&& amount_ok("Session \u{2191} "@, state.network.total_sent, m.total_sent@)
                &&& rate_ok("Peak \u{2193} "@, state.peak_recv, m.peak_recv@)
                &&& rate_ok("Peak \u{2191} "@, state.peak_sent, m.peak_sent@)
                &&& (m.title_top@, m.title_bottom@) == title_lines_spec(
                    state.network.recv_speed as nat,
                    state.network.sent_speed as nat,
                )
                &&& state.network.interfaces@.len() == 0 ==> m.interfaces@.len() == 1
                    && m.interfaces@[0]@ == "No active interfaces"@
                &&& state.network.interfaces@.len() > 0 ==> {
                    &&& m.interfaces@.len() == state.network.interfaces@.len()
                    &&& forall|i: int|
                        0 <= i < m.interfaces@.len() ==> #[trigger] line_fits_at(
                            state.network.interfaces@,
                            m.interfaces@,
                            i,
                        )
                }
            },
            None => exists|i: int|
                0 <= i < state.network.interfaces@.len() && !interface_fits(
                    #[trigger] state.network.interfaces@[i].1,
                ),
        },
{
    let interfaces = match interface_labels(&state.network.interfaces) {
        Some(v) => v,
        None => {
            return None;
        },
    };
    let recv = byte_size(state.network.recv_speed);
    let sent = byte_size(state.network.sent_speed);
    let (title_top, title_bottom) = title_lines(state.network.recv_speed, state.network.sent_speed);
    let total_recv_size = byte_size(state.network.total_recv);
    let total_sent_size = byte_size(state.network.total_sent);
    let peak_recv_size = byte_size(state.peak_recv);
    let peak_sent_size = byte_size(state.peak_sent);
    let m = MenuTexts {
        recv_speed: rate_label("\u{2193} ", recv.as_str()),
        sent_speed: rate_label("\u{2191} ", sent.as_str()),
        total_recv: amount_label("Session \u{2193} ", total_recv_size.as_str()),
        total_sent: amount_label("Session \u{2191} ", total_sent_size.as_str()),
        peak_recv: rate_label("Peak \u{2193} ", peak_recv_size.as_str()),
        peak_sent: rate_label("Peak \u{2191} ", peak_sent_size.as_str()),
        title_top,
        title_bottom,
        tooltip: tooltip_text(recv.as_str(), sent.as_str()),
        interfaces,
    };
    assert(tooltip_spec(recv@, sent@) == m.tooltip@);
    assert(amount_ok("Session \u{2193} "@, state.network.total_recv, m.total_recv@)) by {
        assert(m.total_recv@ == "Session \u{2193} "@ + total_recv_size@);
    }
    assert(amount_ok("Session \u{2191} "@, state.network.total_sent, m.total_sent@)) by {
        assert(m.total_sent@ == "Session \u{2191} "@ + total_sent_size@);
    }
    assert(rate_ok("Peak \u{2193} "@, state.peak_recv, m.peak_recv@)) by {
        assert(m.peak_recv@ == rate_text("Peak \u{2193} "@, peak_recv_size@));
    }
    assert(rate_ok("Peak \u{2191} "@, state.peak_sent, m.peak_sent@)) by {
        assert(m.peak_sent@ == rate_text("Peak \u{2191} "@, peak_sent_size@));
    }
    Some(m)
}

} // verus!
