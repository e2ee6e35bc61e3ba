//! Per-application network usage from the text `nettop` prints: the samples
//! it holds, the per-process byte deltas between the first and the last
//! sample, summed per application name, busiest applications first.
use vstd::prelude::*;
use crate::ranking::{rank_desc, ranked};
use crate::scan::{
    all_digits, join_range, join_words, lines_of, number_or_zero, parse_number_or_zero,
    split_lines, starts_with_after_blanks, trim_start, views, words, words_of,
};
use crate::table::{get, get_entry, put, put_entry, slot, table_view, lemma_slot, lemma_slot_bounds, Table};
use crate::text::{chars_of, is_ascii_digit, string_of};

verus! {

/// Network usage of one application.
#[derive(Debug)]
pub struct AppUsage {
    pub name: String,
    /// Bytes a second downloaded (nettop's `bytes_in`).
    pub recv_speed: u64,
    /// Bytes a second uploaded (nettop's `bytes_out`).
    pub sent_speed: u64,
}

impl Clone for AppUsage {
    fn clone(&self) -> (c: Self)
        ensures
            c == *self,
    {
        AppUsage { name: self.name.clone(), recv_speed: self.recv_speed, sent_speed: self.sent_speed }
    }
}

/// Applications moving less than this many bytes a second are left out: they
/// would read "0K" in the menu.
pub const MIN_BYTES_PER_SEC: u64 = 1024;

/// `a - b`, or zero when `b` is larger.
pub open spec fn sat_sub(a: u64, b: u64) -> nat {
    if a >= b {
        (a - b) as nat
    } else {
        0
    }
}

/// An application as plain values: name, download and upload speed.
pub open spec fn usage_view(a: AppUsage) -> (Seq<char>, u64, u64) {
    (a.name@, a.recv_speed, a.sent_speed)
}

pub open spec fn usages_view(r: Option<Vec<AppUsage>>) -> Option<Seq<(Seq<char>, u64, u64)>> {
    match r {
        Some(v) => Some(v@.map_values(|a: AppUsage| usage_view(a))),
        None => None,
    }
}

/// Index of the last `.` of `s`, or -1.
pub open spec fn last_dot(s: Seq<char>) -> int
    decreases s.len(),
{
    if s.len() == 0 {
        -1
    } else if s.last() == '.' {
        s.len() - 1
    } else {
        last_dot(s.drop_last())
    }
}

/// The application name of a nettop "NAME.PID" key: the key without a
/// trailing `.` followed by one or more digits, when something precedes the
/// dot; otherwise the whole key.
pub open spec fn strip_pid_spec(key: Seq<char>) -> Seq<char> {
    let i = last_dot(key);
    if i > 0 && all_digits(key.skip(i + 1)) && i + 1 < key.len() {
        key.take(i)
    } else {
        key
    }
}

/// The keyword that opens every nettop sample.
pub open spec fn sample_keyword() -> Seq<char> {
    seq!['t', 'i', 'm', 'e']
}

/// A line that opens a new sample: it starts with "time" once leading
/// whitespace is removed.
pub open spec fn is_sample_header(line: Seq<char>) -> bool {
    sample_keyword().is_prefix_of(trim_start(line))
}

/// The "NAME.PID" key of a data row: every word between the timestamp and the
/// two byte counters, joined by single spaces.
pub open spec fn row_key(ws: Seq<Seq<char>>) -> Seq<char> {
    join_words(ws.subrange(1, ws.len() - 2))
}

/// The samples completed so far and the one being read, if any.
pub type ParseState = (Seq<Table>, Option<Table>);

/// Reads one line of nettop output: a header closes the current sample and
/// opens a new one; a row of at least four words inside a sample records its
/// (bytes_in, bytes_out) counters under its key; anything else is ignored.
pub open spec fn read_line(st: ParseState, line: Seq<char>) -> ParseState {
    if is_sample_header(line) {
        (
            match st.1 {
                Some(t) => st.0.push(t),
                None => st.0,
            },
            Some(Seq::empty()),
        )
    } else {
        match st.1 {
            None => st,
            Some(t) => {
                let ws = words(line);
                if ws.len() < 4 {
                    st
                } else {
                    (
                        st.0,
                        Some(
                            put(
                                t,
                                row_key(ws),
                                number_or_zero(ws[ws.len() - 2]),
                                number_or_zero(ws[ws.len() - 1]),
                            ),
                        ),
                    )
                }
            },
        }
    }
}

pub open spec fn read_lines(lines: Seq<Seq<char>>) -> ParseState
    decreases lines.len(),
{
    if lines.len() == 0 {
        (Seq::empty(), None)
    } else {
        read_line(read_lines(lines.drop_last()), lines.last())
    }
}

/// The samples of a nettop output text, in order.
pub open spec fn nettop_samples(text: Seq<char>) -> Seq<Table> {
    let st = read_lines(split_lines(text));
    match st.1 {
        Some(t) => st.0.push(t),
        None => st.0,
    }
}

pub open spec fn samples_view(v: Seq<Vec<(String, u64, u64)>>) -> Seq<Table> {
    v.map_values(|t: Vec<(String, u64, u64)>| table_view(t@))
}

/// For every key of `last` also present in `first`, in the order of `last`:
/// the application name and how far its counters grew, when they grew.
pub open spec fn deltas(first: Table, last: Table) -> Seq<(Seq<char>, nat, nat)>
    decreases last.len(),
{
    if last.len() == 0 {
        Seq::empty()
    } else {
        let p = deltas(first, last.drop_last());
        let e = last.last();
        match get(first, e.0) {
            None => p,
            Some(v) => {
                let din = sat_sub(e.1, v.0);
                let dout = sat_sub(e.2, v.1);
                if din == 0 && dout == 0 {
                    p
                } else {
                    p.push((strip_pid_spec(e.0), din, dout))
                }
            },
        }
    }
}

/// `g` with the delta `e` added to the entry of its name, or appended.
pub open spec fn group_add(g: Seq<(Seq<char>, nat, nat)>, e: (Seq<char>, nat, nat)) -> Seq<
    (Seq<char>, nat, nat),
> {
    let j = slot(g, e.0) as int;
    if j < g.len() {
        g.update(j, (e.0, g[j].1 + e.1, g[j].2 + e.2))
    } else {
        g.push(e)
    }
}

/// The deltas summed per application name, names in order of first
/// appearance.
pub open spec fn grouped(ds: Seq<(Seq<char>, nat, nat)>) -> Seq<(Seq<char>, nat, nat)>
    decreases ds.len(),
{
    if ds.len() == 0 {
        Seq::empty()
    } else {
        group_add(grouped(ds.drop_last()), ds.last())
    }
}

/// Every application's download and upload add up to a `u64`.
pub open spec fn fits(g: Seq<(Seq<char>, nat, nat)>) -> bool {
    forall|j: int| 0 <= j < g.len() ==> #[trigger] g[j].1 + g[j].2 <= u64::MAX
}

/// An application moving at least `MIN_BYTES_PER_SEC`.
pub open spec fn busy(e: (Seq<char>, nat, nat)) -> bool {
    e.1 + e.2 >= MIN_BYTES_PER_SEC
}

pub open spec fn total_key(e: (Seq<char>, nat, nat)) -> u128 {
    (e.1 + e.2) as u128
}

/// The busy applications of `g`, busiest first, at most `max` of them.
pub open spec fn busiest(g: Seq<(Seq<char>, nat, nat)>, max: nat) -> Seq<(Seq<char>, u64, u64)> {
    let k = g.filter(|e: (Seq<char>, nat, nat)| busy(e));
    let r = ranked(k.map_values(|e: (Seq<char>, nat, nat)| total_key(e)), k.len());
    let n = if max < r.len() {
        max
    } else {
        r.len()
    };
    r.take(n as int).map_values(|j: usize| (k[j as int].0, k[j as int].1 as u64, k[j as int].2 as u64))
}

/// The top `max` applications by throughput between the first and the last
/// of `samples`: nothing with fewer than two samples, and no answer when an
/// application's byte counts would overflow `u64`.
pub open spec fn top_apps(samples: Seq<Table>, max: nat) -> Option<Seq<(Seq<char>, u64, u64)>> {
    if samples.len() < 2 {
        Some(Seq::empty())
    } else {
        let g = grouped(deltas(samples[0], samples.last()));
        if fits(g) {
            Some(busiest(g, max))
        } else {
            None
        }
    }
}

/// The text of a byte string decoded as UTF-8, each invalid sequence
/// replaced by U+FFFD.
pub uninterp spec fn lossy_utf8(bytes: Seq<u8>) -> Seq<char>;

/// Calls `String::from_utf8_lossy`. Trusted: the text is the one the name
/// `lossy_utf8` gives, and equals the decoded bytes when they are valid
/// UTF-8; how invalid input is replaced is left to the name.
#[verifier::external_body]
fn decode_lossy(bytes: &[u8]) -> (s: String)
    ensures
        s@ == lossy_utf8(bytes@),
        vstd::utf8::valid_utf8(bytes@) ==> s@ == vstd::utf8::decode_utf8(bytes@),
{
    String::from_utf8_lossy(bytes).into_owned()
}

/// An application name is its key, or its key with a trailing dot and
/// process id removed: only a final `.` followed by digits is ever cut.
pub proof fn lemma_strip_pid_shape(key: Seq<char>)
    ensures
        strip_pid_spec(key).is_prefix_of(key),
        strip_pid_spec(key) != key ==> {
            &&& key[strip_pid_spec(key).len() as int] == '.'
            &&& strip_pid_spec(key).len() > 0
            &&& key.len() > strip_pid_spec(key).len() + 1
            &&& all_digits(key.skip(strip_pid_spec(key).len() as int + 1))
        },
{
    lemma_last_dot_bounds(key);
    assert(key.take(last_dot(key)) =~= key.subrange(0, last_dot(key)));
}

/// A trailing dot and process id are always cut, whatever the number of
/// digits, when a name precedes them: "Google Chrome H.51234" names
/// "Google Chrome H".
pub proof fn lemma_strip_pid_cuts(name: Seq<char>, pid: Seq<char>)
    requires
        name.len() > 0,
        pid.len() > 0,
        all_digits(pid),
    ensures
        strip_pid_spec(name + seq!['.'] + pid) == name,
{
    let key = name + seq!['.'] + pid;
    let i = name.len() as int;
    assert forall|j: int| i < j < key.len() implies key[j] != '.' by {
        assert(key[j] == pid[j - i - 1]);
        assert(crate::text::is_digit(pid[j - i - 1]));
    }
    lemma_last_dot(key, i);
    assert(key.skip(i + 1) =~= pid);
    assert(key.take(i) =~= name);
}

proof fn lemma_last_dot_bounds(s: Seq<char>)
    ensures
        -1 <= last_dot(s) < s.len(),
        last_dot(s) >= 0 ==> s[last_dot(s)] == '.',
    decreases s.len(),
{
    if s.len() > 0 && s.last() != '.' {
        lemma_last_dot_bounds(s.drop_last());
    }
}

proof fn lemma_last_dot(s: Seq<char>, i: int)
    requires
        -1 <= i < s.len(),
        i >= 0 ==> s[i] == '.',
        forall|j: int| i < j < s.len() ==> s[j] != '.',
    ensures
        last_dot(s) == i,
    decreases s.len(),
{
    if s.len() > 0 && i < s.len() - 1 {
        lemma_last_dot(s.drop_last(), i);
    }
}

/// "Google Chrome H.5231" becomes "Google Chrome H": the process id after
/// the last dot is removed, and a key not ending in ".<digits>" is kept whole.
pub fn strip_pid(key: &str) -> (name: String)
    ensures
        name@ == strip_pid_spec(key@),
{
    let chars = chars_of(key);
    let n = chars.len();
    let mut i = n;
    while i > 0 && chars[i - 1] != '.'
        invariant
            n == chars@.len(),
            i <= n,
            forall|j: int| i <= j < n ==> chars@[j] != '.',
        decreases i,
    {
        i = i - 1;
    }
    proof {
        lemma_last_dot(chars@, i - 1);
    }
    if i > 1 && i < n {
        let mut all = true;
        let mut j = i;
        while j < n
            invariant
                n == chars@.len(),
                1 < i <= j <= n,
                all == (forall|t: int| i <= t < j ==> #[trigger] crate::text::is_digit(chars@[t])),
            decreases n - j,
        {
            let d = is_ascii_digit(chars[j]);
            all = all && d;
            j = j + 1;
        }
        assert(all == all_digits(chars@.skip(i as int))) by {
            if all {
                assert forall|t: int| 0 <= t < chars@.skip(i as int).len() implies crate::text::is_digit(
                    #[trigger] chars@.skip(i as int)[t],
                ) by {
                    assert(chars@.skip(i as int)[t] == chars@[i + t]);
                }
            } else {
                let t = choose|t: int| i <= t < n && !crate::text::is_digit(#[trigger] chars@[t]);
                assert(chars@.skip(i as int)[t - i] == chars@[t]);
            }
        }
        if all {
            let mut out = String::new();
            let mut k: usize = 0;
            while k < i - 1
                invariant
                    n == chars@.len(),
                    1 < i <= n,
                    k <= i - 1,
                    out@ == chars@.take(k as int),
                decreases i - 1 - k,
            {
                out.push(chars[k]);
                assert(chars@.take(k + 1) =~= chars@.take(k as int).push(chars@[k as int]));
                k = k + 1;
            }
            return out;
        }
    }
    let out = string_of(chars.as_slice());
    out
}

spec fn state_view(samples: Seq<Vec<(String, u64, u64)>>, current: Seq<(String, u64, u64)>, open: bool) -> ParseState {
    (samples_view(samples), if open { Some(table_view(current)) } else { None })
}

/// The samples of a nettop output text, in order; each maps a "NAME.PID"
/// key to its (bytes_in, bytes_out) counters.
pub fn parse_nettop(text: &str) -> (samples: Vec<Vec<(String, u64, u64)>>)
    ensures
        samples_view(samples@) == nettop_samples(text@),
{
    let chars = chars_of(text);
    let lines = lines_of(&chars);
    let keyword: [char; 4] = ['t', 'i', 'm', 'e'];
    assert(keyword@ =~= sample_keyword());
    let ghost all = views(lines@);
    let mut samples: Vec<Vec<(String, u64, u64)>> = Vec::new();
    let mut current: Vec<(String, u64, u64)> = Vec::new();
    let mut open = false;
    let n = lines.len();
    for i in 0..n
        invariant
            n == lines@.len(),
            all == views(lines@),
            all == split_lines(text@),
            keyword@ == sample_keyword(),
            state_view(samples@, current@, open) == read_lines(all.take(i as int)),
    {
        let line = &lines[i];
        assert(all.take(i + 1).drop_last() =~= all.take(i as int));
        assert(all.take(i + 1).last() == line@);
        let ghost before = state_view(samples@, current@, open);
        if starts_with_after_blanks(line, &keyword) {
            if open {
                samples.push(current);
                assert(samples_view(samples@) =~= before.0.push(before.1.unwrap()));
            }
            current = Vec::new();
            open = true;
            assert(table_view(current@) =~= Seq::<(Seq<char>, u64, u64)>::empty());
        } else if open {
            let ws = words_of(line);
            let m = ws.len();
            if m >= 4 {
                let key_chars = join_range(&ws, 1, m - 2);
                let key = string_of(key_chars.as_slice());
                let bytes_in = parse_number_or_zero(&ws[m - 2]);
                let bytes_out = parse_number_or_zero(&ws[m - 1]);
                assert(views(ws@).subrange(1, m - 2) =~= views(ws@.subrange(1, m - 2)));
                put_entry(&mut current, &key, bytes_in, bytes_out);
            }
        }
    }
    assert(all.take(n as int) =~= all);
    if open {
        samples.push(current);
    }
    assert(samples_view(samples@) =~= nettop_samples(text@));
    samples
}

spec fn groups_view(g: Seq<(String, u128, u128)>) -> Seq<(Seq<char>, nat, nat)> {
    g.map_values(|e: (String, u128, u128)| (e.0@, e.1 as nat, e.2 as nat))
}

fn find_group(groups: &Vec<(String, u128, u128)>, name: &String) -> (j: usize)
    ensures
        j == slot(groups_view(groups@), name@),
{
    let ghost g = groups_view(groups@);
    let n = groups.len();
    let mut j: usize = 0;
    while j < n && groups[j].0 != *name
        invariant
            n == groups@.len(),
            g == groups_view(groups@),
            j <= n,
            forall|k: int| 0 <= k < j ==> g[k].0 != name@,
        decreases n - j,
    {
        j = j + 1;
    }
    proof {
        lemma_slot(g, name@, j as int);
    }
    j
}

/// Sums the deltas of `last` against `first` per application name.
fn group_deltas(first: &Vec<(String, u64, u64)>, last: &Vec<(String, u64, u64)>) -> (groups: Vec<
    (String, u128, u128),
>)
    ensures
        groups_view(groups@) == grouped(deltas(table_view(first@), table_view(last@))),
{
    let ghost ft = table_view(first@);
    let ghost lt = table_view(last@);
    let n = last.len();
    let mut groups: Vec<(String, u128, u128)> = Vec::new();
    for i in 0..n
        invariant
            n == last@.len(),
            ft == table_view(first@),
            lt == table_view(last@),
            groups_view(groups@) == grouped(deltas(ft, lt.take(i as int))),
            forall|j: int|
                0 <= j < groups@.len() ==> #[trigger] groups@[j].1 <= i * 0xFFFF_FFFF_FFFF_FFFFu128
                    && groups@[j].2 <= i * 0xFFFF_FFFF_FFFF_FFFFu128,
    {
        let e = &last[i];
        assert(lt.take(i + 1).drop_last() =~= lt.take(i as int));
        assert(lt.take(i + 1).last() == lt[i as int]);
        assert(lt[i as int] == (e.0@, e.1, e.2));
        let ghost prev = deltas(ft, lt.take(i as int));
        let ghost g0 = groups_view(groups@);
        let ghost old_groups = groups@;
        assert(g0 == grouped(prev));
        match get_entry(first, &e.0) {
            Some((in1, out1)) => {
                let din = e.1.saturating_sub(in1);
                let dout = e.2.saturating_sub(out1);
                assert(din == sat_sub(e.1, in1));
                assert(dout == sat_sub(e.2, out1));
                if !(din == 0 && dout == 0) {
                    let name = strip_pid(e.0.as_str());
                    let j = find_group(&groups, &name);
                    proof {
                        lemma_slot_bounds(g0, name@);
                    }
                    if j < groups.len() {
                        let (a, b) = (groups[j].1, groups[j].2);
                        assert(a <= i * 0xFFFF_FFFF_FFFF_FFFFu128);
                        assert(b <= i * 0xFFFF_FFFF_FFFF_FFFFu128);
                        groups.set(j, (name, a + din as u128, b + dout as u128));
                    } else {
                        groups.push((name, din as u128, dout as u128));
                    }
                    let ghost item = (strip_pid_spec(e.0@), din as nat, dout as nat);
                    assert(deltas(ft, lt.take(i + 1)) == prev.push(item));
                    assert(prev.push(item).drop_last() =~= prev);
                    assert(groups_view(groups@) =~= group_add(g0, item));
                } else {
                    assert(deltas(ft, lt.take(i + 1)) == prev);
                }
            },
            None => {
                assert(deltas(ft, lt.take(i + 1)) == prev);
            },
        }
        assert forall|j: int| 0 <= j < groups@.len() implies #[trigger] groups@[j].1 <= (i + 1)
            * 0xFFFF_FFFF_FFFF_FFFFu128 && groups@[j].2 <= (i + 1) * 0xFFFF_FFFF_FFFF_FFFFu128 by {
            if j < old_groups.len() {
                assert(old_groups[j].1 <= i * 0xFFFF_FFFF_FFFF_FFFFu128);
                assert(old_groups[j].2 <= i * 0xFFFF_FFFF_FFFF_FFFFu128);
            }
        }
    }
    assert(lt.take(n as int) =~= lt);
    groups
}

/// The top `max` applications by throughput between the first and the last
/// of `samples`, or `None` when an application's byte counts overflow `u64`.
pub fn top_apps_from_samples(samples: &Vec<Vec<(String, u64, u64)>>, max: usize) -> (r: Option<
    Vec<AppUsage>,
>)
    ensures
        usages_view(r) == top_apps(samples_view(samples@), max as nat),
{
    if samples.len() < 2 {
        let v: Vec<AppUsage> = Vec::new();
        assert(v@.map_values(|a: AppUsage| usage_view(a)) =~= Seq::empty());
        return Some(v);
    }
    let ghost sv = samples_view(samples@);
    let first = &samples[0];
    let last = &samples[samples.len() - 1];
    assert(sv[0] == table_view(first@));
    assert(sv.last() == table_view(last@));
    let groups = group_deltas(first, last);
    let ghost g = groups_view(groups@);
    let n = groups.len();
    for j in 0..n
        invariant
            n == groups@.len(),
            g == groups_view(groups@),
            sv == samples_view(samples@),
            sv.len() >= 2,
            g == grouped(deltas(sv[0], sv.last())),
            forall|t: int| 0 <= t < j ==> #[trigger] g[t].1 + g[t].2 <= u64::MAX,
    {
        if groups[j].1 > u64::MAX as u128 || groups[j].2 > u64::MAX as u128 || groups[j].1
            + groups[j].2 > u64::MAX as u128 {
            assert(!fits(g)) by {
                assert(g[j as int].1 + g[j as int].2 > u64::MAX);
            }
            return None;
        }
    }
    assert(fits(g));
    let ghost pred = |e: (Seq<char>, nat, nat)| busy(e);
    let mut kept: Vec<(String, u64, u64)> = Vec::new();
    let mut keys: Vec<u128> = Vec::new();
    for j in 0..n
        invariant
            n == groups@.len(),
            g == groups_view(groups@),
            fits(g),
            pred == (|e: (Seq<char>, nat, nat)| busy(e)),
            kept@.len() == keys@.len(),
            kept@.map_values(|e: (String, u64, u64)| (e.0@, e.1 as nat, e.2 as nat)) == g.take(
                j as int,
            ).filter(pred),
            keys@ == g.take(j as int).filter(pred).map_values(
                |e: (Seq<char>, nat, nat)| total_key(e),
            ),
    {
        let ghost fs = g.take(j as int).filter(pred);
        assert(g.take(j + 1).drop_last() =~= g.take(j as int));
        assert(g.take(j + 1).last() == g[j as int]);
        assert(g[j as int].1 + g[j as int].2 <= u64::MAX);
        let a = groups[j].1 as u64;
        let b = groups[j].2 as u64;
        let keep = a as u128 + b as u128 >= MIN_BYTES_PER_SEC as u128;
        proof {
            reveal(Seq::filter);
            assert(pred(g[j as int]) == keep);
        }
        if keep {
            kept.push((groups[j].0.clone(), a, b));
            keys.push(a as u128 + b as u128);
        }
        assert(kept@.map_values(|e: (String, u64, u64)| (e.0@, e.1 as nat, e.2 as nat))
            =~= g.take(j + 1).filter(pred));
        assert(keys@ =~= g.take(j + 1).filter(pred).map_values(
            |e: (Seq<char>, nat, nat)| total_key(e),
        ));
    }
    assert(g.take(n as int) =~= g);
    let ghost k = g.filter(pred);
    let order = rank_desc(&keys);
    proof {
        crate::ranking::lemma_ranked(keys@, keys@.len());
    }
    let count = if max < order.len() {
        max
    } else {
        order.len()
    };
    let ghost expected = busiest(g, max as nat);
    assert(expected =~= order@.take(count as int).map_values(
        |i: usize| (k[i as int].0, k[i as int].1 as u64, k[i as int].2 as u64),
    ));
    let mut apps: Vec<AppUsage> = Vec::new();
    for t in 0..count
        invariant
            count <= order@.len(),
            crate::ranking::permutes(order@, keys@.len()),
            kept@.len() == keys@.len(),
            k.len() == keys@.len(),
            kept@.map_values(|e: (String, u64, u64)| (e.0@, e.1 as nat, e.2 as nat)) == k,
            expected == order@.take(count as int).map_values(
                |i: usize| (k[i as int].0, k[i as int].1 as u64, k[i as int].2 as u64),
            ),
            apps@.len() == t,
            forall|u: int| 0 <= u < t ==> usage_view(#[trigger] apps@[u]) == expected[u],
    {
        let e = &kept[order[t]];
        assert(k[order@[t as int] as int] == (e.0@, e.1 as nat, e.2 as nat));
        apps.push(AppUsage { name: e.0.clone(), recv_speed: e.1, sent_speed: e.2 });
    }
    assert(apps@.map_values(|a: AppUsage| usage_view(a)) =~= expected);
    Some(apps)
}

/// The top `max` applications by throughput in a nettop output text.
pub fn top_apps_from_text(text: &str, max: usize) -> (r: Option<Vec<AppUsage>>)
    ensures
        usages_view(r) == top_apps(nettop_samples(text@), max as nat),
{
    let samples = parse_nettop(text);
    top_apps_from_samples(&samples, max)
}

/// The top `max` applications by throughput in the raw bytes nettop printed.
pub fn top_apps_from_output(stdout: &[u8], max: usize) -> (r: Option<Vec<AppUsage>>)
    ensures
        usages_view(r) == top_apps(nettop_samples(lossy_utf8(stdout@)), max as nat),
        vstd::utf8::valid_utf8(stdout@) ==> usages_view(r) == top_apps(
            nettop_samples(vstd::utf8::decode_utf8(stdout@)),
            max as nat,
        ),
{
    let text = decode_lossy(stdout);
    top_apps_from_text(text.as_str(), max)
}

/// No application name occurs twice.
pub open spec fn distinct_apps<A, B>(g: Seq<(Seq<char>, A, B)>) -> bool {
    forall|i: int, j: int| 0 <= i < j < g.len() ==> g[i].0 != g[j].0
}

proof fn lemma_deltas_len(first: Table, last: Table)
    ensures
        deltas(first, last).len() <= last.len(),
    decreases last.len(),
{
    if last.len() > 0 {
        lemma_deltas_len(first, last.drop_last());
    }
}

proof fn lemma_grouped(ds: Seq<(Seq<char>, nat, nat)>)
    ensures
        grouped(ds).len() <= ds.len(),
        distinct_apps(grouped(ds)),
    decreases ds.len(),
{
    if ds.len() > 0 {
        let g = grouped(ds.drop_last());
        lemma_grouped(ds.drop_last());
        lemma_slot_bounds(g, ds.last().0);
    }
}

proof fn lemma_filter_distinct(g: Seq<(Seq<char>, nat, nat)>, pred: spec_fn((Seq<char>, nat, nat)) -> bool)
    requires
        distinct_apps(g),
    ensures
        distinct_apps(g.filter(pred)),
    decreases g.len(),
{
    reveal(Seq::filter);
    if g.len() > 0 {
        let rest = g.drop_last();
        lemma_filter_distinct(rest, pred);
        if pred(g.last()) {
            let f = rest.filter(pred);
            assert forall|i: int| 0 <= i < f.len() implies f[i].0 != g.last().0 by {
                assert(f.contains(f[i]));
                rest.lemma_filter_contains_rev(pred, f[i]);
                let k = choose|k: int| 0 <= k < rest.len() && rest[k] == f[i];
                assert(g[k] == rest[k]);
            }
        }
    }
}

/// The application list holds at most `max` applications, each under its own
/// name, each moving at least `MIN_BYTES_PER_SEC`, busiest first.
pub proof fn lemma_top_apps(samples: Seq<Table>, max: nat)
    requires
        samples.len() >= 2 ==> samples.last().len() <= usize::MAX,
    ensures
        top_apps(samples, max) matches Some(list) ==> {
            &&& list.len() <= max
            &&& distinct_apps(list)
            &&& forall|k: int| 0 <= k < list.len() ==> #[trigger] list[k].1 + list[k].2 >= MIN_BYTES_PER_SEC
            &&& forall|a: int, b: int|
                0 <= a < b < list.len() ==> #[trigger] list[a].1 + list[a].2 >= #[trigger] list[b].1
                    + list[b].2
        },
{
    if samples.len() >= 2 {
        let ds = deltas(samples[0], samples.last());
        let g = grouped(ds);
        lemma_deltas_len(samples[0], samples.last());
        lemma_grouped(ds);
        if fits(g) {
            let pred = |e: (Seq<char>, nat, nat)| busy(e);
            let k = g.filter(pred);
            g.lemma_filter_len(pred);
            lemma_filter_distinct(g, pred);
            let keys = k.map_values(|e: (Seq<char>, nat, nat)| total_key(e));
            crate::ranking::lemma_ranked(keys, k.len());
            let r = ranked(keys, k.len());
            let n = if max < r.len() {
                max
            } else {
                r.len()
            };
            let list = busiest(g, max);
            assert(list == r.take(n as int).map_values(
                |j: usize| (k[j as int].0, k[j as int].1 as u64, k[j as int].2 as u64),
            ));
            assert forall|t: int| 0 <= t < k.len() implies #[trigger] k[t].1 + k[t].2 <= u64::MAX
                && busy(k[t]) by {
                g.lemma_filter_pred(pred, t);
                assert(k.contains(k[t]));
                g.lemma_filter_contains_rev(pred, k[t]);
                let i = choose|i: int| 0 <= i < g.len() && g[i] == k[t];
                assert(g[i].1 + g[i].2 <= u64::MAX);
            }
            assert forall|a: int, b: int| 0 <= a < b < list.len() implies #[trigger] list[a].1
                + list[a].2 >= #[trigger] list[b].1 + list[b].2 by {
                assert(keys[r[a] as int] >= keys[r[b] as int]);
                assert(k[r[a] as int].1 + k[r[a] as int].2 <= u64::MAX);
                assert(k[r[b] as int].1 + k[r[b] as int].2 <= u64::MAX);
            }
            assert forall|t: int| 0 <= t < list.len() implies #[trigger] list[t].1 + list[t].2
                >= MIN_BYTES_PER_SEC by {
                assert(k[r[t] as int].1 + k[r[t] as int].2 <= u64::MAX);
                assert(busy(k[r[t] as int]));
            }
            assert forall|a: int, b: int| 0 <= a < b < list.len() implies list[a].0 != list[b].0 by {
                assert(r[a] != r[b]);
            }
        }
    }
}

/// The application list is complete: an application whose download and
/// upload add up to at least `MIN_BYTES_PER_SEC` is listed, with its sums,
/// unless the list already holds `max` applications each moving at least as
/// much; and every listed application is such an application.
pub proof fn lemma_top_apps_complete(samples: Seq<Table>, max: nat)
    requires
        samples.len() >= 2,
        samples.last().len() <= usize::MAX,
    ensures
        top_apps(samples, max) matches Some(list) ==> ({
            let g = grouped(deltas(samples[0], samples.last()));
            &&& forall|j: int|
                0 <= j < g.len() && #[trigger] g[j].1 + g[j].2 >= MIN_BYTES_PER_SEC ==> {
                    ||| list.contains((g[j].0, g[j].1 as u64, g[j].2 as u64))
                    ||| list.len() == max && forall|k: int|
                        0 <= k < list.len() ==> #[trigger] list[k].1 + list[k].2 >= g[j].1 + g[j].2
                }
            &&& forall|k: int|
                0 <= k < list.len() ==> exists|j: int|
                    0 <= j < g.len() && g[j].1 + g[j].2 >= MIN_BYTES_PER_SEC && #[trigger] list[k]
                        == (g[j].0, g[j].1 as u64, g[j].2 as u64)
        }),
{
    let ds = deltas(samples[0], samples.last());
    let g = grouped(ds);
    lemma_deltas_len(samples[0], samples.last());
    lemma_grouped(ds);
    if fits(g) {
        let pred = |e: (Seq<char>, nat, nat)| busy(e);
        let k = g.filter(pred);
        g.lemma_filter_len(pred);
        let keys = k.map_values(|e: (Seq<char>, nat, nat)| total_key(e));
        crate::ranking::lemma_ranked(keys, k.len());
        let r = ranked(keys, k.len());
        let n = if max < r.len() {
            max
        } else {
            r.len()
        };
        let list = busiest(g, max);
        assert(top_apps(samples, max) == Some(list));
        assert(list == r.take(n as int).map_values(
            |j: usize| (k[j as int].0, k[j as int].1 as u64, k[j as int].2 as u64),
        ));
        assert forall|t: int| 0 <= t < k.len() implies exists|j: int|
            0 <= j < g.len() && #[trigger] k[t] == g[j] && busy(k[t]) by {
            g.lemma_filter_pred(pred, t);
            assert(k.contains(k[t]));
            g.lemma_filter_contains_rev(pred, k[t]);
        }
        assert forall|j: int|
            0 <= j < g.len() && #[trigger] g[j].1 + g[j].2 >= MIN_BYTES_PER_SEC implies {
            ||| list.contains((g[j].0, g[j].1 as u64, g[j].2 as u64))
            ||| list.len() == max && forall|kk: int|
                0 <= kk < list.len() ==> #[trigger] list[kk].1 + list[kk].2 >= g[j].1 + g[j].2
        } by {
            assert(busy(g[j]));
            g.lemma_filter_contains(pred, j);
            let t = choose|t: int| 0 <= t < k.len() && k[t] == g[j];
            crate::ranking::lemma_permutes_onto(r, k.len());
            assert(crate::ranking::lists(r, t));
            let s = choose|s: int| 0 <= s < r.len() && r[s] == t;
            if s < n {
                assert(list[s] == (g[j].0, g[j].1 as u64, g[j].2 as u64));
                assert(list.contains(list[s]));
            } else {
                assert forall|kk: int| 0 <= kk < list.len() implies #[trigger] list[kk].1
                    + list[kk].2 >= g[j].1 + g[j].2 by {
                    assert(keys[r[kk] as int] >= keys[r[s] as int]);
                    let u = r[kk] as int;
                    let w = choose|w: int| 0 <= w < g.len() && k[u] == g[w] && busy(k[u]);
                    assert(g[w].1 + g[w].2 <= u64::MAX);
                    assert(g[j].1 + g[j].2 <= u64::MAX);
                    assert(list[kk] == (k[u].0, k[u].1 as u64, k[u].2 as u64));
                }
            }
        }
        assert forall|kk: int| 0 <= kk < list.len() implies exists|j: int|
            0 <= j < g.len() && g[j].1 + g[j].2 >= MIN_BYTES_PER_SEC && #[trigger] list[kk] == (
                g[j].0,
                g[j].1 as u64,
                g[j].2 as u64,
            ) by {
            let u = r[kk] as int;
            let w = choose|w: int| 0 <= w < g.len() && k[u] == g[w] && busy(k[u]);
            assert(list[kk] == (g[w].0, g[w].1 as u64, g[w].2 as u64));
        }
    }
}

/// How far a counter grew from `before` to `after`, or zero.
pub open spec fn growth(after: u64, before: u64) -> nat {
    if after >= before {
        (after - before) as nat
    } else {
        0
    }
}

/// Every process present in both samples whose download or upload counter
/// grew gives one delta, under its application name, with both growths, and
/// every delta comes from such a process: a process is left out only when
/// neither counter grew.
#[verifier::spinoff_prover]
pub proof fn lemma_deltas(first: Table, last: Table)
    ensures
        forall|m: int|
            #![trigger last[m]]
            0 <= m < last.len() && get(first, last[m].0) is Some && (growth(
                last[m].1,
                get(first, last[m].0).unwrap().0,
            ) > 0 || growth(last[m].2, get(first, last[m].0).unwrap().1) > 0) ==> deltas(
                first,
                last,
            ).contains(
                (
                    strip_pid_spec(last[m].0),
                    growth(last[m].1, get(first, last[m].0).unwrap().0),
                    growth(last[m].2, get(first, last[m].0).unwrap().1),
                ),
            ),
        forall|t: int|
            0 <= t < deltas(first, last).len() ==> exists|m: int|
                0 <= m < last.len() && get(first, last[m].0) is Some && (growth(
                    last[m].1,
                    get(first, last[m].0).unwrap().0,
                ) > 0 || growth(last[m].2, get(first, last[m].0).unwrap().1) > 0)
                    && #[trigger] deltas(first, last)[t] == (
                    strip_pid_spec(last[m].0),
                    growth(last[m].1, get(first, last[m].0).unwrap().0),
                    growth(last[m].2, get(first, last[m].0).unwrap().1),
                ),
    decreases last.len(),
{
    if last.len() > 0 {
        let rest = last.drop_last();
        lemma_deltas(first, rest);
        let p = deltas(first, rest);
        let d = deltas(first, last);
        let e = last.last();
        assert forall|m: int|
            #![trigger last[m]]
            0 <= m < last.len() && get(first, last[m].0) is Some && (growth(
                last[m].1,
                get(first, last[m].0).unwrap().0,
            ) > 0 || growth(last[m].2, get(first, last[m].0).unwrap().1) > 0) implies d.contains(
            (
                strip_pid_spec(last[m].0),
                growth(last[m].1, get(first, last[m].0).unwrap().0),
                growth(last[m].2, get(first, last[m].0).unwrap().1),
            ),
        ) by {
            if m < last.len() - 1 {
                assert(last[m] == rest[m]);
                let x = (
                    strip_pid_spec(rest[m].0),
                    growth(rest[m].1, get(first, rest[m].0).unwrap().0),
                    growth(rest[m].2, get(first, rest[m].0).unwrap().1),
                );
                assert(p.contains(x));
                let i = choose|i: int| 0 <= i < p.len() && p[i] == x;
                assert(d[i] == x);
            } else {
                assert(last[m] == e);
                assert(d == p.push(
                    (
                        strip_pid_spec(e.0),
                        growth(e.1, get(first, e.0).unwrap().0),
                        growth(e.2, get(first, e.0).unwrap().1),
                    ),
                ));
                assert(d[p.len() as int] == d.last());
            }
        }
        assert forall|t: int| 0 <= t < d.len() implies exists|m: int|
            0 <= m < last.len() && get(first, last[m].0) is Some && (growth(
                last[m].1,
                get(first, last[m].0).unwrap().0,
            ) > 0 || growth(last[m].2, get(first, last[m].0).unwrap().1) > 0) && #[trigger] d[t] == (
                strip_pid_spec(last[m].0),
                growth(last[m].1, get(first, last[m].0).unwrap().0),
                growth(last[m].2, get(first, last[m].0).unwrap().1),
            ) by {
            if t < p.len() {
                assert(d[t] == p[t]);
                let m = choose|m: int|
                    0 <= m < rest.len() && get(first, rest[m].0) is Some && (growth(
                        rest[m].1,
                        get(first, rest[m].0).unwrap().0,
                    ) > 0 || growth(rest[m].2, get(first, rest[m].0).unwrap().1) > 0) && #[trigger] p[t]
                        == (
                        strip_pid_spec(rest[m].0),
                        growth(rest[m].1, get(first, rest[m].0).unwrap().0),
                        growth(rest[m].2, get(first, rest[m].0).unwrap().1),
                    );
                assert(last[m] == rest[m]);
            } else {
                let m = last.len() - 1;
                assert(last[m] == e);
                let v = get(first, e.0);
                if v is None {
                    assert(d == p);
                } else {
                    let x = (
                        strip_pid_spec(e.0),
                        growth(e.1, v.unwrap().0),
                        growth(e.2, v.unwrap().1),
                    );
                    if x.1 == 0 && x.2 == 0 {
                        assert(d == p);
                    } else {
                        assert(d == p.push(x));
                        assert(d[t] == x);
                    }
                }
            }
        }
    }
}

/// The download bytes of the deltas named `name`.
pub open spec fn in_sum(ds: Seq<(Seq<char>, nat, nat)>, name: Seq<char>) -> nat
    decreases ds.len(),
{
    if ds.len() == 0 {
        0
    } else {
        in_sum(ds.drop_last(), name) + if ds.last().0 == name {
            ds.last().1
        } else {
            0
        }
    }
}

/// The upload bytes of the deltas named `name`.
pub open spec fn out_sum(ds: Seq<(Seq<char>, nat, nat)>, name: Seq<char>) -> nat
    decreases ds.len(),
{
    if ds.len() == 0 {
        0
    } else {
        out_sum(ds.drop_last(), name) + if ds.last().0 == name {
            ds.last().2
        } else {
            0
        }
    }
}

/// Grouping lists every application name of the deltas once, with the sums
/// of all its deltas' downloads and uploads; a name it does not list has no
/// delta.
pub proof fn lemma_grouped_sums(ds: Seq<(Seq<char>, nat, nat)>)
    ensures
        distinct_apps(grouped(ds)),
        forall|j: int|
            0 <= j < grouped(ds).len() ==> #[trigger] grouped(ds)[j].1 == in_sum(ds, grouped(ds)[j].0)
                && grouped(ds)[j].2 == out_sum(ds, grouped(ds)[j].0),
        forall|i: int|
            0 <= i < ds.len() ==> exists|j: int|
                0 <= j < grouped(ds).len() && #[trigger] grouped(ds)[j].0 == #[trigger] ds[i].0,
        forall|name: Seq<char>|
            (forall|j: int| 0 <= j < grouped(ds).len() ==> grouped(ds)[j].0 != name) ==> in_sum(
                ds,
                name,
            ) == 0 && out_sum(ds, name) == 0,
    decreases ds.len(),
{
    lemma_grouped(ds);
    if ds.len() > 0 {
        let rest = ds.drop_last();
        lemma_grouped_sums(rest);
        let g = grouped(rest);
        let e = ds.last();
        let g2 = grouped(ds);
        assert(g2 == group_add(g, e));
        lemma_slot_bounds(g, e.0);
        let js = slot(g, e.0) as int;
        assert(ds.drop_last() == rest);
        if js == g.len() {
            assert forall|j: int| 0 <= j < g.len() implies g[j].0 != e.0 by {}
            assert(in_sum(rest, e.0) == 0 && out_sum(rest, e.0) == 0);
        }
        assert forall|j: int| 0 <= j < g2.len() implies #[trigger] g2[j].1 == in_sum(ds, g2[j].0)
            && g2[j].2 == out_sum(ds, g2[j].0) by {
            let x = g2[j].0;
            assert(in_sum(ds, x) == in_sum(rest, x) + if e.0 == x {
                e.1
            } else {
                0
            });
            assert(out_sum(ds, x) == out_sum(rest, x) + if e.0 == x {
                e.2
            } else {
                0
            });
            if j < g.len() && j != js {
                assert(g2[j] == g[j]);
                assert(g[j].1 == in_sum(rest, g[j].0));
                if js < g.len() {
                    assert(g[j].0 != g[js].0);
                } else {
                    assert(g[j].0 != e.0);
                }
            } else if j < g.len() {
                assert(g[js].1 == in_sum(rest, g[js].0));
                assert(g[js].0 == e.0);
            } else {
                assert(g2[j] == e);
            }
        }
        assert forall|i: int| 0 <= i < ds.len() implies exists|j: int|
            0 <= j < g2.len() && #[trigger] g2[j].0 == #[trigger] ds[i].0 by {
            if i < rest.len() {
                assert(ds[i] == rest[i]);
                let j = choose|j: int| 0 <= j < g.len() && #[trigger] g[j].0 == rest[i].0;
                assert(g2[j].0 == g[j].0);
            } else {
                if js < g.len() {
                    assert(g2[js].0 == e.0);
                } else {
                    assert(g2[g.len() as int] == e);
                }
            }
        }
        assert forall|name: Seq<char>|
            (forall|j: int| 0 <= j < g2.len() ==> g2[j].0 != name) implies in_sum(ds, name) == 0
            && out_sum(ds, name) == 0 by {
            assert forall|j: int| 0 <= j < g.len() implies g[j].0 != name by {
                assert(g2[j].0 == g[j].0);
            }
            assert(in_sum(rest, name) == 0 && out_sum(rest, name) == 0);
            if js < g.len() {
                assert(g2[js].0 == e.0);
            } else {
                assert(g2[g.len() as int] == e);
            }
            assert(e.0 != name);
            assert(in_sum(ds, name) == in_sum(rest, name));
            assert(out_sum(ds, name) == out_sum(rest, name));
        }
    }
}

/// How one line of nettop output is read. A line starting with "time" (after
/// blanks) closes the sample being read and opens an empty one. Inside a
/// sample, a row of at least four words records, under the words between the
/// timestamp and the last two, its second-to-last number as bytes in and its
/// last as bytes out, and leaves every other key as it was. Any other line
/// changes nothing.
pub proof fn lemma_read_line(st: ParseState, line: Seq<char>)
    ensures
        seq!['t', 'i', 'm', 'e'].is_prefix_of(trim_start(line)) ==> {
            &&& read_line(st, line).1 == Some(Seq::<(Seq<char>, u64, u64)>::empty())
            &&& read_line(st, line).0 == if st.1 is Some {
                st.0.push(st.1.unwrap())
            } else {
                st.0
            }
        },
        !seq!['t', 'i', 'm', 'e'].is_prefix_of(trim_start(line)) && st.1 is Some && words(line).len()
            >= 4 ==> {
            let ws = words(line);
            let key = join_words(ws.subrange(1, ws.len() - 2));
            let t = read_line(st, line).1.unwrap();
            &&& read_line(st, line).0 == st.0
            &&& read_line(st, line).1 is Some
            &&& get(t, key) == Some(
                (number_or_zero(ws[ws.len() - 2]), number_or_zero(ws[ws.len() - 1])),
            )
            &&& forall|other: Seq<char>| other != key ==> #[trigger] get(t, other) == get(
                st.1.unwrap(),
                other,
            )
        },
        !seq!['t', 'i', 'm', 'e'].is_prefix_of(trim_start(line)) && (st.1 is None || words(
            line,
        ).len() < 4) ==> read_line(st, line) == st,
{
    assert(sample_keyword() == seq!['t', 'i', 'm', 'e']);
    if !is_sample_header(line) && st.1 is Some && words(line).len() >= 4 {
        let ws = words(line);
        let key = join_words(ws.subrange(1, ws.len() - 2));
        let a = number_or_zero(ws[ws.len() - 2]);
        let b = number_or_zero(ws[ws.len() - 1]);
        crate::table::lemma_put_get(st.1.unwrap(), key, a, b, key);
        assert forall|other: Seq<char>| other != key implies #[trigger] get(
            read_line(st, line).1.unwrap(),
            other,
        ) == get(st.1.unwrap(), other) by {
            crate::table::lemma_put_get(st.1.unwrap(), key, a, b, other);
        }
    }
}

} // verus!
