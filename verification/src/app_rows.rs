//! The layout of the "Active apps" rows of the menu: the text of each row,
//! its three tab-separated columns, the magnitude class that picks a
//! column's color, and the appearance check.
use vstd::prelude::*;
use crate::app_monitor::AppUsage;
use crate::speed::{format_speed_bytes, lemma_speed_text_len, speed_text};
use crate::text::{chars_of, push_chars, string_of};

verus! {

/// Longest application name shown before it is cut with an ellipsis.
pub const NAME_MAX: usize = 24;

/// U+2026 HORIZONTAL ELLIPSIS.
pub const ELLIPSIS: char = '\u{2026}';

/// The text of a row and the (start, length) of each of its three columns,
/// counted in characters.
pub struct RowLayout {
    pub text: String,
    pub columns: Vec<(usize, usize)>,
}

/// How large a speed figure is, which picks its color.
#[derive(Debug, PartialEq, Eq, Structural)]
pub enum Magnitude {
    /// "0K": nothing worth showing.
    Zero,
    Kilo,
    Mega,
    Giga,
    /// No unit letter.
    Unitless,
}

/// `name` when it has at most `width` characters; otherwise its first
/// `width - 1` characters (none when `width` is zero) and an ellipsis.
pub open spec fn truncated(name: Seq<char>, width: nat) -> Seq<char> {
    if name.len() <= width {
        name
    } else {
        let keep = if width >= 1 {
            width - 1
        } else {
            0
        };
        name.take(keep as int).push(ELLIPSIS)
    }
}

/// The three columns of a row whose fields are `a`, `b` and `c`, separated
/// by tabs.
pub open spec fn columns_of(a: Seq<char>, b: Seq<char>, c: Seq<char>) -> Seq<(usize, usize)> {
    seq![
        (0usize, a.len() as usize),
        ((a.len() + 1) as usize, b.len() as usize),
        ((a.len() + 1 + b.len() + 1) as usize, c.len() as usize),
    ]
}

/// Three fields separated by tabs.
pub open spec fn tabbed(a: Seq<char>, b: Seq<char>, c: Seq<char>) -> Seq<char> {
    a + seq!['\t'] + b + seq!['\t'] + c
}

/// The row of one application: its name cut to `NAME_MAX`, its download and
/// its upload figure.
pub open spec fn app_row_text(app: (Seq<char>, u64, u64)) -> Seq<char> {
    tabbed(
        truncated(app.0, NAME_MAX as nat),
        speed_text(app.1 as nat),
        speed_text(app.2 as nat),
    )
}

/// The magnitude class of a speed figure.
pub open spec fn magnitude_spec(s: Seq<char>) -> Magnitude {
    if s == seq!['0', 'K'] {
        Magnitude::Zero
    } else {
        match first_unit(s) {
            Some('K') => Magnitude::Kilo,
            Some('M') => Magnitude::Mega,
            Some('G') => Magnitude::Giga,
            _ => Magnitude::Unitless,
        }
    }
}

/// The first of the letters K, M and G in `s`.
pub open spec fn first_unit(s: Seq<char>) -> Option<char>
    decreases s.len(),
{
    if s.len() == 0 {
        None
    } else if s[0] == 'K' || s[0] == 'M' || s[0] == 'G' {
        Some(s[0])
    } else {
        first_unit(s.drop_first())
    }
}

/// Whether `s` holds `part` somewhere.
pub open spec fn contains_text(s: Seq<char>, part: Seq<char>) -> bool {
    exists|i: int| 0 <= i <= s.len() - part.len() && #[trigger] s.subrange(i, i + part.len()) == part
}

/// A name cut for a width of at least one character fits that width, keeps
/// its beginning, and is left whole when it already fits.
pub proof fn lemma_truncated(name: Seq<char>, width: nat)
    requires
        width >= 1,
    ensures
        truncated(name, width).len() <= width,
        name.len() <= width ==> truncated(name, width) == name,
        name.len() > width ==> truncated(name, width) == name.take(width - 1).push(ELLIPSIS),
{
}

/// `name` cut to `width` characters with an ellipsis, as the menu shows it.
pub fn truncate(name: &str, width: usize) -> (s: String)
    ensures
        s@ == truncated(name@, width as nat),
{
    let chars = chars_of(name);
    if chars.len() <= width {
        String::from_str(name)
    } else {
        let keep = width.saturating_sub(1);
        let mut s = String::new();
        let mut i: usize = 0;
        while i < keep
            invariant
                chars@.len() > width,
                keep <= width,
                i <= keep,
                s@ == chars@.take(i as int),
            decreases keep - i,
        {
            s.push(chars[i]);
            assert(chars@.take(i + 1) =~= chars@.take(i as int).push(chars@[i as int]));
            i = i + 1;
        }
        s.push(ELLIPSIS);
        s
    }
}

fn tabbed_row(a: &String, b: &String, c: &String) -> (row: RowLayout)
    requires
        a@.len() + b@.len() + c@.len() + 2 <= usize::MAX,
    ensures
        row.text@ == tabbed(a@, b@, c@),
        row.columns@ == columns_of(a@, b@, c@),
{
    let la = a.as_str().unicode_len();
    let lb = b.as_str().unicode_len();
    let lc = c.as_str().unicode_len();
    let mut text = a.clone();
    text.push('\t');
    text.append(b.as_str());
    text.push('\t');
    text.append(c.as_str());
    let mut columns: Vec<(usize, usize)> = Vec::new();
    columns.push((0, la));
    columns.push((la + 1, lb));
    columns.push((la + 1 + lb + 1, lc));
    assert(columns@ =~= columns_of(a@, b@, c@));
    assert(text@ =~= tabbed(a@, b@, c@));
    RowLayout { text, columns }
}

/// The row of `app`: its name cut to `NAME_MAX`, then its download and
/// upload figures, tab-separated; the figures carry no arrow or "/s", the
/// header names the columns.
pub fn app_row(app: &AppUsage) -> (row: RowLayout)
    ensures
        row.text@ == app_row_text((app.name@, app.recv_speed, app.sent_speed)),
        row.columns@ == columns_of(
            truncated(app.name@, NAME_MAX as nat),
            speed_text(app.recv_speed as nat),
            speed_text(app.sent_speed as nat),
        ),
{
    let name = truncate(app.name.as_str(), NAME_MAX);
    let down = format_speed_bytes(app.recv_speed);
    let up = format_speed_bytes(app.sent_speed);
    proof {
        lemma_speed_text_len(app.recv_speed as nat);
        lemma_speed_text_len(app.sent_speed as nat);
    }
    tabbed_row(&name, &down, &up)
}

/// The column header, on the same tab stops as the rows: "App", "Download",
/// "Upload".
pub fn header_row() -> (row: RowLayout)
    ensures
        row.text@ == tabbed("App"@, "Download"@, "Upload"@),
        row.columns@ == seq![(0usize, 3usize), (4usize, 8usize), (13usize, 6usize)],
{
    let a = String::from_str("App");
    let b = String::from_str("Download");
    let c = String::from_str("Upload");
    proof {
        reveal_strlit("App");
        reveal_strlit("Download");
        reveal_strlit("Upload");
    }
    let row = tabbed_row(&a, &b, &c);
    assert(row.columns@ =~= seq![(0usize, 3usize), (4usize, 8usize), (13usize, 6usize)]);
    row
}

/// The text shown when no application is active, and its length.
pub fn placeholder_row() -> (row: (String, usize))
    ensures
        row.0@ == "  (no active connections)"@,
        row.1 == row.0@.len(),
{
    let text = String::from_str("  (no active connections)");
    let len = text.as_str().unicode_len();
    (text, len)
}

/// Whether a color range starting at `loc` with `len` characters is applied
/// to a row of `total` characters: it must be non-empty and lie inside the
/// row.
pub fn range_applies(loc: usize, len: usize, total: usize) -> (b: bool)
    ensures
        b == (len != 0 && loc + len <= total),
{
    !(len == 0 || loc as u128 + len as u128 > total as u128)
}

/// The magnitude class of a figure such as "849K": zero for "0K", else by
/// its first unit letter.
pub fn magnitude(s: &str) -> (m: Magnitude)
    ensures
        m == magnitude_spec(s@),
{
    let chars = chars_of(s);
    let n = chars.len();
    let is_zero = n == 2 && chars[0] == '0' && chars[1] == 'K';
    assert(is_zero == (s@ == seq!['0', 'K'])) by {
        if n == 2 && chars@[0] == '0' && chars@[1] == 'K' {
            assert(s@ =~= seq!['0', 'K']);
        }
    }
    let mut i: usize = 0;
    assert(chars@.skip(0) =~= chars@);
    while i < n && chars[i] != 'K' && chars[i] != 'M' && chars[i] != 'G'
        invariant
            n == chars@.len(),
            i <= n,
            first_unit(chars@) == first_unit(chars@.skip(i as int)),
        decreases n - i,
    {
        assert(chars@.skip(i as int).drop_first() =~= chars@.skip(i + 1));
        i = i + 1;
    }
    if i < n {
        assert(chars@.skip(i as int)[0] == chars@[i as int]);
    } else {
        assert(chars@.skip(i as int).len() == 0);
    }
    if is_zero {
        Magnitude::Zero
    } else if i < n && chars[i] == 'K' {
        Magnitude::Kilo
    } else if i < n && chars[i] == 'M' {
        Magnitude::Mega
    } else if i < n && chars[i] == 'G' {
        Magnitude::Giga
    } else {
        Magnitude::Unitless
    }
}

/// Whether an appearance name is a dark one: it contains "Dark".
pub fn appearance_is_dark(name: &str) -> (b: bool)
    ensures
        b == contains_text(name@, "Dark"@),
{
    proof {
        reveal_strlit("Dark");
    }
    let chars = chars_of(name);
    let word: [char; 4] = ['D', 'a', 'r', 'k'];
    assert(word@ =~= seq!['D', 'a', 'r', 'k']);
    assert(word@ =~= "Dark"@);
    let n = chars.len();
    if n < 4 {
        assert(!contains_text(name@, "Dark"@));
        return false;
    }
    let mut i: usize = 0;
    while i <= n - 4
        invariant
            n == chars@.len(),
            n >= 4,
            i <= n - 3,
            word@ == "Dark"@,
            word@ == seq!['D', 'a', 'r', 'k'],
            chars@ == name@,
            forall|j: int| 0 <= j < i ==> #[trigger] chars@.subrange(j, j + 4) != word@,
        decreases n - i,
    {
        if chars[i] == 'D' && chars[i + 1] == 'a' && chars[i + 2] == 'r' && chars[i + 3] == 'k' {
            assert(chars@.subrange(i as int, i + 4) =~= word@);
            proof {
                reveal_strlit("Dark");
            }
            assert(name@.subrange(i as int, i + "Dark"@.len()) == "Dark"@);
            return true;
        }
        assert(chars@.subrange(i as int, i + 4) != word@) by {
            if chars@.subrange(i as int, i + 4) == word@ {
                assert(chars@.subrange(i as int, i + 4)[0] == chars@[i as int]);
                assert(chars@.subrange(i as int, i + 4)[1] == chars@[i + 1]);
                assert(chars@.subrange(i as int, i + 4)[2] == chars@[i + 2]);
                assert(chars@.subrange(i as int, i + 4)[3] == chars@[i + 3]);
            }
        }
        i = i + 1;
    }
    false
}

} // verus!
