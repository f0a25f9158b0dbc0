//! Text building blocks: decimal rendering and substring search.

use vstd::prelude::*;
use vstd::string::*;

verus! {

/// The text of one decimal digit; the empty text outside `0..=9`.
pub open spec fn digit_text(d: int) -> Seq<char> {
    if d == 0 {
        "0"@
    } else if d == 1 {
        "1"@
    } else if d == 2 {
        "2"@
    } else if d == 3 {
        "3"@
    } else if d == 4 {
        "4"@
    } else if d == 5 {
        "5"@
    } else if d == 6 {
        "6"@
    } else if d == 7 {
        "7"@
    } else if d == 8 {
        "8"@
    } else if d == 9 {
        "9"@
    } else {
        Seq::empty()
    }
}

/// Decimal text of a natural number, without leading zeros.
pub open spec fn decimal(n: nat) -> Seq<char>
    decreases n,
{
    if n < 10 {
        digit_text(n as int)
    } else {
        decimal(n / 10) + digit_text((n % 10) as int)
    }
}

/// Decimal text of an integer: a minus sign in front of negative numbers.
pub open spec fn signed_decimal(n: int) -> Seq<char> {
    if n < 0 {
        "-"@ + decimal((-n) as nat)
    } else {
        decimal(n as nat)
    }
}

fn digit_str(d: u64) -> (s: &'static str)
    requires
        d < 10,
    ensures
        s@ == digit_text(d as int),
{
    if d == 0 {
        "0"
    } else if d == 1 {
        "1"
    } else if d == 2 {
        "2"
    } else if d == 3 {
        "3"
    } else if d == 4 {
        "4"
    } else if d == 5 {
        "5"
    } else if d == 6 {
        "6"
    } else if d == 7 {
        "7"
    } else if d == 8 {
        "8"
    } else {
        "9"
    }
}

/// Renders an unsigned number in decimal.
pub fn render_unsigned(n: u64) -> (s: String)
    ensures
        s@ == decimal(n as nat),
    decreases n,
{
    if n < 10 {
        String::from_str(digit_str(n))
    } else {
        let mut s = render_unsigned(n / 10);
        s.append(digit_str(n % 10));
        s
    }
}

/// Renders a signed number in decimal.
pub fn render_signed(n: i64) -> (s: String)
    ensures
        s@ == signed_decimal(n as int),
{
    if n < 0 {
        let magnitude: u64 = ((-(n + 1)) as u64) + 1;
        let mut s = String::from_str("-");
        let digits = render_unsigned(magnitude);
        s.append(digits.as_str());
        s
    } else {
        render_unsigned(n as u64)
    }
}

/// The parts in order with `sep` between neighbours.
pub open spec fn joined(parts: Seq<Seq<char>>, sep: Seq<char>) -> Seq<char>
    decreases parts.len(),
{
    if parts.len() == 0 {
        Seq::empty()
    } else if parts.len() == 1 {
        parts[0]
    } else {
        joined(parts.drop_last(), sep) + sep + parts.last()
    }
}

/// Joins the parts with `sep` between neighbours.
pub fn join(parts: &Vec<String>, sep: &str) -> (s: String)
    ensures
        s@ == joined(parts.deep_view(), sep@),
{
    let mut s = String::new();
    let mut i: usize = 0;
    assert(parts.deep_view().take(0).len() == 0);
    while i < parts.len()
        invariant
            i <= parts.len(),
            s@ == joined(parts.deep_view().take(i as int), sep@),
        decreases parts.len() - i,
    {
        proof {
            assert(parts.deep_view().take(i + 1).drop_last() =~= parts.deep_view().take(i as int));
            assert(parts.deep_view().take(i + 1).last() == parts[i as int]@);
        }
        if i > 0 {
            s.append(sep);
        } else {
            assert(s@ + parts[i as int]@ =~= parts[i as int]@);
        }
        s.append(parts[i].as_str());
        i += 1;
    }
    assert(parts.deep_view().take(i as int) =~= parts.deep_view());
    s
}

/// Whether `pattern` occurs in `text` as a contiguous run of characters.
pub open spec fn occurs_in(pattern: Seq<char>, text: Seq<char>) -> bool {
    exists|k: int|
        0 <= k && k + pattern.len() <= text.len() && #[trigger] text.subrange(
            k,
            k + pattern.len(),
        ) == pattern
}

/// Whether two texts are the same sequence of characters.
pub fn same_text(a: &str, b: &str) -> (r: bool)
    ensures
        r == (a@ == b@),
{
    let x = String::from_str(a);
    let y = String::from_str(b);
    x == y
}

/// The characters of `s`, one by one.
pub fn chars_of(s: &str) -> (v: Vec<char>)
    ensures
        v@ == s@,
{
    let mut v: Vec<char> = Vec::new();
    for c in it: s.chars()
        invariant
            it.seq() == s@,
            v@ == s@.take(it.index() as int),
    {
        v.push(c);
        assert(s@.take(it.index() + 1) =~= s@.take(it.index() as int).push(c));
    }
    assert(s@.take(s@.len() as int) =~= s@);
    v
}

fn matches_at(text: &Vec<char>, pattern: &Vec<char>, k: usize) -> (r: bool)
    requires
        k + pattern.len() <= text.len(),
    ensures
        r == (text@.subrange(k as int, k + pattern.len()) == pattern@),
{
    let mut i: usize = 0;
    while i < pattern.len()
        invariant
            i <= pattern.len(),
            k + pattern.len() <= text.len(),
            forall|j: int| 0 <= j < i ==> text@[k + j] == pattern@[j],
        decreases pattern.len() - i,
    {
        if text[k + i] != pattern[i] {
            assert(text@.subrange(k as int, k + pattern.len())[i as int] != pattern@[i as int]);
            return false;
        }
        i += 1;
    }
    assert(text@.subrange(k as int, k + pattern.len()) =~= pattern@);
    true
}

/// Whether `pattern` occurs in `text`.
pub fn contains_text(text: &str, pattern: &str) -> (r: bool)
    ensures
        r == occurs_in(pattern@, text@),
{
    let t = chars_of(text);
    let p = chars_of(pattern);
    if p.len() > t.len() {
        return false;
    }
    let last: usize = t.len() - p.len();
    let mut k: usize = 0;
    while k < last
        invariant
            k <= last,
            last == t.len() - p.len(),
            t@ == text@,
            p@ == pattern@,
            forall|q: int| 0 <= q < k ==> #[trigger] text@.subrange(q, q + pattern@.len()) != pattern@,
        decreases last - k,
    {
        if matches_at(&t, &p, k) {
            return true;
        }
        k += 1;
    }
    matches_at(&t, &p, last)
}

} // verus!
