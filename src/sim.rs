use vstd::prelude::*;
use vstd::string::{StrSliceExecFns, StringExecFns};

verus! {

/// One schedulable unit: its label, static priority, remaining CPU burst and
/// the time it has spent ready but not running.
#[derive(PartialEq, Eq, Debug)]
pub struct SimProcess {
    pub name: String,
    pub priority: u8,
    pub burst: u32,
    pub wait: u32,
}

impl SimProcess {
    /// A fresh task: the whole burst is still to run and nothing has been waited yet.
    pub fn new(name: String, priority: u8, burst: u32) -> (r: Self)
        ensures
            r.name == name,
            r.priority == priority,
            r.burst == burst,
            r.wait == 0,
    {
        Self { name, priority, burst, wait: 0 }
    }
}


/// The character of the decimal digit `d`.
pub open spec fn digit_char(d: nat) -> char {
    ((d + 48) as u8) as char
}

/// Decimal notation of `n`, most significant digit first, no leading zeros.
pub open spec fn decimal(n: nat) -> Seq<char>
    decreases n,
{
    if n < 10 {
        seq![digit_char(n)]
    } else {
        decimal(n / 10) + seq![digit_char(n % 10)]
    }
}

/// The human-readable line that describes a task.
pub open spec fn rendering(p: SimProcess) -> Seq<char> {
    "Process: "@ + p.name@ + " | Priority: "@ + decimal(p.priority as nat) + " | Remaining Burst: "@
        + decimal(p.burst as nat) + " | Wait Time: "@ + decimal(p.wait as nat)
}

fn digit_text(d: u32) -> (r: &'static str)
    requires
        d < 10,
    ensures
        r@ == seq![digit_char(d as nat)],
{
    proof {
        reveal_strlit("0");
        reveal_strlit("1");
        reveal_strlit("2");
        reveal_strlit("3");
        reveal_strlit("4");
        reveal_strlit("5");
        reveal_strlit("6");
        reveal_strlit("7");
        reveal_strlit("8");
        reveal_strlit("9");
    }
    match d {
        0 => "0",
        1 => "1",
        2 => "2",
        3 => "3",
        4 => "4",
        5 => "5",
        6 => "6",
        7 => "7",
        8 => "8",
        _ => "9",
    }
}

/// Appends the decimal notation of `n` to `out`.
fn push_decimal(out: &mut String, n: u32)
    ensures
        final(out)@ == old(out)@ + decimal(n as nat),
    decreases n,
{
    if n >= 10 {
        push_decimal(out, n / 10);
    }
    out.append(digit_text(n % 10));
    assert(final(out)@ =~= old(out)@ + decimal(n as nat));
}

impl SimProcess {
    /// `Process: <name> | Priority: <p> | Remaining Burst: <b> | Wait Time: <w>`.
    pub fn to_string(&self) -> (r: String)
        ensures
            r@ == rendering(*self),
    {
        let mut out = String::new();
        out.append("Process: ");
        out.append(self.name.as_str());
        out.append(" | Priority: ");
        push_decimal(&mut out, self.priority as u32);
        out.append(" | Remaining Burst: ");
        push_decimal(&mut out, self.burst);
        out.append(" | Wait Time: ");
        push_decimal(&mut out, self.wait);
        proof {
            reveal_strlit("Process: ");
            reveal_strlit(" | Priority: ");
            reveal_strlit(" | Remaining Burst: ");
            reveal_strlit(" | Wait Time: ");
        }
        assert(out@ =~= rendering(*self));
        out
    }
}


/// Why a line could not be read as a task: it carries the line.
#[derive(Debug)]
pub enum ProgramError {
    InvalidProcessSpecification(String),
}

/// Whether `c` is white space in the Unicode sense.
pub open spec fn is_space(c: char) -> bool {
    ||| '\t' <= c <= '\r'
    ||| c == ' '
    ||| c == '\u{85}'
    ||| c == '\u{a0}'
    ||| c == '\u{1680}'
    ||| '\u{2000}' <= c <= '\u{200a}'
    ||| c == '\u{2028}'
    ||| c == '\u{2029}'
    ||| c == '\u{202f}'
    ||| c == '\u{205f}'
    ||| c == '\u{3000}'
}

/// `t` without white space at either end.
pub open spec fn trimmed(t: Seq<char>) -> Seq<char>
    decreases t.len(),
{
    if t.len() == 0 {
        t
    } else if is_space(t[0]) {
        trimmed(t.drop_first())
    } else if is_space(t.last()) {
        trimmed(t.drop_last())
    } else {
        t
    }
}

/// Position of the first comma of `t`, or its length if it holds none.
pub open spec fn comma_at(t: Seq<char>) -> nat
    decreases t.len(),
{
    if t.len() == 0 {
        0
    } else if t[0] == ',' {
        0
    } else {
        1 + comma_at(t.drop_first())
    }
}

/// The `k`-th comma-separated field of `t`, counting from 0, if there is one.
pub open spec fn field(t: Seq<char>, k: nat) -> Option<Seq<char>>
    decreases k,
{
    let c = comma_at(t);
    if k == 0 {
        Some(t.take(c as int))
    } else if c >= t.len() {
        None
    } else {
        field(t.skip(c as int + 1), (k - 1) as nat)
    }
}

/// Whether every character of `t` is a decimal digit.
pub open spec fn all_digits(t: Seq<char>) -> bool {
    forall|i: int| 0 <= i < t.len() ==> '0' <= #[trigger] t[i] <= '9'
}

/// The number that the digits `t` stand for.
pub open spec fn digits_value(t: Seq<char>) -> nat
    decreases t.len(),
{
    if t.len() == 0 {
        0
    } else {
        digits_value(t.drop_last()) * 10 + (t.last() as nat - '0' as nat) as nat
    }
}

/// An unsigned decimal number, with an optional leading `+`, if `t` is one.
pub open spec fn unsigned_of(t: Seq<char>) -> Option<nat> {
    let d = if t.len() > 0 && t[0] == '+' { t.drop_first() } else { t };
    if d.len() > 0 && all_digits(d) {
        Some(digits_value(d))
    } else {
        None
    }
}

/// The name, priority and burst that the line `t` specifies, if it is a
/// valid `name, priority, burst` line: exactly three fields.
pub open spec fn task_of(t: Seq<char>) -> Option<(Seq<char>, u8, u32)> {
    match (field(t, 1), field(t, 2), field(t, 3)) {
        (Some(a), Some(b), None) => match (unsigned_of(trimmed(a)), unsigned_of(trimmed(b))) {
            (Some(p), Some(q)) => if p <= u8::MAX && q <= u32::MAX {
                Some((trimmed(field(t, 0)->0), p as u8, q as u32))
            } else {
                None
            },
            _ => None,
        },
        _ => None,
    }
}


proof fn lemma_comma_at(t: Seq<char>, k: int)
    requires
        0 <= k <= t.len(),
        forall|j: int| 0 <= j < k ==> t[j] != ',',
        k == t.len() || t[k] == ',',
    ensures
        comma_at(t) == k,
    decreases t.len(),
{
    if t.len() > 0 && t[0] != ',' {
        lemma_comma_at(t.drop_first(), k - 1);
    }
}

/// Position of the first comma of `line` at or after `from`, or `line`'s length.
fn find_comma(line: &str, from: usize, n: usize) -> (r: usize)
    requires
        n == line@.len(),
        from <= n,
    ensures
        from <= r <= n,
        r - from == comma_at(line@.skip(from as int)),
{
    let mut i = from;
    while i < n && line.get_char(i) != ','
        invariant
            from <= i <= n == line@.len(),
            forall|j: int| from <= j < i ==> line@[j] != ',',
        decreases n - i,
    {
        i = i + 1;
    }
    proof {
        lemma_comma_at(line@.skip(from as int), i - from);
    }
    i
}

fn space(c: char) -> (r: bool)
    ensures
        r == is_space(c),
{
    ('\t' <= c && c <= '\r') || c == ' ' || c == '\u{85}' || c == '\u{a0}' || c == '\u{1680}'
        || ('\u{2000}' <= c && c <= '\u{200a}') || c == '\u{2028}' || c == '\u{2029}'
        || c == '\u{202f}' || c == '\u{205f}' || c == '\u{3000}'
}

proof fn lemma_trim_front(t: Seq<char>, k: int)
    requires
        0 <= k <= t.len(),
        forall|j: int| 0 <= j < k ==> is_space(t[j]),
    ensures
        trimmed(t) == trimmed(t.skip(k)),
    decreases k,
{
    if k > 0 {
        lemma_trim_front(t.drop_first(), k - 1);
        assert(t.drop_first().skip(k - 1) =~= t.skip(k));
    } else {
        assert(t.skip(0) =~= t);
    }
}

proof fn lemma_trim_back(t: Seq<char>, m: int)
    requires
        1 <= m <= t.len(),
        !is_space(t[0]),
        forall|j: int| m <= j < t.len() ==> is_space(t[j]),
    ensures
        trimmed(t) == trimmed(t.take(m)),
    decreases t.len() - m,
{
    if m < t.len() {
        lemma_trim_back(t.drop_last(), m);
        assert(t.drop_last().take(m) =~= t.take(m));
    } else {
        assert(t.take(m) =~= t);
    }
}

/// Bounds of the part of `line[lo..hi]` left once white space is cut from both ends.
fn trim_bounds(line: &str, lo: usize, hi: usize) -> (r: (usize, usize))
    requires
        lo <= hi <= line@.len(),
    ensures
        lo <= r.0 <= r.1 <= hi,
        line@.subrange(r.0 as int, r.1 as int) == trimmed(line@.subrange(lo as int, hi as int)),
{
    let ghost t = line@.subrange(lo as int, hi as int);
    let mut a = lo;
    while a < hi && space(line.get_char(a))
        invariant
            lo <= a <= hi <= line@.len(),
            forall|j: int| lo <= j < a ==> is_space(line@[j]),
        decreases hi - a,
    {
        a = a + 1;
    }
    proof {
        lemma_trim_front(t, a - lo);
        assert(t.skip(a - lo) =~= line@.subrange(a as int, hi as int));
    }
    if a == hi {
        assert(line@.subrange(a as int, hi as int) =~= Seq::<char>::empty());
        return (a, a);
    }
    let mut b = hi;
    while b > a + 1 && space(line.get_char(b - 1))
        invariant
            lo <= a < b <= hi <= line@.len(),
            forall|j: int| b <= j < hi ==> is_space(line@[j]),
        decreases b,
    {
        b = b - 1;
    }
    proof {
        let u = line@.subrange(a as int, hi as int);
        lemma_trim_back(u, b - a);
        assert(u.take(b - a) =~= line@.subrange(a as int, b as int));
    }
    (a, b)
}

proof fn lemma_digits_prefix(t: Seq<char>, k: int)
    requires
        0 <= k <= t.len(),
        all_digits(t),
    ensures
        digits_value(t.take(k)) <= digits_value(t),
    decreases t.len(),
{
    if k < t.len() {
        let u = t.drop_last();
        lemma_digits_prefix(u, k);
        assert(u.take(k) =~= t.take(k));
    } else {
        assert(t.take(k) =~= t);
    }
}

/// The unsigned number written in `line[lo..hi]`, if it is one and at most `max`.
fn parse_unsigned(line: &str, lo: usize, hi: usize, max: u32) -> (r: Option<u32>)
    requires
        lo <= hi <= line@.len(),
    ensures
        r == match unsigned_of(line@.subrange(lo as int, hi as int)) {
            Some(v) => if v <= max { Some(v as u32) } else { None },
            None => None,
        },
{
    let ghost t = line@.subrange(lo as int, hi as int);
    let mut start = lo;
    if hi > lo && line.get_char(lo) == '+' {
        start = lo + 1;
    }
    let ghost d = line@.subrange(start as int, hi as int);
    assert(d =~= (if t.len() > 0 && t[0] == '+' { t.drop_first() } else { t }));
    if start == hi {
        return None;
    }
    let mut acc: u32 = 0;
    let mut i = start;
    while i < hi
        invariant
            lo <= start <= i <= hi <= line@.len(),
            d == line@.subrange(start as int, hi as int),
            t == line@.subrange(lo as int, hi as int),
            d == (if t.len() > 0 && t[0] == '+' { t.drop_first() } else { t }),
            d.len() > 0,
            all_digits(d.take(i - start)),
            acc == digits_value(d.take(i - start)),
            acc <= max,
        decreases hi - i,
    {
        let c = line.get_char(i);
        assert(d[i - start] == c);
        if c < '0' || c > '9' {
            assert(!all_digits(d));
            return None;
        }
        let ghost k = i - start;
        assert(d.take(k + 1).drop_last() =~= d.take(k));
        assert(d.take(k + 1).last() == c);
        let next: u64 = acc as u64 * 10 + (c as u32 - 48) as u64;
        if next > max as u64 {
            proof {
                if all_digits(d) {
                    lemma_digits_prefix(d, k + 1);
                }
            }
            return None;
        }
        acc = next as u32;
        i = i + 1;
    }
    assert(d.take(i - start) =~= d);
    Some(acc)
}


impl SimProcess {
    /// Reads a task from a `name, priority, burst` line; white space around
    /// each field is ignored. A line with other than three fields, or whose
    /// priority or burst is not an unsigned number in range, is refused.
    pub fn try_from(value: String) -> (r: Result<SimProcess, ProgramError>)
        ensures
            match task_of(value@) {
                Some((name, priority, burst)) => r matches Ok(p) && p.name@ == name
                    && p.priority == priority && p.burst == burst && p.wait == 0,
                None => r == Err::<SimProcess, ProgramError>(ProgramError::InvalidProcessSpecification(value)),
            },
    {
        let line = value.as_str();
        let ghost t = line@;
        let n = line.unicode_len();
        let c0 = find_comma(line, 0, n);
        proof {
            reveal_with_fuel(field, 4);
            assert(t.skip(0) =~= t);
        }
        if c0 == n {
            return Err(ProgramError::InvalidProcessSpecification(value));
        }
        let c1 = find_comma(line, c0 + 1, n);
        if c1 == n {
            return Err(ProgramError::InvalidProcessSpecification(value));
        }
        let c2 = find_comma(line, c1 + 1, n);
        proof {
            let u = t.skip(c0 + 1);
            assert(u.skip(c1 - c0) =~= t.skip(c1 + 1));
            assert(t.take(c0 as int) =~= t.subrange(0, c0 as int));
            assert(u.take(c1 - c0 - 1) =~= t.subrange(c0 + 1, c1 as int));
            assert(t.skip(c1 + 1).take(c2 - c1 - 1) =~= t.subrange(c1 + 1, c2 as int));
        }
        if c2 < n {
            return Err(ProgramError::InvalidProcessSpecification(value));
        }
        let (pa, pb) = trim_bounds(line, c0 + 1, c1);
        let priority = match parse_unsigned(line, pa, pb, 255) {
            Some(v) => v,
            None => {
                return Err(ProgramError::InvalidProcessSpecification(value));
            },
        };
        let (ba, bb) = trim_bounds(line, c1 + 1, c2);
        let burst = match parse_unsigned(line, ba, bb, u32::MAX) {
            Some(v) => v,
            None => {
                return Err(ProgramError::InvalidProcessSpecification(value));
            },
        };
        let (na, nb) = trim_bounds(line, 0, c0);
        let name = line.substring_char(na, nb).to_owned();
        Ok(SimProcess::new(name, priority as u8, burst))
    }
}

} // verus!
