//! Reading and writing plain text.

use vstd::prelude::*;

verus! {

/// `String::push`: appends the character.
pub assume_specification[ String::push ](s: &mut String, c: char)
    ensures
        final(s)@ == old(s)@.push(c),
;

/// A character Unicode counts as white space.
pub open spec fn blank(c: char) -> bool {
    let n = c as u32;
    ||| 0x9 <= n <= 0xd
    ||| n == 0x20
    ||| n == 0x85
    ||| n == 0xa0
    ||| n == 0x1680
    ||| 0x2000 <= n <= 0x200a
    ||| n == 0x2028
    ||| n == 0x2029
    ||| n == 0x202f
    ||| n == 0x205f
    ||| n == 0x3000
}

fn is_blank(c: char) -> (r: bool)
    ensures
        r == blank(c),
{
    let n: u32 = c as u32;
    (0x9 <= n && n <= 0xd) || n == 0x20 || n == 0x85 || n == 0xa0 || n == 0x1680 || (0x2000 <= n && n
        <= 0x200a) || n == 0x2028 || n == 0x2029 || n == 0x202f || n == 0x205f || n == 0x3000
}

/// Text without its leading white space.
pub open spec fn trimmed_start(s: Seq<char>) -> Seq<char>
    decreases s.len(),
{
    if s.len() > 0 && blank(s[0]) {
        trimmed_start(s.skip(1))
    } else {
        s
    }
}

/// Text without its trailing white space.
pub open spec fn trimmed_end(s: Seq<char>) -> Seq<char>
    decreases s.len(),
{
    if s.len() > 0 && blank(s.last()) {
        trimmed_end(s.drop_last())
    } else {
        s
    }
}

/// Text without white space at either end.
pub open spec fn trimmed(s: Seq<char>) -> Seq<char> {
    trimmed_end(trimmed_start(s))
}

/// The characters of a text.
pub fn chars_of(s: &str) -> (r: Vec<char>)
    ensures
        r@ == s@,
{
    let mut out: Vec<char> = Vec::new();
    for c in it: s.chars()
        invariant
            out@ == it.seq().take(it.index()),
            it.seq() == s@,
    {
        out.push(c);
        proof {
            assert(it.seq().take(it.index() + 1) =~= it.seq().take(it.index()).push(c));
        }
    }
    assert(s@.take(s@.len() as int) =~= s@);
    out
}

/// The text of some characters.
pub fn text_of(cs: &[char]) -> (r: String)
    ensures
        r@ == cs@,
{
    let mut out = String::new();
    let mut i: usize = 0;
    while i < cs.len()
        invariant
            i <= cs@.len(),
            out@ == cs@.take(i as int),
        decreases cs@.len() - i,
    {
        out.push(cs[i]);
        proof {
            assert(cs@.take(i + 1) =~= cs@.take(i as int).push(cs@[i as int]));
        }
        i += 1;
    }
    proof {
        assert(cs@.take(cs@.len() as int) =~= cs@);
    }
    out
}

/// Text without white space at either end.
pub fn trim<'a>(cs: &'a [char]) -> (r: &'a [char])
    ensures
        r@ == trimmed(cs@),
{
    let mut lo: usize = 0;
    assert(cs@.skip(0) =~= cs@);
    while lo < cs.len() && is_blank(cs[lo])
        invariant
            lo <= cs@.len(),
            trimmed_start(cs@) == trimmed_start(cs@.skip(lo as int)),
        decreases cs@.len() - lo,
    {
        proof {
            assert(cs@.skip(lo as int).skip(1) =~= cs@.skip(lo + 1));
        }
        lo += 1;
    }
    let ghost rest = cs@.skip(lo as int);
    assert(trimmed_start(cs@) == rest);
    let mut hi: usize = cs.len();
    assert(rest =~= cs@.subrange(lo as int, hi as int));
    while hi > lo && is_blank(cs[hi - 1])
        invariant
            lo <= hi <= cs@.len(),
            trimmed_end(rest) == trimmed_end(cs@.subrange(lo as int, hi as int)),
        decreases hi,
    {
        proof {
            assert(cs@.subrange(lo as int, hi as int).drop_last() =~= cs@.subrange(
                lo as int,
                hi - 1,
            ));
        }
        hi -= 1;
    }
    vstd::slice::slice_subrange(cs, lo, hi)
}

/// The first `sep` at or after `from`, or the end.
pub open spec fn next_at(s: Seq<char>, sep: char, from: int) -> int
    decreases s.len() - from,
{
    if from >= s.len() || s[from] == sep {
        from
    } else {
        next_at(s, sep, from + 1)
    }
}

/// The parts of the text from `from` on, between separators.
pub open spec fn parts_from(s: Seq<char>, sep: char, from: int) -> Seq<Seq<char>>
    decreases s.len() - from,
    via parts_from_shrink
{
    let end = next_at(s, sep, from);
    if from < 0 || from > s.len() || end >= s.len() {
        seq![s.subrange(from, s.len() as int)]
    } else {
        seq![s.subrange(from, end)] + parts_from(s, sep, end + 1)
    }
}

#[via_fn]
proof fn parts_from_shrink(s: Seq<char>, sep: char, from: int) {
    if 0 <= from <= s.len() {
        lemma_next_at(s, sep, from);
    }
}

/// The parts of a text between separators.
pub open spec fn parts(s: Seq<char>, sep: char) -> Seq<Seq<char>> {
    parts_from(s, sep, 0)
}

/// The next separator is one, and the first.
pub proof fn lemma_next_at(s: Seq<char>, sep: char, from: int)
    requires
        0 <= from <= s.len(),
    ensures
        from <= next_at(s, sep, from) <= s.len(),
        forall|i: int| from <= i < next_at(s, sep, from) ==> #[trigger] s[i] != sep,
        next_at(s, sep, from) < s.len() ==> s[next_at(s, sep, from)] == sep,
    decreases s.len() - from,
{
    if from < s.len() && s[from] != sep {
        lemma_next_at(s, sep, from + 1);
    }
}

/// The first `sep` at or after `from`, or the end.
pub fn find(cs: &[char], sep: char, from: usize) -> (r: usize)
    requires
        from <= cs@.len(),
    ensures
        r == next_at(cs@, sep, from as int),
        from <= r <= cs@.len(),
{
    let mut i: usize = from;
    while i < cs.len() && cs[i] != sep
        invariant
            from <= i <= cs@.len(),
            next_at(cs@, sep, from as int) == next_at(cs@, sep, i as int),
        decreases cs@.len() - i,
    {
        i += 1;
    }
    i
}

/// The parts of a text between separators.
pub fn split<'a>(cs: &'a [char], sep: char) -> (r: Vec<&'a [char]>)
    ensures
        r@.len() == parts(cs@, sep).len(),
        forall|i: int| 0 <= i < r@.len() ==> (#[trigger] r@[i])@ == parts(cs@, sep)[i],
        r@.len() >= 1,
{
    let mut out: Vec<&'a [char]> = Vec::new();
    let mut from: usize = 0;
    let ghost all = parts(cs@, sep);
    loop
        invariant_except_break
            from <= cs@.len(),
            all == parts(cs@, sep),
            out@.len() + parts_from(cs@, sep, from as int).len() == all.len(),
            forall|i: int| 0 <= i < out@.len() ==> (#[trigger] out@[i])@ == all[i],
            forall|i: int|
                0 <= i < parts_from(cs@, sep, from as int).len() ==> #[trigger] parts_from(
                    cs@,
                    sep,
                    from as int,
                )[i] == all[out@.len() + i],
        ensures
            out@.len() == all.len(),
            out@.len() >= 1,
            forall|i: int| 0 <= i < out@.len() ==> (#[trigger] out@[i])@ == all[i],
        decreases cs@.len() - from,
    {
        let end: usize = find(cs, sep, from);
        let ghost here = parts_from(cs@, sep, from as int);
        let ghost had = out@.len() as int;
        out.push(vstd::slice::slice_subrange(cs, from, end));
        assert(here[0] == all[had]);
        if end >= cs.len() {
            assert(here =~= seq![cs@.subrange(from as int, cs@.len() as int)]);
            break;
        }
        proof {
            let next = parts_from(cs@, sep, end + 1);
            assert(here =~= seq![cs@.subrange(from as int, end as int)] + next);
            assert forall|i: int| 0 <= i < next.len() implies #[trigger] next[i] == all[had + 1
                + i] by {
                assert(here[i + 1] == next[i]);
            }
        }
        from = end + 1;
    }
    out
}

pub open spec fn digit(c: char) -> bool {
    '0' <= c && c <= '9'
}

/// What a digit stands for.
pub open spec fn digit_value(c: char) -> int {
    c as u32 - '0' as u32
}

/// What the first `n` digits stand for.
pub open spec fn decimal(s: Seq<char>, n: int) -> int
    decreases n,
{
    if n <= 0 {
        0
    } else {
        decimal(s, n - 1) * 10 + digit_value(s[n - 1])
    }
}

pub open spec fn all_digits(s: Seq<char>) -> bool {
    forall|i: int| 0 <= i < s.len() ==> digit(#[trigger] s[i])
}

/// The digits of a number, after a plus sign where there is one.
pub open spec fn unsigned(s: Seq<char>) -> Seq<char> {
    if s.len() > 0 && s[0] == '+' {
        s.skip(1)
    } else {
        s
    }
}

/// The whole number a text writes in decimal, if it writes one no larger than `max`.
pub open spec fn number(s: Seq<char>, max: int) -> Option<int> {
    let d = unsigned(s);
    if d.len() > 0 && all_digits(d) && decimal(d, d.len() as int) <= max {
        Some(decimal(d, d.len() as int))
    } else {
        None
    }
}

/// More digits never stand for less.
proof fn lemma_decimal_grows(s: Seq<char>, m: int, n: int)
    requires
        all_digits(s),
        0 <= m <= n <= s.len(),
    ensures
        0 <= decimal(s, m) <= decimal(s, n),
    decreases n,
{
    if n > 0 {
        assert(digit(s[n - 1]));
        if m == n {
            lemma_decimal_grows(s, n - 1, n - 1);
        } else {
            lemma_decimal_grows(s, m, n - 1);
        }
    }
}

/// The whole number a text writes in decimal, if it writes one no larger than `max`.
pub fn parse_number(cs: &[char], max: u64) -> (r: Option<u64>)
    ensures
        match r {
            Some(n) => number(cs@, max as int) == Some(n as int),
            None => number(cs@, max as int) is None,
        },
{
    let start: usize = if cs.len() > 0 && cs[0] == '+' {
        1
    } else {
        0
    };
    let ghost d = unsigned(cs@);
    assert(d =~= cs@.skip(start as int));
    if start == cs.len() {
        return None;
    }
    let mut value: u64 = 0;
    let mut i: usize = start;
    while i < cs.len()
        invariant
            start <= i <= cs@.len(),
            start < cs@.len(),
            d == unsigned(cs@),
            d == cs@.skip(start as int),
            value == decimal(d, i - start),
            value <= max,
            forall|j: int| 0 <= j < i - start ==> digit(#[trigger] d[j]),
        decreases cs@.len() - i,
    {
        let c = cs[i];
        assert(c == d[i - start]);
        if !('0' <= c && c <= '9') {
            assert(!digit(d[i - start]));
            return None;
        }
        let v: u64 = c as u64 - '0' as u64;
        assert(decimal(d, i + 1 - start) == value * 10 + v);
        let next: u128 = value as u128 * 10 + v as u128;
        if next > max as u128 {
            proof {
                if all_digits(d) {
                    lemma_decimal_grows(d, i + 1 - start, d.len() as int);
                }
            }
            return None;
        }
        value = next as u64;
        i += 1;
    }
    assert(all_digits(d));
    Some(value)
}

/// The digit that stands for `v`.
pub open spec fn digit_char(v: int) -> char {
    ('0' as u32 + v) as char
}

/// A whole number's decimal digits.
pub open spec fn written(n: int) -> Seq<char>
    decreases n,
{
    if n < 10 {
        seq![digit_char(n)]
    } else {
        written(n / 10).push(digit_char(n % 10))
    }
}

fn digit_of(v: u64) -> (r: char)
    requires
        v < 10,
    ensures
        r == digit_char(v as int),
{
    match v {
        0 => '0',
        1 => '1',
        2 => '2',
        3 => '3',
        4 => '4',
        5 => '5',
        6 => '6',
        7 => '7',
        8 => '8',
        _ => '9',
    }
}

/// Append a whole number in decimal.
pub fn push_number(out: &mut String, n: u64)
    ensures
        final(out)@ == old(out)@ + written(n as int),
    decreases n,
{
    if n >= 10 {
        push_number(out, n / 10);
    }
    out.push(digit_of(n % 10));
    proof {
        if n >= 10 {
            assert(old(out)@ + written(n as int) =~= (old(out)@ + written(n as int / 10)).push(
                digit_char(n as int % 10),
            ));
        } else {
            assert(old(out)@ + written(n as int) =~= old(out)@.push(digit_char(n as int)));
        }
    }
}

/// A written number reads back as itself.
pub proof fn law_numbers_read_back(n: int, max: int)
    requires
        0 <= n <= max,
    ensures
        number(written(n), max) == Some(n),
    decreases n,
{
    lemma_written(n);
    let s = written(n);
    assert(digit(s[0]));
    assert(unsigned(s) == s);
}

/// The digits a number is written with, and what they stand for.
proof fn lemma_written(n: int)
    requires
        0 <= n,
    ensures
        written(n).len() >= 1,
        all_digits(written(n)),
        decimal(written(n), written(n).len() as int) == n,
    decreases n,
{
    let s = written(n);
    if n < 10 {
        assert(s[0] == digit_char(n));
        assert(decimal(s, 0) == 0);
        assert(decimal(s, 1) == digit_value(s[0]));
    } else {
        lemma_written(n / 10);
        let head = written(n / 10);
        assert forall|i: int| 0 <= i < s.len() implies digit(#[trigger] s[i]) by {
            if i < head.len() {
                assert(s[i] == head[i]);
            }
        }
        lemma_decimal_prefix(head, s, head.len() as int);
    }
}

/// Digits in common stand for the same.
proof fn lemma_decimal_prefix(a: Seq<char>, b: Seq<char>, n: int)
    requires
        0 <= n <= a.len() <= b.len(),
        forall|i: int| 0 <= i < n ==> #[trigger] a[i] == b[i],
    ensures
        decimal(a, n) == decimal(b, n),
    decreases n,
{
    if n > 0 {
        lemma_decimal_prefix(a, b, n - 1);
        assert(a[n - 1] == b[n - 1]);
    }
}

/// Whether some characters are a text.
pub fn is_text(cs: &[char], s: &str) -> (r: bool)
    ensures
        r == (cs@ == s@),
{
    let other = chars_of(s);
    same_chars(cs, other.as_slice())
}

/// Whether two runs of characters are the same.
pub fn same_chars(a: &[char], b: &[char]) -> (r: bool)
    ensures
        r == (a@ == b@),
{
    if a.len() != b.len() {
        return false;
    }
    let mut i: usize = 0;
    while i < a.len()
        invariant
            i <= a@.len(),
            a@.len() == b@.len(),
            forall|j: int| 0 <= j < i ==> #[trigger] a@[j] == b@[j],
        decreases a@.len() - i,
    {
        if a[i] != b[i] {
            assert(a@[i as int] != b@[i as int]);
            return false;
        }
        i += 1;
    }
    assert(a@ =~= b@);
    true
}

/// The text begins with `prefix`.
pub open spec fn begins(s: Seq<char>, prefix: Seq<char>) -> bool {
    prefix.len() <= s.len() && s.take(prefix.len() as int) == prefix
}

/// The text ends with `suffix`.
pub open spec fn ends(s: Seq<char>, suffix: Seq<char>) -> bool {
    suffix.len() <= s.len() && s.skip(s.len() - suffix.len()) == suffix
}

/// What follows `prefix`, if the text begins with it.
pub fn after_prefix<'a>(cs: &'a [char], prefix: &str) -> (r: Option<&'a [char]>)
    ensures
        match r {
            Some(rest) => begins(cs@, prefix@) && rest@ == cs@.skip(prefix@.len() as int),
            None => !begins(cs@, prefix@),
        },
{
    let p = chars_of(prefix);
    if p.len() > cs.len() {
        return None;
    }
    let head = vstd::slice::slice_subrange(cs, 0, p.len());
    assert(head@ =~= cs@.take(prefix@.len() as int));
    if same_chars(head, p.as_slice()) {
        let rest = vstd::slice::slice_subrange(cs, p.len(), cs.len());
        assert(rest@ =~= cs@.skip(prefix@.len() as int));
        Some(rest)
    } else {
        None
    }
}

/// What precedes `suffix`, if the text ends with it.
pub fn before_suffix<'a>(cs: &'a [char], suffix: &str) -> (r: Option<&'a [char]>)
    ensures
        match r {
            Some(rest) => ends(cs@, suffix@) && rest@ == cs@.take(cs@.len() - suffix@.len()),
            None => !ends(cs@, suffix@),
        },
{
    let p = chars_of(suffix);
    if p.len() > cs.len() {
        return None;
    }
    let at: usize = cs.len() - p.len();
    let tail = vstd::slice::slice_subrange(cs, at, cs.len());
    assert(tail@ =~= cs@.skip(cs@.len() - suffix@.len()));
    if same_chars(tail, p.as_slice()) {
        let rest = vstd::slice::slice_subrange(cs, 0, at);
        assert(rest@ =~= cs@.take(cs@.len() - suffix@.len()));
        Some(rest)
    } else {
        None
    }
}

} // verus!
