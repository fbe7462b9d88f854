//! Character-level text handling: decimal numbers, whitespace trimming and
//! splitting text into lines.

use vstd::prelude::*;

verus! {

/// `String::push`: appends one character.
#[verifier::external_body]
pub(crate) fn push_char(s: &mut String, c: char)
    ensures
        final(s)@ == old(s)@.push(c),
{
    s.push(c)
}

/// The characters of `s`, in order.
pub fn chars_of(s: &str) -> (r: Vec<char>)
    ensures
        r@ == s@,
{
    let n = s.unicode_len();
    let mut r: Vec<char> = Vec::new();
    let mut i: usize = 0;
    while i < n
        invariant
            n == s@.len(),
            i <= n,
            r@ == s@.take(i as int),
        decreases n - i,
    {
        r.push(s.get_char(i));
        assert(r@ =~= s@.take(i + 1));
        i += 1;
    }
    assert(s@.take(n as int) =~= s@);
    r
}

/// A string holding the characters of `cs`.
pub fn string_from_chars(cs: &[char]) -> (r: String)
    ensures
        r@ == cs@,
{
    let mut r = String::new();
    let mut i: usize = 0;
    while i < cs.len()
        invariant
            i <= cs.len(),
            r@ == cs@.take(i as int),
        decreases cs.len() - i,
    {
        push_char(&mut r, cs[i]);
        assert(r@ =~= cs@.take(i + 1));
        i += 1;
    }
    assert(cs@.take(cs.len() as int) =~= cs@);
    r
}

/// The decimal digit character for `d`.
pub open spec fn digit_char(d: int) -> char {
    ((d + 48) as u32) as char
}

/// The decimal notation of `n`, without leading zeros.
pub open spec fn decimal(n: nat) -> Seq<char>
    decreases n,
{
    if n < 10 {
        seq![digit_char(n as int)]
    } else {
        decimal(n / 10).push(digit_char((n % 10) as int))
    }
}

/// The decimal notation of `v`, with a minus sign when it is negative.
pub open spec fn signed_decimal(v: int) -> Seq<char> {
    if v < 0 {
        seq!['-'] + decimal((-v) as nat)
    } else {
        decimal(v as nat)
    }
}

fn digit(d: u64) -> (c: char)
    requires
        d < 10,
    ensures
        c == digit_char(d as int),
{
    ((d + 48) as u8) as char
}

/// Appends the decimal notation of `n`.
pub fn push_decimal(s: &mut String, n: u64)
    ensures
        final(s)@ == old(s)@ + decimal(n as nat),
    decreases n,
{
    if n >= 10 {
        push_decimal(s, n / 10);
    }
    push_char(s, digit(n % 10));
    if n >= 10 {
        assert(final(s)@ =~= old(s)@ + decimal(n as nat));
    } else {
        assert(final(s)@ =~= old(s)@ + decimal(n as nat));
    }
}

/// Appends the decimal notation of `v`, with a minus sign when it is negative.
pub fn push_signed_decimal(s: &mut String, v: i64)
    requires
        v > i64::MIN,
    ensures
        final(s)@ == old(s)@ + signed_decimal(v as int),
{
    if v < 0 {
        push_char(s, '-');
        push_decimal(s, (-v) as u64);
        assert(final(s)@ =~= old(s)@ + signed_decimal(v as int));
    } else {
        push_decimal(s, v as u64);
    }
}

/// `char::is_whitespace`: the Unicode `White_Space` property.
pub open spec fn is_whitespace(c: char) -> bool {
    let u = c as u32;
    ||| 0x9 <= u <= 0xD
    ||| u == 0x20
    ||| u == 0x85
    ||| u == 0xA0
    ||| u == 0x1680
    ||| 0x2000 <= u <= 0x200A
    ||| u == 0x2028
    ||| u == 0x2029
    ||| u == 0x202F
    ||| u == 0x205F
    ||| u == 0x3000
}

pub fn char_is_whitespace(c: char) -> (b: bool)
    ensures
        b == is_whitespace(c),
{
    let u = c as u32;
    (0x9 <= u && u <= 0xD) || u == 0x20 || u == 0x85 || u == 0xA0 || u == 0x1680 || (0x2000 <= u
        && u <= 0x200A) || u == 0x2028 || u == 0x2029 || u == 0x202F || u == 0x205F || u == 0x3000
}

/// `s` without its leading whitespace.
pub open spec fn trim_start(s: Seq<char>) -> Seq<char>
    decreases s.len(),
{
    if s.len() > 0 && is_whitespace(s[0]) {
        trim_start(s.drop_first())
    } else {
        s
    }
}

/// `s` without its trailing whitespace.
pub open spec fn trim_end(s: Seq<char>) -> Seq<char>
    decreases s.len(),
{
    if s.len() > 0 && is_whitespace(s.last()) {
        trim_end(s.drop_last())
    } else {
        s
    }
}

/// `str::trim`: `s` without leading and trailing whitespace.
pub open spec fn trim(s: Seq<char>) -> Seq<char> {
    trim_end(trim_start(s))
}

/// `str::trim` on characters.
pub fn trim_chars(s: &[char]) -> (r: Vec<char>)
    ensures
        r@ == trim(s@),
{
    let mut lo: usize = 0;
    assert(s@.subrange(0, s@.len() as int) =~= s@);
    while lo < s.len() && char_is_whitespace(s[lo])
        invariant
            lo <= s.len(),
            trim_start(s@) == trim_start(s@.subrange(lo as int, s@.len() as int)),
        decreases s.len() - lo,
    {
        assert(s@.subrange(lo as int, s@.len() as int).drop_first() =~= s@.subrange(
            lo + 1,
            s@.len() as int,
        ));
        lo += 1;
    }
    let ghost start = s@.subrange(lo as int, s@.len() as int);
    assert(trim_start(start) == start);
    let mut hi: usize = s.len();
    while hi > lo && char_is_whitespace(s[hi - 1])
        invariant
            lo <= hi <= s.len(),
            start == s@.subrange(lo as int, s@.len() as int),
            trim_end(start) == trim_end(s@.subrange(lo as int, hi as int)),
        decreases hi,
    {
        assert(s@.subrange(lo as int, hi as int).drop_last() =~= s@.subrange(
            lo as int,
            hi - 1,
        ));
        hi -= 1;
    }
    let mut r: Vec<char> = Vec::new();
    let mut i: usize = lo;
    while i < hi
        invariant
            lo <= i <= hi <= s.len(),
            r@ == s@.subrange(lo as int, i as int),
        decreases hi - i,
    {
        r.push(s[i]);
        assert(r@ =~= s@.subrange(lo as int, i + 1));
        i += 1;
    }
    r
}

/// The character is a decimal digit.
pub open spec fn is_digit(c: char) -> bool {
    48 <= (c as u32) <= 57
}

/// The number written by the decimal digits `s`.
pub open spec fn digits_value(s: Seq<char>) -> nat
    decreases s.len(),
{
    if s.len() == 0 {
        0
    } else {
        digits_value(s.drop_last()) * 10 + ((s.last() as u32) - 48) as nat
    }
}

/// The digits part of an unsigned number: without one leading `+`.
pub open spec fn unsigned_digits(s: Seq<char>) -> Seq<char> {
    if s.len() > 0 && s[0] == '+' {
        s.drop_first()
    } else {
        s
    }
}

/// `u32::from_str`: an optional `+`, then one or more decimal digits whose
/// value fits in a `u32`.
pub open spec fn parse_u32(s: Seq<char>) -> Option<u32> {
    let d = unsigned_digits(s);
    if d.len() > 0 && (forall|i: int| 0 <= i < d.len() ==> is_digit(#[trigger] d[i])) && digits_value(
        d,
    ) <= u32::MAX {
        Some(digits_value(d) as u32)
    } else {
        None
    }
}

proof fn lemma_digits_value_monotone(s: Seq<char>, k: int)
    requires
        0 <= k <= s.len(),
    ensures
        digits_value(s.take(k)) <= digits_value(s),
    decreases s.len() - k,
{
    if k < s.len() {
        lemma_digits_value_monotone(s, k + 1);
        assert(s.take(k + 1).drop_last() =~= s.take(k));
    } else {
        assert(s.take(k) =~= s);
    }
}

/// Parses a `u32` as `str::parse::<u32>` does.
pub fn parse_u32_chars(s: &[char]) -> (r: Option<u32>)
    ensures
        r == parse_u32(s@),
{
    let mut i: usize = 0;
    if s.len() > 0 && s[0] == '+' {
        i = 1;
    }
    let ghost d = unsigned_digits(s@);
    assert(d =~= s@.subrange(i as int, s@.len() as int));
    if i >= s.len() {
        return None;
    }
    let mut value: u64 = 0;
    let mut j: usize = i;
    while j < s.len()
        invariant
            i <= j <= s.len(),
            d == unsigned_digits(s@),
            d == s@.subrange(i as int, s@.len() as int),
            value == digits_value(d.take(j - i)),
            value <= u32::MAX,
            forall|k: int| 0 <= k < j - i ==> is_digit(#[trigger] d[k]),
        decreases s.len() - j,
    {
        let c = s[j];
        assert(d[j - i] == c);
        let u = c as u32;
        if u < 48 || u > 57 {
            assert(!is_digit(d[j - i]));
            assert(!(forall|k: int| 0 <= k < d.len() ==> is_digit(#[trigger] d[k])));
            assert(parse_u32(s@) is None);
            return None;
        }
        assert(d.take(j - i + 1).drop_last() =~= d.take(j - i));
        assert(d.take(j - i + 1).last() == c);
        value = value * 10 + (u - 48) as u64;
        assert(value == digits_value(d.take(j - i + 1)));
        if value > 0xFFFF_FFFFu64 {
            proof {
                lemma_digits_value_monotone(d, j - i + 1);
                assert(parse_u32(s@) is None);
            }
            return None;
        }
        j += 1;
    }
    assert(d.take(j - i) =~= d);
    Some(value as u32)
}

/// What `str::lines` has produced after reading `s`, and the line still open.
pub open spec fn line_scan(s: Seq<char>) -> (Seq<Seq<char>>, Seq<char>)
    decreases s.len(),
{
    if s.len() == 0 {
        (Seq::empty(), Seq::empty())
    } else {
        let prev = line_scan(s.drop_last());
        if s.last() == '\n' {
            (prev.0.push(strip_cr(prev.1)), Seq::empty())
        } else {
            (prev.0, prev.1.push(s.last()))
        }
    }
}

/// A line without the carriage return of a `\r\n` ending.
pub open spec fn strip_cr(line: Seq<char>) -> Seq<char> {
    if line.len() > 0 && line.last() == '\r' {
        line.drop_last()
    } else {
        line
    }
}

/// `str::lines`: the lines of `s`, split at `\n` or `\r\n`; a final line
/// ending is optional.
pub open spec fn text_lines(s: Seq<char>) -> Seq<Seq<char>> {
    let scanned = line_scan(s);
    if scanned.1.len() == 0 {
        scanned.0
    } else {
        scanned.0.push(scanned.1)
    }
}

/// Splits `s` into lines as `str::lines` does.
pub fn lines_of(s: &[char]) -> (lines: Vec<Vec<char>>)
    ensures
        lines@.map_values(|l: Vec<char>| l@) == text_lines(s@),
{
    let mut lines: Vec<Vec<char>> = Vec::new();
    let mut cur: Vec<char> = Vec::new();
    let mut i: usize = 0;
    while i < s.len()
        invariant
            i <= s.len(),
            lines@.map_values(|l: Vec<char>| l@) == line_scan(s@.take(i as int)).0,
            cur@ == line_scan(s@.take(i as int)).1,
        decreases s.len() - i,
    {
        assert(s@.take(i + 1).drop_last() =~= s@.take(i as int));
        let c = s[i];
        if c == '\n' {
            let mut line = cur;
            if line.len() > 0 && line[line.len() - 1] == '\r' {
                line.pop();
            }
            let ghost prev = lines@;
            lines.push(line);
            assert(lines@.map_values(|l: Vec<char>| l@) =~= prev.map_values(|l: Vec<char>| l@).push(
                line@,
            ));
            cur = Vec::new();
        } else {
            cur.push(c);
        }
        i += 1;
    }
    assert(s@.take(s.len() as int) =~= s@);
    if cur.len() > 0 {
        let ghost prev = lines@;
        lines.push(cur);
        assert(lines@.map_values(|l: Vec<char>| l@) =~= prev.map_values(|l: Vec<char>| l@).push(
            cur@,
        ));
    }
    lines
}

/// The decimal notation of a number is a non-empty run of digits whose value
/// is the number.
pub proof fn lemma_decimal(n: nat)
    ensures
        decimal(n).len() > 0,
        forall|i: int| 0 <= i < decimal(n).len() ==> is_digit(#[trigger] decimal(n)[i]),
        digits_value(decimal(n)) == n,
    decreases n,
{
    assert((digit_char((n % 10) as int) as u32) == n % 10 + 48);
    let d = decimal(n);
    if n >= 10 {
        lemma_decimal(n / 10);
        assert(d.drop_last() =~= decimal(n / 10));
        assert(d.last() == digit_char((n % 10) as int));
        assert(digits_value(d) == digits_value(decimal(n / 10)) * 10 + (n % 10));
        assert((n / 10) * 10 + n % 10 == n);
        assert forall|i: int| 0 <= i < d.len() implies is_digit(#[trigger] d[i]) by {
            if i < d.len() - 1 {
                assert(d[i] == decimal(n / 10)[i]);
            }
        }
    } else {
        assert(d.drop_last() =~= Seq::<char>::empty());
        assert(digits_value(d.drop_last()) == 0);
        assert(d.last() == digit_char(n as int));
        assert(n % 10 == n);
    }
}

proof fn lemma_trim_keeps_outer_non_space(s: Seq<char>)
    requires
        s.len() > 0 ==> !is_whitespace(s[0]) && !is_whitespace(s.last()),
    ensures
        trim(s) == s,
{
}

/// Law: a decimal number reads back as itself, also after trimming.
pub proof fn lemma_parse_decimal(n: u32)
    ensures
        trim(decimal(n as nat)) == decimal(n as nat),
        parse_u32(decimal(n as nat)) == Some(n),
{
    lemma_decimal(n as nat);
    let d = decimal(n as nat);
    assert(is_digit(d[0]));
    assert(is_digit(d[d.len() - 1]));
    lemma_trim_keeps_outer_non_space(d);
    assert(unsigned_digits(d) == d);
}

proof fn lemma_line_scan_append(t: Seq<char>, u: Seq<char>)
    requires
        line_scan(t).1.len() == 0,
        !u.contains('\n'),
    ensures
        line_scan(t + u) == (line_scan(t).0, u),
    decreases u.len(),
{
    if u.len() == 0 {
        assert(t + u =~= t);
    } else {
        assert((t + u).drop_last() =~= t + u.drop_last());
        assert(!u.drop_last().contains('\n')) by {
            if u.drop_last().contains('\n') {
                let i = choose|i: int| 0 <= i < u.drop_last().len() && u.drop_last()[i] == '\n';
                assert(u[i] == '\n');
            }
        }
        lemma_line_scan_append(t, u.drop_last());
        assert(u[u.len() - 1] != '\n');
        assert(u.drop_last().push(u.last()) =~= u);
    }
}

/// Law: appending a line and its line ending to a text that is empty or ends
/// with a line ending adds exactly that line to the lines of the text.
pub proof fn lemma_text_lines_append(t: Seq<char>, line: Seq<char>)
    requires
        t.len() == 0 || t.last() == '\n',
        !line.contains('\n'),
        line.len() == 0 || line.last() != '\r',
    ensures
        text_lines(t + line + seq!['\n']) == text_lines(t).push(line),
{
    assert(line_scan(t).1.len() == 0);
    lemma_line_scan_append(t, line);
    let full = t + line + seq!['\n'];
    assert(full.drop_last() =~= t + line);
}

/// Every character of `s` is whitespace other than a line feed.
pub open spec fn blank_without_line_end(s: Seq<char>) -> bool {
    forall|i: int| 0 <= i < s.len() ==> is_whitespace(#[trigger] s[i]) && s[i] != '\n'
}

/// The text after the last line ending of `text` (all of it, when it has
/// none) is whitespace only.
pub open spec fn last_line_blank(text: Seq<char>) -> bool {
    forall|j: int|
        0 <= j < text.len() && !text.subrange(j, text.len() as int).contains('\n')
            ==> is_whitespace(#[trigger] text[j])
}

/// Leading whitespace does not change what `trim` keeps.
pub(crate) proof fn lemma_trim_after_blank(w: Seq<char>, s: Seq<char>)
    requires
        blank_without_line_end(w),
    ensures
        trim_start(w + s) == trim_start(s),
        trim(w + s) == trim(s),
    decreases w.len(),
{
    if w.len() == 0 {
        assert(w + s =~= s);
    } else {
        assert((w + s)[0] == w[0]);
        assert((w + s).drop_first() =~= w.drop_first() + s);
        assert forall|i: int| 0 <= i < w.drop_first().len() implies is_whitespace(
            #[trigger] w.drop_first()[i],
        ) && w.drop_first()[i] != '\n' by {
            assert(w.drop_first()[i] == w[i + 1]);
        }
        lemma_trim_after_blank(w.drop_first(), s);
    }
}

/// Where the last line of `s` starts: just after its last line feed, or at 0.
pub(crate) proof fn lemma_last_line_start(s: Seq<char>) -> (k: int)
    ensures
        0 <= k <= s.len(),
        k == 0 || s[k - 1] == '\n',
        forall|j: int| k <= j < s.len() ==> s[j] != '\n',
    decreases s.len(),
{
    if s.len() == 0 {
        0
    } else if s.last() == '\n' {
        s.len() as int
    } else {
        let k = lemma_last_line_start(s.drop_last());
        assert forall|j: int| k <= j < s.len() implies s[j] != '\n' by {
            if j < s.len() - 1 {
                assert(s.drop_last()[j] == s[j]);
            }
        }
        if k > 0 {
            assert(s.drop_last()[k - 1] == s[k - 1]);
        }
        k
    }
}

/// A last line without line ending, blank, adds one line of its own.
pub(crate) proof fn lemma_text_lines_blank_tail(t: Seq<char>, w: Seq<char>)
    requires
        t.len() == 0 || t.last() == '\n',
        blank_without_line_end(w),
    ensures
        text_lines(t + w) == if w.len() == 0 {
            text_lines(t)
        } else {
            text_lines(t).push(w)
        },
{
    assert(line_scan(t).1.len() == 0);
    assert(!w.contains('\n')) by {
        if w.contains('\n') {
            let i = choose|i: int| 0 <= i < w.len() && w[i] == '\n';
            assert(w[i] != '\n');
        }
    }
    lemma_line_scan_append(t, w);
}

} // verus!
