//! Character-level text helpers: counter parsing, character replacement
//! and metric/label name validity.

use vstd::prelude::*;
use vstd::string::StrSliceExecFns;

verus! {

/// Relies on String::push: appends exactly one character at the end.
#[verifier::external_body]
pub(crate) fn push_char(s: &mut String, c: char)
    ensures
        final(s)@ == old(s)@.push(c),
{
    s.push(c);
}

/// The white-space characters that surround a counter value: the
/// Unicode White_Space set, as `str::trim` removes.
pub open spec fn spec_is_space(c: char) -> bool {
    let u = c as u32;
    (9 <= u && u <= 13) || u == 32 || u == 0x85 || u == 0xA0 || u == 0x1680 || (0x2000 <= u && u
        <= 0x200A) || u == 0x2028 || u == 0x2029 || u == 0x202F || u == 0x205F || u == 0x3000
}

pub open spec fn spec_is_digit(c: char) -> bool {
    48 <= c as u32 <= 57
}

pub open spec fn digit_val(c: char) -> int {
    c as u32 - 48
}

pub open spec fn all_digits(s: Seq<char>) -> bool {
    forall|i: int| 0 <= i < s.len() ==> spec_is_digit(#[trigger] s[i])
}

/// Numeric value of a digit string, most significant digit first.
pub open spec fn digits_value(s: Seq<char>) -> int
    decreases s.len(),
{
    if s.len() == 0 {
        0
    } else {
        digits_value(s.drop_last()) * 10 + digit_val(s.last())
    }
}

pub open spec fn trim_front(s: Seq<char>) -> Seq<char>
    decreases s.len(),
{
    if s.len() > 0 && spec_is_space(s[0]) {
        trim_front(s.skip(1))
    } else {
        s
    }
}

pub open spec fn trim_back(s: Seq<char>) -> Seq<char>
    decreases s.len(),
{
    if s.len() > 0 && spec_is_space(s.last()) {
        trim_back(s.drop_last())
    } else {
        s
    }
}

/// The input with surrounding whitespace removed.
pub open spec fn trimmed(s: Seq<char>) -> Seq<char> {
    trim_back(trim_front(s))
}

/// A counter file is read as an optionally `+`-signed run of decimal
/// digits surrounded by white space; anything else, and any value that
/// does not fit in 64 bits, counts as zero.
pub open spec fn spec_parse_counter(s: Seq<char>) -> u64 {
    let t0 = trimmed(s);
    let t = if t0.len() > 0 && t0[0] == '+' {
        t0.skip(1)
    } else {
        t0
    };
    if t.len() > 0 && all_digits(t) && digits_value(t) <= u64::MAX {
        digits_value(t) as u64
    } else {
        0
    }
}

proof fn lemma_trim_front_skip(s: Seq<char>, i: int)
    requires
        0 <= i <= s.len(),
        forall|j: int| 0 <= j < i ==> spec_is_space(#[trigger] s[j]),
        i == s.len() || !spec_is_space(s[i]),
    ensures
        trim_front(s) == s.skip(i),
    decreases i,
{
    if i == 0 {
        assert(s.skip(0) =~= s);
    } else {
        assert(spec_is_space(s[0]));
        lemma_trim_front_skip(s.skip(1), i - 1);
        assert(s.skip(1).skip(i - 1) =~= s.skip(i));
    }
}

proof fn lemma_trim_back_sub(s: Seq<char>, i: int)
    requires
        0 <= i <= s.len(),
        forall|j: int| i <= j < s.len() ==> spec_is_space(#[trigger] s[j]),
        i == 0 || !spec_is_space(s[i - 1]),
    ensures
        trim_back(s) == s.take(i),
    decreases s.len() - i,
{
    if i == s.len() {
        assert(s.take(i) =~= s);
    } else {
        assert(spec_is_space(s.last()));
        lemma_trim_back_sub(s.drop_last(), i);
        assert(s.drop_last().take(i) =~= s.take(i));
    }
}

/// The value of a digit string only grows as digits are appended.
proof fn lemma_digits_value_bounds(s: Seq<char>)
    requires
        all_digits(s),
    ensures
        digits_value(s) >= 0,
        s.len() > 0 ==> digits_value(s) >= digits_value(s.drop_last()),
    decreases s.len(),
{
    if s.len() > 0 {
        assert(spec_is_digit(s.last()));
        lemma_digits_value_bounds(s.drop_last());
    }
}

proof fn lemma_digits_value_monotone(s: Seq<char>, i: int)
    requires
        all_digits(s),
        0 <= i <= s.len(),
    ensures
        digits_value(s) >= digits_value(s.take(i)),
    decreases s.len() - i,
{
    if i == s.len() {
        assert(s.take(i) =~= s);
    } else {
        lemma_digits_value_monotone(s, i + 1);
        let t = s.take(i + 1);
        assert(all_digits(t)) by {
            assert(forall|j: int| 0 <= j < t.len() ==> t[j] == s[j]);
        }
        assert(t.drop_last() =~= s.take(i));
        lemma_digits_value_bounds(t);
    }
}

/// Read a counter value from file contents: trim surrounding whitespace,
/// parse as base-10 unsigned 64-bit, and resolve any failure to zero.
#[verifier::loop_isolation(false)]
pub fn parse_counter(s: &str) -> (r: u64)
    ensures
        r == spec_parse_counter(s@),
{
    let n = s.unicode_len();
    let mut start: usize = 0;
    while start < n && is_space(s.get_char(start))
        invariant
            n == s@.len(),
            start <= n,
            forall|j: int| 0 <= j < start ==> spec_is_space(#[trigger] s@[j]),
        decreases n - start,
    {
        start += 1;
    }
    proof {
        lemma_trim_front_skip(s@, start as int);
    }
    let ghost f = s@.skip(start as int);
    let mut end: usize = n;
    while end > start && is_space(s.get_char(end - 1))
        invariant
            n == s@.len(),
            start <= end <= n,
            trim_front(s@) == f,
            f == s@.skip(start as int),
            forall|j: int| end <= j < n ==> spec_is_space(#[trigger] s@[j]),
        decreases end,
    {
        end -= 1;
    }
    proof {
        assert(forall|j: int| end - start <= j < f.len() ==> spec_is_space(#[trigger] f[j]));
        lemma_trim_back_sub(f, end - start);
        assert(trimmed(s@) == f.take(end - start));
    }
    let ghost t0 = trimmed(s@);
    let mut i: usize = start;
    if end > start && s.get_char(start) == '+' {
        i = start + 1;
    }
    let ghost t = if t0.len() > 0 && t0[0] == '+' {
        t0.skip(1)
    } else {
        t0
    };
    proof {
        assert(t =~= s@.subrange(i as int, end as int));
    }
    if i == end {
        return 0;
    }
    let mut acc: u64 = 0;
    let mut j: usize = i;
    while j < end
        invariant
            n == s@.len(),
            i <= j <= end <= n,
            t == s@.subrange(i as int, end as int),
            all_digits(t.take(j - i)),
            acc == digits_value(t.take(j - i)),
            acc <= u64::MAX,
        decreases end - j,
    {
        let c = s.get_char(j);
        proof {
            assert(t[j - i] == s@[j as int]);
        }
        let cv = c as u32;
        if cv < 48 || cv > 57 {
            proof {
                assert(!spec_is_digit(t[j - i]));
            }
            return 0;
        }
        let d: u64 = (cv - 48) as u64;
        if acc > (u64::MAX - d) / 10 {
            proof {
                let pre = t.take(j - i + 1);
                assert(pre.drop_last() =~= t.take(j - i));
                assert(all_digits(pre));
                assert(digits_value(pre) == acc * 10 + d);
                assert(digits_value(pre) > u64::MAX) by (nonlinear_arith)
                    requires
                        digits_value(pre) == acc * 10 + d,
                        acc > (u64::MAX - d) / 10,
                        0 <= d <= 9,
                        acc >= 0,
                {}
                if all_digits(t) {
                    lemma_digits_value_monotone(t, j - i + 1);
                    assert(digits_value(t) > u64::MAX);
                }
            }
            return 0;
        }
        proof {
            let pre = t.take(j - i + 1);
            assert(pre.drop_last() =~= t.take(j - i));
            assert(pre.last() == t[j - i]);
            assert(digits_value(pre) == acc * 10 + d);
            assert(acc * 10 + d <= u64::MAX) by (nonlinear_arith)
                requires
                    acc <= (u64::MAX - d) / 10,
                    0 <= d <= 9,
                    acc >= 0,
            {}
        }
        acc = acc * 10 + d;
        j += 1;
    }
    proof {
        assert(t.take(end - i) =~= t);
    }
    acc
}

/// Whitespace test over the characters trimmed around a number.
pub fn is_space(c: char) -> (r: bool)
    ensures
        r == spec_is_space(c),
{
    let u = c as u32;
    (9 <= u && u <= 13) || u == 32 || u == 0x85 || u == 0xA0 || u == 0x1680 || (0x2000 <= u && u
        <= 0x200A) || u == 0x2028 || u == 0x2029 || u == 0x202F || u == 0x205F || u == 0x3000
}

/// One character of a Prometheus metric name: letter, underscore, colon,
/// or (after the first position) a digit.
pub open spec fn spec_name_char(c: char, colon: bool) -> bool {
    ('a' <= c && c <= 'z') || ('A' <= c && c <= 'Z') || c == '_' || (colon && c == ':')
}

/// Metric names follow `[a-zA-Z_:][a-zA-Z0-9_:]*`.
pub open spec fn spec_valid_metric_name(s: Seq<char>) -> bool {
    s.len() > 0 && spec_name_char(s[0], true) && forall|i: int|
        1 <= i < s.len() ==> spec_name_char(#[trigger] s[i], true) || spec_is_digit(s[i])
}

/// Label names follow `[a-zA-Z_][a-zA-Z0-9_]*`.
pub open spec fn spec_valid_label_name(s: Seq<char>) -> bool {
    s.len() > 0 && spec_name_char(s[0], false) && forall|i: int|
        1 <= i < s.len() ==> spec_name_char(#[trigger] s[i], false) || spec_is_digit(s[i])
}

fn name_char(c: char, colon: bool) -> (r: bool)
    ensures
        r == spec_name_char(c, colon),
{
    ('a' <= c && c <= 'z') || ('A' <= c && c <= 'Z') || c == '_' || (colon && c == ':')
}

fn digit_char(c: char) -> (r: bool)
    ensures
        r == spec_is_digit(c),
{
    let cv = c as u32;
    48 <= cv && cv <= 57
}

fn valid_ident(s: &str, colon: bool) -> (r: bool)
    ensures
        colon ==> r == spec_valid_metric_name(s@),
        !colon ==> r == spec_valid_label_name(s@),
{
    let n = s.unicode_len();
    if n == 0 {
        return false;
    }
    if !name_char(s.get_char(0), colon) {
        return false;
    }
    let mut i: usize = 1;
    while i < n
        invariant
            n == s@.len(),
            1 <= i <= n,
            forall|j: int|
                1 <= j < i ==> spec_name_char(#[trigger] s@[j], colon) || spec_is_digit(s@[j]),
        decreases n - i,
    {
        let c = s.get_char(i);
        if !name_char(c, colon) && !digit_char(c) {
            return false;
        }
        i += 1;
    }
    true
}

/// Whether a string can be used as a Prometheus metric name.
pub fn valid_metric_name(s: &str) -> (r: bool)
    ensures
        r == spec_valid_metric_name(s@),
{
    valid_ident(s, true)
}

/// Whether a string can be used as a Prometheus label name.
pub fn valid_label_name(s: &str) -> (r: bool)
    ensures
        r == spec_valid_label_name(s@),
{
    valid_ident(s, false)
}

/// Character-for-character string equality.
pub fn str_eq(a: &str, b: &str) -> (r: bool)
    ensures
        r == (a@ == b@),
{
    let n = a.unicode_len();
    let m = b.unicode_len();
    if n != m {
        proof {
            assert(a@ != b@);
        }
        return false;
    }
    let mut i: usize = 0;
    while i < n
        invariant
            n == a@.len(),
            n == b@.len(),
            i <= n,
            forall|j: int| 0 <= j < i ==> a@[j] == b@[j],
        decreases n - i,
    {
        if a.get_char(i) != b.get_char(i) {
            return false;
        }
        i += 1;
    }
    proof {
        assert(a@ =~= b@);
    }
    true
}

/// Every occurrence of `from` replaced by `to`.
pub open spec fn replace_char(s: Seq<char>, from: char, to: char) -> Seq<char> {
    s.map_values(|c: char| if c == from { to } else { c })
}

pub fn replace_char_exec(s: &str, from: char, to: char) -> (r: String)
    ensures
        r@ == replace_char(s@, from, to),
{
    let n = s.unicode_len();
    let mut out = String::new();
    let mut i: usize = 0;
    while i < n
        invariant
            n == s@.len(),
            i <= n,
            out@ == replace_char(s@.take(i as int), from, to),
        decreases n - i,
    {
        let c = s.get_char(i);
        if c == from {
            push_char(&mut out, to);
        } else {
            push_char(&mut out, c);
        }
        proof {
            assert(out@ =~= replace_char(s@.take(i as int + 1), from, to));
        }
        i += 1;
    }
    proof {
        assert(s@.take(n as int) =~= s@);
    }
    out
}

/// Every occurrence of `from` removed.
pub open spec fn remove_char(s: Seq<char>, from: char) -> Seq<char> {
    s.filter(|c: char| c != from)
}

pub fn remove_char_exec(s: &str, from: char) -> (r: String)
    ensures
        r@ == remove_char(s@, from),
{
    let n = s.unicode_len();
    let mut out = String::new();
    let mut i: usize = 0;
    while i < n
        invariant
            n == s@.len(),
            i <= n,
            out@ == remove_char(s@.take(i as int), from),
        decreases n - i,
    {
        let c = s.get_char(i);
        proof {
            reveal_with_fuel(Seq::filter, 2);
            assert(s@.take(i as int + 1).drop_last() =~= s@.take(i as int));
            assert(s@.take(i as int + 1).last() == s@[i as int]);
        }
        if c != from {
            push_char(&mut out, c);
        }
        i += 1;
    }
    proof {
        assert(s@.take(n as int) =~= s@);
    }
    out
}

/// Every `/` replaced by the two characters `__`.
pub open spec fn slash_to_dunder(s: Seq<char>) -> Seq<char>
    decreases s.len(),
{
    if s.len() == 0 {
        Seq::empty()
    } else {
        let p = slash_to_dunder(s.drop_last());
        if s.last() == '/' {
            p.push('_').push('_')
        } else {
            p.push(s.last())
        }
    }
}

pub fn slash_to_dunder_exec(s: &str) -> (r: String)
    ensures
        r@ == slash_to_dunder(s@),
{
    let n = s.unicode_len();
    let mut out = String::new();
    let mut i: usize = 0;
    while i < n
        invariant
            n == s@.len(),
            i <= n,
            out@ == slash_to_dunder(s@.take(i as int)),
        decreases n - i,
    {
        let c = s.get_char(i);
        proof {
            assert(s@.take(i as int + 1).drop_last() =~= s@.take(i as int));
            assert(s@.take(i as int + 1).last() == s@[i as int]);
        }
        if c == '/' {
            push_char(&mut out, '_');
            push_char(&mut out, '_');
        } else {
            push_char(&mut out, c);
        }
        i += 1;
    }
    proof {
        assert(s@.take(n as int) =~= s@);
    }
    out
}

} // verus!
