//! The bracketed-label grammar of OpenConfig keys.
//!
//! A key such as `/interfaces/interface[name='et-0/0/8']/state/counters`
//! carries label assignments in minimal `[...]` segments.  Scanning walks
//! left to right; at a `[` the segment runs to the nearest following `]`
//! on the same line, and an unclosed `[` stays ordinary text.

use vstd::prelude::*;
use vstd::string::StrSliceExecFns;
use vstd::string::StringExecFns;

verus! {

/// Index of the first `]` at or after `j`, provided no line break comes
/// first; -1 otherwise.
pub open spec fn scan_close(s: Seq<char>, j: int) -> int
    decreases s.len() - j
    when 0 <= j <= s.len()
{
    if j >= s.len() {
        -1
    } else if s[j] == ']' {
        j
    } else if s[j] == '\n' {
        -1
    } else {
        scan_close(s, j + 1)
    }
}

pub proof fn lemma_scan_close_props(s: Seq<char>, j: int)
    requires
        0 <= j <= s.len(),
    ensures
        scan_close(s, j) == -1 || (j <= scan_close(s, j) < s.len() && s[scan_close(s, j)] == ']'),
    decreases s.len() - j,
{
    if j >= s.len() {
    } else if s[j] == ']' {
    } else if s[j] == '\n' {
    } else {
        lemma_scan_close_props(s, j + 1);
    }
}

/// The input with every minimal bracket segment removed.
pub open spec fn strip_brackets_s(s: Seq<char>) -> Seq<char>
    decreases s.len()
    via strip_brackets_s_dec
{
    if s.len() == 0 {
        Seq::empty()
    } else if s[0] == '[' && scan_close(s, 1) >= 1 {
        strip_brackets_s(s.skip(scan_close(s, 1) + 1))
    } else {
        seq![s[0]] + strip_brackets_s(s.skip(1))
    }
}

#[via_fn]
proof fn strip_brackets_s_dec(s: Seq<char>) {
    if s.len() > 0 {
        lemma_scan_close_props(s, 1);
    }
}

/// The contents of every minimal bracket segment, in order of appearance.
pub open spec fn bracket_contents_s(s: Seq<char>) -> Seq<Seq<char>>
    decreases s.len()
    via bracket_contents_s_dec
{
    if s.len() == 0 {
        Seq::empty()
    } else if s[0] == '[' && scan_close(s, 1) >= 1 {
        seq![s.subrange(1, scan_close(s, 1))] + bracket_contents_s(s.skip(scan_close(s, 1) + 1))
    } else {
        bracket_contents_s(s.skip(1))
    }
}

#[via_fn]
proof fn bracket_contents_s_dec(s: Seq<char>) {
    if s.len() > 0 {
        lemma_scan_close_props(s, 1);
    }
}

/// The stripped text never keeps a character of a matched segment, so it
/// holds no `[` that opened one; a fully bracket-balanced input comes out
/// with no bracket characters at all (see `lemma_stripped_no_brackets`).
pub open spec fn well_bracketed(s: Seq<char>) -> bool
    decreases s.len()
    via well_bracketed_dec
{
    if s.len() == 0 {
        true
    } else if s[0] == '[' {
        scan_close(s, 1) >= 1 && well_bracketed(s.skip(scan_close(s, 1) + 1))
    } else {
        s[0] != ']' && well_bracketed(s.skip(1))
    }
}

#[via_fn]
proof fn well_bracketed_dec(s: Seq<char>) {
    if s.len() > 0 {
        lemma_scan_close_props(s, 1);
    }
}

/// Stripping a well-bracketed input leaves no bracket characters.
pub proof fn lemma_stripped_no_brackets(s: Seq<char>)
    requires
        well_bracketed(s),
    ensures
        forall|i: int|
            0 <= i < strip_brackets_s(s).len() ==> strip_brackets_s(s)[i] != '['
                && strip_brackets_s(s)[i] != ']',
    decreases s.len(),
{
    if s.len() == 0 {
    } else if s[0] == '[' && scan_close(s, 1) >= 1 {
        lemma_scan_close_props(s, 1);
        let j = scan_close(s, 1);
        lemma_stripped_no_brackets(s.skip(j + 1));
        let t = strip_brackets_s(s);
        assert(t == strip_brackets_s(s.skip(j + 1)));
        assert forall|i: int| 0 <= i < t.len() implies t[i] != '[' && t[i] != ']' by {
            assert(t[i] == strip_brackets_s(s.skip(j + 1))[i]);
        }
    } else {
        lemma_stripped_no_brackets(s.skip(1));
        let t = strip_brackets_s(s);
        assert(t == seq![s[0]] + strip_brackets_s(s.skip(1)));
        assert forall|i: int| 0 <= i < t.len() implies t[i] != '[' && t[i] != ']' by {
            if i == 0 {
                assert(t[0] == s[0]);
            } else {
                assert(t[i] == strip_brackets_s(s.skip(1))[i - 1]);
            }
        }
    }
}

/// Shifting the start of a close-scan by a common prefix.
proof fn lemma_scan_close_shift(s: Seq<char>, a: int, j: int)
    requires
        0 <= a,
        0 <= j,
        a + j <= s.len(),
    ensures
        scan_close(s.skip(a), j) == if scan_close(s, a + j) == -1 {
            -1
        } else {
            scan_close(s, a + j) - a
        },
    decreases s.len() - a - j,
{
    if a + j >= s.len() {
    } else {
        assert(s.skip(a)[j] == s[a + j]);
        if s[a + j] == ']' || s[a + j] == '\n' {
        } else {
            lemma_scan_close_shift(s, a, j + 1);
        }
    }
}

/// Split the key into its text outside brackets and the list of bracket
/// segment contents.
#[verifier::loop_isolation(false)]
pub fn bracket_scan(s: &str) -> (r: (String, Vec<String>))
    ensures
        r.0@ == strip_brackets_s(s@),
        r.1.deep_view() == bracket_contents_s(s@),
{
    let n = s.unicode_len();
    let mut out = String::new();
    let mut contents: Vec<String> = Vec::new();
    let mut p: usize = 0;
    proof {
        assert(s@.skip(0) =~= s@);
        assert(contents.deep_view() =~= Seq::<Seq<char>>::empty());
        assert(out@ + strip_brackets_s(s@) =~= strip_brackets_s(s@));
        assert(contents.deep_view() + bracket_contents_s(s@) =~= bracket_contents_s(s@));
    }
    while p < n
        invariant
            strip_brackets_s(s@) == out@ + strip_brackets_s(s@.skip(p as int)),
            bracket_contents_s(s@) == contents.deep_view() + bracket_contents_s(
                s@.skip(p as int),
            ),
            p <= n,
        decreases n - p,
    {
        let ghost rest = s@.skip(p as int);
        let c = s.get_char(p);
        proof {
            assert(rest[0] == s@[p as int]);
        }
        if c == '[' {
            // look for the nearest close on this line
            let mut m: usize = p + 1;
            let mut close: usize = 0;
            let mut found: bool = false;
            while m < n
                invariant
                    p + 1 <= m <= n,
                    !found,
                    scan_close(s@, p + 1) == scan_close(s@, m as int),
                decreases n - m,
            {
                let d = s.get_char(m);
                if d == ']' {
                    close = m;
                    found = true;
                    break ;
                }
                if d == '\n' {
                    break ;
                }
                m += 1;
            }
            proof {
                lemma_scan_close_shift(s@, p as int, 1);
            }
            if found {
                proof {
                    assert(scan_close(s@, p + 1) == close as int);
                    assert(scan_close(rest, 1) == close - p);
                }
                let seg = String::from_str(s.substring_char(p + 1, close));
                let ghost dv0 = contents.deep_view();
                let ghost cv0 = contents@;
                proof {
                    assert(dv0 == Seq::new(cv0.len(), |k: int| cv0[k].deep_view()));
                }
                contents.push(seg);
                proof {
                    assert(contents.deep_view() =~= dv0.push(seg@));
                    assert(rest.subrange(1, close - p) =~= s@.subrange(p + 1, close as int));
                    assert(rest.skip(close - p + 1) =~= s@.skip(close + 1));
                    assert(strip_brackets_s(rest) == strip_brackets_s(s@.skip(close + 1)));
                    assert(bracket_contents_s(rest) == seq![seg@] + bracket_contents_s(
                        s@.skip(close + 1),
                    ));
                    assert(contents.deep_view() + bracket_contents_s(s@.skip(close + 1)) =~= dv0
                        + bracket_contents_s(rest));
                }
                p = close + 1;
            } else {
                proof {
                    if scan_close(s@, p + 1) >= 0 {
                        lemma_scan_close_props(s@, p + 1);
                        assert(false) by {
                            assert(m as int == scan_close(s@, m as int) || s@[m as int] == '\n'
                                || m == n);
                        }
                    }
                    assert(scan_close(rest, 1) == -1);
                    assert(strip_brackets_s(rest) == seq![rest[0]] + strip_brackets_s(
                        rest.skip(1),
                    ));
                    assert(rest.skip(1) =~= s@.skip(p + 1));
                }
                crate::text::push_char(&mut out, c);
                proof {
                    assert(out@ + strip_brackets_s(s@.skip(p + 1)) =~= strip_brackets_s(s@));
                }
                p += 1;
            }
        } else {
            proof {
                assert(strip_brackets_s(rest) == seq![rest[0]] + strip_brackets_s(rest.skip(1)));
                assert(rest.skip(1) =~= s@.skip(p + 1));
            }
            crate::text::push_char(&mut out, c);
            proof {
                assert(out@ + strip_brackets_s(s@.skip(p + 1)) =~= strip_brackets_s(s@));
            }
            p += 1;
        }
    }
    proof {
        assert(s@.skip(n as int) =~= Seq::<char>::empty());
        assert(out@ =~= strip_brackets_s(s@));
        assert(contents.deep_view() =~= bracket_contents_s(s@));
    }
    (out, contents)
}

} // verus!
