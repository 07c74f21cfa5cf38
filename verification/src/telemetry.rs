//! Telemetry key/value handling: the tagged payload type, label
//! extraction from bracketed key segments, and key sanitization.

use vstd::prelude::*;
use vstd::string::StrSliceExecFns;
use vstd::string::StringExecFns;
use crate::brackets::{bracket_contents_s, bracket_scan, strip_brackets_s, well_bracketed,
    lemma_stripped_no_brackets};
use crate::kvmap::{insert_s, LabelMap};
use crate::text::{push_char, remove_char, remove_char_exec, replace_char, replace_char_exec,
    slash_to_dunder, slash_to_dunder_exec};

verus! {

/// A telemetry sample payload.  Numeric payloads are read as unsigned
/// 64-bit counters; fractional wire values are truncated to their integer
/// part where the wire message is decoded, before they reach this type.
pub enum Value {
    Double(u64),
    Float(u64),
    Uint(u64),
    Int(i64),
    Str(String),
    Other,
}

pub open spec fn spec_convert_value(v: &Value) -> u64 {
    match v {
        Value::Double(x) => *x,
        Value::Float(x) => *x,
        Value::Uint(x) => *x,
        Value::Int(x) => if *x >= 0 {
            *x as u64
        } else {
            0
        },
        Value::Str(_) => 0,
        Value::Other => 0,
    }
}

/// Numeric payloads keep their value; negative, string and unknown
/// payloads count as zero.
pub fn convert_value(value: &Value) -> (r: u64)
    ensures
        r == spec_convert_value(value),
{
    match value {
        Value::Double(x) => *x,
        Value::Float(x) => *x,
        Value::Uint(x) => *x,
        Value::Int(x) => if *x >= 0 {
            *x as u64
        } else {
            0
        },
        Value::Str(_) => 0,
        Value::Other => 0,
    }
}

/// Index of the first occurrence of `c`, or -1.
pub open spec fn first_idx(s: Seq<char>, c: char) -> int
    decreases s.len(),
{
    if s.len() == 0 {
        -1
    } else if s[0] == c {
        0
    } else {
        let r = first_idx(s.skip(1), c);
        if r == -1 {
            -1
        } else {
            r + 1
        }
    }
}

pub proof fn lemma_first_idx_props(s: Seq<char>, c: char)
    ensures
        -1 <= first_idx(s, c) < s.len(),
        first_idx(s, c) == -1 ==> forall|j: int| 0 <= j < s.len() ==> s[j] != c,
        first_idx(s, c) >= 0 ==> s[first_idx(s, c)] == c && forall|j: int|
            0 <= j < first_idx(s, c) ==> s[j] != c,
    decreases s.len(),
{
    if s.len() == 0 {
    } else if s[0] == c {
    } else {
        lemma_first_idx_props(s.skip(1), c);
        assert forall|j: int| 0 <= j < s.len() && first_idx(s, c) == -1 implies s[j] != c by {
            if j > 0 {
                assert(s.skip(1)[j - 1] == s[j]);
            }
        }
        if first_idx(s, c) >= 0 {
            assert(s.skip(1)[first_idx(s, c) - 1] == s[first_idx(s, c)]);
            assert forall|j: int| 0 <= j < first_idx(s, c) implies s[j] != c by {
                if j > 0 {
                    assert(s.skip(1)[j - 1] == s[j]);
                }
            }
        }
    }
}

pub proof fn lemma_first_idx_at(s: Seq<char>, c: char, i: int)
    requires
        0 <= i < s.len(),
        s[i] == c,
        forall|j: int| 0 <= j < i ==> s[j] != c,
    ensures
        first_idx(s, c) == i,
    decreases s.len(),
{
    if i == 0 {
    } else {
        assert(s.skip(1)[i - 1] == s[i]);
        assert forall|j: int| 0 <= j < i - 1 implies s.skip(1)[j] != c by {
            assert(s.skip(1)[j] == s[j + 1]);
        }
        lemma_first_idx_at(s.skip(1), c, i - 1);
    }
}

/// A bracket segment that assigns a label holds exactly one `=`; it
/// splits into the text before and after it.
pub open spec fn spec_split_pair(s: Seq<char>) -> Option<(Seq<char>, Seq<char>)> {
    let i = first_idx(s, '=');
    if i >= 0 && first_idx(s.skip(i + 1), '=') == -1 {
        Some((s.take(i), s.skip(i + 1)))
    } else {
        None
    }
}

#[verifier::loop_isolation(false)]
pub fn split_pair(s: &str) -> (r: Option<(String, String)>)
    ensures
        match r {
            Some(p) => spec_split_pair(s@) == Some((p.0@, p.1@)),
            None => spec_split_pair(s@) is None,
        },
{
    let n = s.unicode_len();
    let mut i: usize = 0;
    let mut found: bool = false;
    while i < n
        invariant
            i <= n,
            !found,
            forall|j: int| 0 <= j < i ==> s@[j] != '=',
        decreases n - i,
    {
        if s.get_char(i) == '=' {
            found = true;
            break ;
        }
        i += 1;
    }
    if !found {
        proof {
            lemma_first_idx_props(s@, '=');
            if first_idx(s@, '=') >= 0 {
                assert(s@[first_idx(s@, '=')] == '=');
            }
        }
        return None;
    }
    proof {
        lemma_first_idx_at(s@, '=', i as int);
    }
    let mut j: usize = i + 1;
    while j < n
        invariant
            i < j <= n,
            forall|m: int| i < m < j ==> s@[m] != '=',
        decreases n - j,
    {
        if s.get_char(j) == '=' {
            proof {
                let rest = s@.skip(i + 1);
                assert(rest[j - i - 1] == s@[j as int]);
                lemma_first_idx_props(rest, '=');
                if first_idx(rest, '=') == -1 {
                    assert(rest[j - i - 1] != '=');
                }
            }
            return None;
        }
        j += 1;
    }
    proof {
        let rest = s@.skip(i + 1);
        lemma_first_idx_props(rest, '=');
        if first_idx(rest, '=') >= 0 {
            assert(s@[first_idx(rest, '=') + i + 1] == rest[first_idx(rest, '=')]);
        }
        assert(s@.subrange(0, i as int) =~= s@.take(i as int));
        assert(s@.subrange(i + 1, n as int) =~= s@.skip(i + 1));
    }
    let left = String::from_str(s.substring_char(0, i));
    let right = String::from_str(s.substring_char(i + 1, n));
    Some((left, right))
}

/// The label carried by one prefix bracket segment, if any: the key is
/// `prefix_` plus the text before `=` with `-` becoming `_`; the value is
/// the text after `=` with quotes removed and `-` becoming `_`; an empty
/// value drops the label.
pub open spec fn spec_prefix_label_pair(content: Seq<char>) -> Option<(Seq<char>, Seq<char>)> {
    match spec_split_pair(content) {
        Some(kv) => {
            let key = replace_char("prefix_"@ + kv.0, '-', '_');
            let val = replace_char(remove_char(kv.1, '\''), '-', '_');
            if val.len() > 0 {
                Some((key, val))
            } else {
                None
            }
        },
        None => None,
    }
}

/// The prefix label set built from the bracket segments, in appearance
/// order.
pub open spec fn spec_prefix_labels(cs: Seq<Seq<char>>) -> Seq<(Seq<char>, Seq<char>)>
    decreases cs.len(),
{
    if cs.len() == 0 {
        Seq::empty()
    } else {
        let p = spec_prefix_labels(cs.drop_last());
        match spec_prefix_label_pair(cs.last()) {
            Some(kv) => insert_s(p, kv.0, kv.1),
            None => p,
        }
    }
}

/// The metric-name prefix: brackets removed, `/` doubled to `__`, `-`
/// becoming `_`.
pub open spec fn spec_sanitized_prefix(s: Seq<char>) -> Seq<char> {
    replace_char(slash_to_dunder(strip_brackets_s(s)), '-', '_')
}

/// Parse a `__prefix__` payload into the metric-name prefix and the
/// prefix label set.
#[verifier::loop_isolation(false)]
pub fn parse_prefix(v: &str) -> (r: (String, LabelMap))
    ensures
        r.0@ == spec_sanitized_prefix(v@),
        r.1.view() == spec_prefix_labels(bracket_contents_s(v@)),
        r.1.wf(),
{
    let (stripped, contents) = bracket_scan(v);
    let prefix = replace_char_exec(slash_to_dunder_exec(stripped.as_str()).as_str(), '-', '_');
    let mut labels = LabelMap::new();
    let ghost cs = contents.deep_view();
    let n = contents.len();
    let mut i: usize = 0;
    proof {
        assert(cs.take(0) =~= Seq::<Seq<char>>::empty());
    }
    while i < n
        invariant
            i <= n,
            n == cs.len(),
            cs == contents.deep_view(),
            labels.view() == spec_prefix_labels(cs.take(i as int)),
            labels.wf(),
        decreases n - i,
    {
        proof {
            assert(contents.deep_view()[i as int] == contents@[i as int].deep_view());
            assert(cs.take(i as int + 1).drop_last() =~= cs.take(i as int));
            assert(cs.take(i as int + 1).last() == cs[i as int]);
        }
        match split_pair(contents[i].as_str()) {
            Some((k0, v0)) => {
                let key = replace_char_exec(
                    String::from_str("prefix_").concat(k0.as_str()).as_str(),
                    '-',
                    '_',
                );
                let val = replace_char_exec(
                    remove_char_exec(v0.as_str(), '\'').as_str(),
                    '-',
                    '_',
                );
                if val.unicode_len() > 0 {
                    labels.insert(key, val);
                }
            },
            None => {},
        }
        i += 1;
    }
    proof {
        assert(cs.take(n as int) =~= cs);
    }
    (prefix, labels)
}

/// The label carried by one counter bracket segment, if any: key with
/// quotes removed and `-` becoming `_`, value with quotes removed; either
/// side empty drops the entry.
pub open spec fn spec_counter_contrib(content: Seq<char>) -> Option<(Seq<char>, Seq<char>)> {
    match spec_split_pair(content) {
        Some(kv) => {
            let k = replace_char(remove_char(kv.0, '\''), '-', '_');
            let v = remove_char(kv.1, '\'');
            if k.len() > 0 && v.len() > 0 {
                Some((k, v))
            } else {
                None
            }
        },
        None => None,
    }
}

/// The per-counter label set: `counter_` plus each contributing key.
pub open spec fn spec_counter_labels(cs: Seq<Seq<char>>) -> Seq<(Seq<char>, Seq<char>)>
    decreases cs.len(),
{
    if cs.len() == 0 {
        Seq::empty()
    } else {
        let p = spec_counter_labels(cs.drop_last());
        match spec_counter_contrib(cs.last()) {
            Some(kv) => insert_s(p, "counter_"@ + kv.0, kv.1),
            None => p,
        }
    }
}

/// The values contributed by the bracket segments, in appearance order.
pub open spec fn contrib_values(cs: Seq<Seq<char>>) -> Seq<Seq<char>>
    decreases cs.len(),
{
    if cs.len() == 0 {
        Seq::empty()
    } else {
        let p = contrib_values(cs.drop_last());
        match spec_counter_contrib(cs.last()) {
            Some(kv) => p.push(kv.1),
            None => p,
        }
    }
}

/// Values joined with `_` between successive entries.
pub open spec fn join_underscore(vs: Seq<Seq<char>>) -> Seq<char>
    decreases vs.len(),
{
    if vs.len() == 0 {
        Seq::empty()
    } else {
        let p = join_underscore(vs.drop_last());
        if p.len() == 0 {
            vs.last()
        } else {
            p + seq!['_'] + vs.last()
        }
    }
}

/// The counter key: the concatenation of the contributed bracket values
/// in appearance order, separated by `_`.
pub open spec fn spec_counter_key(cs: Seq<Seq<char>>) -> Seq<char> {
    join_underscore(contrib_values(cs))
}

/// The counter key is a function of the contributed values alone, in
/// their appearance order: two keys whose bracket segments contribute the
/// same value sequence get the same counter key.
pub proof fn lemma_counter_key_deterministic(cs1: Seq<Seq<char>>, cs2: Seq<Seq<char>>)
    requires
        contrib_values(cs1) == contrib_values(cs2),
    ensures
        spec_counter_key(cs1) == spec_counter_key(cs2),
{
}

/// The sanitized short name of a counter, treated like the prefix:
/// brackets removed, `/` doubled to `__`, `-` becoming `_`.
pub open spec fn spec_counter_name(s: Seq<char>) -> Seq<char> {
    replace_char(slash_to_dunder(strip_brackets_s(s)), '-', '_')
}

/// Doubling slashes introduces no brackets.
proof fn lemma_slash_to_dunder_no_brackets(s: Seq<char>)
    requires
        forall|i: int| 0 <= i < s.len() ==> s[i] != '[' && s[i] != ']',
    ensures
        forall|i: int|
            0 <= i < slash_to_dunder(s).len() ==> slash_to_dunder(s)[i] != '['
                && slash_to_dunder(s)[i] != ']',
    decreases s.len(),
{
    if s.len() > 0 {
        lemma_slash_to_dunder_no_brackets(s.drop_last());
        let t = slash_to_dunder(s);
        let p = slash_to_dunder(s.drop_last());
        assert forall|i: int| 0 <= i < t.len() implies t[i] != '[' && t[i] != ']' by {
            if s.last() == '/' {
                assert(t == p.push('_').push('_'));
                if i < p.len() {
                    assert(t[i] == p[i]);
                }
            } else {
                assert(t == p.push(s.last()));
                if i < p.len() {
                    assert(t[i] == p[i]);
                }
            }
        }
    }
}

/// A metric name built from a well-bracketed source key contains no
/// bracket characters.
pub proof fn lemma_counter_name_no_brackets(s: Seq<char>)
    requires
        well_bracketed(s),
    ensures
        forall|i: int|
            0 <= i < spec_counter_name(s).len() ==> spec_counter_name(s)[i] != '['
                && spec_counter_name(s)[i] != ']',
{
    lemma_stripped_no_brackets(s);
    lemma_slash_to_dunder_no_brackets(strip_brackets_s(s));
    lemma_replace_no_brackets(slash_to_dunder(strip_brackets_s(s)));
}

/// Replacing `-` keeps a text free of brackets.
proof fn lemma_replace_no_brackets(s: Seq<char>)
    requires
        forall|i: int| 0 <= i < s.len() ==> s[i] != '[' && s[i] != ']',
    ensures
        forall|i: int|
            0 <= i < replace_char(s, '-', '_').len() ==> replace_char(s, '-', '_')[i] != '['
                && replace_char(s, '-', '_')[i] != ']',
{
    assert forall|i: int|
        0 <= i < replace_char(s, '-', '_').len() implies replace_char(s, '-', '_')[i] != '['
        && replace_char(s, '-', '_')[i] != ']' by {
        assert(replace_char(s, '-', '_')[i] == if s[i] == '-' {
            '_'
        } else {
            s[i]
        });
    }
}

/// A metric-name prefix built from a well-bracketed prefix string
/// contains no bracket characters.
pub proof fn lemma_prefix_no_brackets(s: Seq<char>)
    requires
        well_bracketed(s),
    ensures
        forall|i: int|
            0 <= i < spec_sanitized_prefix(s).len() ==> spec_sanitized_prefix(s)[i] != '['
                && spec_sanitized_prefix(s)[i] != ']',
{
    lemma_stripped_no_brackets(s);
    lemma_slash_to_dunder_no_brackets(strip_brackets_s(s));
    lemma_replace_no_brackets(slash_to_dunder(strip_brackets_s(s)));
}

/// Parse a counter key into its sanitized short name, its label set and
/// its counter key.
#[verifier::loop_isolation(false)]
pub fn counter_parts(key: &str) -> (r: (String, LabelMap, String))
    ensures
        r.0@ == spec_counter_name(key@),
        r.1.view() == spec_counter_labels(bracket_contents_s(key@)),
        r.1.wf(),
        r.2@ == spec_counter_key(bracket_contents_s(key@)),
{
    let (stripped, contents) = bracket_scan(key);
    let name = replace_char_exec(slash_to_dunder_exec(stripped.as_str()).as_str(), '-', '_');
    let mut labels = LabelMap::new();
    let mut ckey = String::new();
    let ghost cs = contents.deep_view();
    let n = contents.len();
    let mut i: usize = 0;
    proof {
        assert(cs.take(0) =~= Seq::<Seq<char>>::empty());
    }
    while i < n
        invariant
            i <= n,
            n == cs.len(),
            cs == contents.deep_view(),
            labels.view() == spec_counter_labels(cs.take(i as int)),
            labels.wf(),
            ckey@ == spec_counter_key(cs.take(i as int)),
        decreases n - i,
    {
        proof {
            assert(contents.deep_view()[i as int] == contents@[i as int].deep_view());
            assert(cs.take(i as int + 1).drop_last() =~= cs.take(i as int));
            assert(cs.take(i as int + 1).last() == cs[i as int]);
        }
        match split_pair(contents[i].as_str()) {
            Some((k0, v0)) => {
                let k = replace_char_exec(
                    remove_char_exec(k0.as_str(), '\'').as_str(),
                    '-',
                    '_',
                );
                let v = remove_char_exec(v0.as_str(), '\'');
                if k.unicode_len() > 0 && v.unicode_len() > 0 {
                    if ckey.unicode_len() > 0 {
                        push_char(&mut ckey, '_');
                    }
                    ckey.append(v.as_str());
                    let lkey = String::from_str("counter_").concat(k.as_str());
                    labels.insert(lkey, v);
                    proof {
                        assert(spec_counter_contrib(cs[i as int]) == Some((k@, v@)));
                        assert(contrib_values(cs.take(i as int + 1)) == contrib_values(
                            cs.take(i as int),
                        ).push(v@));
                        let vs1 = contrib_values(cs.take(i as int + 1));
                        assert(vs1.drop_last() =~= contrib_values(cs.take(i as int)));
                        assert(vs1.last() == v@);
                        assert(join_underscore(vs1) == if join_underscore(vs1.drop_last()).len()
                            == 0 {
                            vs1.last()
                        } else {
                            join_underscore(vs1.drop_last()) + seq!['_'] + vs1.last()
                        });
                        assert(ckey@ =~= spec_counter_key(cs.take(i as int + 1)));
                    }
                }
            },
            None => {},
        }
        i += 1;
    }
    proof {
        assert(cs.take(n as int) =~= cs);
    }
    (name, labels, ckey)
}

} // verus!
