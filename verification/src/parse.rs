//! The environment-file parser: raw text in, one record per
//! retained `KEY=VALUE` line out.
//!
//! A line is retained when, after trimming, it is neither empty nor a
//! `#` comment and contains a `=`. The text before the first `=`
//! (trimmed) is the key, the text after it (trimmed) is the value; no
//! quoting or escaping is interpreted. Lines without `=` are silently
//! dropped. Each record keeps its zero-based line number so that later
//! display can follow file order.

use vstd::prelude::*;
use vstd::string::StrSliceExecFns;
use vstd::string::StringExecFns;

use crate::text::find_char;
use crate::text::find_char_in;
use crate::text::is_space;
use crate::text::lemma_find_char;
use crate::text::lemma_trim_clean;
use crate::text::lemma_trim_of_clean;
use crate::text::trim;
use crate::text::trim_end;
use crate::text::trim_start;
use crate::text::trim_str;

verus! {

/// One retained line of an environment file.
pub struct ParsedLine {
    /// Zero-based line number in the source text.
    pub line_index: usize,
    /// Text before the first `=`, trimmed.
    pub key: String,
    /// Text after the first `=`, trimmed.
    pub value: String,
}

/// The mathematical shape of a [`ParsedLine`].
#[verifier::ext_equal]
pub struct LineV {
    pub line_index: int,
    pub key: Seq<char>,
    pub value: Seq<char>,
}

impl View for ParsedLine {
    type V = LineV;

    open spec fn view(&self) -> LineV {
        LineV { line_index: self.line_index as int, key: self.key@, value: self.value@ }
    }
}

impl DeepView for ParsedLine {
    type V = LineV;

    open spec fn deep_view(&self) -> LineV {
        self.view()
    }
}

/// What parsing one line (already split out of the text) yields.
pub open spec fn parse_segment(seg: Seq<char>, idx: int) -> Option<LineV> {
    let t = trim(seg);
    if t.len() == 0 || t[0] == '#' {
        None
    } else {
        let i = find_char(t, '=');
        if i == -1 {
            None
        } else {
            Some(LineV { line_index: idx, key: trim(t.take(i)), value: trim(t.skip(i + 1)) })
        }
    }
}

/// [`parse_segment`] as a sequence of zero or one records.
pub open spec fn parse_segment_seq(seg: Seq<char>, idx: int) -> Seq<LineV> {
    match parse_segment(seg, idx) {
        Some(l) => seq![l],
        None => Seq::empty(),
    }
}

/// What parsing a whole text yields, line numbers starting at `idx`.
/// Lines are the maximal `'\n'`-free pieces of the text.
pub open spec fn parse_env(s: Seq<char>, idx: int) -> Seq<LineV>
    decreases s.len(),
    via parse_env_dec
{
    let i = find_char(s, '\n');
    if i == -1 {
        parse_segment_seq(s, idx)
    } else {
        parse_segment_seq(s.take(i), idx) + parse_env(s.skip(i + 1), idx + 1)
    }
}

#[via_fn]
proof fn parse_env_dec(s: Seq<char>, idx: int) {
    lemma_find_char(s, '\n');
}

/// No character of `s` is `c`.
pub open spec fn no_char(s: Seq<char>, c: char) -> bool {
    forall|i: int| 0 <= i < s.len() ==> s[i] != c
}

/// Trimming never introduces a character.
pub proof fn lemma_trim_no_char(s: Seq<char>, c: char)
    ensures
        no_char(s, c) ==> no_char(trim_start(s), c),
        no_char(s, c) ==> no_char(trim_end(s), c),
        no_char(s, c) ==> no_char(trim(s), c),
    decreases s.len(),
{
    if s.len() > 0 {
        lemma_trim_no_char(s.drop_first(), c);
        lemma_trim_no_char(s.drop_last(), c);
        if no_char(s, c) {
            assert(no_char(s.drop_first(), c));
            assert(no_char(s.drop_last(), c));
            lemma_trim_no_char_end_of_start(s, c);
        }
    }
}

proof fn lemma_trim_no_char_end_of_start(s: Seq<char>, c: char)
    requires
        no_char(trim_start(s), c),
    ensures
        no_char(trim(s), c),
    decreases trim_start(s).len(),
{
    let t = trim_start(s);
    lemma_trim_end_no_char(t, c);
}

proof fn lemma_trim_end_no_char(s: Seq<char>, c: char)
    requires
        no_char(s, c),
    ensures
        no_char(trim_end(s), c),
    decreases s.len(),
{
    if s.len() > 0 && is_space(s[s.len() - 1]) {
        assert(no_char(s.drop_last(), c));
        lemma_trim_end_no_char(s.drop_last(), c);
    }
}

/// A record as the parser hands it out: key and value already trimmed
/// and free of line breaks.
pub open spec fn line_clean(l: LineV) -> bool {
    &&& trim(l.key) == l.key
    &&& trim(l.value) == l.value
    &&& no_char(l.key, '\n')
    &&& no_char(l.value, '\n')
}

/// A retained line of a break-free segment is clean.
pub proof fn lemma_parse_segment_clean(seg: Seq<char>, idx: int)
    requires
        no_char(seg, '\n'),
    ensures
        parse_segment(seg, idx) matches Some(l) ==> line_clean(l),
{
    if parse_segment(seg, idx) is Some {
        let t = trim(seg);
        lemma_trim_no_char(seg, '\n');
        let i = find_char(t, '=');
        lemma_find_char(t, '=');
        let k = trim(t.take(i));
        let v = trim(t.skip(i + 1));
        assert(no_char(t.take(i), '\n'));
        assert(no_char(t.skip(i + 1), '\n'));
        lemma_trim_no_char(t.take(i), '\n');
        lemma_trim_no_char(t.skip(i + 1), '\n');
        lemma_trim_idempotent(t.take(i));
        lemma_trim_idempotent(t.skip(i + 1));
    }
}

/// Trimming twice is trimming once.
pub proof fn lemma_trim_idempotent(s: Seq<char>)
    ensures
        trim(trim(s)) == trim(s),
{
    lemma_trim_clean(s);
    lemma_trim_of_clean(trim(s));
}

/// Every record the parser yields is clean.
pub proof fn lemma_parse_env_clean(s: Seq<char>, idx: int)
    ensures
        forall|n: int|
            0 <= n < parse_env(s, idx).len() ==> line_clean(#[trigger] parse_env(s, idx)[n]),
    decreases s.len(),
{
    lemma_find_char(s, '\n');
    let i = find_char(s, '\n');
    if i == -1 {
        lemma_parse_segment_clean(s, idx);
    } else {
        assert(no_char(s.take(i), '\n'));
        lemma_parse_segment_clean(s.take(i), idx);
        lemma_parse_env_clean(s.skip(i + 1), idx + 1);
        let first = parse_segment_seq(s.take(i), idx);
        let rest = parse_env(s.skip(i + 1), idx + 1);
        assert forall|n: int| 0 <= n < parse_env(s, idx).len() implies line_clean(
            #[trigger] parse_env(s, idx)[n],
        ) by {
            if n < first.len() {
                assert(parse_env(s, idx)[n] == first[n]);
            } else {
                assert(parse_env(s, idx)[n] == rest[n - first.len()]);
            }
        }
    }
}

/// Parse one line of text, at line number `idx`.
pub fn parse_one_line(seg: &str, idx: usize) -> (r: Option<ParsedLine>)
    ensures
        r.deep_view() == parse_segment(seg@, idx as int),
{
    let t = trim_str(seg);
    let tlen = t.unicode_len();
    if tlen == 0 {
        return None;
    }
    if t.get_char(0) == '#' {
        return None;
    }
    match find_char_in(t, '=') {
        None => None,
        Some(i) => {
            proof {
                lemma_find_char(t@, '=');
            }
            let key_part = t.substring_char(0, i);
            let value_part = t.substring_char(i + 1, tlen);
            let key = String::from_str(trim_str(key_part));
            let value = String::from_str(trim_str(value_part));
            proof {
                assert(key_part@ =~= t@.take(i as int));
                assert(value_part@ =~= t@.skip(i + 1));
            }
            Some(ParsedLine { line_index: idx, key, value })
        },
    }
}

/// Turn a whole text into its retained records, in file order,
/// `line_index` counting every line of the text from zero.
pub fn parse_env_line(contents: &str) -> (r: Vec<ParsedLine>)
    ensures
        r.deep_view() == parse_env(contents@, 0),
{
    let total = contents.unicode_len();
    let mut out: Vec<ParsedLine> = Vec::new();
    let mut rest: &str = contents;
    let mut idx: usize = 0;
    loop
        invariant
            total == contents@.len(),
            idx + rest@.len() <= total,
            out.deep_view() + parse_env(rest@, idx as int) =~= parse_env(contents@, 0),
        decreases rest@.len(),
    {
        match find_char_in(rest, '\n') {
            None => {
                match parse_one_line(rest, idx) {
                    Some(l) => {
                        out.push(l);
                    },
                    None => {},
                }
                proof {
                    assert(out.deep_view() =~= parse_env(contents@, 0));
                }
                return out;
            },
            Some(i) => {
                proof {
                    lemma_find_char(rest@, '\n');
                }
                let ghost old_out = out.deep_view();
                let ghost old_rest = rest@;
                let ghost old_idx = idx as int;
                let seg = rest.substring_char(0, i);
                let rest_len = rest.unicode_len();
                match parse_one_line(seg, idx) {
                    Some(l) => {
                        out.push(l);
                    },
                    None => {},
                }
                rest = rest.substring_char(i + 1, rest_len);
                idx = idx + 1;
                proof {
                    assert(seg@ =~= old_rest.take(i as int));
                    assert(rest@ =~= old_rest.skip(i + 1));
                    assert(parse_env(old_rest, old_idx) =~= parse_segment_seq(
                        old_rest.take(i as int),
                        old_idx,
                    ) + parse_env(old_rest.skip(i + 1), old_idx + 1));
                    assert(out.deep_view() =~= old_out + parse_segment_seq(
                        old_rest.take(i as int),
                        old_idx,
                    ));
                }
            },
        }
    }
}

} // verus!
