//! Character classes and small string utilities that the parser,
//! the merge engine and the renderers share.

use vstd::prelude::*;
use vstd::string::StrSliceExecFns;

verus! {

/// Relies on `String::push`: appends the given character to the end
/// of the string.
pub assume_specification[ String::push ](s: &mut String, c: char)
    ensures
        final(s)@ == old(s)@.push(c),
;

/// The characters this library treats as blank space when trimming
/// a line of an environment file.
pub open spec fn is_space(c: char) -> bool {
    c == ' ' || c == '\t' || c == '\r' || c == '\n'
}

/// A character that may appear in an exportable variable name:
/// an ASCII letter, an ASCII digit, or an underscore.
pub open spec fn is_key_char(c: char) -> bool {
    ||| ('a' as u32) <= (c as u32) <= ('z' as u32)
    ||| ('A' as u32) <= (c as u32) <= ('Z' as u32)
    ||| ('0' as u32) <= (c as u32) <= ('9' as u32)
    ||| c == '_'
}

/// A key is a legal exportable identifier when every character of it
/// is an ASCII letter, digit, or underscore.
pub open spec fn is_valid_key(k: Seq<char>) -> bool {
    forall|i: int| 0 <= i < k.len() ==> is_key_char(#[trigger] k[i])
}

/// Runtime test for [`is_space`].
pub fn space_char(c: char) -> (r: bool)
    ensures
        r == is_space(c),
{
    c == ' ' || c == '\t' || c == '\r' || c == '\n'
}

/// Runtime test for [`is_key_char`].
pub fn key_char(c: char) -> (r: bool)
    ensures
        r == is_key_char(c),
{
    let n = c as u32;
    (97 <= n && n <= 122) || (65 <= n && n <= 90) || (48 <= n && n <= 57) || c == '_'
}

/// Index of the first occurrence of `c` in `s`, or `-1` when `s` does
/// not contain `c`.
pub open spec fn find_char(s: Seq<char>, c: char) -> int
    decreases s.len(),
{
    if s.len() == 0 {
        -1
    } else if s[0] == c {
        0
    } else {
        let r = find_char(s.drop_first(), c);
        if r == -1 {
            -1
        } else {
            r + 1
        }
    }
}

/// What [`find_char`] returns: either `-1` and no occurrence, or the
/// position of the first occurrence.
pub proof fn lemma_find_char(s: Seq<char>, c: char)
    ensures
        find_char(s, c) == -1 ==> forall|i: int| 0 <= i < s.len() ==> s[i] != c,
        find_char(s, c) != -1 ==> {
            &&& 0 <= find_char(s, c) < s.len()
            &&& s[find_char(s, c)] == c
            &&& forall|i: int| 0 <= i < find_char(s, c) ==> s[i] != c
        },
    decreases s.len(),
{
    if s.len() > 0 && s[0] != c {
        lemma_find_char(s.drop_first(), c);
        let r0 = find_char(s.drop_first(), c);
        if r0 != -1 {
            assert(s[r0 + 1] == s.drop_first()[r0]);
            assert forall|i: int| 0 <= i < r0 + 1 implies s[i] != c by {
                if i > 0 {
                    assert(s.drop_first()[i - 1] != c);
                }
            }
        } else {
            assert forall|i: int| 0 <= i < s.len() implies s[i] != c by {
                if i > 0 {
                    assert(s.drop_first()[i - 1] != c);
                }
            }
        }
    }
}

/// [`find_char`] is determined by any witness of a first occurrence.
pub proof fn lemma_find_char_at(s: Seq<char>, c: char, i: int)
    requires
        0 <= i < s.len(),
        s[i] == c,
        forall|j: int| 0 <= j < i ==> s[j] != c,
    ensures
        find_char(s, c) == i,
    decreases s.len(),
{
    if i > 0 {
        lemma_find_char_at(s.drop_first(), c, i - 1);
    }
}

/// A sequence without any occurrence of `c` makes [`find_char`] answer `-1`.
pub proof fn lemma_find_char_none(s: Seq<char>, c: char)
    requires
        forall|j: int| 0 <= j < s.len() ==> s[j] != c,
    ensures
        find_char(s, c) == -1,
    decreases s.len(),
{
    if s.len() > 0 {
        lemma_find_char_none(s.drop_first(), c);
    }
}

/// Position of the first occurrence of `c` in `s`.
pub fn find_char_in(s: &str, c: char) -> (r: Option<usize>)
    ensures
        r matches Some(i) ==> i == find_char(s@, c),
        r is None ==> find_char(s@, c) == -1,
{
    let len = s.unicode_len();
    let mut i: usize = 0;
    while i < len
        invariant
            len == s@.len(),
            i <= len,
            forall|j: int| 0 <= j < i ==> s@[j] != c,
        decreases len - i,
    {
        if s.get_char(i) == c {
            proof {
                lemma_find_char_at(s@, c, i as int);
            }
            return Some(i);
        }
        i += 1;
    }
    proof {
        lemma_find_char_none(s@, c);
    }
    None
}

/// `s` with every leading blank-space character removed.
pub open spec fn trim_start(s: Seq<char>) -> Seq<char>
    decreases s.len(),
{
    if s.len() > 0 && is_space(s[0]) {
        trim_start(s.drop_first())
    } else {
        s
    }
}

/// `s` with every trailing blank-space character removed.
pub open spec fn trim_end(s: Seq<char>) -> Seq<char>
    decreases s.len(),
{
    if s.len() > 0 && is_space(s[s.len() - 1]) {
        trim_end(s.drop_last())
    } else {
        s
    }
}

/// `s` with leading and trailing blank space removed.
pub open spec fn trim(s: Seq<char>) -> Seq<char> {
    trim_end(trim_start(s))
}

/// Dropping a blank prefix is what [`trim_start`] does.
pub proof fn lemma_trim_start_skip(s: Seq<char>, i: int)
    requires
        0 <= i <= s.len(),
        forall|j: int| 0 <= j < i ==> is_space(s[j]),
        i == s.len() || !is_space(s[i]),
    ensures
        trim_start(s) == s.skip(i),
    decreases i,
{
    if i == 0 {
        assert(s.skip(0) =~= s);
    } else {
        lemma_trim_start_skip(s.drop_first(), i - 1);
        assert(s.drop_first().skip(i - 1) =~= s.skip(i));
    }
}

/// Dropping a blank suffix is what [`trim_end`] does.
pub proof fn lemma_trim_end_take(s: Seq<char>, i: int)
    requires
        0 <= i <= s.len(),
        forall|j: int| i <= j < s.len() ==> is_space(s[j]),
        i == 0 || !is_space(s[i - 1]),
    ensures
        trim_end(s) == s.take(i),
    decreases s.len() - i,
{
    if i == s.len() {
        assert(s.take(i) =~= s);
    } else {
        lemma_trim_end_take(s.drop_last(), i);
        assert(s.drop_last().take(i) =~= s.take(i));
    }
}

/// A sequence that neither starts nor ends with blank space is its own trim.
pub proof fn lemma_trim_of_clean(s: Seq<char>)
    requires
        s.len() > 0 ==> !is_space(s[0]) && !is_space(s[s.len() - 1]),
    ensures
        trim(s) == s,
{
}

/// Trimming keeps a non-blank first character in place.
pub proof fn lemma_trim_head(s: Seq<char>)
    requires
        s.len() > 0,
        !is_space(s[0]),
    ensures
        trim(s).len() > 0,
        trim(s)[0] == s[0],
{
    assert(trim_start(s) == s);
    lemma_trim_end_head(s);
}

proof fn lemma_trim_end_head(s: Seq<char>)
    requires
        s.len() > 0,
        !is_space(s[0]),
    ensures
        trim_end(s).len() > 0,
        trim_end(s)[0] == s[0],
    decreases s.len(),
{
    if is_space(s[s.len() - 1]) {
        lemma_trim_end_head(s.drop_last());
    }
}

/// The trimmed sequence neither starts nor ends with blank space.
pub proof fn lemma_trim_clean(s: Seq<char>)
    ensures
        trim(s).len() > 0 ==> !is_space(trim(s)[0]) && !is_space(trim(s)[trim(s).len() - 1]),
    decreases s.len(),
{
    lemma_trim_start_clean(s);
    lemma_trim_end_keeps_first(trim_start(s));
}

proof fn lemma_trim_start_clean(s: Seq<char>)
    ensures
        trim_start(s).len() > 0 ==> !is_space(trim_start(s)[0]),
    decreases s.len(),
{
    if s.len() > 0 && is_space(s[0]) {
        lemma_trim_start_clean(s.drop_first());
    }
}

proof fn lemma_trim_end_keeps_first(s: Seq<char>)
    ensures
        trim_end(s).len() > 0 ==> !is_space(trim_end(s)[trim_end(s).len() - 1]),
        trim_end(s).len() > 0 ==> trim_end(s)[0] == s[0],
    decreases s.len(),
{
    if s.len() > 0 && is_space(s[s.len() - 1]) {
        lemma_trim_end_keeps_first(s.drop_last());
    }
}

/// `s` without its leading and trailing blank space.
pub fn trim_str<'a>(s: &'a str) -> (r: &'a str)
    ensures
        r@ == trim(s@),
{
    let len = s.unicode_len();
    let mut start: usize = 0;
    while start < len && space_char(s.get_char(start))
        invariant
            len == s@.len(),
            start <= len,
            forall|j: int| 0 <= j < start ==> is_space(s@[j]),
        decreases len - start,
    {
        start += 1;
    }
    if start == len {
        // nothing but blank space
        proof {
            lemma_trim_start_skip(s@, len as int);
            assert(s@.skip(len as int) =~= Seq::<char>::empty());
        }
        let r = s.substring_char(len, len);
        proof {
            assert(r@ =~= trim(s@));
        }
        return r;
    }
    let mut stop: usize = len;
    while stop > start && space_char(s.get_char(stop - 1))
        invariant
            len == s@.len(),
            start <= stop <= len,
            !is_space(s@[start as int]),
            forall|j: int| stop <= j < len ==> is_space(s@[j]),
        decreases stop,
    {
        stop -= 1;
    }
    let r = s.substring_char(start, stop);
    proof {
        lemma_trim_start_skip(s@, start as int);
        let t = s@.skip(start as int);
        assert(forall|j: int| stop - start <= j < t.len() ==> is_space(#[trigger] t[j]));
        assert(!is_space(t[stop - start - 1]));
        lemma_trim_end_take(t, stop - start);
        assert(t.take(stop - start) =~= s@.subrange(start as int, stop as int));
    }
    r
}

/// Whether `sub` occurs contiguously somewhere in `s`.
pub open spec fn has_substring(s: Seq<char>, sub: Seq<char>) -> bool {
    exists|i: int| 0 <= i <= s.len() - sub.len() && #[trigger] s.subrange(i, i + sub.len()) == sub
}

/// Whether `sub` occurs contiguously somewhere in `s`.
pub fn contains_sub(s: &str, sub: &str) -> (r: bool)
    ensures
        r == has_substring(s@, sub@),
{
    let n = s.unicode_len();
    let m = sub.unicode_len();
    if m > n {
        return false;
    }
    if m == 0 {
        proof {
            assert(s@.subrange(0, 0 + sub@.len() as int) =~= sub@);
        }
        return true;
    }
    let mut i: usize = 0;
    while i <= n - m
        invariant
            n == s@.len(),
            m == sub@.len(),
            m <= n,
            m >= 1,
            i <= n - m + 1,
            forall|k: int| 0 <= k < i ==> #[trigger] s@.subrange(k, k + sub@.len()) != sub@,
        decreases n - m + 1 - i,
    {
        let mut j: usize = 0;
        let mut matched = true;
        while j < m
            invariant
                n == s@.len(),
                m == sub@.len(),
                m <= n,
                i <= n - m,
                j <= m,
                matched ==> forall|k: int| 0 <= k < j ==> s@[i + k] == sub@[k],
                !matched ==> s@.subrange(i as int, i + sub@.len()) != sub@,
            decreases m - j,
        {
            if s.get_char(i + j) != sub.get_char(j) {
                proof {
                    assert(s@.subrange(i as int, i + sub@.len())[j as int] != sub@[j as int]);
                }
                matched = false;
                j = m;
            } else {
                j += 1;
            }
        }
        if matched {
            proof {
                assert(s@.subrange(i as int, i + sub@.len()) =~= sub@);
            }
            return true;
        }
        i += 1;
    }
    proof {
        assert forall|k: int| 0 <= k <= s@.len() - sub@.len() implies #[trigger] s@.subrange(
            k,
            k + sub@.len(),
        ) != sub@ by {
            assert(k < i);
        }
    }
    false
}

/// The parts joined with `sep` between each two.
pub open spec fn join_with(parts: Seq<Seq<char>>, sep: Seq<char>) -> Seq<char>
    decreases parts.len(),
{
    if parts.len() == 0 {
        Seq::empty()
    } else if parts.len() == 1 {
        parts[0]
    } else {
        parts[0] + sep + join_with(parts.drop_first(), sep)
    }
}

/// Extending a join by one part appends one separator and the part.
pub proof fn lemma_join_snoc(parts: Seq<Seq<char>>, sep: Seq<char>, i: int)
    requires
        1 <= i < parts.len(),
    ensures
        join_with(parts.take(i + 1), sep) == join_with(parts.take(i), sep) + sep + parts[i],
    decreases i,
{
    let t = parts.drop_first();
    if i == 1 {
        let p2 = parts.take(2);
        assert(p2.len() == 2);
        assert(p2.drop_first() =~= seq![parts[1]]);
        assert(join_with(p2.drop_first(), sep) == parts[1]);
        assert(join_with(p2, sep) == p2[0] + sep + join_with(p2.drop_first(), sep));
        assert(p2[0] == parts[0]);
        assert(parts.take(1) =~= seq![parts[0]]);
        assert(join_with(parts.take(1), sep) == parts[0]);
    } else {
        lemma_join_snoc(t, sep, i - 1);
        assert(parts.take(i + 1).drop_first() =~= t.take(i));
        assert(parts.take(i).drop_first() =~= t.take(i - 1));
        assert(join_with(parts.take(i + 1), sep) =~= parts[0] + sep + join_with(t.take(i), sep));
        assert(join_with(parts.take(i), sep) =~= parts[0] + sep + join_with(t.take(i - 1), sep));
        assert(parts[0] + sep + (join_with(t.take(i - 1), sep) + sep + t[i - 1]) =~= (parts[0] + sep
            + join_with(t.take(i - 1), sep)) + sep + parts[i]);
    }
}

/// The strings joined with `sep` between each two.
pub fn join_strings(v: &Vec<String>, sep: &str) -> (r: String)
    ensures
        r@ == join_with(v.deep_view(), sep@),
{
    let mut out = String::new();
    let mut i: usize = 0;
    while i < v.len()
        invariant
            i <= v@.len(),
            out@ =~= join_with(v.deep_view().take(i as int), sep@),
        decreases v@.len() - i,
    {
        if i > 0 {
            out.append(sep);
        }
        out.append(v[i].as_str());
        proof {
            if i == 0 {
                assert(v.deep_view().take(1) =~= seq![v.deep_view()[0]]);
            } else {
                lemma_join_snoc(v.deep_view(), sep@, i as int);
            }
        }
        i += 1;
    }
    proof {
        assert(v.deep_view().take(v.deep_view().len() as int) =~= v.deep_view());
    }
    out
}

/// String equality by contents.
pub fn str_eq(a: &str, b: &str) -> (r: bool)
    ensures
        r == (a@ == b@),
{
    let alen = a.unicode_len();
    let blen = b.unicode_len();
    if alen != blen {
        return false;
    }
    let mut i: usize = 0;
    while i < alen
        invariant
            alen == a@.len(),
            blen == b@.len(),
            alen == blen,
            i <= alen,
            forall|j: int| 0 <= j < i ==> a@[j] == b@[j],
        decreases alen - i,
    {
        if a.get_char(i) != b.get_char(i) {
            return false;
        }
        i += 1;
    }
    proof {
        assert(a@ =~= b@);
    }
    true
}

} // verus!
