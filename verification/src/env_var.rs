//! Environment variables as the merge engine hands them to the
//! renderers, and the shell-safe quoting of their values.

use vstd::prelude::*;
use vstd::string::StrSliceExecFns;
use vstd::string::StringExecFns;

use crate::text::is_valid_key;
use crate::text::key_char;

verus! {

/// One variable of the diff: `value` of `None` is an unset
/// instruction, `Some` an export. `source_profile` names the profile
/// the value came from, and is empty for unset instructions.
pub struct EnvVar {
    pub key: String,
    pub value: Option<String>,
    pub source_profile: String,
}

/// The mathematical shape of an [`EnvVar`].
#[verifier::ext_equal]
pub struct EnvVarV {
    pub key: Seq<char>,
    pub value: Option<Seq<char>>,
    pub source_profile: Seq<char>,
}

impl View for EnvVar {
    type V = EnvVarV;

    open spec fn view(&self) -> EnvVarV {
        EnvVarV {
            key: self.key@,
            value: match self.value {
                Some(v) => Some(v@),
                None => None,
            },
            source_profile: self.source_profile@,
        }
    }
}

impl DeepView for EnvVar {
    type V = EnvVarV;

    open spec fn deep_view(&self) -> EnvVarV {
        self.view()
    }
}

/// A quote character that the escaper strips from the ends of a value.
pub open spec fn is_quote(c: char) -> bool {
    c == '\'' || c == '"'
}

/// One layer of surrounding quotes removed: a single leading quote
/// character, then a single trailing one, each only if present.
pub open spec fn strip_quotes(s: Seq<char>) -> Seq<char> {
    let a = if s.len() > 0 && is_quote(s[0]) {
        s.drop_first()
    } else {
        s
    };
    if a.len() > 0 && is_quote(a.last()) {
        a.drop_last()
    } else {
        a
    }
}

/// How one character of a value is rendered between the surrounding
/// single quotes: a literal single quote becomes `'\''`.
pub open spec fn esc_char(c: char) -> Seq<char> {
    if c == '\'' {
        seq!['\'', '\\', '\'', '\'']
    } else {
        seq![c]
    }
}

/// The escaped rendering of a value's characters.
pub open spec fn escape_body(s: Seq<char>) -> Seq<char>
    decreases s.len(),
{
    if s.len() == 0 {
        Seq::empty()
    } else {
        esc_char(s[0]) + escape_body(s.drop_first())
    }
}

/// The shell-safe form of a raw value: one layer of surrounding quotes
/// stripped, the rest wrapped in single quotes with every inner single
/// quote escaped.
pub open spec fn escape(s: Seq<char>) -> Seq<char> {
    seq!['\''] + escape_body(strip_quotes(s)) + seq!['\'']
}

/// [`escape_body`] distributes over concatenation.
pub proof fn lemma_escape_body_concat(a: Seq<char>, b: Seq<char>)
    ensures
        escape_body(a + b) == escape_body(a) + escape_body(b),
    decreases a.len(),
{
    if a.len() == 0 {
        assert(a + b =~= b);
        assert(escape_body(a) + escape_body(b) =~= escape_body(b));
    } else {
        assert((a + b).drop_first() =~= a.drop_first() + b);
        lemma_escape_body_concat(a.drop_first(), b);
        assert(escape_body(a + b) =~= escape_body(a) + escape_body(b));
    }
}

/// Make a value safe for direct evaluation by a POSIX shell.
pub fn escape_shell_value(value: &str) -> (r: String)
    ensures
        r@ == escape(value@),
{
    let len = value.unicode_len();
    let start: usize = if len > 0 && (value.get_char(0) == '\'' || value.get_char(0) == '"') {
        1
    } else {
        0
    };
    let stop: usize = if len > start && (value.get_char(len - 1) == '\'' || value.get_char(len - 1)
        == '"') {
        len - 1
    } else {
        len
    };
    let stripped = value.substring_char(start, stop);
    proof {
        let a = if value@.len() > 0 && is_quote(value@[0]) {
            value@.drop_first()
        } else {
            value@
        };
        assert(stripped@ =~= strip_quotes(value@));
    }
    let slen = stripped.unicode_len();
    let mut out = String::new();
    out.push('\'');
    let mut i: usize = 0;
    while i < slen
        invariant
            slen == stripped@.len(),
            i <= slen,
            out@ =~= seq!['\''] + escape_body(stripped@.take(i as int)),
        decreases slen - i,
    {
        let ghost prefix = stripped@.take(i as int);
        let c = stripped.get_char(i);
        if c == '\'' {
            out.push('\'');
            out.push('\\');
            out.push('\'');
            out.push('\'');
        } else {
            out.push(c);
        }
        i += 1;
        proof {
            assert(stripped@.take(i as int) =~= prefix + seq![c]);
            lemma_escape_body_concat(prefix, seq![c]);
            assert(escape_body(seq![c].drop_first()) =~= Seq::<char>::empty());
            assert(escape_body(seq![c]) =~= esc_char(c));
            assert(out@ =~= seq!['\''] + escape_body(stripped@.take(i as int)));
        }
    }
    out.push('\'');
    proof {
        assert(stripped@.take(slen as int) =~= stripped@);
        assert(out@ =~= escape(value@));
    }
    out
}

/// Whether `k` is a legal exportable identifier.
pub fn valid_key(k: &str) -> (r: bool)
    ensures
        r == is_valid_key(k@),
{
    let len = k.unicode_len();
    let mut i: usize = 0;
    while i < len
        invariant
            len == k@.len(),
            i <= len,
            forall|j: int| 0 <= j < i ==> crate::text::is_key_char(#[trigger] k@[j]),
        decreases len - i,
    {
        if !key_char(k.get_char(i)) {
            return false;
        }
        i += 1;
    }
    true
}

/// The rendered shell command for `v`.
pub open spec fn shell_command_of(v: EnvVarV) -> Seq<char> {
    match v.value {
        Some(val) => "export "@ + v.key + "="@ + escape(val),
        None => "unset "@ + v.key,
    }
}

/// The rendered flat-file line for `v`, when it is an export.
pub open spec fn env_file_line_of(v: EnvVarV) -> Option<Seq<char>> {
    match v.value {
        Some(val) => Some(v.key + "="@ + val),
        None => None,
    }
}

impl EnvVar {
    /// A fresh variable record.
    pub fn new(key: String, value: Option<String>, source_profile: String) -> (r: EnvVar)
        ensures
            r.key@ == key@,
            r.value is Some <==> value is Some,
            value matches Some(v) ==> r.value matches Some(rv) && rv@ == v@,
            r.source_profile@ == source_profile@,
    {
        EnvVar { key, value, source_profile }
    }

    /// Whether the key is a legal exportable identifier: every
    /// character an ASCII letter, digit, or underscore.
    pub fn is_valid(&self) -> (r: bool)
        ensures
            r == is_valid_key(self.key@),
    {
        valid_key(self.key.as_str())
    }

    /// The shell command this variable stands for: an `export` with a
    /// shell-safe value, or an `unset`.
    pub fn to_shell_command(&self) -> (r: String)
        ensures
            r@ == shell_command_of(self@),
    {
        match &self.value {
            Some(val) => {
                let mut out = String::from_str("export ");
                out.append(self.key.as_str());
                out.append("=");
                out.append(escape_shell_value(val.as_str()).as_str());
                out
            },
            None => {
                let mut out = String::from_str("unset ");
                out.append(self.key.as_str());
                out
            },
        }
    }

    /// The flat-file line this variable stands for; `None` for an
    /// unset instruction, which a flat file cannot express.
    pub fn to_env_file_line(&self) -> (r: Option<String>)
        ensures
            r matches Some(line) ==> env_file_line_of(self@) matches Some(l) && line@ == l,
            r is Some <==> env_file_line_of(self@) is Some,
    {
        match &self.value {
            Some(val) => {
                let mut out = self.key.clone();
                out.append("=");
                out.append(val.as_str());
                Some(out)
            },
            None => None,
        }
    }
}

} // verus!
