//! The active-set tracker and the profile merge engine.
//!
//! The caller hands in the configuration, the sentinel variable's
//! value as the previous activation left it, and a snapshot of the
//! environment files it read. From those, [`get_current_profile_vars`]
//! reconstructs which variables are currently exported, and [`merge`]
//! combines them with the newly requested profiles into an
//! unset/export diff with last-profile-wins precedence.

use vstd::prelude::*;
use vstd::string::StrSliceExecFns;
use vstd::string::StringExecFns;

use crate::config::resolved_path;
use crate::config::resolves;
use crate::config::CfgError;
use crate::config::Config;
use crate::env_var::valid_key;
use crate::env_var::EnvVar;
use crate::env_var::EnvVarV;
use crate::parse::parse_env;
use crate::parse::parse_env_line;
use crate::parse::LineV;
use crate::parse::ParsedLine;
use crate::text::find_char;
use crate::text::find_char_in;
use crate::text::is_valid_key;
use crate::text::join_with;
use crate::text::join_strings;
use crate::text::lemma_find_char;
use crate::text::str_eq;

verus! {

/// One environment file as the caller read it: `contents` is `None`
/// when the file is missing or unreadable.
pub struct SourceFile {
    pub path: String,
    pub contents: Option<String>,
}

/// The mathematical shape of a [`SourceFile`].
#[verifier::ext_equal]
pub struct FileV {
    pub path: Seq<char>,
    pub contents: Option<Seq<char>>,
}

impl View for SourceFile {
    type V = FileV;

    open spec fn view(&self) -> FileV {
        FileV {
            path: self.path@,
            contents: match self.contents {
                Some(c) => Some(c@),
                None => None,
            },
        }
    }
}

impl DeepView for SourceFile {
    type V = FileV;

    open spec fn deep_view(&self) -> FileV {
        self.view()
    }
}

/// What the snapshot holds for `path`: the first entry with that path
/// decides; a path with no entry counts as unreadable.
pub open spec fn file_contents(files: Seq<SourceFile>, path: Seq<char>) -> Option<Seq<char>>
    decreases files.len(),
{
    if files.len() == 0 {
        None
    } else if files[0].path@ == path {
        match files[0].contents {
            Some(c) => Some(c@),
            None => None,
        }
    } else {
        file_contents(files.drop_first(), path)
    }
}

proof fn lemma_file_contents_at(files: Seq<SourceFile>, path: Seq<char>, i: int)
    requires
        0 <= i < files.len(),
        files[i].path@ == path,
        forall|j: int| 0 <= j < i ==> files[j].path@ != path,
    ensures
        file_contents(files, path) == match files[i].contents {
            Some(c) => Some(c@),
            None => None,
        },
    decreases files.len(),
{
    if i > 0 {
        lemma_file_contents_at(files.drop_first(), path, i - 1);
    }
}

proof fn lemma_file_contents_none(files: Seq<SourceFile>, path: Seq<char>)
    requires
        forall|j: int| 0 <= j < files.len() ==> files[j].path@ != path,
    ensures
        file_contents(files, path) is None,
    decreases files.len(),
{
    if files.len() > 0 {
        lemma_file_contents_none(files.drop_first(), path);
    }
}

/// Look a path up in the snapshot.
pub fn read_file<'a>(files: &'a Vec<SourceFile>, path: &str) -> (r: Option<&'a String>)
    ensures
        r is Some <==> file_contents(files@, path@) is Some,
        r matches Some(c) ==> file_contents(files@, path@) matches Some(v) && c@ == v,
{
    let n = files.len();
    let mut i: usize = 0;
    while i < n
        invariant
            n == files@.len(),
            i <= n,
            forall|j: int| 0 <= j < i ==> files@[j].path@ != path@,
        decreases n - i,
    {
        if str_eq(files[i].path.as_str(), path) {
            proof {
                lemma_file_contents_at(files@, path@, i as int);
            }
            return match &files[i].contents {
                Some(c) => Some(c),
                None => None,
            };
        }
        i += 1;
    }
    proof {
        lemma_file_contents_none(files@, path@);
    }
    None
}

/// Whether `name` resolves and its file was readable: only then does
/// the profile take part in a merge.
pub open spec fn profile_ok(c: Config, files: Seq<SourceFile>, name: Seq<char>) -> bool {
    resolves(c, name) && file_contents(files, resolved_path(c, name)) is Some
}

/// The records of the profile's file, empty when the profile is not
/// usable.
pub open spec fn profile_lines(c: Config, files: Seq<SourceFile>, name: Seq<char>) -> Seq<LineV> {
    match file_contents(files, resolved_path(c, name)) {
        Some(t) => parse_env(t, 0),
        None => Seq::empty(),
    }
}

/// The last record of `ls` that bears the valid key `k`; `None` for an
/// invalid key or one that no record bears. Within one file a later
/// line overrides an earlier one.
pub open spec fn last_valid_line(ls: Seq<LineV>, k: Seq<char>) -> Option<LineV>
    decreases ls.len(),
{
    if !is_valid_key(k) || ls.len() == 0 {
        None
    } else if ls.last().key == k {
        Some(ls.last())
    } else {
        last_valid_line(ls.drop_last(), k)
    }
}

/// [`last_valid_line`] is determined by any witness of a last record.
pub proof fn lemma_last_valid_line_at(ls: Seq<LineV>, k: Seq<char>, j: int)
    requires
        is_valid_key(k),
        0 <= j < ls.len(),
        ls[j].key == k,
        forall|m: int| j < m < ls.len() ==> ls[m].key != k,
    ensures
        last_valid_line(ls, k) == Some(ls[j]),
    decreases ls.len(),
{
    if j < ls.len() - 1 {
        lemma_last_valid_line_at(ls.drop_last(), k, j);
    }
}

/// A key no record bears is not defined.
pub proof fn lemma_last_valid_line_none(ls: Seq<LineV>, k: Seq<char>)
    requires
        forall|m: int| 0 <= m < ls.len() ==> ls[m].key != k,
    ensures
        last_valid_line(ls, k) is None,
    decreases ls.len(),
{
    if is_valid_key(k) && ls.len() > 0 {
        lemma_last_valid_line_none(ls.drop_last(), k);
    }
}

/// The profile names of the previous activation, as the sentinel
/// variable's comma-separated value lists them.
pub open spec fn split_at_commas(s: Seq<char>) -> Seq<Seq<char>>
    decreases s.len(),
    via split_at_commas_dec
{
    let i = find_char(s, ',');
    if i == -1 {
        seq![s]
    } else {
        seq![s.take(i)] + split_at_commas(s.skip(i + 1))
    }
}

#[via_fn]
proof fn split_at_commas_dec(s: Seq<char>) {
    lemma_find_char(s, ',');
}

/// Decode the sentinel variable's value into the profile names it
/// lists.
pub fn decode_active_profiles(s: &str) -> (r: Vec<String>)
    ensures
        r.deep_view() == split_at_commas(s@),
{
    let mut out: Vec<String> = Vec::new();
    let mut rest: &str = s;
    loop
        invariant
            out.deep_view() + split_at_commas(rest@) =~= split_at_commas(s@),
        decreases rest@.len(),
    {
        match find_char_in(rest, ',') {
            None => {
                out.push(String::from_str(rest));
                proof {
                    assert(out.deep_view() =~= split_at_commas(s@));
                }
                return out;
            },
            Some(i) => {
                proof {
                    lemma_find_char(rest@, ',');
                }
                let ghost old_out = out.deep_view();
                let ghost old_rest = rest@;
                let piece = rest.substring_char(0, i);
                let rest_len = rest.unicode_len();
                out.push(String::from_str(piece));
                rest = rest.substring_char(i + 1, rest_len);
                proof {
                    assert(piece@ =~= old_rest.take(i as int));
                    assert(rest@ =~= old_rest.skip(i + 1));
                    assert(split_at_commas(old_rest) =~= seq![old_rest.take(i as int)]
                        + split_at_commas(old_rest.skip(i + 1)));
                    assert(out.deep_view() =~= old_out + seq![old_rest.take(i as int)]);
                }
            },
        }
    }
}

/// Encode the names of the newly activated profiles for the sentinel
/// variable: comma-joined, in request order.
pub fn encode_active_profiles(profiles: &Vec<String>) -> (r: String)
    ensures
        r@ == join_with(profiles.deep_view(), ","@),
{
    join_strings(profiles, ",")
}

/// The keys of `ls` with valid names, added to `acc` in file order,
/// first seen first, without duplicates.
pub open spec fn keys_of_lines(acc: Seq<Seq<char>>, ls: Seq<LineV>) -> Seq<Seq<char>>
    decreases ls.len(),
{
    if ls.len() == 0 {
        acc
    } else {
        let acc2 = if is_valid_key(ls.first().key) && !acc.contains(ls.first().key) {
            acc.push(ls.first().key)
        } else {
            acc
        };
        keys_of_lines(acc2, ls.drop_first())
    }
}

/// The union of the usable profiles' valid keys, in the order they are
/// first seen walking the names and each file top to bottom. A profile
/// that fails to resolve or read contributes nothing.
pub open spec fn keys_of_profiles(
    acc: Seq<Seq<char>>,
    c: Config,
    files: Seq<SourceFile>,
    names: Seq<Seq<char>>,
) -> Seq<Seq<char>>
    decreases names.len(),
{
    if names.len() == 0 {
        acc
    } else {
        let acc2 = if profile_ok(c, files, names.first()) {
            keys_of_lines(acc, profile_lines(c, files, names.first()))
        } else {
            acc
        };
        keys_of_profiles(acc2, c, files, names.drop_first())
    }
}

/// The variables the previous activation exported: none when the
/// sentinel was unset, else the union over the profiles it names.
pub open spec fn current_keys(
    c: Config,
    files: Seq<SourceFile>,
    sentinel: Option<Seq<char>>,
) -> Seq<Seq<char>> {
    match sentinel {
        None => Seq::empty(),
        Some(s) => keys_of_profiles(Seq::empty(), c, files, split_at_commas(s)),
    }
}

/// What the merge of `names` (in request order) exports for key `k`:
/// the value and source profile of the last requested profile whose
/// file defines `k`, or `None` when none does.
pub open spec fn merged_lookup(
    c: Config,
    files: Seq<SourceFile>,
    names: Seq<Seq<char>>,
    k: Seq<char>,
) -> Option<(Seq<char>, Seq<char>)>
    decreases names.len(),
{
    if names.len() == 0 {
        None
    } else {
        match last_valid_line(profile_lines(c, files, names.last()), k) {
            Some(l) => Some((l.value, names.last())),
            None => merged_lookup(c, files, names.drop_last(), k),
        }
    }
}

/// A key nothing defines is not exported, and conversely.
pub proof fn lemma_merged_lookup_none(
    c: Config,
    files: Seq<SourceFile>,
    names: Seq<Seq<char>>,
    k: Seq<char>,
)
    ensures
        merged_lookup(c, files, names, k) is None <==> forall|i: int|
            0 <= i < names.len() ==> last_valid_line(
                profile_lines(c, files, #[trigger] names[i]),
                k,
            ) is None,
    decreases names.len(),
{
    if names.len() > 0 {
        lemma_merged_lookup_none(c, files, names.drop_last(), k);
        assert(forall|i: int|
            0 <= i < names.len() - 1 ==> names.drop_last()[i] == #[trigger] names[i]);
    }
}

/// The last requested profile that defines `k` decides what the merge
/// exports for it.
pub proof fn lemma_merged_lookup_at(
    c: Config,
    files: Seq<SourceFile>,
    names: Seq<Seq<char>>,
    k: Seq<char>,
    i: int,
)
    requires
        0 <= i < names.len(),
        last_valid_line(profile_lines(c, files, names[i]), k) is Some,
        forall|p: int|
            i < p < names.len() ==> last_valid_line(
                profile_lines(c, files, #[trigger] names[p]),
                k,
            ) is None,
    ensures
        merged_lookup(c, files, names, k) == match last_valid_line(
            profile_lines(c, files, names[i]),
            k,
        ) {
            Some(l) => Some((l.value, names[i])),
            None => None,
        },
    decreases names.len(),
{
    if i < names.len() - 1 {
        assert(forall|p: int|
            0 <= p < names.len() - 1 ==> names.drop_last()[p] == #[trigger] names[p]);
        lemma_merged_lookup_at(c, files, names.drop_last(), k, i);
    }
}

/// Whether the record at index `j` of profile `i`'s file survives the
/// merge: its key is valid, no later line of the same file bears the
/// key, and no later requested profile defines it.
pub open spec fn survives(
    c: Config,
    files: Seq<SourceFile>,
    names: Seq<Seq<char>>,
    i: int,
    ls: Seq<LineV>,
    j: int,
) -> bool {
    &&& is_valid_key(ls[j].key)
    &&& forall|m: int| j < m < ls.len() ==> ls[m].key != ls[j].key
    &&& forall|p: int|
        i < p < names.len() ==> last_valid_line(
            profile_lines(c, files, #[trigger] names[p]),
            ls[j].key,
        ) is None
}

/// The exported variable a surviving record becomes.
pub open spec fn var_of(l: LineV, source: Seq<char>) -> EnvVarV {
    EnvVarV { key: l.key, value: Some(l.value), source_profile: source }
}

/// The surviving records of the first `upto` lines of profile `i`'s
/// file, as exported variables, in file order.
pub open spec fn group_vars(
    ls: Seq<LineV>,
    c: Config,
    files: Seq<SourceFile>,
    names: Seq<Seq<char>>,
    i: int,
    upto: int,
) -> Seq<EnvVarV>
    decreases upto,
{
    if upto <= 0 {
        Seq::empty()
    } else {
        let r = group_vars(ls, c, files, names, i, upto - 1);
        if survives(c, files, names, i, ls, upto - 1) {
            r.push(var_of(ls[upto - 1], names[i]))
        } else {
            r
        }
    }
}

/// One display group per requested profile, in request order: the
/// profile's name and its surviving variables in file order.
pub open spec fn groups_of(c: Config, files: Seq<SourceFile>, names: Seq<Seq<char>>) -> Seq<
    GroupV,
> {
    Seq::new(
        names.len(),
        |i: int|
            GroupV {
                name: names[i],
                vars: group_vars(
                    profile_lines(c, files, names[i]),
                    c,
                    files,
                    names,
                    i,
                    profile_lines(c, files, names[i]).len() as int,
                ),
            },
    )
}

/// The unset instructions: the currently exported keys that the new
/// selection does not re-export, in tracker order.
pub open spec fn unset_vars_v(
    keys: Seq<Seq<char>>,
    c: Config,
    files: Seq<SourceFile>,
    names: Seq<Seq<char>>,
) -> Seq<EnvVarV>
    decreases keys.len(),
{
    if keys.len() == 0 {
        Seq::empty()
    } else {
        let r = unset_vars_v(keys.drop_last(), c, files, names);
        if merged_lookup(c, files, names, keys.last()) is None {
            r.push(EnvVarV { key: keys.last(), value: None, source_profile: ""@ })
        } else {
            r
        }
    }
}

/// Every requested profile resolves and its file is readable.
pub open spec fn all_profiles_ok(c: Config, files: Seq<SourceFile>, names: Seq<Seq<char>>) -> bool {
    forall|i: int| 0 <= i < names.len() ==> profile_ok(c, files, #[trigger] names[i])
}

/// Index of the first requested profile that fails, or `names.len()`
/// when all are usable.
pub open spec fn first_bad(c: Config, files: Seq<SourceFile>, names: Seq<Seq<char>>) -> int
    decreases names.len(),
{
    if names.len() == 0 {
        0
    } else if !profile_ok(c, files, names.first()) {
        0
    } else {
        1 + first_bad(c, files, names.drop_first())
    }
}

/// [`first_bad`] is determined by a witness.
pub proof fn lemma_first_bad_at(c: Config, files: Seq<SourceFile>, names: Seq<Seq<char>>, i: int)
    requires
        0 <= i < names.len(),
        !profile_ok(c, files, names[i]),
        forall|j: int| 0 <= j < i ==> profile_ok(c, files, #[trigger] names[j]),
    ensures
        first_bad(c, files, names) == i,
    decreases names.len(),
{
    if i > 0 {
        assert(forall|j: int|
            0 <= j < names.len() - 1 ==> names.drop_first()[j] == #[trigger] names[j + 1]);
        assert(forall|j: int|
            0 <= j < i - 1 ==> profile_ok(c, files, #[trigger] names.drop_first()[j]));
        lemma_first_bad_at(c, files, names.drop_first(), i - 1);
    }
}

/// The sentinel value as a mathematical option.
pub open spec fn sentinel_view(s: Option<String>) -> Option<Seq<char>> {
    match s {
        Some(x) => Some(x@),
        None => None,
    }
}

/// What a failed merge reports: the error of the first unusable
/// profile, with its name (and path, where it resolved).
pub open spec fn merge_error_ok(
    c: Config,
    files: Seq<SourceFile>,
    names: Seq<Seq<char>>,
    e: CfgError,
) -> bool {
    let fb = first_bad(c, files, names);
    let name = names[fb];
    if !resolves(c, name) {
        match crate::config::lookup_paths(c.profiles@, name) {
            None => e matches CfgError::ProfileNotFound { name: n } && n@ == name,
            Some(ps) => {
                if ps.len() == 0 {
                    e matches CfgError::ProfileHasNoPath { name: n } && n@ == name
                } else if ps.len() > 1 {
                    e matches CfgError::ProfileHasMultiplePaths { name: n } && n@ == name
                } else {
                    e matches CfgError::ProfileHasEmptyPath { name: n } && n@ == name
                }
            },
        }
    } else {
        e matches CfgError::ProfileFileMissing { name: n, path: p } && n@ == name && p@
            == resolved_path(c, name)
    }
}

/// Whether `keys` holds `k`, by contents.
pub fn contains_key(keys: &Vec<String>, k: &str) -> (r: bool)
    ensures
        r == keys.deep_view().contains(k@),
{
    let n = keys.len();
    let mut i: usize = 0;
    while i < n
        invariant
            n == keys@.len(),
            i <= n,
            forall|j: int| 0 <= j < i ==> keys.deep_view()[j] != k@,
        decreases n - i,
    {
        if str_eq(keys[i].as_str(), k) {
            assert(keys.deep_view()[i as int] == k@);
            return true;
        }
        i += 1;
    }
    proof {
        assert forall|j: int| 0 <= j < keys.deep_view().len() implies keys.deep_view()[j] != k@ by {
        }
    }
    false
}

/// Reconstruct the set of variables the previous activation exported:
/// the valid keys of every profile the sentinel names, each profile's
/// file re-read from the snapshot; broken profiles are skipped.
pub fn get_current_profile_vars(
    config: &Config,
    sentinel: &Option<String>,
    files: &Vec<SourceFile>,
) -> (r: Vec<String>)
    ensures
        r.deep_view() =~= current_keys(*config, files@, match *sentinel {
            Some(s) => Some(s@),
            None => None,
        }),
        forall|a: int, b: int|
            0 <= a < b < r.deep_view().len() ==> r.deep_view()[a] != r.deep_view()[b],
        forall|a: int| 0 <= a < r.deep_view().len() ==> is_valid_key(#[trigger] r.deep_view()[a]),
{
    let mut keys: Vec<String> = Vec::new();
    let value = match sentinel {
        Some(s) => s,
        None => {
            return keys;
        },
    };
    let names = decode_active_profiles(value.as_str());
    let ghost names_v = split_at_commas(value@);
    proof {
        assert(keys.deep_view() =~= Seq::<Seq<char>>::empty());
        assert(names_v.skip(0) =~= names_v);
    }
    let n = names.len();
    let mut i: usize = 0;
    while i < n
        invariant
            names.deep_view() == names_v,
            n == names@.len(),
            i <= n,
            keys_of_profiles(keys.deep_view(), *config, files@, names_v.skip(i as int))
                =~= keys_of_profiles(Seq::empty(), *config, files@, names_v),
            forall|a: int, b: int|
                0 <= a < b < keys.deep_view().len() ==> keys.deep_view()[a] != keys.deep_view()[b],
            forall|a: int|
                0 <= a < keys.deep_view().len() ==> is_valid_key(#[trigger] keys.deep_view()[a]),
        decreases n - i,
    {
        let ghost keys_before = keys.deep_view();
        let name = &names[i];
        proof {
            assert(names_v.skip(i as int).first() == names_v[i as int]);
            assert(name@ == names_v[i as int]);
        }
        match crate::config::get_profile_path(config, name) {
            Err(_) => {
                proof {
                    assert(!profile_ok(*config, files@, names_v.skip(i as int).first()));
                    assert(names_v.skip(i as int).drop_first() =~= names_v.skip(i + 1));
                }
            },
            Ok(path) => {
                match read_file(files, path.as_str()) {
                    None => {
                        proof {
                            assert(!profile_ok(*config, files@, names_v.skip(i as int).first()));
                            assert(names_v.skip(i as int).drop_first() =~= names_v.skip(i + 1));
                        }
                    },
                    Some(contents) => {
                        let lines = parse_env_line(contents.as_str());
                        let ghost lines_v = profile_lines(*config, files@, names_v[i as int]);
                        proof {
                            assert(profile_ok(*config, files@, names_v.skip(i as int).first()));
                            assert(file_contents(
                                files@,
                                resolved_path(*config, names_v[i as int]),
                            ) matches Some(v) && contents@ == v);
                            assert(lines.deep_view() == lines_v);
                            assert(lines_v.skip(0) =~= lines_v);
                        }
                        let m = lines.len();
                        let mut j: usize = 0;
                        while j < m
                            invariant
                                m == lines@.len(),
                                j <= m,
                                lines.deep_view() == lines_v,
                                keys_of_lines(keys.deep_view(), lines_v.skip(j as int))
                                    =~= keys_of_lines(keys_before, lines_v),
                                forall|a: int, b: int|
                                    0 <= a < b < keys.deep_view().len() ==> keys.deep_view()[a]
                                        != keys.deep_view()[b],
                                forall|a: int|
                                    0 <= a < keys.deep_view().len() ==> is_valid_key(
                                        #[trigger] keys.deep_view()[a],
                                    ),
                            decreases m - j,
                        {
                            let ghost keys_j = keys.deep_view();
                            let line = &lines[j];
                            proof {
                                assert(line@ == lines_v[j as int]);
                            }
                            let is_new = valid_key(line.key.as_str()) && !contains_key(
                                &keys,
                                line.key.as_str(),
                            );
                            if is_new {
                                keys.push(line.key.clone());
                                proof {
                                    let l = lines_v[j as int];
                                    assert(keys.deep_view() =~= keys_j.push(l.key));
                                    assert forall|a: int| 0 <= a < keys_j.len() implies keys_j[a]
                                        != l.key by {
                                        assert(!keys_j.contains(l.key));
                                    }
                                }
                            }
                            j += 1;
                            proof {
                                let rest = lines_v.skip(j - 1);
                                let l = lines_v[j - 1];
                                assert(rest.first() == l);
                                assert(rest.drop_first() =~= lines_v.skip(j as int));
                                let acc2 = if is_valid_key(l.key) && !keys_j.contains(l.key) {
                                    keys_j.push(l.key)
                                } else {
                                    keys_j
                                };
                                assert(keys.deep_view() =~= acc2);
                                assert(keys_of_lines(keys_j, rest) == keys_of_lines(
                                    acc2,
                                    rest.drop_first(),
                                ));
                                assert(keys_of_lines(keys_j, rest) == keys_of_lines(
                                    keys.deep_view(),
                                    lines_v.skip(j as int),
                                ));
                            }
                        }
                        proof {
                            assert(lines_v.skip(m as int) =~= Seq::<LineV>::empty());
                            assert(keys_of_lines(keys.deep_view(), lines_v.skip(m as int))
                                == keys.deep_view());
                            assert(names_v.skip(i as int).drop_first() =~= names_v.skip(i + 1));
                            assert(names_v.skip(i as int).first() == names_v[i as int]);
                        }
                    },
                }
            },
        }
        i += 1;
    }
    proof {
        assert(names_v.skip(n as int) =~= Seq::<Seq<char>>::empty());
    }
    keys
}


/// One display group of the diff: the profile and its surviving
/// exported variables, in file order.
pub struct ProfileGroup {
    pub name: String,
    pub vars: Vec<EnvVar>,
}

/// The mathematical shape of a [`ProfileGroup`].
#[verifier::ext_equal]
pub struct GroupV {
    pub name: Seq<char>,
    pub vars: Seq<EnvVarV>,
}

impl View for ProfileGroup {
    type V = GroupV;

    open spec fn view(&self) -> GroupV {
        GroupV { name: self.name@, vars: self.vars.deep_view() }
    }
}

impl DeepView for ProfileGroup {
    type V = GroupV;

    open spec fn deep_view(&self) -> GroupV {
        self.view()
    }
}

/// The outcome of a merge: the unset instructions, one display group
/// per requested profile (in request order), and the request order
/// itself for the sentinel line.
pub struct MergeResult {
    pub unset: Vec<EnvVar>,
    pub groups: Vec<ProfileGroup>,
    pub profile_order: Vec<String>,
}

/// The mathematical shape of a [`MergeResult`].
#[verifier::ext_equal]
pub struct MergeResultV {
    pub unset: Seq<EnvVarV>,
    pub groups: Seq<GroupV>,
    pub profile_order: Seq<Seq<char>>,
}

impl View for MergeResult {
    type V = MergeResultV;

    open spec fn view(&self) -> MergeResultV {
        MergeResultV {
            unset: self.unset.deep_view(),
            groups: self.groups.deep_view(),
            profile_order: self.profile_order.deep_view(),
        }
    }
}

impl DeepView for MergeResult {
    type V = MergeResultV;

    open spec fn deep_view(&self) -> MergeResultV {
        self.view()
    }
}

/// The one merge outcome the inputs determine.
pub open spec fn merge_result_v(
    c: Config,
    files: Seq<SourceFile>,
    sentinel: Option<Seq<char>>,
    names: Seq<Seq<char>>,
) -> MergeResultV {
    MergeResultV {
        unset: unset_vars_v(current_keys(c, files, sentinel), c, files, names),
        groups: groups_of(c, files, names),
        profile_order: names,
    }
}

/// Fetch one requested profile's records: resolve its path, demand the
/// file, parse it. Any failure names the profile.
pub fn export_profile(config: &Config, profile: &String, files: &Vec<SourceFile>) -> (r: Result<
    Vec<ParsedLine>,
    CfgError,
>)
    ensures
        r is Ok <==> profile_ok(*config, files@, profile@),
        r matches Ok(lines) ==> lines.deep_view() == profile_lines(*config, files@, profile@),
        r matches Err(e) ==> profile_error_ok(*config, files@, profile@, e),
{
    let path = match crate::config::get_profile_path(config, profile) {
        Ok(p) => p,
        Err(e) => {
            return Err(e);
        },
    };
    match read_file(files, path.as_str()) {
        Some(contents) => Ok(parse_env_line(contents.as_str())),
        None => Err(CfgError::ProfileFileMissing { name: profile.clone(), path }),
    }
}

/// What a failure to fetch one profile reports.
pub open spec fn profile_error_ok(
    c: Config,
    files: Seq<SourceFile>,
    name: Seq<char>,
    e: CfgError,
) -> bool {
    if !resolves(c, name) {
        match crate::config::lookup_paths(c.profiles@, name) {
            None => e matches CfgError::ProfileNotFound { name: n } && n@ == name,
            Some(ps) => {
                if ps.len() == 0 {
                    e matches CfgError::ProfileHasNoPath { name: n } && n@ == name
                } else if ps.len() > 1 {
                    e matches CfgError::ProfileHasMultiplePaths { name: n } && n@ == name
                } else {
                    e matches CfgError::ProfileHasEmptyPath { name: n } && n@ == name
                }
            },
        }
    } else {
        e matches CfgError::ProfileFileMissing { name: n, path: p } && n@ == name && p@
            == resolved_path(c, name)
    }
}

/// Whether any record of `lines` bears the key `k`.
fn lines_define(lines: &Vec<ParsedLine>, k: &str) -> (r: bool)
    ensures
        r <==> exists|m: int|
            0 <= m < lines.deep_view().len() && #[trigger] lines.deep_view()[m].key == k@,
{
    let n = lines.len();
    let mut i: usize = 0;
    while i < n
        invariant
            n == lines@.len(),
            i <= n,
            forall|j: int| 0 <= j < i ==> lines.deep_view()[j].key != k@,
        decreases n - i,
    {
        if str_eq(lines[i].key.as_str(), k) {
            assert(lines.deep_view()[i as int].key == k@);
            return true;
        }
        i += 1;
    }
    false
}

/// Combine the previously active variables with the requested
/// profiles: fetch and parse every requested profile (any failure
/// aborts the whole merge before anything is emitted), keep each
/// file's surviving records grouped by profile with last-profile-wins
/// precedence, and mark as unset every currently exported key that the
/// new selection does not re-export.
pub fn merge(
    config: &Config,
    requested: &Vec<String>,
    sentinel: &Option<String>,
    files: &Vec<SourceFile>,
) -> (r: Result<MergeResult, CfgError>)
    ensures
        r is Ok <==> all_profiles_ok(*config, files@, requested.deep_view()),
        r matches Ok(mr) ==> mr.deep_view() =~~= merge_result_v(
            *config,
            files@,
            sentinel_view(*sentinel),
            requested.deep_view(),
        ),
        r matches Err(e) ==> merge_error_ok(*config, files@, requested.deep_view(), e),
{
    let ghost names_v = requested.deep_view();
    let n = requested.len();
    let mut parsed: Vec<Vec<ParsedLine>> = Vec::new();
    let mut i: usize = 0;
    while i < n
        invariant
            names_v == requested.deep_view(),
            n == requested@.len(),
            i <= n,
            parsed@.len() == i,
            forall|j: int| 0 <= j < i ==> profile_ok(*config, files@, #[trigger] names_v[j]),
            forall|j: int|
                0 <= j < i ==> #[trigger] parsed.deep_view()[j] == profile_lines(
                    *config,
                    files@,
                    names_v[j],
                ),
        decreases n - i,
    {
        let ghost old_parsed = parsed@;
        let ghost old_dv = parsed.deep_view();
        match export_profile(config, &requested[i], files) {
            Ok(lines) => {
                let ghost lvv = lines.deep_view();
                parsed.push(lines);
                proof {
                    assert(requested.deep_view()[i as int] == requested@[i as int].deep_view());
                    assert(requested@[i as int].deep_view() == requested@[i as int]@);
                    assert(names_v[i as int] == requested@[i as int]@);
                    assert(lvv == profile_lines(*config, files@, requested@[i as int]@));
                    assert(lvv == profile_lines(*config, files@, names_v[i as int]));
                    assert forall|j: int| 0 <= j < i + 1 implies #[trigger] parsed.deep_view()[j]
                        == profile_lines(*config, files@, names_v[j]) by {
                        if j < i {
                            assert(parsed@[j] == old_parsed[j]);
                            assert(old_dv[j] == old_parsed[j].deep_view());
                            assert(parsed.deep_view()[j] == parsed@[j].deep_view());
                        } else {
                            assert(parsed@[j].deep_view() == lvv);
                            assert(parsed.deep_view()[j] == parsed@[j].deep_view());
                        }
                    }
                }
            },
            Err(e) => {
                proof {
                    assert(requested.deep_view()[i as int] == requested@[i as int].deep_view());
                    assert(!profile_ok(*config, files@, names_v[i as int]));
                    lemma_first_bad_at(*config, files@, names_v, i as int);
                }
                return Err(e);
            },
        }
        i += 1;
    }
    let mut groups: Vec<ProfileGroup> = Vec::new();
    let mut gi: usize = 0;
    while gi < n
        invariant
            names_v == requested.deep_view(),
            n == requested@.len(),
            parsed@.len() == n,
            forall|j: int| 0 <= j < n ==> profile_ok(*config, files@, #[trigger] names_v[j]),
            forall|j: int|
                0 <= j < n ==> #[trigger] parsed.deep_view()[j] == profile_lines(
                    *config,
                    files@,
                    names_v[j],
                ),
            gi <= n,
            groups@.len() == gi,
            forall|j: int|
                0 <= j < gi ==> #[trigger] groups.deep_view()[j] == groups_of(
                    *config,
                    files@,
                    names_v,
                )[j],
        decreases n - gi,
    {
        let lines = &parsed[gi];
        let ghost lv = profile_lines(*config, files@, names_v[gi as int]);
        proof {
            assert(parsed.deep_view()[gi as int] == lv);
            assert(lines.deep_view() == parsed@[gi as int].deep_view());
        }
        let m = lines.len();
        let mut vars: Vec<EnvVar> = Vec::new();
        let mut j: usize = 0;
        while j < m
            invariant
                names_v == requested.deep_view(),
                n == requested@.len(),
                parsed@.len() == n,
                forall|q: int| 0 <= q < n ==> profile_ok(*config, files@, #[trigger] names_v[q]),
                forall|q: int|
                    0 <= q < n ==> #[trigger] parsed.deep_view()[q] == profile_lines(
                        *config,
                        files@,
                        names_v[q],
                    ),
                gi < n,
                lines == &parsed@[gi as int],
                lines.deep_view() == lv,
                lv == profile_lines(*config, files@, names_v[gi as int]),
                m == lines@.len(),
                j <= m,
                vars.deep_view() =~~= group_vars(lv, *config, files@, names_v, gi as int, j as int),
            decreases m - j,
        {
            let line = &lines[j];
            proof {
                assert(line@ == lines.deep_view()[j as int]);
            }
            let valid = valid_key(line.key.as_str());
            let mut later_in_file = false;
            let mut m2: usize = j + 1;
            while m2 < m
                invariant
                    m == lines@.len(),
                    lines.deep_view() == lv,
                    lv == profile_lines(*config, files@, names_v[gi as int]),
                    gi < n <= names_v.len(),
                    j < m,
                    j < m2 <= m,
                    line == &lines@[j as int],
                    line@ == lv[j as int],
                    later_in_file ==> !survives(*config, files@, names_v, gi as int, lv, j as int),
                    !later_in_file ==> forall|q: int| j < q < m2 ==> lv[q].key != lv[j as int].key,
                decreases m - m2,
            {
                if str_eq(lines[m2].key.as_str(), line.key.as_str()) {
                    proof {
                        assert(lines.deep_view()[m2 as int] == lv[m2 as int]);
                        assert(lv[m2 as int].key == lv[j as int].key);
                        assert(!survives(*config, files@, names_v, gi as int, lv, j as int));
                    }
                    later_in_file = true;
                    m2 = m;
                } else {
                    proof {
                        assert(lines.deep_view()[m2 as int] == lv[m2 as int]);
                    }
                    m2 += 1;
                }
            }
            let mut later_profile = false;
            let mut p: usize = gi + 1;
            while p < n
                invariant
                    names_v == requested.deep_view(),
                    n == requested@.len(),
                    parsed@.len() == n,
                    forall|q: int|
                        0 <= q < n ==> #[trigger] parsed.deep_view()[q] == profile_lines(
                            *config,
                            files@,
                            names_v[q],
                        ),
                    gi < n,
                    m == lines@.len(),
                    j < m,
                    line == &lines@[j as int],
                    lines.deep_view() == lv,
                    line@ == lv[j as int],
                    valid == is_valid_key(lv[j as int].key),
                    gi < p <= n,
                    later_profile ==> !survives(*config, files@, names_v, gi as int, lv, j as int),
                    !later_profile ==> forall|q: int|
                        gi < q < p ==> last_valid_line(
                            profile_lines(*config, files@, #[trigger] names_v[q]),
                            lv[j as int].key,
                        ) is None,
                decreases n - p,
            {
                let ghost pl = profile_lines(*config, files@, names_v[p as int]);
                proof {
                    assert(parsed.deep_view()[p as int] == pl);
                    assert((&parsed@[p as int]).deep_view() == parsed.deep_view()[p as int]);
                }
                if valid && lines_define(&parsed[p], line.key.as_str()) {
                    proof {
                        lemma_last_of_existing(pl, lv[j as int].key);
                        assert(!survives(*config, files@, names_v, gi as int, lv, j as int));
                    }
                    later_profile = true;
                    p = n;
                } else {
                    proof {
                        if valid {
                            assert(forall|w: int|
                                0 <= w < pl.len() ==> #[trigger] pl[w].key != lv[j as int].key);
                            lemma_last_valid_line_none(pl, lv[j as int].key);
                        } else {
                            assert(last_valid_line(pl, lv[j as int].key) is None);
                        }
                    }
                    p += 1;
                }
            }
            let keep = valid && !later_in_file && !later_profile;
            let ghost vars_before = vars.deep_view();
            if keep {
                proof {
                    assert(survives(*config, files@, names_v, gi as int, lv, j as int));
                }
                vars.push(
                    EnvVar::new(line.key.clone(), Some(line.value.clone()), requested[gi].clone()),
                );
                proof {
                    assert(vars.deep_view() =~~= vars_before.push(
                        var_of(lv[j as int], names_v[gi as int]),
                    ));
                }
            } else {
                proof {
                    if valid && !later_in_file {
                        assert(later_profile);
                    }
                    assert(!survives(*config, files@, names_v, gi as int, lv, j as int));
                }
            }
            j += 1;
            proof {
                assert(group_vars(lv, *config, files@, names_v, gi as int, j as int)
                    == if survives(*config, files@, names_v, gi as int, lv, j - 1) {
                    group_vars(lv, *config, files@, names_v, gi as int, j - 1).push(
                        var_of(lv[j - 1], names_v[gi as int]),
                    )
                } else {
                    group_vars(lv, *config, files@, names_v, gi as int, j - 1)
                });
                assert(vars.deep_view() =~~= group_vars(
                    lv,
                    *config,
                    files@,
                    names_v,
                    gi as int,
                    j as int,
                ));
            }
        }
        let ghost groups_before = groups.deep_view();
        groups.push(ProfileGroup { name: requested[gi].clone(), vars });
        proof {
            assert(groups.deep_view() =~~= groups_before.push(
                GroupV {
                    name: names_v[gi as int],
                    vars: group_vars(lv, *config, files@, names_v, gi as int, lv.len() as int),
                },
            ));
            assert(groups.deep_view()[gi as int] =~~= groups_of(*config, files@, names_v)[
                gi as int
            ]);
            assert forall|q: int| 0 <= q < gi + 1 implies #[trigger] groups.deep_view()[q]
                == groups_of(*config, files@, names_v)[q] by {
                if q < gi {
                    assert(groups.deep_view()[q] == groups_before[q]);
                }
            }
        }
        gi += 1;
    }
    let current = get_current_profile_vars(config, sentinel, files);
    let ghost keys_v = current_keys(*config, files@, sentinel_view(*sentinel));
    proof {
        assert(current.deep_view() =~= keys_v);
        assert(keys_v.take(0) =~= Seq::<Seq<char>>::empty());
    }
    let mut unset: Vec<EnvVar> = Vec::new();
    let kn = current.len();
    let mut t: usize = 0;
    while t < kn
        invariant
            names_v == requested.deep_view(),
            n == requested@.len(),
            parsed@.len() == n,
            forall|q: int|
                0 <= q < n ==> #[trigger] parsed.deep_view()[q] == profile_lines(
                    *config,
                    files@,
                    names_v[q],
                ),
            kn == current@.len(),
            current.deep_view() =~= keys_v,
            forall|a: int| 0 <= a < kn ==> is_valid_key(#[trigger] current.deep_view()[a]),
            t <= kn,
            unset.deep_view() =~~= unset_vars_v(keys_v.take(t as int), *config, files@, names_v),
        decreases kn - t,
    {
        let key = &current[t];
        proof {
            assert(key@ == current.deep_view()[t as int]);
            assert(key@ == keys_v[t as int]);
        }
        let mut exported = false;
        let mut p: usize = 0;
        while p < n
            invariant
                names_v == requested.deep_view(),
                n == requested@.len(),
                parsed@.len() == n,
                forall|q: int|
                    0 <= q < n ==> #[trigger] parsed.deep_view()[q] == profile_lines(
                        *config,
                        files@,
                        names_v[q],
                    ),
                t < current@.len(),
                key == &current@[t as int],
                key@ == keys_v[t as int],
                is_valid_key(key@),
                p <= n,
                !exported ==> forall|q: int|
                    0 <= q < p ==> last_valid_line(
                        profile_lines(*config, files@, #[trigger] names_v[q]),
                        key@,
                    ) is None,
                exported ==> merged_lookup(*config, files@, names_v, key@) is Some,
            decreases n - p,
        {
            let ghost pl = profile_lines(*config, files@, names_v[p as int]);
            proof {
                assert(parsed.deep_view()[p as int] == pl);
                assert((&parsed@[p as int]).deep_view() == parsed.deep_view()[p as int]);
            }
            if lines_define(&parsed[p], key.as_str()) {
                proof {
                    lemma_last_of_existing(pl, key@);
                    lemma_merged_lookup_some_of_profile(*config, files@, names_v, key@, p as int);
                }
                exported = true;
                p = n;
            } else {
                proof {
                    assert(forall|w: int| 0 <= w < pl.len() ==> #[trigger] pl[w].key != key@);
                    lemma_last_valid_line_none(pl, key@);
                }
                p += 1;
            }
        }
        let ghost unset_before = unset.deep_view();
        if !exported {
            proof {
                lemma_merged_lookup_none(*config, files@, names_v, key@);
            }
            unset.push(EnvVar::new(key.clone(), None, String::new()));
            proof {
                reveal_strlit("");
                assert(""@ =~= Seq::<char>::empty());
                assert(unset.deep_view() =~~= unset_before.push(
                    EnvVarV { key: key@, value: None, source_profile: ""@ },
                ));
            }
        }
        t += 1;
        proof {
            assert(keys_v.take(t as int).drop_last() =~= keys_v.take(t - 1));
            assert(keys_v.take(t as int).last() == keys_v[t - 1]);
            assert(unset.deep_view() =~~= unset_vars_v(
                keys_v.take(t as int),
                *config,
                files@,
                names_v,
            ));
        }
    }
    let mut order: Vec<String> = Vec::new();
    let mut oi: usize = 0;
    while oi < n
        invariant
            names_v == requested.deep_view(),
            n == requested@.len(),
            oi <= n,
            order.deep_view() =~= names_v.take(oi as int),
        decreases n - oi,
    {
        let ghost order_before = order.deep_view();
        order.push(requested[oi].clone());
        oi += 1;
        proof {
            assert(order.deep_view() =~= order_before.push(names_v[oi - 1]));
            assert(names_v.take(oi as int).drop_last() =~= names_v.take(oi - 1));
            assert(names_v.take(oi as int).last() == names_v[oi - 1]);
            assert(order_before.push(names_v[oi - 1]) =~= names_v.take(oi as int));
        }
    }
    let result = MergeResult { unset, groups, profile_order: order };
    proof {
        assert(keys_v.take(kn as int) =~= keys_v);
        assert(names_v.take(n as int) =~= names_v);
        assert(result.deep_view().groups =~= groups_of(*config, files@, names_v));
    }
    Ok(result)
}


/// A key somebody bears has a last bearer.
pub proof fn lemma_last_of_existing(ls: Seq<LineV>, k: Seq<char>)
    requires
        is_valid_key(k),
        exists|m: int| 0 <= m < ls.len() && #[trigger] ls[m].key == k,
    ensures
        last_valid_line(ls, k) is Some,
    decreases ls.len(),
{
    if ls.len() > 0 && ls.last().key != k {
        let m = choose|m: int| 0 <= m < ls.len() && #[trigger] ls[m].key == k;
        assert(ls.drop_last()[m] == ls[m]);
        lemma_last_of_existing(ls.drop_last(), k);
    }
}

/// A profile that defines `k` keeps the merge from leaving it unset.
pub proof fn lemma_merged_lookup_some_of_profile(
    c: Config,
    files: Seq<SourceFile>,
    names: Seq<Seq<char>>,
    k: Seq<char>,
    p: int,
)
    requires
        0 <= p < names.len(),
        last_valid_line(profile_lines(c, files, names[p]), k) is Some,
    ensures
        merged_lookup(c, files, names, k) is Some,
    decreases names.len(),
{
    if p < names.len() - 1 {
        if last_valid_line(profile_lines(c, files, names.last()), k) is None {
            assert(names.drop_last()[p] == names[p]);
            lemma_merged_lookup_some_of_profile(c, files, names.drop_last(), k, p);
        }
    }
}


} // verus!
