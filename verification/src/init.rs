//! First-time configuration: map discovered `.env*` files to profile
//! names and build the initial profile table. Scanning the directory
//! and writing the configuration file stay with the caller; this
//! module only decides what the fresh configuration holds.

use vstd::prelude::*;
use vstd::string::StrSliceExecFns;
use vstd::string::StringExecFns;

use crate::config::Config;
use crate::config::EntryV;
use crate::config::Profile;
use crate::config::ProfileEntry;
use crate::text::contains_sub;
use crate::text::has_substring;
use crate::text::str_eq;

verus! {

/// The file target a fresh configuration points at, chosen so that no
/// existing file of the user is overwritten by accident.
pub fn default_target() -> (r: &'static str)
    ensures
        r@ == ".env.nvy"@,
{
    ".env.nvy"
}

/// The profile name an environment file stands for: `.env` is the
/// `default` profile, `.env.<suffix>` is profile `<suffix>`, anything
/// else is no profile file.
pub open spec fn profile_name_of(file_name: Seq<char>) -> Option<Seq<char>> {
    if file_name == ".env"@ {
        Some("default"@)
    } else if file_name.len() > ".env."@.len() && file_name.take(".env."@.len() as int)
        == ".env."@ {
        Some(file_name.skip(".env."@.len() as int))
    } else {
        None
    }
}

/// Map an env file path to its corresponding profile name.
pub fn get_profile_name(file_name: &str) -> (r: Option<String>)
    ensures
        r is Some <==> profile_name_of(file_name@) is Some,
        r matches Some(n) ==> profile_name_of(file_name@) matches Some(m) && n@ == m,
{
    if str_eq(file_name, ".env") {
        return Some(String::from_str("default"));
    }
    let len = file_name.unicode_len();
    let prefix = ".env.";
    let plen = prefix.unicode_len();
    if len > plen && str_eq(file_name.substring_char(0, plen), prefix) {
        let suffix = file_name.substring_char(plen, len);
        proof {
            assert(file_name@.take(".env."@.len() as int) =~= file_name@.subrange(
                0,
                plen as int,
            ));
            assert(suffix@ =~= file_name@.skip(".env."@.len() as int));
        }
        Some(String::from_str(suffix))
    } else {
        proof {
            if len > plen {
                assert(file_name@.take(".env."@.len() as int) =~= file_name@.subrange(
                    0,
                    plen as int,
                ));
            }
        }
        None
    }
}

/// Index of the first entry named `name` in a table of entry shapes,
/// or `-1` when there is none.
pub open spec fn find_index_v(es: Seq<EntryV>, name: Seq<char>) -> int
    decreases es.len(),
{
    if es.len() == 0 {
        -1
    } else if es[0].name == name {
        0
    } else {
        let r = find_index_v(es.drop_first(), name);
        if r == -1 {
            -1
        } else {
            r + 1
        }
    }
}

/// A table with `name` mapped to exactly `path`: the entry replaced
/// where one bears the name already, appended otherwise.
pub open spec fn upsert_v(es: Seq<EntryV>, name: Seq<char>, path: Seq<char>) -> Seq<EntryV> {
    let i = find_index_v(es, name);
    if i == -1 {
        es.push(EntryV { name, paths: seq![path] })
    } else {
        es.update(i, EntryV { name, paths: seq![path] })
    }
}

/// The fresh profile table for the given discovered files: `default`
/// mapped to `.env`, then one profile per file that names one, a later
/// file replacing an earlier claim to the same name. A file that would
/// name `default` is ignored: `default` always points at `.env`.
pub open spec fn init_entries(files: Seq<Seq<char>>) -> Seq<EntryV>
    decreases files.len(),
{
    if files.len() == 0 {
        seq![EntryV { name: "default"@, paths: seq![".env"@] }]
    } else {
        let es = init_entries(files.drop_last());
        match profile_name_of(files.last()) {
            Some(n) => if n == "default"@ {
                es
            } else {
                upsert_v(es, n, files.last())
            },
            None => es,
        }
    }
}

/// What [`find_index_v`] returns, mirrored from the exec table.
proof fn lemma_find_index_v_at(es: Seq<EntryV>, name: Seq<char>, i: int)
    requires
        0 <= i < es.len(),
        es[i].name == name,
        forall|j: int| 0 <= j < i ==> es[j].name != name,
    ensures
        find_index_v(es, name) == i,
    decreases es.len(),
{
    if i > 0 {
        lemma_find_index_v_at(es.drop_first(), name, i - 1);
    }
}

proof fn lemma_find_index_v_none(es: Seq<EntryV>, name: Seq<char>)
    requires
        forall|j: int| 0 <= j < es.len() ==> es[j].name != name,
    ensures
        find_index_v(es, name) == -1,
    decreases es.len(),
{
    if es.len() > 0 {
        lemma_find_index_v_none(es.drop_first(), name);
    }
}

/// Names of a table of entry shapes are unique.
pub open spec fn unique_names_v(es: Seq<EntryV>) -> bool {
    forall|i: int, j: int| 0 <= i < j < es.len() ==> es[i].name != es[j].name
}

/// Put `name -> [path]` into the table, replacing any entry that bears
/// the name already.
fn upsert_profile(entries: &mut Vec<ProfileEntry>, name: String, path: String)
    requires
        unique_names_v(old(entries).deep_view()),
    ensures
        unique_names_v(final (entries).deep_view()),
        final (entries).deep_view() =~~= upsert_v(old(entries).deep_view(), name@, path@),
{
    let n = entries.len();
    let mut i: usize = 0;
    while i < n
        invariant
            unique_names_v(old(entries).deep_view()),
            *entries == *old(entries),
            n == entries@.len(),
            i <= n,
            forall|j: int| 0 <= j < i ==> old(entries).deep_view()[j].name != name@,
        decreases n - i,
    {
        if str_eq(entries[i].name.as_str(), name.as_str()) {
            let ghost es = old(entries).deep_view();
            proof {
                assert(es[i as int].name == name@);
                lemma_find_index_v_at(es, name@, i as int);
            }
            let mut paths: Vec<Profile> = Vec::new();
            paths.push(Profile { path });
            let entry = ProfileEntry { name, paths };
            entries.set(i, entry);
            proof {
                let up = entries.deep_view();
                assert(up =~~= es.update(i as int, EntryV { name: entry.name@, paths: seq![path@] }));
                assert forall|a: int, b: int| 0 <= a < b < up.len() implies up[a].name
                    != up[b].name by {
                    assert(up[a].name == es[a].name);
                    assert(up[b].name == es[b].name);
                }
            }
            return ;
        }
        i += 1;
    }
    let ghost es = old(entries).deep_view();
    proof {
        lemma_find_index_v_none(es, name@);
    }
    let mut paths: Vec<Profile> = Vec::new();
    paths.push(Profile { path });
    let entry = ProfileEntry { name, paths };
    entries.push(entry);
    proof {
        let up = entries.deep_view();
        assert(up =~~= es.push(EntryV { name: entry.name@, paths: seq![path@] }));
        assert forall|a: int, b: int| 0 <= a < b < up.len() implies up[a].name != up[b].name by {
            assert(up[a].name == es[a].name);
            if b < es.len() {
                assert(up[b].name == es[b].name);
            }
        }
    }
}

/// Build the fresh configuration for the discovered files: target as
/// given, no recorded current profiles, and the table of
/// [`init_entries`].
pub fn init_config(target: &str, env_files: &Vec<String>) -> (c: Config)
    ensures
        c.wf(),
        c.target@ == target@,
        c.current_profiles@.len() == 0,
        c.profiles.deep_view() =~~= init_entries(env_files.deep_view()),
{
    let mut entries: Vec<ProfileEntry> = Vec::new();
    let mut default_paths: Vec<Profile> = Vec::new();
    default_paths.push(Profile { path: String::from_str(".env") });
    entries.push(ProfileEntry { name: String::from_str("default"), paths: default_paths });
    proof {
        assert(entries.deep_view() =~~= init_entries(env_files.deep_view().take(0)));
    }
    let n = env_files.len();
    let mut i: usize = 0;
    while i < n
        invariant
            n == env_files@.len(),
            i <= n,
            unique_names_v(entries.deep_view()),
            entries.deep_view() =~~= init_entries(env_files.deep_view().take(i as int)),
        decreases n - i,
    {
        let ghost files = env_files.deep_view();
        match get_profile_name(env_files[i].as_str()) {
            Some(name) => {
                if !str_eq(name.as_str(), "default") {
                    let ghost before = entries.deep_view();
                    upsert_profile(&mut entries, name, env_files[i].clone());
                    proof {
                        assert(files.take(i + 1).drop_last() =~= files.take(i as int));
                        assert(files.take(i + 1).last() == files[i as int]);
                        assert(entries.deep_view() =~~= init_entries(files.take(i + 1)));
                    }
                } else {
                    proof {
                        assert(files.take(i + 1).drop_last() =~= files.take(i as int));
                        assert(files.take(i + 1).last() == files[i as int]);
                    }
                }
            },
            None => {
                proof {
                    assert(files.take(i + 1).drop_last() =~= files.take(i as int));
                    assert(files.take(i + 1).last() == files[i as int]);
                }
            },
        }
        i += 1;
    }
    proof {
        assert(env_files.deep_view().take(n as int) =~= env_files.deep_view());
    }
    let c = Config {
        target: String::from_str(target),
        current_profiles: Vec::new(),
        profiles: entries,
    };
    proof {
        assert forall|a: int, b: int| 0 <= a < b < c.profiles@.len() implies c.profiles@[a].name@
            != c.profiles@[b].name@ by {
            assert(c.profiles.deep_view()[a].name != c.profiles.deep_view()[b].name);
        }
    }
    c
}

/// The target a re-initialisation keeps: an existing file target is
/// preserved, otherwise the default file target is chosen.
pub open spec fn init_target(existing: Option<Config>) -> Seq<char> {
    match existing {
        Some(c) => if c.target@ != "sh"@ {
            c.target@
        } else {
            ".env.nvy"@
        },
        None => ".env.nvy"@,
    }
}

/// The extra file name initialisation ignores beside `.env.example`:
/// the preserved file target, so the generated output file never
/// becomes a profile.
pub open spec fn init_extra_ignore(existing: Option<Config>) -> Option<Seq<char>> {
    match existing {
        Some(c) => if c.target@ != "sh"@ {
            Some(c.target@)
        } else {
            None
        },
        None => None,
    }
}

/// Whether a discovered file takes part in initialisation.
pub open spec fn keep_file(f: Seq<char>, extra: Option<Seq<char>>) -> bool {
    !has_substring(f, ".env.example"@) && match extra {
        Some(t) => !has_substring(f, t),
        None => true,
    }
}

/// The discovered files that take part, in discovery order.
pub open spec fn kept_files(files: Seq<Seq<char>>, extra: Option<Seq<char>>) -> Seq<Seq<char>>
    decreases files.len(),
{
    if files.len() == 0 {
        Seq::empty()
    } else {
        let r = kept_files(files.drop_last(), extra);
        if keep_file(files.last(), extra) {
            r.push(files.last())
        } else {
            r
        }
    }
}

/// Build the configuration a (re-)initialisation writes: the preserved
/// or default target, and the profile table for every discovered
/// `.env*` file that is neither an example file nor the output target.
pub fn run_init(existing: &Option<Config>, env_files: &Vec<String>) -> (c: Config)
    ensures
        c.wf(),
        c.target@ == init_target(*existing),
        c.current_profiles@.len() == 0,
        c.profiles.deep_view() =~~= init_entries(
            kept_files(env_files.deep_view(), init_extra_ignore(*existing)),
        ),
{
    let mut target = String::from_str(default_target());
    let mut extra: Option<String> = None;
    match existing {
        Some(cfg) => {
            if !crate::config::is_target_shell(cfg) {
                target = cfg.target.clone();
                extra = Some(cfg.target.clone());
            }
        },
        None => {},
    }
    let ghost extra_v = init_extra_ignore(*existing);
    proof {
        assert(target@ == init_target(*existing));
        match &extra {
            Some(t) => assert(extra_v matches Some(v) && v == t@),
            None => assert(extra_v is None),
        }
    }
    let mut kept: Vec<String> = Vec::new();
    let n = env_files.len();
    let mut i: usize = 0;
    while i < n
        invariant
            n == env_files@.len(),
            i <= n,
            extra matches Some(t) ==> extra_v matches Some(v) && v == t@,
            extra is None ==> extra_v is None,
            kept.deep_view() =~= kept_files(env_files.deep_view().take(i as int), extra_v),
        decreases n - i,
    {
        let ghost files = env_files.deep_view();
        let f = &env_files[i];
        let mut keep = !contains_sub(f.as_str(), ".env.example");
        if keep {
            match &extra {
                Some(t) => {
                    if contains_sub(f.as_str(), t.as_str()) {
                        keep = false;
                    }
                },
                None => {},
            }
        }
        if keep {
            kept.push(f.clone());
        }
        i += 1;
        proof {
            assert(files.take(i as int).drop_last() =~= files.take(i - 1));
            assert(files.take(i as int).last() == files[i - 1]);
            assert(keep == keep_file(files[i - 1], extra_v));
            assert(kept.deep_view() =~= kept_files(files.take(i as int), extra_v));
        }
    }
    proof {
        assert(env_files.deep_view().take(n as int) =~= env_files.deep_view());
    }
    init_config(target.as_str(), &kept)
}

} // verus!
