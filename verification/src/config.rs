//! The profile configuration: an ordered mapping from profile name to
//! the file paths registered for it, plus the output target. Storage
//! of the configuration is the caller's business; everything here is a
//! pure computation on an already-loaded value.

use vstd::prelude::*;
use vstd::string::StringExecFns;

use crate::text::str_eq;

verus! {

/// One backing file of a profile.
pub struct Profile {
    pub path: String,
}

impl View for Profile {
    type V = Seq<char>;

    open spec fn view(&self) -> Seq<char> {
        self.path@
    }
}

impl DeepView for Profile {
    type V = Seq<char>;

    open spec fn deep_view(&self) -> Seq<char> {
        self.path@
    }
}

/// A named profile and the paths registered for it. A well-formed
/// profile has exactly one path; zero or several is a configuration
/// error that resolution reports.
pub struct ProfileEntry {
    pub name: String,
    pub paths: Vec<Profile>,
}

/// The mathematical shape of a [`ProfileEntry`].
#[verifier::ext_equal]
pub struct EntryV {
    pub name: Seq<char>,
    pub paths: Seq<Seq<char>>,
}

impl View for ProfileEntry {
    type V = EntryV;

    open spec fn view(&self) -> EntryV {
        EntryV { name: self.name@, paths: self.paths.deep_view() }
    }
}

impl DeepView for ProfileEntry {
    type V = EntryV;

    open spec fn deep_view(&self) -> EntryV {
        self.view()
    }
}

/// The loaded configuration: output target, the profiles the last
/// activation recorded, and the profile table in its stored order.
pub struct Config {
    pub target: String,
    pub current_profiles: Vec<String>,
    pub profiles: Vec<ProfileEntry>,
}

impl Config {
    /// Profile names are unique.
    pub open spec fn wf(self) -> bool {
        forall|i: int, j: int|
            0 <= i < j < self.profiles@.len() ==> self.profiles@[i].name@
                != self.profiles@[j].name@
    }
}

/// Index of the first entry named `name`, or `-1` when there is none.
pub open spec fn find_index(entries: Seq<ProfileEntry>, name: Seq<char>) -> int
    decreases entries.len(),
{
    if entries.len() == 0 {
        -1
    } else if entries[0].name@ == name {
        0
    } else {
        let r = find_index(entries.drop_first(), name);
        if r == -1 {
            -1
        } else {
            r + 1
        }
    }
}

/// The paths registered for `name`, or `None` when no entry bears it.
pub open spec fn lookup_paths(entries: Seq<ProfileEntry>, name: Seq<char>) -> Option<
    Seq<Seq<char>>,
> {
    if find_index(entries, name) == -1 {
        None
    } else {
        Some(entries[find_index(entries, name)].paths.deep_view())
    }
}

/// [`find_index`] is determined by any witness of a first entry.
pub proof fn lemma_find_index_at(entries: Seq<ProfileEntry>, name: Seq<char>, i: int)
    requires
        0 <= i < entries.len(),
        entries[i].name@ == name,
        forall|j: int| 0 <= j < i ==> entries[j].name@ != name,
    ensures
        find_index(entries, name) == i,
    decreases entries.len(),
{
    if i > 0 {
        lemma_find_index_at(entries.drop_first(), name, i - 1);
    }
}

/// Entries none of which bear the name make [`find_index`] answer `-1`.
pub proof fn lemma_find_index_none(entries: Seq<ProfileEntry>, name: Seq<char>)
    requires
        forall|j: int| 0 <= j < entries.len() ==> entries[j].name@ != name,
    ensures
        find_index(entries, name) == -1,
    decreases entries.len(),
{
    if entries.len() > 0 {
        lemma_find_index_none(entries.drop_first(), name);
    }
}

/// Whether `name` resolves to exactly one non-empty path.
pub open spec fn resolves(c: Config, name: Seq<char>) -> bool {
    match lookup_paths(c.profiles@, name) {
        Some(ps) => ps.len() == 1 && ps[0].len() > 0,
        None => false,
    }
}

/// The path `name` resolves to, when [`resolves`] holds.
pub open spec fn resolved_path(c: Config, name: Seq<char>) -> Seq<char> {
    match lookup_paths(c.profiles@, name) {
        Some(ps) => ps[0],
        None => Seq::empty(),
    }
}

/// Why a profile name failed to resolve, or why a requested file was
/// not there.
#[derive(Debug)]
pub enum CfgError {
    /// The configuration has no profile of this name.
    ProfileNotFound { name: String },
    /// The profile has no path registered.
    ProfileHasNoPath { name: String },
    /// The profile has more than one path registered.
    ProfileHasMultiplePaths { name: String },
    /// The profile's single registered path is the empty string.
    ProfileHasEmptyPath { name: String },
    /// The profile resolves to a path with no readable file behind it.
    ProfileFileMissing { name: String, path: String },
    /// A file handed to profile registration does not exist.
    FileNotFound { path: String },
}

/// The human-readable message for each error.
pub open spec fn message_of(e: CfgError) -> Seq<char> {
    match e {
        CfgError::ProfileNotFound { name } => "Profile "@ + name@
            + " does not exist in the nvy.yaml file."@,
        CfgError::ProfileHasNoPath { name } => "Profile "@ + name@
            + " does not have any paths defined."@,
        CfgError::ProfileHasMultiplePaths { name } => "Profile "@ + name@
            + " has more than one path defined."@,
        CfgError::ProfileHasEmptyPath { name } => "Profile "@ + name@
            + " has an empty path defined."@,
        CfgError::ProfileFileMissing { name, path } => "Provided path "@ + path@
            + " under profile "@ + name@ + " does not exist."@,
        CfgError::FileNotFound { path } => "File "@ + path@
            + " does not exist in the current directory."@,
    }
}

impl CfgError {
    /// The message shown to the user for this error.
    pub fn message(&self) -> (r: String)
        ensures
            r@ == message_of(*self),
    {
        match self {
            CfgError::ProfileNotFound { name } => {
                let mut out = String::from_str("Profile ");
                out.append(name.as_str());
                out.append(" does not exist in the nvy.yaml file.");
                out
            },
            CfgError::ProfileHasNoPath { name } => {
                let mut out = String::from_str("Profile ");
                out.append(name.as_str());
                out.append(" does not have any paths defined.");
                out
            },
            CfgError::ProfileHasMultiplePaths { name } => {
                let mut out = String::from_str("Profile ");
                out.append(name.as_str());
                out.append(" has more than one path defined.");
                out
            },
            CfgError::ProfileHasEmptyPath { name } => {
                let mut out = String::from_str("Profile ");
                out.append(name.as_str());
                out.append(" has an empty path defined.");
                out
            },
            CfgError::ProfileFileMissing { name, path } => {
                let mut out = String::from_str("Provided path ");
                out.append(path.as_str());
                out.append(" under profile ");
                out.append(name.as_str());
                out.append(" does not exist.");
                out
            },
            CfgError::FileNotFound { path } => {
                let mut out = String::from_str("File ");
                out.append(path.as_str());
                out.append(" does not exist in the current directory.");
                out
            },
        }
    }
}

/// The display line for one profile entry: its name and first path,
/// or nothing when it has no path.
pub open spec fn entry_display(e: ProfileEntry) -> Seq<char> {
    if e.paths.deep_view().len() > 0 {
        "  - "@ + e.name@ + ": \""@ + e.paths.deep_view()[0] + "\"\n"@
    } else {
        Seq::empty()
    }
}

/// The display lines of a profile table, in stored order.
pub open spec fn entries_display(es: Seq<ProfileEntry>) -> Seq<char>
    decreases es.len(),
{
    if es.len() == 0 {
        Seq::empty()
    } else {
        entries_display(es.drop_last()) + entry_display(es.last())
    }
}

/// The whole display text of a configuration: target, the recorded
/// current profiles (or `none`), and one line per profile.
pub open spec fn display_of(c: Config) -> Seq<char> {
    "target: "@ + c.target@ + "\ncurrent: "@ + (if c.current_profiles@.len() == 0 {
        "none"@
    } else {
        crate::text::join_with(c.current_profiles.deep_view(), ", "@)
    }) + "\nprofiles:\n"@ + entries_display(c.profiles@)
}

impl Config {
    /// The display text of this configuration.
    pub fn to_display_string(&self) -> (r: String)
        ensures
            r@ == display_of(*self),
    {
        let mut out = String::from_str("target: ");
        out.append(self.target.as_str());
        out.append("\ncurrent: ");
        if self.current_profiles.len() == 0 {
            out.append("none");
        } else {
            out.append(crate::text::join_strings(&self.current_profiles, ", ").as_str());
        }
        out.append("\nprofiles:\n");
        let ghost base = out@;
        let n = self.profiles.len();
        let mut i: usize = 0;
        while i < n
            invariant
                n == self.profiles@.len(),
                i <= n,
                out@ =~= base + entries_display(self.profiles@.take(i as int)),
            decreases n - i,
        {
            let entry = &self.profiles[i];
            if entry.paths.len() > 0 {
                out.append("  - ");
                out.append(entry.name.as_str());
                out.append(": \"");
                out.append(entry.paths[0].path.as_str());
                out.append("\"\n");
            }
            i += 1;
            proof {
                let es = self.profiles@;
                assert(es.take(i as int).drop_last() =~= es.take(i - 1));
                assert(es.take(i as int).last() == es[i - 1]);
            }
        }
        proof {
            assert(self.profiles@.take(n as int) =~= self.profiles@);
        }
        out
    }
}

/// The listing line block for one profile entry: its name, then one
/// line per registered path.
pub open spec fn listing_paths(ps: Seq<Seq<char>>) -> Seq<char>
    decreases ps.len(),
{
    if ps.len() == 0 {
        Seq::empty()
    } else {
        listing_paths(ps.drop_last()) + "    - "@ + ps.last() + "\n"@
    }
}

/// The listing block of one profile entry.
pub open spec fn listing_entry(e: ProfileEntry) -> Seq<char> {
    "  - "@ + e.name@ + ":\n"@ + listing_paths(e.paths.deep_view())
}

/// The listing blocks of a profile table, in stored order.
pub open spec fn listing_entries(es: Seq<ProfileEntry>) -> Seq<char>
    decreases es.len(),
{
    if es.len() == 0 {
        Seq::empty()
    } else {
        listing_entries(es.drop_last()) + listing_entry(es.last())
    }
}

/// The full profile listing, or a notice when no profile is defined.
pub open spec fn listing_of(c: Config) -> Seq<char> {
    if c.profiles@.len() == 0 {
        "No profiles defined.\n"@
    } else {
        "profiles:\n"@ + listing_entries(c.profiles@)
    }
}

/// The profile listing a caller shows for `nvy profiles`.
pub fn profiles_listing(config: &Config) -> (r: String)
    ensures
        r@ == listing_of(*config),
{
    if config.profiles.len() == 0 {
        return String::from_str("No profiles defined.\n");
    }
    let mut out = String::from_str("profiles:\n");
    let ghost base = out@;
    let n = config.profiles.len();
    let mut i: usize = 0;
    while i < n
        invariant
            n == config.profiles@.len(),
            i <= n,
            out@ =~= base + listing_entries(config.profiles@.take(i as int)),
        decreases n - i,
    {
        let entry = &config.profiles[i];
        out.append("  - ");
        out.append(entry.name.as_str());
        out.append(":\n");
        let ghost inner_base = out@;
        let m = entry.paths.len();
        let mut j: usize = 0;
        while j < m
            invariant
                m == entry.paths@.len(),
                j <= m,
                out@ =~= inner_base + listing_paths(entry.paths.deep_view().take(j as int)),
            decreases m - j,
        {
            out.append("    - ");
            out.append(entry.paths[j].path.as_str());
            out.append("\n");
            j += 1;
            proof {
                let ps = entry.paths.deep_view();
                assert(ps.take(j as int).drop_last() =~= ps.take(j - 1));
                assert(ps.take(j as int).last() == ps[j - 1]);
            }
        }
        i += 1;
        proof {
            let es = config.profiles@;
            assert(entry.paths.deep_view().take(m as int) =~= entry.paths.deep_view());
            assert(es.take(i as int).drop_last() =~= es.take(i - 1));
            assert(es.take(i as int).last() == es[i - 1]);
        }
    }
    proof {
        assert(config.profiles@.take(n as int) =~= config.profiles@);
    }
    out
}

/// The profile table in the order the caller stores it: the `default`
/// profile first when there is one, then the rest in stored order.
pub fn ordered_map(config: &Config) -> (r: Vec<ProfileEntry>)
    ensures
        find_index(config.profiles@, "default"@) == -1 ==> r.deep_view()
            =~= config.profiles.deep_view(),
        find_index(config.profiles@, "default"@) >= 0 ==> r.deep_view() =~= seq![
            config.profiles.deep_view()[find_index(config.profiles@, "default"@)],
        ] + config.profiles.deep_view().remove(find_index(config.profiles@, "default"@)),
{
    let n = config.profiles.len();
    let mut default_at: Option<usize> = None;
    let mut i: usize = 0;
    while i < n
        invariant
            n == config.profiles@.len(),
            i <= n,
            default_at matches Some(d) ==> d < i && config.profiles@[d as int].name@ == "default"@
                && find_index(config.profiles@, "default"@) == d,
            default_at is None ==> forall|j: int|
                0 <= j < i ==> config.profiles@[j].name@ != "default"@,
        decreases n - i,
    {
        if default_at.is_none() && str_eq(config.profiles[i].name.as_str(), "default") {
            proof {
                lemma_find_index_at(config.profiles@, "default"@, i as int);
            }
            default_at = Some(i);
        }
        i += 1;
    }
    let mut out: Vec<ProfileEntry> = Vec::new();
    match default_at {
        None => {
            proof {
                lemma_find_index_none(config.profiles@, "default"@);
            }
            let mut j: usize = 0;
            while j < n
                invariant
                    n == config.profiles@.len(),
                    j <= n,
                    out.deep_view() =~= config.profiles.deep_view().take(j as int),
                decreases n - j,
            {
                out.push(clone_entry(&config.profiles[j]));
                j += 1;
                proof {
                    let dv = config.profiles.deep_view();
                    assert(out.deep_view() =~= dv.take(j - 1).push(dv[j - 1]));
                    assert(dv.take(j - 1).push(dv[j - 1]) =~= dv.take(j as int));
                }
            }
            proof {
                assert(config.profiles.deep_view().take(n as int) =~= config.profiles.deep_view());
            }
        },
        Some(d) => {
            out.push(clone_entry(&config.profiles[d]));
            let ghost dv = config.profiles.deep_view();
            let ghost target_seq = seq![dv[d as int]] + dv.remove(d as int);
            let mut j: usize = 0;
            let mut placed: usize = 1;
            proof {
                assert(out.deep_view() =~= target_seq.take(1));
            }
            while j < n
                invariant
                    n == config.profiles@.len(),
                    dv == config.profiles.deep_view(),
                    d < n,
                    target_seq == seq![dv[d as int]] + dv.remove(d as int),
                    j <= n,
                    placed == if j <= d {
                        j + 1
                    } else {
                        j as int
                    },
                    out.deep_view() =~= target_seq.take(placed as int),
                decreases n - j,
            {
                if j != d {
                    out.push(clone_entry(&config.profiles[j]));
                    proof {
                        let k = placed as int;
                        assert(target_seq[k] == dv.remove(d as int)[k - 1]);
                        if j < d {
                            assert(dv.remove(d as int)[k - 1] == dv[j as int]);
                        } else {
                            assert(dv.remove(d as int)[k - 1] == dv[j as int]);
                        }
                        assert(out.deep_view() =~= target_seq.take(k).push(target_seq[k]));
                        assert(target_seq.take(k).push(target_seq[k]) =~= target_seq.take(k + 1));
                    }
                    placed += 1;
                }
                j += 1;
            }
            proof {
                assert(target_seq.take(placed as int) =~= target_seq);
            }
        },
    }
    out
}

/// A copy of one profile entry.
fn clone_entry(e: &ProfileEntry) -> (r: ProfileEntry)
    ensures
        r.deep_view() == e.deep_view(),
{
    let mut paths: Vec<Profile> = Vec::new();
    let m = e.paths.len();
    let mut j: usize = 0;
    while j < m
        invariant
            m == e.paths@.len(),
            j <= m,
            paths.deep_view() =~= e.paths.deep_view().take(j as int),
        decreases m - j,
    {
        paths.push(Profile { path: e.paths[j].path.clone() });
        j += 1;
        proof {
            let dv = e.paths.deep_view();
            assert(paths.deep_view() =~= dv.take(j - 1).push(dv[j - 1]));
            assert(dv.take(j - 1).push(dv[j - 1]) =~= dv.take(j as int));
        }
    }
    proof {
        assert(e.paths.deep_view().take(m as int) =~= e.paths.deep_view());
    }
    ProfileEntry { name: e.name.clone(), paths }
}

/// Whether the configured target selects shell output.
pub fn is_target_shell(cfg: &Config) -> (r: bool)
    ensures
        r == (cfg.target@ == "sh"@),
{
    str_eq(cfg.target.as_str(), "sh")
}

/// Resolve a profile name to its single registered file path.
///
/// Fails when the profile is missing, has no path, has several, or has
/// an empty one — each with its own error.
pub fn get_profile_path(config: &Config, profile: &String) -> (r: Result<String, CfgError>)
    ensures
        resolves(*config, profile@) <==> r is Ok,
        r matches Ok(p) ==> p@ == resolved_path(*config, profile@),
        r matches Err(e) ==> match lookup_paths(config.profiles@, profile@) {
            None => e matches CfgError::ProfileNotFound { name } && name@ == profile@,
            Some(ps) => {
                if ps.len() == 0 {
                    e matches CfgError::ProfileHasNoPath { name } && name@ == profile@
                } else if ps.len() > 1 {
                    e matches CfgError::ProfileHasMultiplePaths { name } && name@ == profile@
                } else {
                    e matches CfgError::ProfileHasEmptyPath { name } && name@ == profile@
                }
            },
        },
{
    let n = config.profiles.len();
    let mut i: usize = 0;
    while i < n
        invariant
            n == config.profiles@.len(),
            i <= n,
            forall|j: int| 0 <= j < i ==> config.profiles@[j].name@ != profile@,
        decreases n - i,
    {
        let entry = &config.profiles[i];
        if str_eq(entry.name.as_str(), profile.as_str()) {
            proof {
                lemma_find_index_at(config.profiles@, profile@, i as int);
            }
            if entry.paths.len() == 0 {
                return Err(CfgError::ProfileHasNoPath { name: profile.clone() });
            }
            if entry.paths.len() > 1 {
                return Err(CfgError::ProfileHasMultiplePaths { name: profile.clone() });
            }
            let path = entry.paths[0].path.clone();
            if path.as_str().is_empty() {
                return Err(CfgError::ProfileHasEmptyPath { name: profile.clone() });
            }
            return Ok(path);
        }
        i += 1;
    }
    proof {
        lemma_find_index_none(config.profiles@, profile@);
    }
    Err(CfgError::ProfileNotFound { name: profile.clone() })
}

/// Point the output target at `target`. The profile table is untouched.
pub fn run_export(config: &mut Config, target: &String)
    ensures
        final (config).target@ == target@,
        final (config).profiles == old(config).profiles,
        final (config).current_profiles == old(config).current_profiles,
{
    config.target = target.clone();
}

/// Point the output target at `file`. The profile table is untouched.
pub fn run_target_set(config: &mut Config, file: &String)
    ensures
        final (config).target@ == file@,
        final (config).profiles == old(config).profiles,
        final (config).current_profiles == old(config).current_profiles,
{
    config.target = file.clone();
}

/// Register `file` as the single path of `profile`, creating the
/// profile or replacing its paths. `file_exists` reports whether the
/// caller found the file on disk; registration of a missing file is
/// refused.
pub fn run_profiles_set(config: &mut Config, profile: &String, file: &String, file_exists: bool)
    -> (r: Result<(), CfgError>)
    requires
        old(config).wf(),
    ensures
        final (config).wf(),
        final (config).target == old(config).target,
        final (config).current_profiles == old(config).current_profiles,
        r is Ok <==> file_exists,
        r matches Err(e) ==> e matches CfgError::FileNotFound { path } && path@ == file@
            && *final (config) == *old(config),
        file_exists ==> {
            let entries = old(config).profiles@;
            let i = find_index(entries, profile@);
            let updated = final (config).profiles@;
            if i == -1 {
                &&& updated.len() == entries.len() + 1
                &&& forall|j: int| 0 <= j < entries.len() ==> updated[j] == entries[j]
                &&& updated[entries.len() as int].name@ == profile@
                &&& updated[entries.len() as int].paths.deep_view() =~= seq![file@]
            } else {
                &&& updated.len() == entries.len()
                &&& forall|j: int| 0 <= j < entries.len() && j != i ==> updated[j] == entries[j]
                &&& updated[i].name@ == profile@
                &&& updated[i].paths.deep_view() =~= seq![file@]
            }
        },
{
    if !file_exists {
        return Err(CfgError::FileNotFound { path: file.clone() });
    }
    let n = config.profiles.len();
    let mut i: usize = 0;
    while i < n
        invariant
            old(config).wf(),
            file_exists,
            *config == *old(config),
            n == config.profiles@.len(),
            i <= n,
            forall|j: int| 0 <= j < i ==> config.profiles@[j].name@ != profile@,
        decreases n - i,
    {
        if str_eq(config.profiles[i].name.as_str(), profile.as_str()) {
            proof {
                lemma_find_index_at(config.profiles@, profile@, i as int);
            }
            let mut paths: Vec<Profile> = Vec::new();
            paths.push(Profile { path: file.clone() });
            let entry = ProfileEntry { name: profile.clone(), paths };
            config.profiles.set(i, entry);
            proof {
                let es = old(config).profiles@;
                let up = config.profiles@;
                assert(up =~= es.update(i as int, entry));
                assert(up[i as int].paths.deep_view() =~= seq![file@]);
                assert forall|a: int, b: int| 0 <= a < b < up.len() implies up[a].name@
                    != up[b].name@ by {
                    assert(up[a].name@ == es[a].name@);
                    assert(up[b].name@ == es[b].name@);
                }
            }
            return Ok(());
        }
        i += 1;
    }
    proof {
        lemma_find_index_none(config.profiles@, profile@);
    }
    let mut paths: Vec<Profile> = Vec::new();
    paths.push(Profile { path: file.clone() });
    let entry = ProfileEntry { name: profile.clone(), paths };
    config.profiles.push(entry);
    proof {
        let es = old(config).profiles@;
        let up = config.profiles@;
        assert(up =~= es.push(entry));
        assert(up[es.len() as int].paths.deep_view() =~= seq![file@]);
        assert forall|a: int, b: int| 0 <= a < b < up.len() implies up[a].name@ != up[b].name@ by {
            if b < es.len() {
                assert(up[a].name@ == es[a].name@);
                assert(up[b].name@ == es[b].name@);
            } else {
                assert(up[b].name@ == profile@);
                assert(up[a].name@ == es[a].name@);
            }
        }
    }
    Ok(())
}

/// Remove `profile` from the table. Reports whether it was there;
/// removing an absent profile changes nothing.
pub fn run_profiles_remove(config: &mut Config, profile: &String) -> (removed: bool)
    requires
        old(config).wf(),
    ensures
        final (config).wf(),
        final (config).target == old(config).target,
        final (config).current_profiles == old(config).current_profiles,
        removed <==> find_index(old(config).profiles@, profile@) != -1,
        !removed ==> *final (config) == *old(config),
        removed ==> final (config).profiles@ =~= old(config).profiles@.remove(
            find_index(old(config).profiles@, profile@),
        ),
{
    let n = config.profiles.len();
    let mut i: usize = 0;
    while i < n
        invariant
            old(config).wf(),
            *config == *old(config),
            n == config.profiles@.len(),
            i <= n,
            forall|j: int| 0 <= j < i ==> config.profiles@[j].name@ != profile@,
        decreases n - i,
    {
        if str_eq(config.profiles[i].name.as_str(), profile.as_str()) {
            proof {
                lemma_find_index_at(old(config).profiles@, profile@, i as int);
            }
            config.profiles.remove(i);
            proof {
                let es = old(config).profiles@;
                let up = config.profiles@;
                assert(up =~= es.remove(i as int));
                assert(forall|k: int| 0 <= k < i ==> up[k] == es[k]);
                assert(forall|k: int| i <= k < up.len() ==> up[k] == es[k + 1]);
                assert forall|a: int, b: int| 0 <= a < b < up.len() implies up[a].name@
                    != up[b].name@ by {
                    let a0: int = if a < i { a } else { a + 1 };
                    let b0: int = if b < i { b } else { b + 1 };
                    assert(up[a].name@ == es[a0].name@);
                    assert(up[b].name@ == es[b0].name@);
                }
            }
            return true;
        }
        i += 1;
    }
    proof {
        lemma_find_index_none(config.profiles@, profile@);
    }
    false
}

} // verus!
