//! The renderer: turn a merge result into shell commands or into the
//! contents of a flat environment file.
//!
//! Shell output lists the unset commands first, then one block per
//! contributing profile — a `# name` header, its exports in file
//! order, a blank line — and ends with the one sentinel export that
//! records the new activation. File output keeps the same grouping but
//! writes bare `KEY=value` lines, omits unset instructions and the
//! sentinel, and ends with exactly one newline.

use vstd::prelude::*;
use vstd::string::StringExecFns;

use crate::config::CfgError;
use crate::config::Config;
use crate::env_var::env_file_line_of;
use crate::env_var::escape;
use crate::env_var::shell_command_of;
use crate::env_var::EnvVarV;
use crate::merge::all_profiles_ok;
use crate::merge::encode_active_profiles;
use crate::merge::merge;
use crate::merge::merge_error_ok;
use crate::merge::merge_result_v;
use crate::merge::sentinel_view;
use crate::merge::GroupV;
use crate::merge::MergeResult;
use crate::merge::MergeResultV;
use crate::merge::SourceFile;
use crate::text::join_with;

verus! {

/// The group header line for a profile.
pub open spec fn group_header(name: Seq<char>) -> Seq<char> {
    "# "@ + name
}

/// One shell command line per variable, in order.
pub open spec fn vars_shell_lines(vars: Seq<EnvVarV>) -> Seq<Seq<char>>
    decreases vars.len(),
{
    if vars.len() == 0 {
        Seq::empty()
    } else {
        vars_shell_lines(vars.drop_last()).push(shell_command_of(vars.last()))
    }
}

/// The shell block of one group: header, exports, blank separator;
/// nothing for a group without surviving exports.
pub open spec fn group_shell_lines(g: GroupV) -> Seq<Seq<char>> {
    if g.vars.len() == 0 {
        Seq::empty()
    } else {
        seq![group_header(g.name)] + vars_shell_lines(g.vars) + seq![Seq::<char>::empty()]
    }
}

/// The shell blocks of all groups, in request order.
pub open spec fn groups_shell_lines(gs: Seq<GroupV>) -> Seq<Seq<char>>
    decreases gs.len(),
{
    if gs.len() == 0 {
        Seq::empty()
    } else {
        groups_shell_lines(gs.drop_last()) + group_shell_lines(gs.last())
    }
}

/// One `unset` line per instruction, in tracker order.
pub open spec fn unset_lines(unset: Seq<EnvVarV>) -> Seq<Seq<char>>
    decreases unset.len(),
{
    if unset.len() == 0 {
        Seq::empty()
    } else {
        unset_lines(unset.drop_last()).push(shell_command_of(unset.last()))
    }
}

/// The one line that records the new activation in the sentinel
/// variable, emitted even when nothing else is.
pub open spec fn sentinel_line(order: Seq<Seq<char>>) -> Seq<char> {
    "export NV_CURRENT_PROFILE="@ + escape(join_with(order, ","@))
}

/// Every line of the shell rendering, in output order.
pub open spec fn render_shell_v(mr: MergeResultV) -> Seq<Seq<char>> {
    unset_lines(mr.unset) + groups_shell_lines(mr.groups) + seq![sentinel_line(mr.profile_order)]
}

/// One `KEY=value` line per export, in order.
pub open spec fn vars_file_lines(vars: Seq<EnvVarV>) -> Seq<Seq<char>>
    decreases vars.len(),
{
    if vars.len() == 0 {
        Seq::empty()
    } else {
        let r = vars_file_lines(vars.drop_last());
        match env_file_line_of(vars.last()) {
            Some(l) => r.push(l),
            None => r,
        }
    }
}

/// The flat-file block of one group: header, then its lines.
pub open spec fn group_file_block(g: GroupV) -> Seq<Seq<char>> {
    seq![group_header(g.name)] + vars_file_lines(g.vars)
}

/// The flat-file lines of all groups, blocks separated by one blank
/// line, no trailing blank.
pub open spec fn groups_file_lines(gs: Seq<GroupV>) -> Seq<Seq<char>>
    decreases gs.len(),
{
    if gs.len() == 0 {
        Seq::empty()
    } else {
        let r = groups_file_lines(gs.drop_last());
        let g = gs.last();
        if g.vars.len() == 0 {
            r
        } else if r.len() == 0 {
            group_file_block(g)
        } else {
            r + seq![Seq::<char>::empty()] + group_file_block(g)
        }
    }
}

/// The lines joined, each followed by one line break.
pub open spec fn unlines_nl(ls: Seq<Seq<char>>) -> Seq<char>
    decreases ls.len(),
{
    if ls.len() == 0 {
        Seq::empty()
    } else {
        unlines_nl(ls.drop_last()) + ls.last() + seq!['\n']
    }
}

/// The whole flat-file contents: the grouped lines, ending with
/// exactly one newline also when nothing survived.
pub open spec fn render_file_v(mr: MergeResultV) -> Seq<char> {
    let ls = groups_file_lines(mr.groups);
    if ls.len() == 0 {
        seq!['\n']
    } else {
        unlines_nl(ls)
    }
}

/// Render the diff as shell commands, one per line.
pub fn render_shell(mr: &MergeResult) -> (r: Vec<String>)
    ensures
        r.deep_view() =~~= render_shell_v(mr.deep_view()),
{
    let mut out: Vec<String> = Vec::new();
    let un = mr.unset.len();
    let mut i: usize = 0;
    while i < un
        invariant
            un == mr.unset@.len(),
            i <= un,
            out.deep_view() =~~= unset_lines(mr.unset.deep_view().take(i as int)),
        decreases un - i,
    {
        let ghost before = out.deep_view();
        out.push(mr.unset[i].to_shell_command());
        i += 1;
        proof {
            let uv = mr.unset.deep_view();
            assert((&mr.unset@[i - 1])@ == uv[i - 1]);
            assert(out.deep_view() =~= before.push(shell_command_of(uv[i - 1])));
            assert(uv.take(i as int).drop_last() =~= uv.take(i - 1));
            assert(uv.take(i as int).last() == uv[i - 1]);
        }
    }
    proof {
        assert(mr.unset.deep_view().take(un as int) =~= mr.unset.deep_view());
    }
    let ghost unset_part = out.deep_view();
    let gn = mr.groups.len();
    let mut gi: usize = 0;
    while gi < gn
        invariant
            gn == mr.groups@.len(),
            gi <= gn,
            unset_part == unset_lines(mr.unset.deep_view()),
            out.deep_view() =~~= unset_part + groups_shell_lines(
                mr.groups.deep_view().take(gi as int),
            ),
        decreases gn - gi,
    {
        let group = &mr.groups[gi];
        let ghost gv = mr.groups.deep_view()[gi as int];
        proof {
            assert(group@ == gv);
        }
        if group.vars.len() > 0 {
            let ghost entry_out = out.deep_view();
            let mut header = String::from_str("# ");
            header.append(group.name.as_str());
            out.push(header);
            let ghost block_start = out.deep_view();
            proof {
                assert(block_start =~~= entry_out.push(group_header(gv.name)));
            }
            let vn = group.vars.len();
            let mut vi: usize = 0;
            while vi < vn
                invariant
                    vn == group.vars@.len(),
                    vi <= vn,
                    group@ == gv,
                    out.deep_view() =~~= block_start + vars_shell_lines(
                        group.vars.deep_view().take(vi as int),
                    ),
                decreases vn - vi,
            {
                let ghost before = out.deep_view();
                out.push(group.vars[vi].to_shell_command());
                vi += 1;
                proof {
                    let vv = group.vars.deep_view();
                    assert((&group.vars@[vi - 1])@ == vv[vi - 1]);
                    assert(out.deep_view() =~= before.push(shell_command_of(vv[vi - 1])));
                    assert(vv.take(vi as int).drop_last() =~= vv.take(vi - 1));
                    assert(vv.take(vi as int).last() == vv[vi - 1]);
                }
            }
            let ghost before_blank = out.deep_view();
            out.push(String::new());
            proof {
                let gs = mr.groups.deep_view();
                assert(group.vars.deep_view().take(vn as int) =~= gv.vars);
                assert(before_blank =~~= block_start + vars_shell_lines(gv.vars));
                assert(out.deep_view() =~~= before_blank.push(Seq::<char>::empty()));
                assert(out.deep_view() =~~= unset_part + groups_shell_lines(gs.take(gi as int))
                    + group_shell_lines(gv));
                assert(gs.take(gi + 1).drop_last() =~= gs.take(gi as int));
                assert(gs.take(gi + 1).last() == gs[gi as int]);
                assert(out.deep_view() =~~= unset_part + groups_shell_lines(gs.take(gi + 1)));
            }
        } else {
            proof {
                let gs = mr.groups.deep_view();
                assert(gv.vars.len() == 0);
                assert(group_shell_lines(gv) =~= Seq::<Seq<char>>::empty());
                assert(gs.take(gi + 1).drop_last() =~= gs.take(gi as int));
                assert(gs.take(gi + 1).last() == gs[gi as int]);
                assert(groups_shell_lines(gs.take(gi + 1)) =~= groups_shell_lines(
                    gs.take(gi as int),
                ) + group_shell_lines(gv));
                assert(out.deep_view() =~~= unset_part + groups_shell_lines(gs.take(gi + 1)));
            }
        }
        gi += 1;
    }
    let mut last = String::from_str("export NV_CURRENT_PROFILE=");
    last.append(crate::env_var::escape_shell_value(
        encode_active_profiles(&mr.profile_order).as_str(),
    ).as_str());
    out.push(last);
    proof {
        assert(mr.groups.deep_view().take(gn as int) =~= mr.groups.deep_view());
        assert(out.deep_view() =~~= render_shell_v(mr.deep_view()));
    }
    out
}

/// Render the diff as the contents of a flat environment file.
pub fn render_file(mr: &MergeResult) -> (r: String)
    ensures
        r@ == render_file_v(mr.deep_view()),
{
    let mut lines: Vec<String> = Vec::new();
    let gn = mr.groups.len();
    let mut gi: usize = 0;
    while gi < gn
        invariant
            gn == mr.groups@.len(),
            gi <= gn,
            lines.deep_view() =~~= groups_file_lines(mr.groups.deep_view().take(gi as int)),
        decreases gn - gi,
    {
        let group = &mr.groups[gi];
        let ghost gv = mr.groups.deep_view()[gi as int];
        proof {
            assert(group@ == gv);
        }
        if group.vars.len() > 0 {
            let ghost before = lines.deep_view();
            if lines.len() > 0 {
                lines.push(String::new());
                proof {
                    assert(lines.deep_view() =~~= before.push(Seq::<char>::empty()));
                }
            }
            let ghost mid = lines.deep_view();
            let mut header = String::from_str("# ");
            header.append(group.name.as_str());
            lines.push(header);
            let ghost block_start = lines.deep_view();
            proof {
                assert(block_start =~~= mid.push(group_header(gv.name)));
                if before.len() == 0 {
                    assert(block_start =~~= before + seq![group_header(gv.name)]);
                } else {
                    assert(block_start =~~= before + seq![Seq::<char>::empty()] + seq![
                        group_header(gv.name),
                    ]);
                }
            }
            let vn = group.vars.len();
            let mut vi: usize = 0;
            while vi < vn
                invariant
                    vn == group.vars@.len(),
                    vi <= vn,
                    group@ == gv,
                    lines.deep_view() =~~= block_start + vars_file_lines(
                        group.vars.deep_view().take(vi as int),
                    ),
                decreases vn - vi,
            {
                let ghost before_v = lines.deep_view();
                proof {
                    assert((&group.vars@[vi as int])@ == group.vars.deep_view()[vi as int]);
                }
                match group.vars[vi].to_env_file_line() {
                    Some(l) => {
                        let ghost lv0 = l@;
                        lines.push(l);
                        proof {
                            assert(lines.deep_view() =~~= before_v.push(lv0));
                        }
                    },
                    None => {},
                }
                vi += 1;
                proof {
                    let vv = group.vars.deep_view();
                    assert(vv.take(vi as int).drop_last() =~= vv.take(vi - 1));
                    assert(vv.take(vi as int).last() == vv[vi - 1]);
                    assert(lines.deep_view() =~~= block_start + vars_file_lines(
                        vv.take(vi as int),
                    ));
                }
            }
            proof {
                let gs = mr.groups.deep_view();
                assert(group.vars.deep_view().take(vn as int) =~= gv.vars);
                assert(gs.take(gi + 1).drop_last() =~= gs.take(gi as int));
                assert(gs.take(gi + 1).last() == gs[gi as int]);
                if before.len() == 0 {
                    assert(lines.deep_view() =~~= group_file_block(gv));
                } else {
                    assert(lines.deep_view() =~~= before + seq![Seq::<char>::empty()]
                        + group_file_block(gv));
                }
                assert(lines.deep_view() =~~= groups_file_lines(gs.take(gi + 1)));
            }
        } else {
            proof {
                let gs = mr.groups.deep_view();
                assert(gv.vars.len() == 0);
                assert(gs.take(gi + 1).drop_last() =~= gs.take(gi as int));
                assert(gs.take(gi + 1).last() == gs[gi as int]);
                assert(lines.deep_view() =~~= groups_file_lines(gs.take(gi + 1)));
            }
        }
        gi += 1;
    }
    proof {
        assert(mr.groups.deep_view().take(gn as int) =~= mr.groups.deep_view());
    }
    let ln = lines.len();
    if ln == 0 {
        let mut out = String::new();
        out.push('\n');
        proof {
            assert(out@ =~= render_file_v(mr.deep_view()));
        }
        return out;
    }
    let mut out = String::new();
    let mut i: usize = 0;
    while i < ln
        invariant
            ln == lines@.len(),
            lines.deep_view() == groups_file_lines(mr.groups.deep_view()),
            i <= ln,
            out@ =~= unlines_nl(lines.deep_view().take(i as int)),
        decreases ln - i,
    {
        out.append(lines[i].as_str());
        out.push('\n');
        i += 1;
        proof {
            let lv = lines.deep_view();
            assert((&lines@[i - 1])@ == lv[i - 1]);
            assert(lv.take(i as int).drop_last() =~= lv.take(i - 1));
            assert(lv.take(i as int).last() == lv[i - 1]);
        }
    }
    proof {
        assert(lines.deep_view().take(ln as int) =~= lines.deep_view());
        assert(out@ =~= render_file_v(mr.deep_view()));
    }
    out
}

/// What one activation run produces: lines for the calling shell to
/// evaluate, or a file to write and the path to write it to.
pub enum UseOutput {
    Shell(Vec<String>),
    File { path: String, contents: String },
}

/// Activate the requested profiles: merge them against the previously
/// active set and render the outcome for the configured target. Any
/// resolution or missing-file failure aborts before any output exists.
pub fn run_use(
    config: &Config,
    profiles: &Vec<String>,
    sentinel: &Option<String>,
    files: &Vec<SourceFile>,
) -> (r: Result<UseOutput, CfgError>)
    ensures
        r is Ok <==> all_profiles_ok(*config, files@, profiles.deep_view()),
        r matches Err(e) ==> merge_error_ok(*config, files@, profiles.deep_view(), e),
        r matches Ok(out) ==> ({
            let mrv = merge_result_v(
                *config,
                files@,
                sentinel_view(*sentinel),
                profiles.deep_view(),
            );
            if config.target@ == "sh"@ {
                out matches UseOutput::Shell(lines) && lines.deep_view() =~~= render_shell_v(mrv)
            } else {
                (out matches UseOutput::File { path, contents } && path@ == config.target@
                    && contents@ == render_file_v(mrv))
            }
        }),
{
    let mr = match merge(config, profiles, sentinel, files) {
        Ok(mr) => mr,
        Err(e) => {
            return Err(e);
        },
    };
    if crate::config::is_target_shell(config) {
        let lines = render_shell(&mr);
        Ok(UseOutput::Shell(lines))
    } else {
        let contents = render_file(&mr);
        Ok(UseOutput::File { path: config.target.clone(), contents })
    }
}

} // verus!
