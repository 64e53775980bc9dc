//! The merge engine's guarantees, stated on their own: precedence of
//! later profiles, exactness of the unset diff, and the flat-file
//! round trip.

use vstd::prelude::*;

use crate::config::Config;
use crate::env_var::env_file_line_of;
use crate::env_var::EnvVarV;
use crate::merge::groups_of;
use crate::merge::group_vars;
use crate::merge::last_valid_line;
use crate::merge::lemma_last_valid_line_at;
use crate::merge::lemma_merged_lookup_at;
use crate::merge::merged_lookup;
use crate::merge::merge_result_v;
use crate::merge::profile_lines;
use crate::merge::survives;
use crate::merge::unset_vars_v;
use crate::merge::var_of;
use crate::merge::GroupV;
use crate::merge::SourceFile;
use crate::parse::line_clean;
use crate::parse::lemma_parse_env_clean;
use crate::parse::no_char;
use crate::parse::parse_env;
use crate::parse::parse_segment;
use crate::parse::parse_segment_seq;
use crate::parse::LineV;
use crate::render::group_file_block;
use crate::render::group_header;
use crate::render::groups_file_lines;
use crate::render::render_file_v;
use crate::render::unlines_nl;
use crate::render::vars_file_lines;
use crate::text::find_char;
use crate::text::is_key_char;
use crate::text::is_space;
use crate::text::is_valid_key;
use crate::text::lemma_find_char_at;
use crate::text::lemma_find_char_none;
use crate::text::lemma_trim_head;
use crate::text::lemma_trim_of_clean;
use crate::text::trim;

verus! {

/// A surviving record stays among its group's exported variables.
proof fn lemma_group_vars_contains(
    ls: Seq<LineV>,
    c: Config,
    files: Seq<SourceFile>,
    names: Seq<Seq<char>>,
    i: int,
    upto: int,
    j: int,
)
    requires
        0 <= j < upto <= ls.len(),
        survives(c, files, names, i, ls, j),
    ensures
        group_vars(ls, c, files, names, i, upto).contains(var_of(ls[j], names[i])),
    decreases upto,
{
    let r = group_vars(ls, c, files, names, i, upto - 1);
    if j == upto - 1 {
        let v = group_vars(ls, c, files, names, i, upto);
        assert(v == r.push(var_of(ls[j], names[i])));
        assert(v[v.len() - 1] == var_of(ls[j], names[i]));
    } else {
        lemma_group_vars_contains(ls, c, files, names, i, upto - 1, j);
        let t = choose|t: int| 0 <= t < r.len() && r[t] == var_of(ls[j], names[i]);
        let v = group_vars(ls, c, files, names, i, upto);
        assert(v[t] == var_of(ls[j], names[i]));
    }
}

/// Precedence: when several requested profiles define the same key,
/// the merge exports the value of the last line of the last requested
/// profile that defines it, tagged with that profile's name — both in
/// the lookup and among the rendered groups.
pub proof fn lemma_precedence(
    c: Config,
    files: Seq<SourceFile>,
    names: Seq<Seq<char>>,
    i: int,
    j: int,
)
    requires
        0 <= i < names.len(),
        0 <= j < profile_lines(c, files, names[i]).len(),
        is_valid_key(profile_lines(c, files, names[i])[j].key),
        forall|m: int|
            j < m < profile_lines(c, files, names[i]).len() ==> profile_lines(c, files, names[i])[m].key
                != profile_lines(c, files, names[i])[j].key,
        forall|p: int|
            i < p < names.len() ==> last_valid_line(
                profile_lines(c, files, #[trigger] names[p]),
                profile_lines(c, files, names[i])[j].key,
            ) is None,
    ensures
        merged_lookup(c, files, names, profile_lines(c, files, names[i])[j].key) == Some(
            (profile_lines(c, files, names[i])[j].value, names[i]),
        ),
        groups_of(c, files, names)[i].vars.contains(
            var_of(profile_lines(c, files, names[i])[j], names[i]),
        ),
{
    let ls = profile_lines(c, files, names[i]);
    let k = ls[j].key;
    lemma_last_valid_line_at(ls, k, j);
    lemma_merged_lookup_at(c, files, names, k, i);
    assert(survives(c, files, names, i, ls, j));
    lemma_group_vars_contains(ls, c, files, names, i, ls.len() as int, j);
}

/// Whether some unset instruction bears the key `k`.
pub open spec fn unset_has_key(us: Seq<EnvVarV>, k: Seq<char>) -> bool {
    exists|t: int| 0 <= t < us.len() && #[trigger] us[t].key == k
}

/// Diff correctness: a key is unset exactly when it is currently
/// exported and the new selection does not re-export it; and every
/// unset instruction is an unset, not an export.
pub proof fn lemma_unset_diff(
    keys: Seq<Seq<char>>,
    c: Config,
    files: Seq<SourceFile>,
    names: Seq<Seq<char>>,
    k: Seq<char>,
)
    ensures
        unset_has_key(unset_vars_v(keys, c, files, names), k) <==> (keys.contains(k)
            && merged_lookup(c, files, names, k) is None),
        forall|t: int|
            0 <= t < unset_vars_v(keys, c, files, names).len() ==> (#[trigger] unset_vars_v(
                keys,
                c,
                files,
                names,
            )[t]).value is None,
    decreases keys.len(),
{
    let us = unset_vars_v(keys, c, files, names);
    if keys.len() == 0 {
        assert(!keys.contains(k));
    } else {
        lemma_unset_diff(keys.drop_last(), c, files, names, k);
        let r = unset_vars_v(keys.drop_last(), c, files, names);
        if merged_lookup(c, files, names, keys.last()) is None {
            assert(us == r.push(
                EnvVarV { key: keys.last(), value: None, source_profile: ""@ },
            ));
        }
        if unset_has_key(us, k) {
            let t = choose|t: int| 0 <= t < us.len() && #[trigger] us[t].key == k;
            if t < r.len() {
                assert(unset_has_key(r, k));
                assert(keys.drop_last().contains(k));
                let w = choose|w: int| 0 <= w < keys.drop_last().len() && keys.drop_last()[w] == k;
                assert(keys[w] == k);
            } else {
                assert(us[t].key == keys.last());
                assert(keys[keys.len() - 1] == k);
            }
        }
        if keys.contains(k) && merged_lookup(c, files, names, k) is None {
            let w = choose|w: int| 0 <= w < keys.len() && keys[w] == k;
            if w < keys.len() - 1 {
                assert(keys.drop_last()[w] == k);
                assert(keys.drop_last().contains(k));
                assert(unset_has_key(r, k));
                let t = choose|t: int| 0 <= t < r.len() && #[trigger] r[t].key == k;
                assert(us[t].key == k);
            } else {
                assert(keys.last() == k);
                assert(us[us.len() - 1].key == k);
            }
        }
    }
}


/// None of the given lines contains a line break.
pub open spec fn lines_no_nl(ls: Seq<Seq<char>>) -> bool {
    forall|i: int| 0 <= i < ls.len() ==> no_char(#[trigger] ls[i], '\n')
}

/// What parsing the given lines one by one yields, the first at line
/// number `idx`.
pub open spec fn flat_parses(ls: Seq<Seq<char>>, idx: int) -> Seq<LineV>
    decreases ls.len(),
{
    if ls.len() == 0 {
        Seq::empty()
    } else {
        parse_segment_seq(ls.first(), idx) + flat_parses(ls.drop_first(), idx + 1)
    }
}

/// Joined lines decompose from the front.
proof fn lemma_unlines_head(ls: Seq<Seq<char>>)
    requires
        ls.len() > 0,
    ensures
        unlines_nl(ls) =~= ls.first() + seq!['\n'] + unlines_nl(ls.drop_first()),
    decreases ls.len(),
{
    if ls.len() == 1 {
        assert(unlines_nl(ls.drop_last()) =~= Seq::<char>::empty());
        assert(unlines_nl(ls.drop_first()) =~= Seq::<char>::empty());
    } else {
        let dl = ls.drop_last();
        lemma_unlines_head(dl);
        assert(dl.first() == ls.first());
        assert(dl.drop_first() =~= ls.drop_first().drop_last());
        assert(ls.drop_first().last() == ls.last());
        assert(unlines_nl(ls.drop_first()) =~= unlines_nl(ls.drop_first().drop_last())
            + ls.last() + seq!['\n']);
        assert(unlines_nl(ls) =~= unlines_nl(dl) + ls.last() + seq!['\n']);
    }
}

/// Parsing the joined break-free lines parses them one by one.
proof fn lemma_parse_unlines(ls: Seq<Seq<char>>, idx: int)
    requires
        lines_no_nl(ls),
    ensures
        parse_env(unlines_nl(ls), idx) == flat_parses(ls, idx),
    decreases ls.len(),
{
    if ls.len() == 0 {
        assert(unlines_nl(ls) =~= Seq::<char>::empty());
        lemma_find_char_none(Seq::<char>::empty(), '\n');
        assert(trim(Seq::<char>::empty()) =~= Seq::<char>::empty());
    } else {
        lemma_unlines_head(ls);
        let s = unlines_nl(ls);
        let head = ls.first();
        let rest = unlines_nl(ls.drop_first());
        let i = head.len() as int;
        assert(s[i] == '\n');
        assert(forall|j: int| 0 <= j < i ==> s[j] == head[j]);
        assert(no_char(head, '\n'));
        lemma_find_char_at(s, '\n', i);
        assert(s.take(i) =~= head);
        assert(s.skip(i + 1) =~= rest);
        assert(lines_no_nl(ls.drop_first()));
        lemma_parse_unlines(ls.drop_first(), idx + 1);
        assert(parse_env(s, idx) == parse_segment_seq(head, idx) + flat_parses(
            ls.drop_first(),
            idx + 1,
        ));
    }
}

/// [`flat_parses`] distributes over concatenation.
proof fn lemma_flat_parses_concat(a: Seq<Seq<char>>, b: Seq<Seq<char>>, idx: int)
    ensures
        flat_parses(a + b, idx) == flat_parses(a, idx) + flat_parses(b, idx + a.len()),
    decreases a.len(),
{
    if a.len() == 0 {
        assert(a + b =~= b);
        assert(flat_parses(a, idx) + flat_parses(b, idx) =~= flat_parses(b, idx));
    } else {
        assert((a + b).drop_first() =~= a.drop_first() + b);
        assert((a + b).first() == a.first());
        lemma_flat_parses_concat(a.drop_first(), b, idx + 1);
        assert(flat_parses(a + b, idx) =~= flat_parses(a, idx) + flat_parses(b, idx + a.len()));
    }
}

/// A valid key holds no blank space and none of the marker characters
/// the parser looks for.
proof fn lemma_key_chars_clean(k: Seq<char>)
    requires
        is_valid_key(k),
    ensures
        forall|i: int|
            0 <= i < k.len() ==> !is_space(#[trigger] k[i]) && k[i] != '#' && k[i] != '=',
{
    assert forall|i: int|
        0 <= i < k.len() implies !is_space(#[trigger] k[i]) && k[i] != '#' && k[i] != '=' by {
        assert(is_key_char(k[i]));
    }
}

/// A group header is a comment to the parser.
proof fn lemma_parse_header(name: Seq<char>, idx: int)
    ensures
        parse_segment(group_header(name), idx) is None,
{
    reveal_strlit("# ");
    let seg = group_header(name);
    assert(seg[0] == '#');
    lemma_trim_head(seg);
}

/// A rendered `KEY=value` line parses back to its key and value.
proof fn lemma_parse_kv(k: Seq<char>, v: Seq<char>, idx: int)
    requires
        is_valid_key(k),
        trim(v) == v,
    ensures
        parse_segment(k + "="@ + v, idx) == Some(LineV { line_index: idx, key: k, value: v }),
{
    reveal_strlit("=");
    let seg = k + "="@ + v;
    lemma_key_chars_clean(k);
    assert(seg.len() > 0);
    assert(seg[k.len() as int] == '=');
    // the whole line is already trimmed
    if k.len() > 0 {
        assert(seg[0] == k[0]);
        assert(!is_space(seg[0]));
    } else {
        assert(seg[0] == '=');
        assert(!is_space(seg[0]));
    }
    if v.len() > 0 {
        crate::text::lemma_trim_clean(v);
        assert(seg[seg.len() - 1] == v[v.len() - 1]);
        assert(!is_space(seg[seg.len() - 1]));
    } else {
        assert(seg[seg.len() - 1] == '=');
        assert(!is_space(seg[seg.len() - 1]));
    }
    lemma_trim_of_clean(seg);
    assert(trim(seg) == seg);
    assert(seg[0] != '#');
    // the first `=` sits right after the key
    assert(forall|j: int| 0 <= j < k.len() ==> seg[j] == k[j] && seg[j] != '=');
    lemma_find_char_at(seg, '=', k.len() as int);
    assert(find_char(seg, '=') == k.len());
    assert(seg.take(k.len() as int) =~= k);
    assert(seg.skip(k.len() as int + 1) =~= v);
    lemma_trim_of_clean(k);
    assert(trim(k) == k);
    assert(parse_segment(seg, idx) == Some(LineV { line_index: idx, key: k, value: v }));
}

/// The key/value payload of parsed records, in order.
pub open spec fn parsed_kvs(ls: Seq<LineV>) -> Seq<(Seq<char>, Seq<char>)> {
    Seq::new(ls.len(), |i: int| (ls[i].key, ls[i].value))
}

/// [`parsed_kvs`] distributes over concatenation.
proof fn lemma_parsed_kvs_concat(a: Seq<LineV>, b: Seq<LineV>)
    ensures
        parsed_kvs(a + b) =~= parsed_kvs(a) + parsed_kvs(b),
{
}

/// The key/value payload of exported variables, in order.
pub open spec fn vars_kvs(vars: Seq<EnvVarV>) -> Seq<(Seq<char>, Seq<char>)>
    decreases vars.len(),
{
    if vars.len() == 0 {
        Seq::empty()
    } else {
        let r = vars_kvs(vars.drop_last());
        match vars.last().value {
            Some(val) => r.push((vars.last().key, val)),
            None => r,
        }
    }
}

/// The key/value payload of all groups' exports, in group order.
pub open spec fn group_kvs(gs: Seq<GroupV>) -> Seq<(Seq<char>, Seq<char>)>
    decreases gs.len(),
{
    if gs.len() == 0 {
        Seq::empty()
    } else {
        group_kvs(gs.drop_last()) + vars_kvs(gs.last().vars)
    }
}

/// An exported variable fit for the flat file: a valid key and a
/// value that carries no line break and no blank edges.
pub open spec fn var_file_clean(v: EnvVarV) -> bool {
    &&& is_valid_key(v.key)
    &&& match v.value {
        Some(val) => trim(val) == val && no_char(val, '\n'),
        None => true,
    }
}

/// A merge result fit for the flat file: clean variables and profile
/// names without line breaks.
pub open spec fn groups_file_clean(gs: Seq<GroupV>) -> bool {
    forall|i: int|
        0 <= i < gs.len() ==> no_char(#[trigger] gs[i].name, '\n') && (forall|j: int|
            0 <= j < gs[i].vars.len() ==> var_file_clean(#[trigger] gs[i].vars[j]))
}

/// The rendered lines of clean exports parse back to their payload.
proof fn lemma_vars_lines_parse(vars: Seq<EnvVarV>, idx: int)
    requires
        forall|j: int| 0 <= j < vars.len() ==> var_file_clean(#[trigger] vars[j]),
    ensures
        parsed_kvs(flat_parses(vars_file_lines(vars), idx)) =~= vars_kvs(vars),
        flat_parses(vars_file_lines(vars), idx).len() == vars_kvs(vars).len(),
    decreases vars.len(),
{
    reveal_strlit("=");
    if vars.len() > 0 {
        lemma_vars_lines_parse(vars.drop_last(), idx);
        let r = vars_file_lines(vars.drop_last());
        let v = vars.last();
        match env_file_line_of(v) {
            Some(line) => {
                let val = match v.value {
                    Some(val) => val,
                    None => Seq::empty(),
                };
                assert(vars_file_lines(vars) == r.push(line));
                assert(r.push(line) =~= r + seq![line]);
                lemma_flat_parses_concat(r, seq![line], idx);
                lemma_parse_kv(v.key, val, idx + r.len());
                assert(line == v.key + "="@ + val);
                assert(seq![line].drop_first() =~= Seq::<Seq<char>>::empty());
                assert(flat_parses(Seq::<Seq<char>>::empty(), idx + r.len() as int + 1)
                    =~= Seq::<LineV>::empty());
                assert(flat_parses(seq![line], idx + r.len() as int) =~= parse_segment_seq(
                    line,
                    idx + r.len() as int,
                ));
                let pl = LineV { line_index: idx + r.len() as int, key: v.key, value: val };
                assert(parse_segment_seq(line, idx + r.len() as int) =~= seq![pl]);
                assert(flat_parses(vars_file_lines(vars), idx) =~= flat_parses(r, idx) + seq![pl]);
                lemma_parsed_kvs_concat(flat_parses(r, idx), seq![pl]);
                assert(parsed_kvs(seq![pl]) =~= seq![(v.key, val)]);
                assert(vars_kvs(vars) =~= vars_kvs(vars.drop_last()).push((v.key, val)));
                assert(parsed_kvs(flat_parses(vars_file_lines(vars), idx)) =~= vars_kvs(vars));
            },
            None => {
                assert(vars_file_lines(vars) == r);
            },
        }
    } else {
        assert(parsed_kvs(flat_parses(vars_file_lines(vars), idx)) =~= vars_kvs(vars));
    }
}

/// The rendered block of one clean group parses back to its payload.
proof fn lemma_block_parses(g: GroupV, idx: int)
    requires
        forall|j: int| 0 <= j < g.vars.len() ==> var_file_clean(#[trigger] g.vars[j]),
    ensures
        parsed_kvs(flat_parses(group_file_block(g), idx)) =~= vars_kvs(g.vars),
    decreases g.vars.len(),
{
    let block = group_file_block(g);
    assert(block.first() == group_header(g.name));
    lemma_parse_header(g.name, idx);
    assert(block.drop_first() =~= vars_file_lines(g.vars));
    lemma_vars_lines_parse(g.vars, idx + 1);
    assert(flat_parses(block, idx) =~= flat_parses(vars_file_lines(g.vars), idx + 1));
}

/// A blank line parses to nothing.
proof fn lemma_parse_empty_line(idx: int)
    ensures
        parse_segment(Seq::<char>::empty(), idx) is None,
{
    assert(trim(Seq::<char>::empty()) =~= Seq::<char>::empty());
}

/// The rendered lines of all clean groups parse back to their payload.
proof fn lemma_groups_lines_parse(gs: Seq<GroupV>, idx: int)
    requires
        groups_file_clean(gs),
    ensures
        parsed_kvs(flat_parses(groups_file_lines(gs), idx)) =~= group_kvs(gs),
    decreases gs.len(),
{
    if gs.len() > 0 {
        assert(groups_file_clean(gs.drop_last()));
        lemma_groups_lines_parse(gs.drop_last(), idx);
        let r = groups_file_lines(gs.drop_last());
        let g = gs.last();
        if g.vars.len() == 0 {
            assert(vars_kvs(g.vars) =~= Seq::<(Seq<char>, Seq<char>)>::empty());
            assert(group_kvs(gs) =~= group_kvs(gs.drop_last()));
        } else if r.len() == 0 {
            assert(groups_file_lines(gs) == group_file_block(g));
            lemma_block_parses(g, idx);
            assert(parsed_kvs(flat_parses(group_file_block(g), idx)) =~= vars_kvs(g.vars));
            assert(flat_parses(r, idx) =~= Seq::<LineV>::empty());
            assert(parsed_kvs(flat_parses(r, idx)) =~= Seq::<(Seq<char>, Seq<char>)>::empty());
            assert(group_kvs(gs.drop_last()).len() == 0);
            assert(group_kvs(gs) =~= group_kvs(gs.drop_last()) + vars_kvs(g.vars));
            assert(parsed_kvs(flat_parses(groups_file_lines(gs), idx)) =~= group_kvs(gs));
        } else {
            let blank: Seq<Seq<char>> = seq![Seq::<char>::empty()];
            assert(groups_file_lines(gs) == r + blank + group_file_block(g));
            lemma_flat_parses_concat(r + blank, group_file_block(g), idx);
            lemma_flat_parses_concat(r, blank, idx);
            lemma_parse_empty_line(idx + r.len());
            assert(blank.drop_first() =~= Seq::<Seq<char>>::empty());
            assert(flat_parses(Seq::<Seq<char>>::empty(), idx + r.len() as int + 1)
                =~= Seq::<LineV>::empty());
            assert(flat_parses(blank, idx + r.len() as int) =~= Seq::<LineV>::empty());
            assert(flat_parses(r + blank, idx) =~= flat_parses(r, idx));
            lemma_block_parses(g, idx + (r + blank).len() as int);
            let fa = flat_parses(r, idx);
            let fb = flat_parses(group_file_block(g), idx + (r + blank).len() as int);
            assert(flat_parses(groups_file_lines(gs), idx) =~= flat_parses(r + blank, idx)
                + flat_parses(group_file_block(g), idx + (r + blank).len() as int));
            assert(flat_parses(groups_file_lines(gs), idx) =~= fa + fb);
            lemma_parsed_kvs_concat(fa, fb);
            assert(parsed_kvs(flat_parses(groups_file_lines(gs), idx)) =~= parsed_kvs(fa)
                + parsed_kvs(fb));
            assert(group_kvs(gs) =~= group_kvs(gs.drop_last()) + vars_kvs(g.vars));
            assert(parsed_kvs(flat_parses(groups_file_lines(gs), idx)) =~= group_kvs(gs));
        }
    }
}

/// Rendered lines of clean groups carry no line break.
proof fn lemma_groups_file_lines_no_nl(gs: Seq<GroupV>)
    requires
        groups_file_clean(gs),
    ensures
        lines_no_nl(groups_file_lines(gs)),
    decreases gs.len(),
{
    reveal_strlit("# ");
    reveal_strlit("=");
    if gs.len() > 0 {
        assert(groups_file_clean(gs.drop_last()));
        lemma_groups_file_lines_no_nl(gs.drop_last());
        let g = gs.last();
        assert(no_char(group_header(g.name), '\n'));
        lemma_vars_file_lines_no_nl(g.vars);
        let all = groups_file_lines(gs);
        let r = groups_file_lines(gs.drop_last());
        if g.vars.len() > 0 {
            assert forall|i: int| 0 <= i < all.len() implies no_char(#[trigger] all[i], '\n') by {
                if r.len() == 0 {
                    assert(all[i] == group_file_block(g)[i]);
                    if i == 0 {
                        assert(all[i] == group_header(g.name));
                    } else {
                        assert(all[i] == vars_file_lines(g.vars)[i - 1]);
                    }
                } else {
                    if i < r.len() {
                        assert(all[i] == r[i]);
                    } else if i == r.len() {
                        assert(all[i] =~= Seq::<char>::empty());
                    } else {
                        assert(all[i] == group_file_block(g)[i - r.len() - 1]);
                        if i - r.len() - 1 == 0 {
                            assert(all[i] == group_header(g.name));
                        } else {
                            assert(all[i] == vars_file_lines(g.vars)[i - r.len() - 2]);
                        }
                    }
                }
            }
        }
    }
}

proof fn lemma_vars_file_lines_no_nl(vars: Seq<EnvVarV>)
    requires
        forall|j: int| 0 <= j < vars.len() ==> var_file_clean(#[trigger] vars[j]),
    ensures
        lines_no_nl(vars_file_lines(vars)),
        vars_file_lines(vars).len() <= vars.len(),
    decreases vars.len(),
{
    reveal_strlit("=");
    if vars.len() > 0 {
        lemma_vars_file_lines_no_nl(vars.drop_last());
        let r = vars_file_lines(vars.drop_last());
        let v = vars.last();
        match env_file_line_of(v) {
            Some(line) => {
                lemma_key_chars_clean(v.key);
                assert(no_char(line, '\n'));
                assert forall|i: int| 0 <= i < vars_file_lines(vars).len() implies no_char(
                    #[trigger] vars_file_lines(vars)[i],
                    '\n',
                ) by {
                    if i < r.len() {
                        assert(vars_file_lines(vars)[i] == r[i]);
                    } else {
                        assert(vars_file_lines(vars)[i] == line);
                    }
                }
            },
            None => {},
        }
    }
}

/// Round trip: parsing the rendered flat-file output of a merge yields
/// exactly the exported keys with their values, in rendered order.
pub proof fn lemma_render_file_round_trip(mr: crate::merge::MergeResultV)
    requires
        groups_file_clean(mr.groups),
    ensures
        parsed_kvs(parse_env(render_file_v(mr), 0)) =~= group_kvs(mr.groups),
{
    let ls = groups_file_lines(mr.groups);
    if ls.len() == 0 {
        lemma_groups_lines_parse(mr.groups, 0);
        let s = render_file_v(mr);
        assert(s =~= seq!['\n']);
        lemma_find_char_at(s, '\n', 0);
        assert(s.take(0) =~= Seq::<char>::empty());
        assert(s.skip(1) =~= Seq::<char>::empty());
        lemma_parse_empty_line(0);
        lemma_find_char_none(Seq::<char>::empty(), '\n');
        lemma_parse_empty_line(1);
        assert(parse_segment_seq(Seq::<char>::empty(), 0) =~= Seq::<LineV>::empty());
        assert(parse_segment_seq(Seq::<char>::empty(), 1) =~= Seq::<LineV>::empty());
        assert(parse_env(Seq::<char>::empty(), 1) =~= Seq::<LineV>::empty());
        assert(parse_env(s, 0) =~= parse_segment_seq(s.take(0), 0) + parse_env(s.skip(1), 1));
        assert(parse_env(s, 0) =~= Seq::<LineV>::empty());
        assert(flat_parses(ls, 0) =~= Seq::<LineV>::empty());
        assert(group_kvs(mr.groups) =~= parsed_kvs(flat_parses(ls, 0)));
    } else {
        lemma_groups_file_lines_no_nl(mr.groups);
        lemma_parse_unlines(ls, 0);
        lemma_groups_lines_parse(mr.groups, 0);
    }
}

/// The groups a merge computes are fit for the flat file, provided the
/// requested profile names carry no line break.
pub proof fn lemma_merge_groups_clean(c: Config, files: Seq<SourceFile>, names: Seq<Seq<char>>)
    requires
        forall|i: int| 0 <= i < names.len() ==> no_char(#[trigger] names[i], '\n'),
    ensures
        groups_file_clean(groups_of(c, files, names)),
{
    let gs = groups_of(c, files, names);
    assert forall|i: int|
        0 <= i < gs.len() implies no_char(#[trigger] gs[i].name, '\n') && (forall|j: int|
        0 <= j < gs[i].vars.len() ==> var_file_clean(#[trigger] gs[i].vars[j])) by {
        let ls = profile_lines(c, files, names[i]);
        match crate::merge::file_contents(files, crate::config::resolved_path(c, names[i])) {
            Some(t) => {
                lemma_parse_env_clean(t, 0);
            },
            None => {},
        }
        lemma_group_vars_clean(ls, c, files, names, i, ls.len() as int);
    }
}

/// Exported variables built from clean records are clean.
proof fn lemma_group_vars_clean(
    ls: Seq<LineV>,
    c: Config,
    files: Seq<SourceFile>,
    names: Seq<Seq<char>>,
    i: int,
    upto: int,
)
    requires
        upto <= ls.len(),
        forall|q: int| 0 <= q < ls.len() ==> line_clean(#[trigger] ls[q]),
    ensures
        forall|j: int|
            0 <= j < group_vars(ls, c, files, names, i, upto).len() ==> var_file_clean(
                #[trigger] group_vars(ls, c, files, names, i, upto)[j],
            ),
    decreases upto,
{
    if upto > 0 {
        lemma_group_vars_clean(ls, c, files, names, i, upto - 1);
        let r = group_vars(ls, c, files, names, i, upto - 1);
        let all = group_vars(ls, c, files, names, i, upto);
        if survives(c, files, names, i, ls, upto - 1) {
            assert forall|j: int| 0 <= j < all.len() implies var_file_clean(
                #[trigger] all[j],
            ) by {
                if j < r.len() {
                    assert(all[j] == r[j]);
                } else {
                    assert(all[j] == var_of(ls[upto - 1], names[i]));
                    assert(line_clean(ls[upto - 1]));
                }
            }
        }
    }
}

/// Round trip for a whole merge: the flat-file rendering of
/// [`merge_result_v`] re-parses to exactly its exported keys and
/// values, in rendered order.
pub proof fn lemma_merge_file_round_trip(
    c: Config,
    files: Seq<SourceFile>,
    sentinel: Option<Seq<char>>,
    names: Seq<Seq<char>>,
)
    requires
        forall|i: int| 0 <= i < names.len() ==> no_char(#[trigger] names[i], '\n'),
    ensures
        parsed_kvs(parse_env(render_file_v(merge_result_v(c, files, sentinel, names)), 0))
            =~= group_kvs(groups_of(c, files, names)),
{
    lemma_merge_groups_clean(c, files, names);
    lemma_render_file_round_trip(merge_result_v(c, files, sentinel, names));
}



/// Every exported variable of a group arises from a surviving record.
proof fn lemma_group_vars_witness(
    ls: Seq<LineV>,
    c: Config,
    files: Seq<SourceFile>,
    names: Seq<Seq<char>>,
    i: int,
    upto: int,
    t: int,
)
    requires
        upto <= ls.len(),
        0 <= t < group_vars(ls, c, files, names, i, upto).len(),
    ensures
        exists|j: int|
            0 <= j < upto && survives(c, files, names, i, ls, j) && #[trigger] var_of(
                ls[j],
                names[i],
            ) == group_vars(ls, c, files, names, i, upto)[t],
    decreases upto,
{
    let r = group_vars(ls, c, files, names, i, upto - 1);
    if upto > 0 {
        if survives(c, files, names, i, ls, upto - 1) && t == r.len() {
            assert(var_of(ls[upto - 1], names[i]) == group_vars(ls, c, files, names, i, upto)[t]);
        } else {
            lemma_group_vars_witness(ls, c, files, names, i, upto - 1, t);
            let j = choose|j: int|
                0 <= j < upto - 1 && survives(c, files, names, i, ls, j) && #[trigger] var_of(
                    ls[j],
                    names[i],
                ) == r[t];
            assert(var_of(ls[j], names[i]) == group_vars(ls, c, files, names, i, upto)[t]);
        }
    }
}

/// Within one group no key is exported twice: a later line with the
/// same key would have kept the earlier one from surviving.
pub proof fn lemma_group_keys_unique(
    ls: Seq<LineV>,
    c: Config,
    files: Seq<SourceFile>,
    names: Seq<Seq<char>>,
    i: int,
    upto: int,
)
    requires
        upto <= ls.len(),
    ensures
        forall|t1: int, t2: int|
            0 <= t1 < t2 < group_vars(ls, c, files, names, i, upto).len()
                ==> #[trigger] group_vars(ls, c, files, names, i, upto)[t1].key
                != #[trigger] group_vars(ls, c, files, names, i, upto)[t2].key,
    decreases upto,
{
    if upto > 0 {
        lemma_group_keys_unique(ls, c, files, names, i, upto - 1);
        let r = group_vars(ls, c, files, names, i, upto - 1);
        let all = group_vars(ls, c, files, names, i, upto);
        if survives(c, files, names, i, ls, upto - 1) {
            assert forall|t1: int, t2: int|
                0 <= t1 < t2 < all.len() implies #[trigger] all[t1].key
                != #[trigger] all[t2].key by {
                if t2 == r.len() {
                    lemma_group_vars_witness(ls, c, files, names, i, upto - 1, t1);
                    let j = choose|j: int|
                        0 <= j < upto - 1 && survives(c, files, names, i, ls, j)
                            && #[trigger] var_of(ls[j], names[i]) == r[t1];
                    assert(all[t2] == var_of(ls[upto - 1], names[i]));
                    // a later line with the same key would contradict
                    // that the earlier record survives
                    assert(ls[upto - 1].key != ls[j].key);
                    assert(all[t1] == r[t1]);
                } else {
                    assert(all[t1] == r[t1]);
                    assert(all[t2] == r[t2]);
                }
            }
        }
    }
}

/// Across two groups no key is exported twice: a key of the earlier
/// group survives only because no later profile defines it.
pub proof fn lemma_cross_group_keys_unique(
    c: Config,
    files: Seq<SourceFile>,
    names: Seq<Seq<char>>,
    i1: int,
    t1: int,
    i2: int,
    t2: int,
)
    requires
        0 <= i1 < i2 < names.len(),
        0 <= t1 < groups_of(c, files, names)[i1].vars.len(),
        0 <= t2 < groups_of(c, files, names)[i2].vars.len(),
    ensures
        groups_of(c, files, names)[i1].vars[t1].key != groups_of(c, files, names)[i2].vars[t2].key,
{
    let ls1 = profile_lines(c, files, names[i1]);
    let ls2 = profile_lines(c, files, names[i2]);
    lemma_group_vars_witness(ls1, c, files, names, i1, ls1.len() as int, t1);
    lemma_group_vars_witness(ls2, c, files, names, i2, ls2.len() as int, t2);
    let j1 = choose|j: int|
        0 <= j < ls1.len() && survives(c, files, names, i1, ls1, j) && #[trigger] var_of(
            ls1[j],
            names[i1],
        ) == groups_of(c, files, names)[i1].vars[t1];
    let j2 = choose|j: int|
        0 <= j < ls2.len() && survives(c, files, names, i2, ls2, j) && #[trigger] var_of(
            ls2[j],
            names[i2],
        ) == groups_of(c, files, names)[i2].vars[t2];
    if ls1[j1].key == ls2[j2].key {
        // profile i2 defines the key, so it cannot survive in i1
        crate::merge::lemma_last_of_existing(ls2, ls2[j2].key);
        assert(last_valid_line(ls2, ls1[j1].key) is Some);
        assert(!survives(c, files, names, i1, ls1, j1));
    }
}

/// A key the merge exports is never also unset.
pub proof fn lemma_no_key_unset_and_exported(
    keys: Seq<Seq<char>>,
    c: Config,
    files: Seq<SourceFile>,
    names: Seq<Seq<char>>,
    i: int,
    t: int,
)
    requires
        0 <= i < names.len(),
        0 <= t < groups_of(c, files, names)[i].vars.len(),
    ensures
        !unset_has_key(
            unset_vars_v(keys, c, files, names),
            groups_of(c, files, names)[i].vars[t].key,
        ),
{
    let ls = profile_lines(c, files, names[i]);
    lemma_group_vars_witness(ls, c, files, names, i, ls.len() as int, t);
    let j = choose|j: int|
        0 <= j < ls.len() && survives(c, files, names, i, ls, j) && #[trigger] var_of(
            ls[j],
            names[i],
        ) == groups_of(c, files, names)[i].vars[t];
    crate::merge::lemma_last_of_existing(ls, ls[j].key);
    crate::merge::lemma_merged_lookup_some_of_profile(c, files, names, ls[j].key, i);
    lemma_unset_diff(keys, c, files, names, ls[j].key);
}


} // verus!
