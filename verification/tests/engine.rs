use nvy::config::CfgError;
use nvy::config::Config;
use nvy::config::Profile;
use nvy::config::ProfileEntry;
use nvy::env_var::EnvVar;
use nvy::merge::decode_active_profiles;
use nvy::merge::encode_active_profiles;
use nvy::merge::get_current_profile_vars;
use nvy::merge::merge;
use nvy::merge::SourceFile;
use nvy::parse::parse_env_line;
use nvy::render::render_file;
use nvy::render::run_use;
use nvy::render::UseOutput;

fn entry(name: &str, path: &str) -> ProfileEntry {
    ProfileEntry { name: name.to_string(), paths: vec![Profile { path: path.to_string() }] }
}

fn shell_config(entries: Vec<ProfileEntry>) -> Config {
    Config { target: "sh".to_string(), current_profiles: Vec::new(), profiles: entries }
}

fn file(path: &str, contents: &str) -> SourceFile {
    SourceFile { path: path.to_string(), contents: Some(contents.to_string()) }
}

#[test]
fn test_parse_env_line_skips_blanks_comments_and_plain_text() {
    let lines = parse_env_line("# comment\n\n  \nAPP=1\nnot a pair\nDB = postgres \n");
    assert_eq!(lines.len(), 2);
    assert_eq!(lines[0].line_index, 3);
    assert_eq!(lines[0].key, "APP");
    assert_eq!(lines[0].value, "1");
    assert_eq!(lines[1].line_index, 5);
    assert_eq!(lines[1].key, "DB");
    assert_eq!(lines[1].value, "postgres");
}

#[test]
fn test_parse_env_line_splits_on_first_equals_only() {
    let lines = parse_env_line("URL=http://host?a=b");
    assert_eq!(lines.len(), 1);
    assert_eq!(lines[0].key, "URL");
    assert_eq!(lines[0].value, "http://host?a=b");
}

#[test]
fn test_parse_env_line_keeps_empty_value() {
    let lines = parse_env_line("EMPTY=");
    assert_eq!(lines.len(), 1);
    assert_eq!(lines[0].key, "EMPTY");
    assert_eq!(lines[0].value, "");
}

#[test]
fn test_env_var_is_valid_accepts_alnum_and_underscore() {
    // every character an ASCII letter, digit or underscore is accepted
    let good = EnvVar::new("Abc_09".to_string(), Some("x".to_string()), "p".to_string());
    assert!(good.is_valid());
    let empty = EnvVar::new(String::new(), Some("x".to_string()), "p".to_string());
    assert!(empty.is_valid());
    // any other character is refused
    for key in ["INVALID-VAR", "INVALID@VAR", "A B", "Ä", "x.y"] {
        let bad = EnvVar::new(key.to_string(), Some("x".to_string()), "p".to_string());
        assert!(!bad.is_valid());
    }
}

#[test]
fn test_env_var_rendering() {
    let v = EnvVar::new("APP".to_string(), Some("1".to_string()), "prod".to_string());
    assert_eq!(v.to_shell_command(), "export APP='1'");
    assert_eq!(v.to_env_file_line(), Some("APP=1".to_string()));
    let u = EnvVar::new("APP".to_string(), None, String::new());
    assert_eq!(u.to_shell_command(), "unset APP");
    assert_eq!(u.to_env_file_line(), None);
}

#[test]
fn test_sentinel_encoding_round_trip() {
    let names = vec!["base".to_string(), "override".to_string()];
    let encoded = encode_active_profiles(&names);
    assert_eq!(encoded, "base,override");
    let decoded = decode_active_profiles(&encoded);
    assert_eq!(decoded, names);
    assert_eq!(decode_active_profiles("solo"), vec!["solo".to_string()]);
}

#[test]
fn test_current_vars_unions_profiles_and_skips_broken_ones() {
    let config = shell_config(vec![
        entry("default", ".env"),
        entry("gone", ".env.gone"),
        entry("prod", ".env.prod"),
    ]);
    let files = vec![
        file(".env", "APP_ENV=default\nAPI_KEY=123"),
        file(".env.prod", "APP_ENV=production\nINVALID-ONE=1"),
    ];
    let sentinel = Some("default,gone,missing,prod".to_string());
    let vars = get_current_profile_vars(&config, &sentinel, &files);
    assert_eq!(vars, vec!["APP_ENV".to_string(), "API_KEY".to_string()]);
}

#[test]
fn test_merge_precedence_last_profile_wins() {
    let config = shell_config(vec![entry("base", ".env.base"), entry("override", ".env.override")]);
    let files = vec![
        file(".env.base", "SHARED=base\nBASE_ONLY=value"),
        file(".env.override", "SHARED=override\nOVERRIDE_ONLY=value"),
    ];
    let requested = vec!["base".to_string(), "override".to_string()];
    let mr = merge(&config, &requested, &None, &files).unwrap();
    assert_eq!(mr.groups.len(), 2);
    assert_eq!(mr.groups[0].name, "base");
    assert_eq!(mr.groups[0].vars.len(), 1);
    assert_eq!(mr.groups[0].vars[0].key, "BASE_ONLY");
    assert_eq!(mr.groups[1].name, "override");
    assert_eq!(mr.groups[1].vars.len(), 2);
    assert_eq!(mr.groups[1].vars[0].key, "SHARED");
    assert_eq!(mr.groups[1].vars[0].value, Some("override".to_string()));
    assert_eq!(mr.groups[1].vars[0].source_profile, "override");
}

#[test]
fn test_merge_last_line_wins_within_one_file() {
    let config = shell_config(vec![entry("p", ".env.p")]);
    let files = vec![file(".env.p", "K=first\nK=second")];
    let mr = merge(&config, &vec!["p".to_string()], &None, &files).unwrap();
    assert_eq!(mr.groups[0].vars.len(), 1);
    assert_eq!(mr.groups[0].vars[0].value, Some("second".to_string()));
}

#[test]
fn test_merge_unset_is_current_minus_export() {
    // tracker reports {X, Y}; the new selection exports only Y: unset is exactly {X}
    let config = shell_config(vec![entry("old", ".env.old"), entry("new", ".env.new")]);
    let files = vec![file(".env.old", "X=1\nY=2"), file(".env.new", "Y=3")];
    let sentinel = Some("old".to_string());
    let mr = merge(&config, &vec!["new".to_string()], &sentinel, &files).unwrap();
    assert_eq!(mr.unset.len(), 1);
    assert_eq!(mr.unset[0].key, "X");
    assert_eq!(mr.unset[0].value, None);
}

#[test]
fn test_run_use_shell_fresh_activation() {
    // no sentinel: nothing to unset, one export group, then the sentinel line
    let config = shell_config(vec![entry("default", ".env"), entry("prod", ".env.prod")]);
    let files = vec![file(".env", "APP=1"), file(".env.prod", "APP=2")];
    let out = run_use(&config, &vec!["prod".to_string()], &None, &files).unwrap();
    match out {
        UseOutput::Shell(lines) => {
            assert_eq!(
                lines,
                vec![
                    "# prod".to_string(),
                    "export APP='2'".to_string(),
                    String::new(),
                    "export NV_CURRENT_PROFILE='prod'".to_string(),
                ]
            );
        },
        UseOutput::File { .. } => panic!("shell target must render shell lines"),
    }
}

#[test]
fn test_run_use_unsets_stale_variable_before_exports() {
    let config = shell_config(vec![entry("default", ".env"), entry("prod", ".env.prod")]);
    let files = vec![file(".env", "API_KEY=1"), file(".env.prod", "APP=2")];
    let sentinel = Some("default".to_string());
    let out = run_use(&config, &vec!["prod".to_string()], &sentinel, &files).unwrap();
    match out {
        UseOutput::Shell(lines) => {
            assert_eq!(
                lines,
                vec![
                    "unset API_KEY".to_string(),
                    "# prod".to_string(),
                    "export APP='2'".to_string(),
                    String::new(),
                    "export NV_CURRENT_PROFILE='prod'".to_string(),
                ]
            );
        },
        UseOutput::File { .. } => panic!("shell target must render shell lines"),
    }
}

#[test]
fn test_run_use_shared_key_rendered_once_under_later_profile() {
    let config = shell_config(vec![entry("base", ".env.base"), entry("override", ".env.override")]);
    let files = vec![
        file(".env.base", "SHARED=base\nBASE_ONLY=value"),
        file(".env.override", "SHARED=override\nOVERRIDE_ONLY=value"),
    ];
    let requested = vec!["base".to_string(), "override".to_string()];
    let out = run_use(&config, &requested, &None, &files).unwrap();
    match out {
        UseOutput::Shell(lines) => {
            let shared: Vec<&String> =
                lines.iter().filter(|l| l.contains("SHARED")).collect();
            assert_eq!(shared, vec!["export SHARED='override'"]);
            assert_eq!(
                lines,
                vec![
                    "# base".to_string(),
                    "export BASE_ONLY='value'".to_string(),
                    String::new(),
                    "# override".to_string(),
                    "export SHARED='override'".to_string(),
                    "export OVERRIDE_ONLY='value'".to_string(),
                    String::new(),
                    "export NV_CURRENT_PROFILE='base,override'".to_string(),
                ]
            );
        },
        UseOutput::File { .. } => panic!("shell target must render shell lines"),
    }
}

#[test]
fn test_run_use_missing_profile_fails_with_its_name() {
    let config = shell_config(vec![entry("default", ".env")]);
    let files = vec![file(".env", "APP=1")];
    let r = run_use(&config, &vec!["nonexistent".to_string()], &None, &files);
    match r {
        Err(e) => {
            let msg = e.message();
            assert!(msg.contains("nonexistent"));
            assert_eq!(msg, "Profile nonexistent does not exist in the nvy.yaml file.");
        },
        Ok(_) => panic!("a missing profile must abort the merge"),
    }
}

#[test]
fn test_run_use_missing_file_fails_before_any_output() {
    let config = shell_config(vec![entry("prod", ".env.prod")]);
    let files: Vec<SourceFile> = Vec::new();
    let r = run_use(&config, &vec!["prod".to_string()], &None, &files);
    match r {
        Err(CfgError::ProfileFileMissing { name, path }) => {
            assert_eq!(name, "prod");
            assert_eq!(path, ".env.prod");
        },
        _ => panic!("a missing file must abort the merge"),
    }
}

#[test]
fn test_run_use_file_mode_writes_grouped_flat_file() {
    let mut config = shell_config(vec![
        entry("base", ".env.base"),
        entry("override", ".env.override"),
    ]);
    config.target = ".env.target".to_string();
    let files = vec![
        file(".env.base", "SHARED=base\nBASE_ONLY=value"),
        file(".env.override", "SHARED=override\nOVERRIDE_ONLY=value"),
    ];
    let requested = vec!["base".to_string(), "override".to_string()];
    let out = run_use(&config, &requested, &None, &files).unwrap();
    match out {
        UseOutput::File { path, contents } => {
            assert_eq!(path, ".env.target");
            assert_eq!(
                contents,
                "# base\nBASE_ONLY=value\n\n# override\nSHARED=override\nOVERRIDE_ONLY=value\n"
            );
        },
        UseOutput::Shell(_) => panic!("file target must render file contents"),
    }
}

#[test]
fn test_run_use_empty_profile_still_records_sentinel() {
    let config = shell_config(vec![entry("empty", ".env.empty")]);
    let files = vec![file(".env.empty", "")];
    let out = run_use(&config, &vec!["empty".to_string()], &None, &files).unwrap();
    match out {
        UseOutput::Shell(lines) => {
            assert_eq!(lines, vec!["export NV_CURRENT_PROFILE='empty'".to_string()]);
        },
        UseOutput::File { .. } => panic!("shell target must render shell lines"),
    }
}

#[test]
fn test_run_use_drops_invalid_keys_silently() {
    let config = shell_config(vec![entry("test", ".env.test")]);
    let files = vec![file(".env.test", "VALID_VAR=123\nINVALID-VAR=456\nANOTHER_VALID=789\nINVALID@VAR=abc")];
    let out = run_use(&config, &vec!["test".to_string()], &None, &files).unwrap();
    match out {
        UseOutput::Shell(lines) => {
            assert!(lines.contains(&"export VALID_VAR='123'".to_string()));
            assert!(lines.contains(&"export ANOTHER_VALID='789'".to_string()));
            assert!(!lines.iter().any(|l| l.contains("INVALID")));
        },
        UseOutput::File { .. } => panic!("shell target must render shell lines"),
    }
}

#[test]
fn test_file_render_round_trip_reparses_to_exports() {
    // parsing the rendered flat file yields exactly the exported keys and values
    let config = shell_config(vec![entry("base", ".env.base"), entry("override", ".env.override")]);
    let files = vec![
        file(".env.base", "SHARED=base\nBASE_ONLY=a b c\nBAD-KEY=dropped"),
        file(".env.override", "SHARED=override\nEMPTY="),
    ];
    let requested = vec!["base".to_string(), "override".to_string()];
    let mr = merge(&config, &requested, &None, &files).unwrap();
    let rendered = render_file(&mr);
    let reparsed = parse_env_line(&rendered);
    let mut expected: Vec<(String, String)> = Vec::new();
    for g in &mr.groups {
        for v in &g.vars {
            expected.push((v.key.clone(), v.value.clone().unwrap()));
        }
    }
    let got: Vec<(String, String)> =
        reparsed.into_iter().map(|l| (l.key, l.value)).collect();
    assert_eq!(got, expected);
    assert_eq!(
        got,
        vec![
            ("BASE_ONLY".to_string(), "a b c".to_string()),
            ("SHARED".to_string(), "override".to_string()),
            ("EMPTY".to_string(), "".to_string()),
        ]
    );
}
