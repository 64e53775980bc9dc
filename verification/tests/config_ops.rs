use nvy::config::get_profile_path;
use nvy::config::is_target_shell;
use nvy::config::ordered_map;
use nvy::config::profiles_listing;
use nvy::config::run_export;
use nvy::config::run_profiles_remove;
use nvy::config::run_profiles_set;
use nvy::config::run_target_set;
use nvy::config::CfgError;
use nvy::config::Config;
use nvy::config::Profile;
use nvy::config::ProfileEntry;

fn entry(name: &str, path: &str) -> ProfileEntry {
    ProfileEntry { name: name.to_string(), paths: vec![Profile { path: path.to_string() }] }
}

fn config(target: &str, entries: Vec<ProfileEntry>) -> Config {
    Config { target: target.to_string(), current_profiles: Vec::new(), profiles: entries }
}

#[test]
fn test_is_target_shell() {
    assert!(is_target_shell(&config("sh", Vec::new())));
    assert!(!is_target_shell(&config(".env.nvy", Vec::new())));
}

#[test]
fn test_get_profile_path_happy_path() {
    let c = config("sh", vec![entry("default", ".env"), entry("prod", ".env.prod")]);
    assert_eq!(get_profile_path(&c, &"prod".to_string()).unwrap(), ".env.prod");
}

#[test]
fn test_get_profile_path_missing_profile() {
    let c = config("sh", vec![entry("default", ".env")]);
    match get_profile_path(&c, &"prod".to_string()) {
        Err(CfgError::ProfileNotFound { name }) => assert_eq!(name, "prod"),
        _ => panic!("an unknown profile must be reported"),
    }
}

#[test]
fn test_get_profile_path_no_paths() {
    let c = config("sh", vec![ProfileEntry { name: "p".to_string(), paths: Vec::new() }]);
    match get_profile_path(&c, &"p".to_string()) {
        Err(CfgError::ProfileHasNoPath { name }) => {
            assert_eq!(name, "p");
            assert_eq!(
                CfgError::ProfileHasNoPath { name }.message(),
                "Profile p does not have any paths defined."
            );
        },
        _ => panic!("a profile without paths must be reported"),
    }
}

#[test]
fn test_get_profile_path_multiple_paths() {
    let c = config(
        "sh",
        vec![ProfileEntry {
            name: "p".to_string(),
            paths: vec![Profile { path: "a".to_string() }, Profile { path: "b".to_string() }],
        }],
    );
    match get_profile_path(&c, &"p".to_string()) {
        Err(CfgError::ProfileHasMultiplePaths { name }) => assert_eq!(name, "p"),
        _ => panic!("a profile with several paths must be reported"),
    }
}

#[test]
fn test_get_profile_path_empty_path() {
    let c = config("sh", vec![entry("p", "")]);
    match get_profile_path(&c, &"p".to_string()) {
        Err(CfgError::ProfileHasEmptyPath { name }) => assert_eq!(name, "p"),
        _ => panic!("a profile with an empty path must be reported"),
    }
}

#[test]
fn test_run_target_set_and_export_update_target_only() {
    let mut c = config("sh", vec![entry("default", ".env")]);
    run_target_set(&mut c, &".env.out".to_string());
    assert_eq!(c.target, ".env.out");
    assert_eq!(c.profiles.len(), 1);
    run_export(&mut c, &"sh".to_string());
    assert_eq!(c.target, "sh");
}

#[test]
fn test_run_profiles_set_creates_and_updates() {
    let mut c = config("sh", vec![entry("default", ".env")]);
    run_profiles_set(&mut c, &"test".to_string(), &".env.test".to_string(), true).unwrap();
    assert_eq!(c.profiles.len(), 2);
    assert_eq!(c.profiles[1].name, "test");
    assert_eq!(c.profiles[1].paths[0].path, ".env.test");
    run_profiles_set(&mut c, &"test".to_string(), &".env.new".to_string(), true).unwrap();
    assert_eq!(c.profiles.len(), 2);
    assert_eq!(c.profiles[1].paths[0].path, ".env.new");
    assert_eq!(c.profiles[0].name, "default");
    assert_eq!(c.target, "sh");
}

#[test]
fn test_run_profiles_set_refuses_missing_file() {
    let mut c = config("sh", vec![entry("default", ".env")]);
    match run_profiles_set(&mut c, &"test".to_string(), &".env.nonexistent".to_string(), false) {
        Err(CfgError::FileNotFound { path }) => {
            assert_eq!(path, ".env.nonexistent");
            assert_eq!(
                CfgError::FileNotFound { path }.message(),
                "File .env.nonexistent does not exist in the current directory."
            );
        },
        _ => panic!("a missing file must be refused"),
    }
    assert_eq!(c.profiles.len(), 1);
}

#[test]
fn test_run_profiles_remove() {
    let mut c = config("sh", vec![entry("default", ".env"), entry("test", ".env.test")]);
    assert!(run_profiles_remove(&mut c, &"test".to_string()));
    assert_eq!(c.profiles.len(), 1);
    assert_eq!(c.profiles[0].name, "default");
    assert!(!run_profiles_remove(&mut c, &"test".to_string()));
    assert_eq!(c.profiles.len(), 1);
}

#[test]
fn test_ordered_map_puts_default_first() {
    let c = config(
        "sh",
        vec![entry("alpha", ".env.alpha"), entry("default", ".env"), entry("beta", ".env.beta")],
    );
    let ordered = ordered_map(&c);
    let names: Vec<&str> = ordered.iter().map(|e| e.name.as_str()).collect();
    assert_eq!(names, vec!["default", "alpha", "beta"]);
}

#[test]
fn test_ordered_map_without_default_keeps_order() {
    let c = config("sh", vec![entry("alpha", ".env.alpha"), entry("beta", ".env.beta")]);
    let ordered = ordered_map(&c);
    let names: Vec<&str> = ordered.iter().map(|e| e.name.as_str()).collect();
    assert_eq!(names, vec!["alpha", "beta"]);
}

#[test]
fn test_config_display_string() {
    let mut c = config("sh", vec![entry("default", ".env"), entry("prod", ".env.prod")]);
    assert_eq!(
        c.to_display_string(),
        "target: sh\ncurrent: none\nprofiles:\n  - default: \".env\"\n  - prod: \".env.prod\"\n"
    );
    c.current_profiles = vec!["default".to_string(), "prod".to_string()];
    assert_eq!(
        c.to_display_string(),
        "target: sh\ncurrent: default, prod\nprofiles:\n  - default: \".env\"\n  - prod: \".env.prod\"\n"
    );
}

#[test]
fn test_profiles_listing() {
    let c = config("sh", vec![entry("default", ".env")]);
    assert_eq!(profiles_listing(&c), "profiles:\n  - default:\n    - .env\n");
    let empty = config("sh", Vec::new());
    assert_eq!(profiles_listing(&empty), "No profiles defined.\n");
}
