use nvy::config::Config;
use nvy::init::get_profile_name;
use nvy::init::init_config;
use nvy::init::run_init;

#[test]
fn test_get_profile_name() {
    assert_eq!(get_profile_name(".env"), Some("default".to_string()));
    assert_eq!(get_profile_name(".env.local"), Some("local".to_string()));
    assert_eq!(get_profile_name(".env.prod"), Some("prod".to_string()));
    assert_eq!(get_profile_name(".env.staging"), Some("staging".to_string()));
    assert_eq!(get_profile_name(".env."), None);
    assert_eq!(get_profile_name("env"), None);
    assert_eq!(get_profile_name(".environment"), None);
}

#[test]
fn test_init_config_builds_default_and_discovered_profiles() {
    let files = vec![".env".to_string(), ".env.local".to_string(), ".env.prod".to_string()];
    let c = init_config(".env.nvy", &files);
    assert_eq!(c.target, ".env.nvy");
    assert_eq!(c.profiles.len(), 3);
    assert_eq!(c.profiles[0].name, "default");
    assert_eq!(c.profiles[0].paths[0].path, ".env");
    assert_eq!(c.profiles[1].name, "local");
    assert_eq!(c.profiles[1].paths[0].path, ".env.local");
    assert_eq!(c.profiles[2].name, "prod");
    assert_eq!(c.profiles[2].paths[0].path, ".env.prod");
}

#[test]
fn test_init_config_empty_dir_keeps_default() {
    let c = init_config("sh", &Vec::new());
    assert_eq!(c.profiles.len(), 1);
    assert_eq!(c.profiles[0].name, "default");
    assert_eq!(c.profiles[0].paths.len(), 1);
    assert_eq!(c.profiles[0].paths[0].path, ".env");
}

#[test]
fn test_init_config_later_file_overwrites_same_profile() {
    // two discovered paths that map to one profile name keep the later path
    let files = vec![".env.a".to_string(), ".env.a".to_string()];
    let c = init_config("sh", &files);
    assert_eq!(c.profiles.len(), 2);
    assert_eq!(c.profiles[1].name, "a");
    assert_eq!(c.profiles[1].paths[0].path, ".env.a");
}

#[test]
fn test_run_init_ignores_example_and_target() {
    let existing = Some(Config {
        target: ".env.local".to_string(),
        current_profiles: Vec::new(),
        profiles: Vec::new(),
    });
    let files = vec![
        ".env".to_string(),
        ".env.example".to_string(),
        ".env.local".to_string(),
        ".env.prod".to_string(),
    ];
    let c = run_init(&existing, &files);
    assert_eq!(c.target, ".env.local");
    let names: Vec<&str> = c.profiles.iter().map(|e| e.name.as_str()).collect();
    assert_eq!(names, vec!["default", "prod"]);
}

#[test]
fn test_run_init_without_existing_config_uses_default_target() {
    let files = vec![".env".to_string(), ".env.prod".to_string()];
    let c = run_init(&None, &files);
    assert_eq!(c.target, ".env.nvy");
    let names: Vec<&str> = c.profiles.iter().map(|e| e.name.as_str()).collect();
    assert_eq!(names, vec!["default", "prod"]);
}
