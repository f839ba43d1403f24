use kindle_to_markdown::error::KindleError;
use kindle_to_markdown::settings::{
    example_settings_toml, project_names, resolved_settings_path, settings_path, settings_path_in, AppSettings,
};
use std::path::{Path, PathBuf};

#[test]
fn resolves_override_settings_path() {
    let path = Path::new("local/custom-settings.toml");
    assert_eq!(
        PathBuf::from(resolved_settings_path(Some("local/custom-settings.toml")).expect("path should resolve")),
        path
    );
}

#[test]
fn example_settings_template_is_commented() {
    let template = example_settings_toml();

    assert!(template.contains("# layout = \"by-book\""));
    assert!(template.contains("# sort-by = \"location\""));
    assert!(template.contains("# dedupe = true"));
    assert!(template.starts_with("# kindle-to-markdown settings"));
}

#[test]
fn settings_file_lives_in_the_config_folder() {
    assert_eq!(
        settings_path_in(Some("/home/ana/.config/kindle-to-markdown".to_string())),
        Ok("/home/ana/.config/kindle-to-markdown/settings.toml".to_string())
    );
    let error = settings_path_in(None).expect_err("no folder should fail");
    assert_eq!(error, KindleError::NoSettingsDirectory);
    assert_eq!(error.message(), "could not determine a settings directory for this platform");
    if let Ok(p) = settings_path() {
        assert!(p.ends_with("kindle-to-markdown/settings.toml"));
    }
}

#[test]
fn default_settings_are_all_absent() {
    let settings = AppSettings::default();
    assert_eq!(settings.discover, None);
    assert_eq!(settings.output, None);
    assert_eq!(settings.layout, None);
    assert_eq!(settings.sort_by, None);
    assert_eq!(settings.dedupe, None);
    assert_eq!(settings.copy_raw, None);
    assert_eq!(settings.no_stats, None);
}

#[test]
fn settings_live_under_the_program_names() {
    assert_eq!(project_names(), ("com", "kaiogu", "kindle-to-markdown"));
}
