use kindle_to_markdown::cli::{
    map_layout, map_sort, parse_raw_copy_mode, raw_copy_action, RawCopyAction, raw_destination_for_destination,
    render_output_target, resolve_dedupe, resolve_discover, resolve_layout, resolve_no_stats,
    resolve_output, resolve_raw_copy_destination,
    resolve_raw_copy_mode, resolve_sort_key, select_export_destination, select_input_source,
    ExportDestination, InputSource, LayoutArg, RawCopyMode, SortArg,
};
use kindle_to_markdown::error::KindleError;
use kindle_to_markdown::export::{OutputLayout, OutputTarget};
use kindle_to_markdown::paths::default_export_directory;
use kindle_to_markdown::process::SortKey;
use kindle_to_markdown::settings::{CopyRawSetting, SettingsLayout, SettingsSort};
use std::path::PathBuf;

#[test]
fn prefers_stdin_when_present() {
    let input = select_input_source(false, None, false).expect("stdin should be selected");
    assert_eq!(input, InputSource::Stdin);
}

#[test]
fn uses_positional_input_when_given() {
    let input = select_input_source(true, Some("my-clippings.txt"), false)
        .expect("file should be selected");
    assert_eq!(input, InputSource::File("my-clippings.txt".to_string()));
}

#[test]
fn uses_discover_only_when_requested() {
    let input = select_input_source(true, None, true).expect("discover should be selected");
    assert_eq!(input, InputSource::Discover);
}

#[test]
fn explicit_file_wins_over_implicit_stdin() {
    let input = select_input_source(false, Some("my-clippings.txt"), false)
        .expect("file should win over implicit stdin");
    assert_eq!(input, InputSource::File("my-clippings.txt".to_string()));
}

#[test]
fn rejects_file_input_with_discover() {
    let error = select_input_source(true, Some("my-clippings.txt"), true)
        .expect_err("file and discover should conflict");
    assert!(error.message().contains("cannot use an input file with --discover"));
}

#[test]
fn rejects_missing_input() {
    let error = select_input_source(true, None, false).expect_err("no input should fail");
    assert_eq!(error, KindleError::MissingInput);
    assert!(error.message().starts_with("missing input"));
}

#[test]
fn defaults_single_layout_to_stdout_without_discover() {
    let destination = select_export_destination(OutputLayout::SingleFile, None, false);
    assert_eq!(destination, ExportDestination::Stdout);
}

#[test]
fn defaults_discover_to_clippings_directory() {
    let destination = select_export_destination(OutputLayout::SingleFile, None, true);
    assert_eq!(
        destination,
        ExportDestination::Target(OutputTarget::Directory(default_export_directory()))
    );
}

#[test]
fn defaults_by_book_layout_to_clippings_directory() {
    let destination = select_export_destination(OutputLayout::ByBook, None, false);
    assert_eq!(
        destination,
        ExportDestination::Target(OutputTarget::Directory(default_export_directory()))
    );
}

#[test]
fn explicit_output_selects_a_target() {
    assert_eq!(
        select_export_destination(OutputLayout::SingleFile, Some("out.md"), false),
        ExportDestination::Target(OutputTarget::File("out.md".to_string()))
    );
    assert_eq!(render_output_target(&OutputTarget::File("out.md".to_string())), "out.md");
}

#[test]
fn raw_destination_for_stdout_uses_clippings_directory() {
    let destination =
        raw_destination_for_destination("/tmp/My Clippings.txt", &ExportDestination::Stdout);
    assert_eq!(
        PathBuf::from(destination),
        PathBuf::from("clippings").join("My Clippings.txt")
    );
}

#[test]
fn layout_mapping_matches_output_layout() {
    assert_eq!(map_layout(LayoutArg::Single), OutputLayout::SingleFile);
    assert_eq!(map_layout(LayoutArg::ByBook), OutputLayout::ByBook);
}

#[test]
fn sort_mapping_matches_library_sort_keys() {
    assert_eq!(map_sort(SortArg::Book), SortKey::Book);
    assert_eq!(map_sort(SortArg::Date), SortKey::Date);
    assert_eq!(map_sort(SortArg::Location), SortKey::Location);
}

#[test]
fn resolves_layout_from_settings_when_cli_is_absent() {
    assert_eq!(resolve_layout(None, Some(SettingsLayout::ByBook)), OutputLayout::ByBook);
}

#[test]
fn resolves_sort_key_from_settings_when_cli_is_absent() {
    assert_eq!(
        resolve_sort_key(None, Some(SettingsSort::Location)),
        Some(SortKey::Location)
    );
}

#[test]
fn cli_choices_win_over_settings() {
    assert_eq!(
        resolve_layout(Some(LayoutArg::Single), Some(SettingsLayout::ByBook)),
        OutputLayout::SingleFile
    );
    assert_eq!(
        resolve_sort_key(Some(SortArg::Date), Some(SettingsSort::Location)),
        Some(SortKey::Date)
    );
    assert_eq!(resolve_layout(None, None), OutputLayout::SingleFile);
    assert_eq!(resolve_sort_key(None, None), None);
}

#[test]
fn resolves_dedupe_with_cli_override() {
    assert!(resolve_dedupe(true, false, Some(false)));
    assert!(!resolve_dedupe(false, true, Some(true)));
    assert!(resolve_dedupe(false, false, Some(true)));
    assert!(!resolve_dedupe(false, false, None));
}

#[test]
fn parses_copy_raw_flag_without_value_as_auto() {
    assert_eq!(
        parse_raw_copy_mode(Some("__AUTO__")).expect("auto copy mode should parse"),
        RawCopyMode::Auto
    );
}

#[test]
fn parses_copy_raw_flag_with_path() {
    assert_eq!(
        parse_raw_copy_mode(Some("raw/input.txt")).expect("explicit copy mode should parse"),
        RawCopyMode::Explicit("raw/input.txt".to_string())
    );
}

#[test]
fn rejects_blank_copy_raw_path() {
    let error = parse_raw_copy_mode(Some("  ")).expect_err("blank path should fail");
    assert_eq!(error, KindleError::EmptyCopyRawPath);
    assert_eq!(error.message(), "--copy-raw path cannot be empty");
    assert_eq!(parse_raw_copy_mode(None), Ok(RawCopyMode::Disabled));
}

#[test]
fn resolves_auto_raw_copy_for_file_backed_input() {
    let destination = resolve_raw_copy_destination(
        &RawCopyMode::Auto,
        Some("/tmp/My Clippings.txt"),
        &ExportDestination::Target(OutputTarget::Directory("notes".to_string())),
    )
    .expect("auto raw destination should resolve");

    assert_eq!(destination.map(PathBuf::from), Some(PathBuf::from("notes/My Clippings.txt")));
}

#[test]
fn rejects_auto_raw_copy_for_stdin() {
    let error = resolve_raw_copy_destination(&RawCopyMode::Auto, None, &ExportDestination::Stdout)
        .expect_err("stdin without explicit raw path should fail");

    assert!(error
        .message()
        .contains("--copy-raw without a path requires a file path or --discover input source"));
}

#[test]
fn explicit_and_disabled_raw_copies() {
    assert_eq!(
        resolve_raw_copy_destination(
            &RawCopyMode::Explicit("raw.txt".to_string()),
            None,
            &ExportDestination::Stdout
        ),
        Ok(Some("raw.txt".to_string()))
    );
    assert_eq!(
        resolve_raw_copy_destination(&RawCopyMode::Disabled, Some("in.txt"), &ExportDestination::Stdout),
        Ok(None)
    );
}

#[test]
fn resolves_raw_copy_mode_from_settings_when_cli_is_absent() {
    let mode = resolve_raw_copy_mode(None, Some(&CopyRawSetting::Enabled(true)))
        .expect("settings raw copy should resolve");
    assert_eq!(mode, RawCopyMode::Auto);
}

#[test]
fn raw_copy_mode_settings_and_flags() {
    assert_eq!(
        resolve_raw_copy_mode(None, Some(&CopyRawSetting::Enabled(false))),
        Ok(RawCopyMode::Disabled)
    );
    assert_eq!(
        resolve_raw_copy_mode(None, Some(&CopyRawSetting::Path("raw/input.txt".to_string()))),
        Ok(RawCopyMode::Explicit("raw/input.txt".to_string()))
    );
    assert_eq!(resolve_raw_copy_mode(None, None), Ok(RawCopyMode::Disabled));
    assert_eq!(
        resolve_raw_copy_mode(Some("__AUTO__"), Some(&CopyRawSetting::Enabled(false))),
        Ok(RawCopyMode::Auto)
    );
}

#[test]
fn discover_setting_applies_only_without_an_input_file() {
    assert!(resolve_discover(true, None, true));
    assert!(resolve_discover(true, Some(false), false));
    assert!(resolve_discover(false, Some(true), false));
    assert!(!resolve_discover(false, Some(true), true));
    assert!(!resolve_discover(false, Some(false), false));
    assert!(!resolve_discover(false, None, false));
}

#[test]
fn no_stats_comes_from_the_flag_or_the_setting() {
    assert!(resolve_no_stats(true, None));
    assert!(resolve_no_stats(true, Some(false)));
    assert!(resolve_no_stats(false, Some(true)));
    assert!(!resolve_no_stats(false, Some(false)));
    assert!(!resolve_no_stats(false, None));
}

#[test]
fn output_flag_wins_over_the_setting() {
    assert_eq!(resolve_output(Some("explicit"), Some("from-settings")), Some("explicit".to_string()));
    assert_eq!(resolve_output(None, Some("from-settings")), Some("from-settings".to_string()));
    assert_eq!(resolve_output(Some("explicit"), None), Some("explicit".to_string()));
    assert_eq!(resolve_output(None, None), None);
}

#[test]
fn raw_copy_is_skipped_only_onto_the_same_path() {
    assert_eq!(raw_copy_action(Some("notes/My Clippings.txt"), "notes/My Clippings.txt"), RawCopyAction::AlreadyThere);
    assert_eq!(raw_copy_action(Some("notes//./My Clippings.txt"), "notes/My Clippings.txt"), RawCopyAction::AlreadyThere);
    assert_eq!(raw_copy_action(Some("./notes/My Clippings.txt"), "notes/My Clippings.txt"), RawCopyAction::CopyFile);
    assert_eq!(raw_copy_action(Some("/tmp/My Clippings.txt"), "notes/My Clippings.txt"), RawCopyAction::CopyFile);
    assert_eq!(raw_copy_action(None, "notes/My Clippings.txt"), RawCopyAction::WriteInput);
}
