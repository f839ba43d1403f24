//! The decisions of the command-line program: which input to read, where
//! to export, whether and where to copy the raw clippings, and how command
//! line flags and settings combine.

use vstd::prelude::*;
use crate::error::KindleError;
use crate::export::{
    containing_folder, OutputLayout, OutputTarget, raw_destination, raw_destination_for_output, raw_file_name,
    raw_file_name_of, resolve_output_target, spec_output_target, target_view,
};
use crate::paths::{
    default_export_directory, file_name, join_path, lemma_file_name_is_plain,
    is_drive_root, lemma_file_name_of_join, path_components, path_join, plain_name, same_path,
};
use crate::process::SortKey;
use crate::settings::{CopyRawSetting, SettingsLayout, SettingsSort};
use crate::text::{chars_equal, chars_of, option_view, trim, trim_chars};

verus! {

/// Where the clippings are read from.
#[derive(Debug, Clone, PartialEq, Eq)]
pub enum InputSource {
    Stdin,
    File(String),
    Discover,
}

/// Whether and where the raw clippings are copied.
#[derive(Debug, Clone, PartialEq, Eq)]
pub enum RawCopyMode {
    Disabled,
    Auto,
    Explicit(String),
}

/// Where the Markdown goes.
#[derive(Debug, Clone, PartialEq, Eq)]
pub enum ExportDestination {
    Stdout,
    Target(OutputTarget),
}

/// The `--layout` flag.
#[derive(Debug, Clone, Copy, PartialEq, Eq, Structural)]
pub enum LayoutArg {
    Single,
    ByBook,
}

/// The `--sort-by` flag.
#[derive(Debug, Clone, Copy, PartialEq, Eq, Structural)]
pub enum SortArg {
    Book,
    Date,
    Location,
}

/// The input source, as `(kind, path)`: 0 for stdin, 1 for a file with its
/// path, 2 for discovery; or the error.
pub open spec fn spec_input_source(stdin_is_terminal: bool, input: Option<Seq<char>>, discover: bool) -> Result<(int, Seq<char>), KindleError> {
    if input is Some && discover {
        Err(KindleError::InputConflict)
    } else if input is Some {
        Ok((1, input->0))
    } else if discover {
        Ok((2, seq![]))
    } else if !stdin_is_terminal {
        Ok((0, seq![]))
    } else {
        Err(KindleError::MissingInput)
    }
}

/// The view of an input source, as `(kind, path)`.
pub open spec fn input_source_view(s: InputSource) -> (int, Seq<char>) {
    match s {
        InputSource::Stdin => (0, seq![]),
        InputSource::File(p) => (1, p@),
        InputSource::Discover => (2, seq![]),
    }
}

/// The view of a result that carries an input source.
pub open spec fn input_result_view(r: Result<InputSource, KindleError>) -> Result<(int, Seq<char>), KindleError> {
    match r {
        Ok(s) => Ok(input_source_view(s)),
        Err(e) => Err(e),
    }
}

/// Returns the one input source: an input file, else discovery, else piped
/// stdin. A file together with `--discover` is an error, and so is no input
/// at all.
pub fn select_input_source(stdin_is_terminal: bool, input: Option<&str>, discover: bool) -> (r: Result<InputSource, KindleError>)
    ensures
        input_result_view(r) == spec_input_source(
            stdin_is_terminal,
            match input {
                Some(p) => Some(p@),
                None => None,
            },
            discover,
        ),
{
    if input.is_some() && discover {
        return Err(KindleError::InputConflict);
    }
    match input {
        Some(p) => Ok(InputSource::File(p.to_owned())),
        None => {
            if discover {
                Ok(InputSource::Discover)
            } else if !stdin_is_terminal {
                Ok(InputSource::Stdin)
            } else {
                Err(KindleError::MissingInput)
            }
        },
    }
}

/// The program reads exactly one input: selection succeeds exactly where no
/// input file comes with `--discover` and some input is there, and then the
/// file wins over piped stdin.
pub proof fn law_one_input_source(stdin_is_terminal: bool, input: Option<Seq<char>>, discover: bool)
    ensures
        spec_input_source(stdin_is_terminal, input, discover) is Ok <==> !(input is Some
            && discover) && (input is Some || discover || !stdin_is_terminal),
        input is Some && !discover ==> spec_input_source(stdin_is_terminal, input, discover)
            == Ok::<(int, Seq<char>), KindleError>((1, input->0)),
{
}

/// The value of `--copy-raw` that stands for "no path given".
pub open spec fn auto_marker() -> Seq<char> {
    "__AUTO__"@
}

/// The view of a raw-copy mode, as `(kind, path)`: 0 off, 1 automatic, 2 to
/// the given path.
pub open spec fn raw_copy_view(m: RawCopyMode) -> (int, Seq<char>) {
    match m {
        RawCopyMode::Disabled => (0, seq![]),
        RawCopyMode::Auto => (1, seq![]),
        RawCopyMode::Explicit(p) => (2, p@),
    }
}

/// The raw-copy mode of the `--copy-raw` flag: off without the flag,
/// automatic without a path, else the path, which must not be blank.
pub open spec fn spec_raw_copy_mode(value: Option<Seq<char>>) -> Result<(int, Seq<char>), KindleError> {
    match value {
        None => Ok((0, seq![])),
        Some(v) => if v == auto_marker() {
            Ok((1, seq![]))
        } else if trim(v).len() == 0 {
            Err(KindleError::EmptyCopyRawPath)
        } else {
            Ok((2, v))
        },
    }
}

/// The view of a result that carries a raw-copy mode.
pub open spec fn raw_copy_result_view(r: Result<RawCopyMode, KindleError>) -> Result<(int, Seq<char>), KindleError> {
    match r {
        Ok(m) => Ok(raw_copy_view(m)),
        Err(e) => Err(e),
    }
}

/// Returns the raw-copy mode that the `--copy-raw` flag asks for.
pub fn parse_raw_copy_mode(value: Option<&str>) -> (r: Result<RawCopyMode, KindleError>)
    ensures
        raw_copy_result_view(r) == spec_raw_copy_mode(
            match value {
                Some(v) => Some(v@),
                None => None,
            },
        ),
{
    match value {
        None => Ok(RawCopyMode::Disabled),
        Some(v) => {
            let cs = chars_of(v);
            if chars_equal(&cs, &chars_of("__AUTO__")) {
                Ok(RawCopyMode::Auto)
            } else if trim_chars(&cs).len() == 0 {
                Err(KindleError::EmptyCopyRawPath)
            } else {
                Ok(RawCopyMode::Explicit(v.to_owned()))
            }
        },
    }
}

/// The view of a `copy-raw` setting, as `(kind, flag, path)`.
pub open spec fn copy_raw_setting_view(s: CopyRawSetting) -> (bool, bool, Seq<char>) {
    match s {
        CopyRawSetting::Enabled(b) => (true, b, seq![]),
        CopyRawSetting::Path(p) => (false, false, p@),
    }
}

/// The raw-copy mode from the flag where it is given, else from the
/// setting: `true` is automatic, `false` or no setting is off, a path is
/// that path.
pub open spec fn spec_resolve_raw_copy_mode(cli: Option<Seq<char>>, setting: Option<(bool, bool, Seq<char>)>) -> Result<(int, Seq<char>), KindleError> {
    if cli is Some {
        spec_raw_copy_mode(cli)
    } else {
        match setting {
            Some((true, true, _)) => Ok((1, seq![])),
            Some((true, false, _)) => Ok((0, seq![])),
            Some((false, _, p)) => Ok((2, p)),
            None => Ok((0, seq![])),
        }
    }
}

/// Returns the raw-copy mode: the flag's where it is given, else the setting's.
pub fn resolve_raw_copy_mode(cli_value: Option<&str>, settings_value: Option<&CopyRawSetting>) -> (r: Result<RawCopyMode, KindleError>)
    ensures
        raw_copy_result_view(r) == spec_resolve_raw_copy_mode(
            match cli_value {
                Some(v) => Some(v@),
                None => None,
            },
            match settings_value {
                Some(s) => Some(copy_raw_setting_view(*s)),
                None => None,
            },
        ),
{
    if cli_value.is_some() {
        return parse_raw_copy_mode(cli_value);
    }
    match settings_value {
        Some(CopyRawSetting::Enabled(true)) => Ok(RawCopyMode::Auto),
        Some(CopyRawSetting::Enabled(false)) => Ok(RawCopyMode::Disabled),
        None => Ok(RawCopyMode::Disabled),
        Some(CopyRawSetting::Path(p)) => Ok(RawCopyMode::Explicit(p.clone())),
    }
}

/// The view of an export destination: `None` for stdout, else the target.
pub open spec fn destination_view(d: ExportDestination) -> Option<(bool, Seq<char>)> {
    match d {
        ExportDestination::Stdout => None,
        ExportDestination::Target(t) => Some(target_view(t)),
    }
}

/// The export destination: the target of an explicit output; else stdout
/// for a single-file export that does not discover; else the default folder.
pub open spec fn spec_export_destination(layout: OutputLayout, output: Option<Seq<char>>, discover: bool) -> Option<(bool, Seq<char>)> {
    if output is Some {
        Some(spec_output_target(layout, output))
    } else if layout == OutputLayout::SingleFile && !discover {
        None
    } else {
        Some((false, "clippings"@))
    }
}

/// Returns where the Markdown goes.
pub fn select_export_destination(layout: OutputLayout, output: Option<&str>, discover: bool) -> (d: ExportDestination)
    ensures
        destination_view(d) == spec_export_destination(
            layout,
            match output {
                Some(p) => Some(p@),
                None => None,
            },
            discover,
        ),
{
    if output.is_some() {
        return ExportDestination::Target(resolve_output_target(layout, output));
    }
    match layout {
        OutputLayout::SingleFile => {
            if !discover {
                ExportDestination::Stdout
            } else {
                ExportDestination::Target(OutputTarget::Directory(default_export_directory()))
            }
        },
        _ => ExportDestination::Target(OutputTarget::Directory(default_export_directory())),
    }
}

/// Where the raw copy of the clippings at `input` goes for a destination:
/// into the default folder when the Markdown goes to stdout, else next to
/// the export.
pub open spec fn spec_raw_destination_for_destination(input: Seq<char>, destination: Option<(bool, Seq<char>)>) -> Seq<char> {
    match destination {
        None => path_join("clippings"@, raw_file_name(input)),
        Some(t) => raw_destination(input, t),
    }
}

/// Returns where the raw copy of the clippings at `input_path` goes.
pub fn raw_destination_for_destination(input_path: &str, destination: &ExportDestination) -> (p: String)
    ensures
        p@ == spec_raw_destination_for_destination(input_path@, destination_view(*destination)),
{
    match destination {
        ExportDestination::Stdout => {
            let dir = default_export_directory();
            let name = raw_file_name_of(input_path);
            join_path(dir.as_str(), name.as_str())
        },
        ExportDestination::Target(target) => raw_destination_for_output(input_path, target),
    }
}

/// The destination of the raw copy: none when off, the given path, or, when
/// automatic, the place next to the export of the input file; automatic
/// copying of stdin is an error.
pub open spec fn spec_raw_copy_destination(mode: (int, Seq<char>), input: Option<Seq<char>>, destination: Option<(bool, Seq<char>)>) -> Result<Option<Seq<char>>, KindleError> {
    if mode.0 == 0 {
        Ok(None)
    } else if mode.0 == 2 {
        Ok(Some(mode.1))
    } else {
        match input {
            Some(p) => Ok(Some(spec_raw_destination_for_destination(p, destination))),
            None => Err(KindleError::CopyRawNeedsInputFile),
        }
    }
}

/// Returns where the raw clippings are copied, if anywhere.
pub fn resolve_raw_copy_destination(mode: &RawCopyMode, input_path: Option<&str>, destination: &ExportDestination) -> (r: Result<Option<String>, KindleError>)
    ensures
        match r {
            Ok(o) => spec_raw_copy_destination(
                raw_copy_view(*mode),
                match input_path {
                    Some(p) => Some(p@),
                    None => None,
                },
                destination_view(*destination),
            ) == Ok::<Option<Seq<char>>, KindleError>(option_view(o)),
            Err(e) => spec_raw_copy_destination(
                raw_copy_view(*mode),
                match input_path {
                    Some(p) => Some(p@),
                    None => None,
                },
                destination_view(*destination),
            ) == Err::<Option<Seq<char>>, KindleError>(e),
        },
{
    match mode {
        RawCopyMode::Disabled => Ok(None),
        RawCopyMode::Explicit(path) => Ok(Some(path.clone())),
        RawCopyMode::Auto => match input_path {
            Some(p) => Ok(Some(raw_destination_for_destination(p, destination))),
            None => Err(KindleError::CopyRawNeedsInputFile),
        },
    }
}

/// Returns the path of an output target, as the program shows it.
pub fn render_output_target(target: &OutputTarget) -> (s: String)
    ensures
        s@ == target_view(*target).1,
{
    match target {
        OutputTarget::File(path) => path.clone(),
        OutputTarget::Directory(path) => path.clone(),
    }
}

/// The layout that a `--layout` flag asks for.
pub open spec fn spec_map_layout(layout: LayoutArg) -> OutputLayout {
    match layout {
        LayoutArg::Single => OutputLayout::SingleFile,
        LayoutArg::ByBook => OutputLayout::ByBook,
    }
}

/// Returns the layout that a `--layout` flag asks for.
pub fn map_layout(layout: LayoutArg) -> (l: OutputLayout)
    ensures
        l == spec_map_layout(layout),
{
    match layout {
        LayoutArg::Single => OutputLayout::SingleFile,
        LayoutArg::ByBook => OutputLayout::ByBook,
    }
}

/// The order that a `--sort-by` flag asks for.
pub open spec fn spec_map_sort(sort: SortArg) -> SortKey {
    match sort {
        SortArg::Book => SortKey::Book,
        SortArg::Date => SortKey::Date,
        SortArg::Location => SortKey::Location,
    }
}

/// Returns the order that a `--sort-by` flag asks for.
pub fn map_sort(sort: SortArg) -> (k: SortKey)
    ensures
        k == spec_map_sort(sort),
{
    match sort {
        SortArg::Book => SortKey::Book,
        SortArg::Date => SortKey::Date,
        SortArg::Location => SortKey::Location,
    }
}

/// The layout: the flag's, else the setting's, else a single file.
pub open spec fn spec_resolve_layout(cli: Option<LayoutArg>, setting: Option<SettingsLayout>) -> OutputLayout {
    match cli {
        Some(l) => spec_map_layout(l),
        None => match setting {
            Some(SettingsLayout::ByBook) => OutputLayout::ByBook,
            _ => OutputLayout::SingleFile,
        },
    }
}

/// Returns the layout: the flag's, else the setting's, else a single file.
pub fn resolve_layout(cli_layout: Option<LayoutArg>, settings_layout: Option<SettingsLayout>) -> (l: OutputLayout)
    ensures
        l == spec_resolve_layout(cli_layout, settings_layout),
{
    match cli_layout {
        Some(layout) => map_layout(layout),
        None => match settings_layout {
            Some(SettingsLayout::ByBook) => OutputLayout::ByBook,
            Some(SettingsLayout::Single) => OutputLayout::SingleFile,
            None => OutputLayout::SingleFile,
        },
    }
}

/// The order: the flag's, else the setting's, else none.
pub open spec fn spec_resolve_sort_key(cli: Option<SortArg>, setting: Option<SettingsSort>) -> Option<SortKey> {
    match cli {
        Some(s) => Some(spec_map_sort(s)),
        None => match setting {
            Some(SettingsSort::Book) => Some(SortKey::Book),
            Some(SettingsSort::Date) => Some(SortKey::Date),
            Some(SettingsSort::Location) => Some(SortKey::Location),
            None => None,
        },
    }
}

/// Returns the order: the flag's, else the setting's, else none.
pub fn resolve_sort_key(cli_sort: Option<SortArg>, settings_sort: Option<SettingsSort>) -> (k: Option<SortKey>)
    ensures
        k == spec_resolve_sort_key(cli_sort, settings_sort),
{
    match cli_sort {
        Some(sort) => Some(map_sort(sort)),
        None => match settings_sort {
            Some(SettingsSort::Book) => Some(SortKey::Book),
            Some(SettingsSort::Date) => Some(SortKey::Date),
            Some(SettingsSort::Location) => Some(SortKey::Location),
            None => None,
        },
    }
}

/// Whether to drop duplicates: `--dedupe` says yes, else `--no-dedupe` says
/// no, else the setting, else no.
pub open spec fn spec_resolve_dedupe(cli_dedupe: bool, cli_no_dedupe: bool, setting: Option<bool>) -> bool {
    if cli_dedupe {
        true
    } else if cli_no_dedupe {
        false
    } else {
        match setting {
            Some(b) => b,
            None => false,
        }
    }
}

/// Returns whether to drop duplicate entries.
pub fn resolve_dedupe(cli_dedupe: bool, cli_no_dedupe: bool, settings_dedupe: Option<bool>) -> (b: bool)
    ensures
        b == spec_resolve_dedupe(cli_dedupe, cli_no_dedupe, settings_dedupe),
{
    if cli_dedupe {
        true
    } else if cli_no_dedupe {
        false
    } else {
        match settings_dedupe {
            Some(b) => b,
            None => false,
        }
    }
}

/// What to do for a raw copy to a destination.
#[derive(Debug, Clone, Copy, PartialEq, Eq, Structural)]
pub enum RawCopyAction {
    /// Copy the clippings file there.
    CopyFile,
    /// Nothing: the destination is the clippings file itself.
    AlreadyThere,
    /// Write there the clippings text read from stdin.
    WriteInput,
}

/// The raw copy action for clippings read from the file `source`, or from
/// stdin where there is none: a file is copied unless the destination is
/// the same path.
pub open spec fn spec_raw_copy_action(source: Option<Seq<char>>, destination: Seq<char>) -> RawCopyAction {
    match source {
        Some(s) => if path_components(s) == path_components(destination) {
            RawCopyAction::AlreadyThere
        } else {
            RawCopyAction::CopyFile
        },
        None => RawCopyAction::WriteInput,
    }
}

/// Returns what to do for a raw copy of the clippings read from `source`,
/// or from stdin, to `destination`.
pub fn raw_copy_action(source: Option<&str>, destination: &str) -> (a: RawCopyAction)
    ensures
        a == spec_raw_copy_action(
            match source {
                Some(s) => Some(s@),
                None => None,
            },
            destination@,
        ),
{
    match source {
        Some(s) => if same_path(s, destination) {
            RawCopyAction::AlreadyThere
        } else {
            RawCopyAction::CopyFile
        },
        None => RawCopyAction::WriteInput,
    }
}

/// Whether to discover the Kindle: `--discover` says yes; else the setting
/// says yes only where no input file is given; else no.
pub open spec fn spec_resolve_discover(cli_discover: bool, setting: Option<bool>, has_input: bool) -> bool {
    cli_discover || (setting == Some(true) && !has_input)
}

/// Returns whether to discover the Kindle's clippings file.
pub fn resolve_discover(cli_discover: bool, settings_discover: Option<bool>, has_input: bool) -> (b: bool)
    ensures
        b == spec_resolve_discover(cli_discover, settings_discover, has_input),
{
    if cli_discover {
        return true;
    }
    match settings_discover {
        Some(true) => !has_input,
        _ => false,
    }
}

/// Whether to leave out the statistics: `--no-stats` or the setting says so.
pub open spec fn spec_resolve_no_stats(cli_no_stats: bool, setting: Option<bool>) -> bool {
    cli_no_stats || setting == Some(true)
}

/// Returns whether to leave out the statistics.
pub fn resolve_no_stats(cli_no_stats: bool, settings_no_stats: Option<bool>) -> (b: bool)
    ensures
        b == spec_resolve_no_stats(cli_no_stats, settings_no_stats),
{
    match settings_no_stats {
        Some(true) => true,
        _ => cli_no_stats,
    }
}

/// The output of an export: `--output`, else the setting, else none.
pub open spec fn spec_resolve_output(cli: Option<Seq<char>>, setting: Option<Seq<char>>) -> Option<
    Seq<char>,
> {
    match cli {
        Some(p) => Some(p),
        None => setting,
    }
}

/// Returns the output of an export, if one is given.
pub fn resolve_output(cli_output: Option<&str>, settings_output: Option<&str>) -> (o: Option<String>)
    ensures
        option_view(o) == spec_resolve_output(
            match cli_output {
                Some(p) => Some(p@),
                None => None,
            },
            match settings_output {
                Some(p) => Some(p@),
                None => None,
            },
        ),
{
    match cli_output {
        Some(p) => Some(p.to_owned()),
        None => match settings_output {
            Some(p) => Some(p.to_owned()),
            None => None,
        },
    }
}

/// A flag given on the command line wins over the settings file: layout,
/// order, de-duplication, discovery, statistics, output and raw copying
/// follow the flag whatever the setting says.
pub proof fn law_flags_override_settings(
    layout: LayoutArg,
    sort: SortArg,
    copy_raw: Seq<char>,
    layout_setting: Option<SettingsLayout>,
    sort_setting: Option<SettingsSort>,
    dedupe_setting: Option<bool>,
    copy_raw_setting: Option<(bool, bool, Seq<char>)>,
)
    ensures
        spec_resolve_layout(Some(layout), layout_setting) == spec_map_layout(layout),
        spec_resolve_sort_key(Some(sort), sort_setting) == Some(spec_map_sort(sort)),
        spec_resolve_dedupe(true, false, dedupe_setting),
        !spec_resolve_dedupe(false, true, dedupe_setting),
        spec_resolve_raw_copy_mode(Some(copy_raw), copy_raw_setting) == spec_raw_copy_mode(
            Some(copy_raw),
        ),
        forall|discover_setting: Option<bool>, has_input: bool|
            spec_resolve_discover(true, discover_setting, has_input),
        forall|no_stats_setting: Option<bool>| spec_resolve_no_stats(true, no_stats_setting),
        forall|output: Seq<char>, output_setting: Option<Seq<char>>|
            spec_resolve_output(Some(output), output_setting) == Some(output),
{
}

/// The raw copy keeps the name of the clippings file it copies, or is
/// `My Clippings.txt` where the input path has no file name, wherever the
/// export goes but straight into a Windows drive root such as `E:\`, which
/// file names here do not split at `\`.
pub proof fn law_raw_copy_keeps_file_name(input: Seq<char>, destination: Option<(bool, Seq<char>)>)
    requires
        destination matches Some(t) ==> !is_drive_root(
            if t.0 {
                containing_folder(t.1)
            } else {
                t.1
            },
        ),
    ensures
        file_name(spec_raw_destination_for_destination(input, destination)) == Some(
            raw_file_name(input),
        ),
{
    lemma_file_name_is_plain(input);
    if file_name(input) is None {
        reveal_strlit("My Clippings.txt");
        assert(plain_name("My Clippings.txt"@)) by {
            assert("My Clippings.txt"@[0] == 'M');
            assert("My Clippings.txt"@.len() == 16);
        }
    }
    let name = raw_file_name(input);
    match destination {
        None => {
            reveal_strlit("clippings");
            lemma_file_name_of_join("clippings"@, name);
        },
        Some(t) => if t.0 {
            lemma_file_name_of_join(containing_folder(t.1), name);
        } else {
            lemma_file_name_of_join(t.1, name);
        },
    }
}

/// Where the Markdown goes when no output is given: stdout for a
/// single-file export of a file or stdin, else the `clippings` folder.
pub proof fn law_default_export_destinations(layout: OutputLayout, discover: bool)
    ensures
        spec_export_destination(OutputLayout::SingleFile, None, false) is None,
        discover || layout == OutputLayout::ByBook ==> spec_export_destination(layout, None, discover)
            == Some((false, "clippings"@)),
        forall|p: Seq<char>|
            spec_export_destination(layout, Some(p), discover) == Some(
                (layout == OutputLayout::SingleFile, p),
            ),
{
}

} // verus!
