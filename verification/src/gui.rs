//! The windowed front-end's state and what each user gesture does to it.
//!
//! The window itself (drawing, dialogs, timers, worker threads) belongs to the
//! caller. Every gesture arrives here as a [`Message`]; [`Abyss::update`] moves
//! the state on and answers with the one [`Action`] the caller is to perform,
//! whose outcome comes back as another message.
use crate::archive_kind::{kind_extension, kind_format, kind_levels, kind_short, ArchiveKind};
use crate::browser::{
    activate, archive_rows_spec, copy_location, entered, rows_for, rows_spec, rows_view, up,
    up_target, Activated, BrowseRow, Disk, Location, RowKind,
};
use crate::codec::CodecOptions;
use crate::format::{format_of_path, Format};
use crate::launch::{reext, reext_spec, Launch};
use crate::listing::Listing;
use crate::members::{path_eq, same_path};
use crate::paths::{
    file_name_of, file_stem_of, join, parent_of, path_file_name, path_file_stem, path_join,
    path_parent,
};
use crate::text::{chars_eq, chars_of, trim, trim_chars};
use crate::update::UpdateInfo;
use vstd::prelude::*;
use vstd::string::StringExecFns;

verus! {

/// Which of the three panels is showing.
#[derive(Clone, Copy, PartialEq, Eq, Debug, Structural)]
pub enum Mode {
    Compress,
    Extract,
    Browse,
}

/// What the bottom band reports.
pub enum Status {
    Idle,
    Running,
    Done(String),
    Failed(String),
}

/// The whole state of the window.
pub struct Abyss {
    pub mode: Mode,
    // Compress side.
    pub inputs: Vec<String>,
    pub kind: ArchiveKind,
    pub level: i32,
    pub threads: i32,
    pub output: Option<String>,
    /// Whether `output` still follows the suggestion (the user has not typed or
    /// picked one).
    pub output_is_auto: bool,
    // Extract side.
    pub archive: Option<String>,
    pub archive_format: Option<Format>,
    pub listing: Option<Listing>,
    pub dest: Option<String>,
    // Commander side.
    pub location: Location,
    pub rows: Vec<BrowseRow>,
    pub selected: Option<usize>,
    pub browse_error: Option<String>,
    /// The member being drawn out of an archive to open.
    pub opening: Option<String>,
    /// The last activated row and when (in milliseconds), to detect a double click.
    pub last_click: Option<(usize, u64)>,
    /// The name of an archive to step into once the Commander stands in the
    /// folder it was dropped from.
    pub pending_archive: Option<String>,
    // Shared.
    /// Whether an engine job is out with the caller.
    pub job: bool,
    pub status: Status,
    pub update: Option<UpdateInfo>,
    /// Whether paths forwarded by other launches are polled for.
    pub ipc_enabled: bool,
}

/// A user gesture, or the outcome of an [`Action`] the caller performed.
pub enum Message {
    ModeSelected(Mode),
    // Compress.
    AddFiles,
    AddFolder,
    FilesPicked(Vec<String>),
    FolderPicked(Option<String>),
    RemoveInput(usize),
    ClearInputs,
    KindSelected(ArchiveKind),
    LevelChanged(i32),
    ThreadsChanged(i32),
    OutputEdited(String),
    BrowseOutput,
    OutputChosen(Option<String>),
    // Extract.
    OpenArchive,
    ArchivePicked(Option<String>),
    ChooseDest,
    DestPicked(Option<String>),
    // Commander.
    /// A click on a row, at a time in milliseconds.
    BrowseActivate { index: usize, at_ms: u64 },
    BrowseUp,
    BrowseHome,
    BrowseRefresh,
    BrowseToCompress,
    BrowseExtractHere,
    // Shared.
    Start,
    /// A path dropped on the window, and whether it is a directory.
    FileDropped { path: String, is_dir: bool },
    /// A member drawn out of an archive was handed to the system to open.
    FileOpened(Result<(), String>),
    /// Paths forwarded by other launches.
    PollExternal(Vec<String>),
    // Update prompt.
    UpdateChecked(Option<UpdateInfo>),
    OpenRelease,
    DismissUpdate,
    // Outcomes.
    /// What the disk holds at a location asked for with [`Action::Visit`].
    Arrived { location: Location, disk: Disk },
    /// The listing asked for with [`Action::Enter`].
    Entered { path: String, format: Format, listing: Result<Listing, String>, quiet: bool },
    /// The listing asked for with [`Action::List`]; none when it could not be read.
    Listed { path: String, listing: Option<Listing> },
    /// What the job came to: the report, or what went wrong.
    JobFinished(Result<String, String>),
}

/// What the caller is to do after a message.
pub enum Action {
    /// Nothing.
    Nothing,
    /// Let the user pick files, answering with [`Message::FilesPicked`].
    PickFiles,
    /// Let the user pick a folder, answering with [`Message::FolderPicked`].
    PickFolder,
    /// Let the user choose where to save the archive, proposing `name` in
    /// `dir`; answer with [`Message::OutputChosen`].
    SaveAs { name: String, dir: Option<String> },
    /// Let the user pick an archive, answering with [`Message::ArchivePicked`].
    PickArchive,
    /// Let the user pick a destination folder, starting in `dir`; answer with
    /// [`Message::DestPicked`].
    PickDest { dir: Option<String> },
    /// Read what the disk holds at this location and answer with
    /// [`Message::Arrived`].
    Visit(Location),
    /// List the archive and answer with [`Message::Entered`], passing `quiet` on.
    Enter { path: String, format: Format, quiet: bool },
    /// List the archive and answer with [`Message::Listed`].
    List { path: String, format: Format },
    /// Open a file on disk with the system's default application.
    OpenPath(String),
    /// Draw `member` out of the archive at `src` into a scratch file named
    /// `name`, open it, and answer with [`Message::FileOpened`].
    OpenMember { src: String, format: Format, member: String, name: String },
    /// Open a web page.
    OpenUrl(String),
    /// Compress `inputs` into `dest`; answer with [`Message::JobFinished`].
    Compress { inputs: Vec<String>, dest: String, format: Format, options: CodecOptions, label: String },
    /// Extract `src` into `dest`; answer with [`Message::JobFinished`].
    Extract { src: String, dest: String, format: Format },
}

// --- The model ------------------------------------------------------------------

/// A list of paths as text.
pub open spec fn strs(v: Seq<String>) -> Seq<Seq<char>> {
    v.map_values(|s: String| s@)
}

/// An optional path as text.
pub open spec fn opt_str(o: Option<String>) -> Option<Seq<char>> {
    match o {
        Some(s) => Some(s@),
        None => None,
    }
}

/// Whether the list holds a path equal to `p`.
pub open spec fn has_path(ins: Seq<Seq<char>>, p: Seq<char>) -> bool {
    exists|i: int| 0 <= i < ins.len() && path_eq(#[trigger] ins[i], p)
}

/// The list with `p` appended, unless it already holds it.
pub open spec fn add_path(ins: Seq<Seq<char>>, p: Seq<char>) -> Seq<Seq<char>> {
    if has_path(ins, p) {
        ins
    } else {
        ins.push(p)
    }
}

/// The list with each of `ps` added in turn.
pub open spec fn add_paths(ins: Seq<Seq<char>>, ps: Seq<Seq<char>>) -> Seq<Seq<char>>
    decreases ps.len(),
{
    if ps.len() == 0 {
        ins
    } else {
        add_path(add_paths(ins, ps.drop_last()), ps.last())
    }
}

/// No path in the list equals a later one.
pub open spec fn distinct_paths(ins: Seq<Seq<char>>) -> bool {
    forall|i: int, j: int| 0 <= i < j < ins.len() ==> !path_eq(#[trigger] ins[i], #[trigger] ins[j])
}

/// The archive name proposed for the sources: the first source's stem (else
/// `archive`) with the kind's extension.
pub open spec fn suggested_name(ins: Seq<Seq<char>>, k: ArchiveKind) -> Seq<char> {
    let stem = if ins.len() > 0 {
        match path_file_stem(ins[0]) {
            Some(s) => s,
            None => "archive"@,
        }
    } else {
        "archive"@
    };
    stem + kind_extension(k)
}

/// The output proposed for the sources: the suggested name beside the first
/// source, or none without sources.
pub open spec fn suggested_output(ins: Seq<Seq<char>>, k: ArchiveKind) -> Option<Seq<char>> {
    if ins.len() == 0 {
        None
    } else {
        Some(
            path_join(
                match path_parent(ins[0]) {
                    Some(d) => d,
                    None => Seq::empty(),
                },
                suggested_name(ins, k),
            ),
        )
    }
}

impl Abyss {
    /// What holds of every state the window passes through.
    pub open spec fn wf(&self) -> bool {
        &&& self.threads >= 0
        &&& (self.selected matches Some(i) ==> i < self.rows@.len())
        &&& distinct_paths(strs(self.inputs@))
        &&& (self.status is Running ==> self.job)
    }

    /// Whether a job is running.
    pub open spec fn busy_spec(&self) -> bool {
        self.status is Running
    }

}

/// The output after the sources changed: the new suggestion while it follows
/// the suggestion, else what it was.
pub open spec fn refreshed(old: Abyss, new: Abyss) -> bool {
    if old.output_is_auto {
        opt_str(new.output) == suggested_output(strs(new.inputs@), old.kind)
    } else {
        new.output == old.output
    }
}

/// The sources `ps` added.
pub open spec fn added(old: Abyss, new: Abyss, ps: Seq<Seq<char>>) -> bool {
    &&& strs(new.inputs@) == add_paths(strs(old.inputs@), ps)
    &&& refreshed(old, new)
    &&& new == (Abyss { inputs: new.inputs, output: new.output, ..old })
}

/// A panel chosen: refused while a job runs.
pub open spec fn mode_selected(old: Abyss, new: Abyss, m: Mode) -> bool {
    if old.status is Running {
        new == old
    } else {
        new == (Abyss { mode: m, status: Status::Idle, ..old })
    }
}

/// The source at `i` removed, if there is one.
pub open spec fn input_removed(old: Abyss, new: Abyss, i: usize) -> bool {
    if i < old.inputs@.len() {
        &&& strs(new.inputs@) == strs(old.inputs@).remove(i as int)
        &&& refreshed(old, new)
        &&& new == (Abyss { inputs: new.inputs, output: new.output, ..old })
    } else {
        new == old
    }
}

/// Every source removed.
pub open spec fn inputs_cleared(old: Abyss, new: Abyss) -> bool {
    &&& new.inputs@.len() == 0
    &&& refreshed(old, new)
    &&& new == (Abyss { inputs: new.inputs, output: new.output, ..old })
}

/// The level a kind starts at.
pub open spec fn default_level_of(k: ArchiveKind) -> i32 {
    match kind_levels(k) {
        Some((_, _, d)) => d,
        None => 0,
    }
}

/// A kind chosen: its default level, and the output re-suggested, or, when the
/// user has named it, re-suffixed.
pub open spec fn kind_selected(old: Abyss, new: Abyss, k: ArchiveKind) -> bool {
    &&& (if old.output_is_auto {
        opt_str(new.output) == suggested_output(strs(old.inputs@), k)
    } else {
        opt_str(new.output) == match old.output {
            Some(o) => Some(reext_spec(o@, kind_extension(k))),
            None => None,
        }
    })
    &&& new == (Abyss { kind: k, level: default_level_of(k), output: new.output, ..old })
}

/// An output typed by the user: none when it is blank.
pub open spec fn output_edited(old: Abyss, new: Abyss, s: Seq<char>) -> bool {
    &&& opt_str(new.output) == if trim(s).len() == 0 {
        None
    } else {
        Some(s)
    }
    &&& new == (Abyss { output: new.output, output_is_auto: false, ..old })
}

/// What an unknown archive extension reports.
pub open spec fn unknown_form() -> Seq<char> {
    "Unknown extension — the Abyss does not recognize this form."@
}

/// The archive at `path` opened for extraction: listed next when its extension
/// is known, refused otherwise.
pub open spec fn archive_loaded(old: Abyss, new: Abyss, path: Seq<char>, action: Action) -> bool {
    &&& opt_str(new.archive) == Some(path)
    &&& match format_of_path(path) {
        Some(f) => {
            &&& opt_str(new.dest) == path_parent(path)
            &&& action matches Action::List { path: p, format } && p@ == path && format == f
            &&& new == (Abyss {
                archive: new.archive,
                archive_format: Some(f),
                listing: None,
                dest: new.dest,
                status: Status::Idle,
                ..old
            })
        },
        None => {
            &&& new.status matches Status::Failed(m) && m@ == unknown_form()
            &&& action is Nothing
            &&& new == (Abyss {
                archive: new.archive,
                archive_format: None,
                listing: None,
                status: new.status,
                ..old
            })
        },
    }
}

/// The Commander moved to `loc`, showing `rows`, with nothing selected and no
/// error shown.
pub open spec fn placed(old: Abyss, new: Abyss, loc: Location, rows: Seq<(Seq<char>, RowKind, Option<u64>)>) -> bool {
    &&& rows_view(new.rows@) == rows
    &&& new == (Abyss { location: loc, rows: new.rows, selected: None, browse_error: None, ..old })
}

/// The rows a location inside an archive shows.
pub open spec fn archive_location_rows(loc: Location) -> Seq<(Seq<char>, RowKind, Option<u64>)> {
    match loc {
        Location::Archive { listing, inner, .. } => archive_rows_spec(listing.entries@, inner@),
        _ => Seq::empty(),
    }
}

/// A move to a location that `target` accepts: inside an archive it happens at
/// once; anywhere else the disk is read first.
pub open spec fn went_where(old: Abyss, new: Abyss, action: Action, target: spec_fn(Location) -> bool) -> bool {
    match action {
        Action::Visit(l) => target(l) && !(l is Archive) && new == old,
        Action::Nothing => new.location is Archive && target(new.location) && placed(
            old,
            new,
            new.location,
            archive_location_rows(new.location),
        ),
        _ => false,
    }
}

/// A move to `loc`.
pub open spec fn went(old: Abyss, new: Abyss, loc: Location, action: Action) -> bool {
    went_where(old, new, action, |l: Location| l == loc)
}

/// The action that steps into the archive `name` in `dir`: none when its
/// extension is unknown.
pub open spec fn entering(dir: Seq<char>, name: Seq<char>, quiet: bool, action: Action) -> bool {
    match format_of_path(path_join(dir, name)) {
        Some(f) => action matches Action::Enter { path, format, quiet: q } && path@ == path_join(dir, name)
            && format == f && q == quiet,
        None => action is Nothing,
    }
}

/// Whether the rows hold an archive named `name`.
pub open spec fn has_archive_row(rows: Seq<(Seq<char>, RowKind, Option<u64>)>, name: Seq<char>) -> bool {
    exists|i: int| 0 <= i < rows.len() && (#[trigger] rows[i]).1 == RowKind::Archive && rows[i].0 == name
}

/// The disk read at `loc` has come back: the Commander stands there, and steps
/// into the archive that was dropped, if one waits and is found.
pub open spec fn arrived(old: Abyss, new: Abyss, loc: Location, disk: Disk, action: Action) -> bool {
    &&& placed(Abyss { pending_archive: None, ..old }, new, loc, rows_spec(loc, disk))
    &&& match (old.pending_archive, loc) {
        (Some(name), Location::Fs(dir)) => if has_archive_row(rows_spec(loc, disk), name@) {
            entering(dir@, name@, true, action)
        } else {
            action is Nothing
        },
        _ => action is Nothing,
    }
}

/// A file row opened: a file on disk goes to the system; one inside an archive
/// is drawn out first, and shown as being opened.
pub open spec fn file_row_opened(old: Abyss, new: Abyss, name: Seq<char>, action: Action) -> bool {
    match old.location {
        Location::Fs(dir) => new == old && (action matches Action::OpenPath(p) && p@ == path_join(dir@, name)),
        Location::Archive { path, format, inner, .. } => {
            &&& action matches Action::OpenMember { src, format: f, member, name: n } && src@ == path@ && f
                == format && member@ == inner@ + name && n@ == name
            &&& new.opening matches Some(o) && o@ == name
            &&& new == (Abyss { opening: new.opening, browse_error: None, ..old })
        },
        Location::Drives => new == old && action is Nothing,
    }
}

/// Whether a click at `at` on row `i` follows the last one on the same row
/// within 450 ms.
pub open spec fn double_click(last: Option<(usize, u64)>, i: usize, at: u64) -> bool {
    last matches Some((j, t)) && j == i && (at < t || at - t < 450)
}

/// A click on row `i` at `at` milliseconds: a file is selected, and opened on
/// a double click; any other row is stepped into, or selected where that leads
/// nowhere.
pub open spec fn row_activated(old: Abyss, new: Abyss, i: usize, at: u64, action: Action) -> bool {
    let clicked = Abyss { last_click: Some((i, at)), ..old };
    let chosen = Abyss { selected: Some(i), ..clicked };
    if i >= old.rows@.len() {
        new == clicked && action is Nothing
    } else {
        let row = old.rows@[i as int];
        match row.kind {
            RowKind::File => if double_click(old.last_click, i, at) {
                file_row_opened(chosen, new, row.name@, action)
            } else {
                new == chosen && action is Nothing
            },
            RowKind::Parent => match old.location {
                Location::Drives => new == chosen && action is Nothing,
                _ => went_where(clicked, new, action, |l: Location| up_target(old.location, l)),
            },
            RowKind::Drive => went_where(
                clicked,
                new,
                action,
                |l: Location| l matches Location::Fs(d) && d@ == row.name@,
            ),
            RowKind::Dir => match old.location {
                Location::Fs(dir) => went_where(
                    clicked,
                    new,
                    action,
                    |l: Location| l matches Location::Fs(d) && d@ == path_join(dir@, row.name@),
                ),
                Location::Archive { path, format, listing, inner } => went_where(
                    clicked,
                    new,
                    action,
                    |l: Location|
                        l matches Location::Archive { path: p2, format: f2, listing: l2, inner: i2 } && p2@
                            == path@ && f2 == format && l2 == listing && i2@ == inner@ + row.name@ + "/"@,
                ),
                Location::Drives => new == chosen && action is Nothing,
            },
            RowKind::Archive => match old.location {
                Location::Fs(dir) => match format_of_path(path_join(dir@, row.name@)) {
                    Some(_) => new == clicked && entering(dir@, row.name@, false, action),
                    None => new == chosen && action is Nothing,
                },
                _ => new == chosen && action is Nothing,
            },
        }
    }
}

/// The listing of an archive being stepped into has come back: its root on
/// success, else the reason shown (unless asked to stay quiet).
pub open spec fn archive_entered(
    old: Abyss,
    new: Abyss,
    path: String,
    format: Format,
    listing: Result<Listing, String>,
    quiet: bool,
    action: Action,
) -> bool {
    &&& action is Nothing
    &&& match listing {
        Ok(l) => {
            &&& new.location matches Location::Archive { path: p, format: f, listing: l2, inner } && p == path
                && f == format && *l2 == l && inner@.len() == 0
            &&& placed(old, new, new.location, archive_rows_spec(l.entries@, Seq::empty()))
        },
        Err(e) => if quiet {
            new == old
        } else {
            &&& new.browse_error matches Some(m) && m@ == "could not read archive: "@ + e@
            &&& new == (Abyss { browse_error: new.browse_error, ..old })
        },
    }
}

/// The full path of the selected row, when the Commander stands in a directory
/// and the row is a file, a folder or an archive.
pub open spec fn selected_path(s: Abyss) -> Option<Seq<char>> {
    match (s.location, s.selected) {
        (Location::Fs(dir), Some(i)) => if i < s.rows@.len() && (s.rows@[i as int].kind is File
            || s.rows@[i as int].kind is Dir || s.rows@[i as int].kind is Archive) {
            Some(path_join(dir@, s.rows@[i as int].name@))
        } else {
            None
        },
        _ => None,
    }
}

/// A path dropped on the Commander: a folder is entered; a known archive is
/// stepped into from its folder; anything else shows its folder.
pub open spec fn dropped_on_commander(old: Abyss, new: Abyss, path: Seq<char>, is_dir: bool, action: Action) -> bool {
    let archive = !is_dir && format_of_path(path) is Some && path_parent(path) is Some;
    &&& opt_str(new.pending_archive) == if archive {
        path_file_name(path)
    } else {
        None
    }
    &&& new == (Abyss { pending_archive: new.pending_archive, ..old })
    &&& if is_dir {
        action matches Action::Visit(Location::Fs(d)) && d@ == path
    } else {
        match path_parent(path) {
            Some(dir) => action matches Action::Visit(Location::Fs(d)) && d@ == dir,
            None => action is Nothing,
        }
    }
}

/// A path dropped on the window: a source for Compress, the archive for
/// Extract, a place for the Commander.
pub open spec fn file_dropped(old: Abyss, new: Abyss, path: Seq<char>, is_dir: bool, action: Action) -> bool {
    match old.mode {
        Mode::Compress => added(old, new, seq![path]) && action is Nothing,
        Mode::Extract => archive_loaded(old, new, path, action),
        Mode::Browse => dropped_on_commander(old, new, path, is_dir, action),
    }
}

/// Paths forwarded by other launches: added as sources, unless none came or a
/// job is running.
pub open spec fn forwarded(old: Abyss, new: Abyss, paths: Seq<Seq<char>>) -> bool {
    if paths.len() > 0 && !(old.status is Running) {
        added(Abyss { mode: Mode::Compress, status: Status::Idle, ..old }, new, paths)
    } else {
        new == old
    }
}

/// Whether the panel has what it needs to start and no job runs.
pub open spec fn ready_spec(s: Abyss) -> bool {
    &&& !(s.status is Running)
    &&& match s.mode {
        Mode::Compress => s.inputs@.len() > 0 && s.output is Some,
        Mode::Extract => s.archive is Some && s.archive_format is Some && s.dest is Some,
        Mode::Browse => false,
    }
}

/// The output with the kind's extension enforced; a bare name is placed beside
/// the first source.
pub open spec fn finalized(out: Seq<char>, k: ArchiveKind, ins: Seq<Seq<char>>) -> Seq<char> {
    let fixed = reext_spec(out, kind_extension(k));
    let bare = match path_parent(fixed) {
        Some(p) => p.len() == 0,
        None => true,
    };
    let dir = if ins.len() > 0 {
        path_parent(ins[0])
    } else {
        None
    };
    match (path_file_name(fixed), dir) {
        (Some(name), Some(d)) => if bare {
            path_join(d, name)
        } else {
            fixed
        },
        _ => fixed,
    }
}

/// The level handed to the engine: the chosen one for kinds that have levels.
pub open spec fn level_for(k: ArchiveKind, level: i32) -> Option<i32> {
    match kind_levels(k) {
        Some(_) => Some(level),
        None => None,
    }
}

/// Start pressed: nothing unless ready; else the job goes out (the output first
/// given its extension) and the window waits for it.
pub open spec fn started(old: Abyss, new: Abyss, action: Action) -> bool {
    if !ready_spec(old) {
        new == old && action is Nothing
    } else {
        match old.mode {
            Mode::Compress => {
                let out = finalized(old.output->0@, old.kind, strs(old.inputs@));
                &&& opt_str(new.output) == Some(out)
                &&& new == (Abyss { output: new.output, job: true, status: Status::Running, ..old })
                &&& action matches Action::Compress { inputs, dest, format, options, label } && strs(inputs@)
                    == strs(old.inputs@) && dest@ == out && format == kind_format(old.kind) && options.level
                    == level_for(old.kind, old.level) && options.threads == old.threads as u32 && label@
                    == kind_short(old.kind) + "   ("@ + kind_extension(old.kind) + ")"@
            },
            Mode::Extract => {
                &&& new == (Abyss { job: true, status: Status::Running, ..old })
                &&& action matches Action::Extract { src, dest, format } && src@ == old.archive->0@ && dest@
                    == old.dest->0@ && format == old.archive_format->0
            },
            Mode::Browse => false,
        }
    }
}

/// The job's outcome has come back.
pub open spec fn finished(old: Abyss, new: Abyss, result: Result<String, String>) -> bool {
    if old.job {
        new == (Abyss {
            job: false,
            status: match result {
                Ok(m) => Status::Done(m),
                Err(m) => Status::Failed(m),
            },
            ..old
        })
    } else {
        new == old
    }
}

/// The fresh window standing at `location`.
pub open spec fn fresh(s: Abyss, location: Location, disk: Disk) -> bool {
    &&& s.mode == Mode::Compress
    &&& s.inputs@.len() == 0
    &&& s.kind == ArchiveKind::Zstd
    &&& s.level == default_level_of(ArchiveKind::Zstd)
    &&& s.threads == 0
    &&& s.output is None
    &&& s.output_is_auto
    &&& s.archive is None
    &&& s.archive_format is None
    &&& s.listing is None
    &&& s.dest is None
    &&& s.location == location
    &&& rows_view(s.rows@) == rows_spec(location, disk)
    &&& s.selected is None
    &&& s.browse_error is None
    &&& s.opening is None
    &&& s.last_click is None
    &&& s.pending_archive is None
    &&& !s.job
    &&& s.status is Idle
    &&& s.update is None
    &&& !s.ipc_enabled
}

/// What a launch asks of the window: its panel, with the launch's path as a
/// source, as the archive, or as the place to show.
pub open spec fn launched(old: Abyss, new: Abyss, launch: Launch, is_dir: bool, action: Action) -> bool {
    match launch {
        Launch::Normal => new == old && action is Nothing,
        Launch::Compress(p) => added(Abyss { mode: Mode::Compress, ..old }, new, seq![p@]) && action is Nothing,
        Launch::Extract(p) => archive_loaded(Abyss { mode: Mode::Extract, ..old }, new, p@, action),
        Launch::Browse(p) => dropped_on_commander(Abyss { mode: Mode::Browse, ..old }, new, p@, is_dir, action),
    }
}

/// The hint the status band shows while idle.
pub open spec fn idle_hint_spec(s: Abyss) -> Seq<char> {
    match s.mode {
        Mode::Compress => if s.inputs@.len() == 0 {
            "Add sources to begin."@
        } else if s.output is None {
            "Name the orb to compress into."@
        } else {
            "Ready to fold."@
        },
        Mode::Extract => if s.archive_format is None {
            "Open an archive to begin."@
        } else if s.dest is None {
            "Choose where to unfold it."@
        } else {
            "Ready to unfold."@
        },
        Mode::Browse => Seq::empty(),
    }
}

/// The number of rows other than `..`.
pub open spec fn item_count(rows: Seq<BrowseRow>) -> nat
    decreases rows.len(),
{
    if rows.len() == 0 {
        0
    } else {
        item_count(rows.drop_last()) + if rows.last().kind is Parent {
            0nat
        } else {
            1nat
        }
    }
}

/// The thread count set; a negative one counts as `0` (every core).
pub open spec fn threads_changed(old: Abyss, new: Abyss, t: i32) -> bool {
    new == (Abyss {
        threads: if t < 0 {
            0
        } else {
            t
        },
        ..old
    })
}

/// The output chosen in the save dialog, if any; from then on it is the user's.
pub open spec fn output_chosen(old: Abyss, new: Abyss, path: Option<String>) -> bool {
    match path {
        Some(p) => new == (Abyss { output: Some(p), output_is_auto: false, ..old }),
        None => new == old,
    }
}

/// The save dialog, on the suggested name beside the first source.
pub open spec fn save_offered(s: Abyss, action: Action) -> bool {
    action matches Action::SaveAs { name, dir } && name@ == suggested_name(strs(s.inputs@), s.kind) && opt_str(dir)
        == if s.inputs@.len() > 0 {
        path_parent(s.inputs@[0]@)
    } else {
        None
    }
}

/// The folder dialog, where the archive lies.
pub open spec fn dest_offered(s: Abyss, action: Action) -> bool {
    action matches Action::PickDest { dir } && opt_str(dir) == match s.archive {
        Some(a) => path_parent(a@),
        None => None,
    }
}

/// The destination chosen, if any.
pub open spec fn dest_picked(old: Abyss, new: Abyss, path: Option<String>) -> bool {
    match path {
        Some(p) => new == (Abyss { dest: Some(p), ..old }),
        None => new == old,
    }
}

/// The listing of the archive at `path` kept, if that archive is still the open one.
pub open spec fn listing_taken(old: Abyss, new: Abyss, path: Seq<char>, listing: Option<Listing>) -> bool {
    if old.archive matches Some(a) && a@ == path {
        new == (Abyss { listing, ..old })
    } else {
        new == old
    }
}

/// A step up, where there is somewhere to go.
pub open spec fn stepped_up(old: Abyss, new: Abyss, action: Action) -> bool {
    if old.location is Drives {
        new == old && action is Nothing
    } else {
        went_where(old, new, action, |l: Location| up_target(old.location, l))
    }
}

/// The selected row sent to the Compress panel as a source.
pub open spec fn sent_to_compress(old: Abyss, new: Abyss) -> bool {
    match selected_path(old) {
        Some(p) => added(Abyss { mode: Mode::Compress, status: Status::Idle, ..old }, new, seq![p]),
        None => new == old,
    }
}

/// The archive the Commander is inside opened for extraction.
pub open spec fn extracting_here(old: Abyss, new: Abyss, action: Action) -> bool {
    match old.location {
        Location::Archive { path, .. } => archive_loaded(Abyss { mode: Mode::Extract, ..old }, new, path@, action),
        _ => new == old && action is Nothing,
    }
}

/// The member being opened is done with: what went wrong, if anything, shown.
pub open spec fn member_opened(old: Abyss, new: Abyss, result: Result<(), String>) -> bool {
    match result {
        Ok(()) => new == (Abyss { opening: None, ..old }),
        Err(e) => new == (Abyss { opening: None, browse_error: Some(e), ..old }),
    }
}

/// The release page opened, if a release was found, and the prompt put away.
pub open spec fn release_opened(old: Abyss, new: Abyss, action: Action) -> bool {
    &&& new == (Abyss { update: None, ..old })
    &&& match old.update {
        Some(u) => action matches Action::OpenUrl(url) && url@ == u.url@,
        None => action is Nothing,
    }
}

/// What one message does: the state it leaves and the action it asks for.
pub open spec fn stepped(old: Abyss, new: Abyss, message: Message, action: Action) -> bool {
    match message {
        Message::ModeSelected(m) => mode_selected(old, new, m) && action is Nothing,
        Message::AddFiles => new == old && action is PickFiles,
        Message::AddFolder => new == old && action is PickFolder,
        Message::FilesPicked(ps) => action is Nothing && if ps@.len() > 0 {
            added(old, new, strs(ps@))
        } else {
            new == old
        },
        Message::FolderPicked(o) => action is Nothing && match o {
            Some(p) => added(old, new, seq![p@]),
            None => new == old,
        },
        Message::RemoveInput(i) => input_removed(old, new, i) && action is Nothing,
        Message::ClearInputs => inputs_cleared(old, new) && action is Nothing,
        Message::KindSelected(k) => kind_selected(old, new, k) && action is Nothing,
        Message::LevelChanged(l) => new == (Abyss { level: l, ..old }) && action is Nothing,
        Message::ThreadsChanged(t) => threads_changed(old, new, t) && action is Nothing,
        Message::OutputEdited(s) => output_edited(old, new, s@) && action is Nothing,
        Message::BrowseOutput => new == old && save_offered(old, action),
        Message::OutputChosen(o) => output_chosen(old, new, o) && action is Nothing,
        Message::OpenArchive => new == old && action is PickArchive,
        Message::ArchivePicked(o) => match o {
            Some(p) => archive_loaded(old, new, p@, action),
            None => new == old && action is Nothing,
        },
        Message::ChooseDest => new == old && dest_offered(old, action),
        Message::DestPicked(o) => dest_picked(old, new, o) && action is Nothing,
        Message::BrowseActivate { index, at_ms } => row_activated(old, new, index, at_ms, action),
        Message::BrowseUp => stepped_up(old, new, action),
        Message::BrowseHome => went(old, new, Location::Drives, action),
        Message::BrowseRefresh => went(old, new, old.location, action),
        Message::BrowseToCompress => sent_to_compress(old, new) && action is Nothing,
        Message::BrowseExtractHere => extracting_here(old, new, action),
        Message::Start => started(old, new, action),
        Message::FileDropped { path, is_dir } => file_dropped(old, new, path@, is_dir, action),
        Message::FileOpened(result) => member_opened(old, new, result) && action is Nothing,
        Message::PollExternal(ps) => forwarded(old, new, strs(ps@)) && action is Nothing,
        Message::UpdateChecked(info) => new == (Abyss { update: info, ..old }) && action is Nothing,
        Message::OpenRelease => release_opened(old, new, action),
        Message::DismissUpdate => new == (Abyss { update: None, ..old }) && action is Nothing,
        Message::Arrived { location, disk } => arrived(old, new, location, disk, action),
        Message::Entered { path, format, listing, quiet } => archive_entered(
            old,
            new,
            path,
            format,
            listing,
            quiet,
            action,
        ),
        Message::Listed { path, listing } => listing_taken(old, new, path@, listing) && action is Nothing,
        Message::JobFinished(result) => finished(old, new, result) && action is Nothing,
    }
}

// --- The window's logic -----------------------------------------------------------

impl Abyss {
    /// A fresh window standing at `location`, given what the disk holds there.
    pub fn new(location: Location, disk: &Disk) -> (r: Self)
        requires
            location is Drives ==> disk.drives@.len() == 26,
        ensures
            r.wf(),
            fresh(r, location, *disk),
    {
        let rows = rows_for(&location, disk);
        Abyss {
            mode: Mode::Compress,
            inputs: Vec::new(),
            kind: ArchiveKind::Zstd,
            level: ArchiveKind::Zstd.default_level(),
            threads: 0,
            output: None,
            output_is_auto: true,
            archive: None,
            archive_format: None,
            listing: None,
            dest: None,
            location,
            rows,
            selected: None,
            browse_error: None,
            opening: None,
            last_click: None,
            pending_archive: None,
            job: false,
            status: Status::Idle,
            update: None,
            ipc_enabled: false,
        }
    }

    /// Whether a job is running.
    pub fn busy(&self) -> (r: bool)
        ensures
            r == self.busy_spec(),
    {
        matches!(self.status, Status::Running)
    }

    /// The archive name proposed for the current sources and kind.
    pub fn suggested_file_name(&self) -> (r: String)
        ensures
            r@ == suggested_name(strs(self.inputs@), self.kind),
    {
        let mut stem: String = String::from_str("archive");
        if self.inputs.len() > 0 {
            match file_stem_of(self.inputs[0].as_str()) {
                Some(s) => {
                    stem = s;
                },
                None => {},
            }
        }
        stem.append(self.kind.extension());
        stem
    }

    /// Whether the sources hold a path equal to `p`.
    fn has_input(&self, p: &str) -> (r: bool)
        ensures
            r == has_path(strs(self.inputs@), p@),
    {
        let mut j: usize = 0;
        while j < self.inputs.len()
            invariant
                j <= self.inputs@.len(),
                forall|i: int| 0 <= i < j ==> !path_eq(#[trigger] strs(self.inputs@)[i], p@),
            decreases self.inputs@.len() - j,
        {
            if same_path(self.inputs[j].as_str(), p) {
                assert(path_eq(strs(self.inputs@)[j as int], p@));
                return true;
            }
            j += 1;
        }
        false
    }

    /// Add the sources that are not there yet, in order, and re-suggest the output.
    fn add_inputs(&mut self, paths: Vec<String>)
        requires
            old(self).wf(),
        ensures
            final(self).wf(),
            added(*old(self), *final(self), strs(paths@)),
    {
        let ghost ps = strs(paths@);
        let ghost start = strs(self.inputs@);
        let mut k: usize = 0;
        while k < paths.len()
            invariant
                k <= paths@.len(),
                ps == strs(paths@),
                strs(self.inputs@) == add_paths(start, ps.take(k as int)),
                distinct_paths(strs(self.inputs@)),
                *self == (Abyss { inputs: self.inputs, ..*old(self) }),
            decreases paths@.len() - k,
        {
            proof {
                assert(ps.take(k + 1).drop_last() =~= ps.take(k as int));
                assert(ps.take(k + 1).last() == ps[k as int]);
            }
            let p = paths[k].clone();
            if !self.has_input(p.as_str()) {
                let ghost before = strs(self.inputs@);
                self.inputs.push(p);
                proof {
                    assert(strs(self.inputs@) =~= before.push(p@));
                    let now = strs(self.inputs@);
                    assert forall|i: int, j: int| 0 <= i < j < now.len() implies !path_eq(
                        #[trigger] now[i],
                        #[trigger] now[j],
                    ) by {
                        if j == now.len() - 1 {
                            assert(now[j] == p@);
                            assert(now[i] == before[i]);
                        } else {
                            assert(now[i] == before[i]);
                            assert(now[j] == before[j]);
                        }
                    }
                }
            }
            k += 1;
        }
        proof {
            assert(ps.take(paths@.len() as int) =~= ps);
        }
        self.refresh_suggested_output();
    }

    /// Re-suggest the output, unless the user has taken it in hand.
    fn refresh_suggested_output(&mut self)
        ensures
            refreshed(*old(self), *final(self)),
            *final(self) == (Abyss { output: final(self).output, ..*old(self) }),
    {
        if !self.output_is_auto {
            return;
        }
        if self.inputs.len() == 0 {
            self.output = None;
        } else {
            let name = self.suggested_file_name();
            let dir: String = match parent_of(self.inputs[0].as_str()) {
                Some(d) => d,
                None => String::new(),
            };
            self.output = Some(join(dir.as_str(), name.as_str()));
        }
    }
}

impl Abyss {
    /// Switch panels, unless a job is running.
    pub fn select_mode(&mut self, m: Mode)
        requires
            old(self).wf(),
        ensures
            final(self).wf(),
            mode_selected(*old(self), *final(self), m),
    {
        if !self.busy() {
            self.mode = m;
            self.status = Status::Idle;
        }
    }

    /// Drop the source at `i`, if there is one.
    pub fn remove_input(&mut self, i: usize)
        requires
            old(self).wf(),
        ensures
            final(self).wf(),
            input_removed(*old(self), *final(self), i),
    {
        if i < self.inputs.len() {
            let ghost before = strs(self.inputs@);
            self.inputs.remove(i);
            proof {
                let now = strs(self.inputs@);
                assert(now =~= before.remove(i as int));
                assert forall|a: int, b: int| 0 <= a < b < now.len() implies !path_eq(
                    #[trigger] now[a],
                    #[trigger] now[b],
                ) by {
                    let a2 = if a < i { a } else { a + 1 };
                    let b2 = if b < i { b } else { b + 1 };
                    assert(now[a] == before[a2]);
                    assert(now[b] == before[b2]);
                }
            }
            self.refresh_suggested_output();
        }
    }

    /// Drop every source.
    pub fn clear_inputs(&mut self)
        requires
            old(self).wf(),
        ensures
            final(self).wf(),
            inputs_cleared(*old(self), *final(self)),
    {
        self.inputs.clear();
        proof {
            assert(strs(self.inputs@) =~= Seq::<Seq<char>>::empty());
        }
        self.refresh_suggested_output();
    }

    /// Choose the kind of archive to make.
    pub fn select_kind(&mut self, kind: ArchiveKind)
        requires
            old(self).wf(),
        ensures
            final(self).wf(),
            kind_selected(*old(self), *final(self), kind),
    {
        self.kind = kind;
        self.level = kind.default_level();
        if self.output_is_auto {
            self.refresh_suggested_output();
        } else {
            match &self.output {
                Some(out) => {
                    let fixed = reext(out.as_str(), kind.extension());
                    self.output = Some(fixed);
                },
                None => {},
            }
        }
    }

    /// Set the effort level.
    pub fn change_level(&mut self, level: i32)
        requires
            old(self).wf(),
        ensures
            final(self).wf(),
            *final(self) == (Abyss { level, ..*old(self) }),
    {
        self.level = level;
    }

    /// Set the thread count; a negative one counts as `0` (every core).
    pub fn change_threads(&mut self, threads: i32)
        requires
            old(self).wf(),
        ensures
            final(self).wf(),
            threads_changed(*old(self), *final(self), threads),
    {
        self.threads = if threads < 0 {
            0
        } else {
            threads
        };
    }

    /// Take the output the user typed; from now on it is theirs.
    pub fn edit_output(&mut self, s: String)
        requires
            old(self).wf(),
        ensures
            final(self).wf(),
            output_edited(*old(self), *final(self), s@),
    {
        self.output_is_auto = false;
        let c = chars_of(s.as_str());
        let t = trim_chars(c.as_slice());
        if t.len() == 0 {
            self.output = None;
        } else {
            self.output = Some(s);
        }
    }

    /// Take the output the user chose in the save dialog, if any.
    pub fn choose_output(&mut self, path: Option<String>)
        requires
            old(self).wf(),
        ensures
            final(self).wf(),
            output_chosen(*old(self), *final(self), path),
    {
        match path {
            Some(p) => {
                self.output = Some(p);
                self.output_is_auto = false;
            },
            None => {},
        }
    }

    /// Open the save dialog on the suggested name, beside the first source.
    pub fn browse_output(&self) -> (r: Action)
        ensures
            save_offered(*self, r),
    {
        let name = self.suggested_file_name();
        let dir = if self.inputs.len() > 0 {
            parent_of(self.inputs[0].as_str())
        } else {
            None
        };
        Action::SaveAs { name, dir }
    }

    /// Open the archive at `path` for extraction.
    pub fn load_archive(&mut self, path: String) -> (r: Action)
        requires
            old(self).wf(),
        ensures
            final(self).wf(),
            archive_loaded(*old(self), *final(self), path@, r),
    {
        match Format::from_path(path.as_str()) {
            Some(format) => {
                self.archive_format = Some(format);
                self.listing = None;
                self.dest = parent_of(path.as_str());
                self.archive = Some(path.clone());
                self.status = Status::Idle;
                Action::List { path, format }
            },
            None => {
                self.archive = Some(path);
                self.archive_format = None;
                self.listing = None;
                let m = String::from_str("Unknown extension — the Abyss does not recognize this form.");
                proof {
                    reveal_strlit("Unknown extension — the Abyss does not recognize this form.");
                }
                self.status = Status::Failed(m);
                Action::Nothing
            },
        }
    }

    /// Open the folder dialog where the archive lies.
    pub fn choose_dest(&self) -> (r: Action)
        ensures
            dest_offered(*self, r),
    {
        let dir = match &self.archive {
            Some(a) => parent_of(a.as_str()),
            None => None,
        };
        Action::PickDest { dir }
    }

    /// Take the destination the user chose, if any.
    pub fn pick_dest(&mut self, path: Option<String>)
        requires
            old(self).wf(),
        ensures
            final(self).wf(),
            dest_picked(*old(self), *final(self), path),
    {
        match path {
            Some(p) => {
                self.dest = Some(p);
            },
            None => {},
        }
    }

    /// Take the listing of the archive at `path`, if it is still the open one.
    pub fn take_listing(&mut self, path: &str, listing: Option<Listing>)
        requires
            old(self).wf(),
        ensures
            final(self).wf(),
            listing_taken(*old(self), *final(self), path@, listing),
    {
        let current = match &self.archive {
            Some(a) => chars_eq(chars_of(a.as_str()).as_slice(), path),
            None => false,
        };
        if current {
            self.listing = listing;
        }
    }
}

impl Abyss {
    /// Stand at `loc`, given what the disk holds there.
    fn place(&mut self, loc: Location, disk: &Disk)
        requires
            old(self).wf(),
            loc is Drives ==> disk.drives@.len() == 26,
        ensures
            final(self).wf(),
            placed(*old(self), *final(self), loc, rows_spec(loc, *disk)),
    {
        let rows = rows_for(&loc, disk);
        self.location = loc;
        self.rows = rows;
        self.selected = None;
        self.browse_error = None;
    }

    /// Move to `loc`: at once inside an archive, else once the disk is read.
    fn go(&mut self, loc: Location) -> (r: Action)
        requires
            old(self).wf(),
        ensures
            final(self).wf(),
            went(*old(self), *final(self), loc, r),
    {
        if loc.in_archive() {
            let empty = Disk { drives: Vec::new(), unix_root: false, entries: Vec::new() };
            self.place(loc, &empty);
            Action::Nothing
        } else {
            Action::Visit(loc)
        }
    }

    /// Whether a row is an archive named `name`.
    fn find_archive_row(&self, name: &str) -> (r: bool)
        ensures
            r == has_archive_row(rows_view(self.rows@), name@),
    {
        let ghost rv = rows_view(self.rows@);
        let mut i: usize = 0;
        while i < self.rows.len()
            invariant
                i <= self.rows@.len(),
                rv == rows_view(self.rows@),
                forall|k: int| 0 <= k < i ==> !((#[trigger] rv[k]).1 == RowKind::Archive && rv[k].0 == name@),
            decreases self.rows@.len() - i,
        {
            if self.rows[i].kind == RowKind::Archive && chars_eq(chars_of(self.rows[i].name.as_str()).as_slice(), name) {
                assert(rv[i as int].1 == RowKind::Archive && rv[i as int].0 == name@);
                return true;
            }
            i += 1;
        }
        false
    }

    /// The disk read at `loc` has come back.
    pub fn arrive(&mut self, loc: Location, disk: &Disk) -> (r: Action)
        requires
            old(self).wf(),
            loc is Drives ==> disk.drives@.len() == 26,
        ensures
            final(self).wf(),
            arrived(*old(self), *final(self), loc, *disk, r),
    {
        let pending = match &self.pending_archive {
            Some(n) => Some(n.clone()),
            None => None,
        };
        self.pending_archive = None;
        self.place(loc, disk);
        let dir = match &self.location {
            Location::Fs(d) => Some(d.clone()),
            _ => None,
        };
        match (pending, dir) {
            (Some(name), Some(d)) => {
                if self.find_archive_row(name.as_str()) {
                    let target = join(d.as_str(), name.as_str());
                    match Format::from_path(target.as_str()) {
                        Some(format) => Action::Enter { path: target, format, quiet: true },
                        None => Action::Nothing,
                    }
                } else {
                    Action::Nothing
                }
            },
            _ => Action::Nothing,
        }
    }

    /// Open the file row named `name` where the Commander stands.
    fn open_file_row(&mut self, name: String) -> (r: Action)
        requires
            old(self).wf(),
        ensures
            final(self).wf(),
            file_row_opened(*old(self), *final(self), name@, r),
    {
        let target = match &self.location {
            Location::Fs(dir) => Some((true, join(dir.as_str(), name.as_str()), None)),
            Location::Archive { path, format, inner, .. } => {
                let mut member = inner.clone();
                member.append(name.as_str());
                Some((false, member, Some((path.clone(), *format))))
            },
            Location::Drives => None,
        };
        match target {
            Some((true, p, _)) => Action::OpenPath(p),
            Some((false, member, Some((src, format)))) => {
                self.opening = Some(name.clone());
                self.browse_error = None;
                Action::OpenMember { src, format, member, name }
            },
            _ => Action::Nothing,
        }
    }

    /// A click on row `i` at `at` milliseconds.
    pub fn activate_row(&mut self, i: usize, at: u64) -> (r: Action)
        requires
            old(self).wf(),
        ensures
            final(self).wf(),
            row_activated(*old(self), *final(self), i, at, r),
    {
        let double = match self.last_click {
            Some((j, t)) => j == i && (at < t || at - t < 450),
            None => false,
        };
        self.last_click = Some((i, at));
        if i >= self.rows.len() {
            return Action::Nothing;
        }
        let kind = self.rows[i].kind;
        if kind == RowKind::File {
            self.selected = Some(i);
            if double {
                let name = self.rows[i].name.clone();
                return self.open_file_row(name);
            }
            return Action::Nothing;
        }
        let row = BrowseRow { name: self.rows[i].name.clone(), kind, size: self.rows[i].size };
        match activate(&self.location, &row) {
            Activated::Go(loc) => self.go(loc),
            Activated::Stay => {
                self.selected = Some(i);
                Action::Nothing
            },
            Activated::Error(e) => {
                self.browse_error = Some(e);
                Action::Nothing
            },
            Activated::Open { path, format } => Action::Enter { path, format, quiet: false },
        }
    }

    /// Step up, when there is somewhere to go.
    pub fn go_up(&mut self) -> (r: Action)
        requires
            old(self).wf(),
        ensures
            final(self).wf(),
            stepped_up(*old(self), *final(self), r),
    {
        match up(&self.location) {
            Some(l) => self.go(l),
            None => Action::Nothing,
        }
    }

    /// Go to the list of drives.
    pub fn go_home(&mut self) -> (r: Action)
        requires
            old(self).wf(),
        ensures
            final(self).wf(),
            went(*old(self), *final(self), Location::Drives, r),
    {
        self.go(Location::Drives)
    }

    /// Read again where the Commander stands.
    pub fn refresh(&mut self) -> (r: Action)
        requires
            old(self).wf(),
        ensures
            final(self).wf(),
            went(*old(self), *final(self), old(self).location, r),
    {
        let here = copy_location(&self.location);
        self.go(here)
    }

    /// The listing of the archive being stepped into has come back.
    pub fn enter_archive(&mut self, path: String, format: Format, listing: Result<Listing, String>, quiet: bool) -> (r: Action)
        requires
            old(self).wf(),
        ensures
            final(self).wf(),
            archive_entered(*old(self), *final(self), path, format, listing, quiet, r),
    {
        match entered(path, format, listing) {
            Activated::Go(loc) => {
                proof {
                    assert(loc->inner@ =~= Seq::<char>::empty());
                }
                self.go(loc)
            },
            Activated::Error(m) => {
                if !quiet {
                    self.browse_error = Some(m);
                }
                Action::Nothing
            },
            _ => Action::Nothing,
        }
    }

    /// The full path of the selected row, when it is a file, folder or archive
    /// in a directory.
    pub fn selected_fs_path(&self) -> (r: Option<String>)
        ensures
            opt_str(r) == selected_path(*self),
    {
        match (&self.location, self.selected) {
            (Location::Fs(dir), Some(i)) => {
                if i < self.rows.len() {
                    let kind = self.rows[i].kind;
                    if kind == RowKind::File || kind == RowKind::Dir || kind == RowKind::Archive {
                        return Some(join(dir.as_str(), self.rows[i].name.as_str()));
                    }
                }
                None
            },
            _ => None,
        }
    }

    /// Send the selected row to the Compress panel.
    pub fn to_compress(&mut self)
        requires
            old(self).wf(),
        ensures
            final(self).wf(),
            sent_to_compress(*old(self), *final(self)),
    {
        match self.selected_fs_path() {
            Some(p) => {
                let ghost pv = p@;
                let mut v: Vec<String> = Vec::new();
                v.push(p);
                proof {
                    assert(strs(v@) =~= seq![pv]);
                }
                self.mode = Mode::Compress;
                self.status = Status::Idle;
                self.add_inputs(v);
            },
            None => {},
        }
    }

    /// Open the archive the Commander is inside for extraction.
    pub fn extract_here(&mut self) -> (r: Action)
        requires
            old(self).wf(),
        ensures
            final(self).wf(),
            extracting_here(*old(self), *final(self), r),
    {
        let path = match &self.location {
            Location::Archive { path, .. } => Some(path.clone()),
            _ => None,
        };
        match path {
            Some(p) => {
                self.mode = Mode::Extract;
                self.load_archive(p)
            },
            None => Action::Nothing,
        }
    }

    /// A path dropped while the Commander shows.
    fn drop_on_commander(&mut self, path: String, is_dir: bool) -> (r: Action)
        requires
            old(self).wf(),
        ensures
            final(self).wf(),
            dropped_on_commander(*old(self), *final(self), path@, is_dir, r),
    {
        if is_dir {
            self.pending_archive = None;
            return Action::Visit(Location::Fs(path));
        }
        let known = Format::from_path(path.as_str()).is_some();
        match parent_of(path.as_str()) {
            Some(dir) => {
                self.pending_archive = if known {
                    file_name_of(path.as_str())
                } else {
                    None
                };
                Action::Visit(Location::Fs(dir))
            },
            None => {
                self.pending_archive = None;
                Action::Nothing
            },
        }
    }

    /// What the member being opened came to.
    pub fn file_opened(&mut self, result: Result<(), String>)
        requires
            old(self).wf(),
        ensures
            final(self).wf(),
            member_opened(*old(self), *final(self), result),
    {
        self.opening = None;
        match result {
            Ok(()) => {},
            Err(e) => {
                self.browse_error = Some(e);
            },
        }
    }
}

/// What the Commander's status line tells.
pub enum BrowseStatus {
    /// A member named so is being drawn out of an archive to open.
    Opening(String),
    /// What went wrong last.
    Error(String),
    /// The full path of the selected row.
    Selected(String),
    /// How many rows other than `..` show, and whether inside an archive.
    Summary { count: usize, in_archive: bool },
}

impl Abyss {
    /// A path dropped on the window.
    pub fn drop_path(&mut self, path: String, is_dir: bool) -> (r: Action)
        requires
            old(self).wf(),
        ensures
            final(self).wf(),
            file_dropped(*old(self), *final(self), path@, is_dir, r),
    {
        match self.mode {
            Mode::Compress => {
                let ghost pv = path@;
                let mut v: Vec<String> = Vec::new();
                v.push(path);
                proof {
                    assert(strs(v@) =~= seq![pv]);
                }
                self.add_inputs(v);
                Action::Nothing
            },
            Mode::Extract => self.load_archive(path),
            Mode::Browse => self.drop_on_commander(path, is_dir),
        }
    }

    /// Paths forwarded by other launches of the program.
    pub fn take_forwarded(&mut self, paths: Vec<String>)
        requires
            old(self).wf(),
        ensures
            final(self).wf(),
            forwarded(*old(self), *final(self), strs(paths@)),
    {
        if paths.len() > 0 && !self.busy() {
            self.mode = Mode::Compress;
            self.status = Status::Idle;
            self.add_inputs(paths);
        }
    }

    /// Whether Start can go ahead.
    pub fn ready(&self) -> (r: bool)
        ensures
            r == ready_spec(*self),
    {
        if self.busy() {
            return false;
        }
        match self.mode {
            Mode::Compress => self.inputs.len() > 0 && self.output.is_some(),
            Mode::Extract => self.archive.is_some() && self.archive_format.is_some() && self.dest.is_some(),
            Mode::Browse => false,
        }
    }

    /// The output with the kind's extension enforced: a name typed bare, or
    /// with another suffix, gains the kind's extension, and a bare one is
    /// placed beside the first source.
    pub fn finalized_output(&self) -> (r: Option<String>)
        ensures
            opt_str(r) == match self.output {
                Some(o) => Some(finalized(o@, self.kind, strs(self.inputs@))),
                None => None,
            },
    {
        match &self.output {
            None => None,
            Some(raw) => {
                let fixed = reext(raw.as_str(), self.kind.extension());
                let bare = match parent_of(fixed.as_str()) {
                    Some(p) => p.as_str().is_empty(),
                    None => true,
                };
                let dir = if self.inputs.len() > 0 {
                    parent_of(self.inputs[0].as_str())
                } else {
                    None
                };
                match (file_name_of(fixed.as_str()), dir) {
                    (Some(name), Some(d)) => {
                        if bare {
                            Some(join(d.as_str(), name.as_str()))
                        } else {
                            Some(fixed)
                        }
                    },
                    _ => Some(fixed),
                }
            },
        }
    }

    /// A copy of the sources.
    fn copy_inputs(&self) -> (r: Vec<String>)
        ensures
            r@ == self.inputs@,
    {
        let mut v: Vec<String> = Vec::new();
        let mut i: usize = 0;
        while i < self.inputs.len()
            invariant
                i <= self.inputs@.len(),
                v@ == self.inputs@.take(i as int),
            decreases self.inputs@.len() - i,
        {
            v.push(self.inputs[i].clone());
            i += 1;
            proof {
                assert(v@ =~= self.inputs@.take(i as int));
            }
        }
        proof {
            assert(self.inputs@.take(i as int) =~= self.inputs@);
        }
        v
    }

    /// Start pressed: send the job out, when the panel is ready.
    pub fn start(&mut self) -> (r: Action)
        requires
            old(self).wf(),
        ensures
            final(self).wf(),
            started(*old(self), *final(self), r),
    {
        if !self.ready() {
            return Action::Nothing;
        }
        match self.mode {
            Mode::Compress => match self.finalized_output() {
                Some(dest) => {
                    self.output = Some(dest.clone());
                    let inputs = self.copy_inputs();
                    let level = match self.kind.level_range() {
                        Some(_) => Some(self.level),
                        None => None,
                    };
                    let options = CodecOptions::new(level, self.threads as u32);
                    let label = self.kind.display_name();
                    self.job = true;
                    self.status = Status::Running;
                    Action::Compress { inputs, dest, format: self.kind.format(), options, label }
                },
                None => Action::Nothing,
            },
            Mode::Extract => {
                let job = match (&self.archive, &self.dest, self.archive_format) {
                    (Some(a), Some(d), Some(f)) => Some((a.clone(), d.clone(), f)),
                    _ => None,
                };
                match job {
                    Some((src, dest, format)) => {
                        self.job = true;
                        self.status = Status::Running;
                        Action::Extract { src, dest, format }
                    },
                    None => Action::Nothing,
                }
            },
            Mode::Browse => Action::Nothing,
        }
    }

    /// The job's outcome, as the band is to report it.
    pub fn finish(&mut self, result: Result<String, String>)
        requires
            old(self).wf(),
        ensures
            final(self).wf(),
            finished(*old(self), *final(self), result),
    {
        if self.job {
            self.job = false;
            self.status = match result {
                Ok(m) => Status::Done(m),
                Err(m) => Status::Failed(m),
            };
        }
    }

    /// What the release check found.
    pub fn update_checked(&mut self, info: Option<UpdateInfo>)
        requires
            old(self).wf(),
        ensures
            final(self).wf(),
            *final(self) == (Abyss { update: info, ..*old(self) }),
    {
        self.update = info;
    }

    /// Go to the release page, and put the prompt away.
    pub fn open_release(&mut self) -> (r: Action)
        requires
            old(self).wf(),
        ensures
            final(self).wf(),
            release_opened(*old(self), *final(self), r),
    {
        let r = match &self.update {
            Some(u) => Action::OpenUrl(u.url.clone()),
            None => Action::Nothing,
        };
        self.update = None;
        r
    }

    /// Put the update prompt away.
    pub fn dismiss_update(&mut self)
        requires
            old(self).wf(),
        ensures
            final(self).wf(),
            *final(self) == (Abyss { update: None, ..*old(self) }),
    {
        self.update = None;
    }

    /// Apply what the program was launched for.
    pub fn apply_launch(&mut self, launch: Launch, is_dir: bool) -> (r: Action)
        requires
            old(self).wf(),
        ensures
            final(self).wf(),
            launched(*old(self), *final(self), launch, is_dir, r),
    {
        match launch {
            Launch::Normal => Action::Nothing,
            Launch::Compress(p) => {
                self.mode = Mode::Compress;
                let ghost pv = p@;
                let mut v: Vec<String> = Vec::new();
                v.push(p);
                proof {
                    assert(strs(v@) =~= seq![pv]);
                }
                self.add_inputs(v);
                Action::Nothing
            },
            Launch::Extract(p) => {
                self.mode = Mode::Extract;
                self.load_archive(p)
            },
            Launch::Browse(p) => {
                self.mode = Mode::Browse;
                self.drop_on_commander(p, is_dir)
            },
        }
    }

    /// The window as launched: standing at `location` (given what the disk
    /// holds there), polling for forwarded paths when `ipc_enabled`, and set up
    /// for `launch`. `is_dir` tells whether the launch's path is a directory.
    pub fn boot(launch: Launch, ipc_enabled: bool, location: Location, disk: &Disk, is_dir: bool) -> (r: (Self, Action))
        requires
            location is Drives ==> disk.drives@.len() == 26,
        ensures
            r.0.wf(),
            exists|s: Abyss| fresh(s, location, *disk) && launched(
                Abyss { ipc_enabled, ..s },
                r.0,
                launch,
                is_dir,
                r.1,
            ),
    {
        let mut app = Abyss::new(location, disk);
        let ghost s = app;
        app.ipc_enabled = ipc_enabled;
        let a = app.apply_launch(launch, is_dir);
        assert(fresh(s, location, *disk));
        (app, a)
    }

    /// The timers the window runs, in milliseconds: a tick that polls the job
    /// while one runs, and a poll for forwarded paths when that is enabled.
    pub fn timers(&self) -> (r: (Option<u64>, Option<u64>))
        ensures
            r.0 == if self.busy_spec() {
                Some(60u64)
            } else {
                None
            },
            r.1 == if self.ipc_enabled {
                Some(250u64)
            } else {
                None
            },
    {
        let tick = if self.busy() {
            Some(60)
        } else {
            None
        };
        let poll = if self.ipc_enabled {
            Some(250)
        } else {
            None
        };
        (tick, poll)
    }

    /// The hint the status band shows while idle.
    pub fn idle_hint(&self) -> (r: String)
        ensures
            r@ == idle_hint_spec(*self),
    {
        let r = match self.mode {
            Mode::Compress => if self.inputs.len() == 0 {
                String::from_str("Add sources to begin.")
            } else if self.output.is_none() {
                String::from_str("Name the orb to compress into.")
            } else {
                String::from_str("Ready to fold.")
            },
            Mode::Extract => if self.archive_format.is_none() {
                String::from_str("Open an archive to begin.")
            } else if self.dest.is_none() {
                String::from_str("Choose where to unfold it.")
            } else {
                String::from_str("Ready to unfold.")
            },
            Mode::Browse => String::new(),
        };
        proof {
            reveal_strlit("Add sources to begin.");
            reveal_strlit("Name the orb to compress into.");
            reveal_strlit("Ready to fold.");
            reveal_strlit("Open an archive to begin.");
            reveal_strlit("Choose where to unfold it.");
            reveal_strlit("Ready to unfold.");
        }
        r
    }

    /// What the Commander's status line tells: the member being opened, else the
    /// last error, else the selected path, else how many items show.
    pub fn browse_status(&self) -> (r: BrowseStatus)
        ensures
            match (self.opening, self.browse_error, selected_path(*self)) {
                (Some(n), _, _) => r matches BrowseStatus::Opening(m) && m@ == n@,
                (None, Some(e), _) => r matches BrowseStatus::Error(m) && m@ == e@,
                (None, None, Some(p)) => r matches BrowseStatus::Selected(m) && m@ == p,
                (None, None, None) => r matches BrowseStatus::Summary { count, in_archive } && count
                    == item_count(self.rows@) && in_archive == (self.location is Archive),
            },
    {
        match &self.opening {
            Some(n) => {
                return BrowseStatus::Opening(n.clone());
            },
            None => {},
        }
        match &self.browse_error {
            Some(e) => {
                return BrowseStatus::Error(e.clone());
            },
            None => {},
        }
        match self.selected_fs_path() {
            Some(p) => {
                return BrowseStatus::Selected(p);
            },
            None => {},
        }
        let mut count: usize = 0;
        let mut i: usize = 0;
        while i < self.rows.len()
            invariant
                i <= self.rows@.len(),
                count == item_count(self.rows@.take(i as int)),
                count <= i,
            decreases self.rows@.len() - i,
        {
            proof {
                assert(self.rows@.take(i + 1).drop_last() =~= self.rows@.take(i as int));
            }
            if self.rows[i].kind != RowKind::Parent {
                count += 1;
            }
            i += 1;
        }
        proof {
            assert(self.rows@.take(i as int) =~= self.rows@);
        }
        BrowseStatus::Summary { count, in_archive: self.location.in_archive() }
    }
}

impl Abyss {
    /// Handle one message: move the state on and say what the caller is to do.
    pub fn update(&mut self, message: Message) -> (r: Action)
        requires
            old(self).wf(),
            message matches Message::Arrived { location, disk } ==> (location is Drives
                ==> disk.drives@.len() == 26),
        ensures
            final(self).wf(),
            stepped(*old(self), *final(self), message, r),
    {
        match message {
            Message::ModeSelected(m) => {
                self.select_mode(m);
                Action::Nothing
            },
            Message::AddFiles => Action::PickFiles,
            Message::AddFolder => Action::PickFolder,
            Message::FilesPicked(paths) => {
                if paths.len() > 0 {
                    self.add_inputs(paths);
                }
                Action::Nothing
            },
            Message::FolderPicked(path) => {
                match path {
                    Some(p) => {
                        let ghost pv = p@;
                        let mut v: Vec<String> = Vec::new();
                        v.push(p);
                        proof {
                            assert(strs(v@) =~= seq![pv]);
                        }
                        self.add_inputs(v);
                    },
                    None => {},
                }
                Action::Nothing
            },
            Message::RemoveInput(i) => {
                self.remove_input(i);
                Action::Nothing
            },
            Message::ClearInputs => {
                self.clear_inputs();
                Action::Nothing
            },
            Message::KindSelected(k) => {
                self.select_kind(k);
                Action::Nothing
            },
            Message::LevelChanged(l) => {
                self.change_level(l);
                Action::Nothing
            },
            Message::ThreadsChanged(t) => {
                self.change_threads(t);
                Action::Nothing
            },
            Message::OutputEdited(s) => {
                self.edit_output(s);
                Action::Nothing
            },
            Message::BrowseOutput => self.browse_output(),
            Message::OutputChosen(o) => {
                self.choose_output(o);
                Action::Nothing
            },
            Message::OpenArchive => Action::PickArchive,
            Message::ArchivePicked(o) => match o {
                Some(p) => self.load_archive(p),
                None => Action::Nothing,
            },
            Message::ChooseDest => self.choose_dest(),
            Message::DestPicked(o) => {
                self.pick_dest(o);
                Action::Nothing
            },
            Message::BrowseActivate { index, at_ms } => self.activate_row(index, at_ms),
            Message::BrowseUp => self.go_up(),
            Message::BrowseHome => self.go_home(),
            Message::BrowseRefresh => self.refresh(),
            Message::BrowseToCompress => {
                self.to_compress();
                Action::Nothing
            },
            Message::BrowseExtractHere => self.extract_here(),
            Message::Start => self.start(),
            Message::FileDropped { path, is_dir } => self.drop_path(path, is_dir),
            Message::FileOpened(result) => {
                self.file_opened(result);
                Action::Nothing
            },
            Message::PollExternal(paths) => {
                self.take_forwarded(paths);
                Action::Nothing
            },
            Message::UpdateChecked(info) => {
                self.update_checked(info);
                Action::Nothing
            },
            Message::OpenRelease => self.open_release(),
            Message::DismissUpdate => {
                self.dismiss_update();
                Action::Nothing
            },
            Message::Arrived { location, disk } => self.arrive(location, &disk),
            Message::Entered { path, format, listing, quiet } => self.enter_archive(path, format, listing, quiet),
            Message::Listed { path, listing } => {
                self.take_listing(path.as_str(), listing);
                Action::Nothing
            },
            Message::JobFinished(result) => {
                self.finish(result);
                Action::Nothing
            },
        }
    }
}

/// Start hands the compress job the level the user holds in the window, for
/// every kind with an effort slider, and no level for LZ4 and plain tar, which
/// have none; the threads go as chosen. So a level set and then Start sends
/// exactly that level.
pub proof fn lemma_start_sends_chosen_level(s0: Abyss, s1: Abyss, s2: Abyss, level: i32, a1: Action, a2: Action)
    requires
        s0.wf(),
        ready_spec(s0),
        s0.mode == Mode::Compress,
        stepped(s0, s1, Message::LevelChanged(level), a1),
        stepped(s1, s2, Message::Start, a2),
    ensures
        a2 matches Action::Compress { options, .. } && options.threads == s0.threads as u32 && options.level
            == if s0.kind == ArchiveKind::Lz4 || s0.kind == ArchiveKind::TarStore {
            None
        } else {
            Some(level)
        },
{
    assert(s1.level == level);
    assert(ready_spec(s1));
}

/// When Start sends a compress job, its level is the one held in the window
/// for every kind with an effort slider, and none for LZ4 and plain tar.
pub proof fn lemma_start_level(old: Abyss, new: Abyss, action: Action)
    requires
        started(old, new, action),
        ready_spec(old),
        old.mode == Mode::Compress,
    ensures
        action matches Action::Compress { options, .. } && options.level == if old.kind == ArchiveKind::Lz4
            || old.kind == ArchiveKind::TarStore {
            None
        } else {
            Some(old.level)
        },
{
}

} // verus!
