//! The settings.
use std::collections::HashMap;

use vstd::prelude::*;

use crate::dates::Dialect;
use crate::filter::FilterMode;
use crate::logs::{LogConfig, Logs};
use crate::options::{
    Ai, CursorStyle, Daemon, DotfilesSettings, ExitMode, KeymapConfig, KeymapMode, Keys,
    KvSettings, MetaSettings, Preview, ScriptsSettings, Search, Stats, Style, Sync, SyncProtocol,
    ThemeSettings, Tmux, WordJumpMode,
};
use crate::paths::{broken_symlink, join_path, option_view, path_from, string_views, System};
use crate::query::SearchMode;
use crate::text::{first_at, first_where, is_char, lemma_first_where};
use crate::timezone::Timezone;
use crate::ui::{expands, Ui, UiError};

verus! {

/// The settings.
pub struct Settings {
    pub data_dir: Option<String>,
    pub dialect: Dialect,
    pub timezone: Timezone,
    pub style: Style,
    pub auto_sync: bool,
    pub update_check: bool,
    pub sync_address: String,
    pub sync_protocol: SyncProtocol,
    pub sync_frequency: String,
    pub db_path: String,
    pub record_store_path: String,
    pub key_path: String,
    pub search_mode: SearchMode,
    pub filter_mode: Option<FilterMode>,
    pub filter_mode_shell_up_key_binding: Option<FilterMode>,
    pub search_mode_shell_up_key_binding: Option<SearchMode>,
    pub shell_up_key_binding: bool,
    pub inline_height: u16,
    pub inline_height_shell_up_key_binding: Option<u16>,
    pub invert: bool,
    pub show_preview: bool,
    pub max_preview_height: u16,
    pub show_help: bool,
    pub show_tabs: bool,
    pub show_numeric_shortcuts: bool,
    pub auto_hide_height: u16,
    pub exit_mode: ExitMode,
    pub keymap_mode: KeymapMode,
    pub keymap_mode_shell: KeymapMode,
    pub keymap_cursor: HashMap<String, CursorStyle>,
    pub word_jump_mode: WordJumpMode,
    pub word_chars: String,
    pub scroll_context_lines: usize,
    pub history_format: String,
    pub prefers_reduced_motion: bool,
    pub store_failed: bool,
    /// Regular expressions; a command that one of them matches is not recorded.
    pub history_filter: Vec<String>,
    /// Regular expressions; what is run in a directory that one of them matches is not recorded.
    pub cwd_filter: Vec<String>,
    pub secrets_filter: bool,
    pub workspaces: bool,
    pub ctrl_n_shortcuts: bool,
    pub network_connect_timeout: u64,
    pub network_timeout: u64,
    pub enter_accept: bool,
    pub smart_sort: bool,
    pub command_chaining: bool,
    pub stats: Stats,
    pub sync: Sync,
    pub keys: Keys,
    pub keymap: KeymapConfig,
    pub preview: Preview,
    pub dotfiles: DotfilesSettings,
    pub daemon: Daemon,
    pub search: Search,
    pub theme: ThemeSettings,
    pub ui: Ui,
    pub scripts: ScriptsSettings,
    pub kv: KvSettings,
    pub tmux: Tmux,
    pub logs: Logs,
    pub meta: MetaSettings,
    pub ai: Ai,
}

/// What an example of a configuration file holds.
pub const EXAMPLE_CONFIG: &'static str = "";

/// Whether a filter mode is one to start with: that of the workspace only in a repository and
/// where workspaces are switched on.
pub open spec fn starts_with_mode(mode: FilterMode, git_root: bool, workspaces: bool) -> bool {
    mode == FilterMode::Workspace ==> git_root && workspaces
}

/// The first of the filter modes that is one to start with, or else the one that shows all.
pub open spec fn first_mode(filters: Seq<FilterMode>, git_root: bool, workspaces: bool) -> FilterMode
    decreases filters.len(),
{
    if filters.len() == 0 {
        FilterMode::Global
    } else if starts_with_mode(filters[0], git_root, workspaces) {
        filters[0]
    } else {
        first_mode(filters.skip(1), git_root, workspaces)
    }
}

/// The filter mode to start with: the one that is set, if it is one of those to go through, and
/// else the first of those.
pub open spec fn mode_to_start_with(
    set: Option<FilterMode>,
    filters: Seq<FilterMode>,
    git_root: bool,
    workspaces: bool,
) -> FilterMode {
    if set matches Some(mode) && filters.contains(mode) {
        set.unwrap()
    } else {
        first_mode(filters, git_root, workspaces)
    }
}

/// What stands at the start of a path.
pub enum PathPiece {
    /// Characters that give a text: how many they are, and the text.
    Text(int, Seq<char>),
    /// A variable: how many characters its mention takes.
    Variable(int),
    /// Something that is or is not a variable, as Unicode's tables have it.
    Unsure,
}

/// Whether an ASCII character may stand in the name of a variable.
pub open spec fn is_name_char(c: char) -> bool {
    ||| 'a' <= c <= 'z'
    ||| 'A' <= c <= 'Z'
    ||| '0' <= c <= '9'
    ||| c == '_'
}

/// Picks out what cannot stand in the name of a variable.
pub open spec fn not_name_char() -> spec_fn(char) -> bool {
    |c: char| !is_name_char(c)
}

/// What stands at the start of a path that is not empty: a variable, as `${..}` or as `$` with a
/// name behind it, or a character that stands for itself. Two `$` stand for one, and so does one
/// that no name follows.
pub open spec fn piece_of(path: Seq<char>) -> PathPiece {
    if path[0] != '$' {
        PathPiece::Text(1, seq![path[0]])
    } else if path.len() == 1 {
        PathPiece::Text(1, seq!['$'])
    } else if path[1] == '$' {
        PathPiece::Text(2, seq!['$'])
    } else if path[1] == '{' {
        let close = first_at(path, '}');
        if close < path.len() {
            PathPiece::Variable(close + 1)
        } else {
            PathPiece::Text(2, seq!['$', '{'])
        }
    } else {
        let end = 1 + first_where(path.skip(1), not_name_char());
        if end < path.len() && path[end] > '\x7f' {
            PathPiece::Unsure
        } else if end > 1 {
            PathPiece::Variable(end)
        } else {
            PathPiece::Text(1, seq!['$'])
        }
    }
}

/// A piece of a path is something, and no more than the path.
pub proof fn lemma_piece(path: Seq<char>)
    requires
        path.len() > 0,
    ensures
        match piece_of(path) {
            PathPiece::Text(n, _) => 0 < n <= path.len(),
            PathPiece::Variable(n) => 0 < n <= path.len(),
            PathPiece::Unsure => true,
        },
{
    lemma_first_where(path, is_char('}'));
    lemma_first_where(path.skip(1), not_name_char());
}

/// Whether a variable stands in a path, or something that may be one.
pub open spec fn has_variable(path: Seq<char>) -> bool
    decreases path.len(),
{
    if path.len() == 0 {
        false
    } else {
        proof {
            lemma_piece(path);
        }
        match piece_of(path) {
            PathPiece::Text(n, _) => has_variable(path.skip(n)),
            PathPiece::Variable(_) => true,
            PathPiece::Unsure => true,
        }
    }
}

/// Whether `text` is a path with something in place of each variable and all else as it is.
pub open spec fn is_filled_in(path: Seq<char>, text: Seq<char>) -> bool
    decreases path.len(),
{
    if path.len() == 0 {
        text.len() == 0
    } else {
        proof {
            lemma_piece(path);
        }
        match piece_of(path) {
            PathPiece::Text(n, given) => given.is_prefix_of(text) && is_filled_in(
                path.skip(n),
                text.skip(given.len() as int),
            ),
            PathPiece::Variable(n) => exists|m: int|
                0 <= m <= text.len() && is_filled_in(path.skip(n), #[trigger] text.skip(m)),
            PathPiece::Unsure => true,
        }
    }
}

/// Whether a text starts with a `~` that may stand for the home directory: one alone, or before
/// a slash or a backslash.
pub open spec fn starts_at_home(text: Seq<char>) -> bool {
    text.len() > 0 && text[0] == '~' && (text.len() == 1 || text[1] == '/' || text[1] == '\\')
}

/// Whether `text` may be what becomes of a path: the path with its variables filled in, and then
/// with something in place of a `~` that stands for the home directory, if that `~` stands in the
/// path itself.
pub open spec fn may_expand_to(path: Seq<char>, text: Seq<char>) -> bool {
    exists|filled: Seq<char>| #[trigger]
        is_filled_in(path, filled) && (if path.len() > 0 && path[0] == '~' && starts_at_home(
            filled,
        ) {
            filled.skip(1).is_suffix_of(text)
        } else {
            text == filled
        })
}

/// `shellexpand::full` puts the values of variables and the home directory into a path. It fails
/// only where a variable stands in the path; what it gives is the path with something in place of
/// each variable, two `$` as one, and all else as it is, and with something, or the `~` itself, in
/// place of a `~` at the start that stands for the home directory. What is put in, and whether a
/// variable is there, is up to the environment; whether a `~` before a backslash stands for the
/// home directory is up to the system; and nothing is said of what stands behind a `$` from a
/// character on that is not ASCII and may belong to a name.
#[verifier::external_body]
pub(crate) fn shell_expand(path: &str) -> (out: Result<String, String>)
    ensures
        !has_variable(path@) ==> out is Ok,
        out matches Ok(text) ==> may_expand_to(path@, text@),
{
    shellexpand::full(path).map(|p| p.to_string()).map_err(|e| e.to_string())
}

/// Whether `read` is what became of a path when it was expanded: a call of `shell_expand` gave it.
pub closed spec fn shell_gave(path: Seq<char>, read: Result<String, String>) -> bool {
    exists|p: &str| p@ == path && #[trigger] call_ensures(shell_expand, (p,), read)
}

/// What is wrong with the settings.
#[derive(Debug)]
pub enum SettingsError {
    /// A path names a variable that is not there, or not text; in words.
    Expand(String),
    /// The columns do not fit together.
    Ui(UiError),
}

/// The paths in the settings in which variables and the home directory are replaced.
pub struct PathSettings {
    pub db_path: String,
    pub record_store_path: String,
    pub key_path: String,
    pub socket_path: String,
    pub pidfile_path: String,
    pub logs_dir: String,
    pub search_log: String,
    pub daemon_log: String,
}

/// What became of each of those paths.
pub struct ExpandedPaths {
    pub db_path: Result<String, SettingsError>,
    pub record_store_path: Result<String, SettingsError>,
    pub key_path: Result<String, SettingsError>,
    pub socket_path: Result<String, SettingsError>,
    pub pidfile_path: Result<String, SettingsError>,
    pub logs_dir: Result<String, SettingsError>,
    pub search_log: Result<String, SettingsError>,
    pub daemon_log: Result<String, SettingsError>,
}

impl ExpandedPaths {
    /// What is wrong with the first path with which anything is, the database first, then the
    /// records, the key, the socket and the process id of the daemon, the directory for logs,
    /// the search log and the daemon log.
    pub open spec fn first_error(self) -> Option<SettingsError> {
        if let Err(e) = self.db_path {
            Some(e)
        } else if let Err(e) = self.record_store_path {
            Some(e)
        } else if let Err(e) = self.key_path {
            Some(e)
        } else if let Err(e) = self.socket_path {
            Some(e)
        } else if let Err(e) = self.pidfile_path {
            Some(e)
        } else if let Err(e) = self.logs_dir {
            Some(e)
        } else if let Err(e) = self.search_log {
            Some(e)
        } else if let Err(e) = self.daemon_log {
            Some(e)
        } else {
            None
        }
    }

    /// The paths, where nothing is wrong with any.
    pub open spec fn paths(self) -> PathSettings {
        PathSettings {
            db_path: self.db_path->Ok_0,
            record_store_path: self.record_store_path->Ok_0,
            key_path: self.key_path->Ok_0,
            socket_path: self.socket_path->Ok_0,
            pidfile_path: self.pidfile_path->Ok_0,
            logs_dir: self.logs_dir->Ok_0,
            search_log: self.search_log->Ok_0,
            daemon_log: self.daemon_log->Ok_0,
        }
    }
}

/// Whether `out` is what became of a path when it was expanded, in the environment that there is:
/// without a variable in it, it is expanded.
pub open spec fn may_become(path: Seq<char>, out: Result<String, SettingsError>) -> bool {
    &&& match out {
        Ok(text) => may_expand_to(path, text@),
        Err(e) => has_variable(path) && e is Expand,
    }
    &&& match out {
        Ok(text) => shell_gave(path, Ok(text)),
        Err(SettingsError::Expand(message)) => shell_gave(path, Err(message)),
        Err(SettingsError::Ui(_)) => false,
    }
}

impl Settings {
    /// The filter mode to start with.
    pub fn default_filter_mode(&self, git_root: bool) -> (mode: FilterMode)
        ensures
            mode == mode_to_start_with(
                self.filter_mode,
                self.search.filters@,
                git_root,
                self.workspaces,
            ),
    {
        let ghost filters = self.search.filters@;
        if let Some(mode) = self.filter_mode {
            let mut i: usize = 0;
            while i < self.search.filters.len()
                invariant
                    i <= self.search.filters.len(),
                    filters == self.search.filters@,
                    self.filter_mode == Some(mode),
                    forall|j: int| 0 <= j < i ==> filters[j] != mode,
                decreases self.search.filters.len() - i,
            {
                if self.search.filters[i] == mode {
                    assert(filters[i as int] == mode);
                    return mode;
                }
                i = i + 1;
            }
        }
        assert(self.filter_mode matches Some(m) ==> !filters.contains(m));
        let mut k: usize = 0;
        assert(filters.skip(0) =~= filters);
        while k < self.search.filters.len()
            invariant
                k <= self.search.filters.len(),
                filters == self.search.filters@,
                self.filter_mode matches Some(m) ==> !filters.contains(m),
                first_mode(filters, git_root, self.workspaces) == first_mode(
                    filters.skip(k as int),
                    git_root,
                    self.workspaces,
                ),
            decreases self.search.filters.len() - k,
        {
            let mode = self.search.filters[k];
            assert(filters.skip(k as int)[0] == mode);
            assert(filters.skip(k as int).skip(1) =~= filters.skip(k + 1));
            if mode != FilterMode::Workspace || (git_root && self.workspaces) {
                assert(first_mode(filters, git_root, self.workspaces) == mode);
                return mode;
            }
            k = k + 1;
        }
        FilterMode::Global
    }

    /// What became of a path: the path with what was replaced in it, or what is wrong with it,
    /// in words.
    pub fn expanded(read: Result<String, String>) -> (out: Result<String, SettingsError>)
        ensures
            out == (match read {
                Ok(text) => Ok::<String, SettingsError>(text),
                Err(message) => Err(SettingsError::Expand(message)),
            }),
    {
        match read {
            Ok(text) => Ok(text),
            Err(message) => Err(SettingsError::Expand(message)),
        }
    }

    /// A path with the values of variables and the home directory put in.
    pub fn expand_path(path: String) -> (out: Result<String, SettingsError>)
        ensures
            may_become(path@, out),
    {
        let read = shell_expand(path.as_str());
        assert(shell_gave(path@, read));
        Settings::expanded(read)
    }

    /// What an example of a configuration file holds.
    pub fn example_config() -> (s: &'static str)
        ensures
            s@ == EXAMPLE_CONFIG@,
    {
        EXAMPLE_CONFIG
    }

    /// The file with the configuration: `config.toml` in the directory that the environment
    /// names for it, or in the one for configuration.
    pub fn get_config_path(system: &System, named: Option<&str>, config_dir: &str) -> (path: String)
        ensures
            path@ == path_from(
                system.windows(),
                match option_view(named) {
                    Some(dir) => dir,
                    None => config_dir@,
                },
                "config.toml"@,
            ),
    {
        match named {
            Some(dir) => join_path(system, dir, "config.toml"),
            None => join_path(system, config_dir, "config.toml"),
        }
    }

    /// The directory for data: the one that the configuration file sets, with the values of
    /// variables and the home directory put in, or else `data_dir`.
    pub fn effective_data_dir(set: Option<String>, data_dir: &str) -> (out: Result<
        String,
        SettingsError,
    >)
        ensures
            match set {
                None => out matches Ok(dir) && dir@ == data_dir@,
                Some(dir) => may_become(dir@, out),
            },
    {
        match set {
            Some(dir) => Settings::expand_path(dir),
            None => Ok(data_dir.to_owned()),
        }
    }

    /// The paths that must not be links that lead nowhere.
    pub fn checked_paths(&self) -> (paths: Vec<String>)
        ensures
            string_views(paths@) == seq![
                self.db_path@,
                self.record_store_path@,
                self.key_path@,
                self.meta.db_path@,
            ],
    {
        let paths = vec![
            self.db_path.clone(),
            self.record_store_path.clone(),
            self.key_path.clone(),
            self.meta.db_path.clone(),
        ];
        assert(string_views(paths@) =~= seq![
            self.db_path@,
            self.record_store_path@,
            self.key_path@,
            self.meta.db_path@,
        ]);
        paths
    }

    /// Whether none of the paths is a link that leads nowhere; `links` tells of each whether it
    /// is a link and whether there is something at its end.
    pub fn paths_ok(links: &Vec<(bool, bool)>) -> (b: bool)
        ensures
            b == forall|i: int|
                0 <= i < links.len() ==> !((#[trigger] links@[i]).0 && !links@[i].1),
    {
        let mut i: usize = 0;
        while i < links.len()
            invariant
                i <= links.len(),
                forall|j: int| 0 <= j < i ==> !((#[trigger] links@[j]).0 && !links@[j].1),
            decreases links.len() - i,
        {
            if broken_symlink(links[i].0, links[i].1) {
                return false;
            }
            i = i + 1;
        }
        true
    }

    /// The settings with other paths.
    pub open spec fn with_paths_of(self, p: PathSettings) -> Settings {
        Settings {
            db_path: p.db_path,
            record_store_path: p.record_store_path,
            key_path: p.key_path,
            daemon: Daemon {
                socket_path: p.socket_path,
                pidfile_path: p.pidfile_path,
                ..self.daemon
            },
            logs: Logs {
                dir: p.logs_dir,
                search: LogConfig { file: p.search_log, ..self.logs.search },
                daemon: LogConfig { file: p.daemon_log, ..self.logs.daemon },
                ..self.logs
            },
            ..self
        }
    }

    /// Whether the columns fit together.
    pub open spec fn columns_fit(self) -> bool {
        self.ui.columns@.filter(expands()).len() <= 1
    }

    /// The settings with other paths, or what is wrong with the columns.
    pub open spec fn checked_with_paths_of(self, p: PathSettings) -> Result<
        Settings,
        SettingsError,
    > {
        if self.columns_fit() {
            Ok(self.with_paths_of(p))
        } else {
            Err(
                SettingsError::Ui(
                    UiError::TooManyExpand {
                        count: self.ui.columns@.filter(expands()).len() as usize,
                    },
                ),
            )
        }
    }

    /// The settings with other paths, if the columns fit together.
    pub fn with_paths(self, p: PathSettings) -> (out: Result<Settings, SettingsError>)
        ensures
            out == self.checked_with_paths_of(p),
    {
        match self.ui.validate() {
            Err(e) => Err(SettingsError::Ui(e)),
            Ok(_) => Ok(
                Settings {
                    db_path: p.db_path,
                    record_store_path: p.record_store_path,
                    key_path: p.key_path,
                    daemon: Daemon {
                        socket_path: p.socket_path,
                        pidfile_path: p.pidfile_path,
                        ..self.daemon
                    },
                    logs: Logs {
                        dir: p.logs_dir,
                        search: LogConfig { file: p.search_log, ..self.logs.search },
                        daemon: LogConfig { file: p.daemon_log, ..self.logs.daemon },
                        ..self.logs
                    },
                    ..self
                },
            ),
        }
    }

    /// The settings with what became of their paths: the first thing that is wrong with a path,
    /// and only then what is wrong with the columns.
    pub open spec fn finished_with(self, r: ExpandedPaths) -> Result<Settings, SettingsError> {
        match r.first_error() {
            Some(e) => Err(e),
            None => self.checked_with_paths_of(r.paths()),
        }
    }

    /// The settings with what became of their paths, if nothing is wrong with any and the
    /// columns fit together.
    pub fn with_expanded_paths(self, r: ExpandedPaths) -> (out: Result<Settings, SettingsError>)
        ensures
            out == self.finished_with(r),
    {
        let db_path = match r.db_path {
            Ok(path) => path,
            Err(e) => return Err(e),
        };
        let record_store_path = match r.record_store_path {
            Ok(path) => path,
            Err(e) => return Err(e),
        };
        let key_path = match r.key_path {
            Ok(path) => path,
            Err(e) => return Err(e),
        };
        let socket_path = match r.socket_path {
            Ok(path) => path,
            Err(e) => return Err(e),
        };
        let pidfile_path = match r.pidfile_path {
            Ok(path) => path,
            Err(e) => return Err(e),
        };
        let logs_dir = match r.logs_dir {
            Ok(path) => path,
            Err(e) => return Err(e),
        };
        let search_log = match r.search_log {
            Ok(path) => path,
            Err(e) => return Err(e),
        };
        let daemon_log = match r.daemon_log {
            Ok(path) => path,
            Err(e) => return Err(e),
        };
        let p = PathSettings {
            db_path,
            record_store_path,
            key_path,
            socket_path,
            pidfile_path,
            logs_dir,
            search_log,
            daemon_log,
        };
        self.with_paths(p)
    }

    /// Whether a variable stands in one of the paths.
    pub open spec fn paths_have_variables(self) -> bool {
        ||| has_variable(self.db_path@)
        ||| has_variable(self.record_store_path@)
        ||| has_variable(self.key_path@)
        ||| has_variable(self.daemon.socket_path@)
        ||| has_variable(self.daemon.pidfile_path@)
        ||| has_variable(self.logs.dir@)
        ||| has_variable(self.logs.search.file@)
        ||| has_variable(self.logs.daemon.file@)
    }

    /// Whether this may be what becomes of the paths of the settings.
    pub open spec fn paths_may_become(self, r: ExpandedPaths) -> bool {
        &&& may_become(self.db_path@, r.db_path)
        &&& may_become(self.record_store_path@, r.record_store_path)
        &&& may_become(self.key_path@, r.key_path)
        &&& may_become(self.daemon.socket_path@, r.socket_path)
        &&& may_become(self.daemon.pidfile_path@, r.pidfile_path)
        &&& may_become(self.logs.dir@, r.logs_dir)
        &&& may_become(self.logs.search.file@, r.search_log)
        &&& may_become(self.logs.daemon.file@, r.daemon_log)
    }

    /// The settings as they were read, ready for use: with the values of variables and the home
    /// directory put into the paths, if the columns fit together.
    pub fn finish(self) -> (out: Result<Settings, SettingsError>)
        ensures
            exists|r: ExpandedPaths| #[trigger]
                self.paths_may_become(r) && out == self.finished_with(r),
            match out {
                Ok(_) => self.columns_fit(),
                Err(SettingsError::Ui(_)) => !self.columns_fit(),
                Err(SettingsError::Expand(_)) => self.paths_have_variables(),
            },
    {
        let r = ExpandedPaths {
            db_path: Settings::expand_path(self.db_path.clone()),
            record_store_path: Settings::expand_path(self.record_store_path.clone()),
            key_path: Settings::expand_path(self.key_path.clone()),
            socket_path: Settings::expand_path(self.daemon.socket_path.clone()),
            pidfile_path: Settings::expand_path(self.daemon.pidfile_path.clone()),
            logs_dir: Settings::expand_path(self.logs.dir.clone()),
            search_log: Settings::expand_path(self.logs.search.file.clone()),
            daemon_log: Settings::expand_path(self.logs.daemon.file.clone()),
        };
        assert(self.paths_may_become(r));
        self.with_expanded_paths(r)
    }
}

/// The filter mode to start with is one of those to go through, or the one that shows all.
pub proof fn law_start_mode_listed(
    set: Option<FilterMode>,
    filters: Seq<FilterMode>,
    git_root: bool,
    workspaces: bool,
)
    ensures
        filters.contains(mode_to_start_with(set, filters, git_root, workspaces))
            || mode_to_start_with(set, filters, git_root, workspaces) == FilterMode::Global,
        set is None ==> starts_with_mode(
            mode_to_start_with(set, filters, git_root, workspaces),
            git_root,
            workspaces,
        ),
    decreases filters.len(),
{
    if filters.len() > 0 && !starts_with_mode(filters[0], git_root, workspaces) {
        let rest = filters.skip(1);
        law_start_mode_listed(None, rest, git_root, workspaces);
        let mode = first_mode(filters, git_root, workspaces);
        if rest.contains(mode) {
            let i = rest.index_of(mode);
            assert(filters[i + 1] == mode);
        }
    } else if filters.len() > 0 {
        assert(filters.contains(filters[0]));
    }
}

proof fn lemma_no_variable(path: Seq<char>, text: Seq<char>)
    requires
        !path.contains('$'),
    ensures
        !has_variable(path),
        is_filled_in(path, text) ==> text == path,
    decreases path.len(),
{
    if path.len() == 0 {
        assert(text.len() == 0 ==> text =~= path);
    } else {
        assert(path.contains(path[0]));
        let rest = path.skip(1);
        assert(!rest.contains('$')) by {
            if rest.contains('$') {
                let i = rest.index_of('$');
                assert(path[i + 1] == '$');
            }
        }
        lemma_no_variable(rest, text.skip(1));
        if is_filled_in(path, text) {
            assert(text[0] == seq![path[0]][0]);
            assert(text =~= seq![text[0]] + text.skip(1));
            assert(path =~= seq![path[0]] + rest);
        }
    }
}

/// No variable stands in a path without a `$`. It becomes nothing but itself, unless it starts
/// with a `~` that may stand for the home directory: then what stands behind the `~` stays.
pub proof fn law_path_without_variables(path: Seq<char>, text: Seq<char>)
    requires
        !path.contains('$'),
    ensures
        !has_variable(path),
        may_expand_to(path, text) ==> if starts_at_home(path) {
            path.skip(1).is_suffix_of(text)
        } else {
            text == path
        },
{
    lemma_no_variable(path, text);
    if may_expand_to(path, text) {
        let filled = choose|filled: Seq<char>| #[trigger]
            is_filled_in(path, filled) && (if path.len() > 0 && path[0] == '~' && starts_at_home(
                filled,
            ) {
                filled.skip(1).is_suffix_of(text)
            } else {
                text == filled
            });
        lemma_no_variable(path, filled);
    }
}

/// The filter mode to start with is the one that is set, where that is one of those to go
/// through. Else it is the first of those, but for the one of the workspace outside a repository
/// or where workspaces are switched off; where there is none, all is shown.
pub proof fn law_start_mode(
    set: Option<FilterMode>,
    filters: Seq<FilterMode>,
    git_root: bool,
    workspaces: bool,
    i: int,
)
    ensures
        set matches Some(mode) ==> (filters.contains(mode) ==> mode_to_start_with(
            set,
            filters,
            git_root,
            workspaces,
        ) == mode),
        (set matches Some(mode) ==> !filters.contains(mode)) && 0 <= i < filters.len() && (filters[i]
            != FilterMode::Workspace || (git_root && workspaces)) && (forall|j: int|
            0 <= j < i ==> #[trigger] filters[j] == FilterMode::Workspace && !(git_root
                && workspaces)) ==> mode_to_start_with(set, filters, git_root, workspaces)
            == filters[i],
        (set matches Some(mode) ==> !filters.contains(mode)) && (forall|j: int|
            0 <= j < filters.len() ==> #[trigger] filters[j] == FilterMode::Workspace && !(git_root
                && workspaces)) ==> mode_to_start_with(set, filters, git_root, workspaces)
            == FilterMode::Global,
{
    lemma_first_mode(filters, git_root, workspaces, i);
}

proof fn lemma_first_mode(filters: Seq<FilterMode>, git_root: bool, workspaces: bool, i: int)
    ensures
        0 <= i < filters.len() && (filters[i] != FilterMode::Workspace || (git_root && workspaces))
            && (forall|j: int|
            0 <= j < i ==> #[trigger] filters[j] == FilterMode::Workspace && !(git_root
                && workspaces)) ==> first_mode(filters, git_root, workspaces) == filters[i],
        (forall|j: int|
            0 <= j < filters.len() ==> #[trigger] filters[j] == FilterMode::Workspace && !(git_root
                && workspaces)) ==> first_mode(filters, git_root, workspaces)
            == FilterMode::Global,
    decreases filters.len(),
{
    if filters.len() > 0 {
        let rest = filters.skip(1);
        lemma_first_mode(rest, git_root, workspaces, i - 1);
        if 0 < i < filters.len() && forall|j: int|
            0 <= j < i ==> #[trigger] filters[j] == FilterMode::Workspace && !(git_root
                && workspaces) {
            assert(filters[0] == FilterMode::Workspace);
            assert forall|j: int| 0 <= j < i - 1 implies #[trigger] rest[j] == FilterMode::Workspace
                && !(git_root && workspaces) by {
                assert(rest[j] == filters[j + 1]);
            }
        }
        if forall|j: int|
            0 <= j < filters.len() ==> #[trigger] filters[j] == FilterMode::Workspace && !(git_root
                && workspaces) {
            assert(filters[0] == FilterMode::Workspace);
            assert forall|j: int| 0 <= j < rest.len() implies #[trigger] rest[j]
                == FilterMode::Workspace && !(git_root && workspaces) by {
                assert(rest[j] == filters[j + 1]);
            }
        }
    }
}

/// Other paths go where they belong, and change nothing else: with the paths that were there put
/// back, the settings are what they were.
pub proof fn law_paths_put_back(s: Settings, p: PathSettings)
    ensures
        s.with_paths_of(p).db_path == p.db_path,
        s.with_paths_of(p).record_store_path == p.record_store_path,
        s.with_paths_of(p).key_path == p.key_path,
        s.with_paths_of(p).daemon.socket_path == p.socket_path,
        s.with_paths_of(p).daemon.pidfile_path == p.pidfile_path,
        s.with_paths_of(p).logs.dir == p.logs_dir,
        s.with_paths_of(p).logs.search.file == p.search_log,
        s.with_paths_of(p).logs.daemon.file == p.daemon_log,
        s.with_paths_of(p).with_paths_of(
            PathSettings {
                db_path: s.db_path,
                record_store_path: s.record_store_path,
                key_path: s.key_path,
                socket_path: s.daemon.socket_path,
                pidfile_path: s.daemon.pidfile_path,
                logs_dir: s.logs.dir,
                search_log: s.logs.search.file,
                daemon_log: s.logs.daemon.file,
            },
        ) == s,
{
}

/// Whether `e` is the error of one of the paths, and none of those before it has one.
pub open spec fn is_first_fault(paths: Seq<Result<String, SettingsError>>, e: SettingsError) -> bool {
    exists|i: int|
        0 <= i < paths.len() && #[trigger] paths[i] == Err::<String, SettingsError>(e) && forall|
            j: int,
        |
            0 <= j < i ==> (#[trigger] paths[j]) is Ok
}

/// What is wrong with the settings is the first thing that is wrong with a path, in the order of
/// the database, the records, the key, the socket and the process id of the daemon, the directory
/// for logs, the search log and the daemon log; where nothing is, it is that more than one column
/// takes up the room that the others leave, and how many do. Settings with which nothing is wrong
/// come out with their new paths.
pub proof fn law_finished(s: Settings, r: ExpandedPaths)
    ensures
        ({
            let paths = seq![
                r.db_path,
                r.record_store_path,
                r.key_path,
                r.socket_path,
                r.pidfile_path,
                r.logs_dir,
                r.search_log,
                r.daemon_log,
            ];
            let all_fine = forall|i: int| 0 <= i < paths.len() ==> (#[trigger] paths[i]) is Ok;
            &&& !all_fine ==> (s.finished_with(r) matches Err(e) && is_first_fault(paths, e))
            &&& all_fine ==> match s.finished_with(r) {
                Ok(done) => {
                    &&& forall|i: int, j: int|
                        0 <= i < j < s.ui.columns@.len() ==> !((#[trigger] s.ui.columns@[i]).expand
                            && (#[trigger] s.ui.columns@[j]).expand)
                    &&& Ok::<String, SettingsError>(done.db_path) == r.db_path
                    &&& Ok::<String, SettingsError>(done.record_store_path) == r.record_store_path
                    &&& Ok::<String, SettingsError>(done.key_path) == r.key_path
                    &&& Ok::<String, SettingsError>(done.daemon.socket_path) == r.socket_path
                    &&& Ok::<String, SettingsError>(done.daemon.pidfile_path) == r.pidfile_path
                    &&& Ok::<String, SettingsError>(done.logs.dir) == r.logs_dir
                    &&& Ok::<String, SettingsError>(done.logs.search.file) == r.search_log
                    &&& Ok::<String, SettingsError>(done.logs.daemon.file) == r.daemon_log
                },
                Err(e) => e is Ui && exists|i: int, j: int|
                    0 <= i < j < s.ui.columns@.len() && (#[trigger] s.ui.columns@[i]).expand && (
                    #[trigger] s.ui.columns@[j]).expand,
            }
        }),
{
    let paths = seq![
        r.db_path,
        r.record_store_path,
        r.key_path,
        r.socket_path,
        r.pidfile_path,
        r.logs_dir,
        r.search_log,
        r.daemon_log,
    ];
    assert(paths[0] == r.db_path && paths[1] == r.record_store_path && paths[2] == r.key_path
        && paths[3] == r.socket_path && paths[4] == r.pidfile_path && paths[5] == r.logs_dir
        && paths[6] == r.search_log && paths[7] == r.daemon_log);
    let columns = s.ui.columns@;
    let at = crate::places::lemma_filter_all_places(columns, expands());
    if columns.filter(expands()).len() > 1 {
        assert(at[0] < at[1]);
        assert(expands()(columns[at[0]]) && expands()(columns[at[1]]));
    } else {
        assert forall|i: int, j: int| 0 <= i < j < columns.len() implies !((
        #[trigger] columns[i]).expand && (#[trigger] columns[j]).expand) by {
            if columns[i].expand && columns[j].expand {
                assert(expands()(columns[i]) && expands()(columns[j]));
                assert(at.contains(i) && at.contains(j));
                let a = at.index_of(i);
                let b = at.index_of(j);
                assert(at[a] == i && at[b] == j);
            }
        }
    }
}

} // verus!
