//! Options: what the settings choose from, and groups of settings.
use std::collections::HashMap;

use vstd::prelude::*;

use crate::filter::FilterMode;
use crate::paths::{join_path, path_from, string_views, System};
use crate::text::same_text;

verus! {

/// The number of entries on a page of history.
pub const HISTORY_PAGE_SIZE: i64 = 100;

/// What leaving without a choice hands back.
#[derive(Clone, Copy, Debug, PartialEq, Eq, Structural)]
pub enum ExitMode {
    /// What was there before.
    ReturnOriginal,
    /// What was looked for.
    ReturnQuery,
}

/// How much the view shows.
#[derive(Clone, Copy, Debug, PartialEq, Eq, Structural)]
pub enum Style {
    Auto,
    Full,
    Compact,
}

/// Where a jump by a word ends.
#[derive(Clone, Copy, Debug, PartialEq, Eq, Structural)]
pub enum WordJumpMode {
    Emacs,
    Subl,
}

/// Which keys do what.
#[derive(Clone, Copy, Debug, PartialEq, Eq, Structural)]
pub enum KeymapMode {
    Emacs,
    VimNormal,
    VimInsert,
    Auto,
}

impl KeymapMode {
    /// The label that the mode is shown under.
    pub open spec fn label(self) -> Seq<char> {
        match self {
            KeymapMode::Emacs => "EMACS"@,
            KeymapMode::VimNormal => "VIMNORMAL"@,
            KeymapMode::VimInsert => "VIMINSERT"@,
            KeymapMode::Auto => "AUTO"@,
        }
    }

    /// The label that the mode is shown under.
    pub fn as_str(&self) -> (s: &'static str)
        ensures
            s@ == self.label(),
    {
        match self {
            KeymapMode::Emacs => "EMACS",
            KeymapMode::VimNormal => "VIMNORMAL",
            KeymapMode::VimInsert => "VIMINSERT",
            KeymapMode::Auto => "AUTO",
        }
    }
}

/// The shape of the cursor.
#[derive(Clone, Copy, Debug, PartialEq, Eq, Structural)]
pub enum CursorStyle {
    DefaultUserShape,
    BlinkingBlock,
    SteadyBlock,
    BlinkingUnderScore,
    SteadyUnderScore,
    BlinkingBar,
    SteadyBar,
}

impl CursorStyle {
    /// The label that the shape is shown under.
    pub open spec fn label(self) -> Seq<char> {
        match self {
            CursorStyle::DefaultUserShape => "DEFAULT"@,
            CursorStyle::BlinkingBlock => "BLINKBLOCK"@,
            CursorStyle::SteadyBlock => "STEADYBLOCK"@,
            CursorStyle::BlinkingUnderScore => "BLINKUNDERLINE"@,
            CursorStyle::SteadyUnderScore => "STEADYUNDERLINE"@,
            CursorStyle::BlinkingBar => "BLINKBAR"@,
            CursorStyle::SteadyBar => "STEADYBAR"@,
        }
    }

    /// The label that the shape is shown under.
    pub fn as_str(&self) -> (s: &'static str)
        ensures
            s@ == self.label(),
    {
        match self {
            CursorStyle::DefaultUserShape => "DEFAULT",
            CursorStyle::BlinkingBlock => "BLINKBLOCK",
            CursorStyle::SteadyBlock => "STEADYBLOCK",
            CursorStyle::BlinkingUnderScore => "BLINKUNDERLINE",
            CursorStyle::SteadyUnderScore => "STEADYUNDERLINE",
            CursorStyle::BlinkingBar => "BLINKBAR",
            CursorStyle::SteadyBar => "STEADYBAR",
        }
    }
}

/// How history is kept in step with a server.
#[derive(Clone, Copy, Debug, PartialEq, Eq, Structural)]
pub enum SyncProtocol {
    Hub,
    Legacy,
    Auto,
}

impl Default for SyncProtocol {
    fn default() -> (out: Self)
        ensures
            out == SyncProtocol::Auto,
    {
        SyncProtocol::Auto
    }
}

/// How the height of the preview is found.
#[derive(Clone, Copy, Debug, PartialEq, Eq, Structural)]
pub enum PreviewStrategy {
    Auto,
    Static,
    Fixed,
}

/// A list of words as a list of strings.
fn strings_of(words: &[&'static str]) -> (out: Vec<String>)
    ensures
        string_views(out@) == words@.map_values(|w: &'static str| w@),
{
    let mut out: Vec<String> = Vec::with_capacity(words.len());
    let mut i: usize = 0;
    while i < words.len()
        invariant
            i <= words.len(),
            out.len() == i,
            forall|j: int| 0 <= j < i ==> (#[trigger] out@[j])@ == words@[j]@,
        decreases words.len() - i,
    {
        out.push(words[i].to_owned());
        i = i + 1;
    }
    assert(string_views(out@) =~= words@.map_values(|w: &'static str| w@));
    out
}

/// What counts as part of a command when commands are counted.
pub struct Stats {
    /// Words before a command that are left out.
    pub common_prefix: Vec<String>,
    /// Commands that are counted together with their next word.
    pub common_subcommands: Vec<String>,
    /// Commands that are not counted.
    pub ignored_commands: Vec<String>,
}

/// Words before a command that are left out unless the settings say otherwise.
pub open spec fn default_common_prefix() -> Seq<Seq<char>> {
    seq!["sudo"@, "doas"@]
}

/// Commands that are counted together with their next word unless the settings say otherwise.
pub open spec fn default_common_subcommands() -> Seq<Seq<char>> {
    seq![
        "apt"@, "cargo"@, "composer"@, "dnf"@, "docker"@, "dotnet"@, "git"@, "go"@, "ip"@, "jj"@,
        "kubectl"@, "nix"@, "nmcli"@, "npm"@, "pecl"@, "pnpm"@, "podman"@, "port"@, "systemctl"@,
        "tmux"@, "yarn"@,
    ]
}

impl Stats {
    /// Words before a command that are left out unless the settings say otherwise.
    pub fn common_prefix_default() -> (out: Vec<String>)
        ensures
            string_views(out@) == default_common_prefix(),
    {
        let out = strings_of(&["sudo", "doas"]);
        assert(string_views(out@) =~= default_common_prefix());
        out
    }

    /// Commands that are counted together with their next word unless the settings say otherwise.
    pub fn common_subcommands_default() -> (out: Vec<String>)
        ensures
            string_views(out@) == default_common_subcommands(),
    {
        let out = strings_of(
            &[
                "apt", "cargo", "composer", "dnf", "docker", "dotnet", "git", "go", "ip", "jj",
                "kubectl", "nix", "nmcli", "npm", "pecl", "pnpm", "podman", "port", "systemctl",
                "tmux", "yarn",
            ],
        );
        assert(string_views(out@) =~= default_common_subcommands());
        out
    }

    /// Commands that are not counted unless the settings say otherwise: none.
    pub fn ignored_commands_default() -> (out: Vec<String>)
        ensures
            out@ == Seq::<String>::empty(),
    {
        Vec::new()
    }
}

impl Default for Stats {
    fn default() -> (out: Self)
        ensures
            string_views(out.common_prefix@) == default_common_prefix(),
            string_views(out.common_subcommands@) == default_common_subcommands(),
            out.ignored_commands@ == Seq::<String>::empty(),
    {
        Stats {
            common_prefix: Self::common_prefix_default(),
            common_subcommands: Self::common_subcommands_default(),
            ignored_commands: Self::ignored_commands_default(),
        }
    }
}

/// What is kept in step with a server.
#[derive(Clone, Copy, Debug, PartialEq, Eq, Structural)]
pub struct Sync {
    pub records: bool,
}

impl Default for Sync {
    fn default() -> (out: Self)
        ensures
            out == (Sync { records: false }),
    {
        Sync { records: false }
    }
}

/// What keys at the edges of the line and of the list do.
pub struct Keys {
    pub scroll_exits: bool,
    pub exit_past_line_start: bool,
    pub accept_past_line_end: bool,
    pub accept_past_line_start: bool,
    pub accept_with_backspace: bool,
    pub prefix: String,
}

/// What keys do, the prefix as text.
#[verifier::ext_equal]
pub struct KeysView {
    pub scroll_exits: bool,
    pub exit_past_line_start: bool,
    pub accept_past_line_end: bool,
    pub accept_past_line_start: bool,
    pub accept_with_backspace: bool,
    pub prefix: Seq<char>,
}

impl View for Keys {
    type V = KeysView;

    open spec fn view(&self) -> KeysView {
        KeysView {
            scroll_exits: self.scroll_exits,
            exit_past_line_start: self.exit_past_line_start,
            accept_past_line_end: self.accept_past_line_end,
            accept_past_line_start: self.accept_past_line_start,
            accept_with_backspace: self.accept_with_backspace,
            prefix: self.prefix@,
        }
    }
}

impl Default for Keys {
    fn default() -> (out: Self)
        ensures
            out@ == (KeysView {
                scroll_exits: false,
                exit_past_line_start: false,
                accept_past_line_end: false,
                accept_past_line_start: false,
                accept_with_backspace: false,
                prefix: Seq::empty(),
            }),
    {
        Keys {
            scroll_exits: false,
            exit_past_line_start: false,
            accept_past_line_end: false,
            accept_past_line_start: false,
            accept_with_backspace: false,
            prefix: String::new(),
        }
    }
}

/// What keys do where the settings say nothing of it.
pub open spec fn standard_keys() -> KeysView {
    KeysView {
        scroll_exits: true,
        exit_past_line_start: true,
        accept_past_line_end: true,
        accept_past_line_start: false,
        accept_with_backspace: false,
        prefix: "a"@,
    }
}

impl Keys {
    /// What keys do where the settings say nothing of it.
    pub fn standard_defaults() -> (out: Self)
        ensures
            out@ == standard_keys(),
    {
        Keys {
            scroll_exits: true,
            exit_past_line_start: true,
            accept_past_line_end: true,
            accept_past_line_start: false,
            accept_with_backspace: false,
            prefix: "a".to_owned(),
        }
    }

    /// Whether the settings say something else.
    pub fn has_non_default_values(&self) -> (b: bool)
        ensures
            b == (self@ != standard_keys()),
    {
        let d = Self::standard_defaults();
        self.scroll_exits != d.scroll_exits || self.exit_past_line_start != d.exit_past_line_start
            || self.accept_past_line_end != d.accept_past_line_end || self.accept_past_line_start
            != d.accept_past_line_start || self.accept_with_backspace != d.accept_with_backspace
            || !same_text(self.prefix.as_str(), d.prefix.as_str())
    }
}

/// What a key does, and when.
#[derive(Debug)]
pub struct KeyRuleConfig {
    pub when: Option<String>,
    pub action: String,
}

/// What a key does: one thing, or the first of several whose time it is.
#[derive(Debug)]
pub enum KeyBindingConfig {
    Simple(String),
    Rules(Vec<KeyRuleConfig>),
}

/// What each key does in each mode.
pub struct KeymapConfig {
    pub emacs: HashMap<String, KeyBindingConfig>,
    pub vim_normal: HashMap<String, KeyBindingConfig>,
    pub vim_insert: HashMap<String, KeyBindingConfig>,
    pub inspector: HashMap<String, KeyBindingConfig>,
    pub prefix: HashMap<String, KeyBindingConfig>,
}

impl Default for KeymapConfig {
    fn default() -> (out: Self)
        ensures
            out.emacs@.is_empty(),
            out.vim_normal@.is_empty(),
            out.vim_insert@.is_empty(),
            out.inspector@.is_empty(),
            out.prefix@.is_empty(),
    {
        KeymapConfig {
            emacs: HashMap::new(),
            vim_normal: HashMap::new(),
            vim_insert: HashMap::new(),
            inspector: HashMap::new(),
            prefix: HashMap::new(),
        }
    }
}

impl KeymapConfig {
    /// Whether no key is set in any mode.
    pub fn is_empty(&self) -> (b: bool)
        ensures
            b == (self.emacs@.is_empty() && self.vim_normal@.is_empty()
                && self.vim_insert@.is_empty() && self.inspector@.is_empty()
                && self.prefix@.is_empty()),
    {
        self.emacs.is_empty() && self.vim_normal.is_empty() && self.vim_insert.is_empty()
            && self.inspector.is_empty() && self.prefix.is_empty()
    }
}

/// The preview of a command.
#[derive(Clone, Copy, Debug, PartialEq, Eq, Structural)]
pub struct Preview {
    pub strategy: PreviewStrategy,
}

impl Default for Preview {
    fn default() -> (out: Self)
        ensures
            out == (Preview { strategy: PreviewStrategy::Auto }),
    {
        Preview { strategy: PreviewStrategy::Auto }
    }
}

/// Which theme is used.
#[derive(Debug)]
pub struct ThemeSettings {
    pub name: String,
    pub debug: Option<bool>,
    /// How many parents of a theme are followed.
    pub max_depth: Option<u8>,
}

impl Default for ThemeSettings {
    fn default() -> (out: Self)
        ensures
            out.name@ == Seq::<char>::empty(),
            out.debug is None,
            out.max_depth == Some(10u8),
    {
        ThemeSettings { name: String::new(), debug: None, max_depth: Some(10) }
    }
}

/// The process that works in the background.
#[derive(Debug)]
pub struct Daemon {
    pub enabled: bool,
    pub autostart: bool,
    /// Seconds between one sync and the next.
    pub sync_frequency: u64,
    pub socket_path: String,
    pub pidfile_path: String,
    pub systemd_socket: bool,
    pub tcp_port: u64,
}

impl Default for Daemon {
    fn default() -> (out: Self)
        ensures
            !out.enabled,
            !out.autostart,
            out.sync_frequency == 300,
            out.socket_path@ == Seq::<char>::empty(),
            out.pidfile_path@ == Seq::<char>::empty(),
            !out.systemd_socket,
            out.tcp_port == 8889,
    {
        Daemon {
            enabled: false,
            autostart: false,
            sync_frequency: 300,
            socket_path: String::new(),
            pidfile_path: String::new(),
            systemd_socket: false,
            tcp_port: 8889,
        }
    }
}

/// Which filter modes there are to go through.
#[derive(Debug)]
pub struct Search {
    pub filters: Vec<FilterMode>,
}

impl Default for Search {
    fn default() -> (out: Self)
        ensures
            out.filters@ == seq![
                FilterMode::Global,
                FilterMode::Host,
                FilterMode::Session,
                FilterMode::SessionPreload,
                FilterMode::Workspace,
                FilterMode::Directory,
            ],
    {
        Search {
            filters: vec![
                FilterMode::Global,
                FilterMode::Host,
                FilterMode::Session,
                FilterMode::SessionPreload,
                FilterMode::Workspace,
                FilterMode::Directory,
            ],
        }
    }
}

/// The window in tmux.
#[derive(Debug)]
pub struct Tmux {
    pub enabled: bool,
    pub width: String,
    pub height: String,
}

impl Default for Tmux {
    fn default() -> (out: Self)
        ensures
            !out.enabled,
            out.width@ == "80%"@,
            out.height@ == "60%"@,
    {
        Tmux { enabled: false, width: "80%".to_owned(), height: "60%".to_owned() }
    }
}

/// Suggestions from a service.
#[derive(Debug)]
pub struct Ai {
    pub enabled: bool,
    pub endpoint: Option<String>,
    pub api_token: Option<String>,
    pub send_cwd: bool,
}

impl Default for Ai {
    fn default() -> (out: Self)
        ensures
            out == (Ai { enabled: false, endpoint: None, api_token: None, send_cwd: false }),
    {
        Ai { enabled: false, endpoint: None, api_token: None, send_cwd: false }
    }
}

/// Whether shell configuration is kept in step too.
#[derive(Clone, Copy, Debug, PartialEq, Eq, Structural)]
pub struct DotfilesSettings {
    pub enabled: bool,
}

impl Default for DotfilesSettings {
    fn default() -> (out: Self)
        ensures
            out == (DotfilesSettings { enabled: false }),
    {
        DotfilesSettings { enabled: false }
    }
}

/// Where pairs of keys and values are kept.
#[derive(Debug)]
pub struct KvSettings {
    pub db_path: String,
}

impl KvSettings {
    /// `kv.db` in the directory for data.
    pub fn in_data_dir(system: &System, data_dir: &str) -> (out: Self)
        ensures
            out.db_path@ == path_from(system.windows(), data_dir@, "kv.db"@),
    {
        KvSettings { db_path: join_path(system, data_dir, "kv.db") }
    }
}

/// Where scripts are kept.
#[derive(Debug)]
pub struct ScriptsSettings {
    pub db_path: String,
}

impl ScriptsSettings {
    /// `scripts.db` in the directory for data.
    pub fn in_data_dir(system: &System, data_dir: &str) -> (out: Self)
        ensures
            out.db_path@ == path_from(system.windows(), data_dir@, "scripts.db"@),
    {
        ScriptsSettings { db_path: join_path(system, data_dir, "scripts.db") }
    }
}

/// Where what is known of the history itself is kept.
#[derive(Debug)]
pub struct MetaSettings {
    pub db_path: String,
}

impl MetaSettings {
    /// `meta.db` in the directory for data.
    pub fn in_data_dir(system: &System, data_dir: &str) -> (out: Self)
        ensures
            out.db_path@ == path_from(system.windows(), data_dir@, "meta.db"@),
    {
        MetaSettings { db_path: join_path(system, data_dir, "meta.db") }
    }
}

} // verus!
