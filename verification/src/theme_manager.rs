//! Finding the theme of a name: one that was loaded, one that needs no file, or one from a file.
use vstd::prelude::*;

use crate::history::option_text;
use crate::meanings::MeaningMap;
use crate::paths::{join_path, option_view, path_from, System};
use crate::text::same_text;
use crate::theme::{
    builtin, builtin_theme, color_texts, is_complete, law_overlay_complete, styles_of, theme_over,
    Theme, ThemeView,
};

verus! {

/// How many parents of a theme are followed unless the settings say otherwise.
pub const DEFAULT_MAX_DEPTH: u8 = 10;

/// What a theme file says of the theme itself.
pub struct ThemeDefinitionConfigBlock {
    pub name: String,
    pub parent: Option<String>,
}

/// What a theme file says.
pub struct ThemeConfig {
    pub theme: ThemeDefinitionConfigBlock,
    /// A text for the color of each meaning.
    pub colors: MeaningMap<String>,
}

/// What a theme file says, its texts as sequences of characters.
pub struct ThemeConfigView {
    pub name: Seq<char>,
    pub parent: Option<Seq<char>>,
    pub colors: MeaningMap<Seq<char>>,
}

impl View for ThemeConfig {
    type V = ThemeConfigView;

    open spec fn view(&self) -> ThemeConfigView {
        ThemeConfigView {
            name: self.theme.name@,
            parent: option_text(self.theme.parent),
            colors: color_texts(self.colors),
        }
    }
}

/// A theme file that was looked for: the name of the theme, and what the file says, if it could
/// be read.
pub struct ThemeFile {
    pub name: String,
    pub config: Option<ThemeConfig>,
}

/// Whether the file of a theme was looked for.
pub open spec fn was_sought(files: Seq<ThemeFile>, name: Seq<char>) -> bool {
    exists|i: int| 0 <= i < files.len() && (#[trigger] files[i]).name@ == name
}

/// What the file of a theme says, if it was looked for and could be read; of several, the first.
pub open spec fn file_of(files: Seq<ThemeFile>, name: Seq<char>) -> Option<ThemeConfigView>
    decreases files.len(),
{
    if files.len() == 0 {
        None
    } else if files[0].name@ == name {
        match files[0].config {
            Some(config) => Some(config@),
            None => None,
        }
    } else {
        file_of(files.skip(1), name)
    }
}

/// Themes by the names under which they were loaded; of several, the last.
pub open spec fn loaded_map(v: Seq<(String, Theme)>) -> Map<Seq<char>, ThemeView>
    decreases v.len(),
{
    if v.len() == 0 {
        Map::empty()
    } else {
        loaded_map(v.drop_last()).insert(v.last().0@, v.last().1@)
    }
}

/// The theme that is used where one cannot be found.
pub open spec fn no_theme() -> ThemeView {
    builtin_theme("(none)"@).unwrap()
}

/// The theme that a file gives, put over its parent.
pub open spec fn theme_of_config(config: ThemeConfigView, parent: ThemeView) -> ThemeView {
    theme_over(config.name, Some(parent), styles_of(config.colors))
}

/// The theme that needs no parent to be named.
pub open spec fn default_parent(loaded: Map<Seq<char>, ThemeView>) -> ThemeView {
    if loaded.contains_key("default"@) {
        loaded["default"@]
    } else {
        builtin_theme("default"@).unwrap()
    }
}

/// The theme of a name, and what is loaded once it is found: a theme that is loaded, or one that
/// needs no file, or else the one that its file gives, put over the theme that the file names as
/// its parent, or over the default one. No more than `depth` parents are followed. Where there
/// is no file, or one more parent would have to be followed, it is the theme without colors.
pub open spec fn found_theme(
    loaded: Map<Seq<char>, ThemeView>,
    files: Seq<ThemeFile>,
    name: Seq<char>,
    depth: nat,
) -> (ThemeView, Map<Seq<char>, ThemeView>)
    decreases depth,
{
    if loaded.contains_key(name) {
        (loaded[name], loaded)
    } else if builtin_theme(name) is Some {
        (builtin_theme(name).unwrap(), loaded)
    } else {
        match file_of(files, name) {
            None => (no_theme(), loaded),
            Some(config) => match config.parent {
                None => {
                    let theme = theme_of_config(config, default_parent(loaded));
                    (theme, loaded.insert(name, theme))
                },
                Some(parent) => if depth == 0 {
                    (no_theme(), loaded)
                } else {
                    let (above, more) = found_theme(loaded, files, parent, (depth - 1) as nat);
                    let theme = theme_of_config(config, above);
                    (theme, more.insert(name, theme))
                },
            },
        }
    }
}

/// The name of the theme whose file has to be looked for next to find the theme of a name, if
/// there is one.
pub open spec fn next_file(
    loaded: Map<Seq<char>, ThemeView>,
    files: Seq<ThemeFile>,
    name: Seq<char>,
    depth: nat,
) -> Option<Seq<char>>
    decreases depth,
{
    if loaded.contains_key(name) || builtin_theme(name) is Some {
        None
    } else if !was_sought(files, name) {
        Some(name)
    } else {
        match file_of(files, name) {
            None => None,
            Some(config) => match config.parent {
                None => None,
                Some(parent) => if depth == 0 {
                    None
                } else {
                    next_file(loaded, files, parent, (depth - 1) as nat)
                },
            },
        }
    }
}

/// Finds themes.
pub struct ThemeManager {
    pub loaded_themes: Vec<(String, Theme)>,
    pub debug: bool,
    /// The directory with theme files, in place of the one for configuration.
    pub override_theme_dir: Option<String>,
}

/// The position of the file of a theme among those that were looked for.
fn sought_at(files: &Vec<ThemeFile>, name: &str) -> (at: Option<usize>)
    ensures
        at is Some == was_sought(files@, name@),
        at matches Some(i) ==> i < files.len() && file_of(files@, name@) == (
        match files@[i as int].config {
            Some(config) => Some(config@),
            None => None,
        }),
        at is None ==> file_of(files@, name@) is None,
{
    let mut i: usize = 0;
    assert(files@.skip(0) =~= files@);
    while i < files.len()
        invariant
            i <= files.len(),
            file_of(files@, name@) == file_of(files@.skip(i as int), name@),
            forall|j: int| 0 <= j < i ==> (#[trigger] files@[j]).name@ != name@,
        decreases files.len() - i,
    {
        assert(files@.skip(i as int)[0] == files@[i as int]);
        assert(files@.skip(i as int).skip(1) =~= files@.skip(i + 1));
        if same_text(files[i].name.as_str(), name) {
            assert(files@[i as int].name@ == name@);
            return Some(i);
        }
        i = i + 1;
    }
    None
}

impl ThemeManager {
    /// What is loaded.
    pub open spec fn loaded(self) -> Map<Seq<char>, ThemeView> {
        loaded_map(self.loaded_themes@)
    }

    /// Has loaded nothing yet. Theme files are in `theme_dir`, or else in the directory that the
    /// environment names, if it names one.
    pub fn new(debug: Option<bool>, theme_dir: Option<String>, env_dir: Option<String>) -> (manager:
        Self)
        ensures
            manager.loaded() == Map::<Seq<char>, ThemeView>::empty(),
            manager.debug == (debug == Some(true)),
            manager.override_theme_dir == (match theme_dir {
                Some(dir) => Some(dir),
                None => env_dir,
            }),
    {
        ThemeManager {
            loaded_themes: Vec::new(),
            debug: match debug {
                Some(b) => b,
                None => false,
            },
            override_theme_dir: match theme_dir {
                Some(dir) => Some(dir),
                None => env_dir,
            },
        }
    }

    /// The file of a theme: in the directory that is set for themes, or else in `themes` in the
    /// one that the environment names for configuration, or in the one for configuration. There
    /// is none where the directory that is set is empty.
    pub fn theme_file(
        &self,
        system: &System,
        name: &str,
        named: Option<&str>,
        config_dir: &str,
    ) -> (path: Option<String>)
        ensures
            option_text(path) == (match option_text(self.override_theme_dir) {
                Some(dir) => if dir.len() == 0 {
                    None
                } else {
                    Some(path_from(system.windows(), dir, name@ + ".toml"@))
                },
                None => Some(
                    path_from(
                        system.windows(),
                        path_from(
                            system.windows(),
                            match option_view(named) {
                                Some(dir) => dir,
                                None => config_dir@,
                            },
                            "themes"@,
                        ),
                        name@ + ".toml"@,
                    ),
                ),
            }),
    {
        let dir = match &self.override_theme_dir {
            Some(dir) => {
                if dir.as_str().is_empty() {
                    return None;
                }
                dir.clone()
            },
            None => match named {
                Some(dir) => join_path(system, dir, "themes"),
                None => join_path(system, config_dir, "themes"),
            },
        };
        let mut file = name.to_owned();
        file.append(".toml");
        Some(join_path(system, dir.as_str(), file.as_str()))
    }

    /// The theme that is loaded under a name.
    fn loaded_theme(&self, name: &str) -> (theme: Option<Theme>)
        ensures
            theme is Some == self.loaded().contains_key(name@),
            theme matches Some(t) ==> t@ == self.loaded()[name@],
    {
        let v = &self.loaded_themes;
        let mut n: usize = v.len();
        assert(v@.take(n as int) =~= v@);
        while n > 0
            invariant
                n <= v.len(),
                v == self.loaded_themes,
                loaded_map(v@.take(n as int)).contains_key(name@) == self.loaded().contains_key(
                    name@,
                ),
                self.loaded().contains_key(name@) ==> loaded_map(v@.take(n as int))[name@]
                    == self.loaded()[name@],
            decreases n,
        {
            assert(v@.take(n as int).drop_last() =~= v@.take(n - 1));
            assert(v@.take(n as int).last() == v@[n - 1]);
            if same_text(v[n - 1].0.as_str(), name) {
                return Some(v[n - 1].1.copy());
            }
            n = n - 1;
        }
        None
    }

    /// Loads a theme under a name.
    fn insert(&mut self, name: &str, theme: Theme)
        ensures
            final(self).loaded() == old(self).loaded().insert(name@, theme@),
            final(self).debug == old(self).debug,
            final(self).override_theme_dir == old(self).override_theme_dir,
    {
        self.loaded_themes.push((name.to_owned(), theme));
        assert(self.loaded_themes@.drop_last() =~= old(self).loaded_themes@);
    }

    /// The name of the theme whose file has to be looked for next to load a theme, if there is
    /// one.
    pub fn next_theme_file(&self, name: &str, max_depth: u8, files: &Vec<ThemeFile>) -> (next: Option<
        String,
    >)
        ensures
            option_text(next) == next_file(self.loaded(), files@, name@, max_depth as nat),
        decreases max_depth,
    {
        if self.loaded_theme(name).is_some() || builtin(name).is_some() {
            return None;
        }
        let at: usize = match sought_at(files, name) {
            Some(at) => at,
            None => return Some(name.to_owned()),
        };
        match &files[at].config {
            None => None,
            Some(config) => match &config.theme.parent {
                None => None,
                Some(parent) => if max_depth == 0 {
                    None
                } else {
                    self.next_theme_file(parent.as_str(), max_depth - 1, files)
                },
            },
        }
    }

    /// Loads the theme that a file gives, put over its parent. `None` where one more parent
    /// would have to be followed.
    pub fn load_theme_from_config(
        &mut self,
        name: &str,
        config: &ThemeConfig,
        max_depth: u8,
        files: &Vec<ThemeFile>,
    ) -> (theme: Option<Theme>)
        ensures
            final(self).debug == old(self).debug,
            final(self).override_theme_dir == old(self).override_theme_dir,
            match config@.parent {
                None => {
                    let t = theme_of_config(config@, default_parent(old(self).loaded()));
                    &&& theme matches Some(out) && out@ == t
                    &&& final(self).loaded() == old(self).loaded().insert(name@, t)
                },
                Some(parent) => if max_depth == 0 {
                    theme is None && final(self).loaded() == old(self).loaded()
                } else {
                    let above = found_theme(
                        old(self).loaded(),
                        files@,
                        parent,
                        (max_depth - 1) as nat,
                    );
                    let t = theme_of_config(config@, above.0);
                    &&& theme matches Some(out) && out@ == t
                    &&& final(self).loaded() == above.1.insert(name@, t)
                },
            },
        decreases max_depth, 0int,
    {
        let parent = match &config.theme.parent {
            Some(parent) => {
                if max_depth == 0 {
                    return None;
                }
                self.load_theme_within(parent.as_str(), max_depth - 1, files)
            },
            None => match self.loaded_theme("default") {
                Some(theme) => theme,
                None => match builtin("default") {
                    Some(theme) => theme,
                    None => {
                        assert(false);
                        return None;
                    },
                },
            },
        };
        let theme = Theme::from_foreground_colors(
            config.theme.name.clone(),
            Some(&parent),
            &config.colors,
        );
        self.insert(name, theme.copy());
        Some(theme)
    }

    fn load_theme_within(&mut self, name: &str, max_depth: u8, files: &Vec<ThemeFile>) -> (theme:
        Theme)
        ensures
            final(self).debug == old(self).debug,
            final(self).override_theme_dir == old(self).override_theme_dir,
            theme@ == found_theme(old(self).loaded(), files@, name@, max_depth as nat).0,
            final(self).loaded() == found_theme(
                old(self).loaded(),
                files@,
                name@,
                max_depth as nat,
            ).1,
        decreases max_depth, 1int,
    {
        if let Some(theme) = self.loaded_theme(name) {
            return theme;
        }
        if let Some(theme) = builtin(name) {
            return theme;
        }
        let loaded = match sought_at(files, name) {
            Some(at) => match &files[at].config {
                Some(config) => self.load_theme_from_config(name, config, max_depth, files),
                None => None,
            },
            None => None,
        };
        match loaded {
            Some(theme) => theme,
            None => Self::plain_theme(),
        }
    }

    /// The theme without colors.
    fn plain_theme() -> (theme: Theme)
        ensures
            theme@ == no_theme(),
    {
        proof {
            reveal_strlit("(none)");
            reveal_strlit("default");
        }
        match builtin("(none)") {
            Some(theme) => theme,
            None => {
                assert(false);
                Theme::new(String::new(), None, MeaningMap::new())
            },
        }
    }

    /// Loads the theme of a name, where `files` holds the theme files that were looked for. A
    /// file that was not looked for counts as one that could not be read.
    pub fn load_theme(&mut self, name: &str, max_depth: Option<u8>, files: &Vec<ThemeFile>) -> (theme:
        Theme)
        ensures
            final(self).debug == old(self).debug,
            final(self).override_theme_dir == old(self).override_theme_dir,
            ({
                let depth = match max_depth {
                    Some(depth) => depth,
                    None => DEFAULT_MAX_DEPTH,
                };
                let found = found_theme(old(self).loaded(), files@, name@, depth as nat);
                theme@ == found.0 && final(self).loaded() == found.1
            }),
    {
        let depth: u8 = match max_depth {
            Some(depth) => depth,
            None => DEFAULT_MAX_DEPTH,
        };
        self.load_theme_within(name, depth, files)
    }
}

/// Where all that is loaded is complete, the theme that is found is, and all that is loaded then
/// is.
pub proof fn law_found_theme_complete(
    loaded: Map<Seq<char>, ThemeView>,
    files: Seq<ThemeFile>,
    name: Seq<char>,
    depth: nat,
)
    requires
        forall|n: Seq<char>| #[trigger] loaded.contains_key(n) ==> is_complete(loaded[n].styles),
    ensures
        is_complete(found_theme(loaded, files, name, depth).0.styles),
        forall|n: Seq<char>| #[trigger]
            found_theme(loaded, files, name, depth).1.contains_key(n) ==> is_complete(
                found_theme(loaded, files, name, depth).1[n].styles,
            ),
    decreases depth,
{
    reveal_strlit("(none)");
    reveal_strlit("default");
    if !loaded.contains_key(name) && builtin_theme(name) is None {
        if let Some(config) = file_of(files, name) {
            match config.parent {
                None => {
                    law_overlay_complete(
                        config.name,
                        Some(default_parent(loaded)),
                        styles_of(config.colors),
                    );
                },
                Some(parent) => {
                    if depth > 0 {
                        law_found_theme_complete(loaded, files, parent, (depth - 1) as nat);
                        let above = found_theme(loaded, files, parent, (depth - 1) as nat);
                        law_overlay_complete(config.name, Some(above.0), styles_of(config.colors));
                    }
                },
            }
        }
    }
}

/// A theme that needs no file is found whatever files there are, unless another one was loaded
/// under its name, and nothing is loaded for it.
pub proof fn law_builtin_found(
    loaded: Map<Seq<char>, ThemeView>,
    files: Seq<ThemeFile>,
    name: Seq<char>,
    depth: nat,
)
    requires
        builtin_theme(name) is Some,
        !loaded.contains_key(name),
    ensures
        found_theme(loaded, files, name, depth) == (builtin_theme(name).unwrap(), loaded),
        next_file(loaded, files, name, depth) is None,
{
}

} // verus!
