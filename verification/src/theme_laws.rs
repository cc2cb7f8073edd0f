//! What a theme has from its file and from its parents.
use vstd::prelude::*;

use crate::meanings::{Meaning, MeaningMap};
use crate::theme::{builtin_theme, closest, style_of, ContentStyle, ThemeView};
use crate::theme_manager::{
    default_parent, file_of, found_theme, next_file, no_theme, theme_of_config, was_sought,
    ThemeConfig, ThemeFile,
};

verus! {

/// Whether the file at position `i` is the first that was looked for under a name.
pub open spec fn is_file_of(files: Seq<ThemeFile>, name: Seq<char>, i: int) -> bool {
    &&& 0 <= i < files.len()
    &&& files[i].name@ == name
    &&& forall|j: int| 0 <= j < i ==> (#[trigger] files[j]).name@ != name
}

proof fn lemma_file_of(files: Seq<ThemeFile>, name: Seq<char>, i: int)
    requires
        is_file_of(files, name, i),
    ensures
        file_of(files, name) == (match files[i].config {
            Some(config) => Some(config@),
            None => None,
        }),
    decreases files.len(),
{
    if i > 0 {
        assert(files[0].name@ != name);
        let rest = files.skip(1);
        assert forall|j: int| 0 <= j < i - 1 implies (#[trigger] rest[j]).name@ != name by {
            assert(rest[j] == files[j + 1]);
        }
        assert(rest[i - 1] == files[i]);
        lemma_file_of(rest, name, i - 1);
    }
}

proof fn lemma_no_file(files: Seq<ThemeFile>, name: Seq<char>)
    requires
        forall|j: int| 0 <= j < files.len() ==> (#[trigger] files[j]).name@ != name,
    ensures
        file_of(files, name) is None,
    decreases files.len(),
{
    if files.len() > 0 {
        assert(files[0].name@ != name);
        let rest = files.skip(1);
        assert forall|j: int| 0 <= j < rest.len() implies (#[trigger] rest[j]).name@ != name by {
            assert(rest[j] == files[j + 1]);
        }
        lemma_no_file(rest, name);
    }
}

/// Whether a theme is what a file makes of its parent: for each meaning for which the parent has a
/// style, the style of the color that the file gives, or else that of the parent, and none for the
/// others.
pub open spec fn is_made_of(
    theme: ThemeView,
    name: Seq<char>,
    colors: MeaningMap<String>,
    parent: ThemeView,
) -> bool {
    &&& theme.name == name
    &&& theme.parent == Some(parent.name)
    &&& forall|m: Meaning| #[trigger]
        theme.styles.slot(m) == (match (parent.styles.slot(m), colors.slot(m)) {
            (None, _) => None::<ContentStyle>,
            (Some(_), Some(text)) => Some(style_of(text@)),
            (Some(style), None) => Some(style),
        })
}

/// A theme that has to be read from a file is what the file makes of its parent, which is the
/// theme that is found under the name which the file gives, or the default one where it gives
/// none; it is loaded under its name then, and what was loaded for its parent stays.
pub proof fn law_theme_of_file(
    loaded: Map<Seq<char>, ThemeView>,
    files: Seq<ThemeFile>,
    name: Seq<char>,
    depth: nat,
    i: int,
)
    requires
        !loaded.contains_key(name),
        builtin_theme(name) is None,
        is_file_of(files, name, i),
        files[i].config is Some,
    ensures
        ({
            let config = files[i].config.unwrap();
            let (theme, now) = found_theme(loaded, files, name, depth);
            match config.theme.parent {
                Some(parent) => if depth == 0 {
                    theme == no_theme() && now == loaded
                } else {
                    let (above, more) = found_theme(loaded, files, parent@, (depth - 1) as nat);
                    is_made_of(theme, config.theme.name@, config.colors, above) && now
                        == more.insert(name, theme)
                },
                None => {
                    let above = if loaded.contains_key("default"@) {
                        loaded["default"@]
                    } else {
                        builtin_theme("default"@).unwrap()
                    };
                    is_made_of(theme, config.theme.name@, config.colors, above) && now
                        == loaded.insert(name, theme)
                },
            }
        }),
{
    lemma_file_of(files, name, i);
    let config = files[i].config.unwrap();
    match config.theme.parent {
        Some(parent) => {
            if depth > 0 {
                let above = found_theme(loaded, files, parent@, (depth - 1) as nat).0;
                lemma_made_of(config, above);
            }
        },
        None => {
            lemma_made_of(config, default_parent(loaded));
        },
    }
}

proof fn lemma_made_of(config: ThemeConfig, parent: ThemeView)
    ensures
        is_made_of(
            theme_of_config(config@, parent),
            config.theme.name@,
            config.colors,
            parent,
        ),
{
    let theme = theme_of_config(config@, parent);
    assert forall|m: Meaning| #[trigger]
        theme.styles.slot(m) == (match (parent.styles.slot(m), config.colors.slot(m)) {
            (None, _) => None::<ContentStyle>,
            (Some(_), Some(text)) => Some(style_of(text@)),
            (Some(style), None) => Some(style),
        }) by {
        match m {
            Meaning::AlertInfo => {},
            Meaning::AlertWarn => {},
            Meaning::AlertError => {},
            Meaning::Annotation => {},
            Meaning::Base => {},
            Meaning::Guidance => {},
            Meaning::Important => {},
            Meaning::Title => {},
            Meaning::Muted => {},
        }
    }
}

/// Where the file of a theme was not looked for, or could not be read, the theme is the one
/// without colors, and nothing is loaded.
pub proof fn law_theme_without_file(
    loaded: Map<Seq<char>, ThemeView>,
    files: Seq<ThemeFile>,
    name: Seq<char>,
    depth: nat,
)
    requires
        !loaded.contains_key(name),
        builtin_theme(name) is None,
        forall|j: int| 0 <= j < files.len() ==> (#[trigger] files[j]).name@ != name,
    ensures
        found_theme(loaded, files, name, depth) == (no_theme(), loaded),
{
    lemma_no_file(files, name);
}

/// A theme that is loaded is found as it was loaded, whatever the files are now, and all that was
/// loaded before stays loaded as it was.
pub proof fn law_loaded_stays(
    loaded: Map<Seq<char>, ThemeView>,
    files: Seq<ThemeFile>,
    name: Seq<char>,
    depth: nat,
    others: Seq<ThemeFile>,
    other_depth: nat,
)
    ensures
        loaded.contains_key(name) ==> found_theme(loaded, files, name, depth) == (
            loaded[name],
            loaded,
        ),
        found_theme(loaded, files, name, depth).1.contains_key(name) ==> found_theme(
            found_theme(loaded, files, name, depth).1,
            others,
            name,
            other_depth,
        ).0 == found_theme(loaded, files, name, depth).0,
        forall|n: Seq<char>| #[trigger]
            loaded.contains_key(n) && n != name ==> found_theme(
                loaded,
                files,
                name,
                depth,
            ).1.contains_key(n),
    decreases depth,
{
    if !loaded.contains_key(name) && builtin_theme(name) is None {
        if let Some(config) = file_of(files, name) {
            if let Some(parent) = config.parent {
                if depth > 0 {
                    law_loaded_stays(
                        loaded,
                        files,
                        parent,
                        (depth - 1) as nat,
                        others,
                        other_depth,
                    );
                }
            }
        }
    }
}

/// The style that is used for a meaning is its own where the theme has one. Guidance and
/// annotations then take that for information, and titles that for what is important, where the
/// theme has it, and any meaning else takes the base.
pub proof fn law_style_used(styles: MeaningMap<ContentStyle>, m: Meaning)
    ensures
        styles.slot(m) is Some ==> closest(styles, m) == m,
        styles.guidance is None ==> closest(styles, Meaning::Guidance) == (
        if styles.alert_info is Some {
            Meaning::AlertInfo
        } else {
            Meaning::Base
        }),
        styles.annotation is None ==> closest(styles, Meaning::Annotation) == (
        if styles.alert_info is Some {
            Meaning::AlertInfo
        } else {
            Meaning::Base
        }),
        styles.title is None ==> closest(styles, Meaning::Title) == (if styles.important is Some {
            Meaning::Important
        } else {
            Meaning::Base
        }),
        styles.alert_info is None ==> closest(styles, Meaning::AlertInfo) == Meaning::Base,
        styles.alert_warn is None ==> closest(styles, Meaning::AlertWarn) == Meaning::Base,
        styles.alert_error is None ==> closest(styles, Meaning::AlertError) == Meaning::Base,
        styles.important is None ==> closest(styles, Meaning::Important) == Meaning::Base,
        styles.muted is None ==> closest(styles, Meaning::Muted) == Meaning::Base,
        styles.slot(Meaning::Title) == styles.title && styles.slot(Meaning::Important)
            == styles.important && styles.slot(Meaning::Guidance) == styles.guidance && styles.slot(
            Meaning::Annotation,
        ) == styles.annotation && styles.slot(Meaning::AlertInfo) == styles.alert_info
            && styles.slot(Meaning::AlertWarn) == styles.alert_warn && styles.slot(
            Meaning::AlertError,
        ) == styles.alert_error && styles.slot(Meaning::Muted) == styles.muted && styles.slot(
            Meaning::Base,
        ) == styles.base,
{
}

proof fn lemma_sought(files: Seq<ThemeFile>, more: Seq<ThemeFile>, name: Seq<char>)
    requires
        was_sought(files, name),
    ensures
        file_of(files + more, name) == file_of(files, name),
    decreases files.len(),
{
    let all = files + more;
    assert(all[0] == files[0]);
    if files[0].name@ != name {
        let rest = files.skip(1);
        assert(all.skip(1) =~= rest + more);
        let i = choose|i: int| 0 <= i < files.len() && (#[trigger] files[i]).name@ == name;
        assert(rest[i - 1] == files[i]);
        lemma_sought(rest, more, name);
    }
}

/// Where no file has to be looked for any more, looking for others changes nothing: the theme that
/// is found is the one that is found with all files there are.
pub proof fn law_no_more_files(
    loaded: Map<Seq<char>, ThemeView>,
    files: Seq<ThemeFile>,
    name: Seq<char>,
    depth: nat,
    more: Seq<ThemeFile>,
)
    requires
        next_file(loaded, files, name, depth) is None,
    ensures
        found_theme(loaded, files + more, name, depth) == found_theme(loaded, files, name, depth),
    decreases depth,
{
    if !loaded.contains_key(name) && builtin_theme(name) is None {
        lemma_sought(files, more, name);
        if let Some(config) = file_of(files, name) {
            if let Some(parent) = config.parent {
                if depth > 0 {
                    law_no_more_files(loaded, files, parent, (depth - 1) as nat, more);
                }
            }
        }
    }
}

/// A file that has to be looked for was not looked for yet, and is that of a theme that is neither
/// loaded nor known without a file.
pub proof fn law_next_file(
    loaded: Map<Seq<char>, ThemeView>,
    files: Seq<ThemeFile>,
    name: Seq<char>,
    depth: nat,
)
    requires
        next_file(loaded, files, name, depth) is Some,
    ensures
        ({
            let next = next_file(loaded, files, name, depth).unwrap();
            &&& forall|i: int| 0 <= i < files.len() ==> (#[trigger] files[i]).name@ != next
            &&& !loaded.contains_key(next)
            &&& builtin_theme(next) is None
        }),
    decreases depth,
{
    if was_sought(files, name) {
        if let Some(config) = file_of(files, name) {
            if let Some(parent) = config.parent {
                if depth > 0 {
                    law_next_file(loaded, files, parent, (depth - 1) as nat);
                }
            }
        }
    }
}

} // verus!
