//! Colors and themes.
use atuin_fullhistory::colors::{color_from_parts, from_string, Color, ColorError};
use atuin_fullhistory::meanings::{Meaning, MeaningMap};
use atuin_fullhistory::paths::System;
use atuin_fullhistory::theme::{builtin, ContentStyle, Level, StyleFactory, Theme};
use atuin_fullhistory::theme_manager::{
    ThemeConfig, ThemeDefinitionConfigBlock, ThemeFile, ThemeManager,
};

fn fg(color: Color) -> ContentStyle {
    ContentStyle { foreground_color: Some(color), bold: false }
}

fn rgb(r: u8, g: u8, b: u8) -> ContentStyle {
    fg(Color::Rgb { r, g, b })
}

fn file(name: &str, inner: &str, parent: Option<&str>, base: &str) -> ThemeFile {
    let mut colors = MeaningMap::new();
    colors.insert(Meaning::Base, base.to_string());
    ThemeFile {
        name: name.to_string(),
        config: Some(ThemeConfig {
            theme: ThemeDefinitionConfigBlock {
                name: inner.to_string(),
                parent: parent.map(|p| p.to_string()),
            },
            colors,
        }),
    }
}

#[test]
fn colors_in_hexadecimal() {
    assert_eq!(from_string("#ff8000"), Ok(Color::Rgb { r: 255, g: 128, b: 0 }));
    assert_eq!(from_string("#FF80aB"), Ok(Color::Rgb { r: 255, g: 128, b: 171 }));
    // A pair may be a plus sign and a digit, and the last one a digit alone.
    assert_eq!(from_string("#+f010"), Ok(Color::Rgb { r: 15, g: 1, b: 0 }));
    // A pair that is no number is left out.
    assert_eq!(from_string("#zz010203"), Ok(Color::Rgb { r: 1, g: 2, b: 3 }));
    assert_eq!(from_string("#0102"), Err(ColorError::Hex));
    assert_eq!(from_string("#01020304"), Err(ColorError::Hex));
    assert_eq!(from_string("#"), Err(ColorError::Hex));
    assert_eq!(from_string("#-1-2-3"), Err(ColorError::Hex));
}

#[test]
fn colors_of_the_terminal() {
    assert_eq!(from_string("@dark_red"), Ok(Color::DarkRed));
    assert_eq!(from_string("@reset"), Ok(Color::Reset));
    assert_eq!(from_string("@grey"), Ok(Color::Grey));
    assert_eq!(from_string("@ansi_(7)"), Ok(Color::AnsiValue(7)));
    assert_eq!(from_string("@rgb_(1,2,3)"), Ok(Color::Rgb { r: 1, g: 2, b: 3 }));
    assert_eq!(from_string("@nothing"), Err(ColorError::Terminal));
    assert_eq!(from_string("@"), Err(ColorError::Terminal));
    assert_eq!(from_string("@a\"b"), Err(ColorError::Terminal));
}

#[test]
fn every_color_of_the_terminal_is_itself() {
    let colors = [
        ("black", Color::Black),
        ("dark_grey", Color::DarkGrey),
        ("red", Color::Red),
        ("green", Color::Green),
        ("dark_green", Color::DarkGreen),
        ("yellow", Color::Yellow),
        ("dark_yellow", Color::DarkYellow),
        ("blue", Color::Blue),
        ("dark_blue", Color::DarkBlue),
        ("magenta", Color::Magenta),
        ("dark_magenta", Color::DarkMagenta),
        ("cyan", Color::Cyan),
        ("dark_cyan", Color::DarkCyan),
        ("white", Color::White),
    ];
    for (name, color) in colors {
        assert_eq!(from_string(&format!("@{name}")), Ok(color));
    }
}

#[test]
fn colors_of_the_palette() {
    assert_eq!(from_string("saddlebrown"), Ok(Color::Rgb { r: 139, g: 69, b: 19 }));
    assert_eq!(from_string("red"), Ok(Color::Rgb { r: 255, g: 0, b: 0 }));
    assert_eq!(from_string("Red"), Err(ColorError::Palette));
    assert_eq!(from_string(""), Err(ColorError::Empty));
}

#[test]
fn colors_from_what_was_found() {
    assert_eq!(color_from_parts("@x", Some(Color::Red), None), Ok(Color::Red));
    assert_eq!(
        color_from_parts("x", None, Some((1, 2, 3))),
        Ok(Color::Rgb { r: 1, g: 2, b: 3 })
    );
    assert_eq!(color_from_parts("x", Some(Color::Red), None), Err(ColorError::Palette));
}

#[test]
fn styles_from_texts() {
    assert_eq!(StyleFactory::from_fg_string("#000000"), Ok(rgb(0, 0, 0)));
    assert_eq!(StyleFactory::from_fg_string(""), Err(ColorError::Empty));
    assert_eq!(StyleFactory::fg_string_or_plain("nothing"), ContentStyle::default());
}

#[test]
fn default_theme() {
    let theme = builtin("default").unwrap();
    assert_eq!(theme.name, "default");
    assert_eq!(theme.parent, None);
    assert_eq!(theme.get_base(), ContentStyle::default());
    assert_eq!(theme.get_error(), fg(Color::DarkRed));
    assert_eq!(theme.get_warning(), fg(Color::DarkYellow));
    assert_eq!(theme.get_info(), fg(Color::DarkGreen));
    assert_eq!(theme.get_alert(Level::Warn), fg(Color::DarkYellow));
    assert_eq!(theme.as_style(Meaning::Annotation), fg(Color::DarkGrey));
    assert_eq!(theme.as_style(Meaning::Guidance), fg(Color::DarkBlue));
    assert_eq!(theme.as_style(Meaning::Muted), fg(Color::Grey));
    let bold = ContentStyle { foreground_color: Some(Color::White), bold: true };
    assert_eq!(theme.as_style(Meaning::Important), bold);
    // A title looks like what is important.
    assert_eq!(theme.closest_meaning(Meaning::Title), Meaning::Important);
    assert_eq!(theme.as_style(Meaning::Title), bold);
}

#[test]
fn meanings_stand_in_for_others() {
    let mut styles = MeaningMap::new();
    styles.insert(Meaning::Base, rgb(1, 1, 1));
    let theme = Theme::new("t".to_string(), None, styles);
    assert_eq!(theme.closest_meaning(Meaning::Guidance), Meaning::Base);
    assert_eq!(theme.closest_meaning(Meaning::Muted), Meaning::Base);
    let mut styles = MeaningMap::new();
    styles.insert(Meaning::AlertInfo, rgb(1, 1, 1));
    let theme = Theme::new("t".to_string(), None, styles);
    assert_eq!(theme.closest_meaning(Meaning::Guidance), Meaning::AlertInfo);
    assert_eq!(theme.closest_meaning(Meaning::Annotation), Meaning::AlertInfo);
    assert_eq!(theme.as_style(Meaning::Annotation), rgb(1, 1, 1));
}

#[test]
fn themes_that_need_no_file() {
    let autumn = builtin("autumn").unwrap();
    assert_eq!(autumn.get_error(), rgb(139, 69, 19));
    assert_eq!(autumn.get_warning(), rgb(255, 140, 0));
    assert_eq!(autumn.get_info(), rgb(255, 215, 0));
    assert_eq!(autumn.as_style(Meaning::Guidance), rgb(165, 42, 42));
    assert_eq!(autumn.as_style(Meaning::Muted), fg(Color::Grey));
    let marine = builtin("marine").unwrap();
    assert_eq!(marine.get_error(), rgb(154, 205, 50));
    assert_eq!(marine.get_warning(), rgb(0, 255, 255));
    assert_eq!(marine.get_info(), rgb(64, 224, 208));
    assert_eq!(marine.as_style(Meaning::Annotation), rgb(70, 130, 180));
    assert_eq!(marine.get_base(), rgb(176, 196, 222));
    assert_eq!(marine.as_style(Meaning::Guidance), rgb(0, 128, 128));
    let none = builtin("(none)").unwrap();
    assert_eq!(none.get_error(), ContentStyle::default());
    assert!(builtin("winter").is_none());
}

#[test]
fn theme_over_its_parent() {
    let mut colors = MeaningMap::new();
    colors.insert(Meaning::Base, "#010203".to_string());
    colors.insert(Meaning::Title, "#040506".to_string());
    colors.insert(Meaning::Muted, "no such color".to_string());
    let marine = builtin("marine").unwrap();
    let theme = Theme::from_foreground_colors("mine".to_string(), Some(&marine), &colors);
    assert_eq!(theme.name, "mine");
    assert_eq!(theme.parent.as_deref(), Some("marine"));
    assert_eq!(theme.get_base(), rgb(1, 2, 3));
    assert_eq!(theme.get_error(), rgb(154, 205, 50));
    assert_eq!(theme.as_style(Meaning::Muted), ContentStyle::default());
    // The parent has no style for titles, so the theme gets none.
    assert!(theme.styles.get(Meaning::Title).is_none());
    let alone = Theme::from_foreground_colors("mine".to_string(), None, &colors);
    assert_eq!(alone.parent, None);
    assert_eq!(alone.get_error(), fg(Color::DarkRed));
}

#[test]
fn names_of_meanings() {
    assert_eq!(Meaning::AlertInfo.text(), "AlertInfo");
    assert_eq!(Meaning::AlertWarn.text(), "AlertWarn");
    assert_eq!(Meaning::AlertError.text(), "AlertError");
    assert_eq!(Meaning::Annotation.text(), "Annotation");
    assert_eq!(Meaning::Base.text(), "Base");
    assert_eq!(Meaning::Guidance.text(), "Guidance");
    assert_eq!(Meaning::Important.text(), "Important");
    assert_eq!(Meaning::Title.text(), "Title");
    assert_eq!(Meaning::Muted.text(), "Muted");
}

#[test]
fn manager_looks_where_it_is_told() {
    let m = ThemeManager::new(None, Some("/themes".to_string()), Some("/env".to_string()));
    assert!(!m.debug);
    assert_eq!(m.theme_file(&System::this(), "x", Some("/cfg"), "/c").as_deref(), Some("/themes/x.toml"));
    let m = ThemeManager::new(Some(true), None, Some("/env".to_string()));
    assert!(m.debug);
    assert_eq!(m.theme_file(&System::this(), "x", None, "/c").as_deref(), Some("/env/x.toml"));
    let m = ThemeManager::new(None, None, None);
    assert_eq!(m.theme_file(&System::this(), "x", Some("/cfg"), "/c").as_deref(), Some("/cfg/themes/x.toml"));
    assert_eq!(m.theme_file(&System::this(), "x", None, "/c").as_deref(), Some("/c/themes/x.toml"));
    let m = ThemeManager::new(None, Some(String::new()), None);
    assert_eq!(m.theme_file(&System::this(), "x", None, "/c"), None);
}

#[test]
fn manager_loads_a_theme_and_its_parents() {
    let mut m = ThemeManager::new(None, None, None);
    let mut files = Vec::new();
    assert_eq!(m.next_theme_file("child", 10, &files).as_deref(), Some("child"));
    files.push(file("child", "Child", Some("mother"), "#010101"));
    assert_eq!(m.next_theme_file("child", 10, &files).as_deref(), Some("mother"));
    files.push(file("mother", "Mother", Some("marine"), "#020202"));
    assert_eq!(m.next_theme_file("child", 10, &files), None);
    let theme = m.load_theme("child", None, &files);
    assert_eq!(theme.name, "Child");
    assert_eq!(theme.parent.as_deref(), Some("Mother"));
    assert_eq!(theme.get_base(), rgb(1, 1, 1));
    assert_eq!(theme.get_error(), rgb(154, 205, 50));
    // Both are loaded now, under the names that were asked for.
    let mother = m.load_theme("mother", None, &Vec::new());
    assert_eq!(mother.name, "Mother");
    assert_eq!(mother.get_base(), rgb(2, 2, 2));
    assert_eq!(m.next_theme_file("child", 0, &Vec::new()), None);
}

#[test]
fn manager_puts_a_theme_without_parent_over_the_default() {
    let mut m = ThemeManager::new(None, None, None);
    let theme = m.load_theme("mine", Some(0), &vec![file("mine", "mine", None, "@white")]);
    assert_eq!(theme.parent.as_deref(), Some("default"));
    assert_eq!(theme.get_base(), fg(Color::White));
    assert_eq!(theme.get_info(), fg(Color::DarkGreen));
}

#[test]
fn manager_falls_back_to_no_colors() {
    let mut m = ThemeManager::new(None, None, None);
    let missing = ThemeFile { name: "gone".to_string(), config: None };
    assert_eq!(m.next_theme_file("gone", 3, &vec![]).as_deref(), Some("gone"));
    let files = vec![missing];
    assert_eq!(m.next_theme_file("gone", 3, &files), None);
    assert_eq!(m.load_theme("gone", None, &files).name, "(none)");
    // A parent that cannot be read is the theme without colors.
    let files = vec![
        file("child", "child", Some("gone"), "#010101"),
        ThemeFile { name: "gone".to_string(), config: None },
    ];
    let theme = m.load_theme("child", None, &files);
    assert_eq!(theme.parent.as_deref(), Some("(none)"));
    assert_eq!(theme.get_error(), ContentStyle::default());
}

#[test]
fn manager_stops_at_the_depth() {
    let mut m = ThemeManager::new(None, None, None);
    let files = vec![file("a", "a", Some("b"), "#010101"), file("b", "b", Some("a"), "#020202")];
    // One more parent than allowed.
    assert_eq!(m.load_theme("a", Some(0), &files).name, "(none)");
    let theme = m.load_theme("a", Some(1), &files);
    assert_eq!(theme.name, "a");
    assert_eq!(theme.parent.as_deref(), Some("(none)"));
    let mut m = ThemeManager::new(None, None, None);
    let round = m.load_theme("a", None, &files);
    assert_eq!(round.parent.as_deref(), Some("b"));
    assert_eq!(round.get_base(), rgb(1, 1, 1));
    assert_eq!(round.get_error(), ContentStyle::default());
}

#[test]
fn manager_prefers_what_is_loaded() {
    let mut m = ThemeManager::new(None, None, None);
    let ThemeFile { config, .. } = file("marine", "Mine", None, "#010101");
    let theme = m.load_theme_from_config("marine", &config.unwrap(), 5, &vec![]).unwrap();
    assert_eq!(theme.name, "Mine");
    assert_eq!(m.load_theme("marine", None, &vec![]).name, "Mine");
    let ThemeFile { config, .. } = file("x", "X", Some("autumn"), "#010101");
    assert!(m.load_theme_from_config("x", &config.unwrap(), 0, &vec![]).is_none());
}
