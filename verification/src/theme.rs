//! Themes: a style for each part of the view.
use vstd::prelude::*;

use crate::colors::{color_from_palette, color_value, from_string, Color, ColorError};
use crate::history::{clone_option, option_text};
use crate::meanings::{Meaning, MeaningMap};
use crate::text::same_text;

verus! {

/// How text looks.
#[derive(Clone, Copy, Debug, PartialEq, Eq, Structural)]
pub struct ContentStyle {
    pub foreground_color: Option<Color>,
    pub bold: bool,
}

/// Text as it looks without a style.
pub open spec fn plain_style() -> ContentStyle {
    ContentStyle { foreground_color: None, bold: false }
}

/// Text in a color.
pub open spec fn colored(color: Color) -> ContentStyle {
    ContentStyle { foreground_color: Some(color), bold: false }
}

impl Default for ContentStyle {
    fn default() -> (out: Self)
        ensures
            out == plain_style(),
    {
        ContentStyle { foreground_color: None, bold: false }
    }
}

/// How bad something is that is told.
#[derive(Clone, Copy, Debug, PartialEq, Eq, Structural)]
pub enum Level {
    Error,
    Warn,
    Info,
    Debug,
    Trace,
}

/// What part of the view tells of something as bad as that; there is none for what is told
/// only to those who look for faults.
pub open spec fn alert_meaning(level: Level) -> Option<Meaning> {
    match level {
        Level::Error => Some(Meaning::AlertError),
        Level::Warn => Some(Meaning::AlertWarn),
        Level::Info => Some(Meaning::AlertInfo),
        _ => None,
    }
}

/// The meaning that stands in for one that a theme has no style for.
pub open spec fn fallback(m: Meaning) -> Option<Meaning> {
    match m {
        Meaning::Guidance => Some(Meaning::AlertInfo),
        Meaning::Annotation => Some(Meaning::AlertInfo),
        Meaning::Title => Some(Meaning::Important),
        _ => None,
    }
}

/// The meaning whose style is used for `m`: `m` itself where it has one, else the one that
/// stands in for it, and so on, and at last the base.
pub open spec fn closest(styles: MeaningMap<ContentStyle>, m: Meaning) -> Meaning {
    if styles.slot(m) is Some {
        m
    } else {
        match fallback(m) {
            Some(other) => if styles.slot(other) is Some {
                other
            } else {
                Meaning::Base
            },
            None => Meaning::Base,
        }
    }
}

/// The style that a text for a color gives: text in that color, or without a style where the
/// text stands for no color.
pub open spec fn style_of(text: Seq<char>) -> ContentStyle {
    match color_value(text) {
        Ok(color) => colored(color),
        Err(_) => plain_style(),
    }
}

/// Makes styles.
pub struct StyleFactory {}

impl StyleFactory {
    /// Text in the color that a text stands for.
    pub fn from_fg_string(name: &str) -> (out: Result<ContentStyle, ColorError>)
        ensures
            out == (match color_value(name@) {
                Ok(color) => Ok::<ContentStyle, ColorError>(colored(color)),
                Err(e) => Err(e),
            }),
    {
        match from_string(name) {
            Ok(color) => Ok(Self::from_fg_color(color)),
            Err(e) => Err(e),
        }
    }

    /// Text in the color that a text stands for, or without a style where it stands for none.
    pub fn fg_string_or_plain(name: &str) -> (style: ContentStyle)
        ensures
            style == style_of(name@),
    {
        match Self::from_fg_string(name) {
            Ok(style) => style,
            Err(_) => ContentStyle::default(),
        }
    }

    /// Text in a color.
    pub fn from_fg_color(color: Color) -> (style: ContentStyle)
        ensures
            style == colored(color),
    {
        ContentStyle { foreground_color: Some(color), bold: false }
    }

    /// Text in a color, bold or not.
    pub fn from_fg_color_and_attributes(color: Color, bold: bool) -> (style: ContentStyle)
        ensures
            style == (ContentStyle { foreground_color: Some(color), bold }),
    {
        ContentStyle { foreground_color: Some(color), bold }
    }
}

/// A style for each part of the view.
pub struct Theme {
    pub name: String,
    pub parent: Option<String>,
    pub styles: MeaningMap<ContentStyle>,
}

/// What a theme is, its texts as sequences of characters.
#[verifier::ext_equal]
pub struct ThemeView {
    pub name: Seq<char>,
    pub parent: Option<Seq<char>>,
    pub styles: MeaningMap<ContentStyle>,
}

impl View for Theme {
    type V = ThemeView;

    open spec fn view(&self) -> ThemeView {
        ThemeView { name: self.name@, parent: option_text(self.parent), styles: self.styles }
    }
}

/// The styles of the default theme. It has none for titles.
pub open spec fn default_styles() -> MeaningMap<ContentStyle> {
    MeaningMap {
        alert_error: Some(colored(Color::DarkRed)),
        alert_warn: Some(colored(Color::DarkYellow)),
        alert_info: Some(colored(Color::DarkGreen)),
        annotation: Some(colored(Color::DarkGrey)),
        guidance: Some(colored(Color::DarkBlue)),
        important: Some(ContentStyle { foreground_color: Some(Color::White), bold: true }),
        muted: Some(colored(Color::Grey)),
        base: Some(plain_style()),
        title: None,
    }
}

/// The styles of a theme without colors.
pub open spec fn plain_styles() -> MeaningMap<ContentStyle> {
    MeaningMap {
        alert_error: Some(plain_style()),
        alert_warn: Some(plain_style()),
        alert_info: Some(plain_style()),
        annotation: Some(plain_style()),
        guidance: Some(plain_style()),
        important: Some(plain_style()),
        muted: Some(plain_style()),
        base: Some(plain_style()),
        title: None,
    }
}

/// A style in place of another, where there is another.
pub open spec fn style_over(
    below: Option<ContentStyle>,
    above: Option<ContentStyle>,
) -> Option<ContentStyle> {
    match (below, above) {
        (None, _) => None,
        (Some(_), Some(style)) => Some(style),
        (Some(style), None) => Some(style),
    }
}

/// Styles with others put over them. No meaning gets a style that had none.
pub open spec fn overlaid(
    below: MeaningMap<ContentStyle>,
    above: MeaningMap<ContentStyle>,
) -> MeaningMap<ContentStyle> {
    MeaningMap {
        alert_error: style_over(below.alert_error, above.alert_error),
        alert_warn: style_over(below.alert_warn, above.alert_warn),
        alert_info: style_over(below.alert_info, above.alert_info),
        annotation: style_over(below.annotation, above.annotation),
        guidance: style_over(below.guidance, above.guidance),
        important: style_over(below.important, above.important),
        muted: style_over(below.muted, above.muted),
        base: style_over(below.base, above.base),
        title: style_over(below.title, above.title),
    }
}

/// The style that a text gives, where there is one.
pub open spec fn style_of_option(text: Option<Seq<char>>) -> Option<ContentStyle> {
    match text {
        Some(text) => Some(style_of(text)),
        None => None,
    }
}

/// The styles that texts for colors give.
pub open spec fn styles_of(colors: MeaningMap<Seq<char>>) -> MeaningMap<ContentStyle> {
    MeaningMap {
        alert_error: style_of_option(colors.alert_error),
        alert_warn: style_of_option(colors.alert_warn),
        alert_info: style_of_option(colors.alert_info),
        annotation: style_of_option(colors.annotation),
        guidance: style_of_option(colors.guidance),
        important: style_of_option(colors.important),
        muted: style_of_option(colors.muted),
        base: style_of_option(colors.base),
        title: style_of_option(colors.title),
    }
}

/// Strings as texts.
pub open spec fn color_texts(colors: MeaningMap<String>) -> MeaningMap<Seq<char>> {
    MeaningMap {
        alert_error: option_text(colors.alert_error),
        alert_warn: option_text(colors.alert_warn),
        alert_info: option_text(colors.alert_info),
        annotation: option_text(colors.annotation),
        guidance: option_text(colors.guidance),
        important: option_text(colors.important),
        muted: option_text(colors.muted),
        base: option_text(colors.base),
        title: option_text(colors.title),
    }
}

/// A theme with styles put over those of its parent, or over the default ones where it has no
/// parent.
pub open spec fn theme_over(
    name: Seq<char>,
    parent: Option<ThemeView>,
    styles: MeaningMap<ContentStyle>,
) -> ThemeView {
    match parent {
        Some(p) => ThemeView {
            name,
            parent: Some(p.name),
            styles: overlaid(p.styles, styles),
        },
        None => ThemeView { name, parent: None, styles: overlaid(default_styles(), styles) },
    }
}

/// What a theme is, if there is one.
pub open spec fn theme_option(theme: Option<&Theme>) -> Option<ThemeView> {
    match theme {
        Some(t) => Some(t@),
        None => None,
    }
}

fn over(below: Option<ContentStyle>, above: Option<ContentStyle>) -> (out: Option<ContentStyle>)
    ensures
        out == style_over(below, above),
{
    match (below, above) {
        (None, _) => None,
        (Some(_), Some(style)) => Some(style),
        (Some(style), None) => Some(style),
    }
}

fn overlay(below: &MeaningMap<ContentStyle>, above: &MeaningMap<ContentStyle>) -> (out: MeaningMap<
    ContentStyle,
>)
    ensures
        out == overlaid(*below, *above),
{
    MeaningMap {
        alert_error: over(below.alert_error, above.alert_error),
        alert_warn: over(below.alert_warn, above.alert_warn),
        alert_info: over(below.alert_info, above.alert_info),
        annotation: over(below.annotation, above.annotation),
        guidance: over(below.guidance, above.guidance),
        important: over(below.important, above.important),
        muted: over(below.muted, above.muted),
        base: over(below.base, above.base),
        title: over(below.title, above.title),
    }
}

fn option_style(text: &Option<String>) -> (out: Option<ContentStyle>)
    ensures
        out == style_of_option(option_text(*text)),
{
    match text {
        Some(text) => Some(StyleFactory::fg_string_or_plain(text.as_str())),
        None => None,
    }
}

/// The styles of the default theme.
fn make_default_styles() -> (out: MeaningMap<ContentStyle>)
    ensures
        out == default_styles(),
{
    MeaningMap {
        alert_error: Some(StyleFactory::from_fg_color(Color::DarkRed)),
        alert_warn: Some(StyleFactory::from_fg_color(Color::DarkYellow)),
        alert_info: Some(StyleFactory::from_fg_color(Color::DarkGreen)),
        annotation: Some(StyleFactory::from_fg_color(Color::DarkGrey)),
        guidance: Some(StyleFactory::from_fg_color(Color::DarkBlue)),
        important: Some(StyleFactory::from_fg_color_and_attributes(Color::White, true)),
        muted: Some(StyleFactory::from_fg_color(Color::Grey)),
        base: Some(ContentStyle::default()),
        title: None,
    }
}

impl Theme {
    /// A theme.
    pub fn new(
        name: String,
        parent: Option<String>,
        styles: MeaningMap<ContentStyle>,
    ) -> (theme: Theme)
        ensures
            theme == (Theme { name, parent, styles }),
    {
        Theme { name, parent, styles }
    }

    /// A copy of the theme.
    pub fn copy(&self) -> (theme: Theme)
        ensures
            theme@ == self@,
    {
        let none: MeaningMap<ContentStyle> = MeaningMap::new();
        let styles = overlay(&self.styles, &none);
        assert(styles == self.styles);
        Theme { name: self.name.clone(), parent: clone_option(&self.parent), styles }
    }

    /// The style of the base.
    pub fn get_base(&self) -> (style: ContentStyle)
        requires
            self.styles.slot(Meaning::Base) is Some,
        ensures
            self.styles.slot(Meaning::Base) == Some(style),
    {
        match self.styles.get(Meaning::Base) {
            Some(style) => *style,
            None => ContentStyle::default(),
        }
    }

    /// The style of what tells of something as bad as that.
    pub fn get_alert(&self, severity: Level) -> (style: ContentStyle)
        requires
            alert_meaning(severity) is Some,
            self.styles.slot(alert_meaning(severity).unwrap()) is Some,
        ensures
            self.styles.slot(alert_meaning(severity).unwrap()) == Some(style),
    {
        let meaning = match severity {
            Level::Error => Meaning::AlertError,
            Level::Warn => Meaning::AlertWarn,
            _ => Meaning::AlertInfo,
        };
        match self.styles.get(meaning) {
            Some(style) => *style,
            None => ContentStyle::default(),
        }
    }

    /// The style of what tells of something good to know.
    pub fn get_info(&self) -> (style: ContentStyle)
        requires
            self.styles.slot(Meaning::AlertInfo) is Some,
        ensures
            self.styles.slot(Meaning::AlertInfo) == Some(style),
    {
        self.get_alert(Level::Info)
    }

    /// The style of what tells of something to look out for.
    pub fn get_warning(&self) -> (style: ContentStyle)
        requires
            self.styles.slot(Meaning::AlertWarn) is Some,
        ensures
            self.styles.slot(Meaning::AlertWarn) == Some(style),
    {
        self.get_alert(Level::Warn)
    }

    /// The style of what tells of something that went wrong.
    pub fn get_error(&self) -> (style: ContentStyle)
        requires
            self.styles.slot(Meaning::AlertError) is Some,
        ensures
            self.styles.slot(Meaning::AlertError) == Some(style),
    {
        self.get_alert(Level::Error)
    }

    /// The meaning whose style is used for `meaning`.
    pub fn closest_meaning(&self, meaning: Meaning) -> (out: Meaning)
        ensures
            out == closest(self.styles, meaning),
    {
        if self.styles.get(meaning).is_some() {
            return meaning;
        }
        let other = match meaning {
            Meaning::Guidance => Meaning::AlertInfo,
            Meaning::Annotation => Meaning::AlertInfo,
            Meaning::Title => Meaning::Important,
            _ => return Meaning::Base,
        };
        if self.styles.get(other).is_some() {
            other
        } else {
            Meaning::Base
        }
    }

    /// The style that is used for `meaning`.
    pub fn as_style(&self, meaning: Meaning) -> (style: ContentStyle)
        requires
            self.styles.slot(closest(self.styles, meaning)) is Some,
        ensures
            self.styles.slot(closest(self.styles, meaning)) == Some(style),
    {
        match self.styles.get(self.closest_meaning(meaning)) {
            Some(style) => *style,
            None => ContentStyle::default(),
        }
    }

    /// A theme with text in colors put over its parent. A text that stands for no color gives
    /// text without a style.
    pub fn from_foreground_colors(
        name: String,
        parent: Option<&Theme>,
        foreground_colors: &MeaningMap<String>,
    ) -> (theme: Theme)
        ensures
            theme@ == theme_over(
                name@,
                theme_option(parent),
                styles_of(color_texts(*foreground_colors)),
            ),
    {
        let c = foreground_colors;
        let styles = MeaningMap {
            alert_error: option_style(&c.alert_error),
            alert_warn: option_style(&c.alert_warn),
            alert_info: option_style(&c.alert_info),
            annotation: option_style(&c.annotation),
            guidance: option_style(&c.guidance),
            important: option_style(&c.important),
            muted: option_style(&c.muted),
            base: option_style(&c.base),
            title: option_style(&c.title),
        };
        Theme::from_map(name, parent, &styles)
    }

    /// A theme with styles put over those of its parent, or over the default ones.
    pub fn from_map(
        name: String,
        parent: Option<&Theme>,
        overrides: &MeaningMap<ContentStyle>,
    ) -> (theme: Theme)
        ensures
            theme@ == theme_over(name@, theme_option(parent), *overrides),
    {
        match parent {
            Some(p) => Theme::new(name, Some(p.name.clone()), overlay(&p.styles, overrides)),
            None => {
                let below = make_default_styles();
                Theme::new(name, None, overlay(&below, overrides))
            },
        }
    }
}

/// Text in a color of red, green and blue.
pub open spec fn rgb(r: u8, g: u8, b: u8) -> Option<ContentStyle> {
    Some(colored(Color::Rgb { r, g, b }))
}

/// What the autumn theme puts over the default one.
pub open spec fn autumn_styles() -> MeaningMap<ContentStyle> {
    MeaningMap {
        alert_error: rgb(139, 69, 19),
        alert_warn: rgb(255, 140, 0),
        alert_info: rgb(255, 215, 0),
        annotation: Some(colored(Color::DarkGrey)),
        guidance: rgb(165, 42, 42),
        ..MeaningMap::none()
    }
}

/// What the marine theme puts over the default one.
pub open spec fn marine_styles() -> MeaningMap<ContentStyle> {
    MeaningMap {
        alert_error: rgb(154, 205, 50),
        alert_warn: rgb(0, 255, 255),
        alert_info: rgb(64, 224, 208),
        annotation: rgb(70, 130, 180),
        base: rgb(176, 196, 222),
        guidance: rgb(0, 128, 128),
        ..MeaningMap::none()
    }
}

/// The theme of a name that needs no file.
pub open spec fn builtin_theme(name: Seq<char>) -> Option<ThemeView> {
    if name == "default"@ {
        Some(theme_over(name, None, MeaningMap::none()))
    } else if name == "(none)"@ {
        Some(theme_over(name, None, plain_styles()))
    } else if name == "autumn"@ {
        Some(theme_over(name, None, autumn_styles()))
    } else if name == "marine"@ {
        Some(theme_over(name, None, marine_styles()))
    } else {
        None
    }
}

/// Text in a color of the palette that the themes of this library name.
fn known_fg_string(name: &str) -> (out: Option<ContentStyle>)
    requires
        name@ == "saddlebrown"@ || name@ == "darkorange"@ || name@ == "gold"@ || name@ == "brown"@
            || name@ == "yellowgreen"@ || name@ == "cyan"@ || name@ == "turquoise"@ || name@
            == "steelblue"@ || name@ == "lightsteelblue"@ || name@ == "teal"@,
    ensures
        name@ == "saddlebrown"@ ==> out == rgb(139, 69, 19),
        name@ == "darkorange"@ ==> out == rgb(255, 140, 0),
        name@ == "gold"@ ==> out == rgb(255, 215, 0),
        name@ == "brown"@ ==> out == rgb(165, 42, 42),
        name@ == "yellowgreen"@ ==> out == rgb(154, 205, 50),
        name@ == "cyan"@ ==> out == rgb(0, 255, 255),
        name@ == "turquoise"@ ==> out == rgb(64, 224, 208),
        name@ == "steelblue"@ ==> out == rgb(70, 130, 180),
        name@ == "lightsteelblue"@ ==> out == rgb(176, 196, 222),
        name@ == "teal"@ ==> out == rgb(0, 128, 128),
{
    proof {
        reveal_strlit("saddlebrown");
        reveal_strlit("darkorange");
        reveal_strlit("gold");
        reveal_strlit("brown");
        reveal_strlit("yellowgreen");
        reveal_strlit("cyan");
        reveal_strlit("turquoise");
        reveal_strlit("steelblue");
        reveal_strlit("lightsteelblue");
        reveal_strlit("teal");
        assert("saddlebrown"@.len() == 11 && "yellowgreen"@.len() == 11);
        assert("saddlebrown"@[0] == 's' && "yellowgreen"@[0] == 'y');
        assert("gold"@.len() == 4 && "cyan"@.len() == 4 && "teal"@.len() == 4);
        assert("gold"@[0] == 'g' && "cyan"@[0] == 'c' && "teal"@[0] == 't');
        assert("turquoise"@.len() == 9 && "steelblue"@.len() == 9);
        assert("turquoise"@[0] == 't' && "steelblue"@[0] == 's');
        assert("darkorange"@.len() == 10 && "brown"@.len() == 5 && "lightsteelblue"@.len() == 14);
    }
    match color_from_palette(name) {
        Some((r, g, b)) => Some(StyleFactory::from_fg_color(Color::Rgb { r, g, b })),
        None => None,
    }
}

fn make_autumn() -> (out: MeaningMap<ContentStyle>)
    ensures
        out == autumn_styles(),
{
    MeaningMap {
        alert_error: known_fg_string("saddlebrown"),
        alert_warn: known_fg_string("darkorange"),
        alert_info: known_fg_string("gold"),
        annotation: Some(StyleFactory::from_fg_color(Color::DarkGrey)),
        guidance: known_fg_string("brown"),
        base: None,
        important: None,
        title: None,
        muted: None,
    }
}

fn make_marine() -> (out: MeaningMap<ContentStyle>)
    ensures
        out == marine_styles(),
{
    MeaningMap {
        alert_error: known_fg_string("yellowgreen"),
        alert_warn: known_fg_string("cyan"),
        alert_info: known_fg_string("turquoise"),
        annotation: known_fg_string("steelblue"),
        base: known_fg_string("lightsteelblue"),
        guidance: known_fg_string("teal"),
        important: None,
        title: None,
        muted: None,
    }
}

fn make_plain() -> (out: MeaningMap<ContentStyle>)
    ensures
        out == plain_styles(),
{
    let plain = Some(ContentStyle::default());
    MeaningMap {
        alert_error: plain,
        alert_warn: plain,
        alert_info: plain,
        annotation: plain,
        guidance: plain,
        important: plain,
        muted: plain,
        base: plain,
        title: None,
    }
}

/// The theme of a name that needs no file.
pub fn builtin(name: &str) -> (theme: Option<Theme>)
    ensures
        theme is Some == builtin_theme(name@) is Some,
        theme matches Some(t) ==> builtin_theme(name@) == Some(t@),
{
    let styles = if same_text(name, "default") {
        MeaningMap::new()
    } else if same_text(name, "(none)") {
        make_plain()
    } else if same_text(name, "autumn") {
        make_autumn()
    } else if same_text(name, "marine") {
        make_marine()
    } else {
        return None;
    };
    Some(Theme::from_map(name.to_owned(), None, &styles))
}

/// Whether a theme has a style for each meaning but that of titles, as the default theme does.
pub open spec fn is_complete(styles: MeaningMap<ContentStyle>) -> bool {
    &&& styles.slot(Meaning::AlertInfo) is Some
    &&& styles.slot(Meaning::AlertWarn) is Some
    &&& styles.slot(Meaning::AlertError) is Some
    &&& styles.slot(Meaning::Annotation) is Some
    &&& styles.slot(Meaning::Base) is Some
    &&& styles.slot(Meaning::Guidance) is Some
    &&& styles.slot(Meaning::Important) is Some
    &&& styles.slot(Meaning::Muted) is Some
}

/// Whatever is put over a complete theme, what comes out is complete; over no parent it always
/// is.
pub proof fn law_overlay_complete(
    name: Seq<char>,
    parent: Option<ThemeView>,
    styles: MeaningMap<ContentStyle>,
)
    requires
        parent matches Some(p) ==> is_complete(p.styles),
    ensures
        is_complete(theme_over(name, parent, styles).styles),
{
}

/// A theme with a style for the base has a style to use for every meaning.
pub proof fn law_style_for_all(styles: MeaningMap<ContentStyle>, m: Meaning)
    requires
        styles.slot(Meaning::Base) is Some,
    ensures
        styles.slot(closest(styles, m)) is Some,
{
}

/// A theme has styles for the meanings that its parent has them for, and no others.
pub proof fn law_same_meanings(name: Seq<char>, p: ThemeView, styles: MeaningMap<ContentStyle>, m: Meaning)
    ensures
        theme_over(name, Some(p), styles).styles.slot(m) is Some == p.styles.slot(m) is Some,
        p.styles.slot(m) is Some && styles.slot(m) is Some ==> theme_over(
            name,
            Some(p),
            styles,
        ).styles.slot(m) == styles.slot(m),
        styles.slot(m) is None ==> theme_over(name, Some(p), styles).styles.slot(m)
            == p.styles.slot(m),
{
}

} // verus!
