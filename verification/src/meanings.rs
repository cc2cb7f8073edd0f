//! What parts of the view mean, and a value for each.
use vstd::prelude::*;

verus! {

/// What a part of the view means.
#[derive(Clone, Copy, Debug, PartialEq, Eq, Structural)]
pub enum Meaning {
    AlertInfo,
    AlertWarn,
    AlertError,
    Annotation,
    Base,
    Guidance,
    Important,
    Title,
    Muted,
}

impl Meaning {
    /// The name of the meaning in a theme file.
    pub open spec fn name(self) -> Seq<char> {
        match self {
            Meaning::AlertInfo => "AlertInfo"@,
            Meaning::AlertWarn => "AlertWarn"@,
            Meaning::AlertError => "AlertError"@,
            Meaning::Annotation => "Annotation"@,
            Meaning::Base => "Base"@,
            Meaning::Guidance => "Guidance"@,
            Meaning::Important => "Important"@,
            Meaning::Title => "Title"@,
            Meaning::Muted => "Muted"@,
        }
    }

    /// The name of the meaning in a theme file.
    pub fn text(&self) -> (s: &'static str)
        ensures
            s@ == self.name(),
    {
        match self {
            Meaning::AlertInfo => "AlertInfo",
            Meaning::AlertWarn => "AlertWarn",
            Meaning::AlertError => "AlertError",
            Meaning::Annotation => "Annotation",
            Meaning::Base => "Base",
            Meaning::Guidance => "Guidance",
            Meaning::Important => "Important",
            Meaning::Title => "Title",
            Meaning::Muted => "Muted",
        }
    }
}

/// A value for each meaning, or none.
pub struct MeaningMap<T> {
    pub alert_info: Option<T>,
    pub alert_warn: Option<T>,
    pub alert_error: Option<T>,
    pub annotation: Option<T>,
    pub base: Option<T>,
    pub guidance: Option<T>,
    pub important: Option<T>,
    pub title: Option<T>,
    pub muted: Option<T>,
}

impl<T> MeaningMap<T> {
    /// The value for a meaning.
    pub open spec fn slot(self, m: Meaning) -> Option<T> {
        match m {
            Meaning::AlertInfo => self.alert_info,
            Meaning::AlertWarn => self.alert_warn,
            Meaning::AlertError => self.alert_error,
            Meaning::Annotation => self.annotation,
            Meaning::Base => self.base,
            Meaning::Guidance => self.guidance,
            Meaning::Important => self.important,
            Meaning::Title => self.title,
            Meaning::Muted => self.muted,
        }
    }

    /// No value for any meaning.
    pub open spec fn none() -> MeaningMap<T> {
        MeaningMap {
            alert_info: None,
            alert_warn: None,
            alert_error: None,
            annotation: None,
            base: None,
            guidance: None,
            important: None,
            title: None,
            muted: None,
        }
    }

    /// No value for any meaning.
    pub fn new() -> (out: Self)
        ensures
            out == MeaningMap::<T>::none(),
    {
        MeaningMap {
            alert_info: None,
            alert_warn: None,
            alert_error: None,
            annotation: None,
            base: None,
            guidance: None,
            important: None,
            title: None,
            muted: None,
        }
    }

    /// The value for a meaning.
    pub fn get(&self, m: Meaning) -> (out: Option<&T>)
        ensures
            out is Some == self.slot(m) is Some,
            out matches Some(v) ==> self.slot(m) == Some(*v),
    {
        match m {
            Meaning::AlertInfo => self.alert_info.as_ref(),
            Meaning::AlertWarn => self.alert_warn.as_ref(),
            Meaning::AlertError => self.alert_error.as_ref(),
            Meaning::Annotation => self.annotation.as_ref(),
            Meaning::Base => self.base.as_ref(),
            Meaning::Guidance => self.guidance.as_ref(),
            Meaning::Important => self.important.as_ref(),
            Meaning::Title => self.title.as_ref(),
            Meaning::Muted => self.muted.as_ref(),
        }
    }

    /// The map with the value for a meaning set.
    pub open spec fn with(self, m: Meaning, value: T) -> MeaningMap<T> {
        match m {
            Meaning::AlertInfo => MeaningMap { alert_info: Some(value), ..self },
            Meaning::AlertWarn => MeaningMap { alert_warn: Some(value), ..self },
            Meaning::AlertError => MeaningMap { alert_error: Some(value), ..self },
            Meaning::Annotation => MeaningMap { annotation: Some(value), ..self },
            Meaning::Base => MeaningMap { base: Some(value), ..self },
            Meaning::Guidance => MeaningMap { guidance: Some(value), ..self },
            Meaning::Important => MeaningMap { important: Some(value), ..self },
            Meaning::Title => MeaningMap { title: Some(value), ..self },
            Meaning::Muted => MeaningMap { muted: Some(value), ..self },
        }
    }

    /// Sets the value for a meaning.
    pub fn insert(&mut self, m: Meaning, value: T)
        ensures
            *final(self) == old(self).with(m, value),
    {
        match m {
            Meaning::AlertInfo => self.alert_info = Some(value),
            Meaning::AlertWarn => self.alert_warn = Some(value),
            Meaning::AlertError => self.alert_error = Some(value),
            Meaning::Annotation => self.annotation = Some(value),
            Meaning::Base => self.base = Some(value),
            Meaning::Guidance => self.guidance = Some(value),
            Meaning::Important => self.important = Some(value),
            Meaning::Title => self.title = Some(value),
            Meaning::Muted => self.muted = Some(value),
        }
    }
}

/// Where a value for a meaning is set, that meaning has it and every other has what it had.
pub proof fn law_insert_then_get<T>(map: MeaningMap<T>, m: Meaning, value: T, other: Meaning)
    ensures
        map.with(m, value).slot(m) == Some(value),
        other != m ==> map.with(m, value).slot(other) == map.slot(other),
{
}

} // verus!
