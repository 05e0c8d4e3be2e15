//! The desktop preferences: theme, language and motion, with unknown values replaced.
use vstd::prelude::*;
use crate::text_util::{owned, str_eq};

verus! {

/// The user's display preferences.
#[derive(Clone, Debug, PartialEq, Eq)]
pub struct Preferences {
    pub theme: String,
    pub language: String,
    pub reduced_motion: bool,
}

/// A theme the interface knows: `light` or `dark`.
pub open spec fn known_theme(t: Seq<char>) -> bool {
    t == "light"@ || t == "dark"@
}

/// A language the interface knows: `en`, `zh` or `ja`.
pub open spec fn known_language(l: Seq<char>) -> bool {
    l == "en"@ || l == "zh"@ || l == "ja"@
}

impl Preferences {
    /// Light theme, English, full motion.
    pub fn new() -> (r: Self)
        ensures
            r.theme@ == "light"@,
            r.language@ == "en"@,
            !r.reduced_motion,
    {
        Preferences { theme: owned("light"), language: owned("en"), reduced_motion: false }
    }

    /// The preferences with an unknown theme replaced by `light` and an unknown
    /// language by `en`; the motion setting is kept.
    pub fn validated(self) -> (r: Self)
        ensures
            known_theme(self.theme@) ==> r.theme@ == self.theme@,
            !known_theme(self.theme@) ==> r.theme@ == "light"@,
            known_language(self.language@) ==> r.language@ == self.language@,
            !known_language(self.language@) ==> r.language@ == "en"@,
            r.reduced_motion == self.reduced_motion,
    {
        let theme = if str_eq(self.theme.as_str(), "light") || str_eq(self.theme.as_str(), "dark") {
            self.theme
        } else {
            owned("light")
        };
        let language = if str_eq(self.language.as_str(), "en") || str_eq(self.language.as_str(), "zh")
            || str_eq(self.language.as_str(), "ja") {
            self.language
        } else {
            owned("en")
        };
        Preferences { theme, language, reduced_motion: self.reduced_motion }
    }
}

} // verus!
