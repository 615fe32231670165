//! A theme repository: scanning for themes and previewing their role files.
use crate::model::{Error, Preview, Theme, ThemeName};
use vstd::prelude::*;

verus! {

/// The outcome of a scan: usable themes, candidates without usable
/// evidence, and diagnostics.
pub struct Catalog {
    pub themes: Vec<Theme>,
    pub candidates: Vec<Theme>,
    pub diagnostics: Vec<String>,
}

impl Default for Catalog {
    fn default() -> (r: Self)
        ensures
            r.themes@.len() == 0,
            r.candidates@.len() == 0,
            r.diagnostics@.len() == 0,
    {
        Catalog { themes: Vec::new(), candidates: Vec::new(), diagnostics: Vec::new() }
    }
}

/// Where themes come from. Implementations decide what each call returns;
/// callers state what holds whatever comes back.
pub trait ThemeRepository {
    /// That `r` is an answer of this repository to a preview of `role` in
    /// `theme`: a relation for specifications, which lets callers say which
    /// arguments each of their results was asked for. Nothing more is known
    /// of it, and nothing calls it at run time.
    spec fn previewed(&self, theme: &ThemeName, role: &str, r: &Result<Preview, Error>) -> bool;

    fn scan<F: Fn() -> bool>(&self, cancel: &F) -> Result<Catalog, Error>
        requires
            cancel.requires(()),
    ;

    fn preview<F: Fn() -> bool>(&self, theme: &ThemeName, role: &str, cancel: &F) -> (r: Result<
        Preview,
        Error,
    >)
        requires
            cancel.requires(()),
        ensures
            self.previewed(theme, role, &r),
    ;
}

} // verus!
