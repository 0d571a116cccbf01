//! The settings that a run can be given, and their defaults.

use vstd::prelude::*;
use crate::matcher::Threshold;

verus! {

/// The header that a translation puts before a line of code.
pub fn default_code_comment_header() -> (r: String)
    ensures
        r@ == "# "@,
{
    "# ".to_owned()
}

/// What stands before the body of a comment that is kept.
pub fn default_markdown_comment_begin() -> (r: String)
    ensures
        r@ == "((("@,
{
    "(((".to_owned()
}

/// What stands after the body of a comment that is kept.
pub fn default_markdown_comment_end() -> (r: String)
    ensures
        r@ == ")))"@,
{
    ")))".to_owned()
}

/// Two lines are one line, edited, if they share more than half of each.
pub fn default_similar_threshold() -> (r: Threshold)
    ensures
        r.numer == 1,
        r.denom == 2,
{
    Threshold { numer: 1, denom: 2 }
}

/// All settings.
#[derive(Clone, Debug)]
pub struct Config {
    /// Paths that are not compared.
    pub excludes: Vec<String>,
    pub matcher: ConfigMatcher,
    pub linter: ConfigLinter,
}

/// The settings of the comparison.
#[derive(Clone, Debug)]
pub struct ConfigMatcher {
    pub enable_code_comment_tweak: bool,
    pub code_comment_header: String,
    pub keep_markdown_comment: bool,
    pub markdown_comment_begin: String,
    pub markdown_comment_end: String,
    pub similar_threshold: Threshold,
}

/// The settings of the typographic rules.
#[derive(Clone, Copy, Debug)]
pub struct ConfigLinter {
    pub enable_emphasis_check: bool,
    pub enable_half_paren_check: bool,
    pub enable_full_paren_check: bool,
}

impl Default for ConfigLinter {
    /// No rule is enabled.
    fn default() -> (r: Self)
        ensures
            !r.enable_emphasis_check,
            !r.enable_half_paren_check,
            !r.enable_full_paren_check,
    {
        ConfigLinter {
            enable_emphasis_check: false,
            enable_half_paren_check: false,
            enable_full_paren_check: false,
        }
    }
}

impl Default for ConfigMatcher {
    /// Nothing is taken out of the texts but the comments of the source, and
    /// the threshold is one half.
    fn default() -> (r: Self)
        ensures
            !r.enable_code_comment_tweak,
            r.code_comment_header@ == "# "@,
            !r.keep_markdown_comment,
            r.markdown_comment_begin@ == "((("@,
            r.markdown_comment_end@ == ")))"@,
            r.similar_threshold.numer == 1,
            r.similar_threshold.denom == 2,
    {
        ConfigMatcher {
            enable_code_comment_tweak: false,
            code_comment_header: default_code_comment_header(),
            keep_markdown_comment: false,
            markdown_comment_begin: default_markdown_comment_begin(),
            markdown_comment_end: default_markdown_comment_end(),
            similar_threshold: default_similar_threshold(),
        }
    }
}

impl Default for Config {
    /// Nothing is excluded, and both parts have their defaults.
    fn default() -> (r: Self)
        ensures
            r.excludes@.len() == 0,
            !r.matcher.enable_code_comment_tweak,
            r.matcher.code_comment_header@ == "# "@,
            !r.matcher.keep_markdown_comment,
            r.matcher.markdown_comment_begin@ == "((("@,
            r.matcher.markdown_comment_end@ == ")))"@,
            r.matcher.similar_threshold.numer == 1,
            r.matcher.similar_threshold.denom == 2,
            !r.linter.enable_emphasis_check,
            !r.linter.enable_half_paren_check,
            !r.linter.enable_full_paren_check,
    {
        Config {
            excludes: Vec::new(),
            matcher: ConfigMatcher::default(),
            linter: ConfigLinter::default(),
        }
    }
}

} // verus!
