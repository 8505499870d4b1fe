//! Syntax highlighting of fenced code blocks, done by syntect, and the
//! rendering of formulas, done by KaTeX.
use syntect::highlighting::{Theme, ThemeSet};
use syntect::parsing::{SyntaxReference, SyntaxSet};
use vstd::prelude::*;

verus! {

#[verifier::external_type_specification]
#[verifier::external_body]
pub struct ExSyntaxSet(SyntaxSet);

#[verifier::external_type_specification]
#[verifier::external_body]
pub struct ExSyntaxReference(SyntaxReference);

#[verifier::external_type_specification]
#[verifier::external_body]
pub struct ExTheme(Theme);

/// The names of the themes that syntect ships with.
pub open spec fn is_default_theme(name: Seq<char>) -> bool {
    ||| name == "base16-ocean.dark"@
    ||| name == "base16-eighties.dark"@
    ||| name == "base16-mocha.dark"@
    ||| name == "base16-ocean.light"@
    ||| name == "InspiredGitHub"@
    ||| name == "Solarized (dark)"@
    ||| name == "Solarized (light)"@
}

/// Relies on `syntect::parsing::SyntaxSet::load_defaults_newlines`: the
/// syntaxes that syntect ships with.
#[verifier::external_body]
fn default_syntaxes() -> SyntaxSet {
    SyntaxSet::load_defaults_newlines()
}

/// Relies on `syntect::highlighting::ThemeSet::load_defaults`, whose map holds the
/// default themes under the names it documents.
#[verifier::external_body]
fn default_theme(name: &str) -> (r: Option<Theme>)
    ensures
        r is Some <==> is_default_theme(name@),
{
    ThemeSet::load_defaults().themes.get(name).cloned()
}

/// Relies on `syntect::parsing::SyntaxSet::find_syntax_by_token`: the
/// syntax named by a code block's language, when syntect knows it.
#[verifier::external_body]
fn find_syntax<'a>(syntaxes: &'a SyntaxSet, token: &str) -> Option<&'a SyntaxReference> {
    syntaxes.find_syntax_by_token(token)
}

/// Relies on `syntect::html::highlighted_html_for_string`: the code as
/// highlighted html, or `None` when highlighting fails.
#[verifier::external_body]
fn highlighted_html(
    code: &str,
    syntaxes: &SyntaxSet,
    syntax: &SyntaxReference,
    theme: &Theme,
) -> Option<String> {
    syntect::html::highlighted_html_for_string(code, syntaxes, syntax, theme).ok()
}

/// What KaTeX makes of a formula, in display mode or inline: its html, or
/// `None` when it rejects the formula.
pub uninterp spec fn katex_of(formula: Seq<char>, display: bool) -> Option<Seq<char>>;

/// Relies on `katex::render_with_opts`, in display mode or inline: the
/// formula as html, or `None` when KaTeX rejects it; the result depends on
/// the formula and the mode alone.
#[verifier::external_body]
pub(crate) fn katex_html(formula: &str, display: bool) -> (r: Option<String>)
    ensures
        match r {
            Some(h) => katex_of(formula@, display) == Some(h@),
            None => katex_of(formula@, display) is None,
        },
{
    let opts = katex::Opts::builder().display_mode(display).build().ok()?;
    katex::render_with_opts(formula, &opts).ok()
}

/// The default theme for highlighting.
pub open spec fn default_theme_name() -> Seq<char> {
    "base16-ocean.light"@
}

/// A theme name that syntect does not ship.
#[derive(Debug)]
pub struct UnknownTheme(pub String);

/// What a pass needs besides the events: the registered component names
/// and the highlighting data, loaded once and shared.
pub struct RenderContext {
    /// the names of the registered components
    pub components: Vec<String>,
    pub syntaxes: SyntaxSet,
    /// the name of `theme` among syntect's default themes
    pub theme_name: String,
    pub theme: Theme,
}

impl RenderContext {
    /// A context with the given components and highlighting theme (by
    /// default `base16-ocean.light`); an unknown theme is an error.
    pub fn new(theme_name: Option<String>, components: Vec<String>) -> (r: Result<
        RenderContext,
        UnknownTheme,
    >)
        ensures
            ({
                let name = match theme_name {
                    Some(n) => n@,
                    None => default_theme_name(),
                };
                &&& r is Ok <==> is_default_theme(name)
                &&& r matches Ok(c) ==> c.components@ == components@ && c.theme_name@ == name
            }),
    {
        let name = match theme_name {
            Some(n) => n,
            None => "base16-ocean.light".to_owned(),
        };
        match default_theme(name.as_str()) {
            Some(theme) => Ok(
                RenderContext { components, syntaxes: default_syntaxes(), theme_name: name, theme },
            ),
            None => Err(UnknownTheme(name)),
        }
    }

    /// The code as highlighted html, when `lang` names a syntax that syntect
    /// knows and highlighting succeeds.
    pub(crate) fn highlight(&self, code: &str, lang: &str) -> Option<String> {
        match find_syntax(&self.syntaxes, lang) {
            Some(syntax) => highlighted_html(code, &self.syntaxes, syntax, &self.theme),
            None => None,
        }
    }
}

} // verus!
