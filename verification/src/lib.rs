//! A template-string engine: templates mixing literal text, variable
//! references and zipped repetition groups are parsed into a tree of
//! nodes and rendered against an environment of named values.
//!
//! `$name` emits a binding's text; `${name:alias}` also binds `alias` for
//! later references; `@name` references a binding without emitting it;
//! `$(body)*`, `$(body),*` and `$(body)(text)*` repeat `body` once per
//! element, in lockstep over every sequence the body references, with the
//! given separator between iterations.

use vstd::prelude::*;

pub mod ast;
pub mod laws;
pub mod parse;
pub mod render;
pub mod text;
pub mod util;

use crate::ast::ParseError;
use crate::render::{render, render_spec, Env, RenderError, Val};
use crate::parse::{parse, parse_spec};
use crate::util::{unescape, unescape_spec, unindent, unindent_spec};

verus! {

/// An error from formatting a template: the template does not parse, or it
/// does not render against the given environment.
#[derive(Clone, Copy, PartialEq, Eq, Structural, Debug)]
pub enum TemplateError {
    /// The template is malformed.
    Parse(ParseError),
    /// The template does not render against the environment.
    Render(RenderError),
}

/// What formatting a template returns: the template is escape-decoded,
/// parsed, and rendered against the environment.
pub open spec fn ext_format_spec(template: Seq<char>, env: Map<Seq<char>, Val>) -> Result<
    Seq<char>,
    TemplateError,
> {
    match parse_spec(unescape_spec(template)) {
        Err(e) => Err(TemplateError::Parse(e)),
        Ok(nodes) => match render_spec(nodes, env) {
            Err(e) => Err(TemplateError::Render(e)),
            Ok(out) => Ok(out),
        },
    }
}

/// What formatting an unindented template returns: the template is first
/// stripped of its common indentation, then escape-decoded, parsed and
/// rendered.
pub open spec fn ext_format_unindented_spec(template: Seq<char>, env: Map<Seq<char>, Val>) -> Result<
    Seq<char>,
    TemplateError,
> {
    ext_format_spec(unindent_spec(template), env)
}

/// The view of a formatting result.
pub open spec fn fmt_res_view(r: Result<String, TemplateError>) -> Result<Seq<char>, TemplateError> {
    match r {
        Ok(s) => Ok(s@),
        Err(e) => Err(e),
    }
}

/// Formats a template against an environment: decodes its escapes, parses
/// it, and renders it.
pub fn ext_format(template: &str, env: &Env) -> (res: Result<String, TemplateError>)
    ensures
        fmt_res_view(res) == ext_format_spec(template@, env@),
{
    let decoded = unescape(template);
    match parse(decoded.as_str()) {
        Err(e) => Err(TemplateError::Parse(e)),
        Ok(tokens) => match render(&tokens, env) {
            Err(e) => Err(TemplateError::Render(e)),
            Ok(out) => Ok(out),
        },
    }
}

/// Formats a multiline template against an environment: strips the common
/// indentation first, then decodes, parses and renders.
pub fn ext_format_unindented(template: &str, env: &Env) -> (res: Result<String, TemplateError>)
    ensures
        fmt_res_view(res) == ext_format_unindented_spec(template@, env@),
{
    let unindented = unindent(template);
    ext_format(unindented.as_str(), env)
}

} // verus!
