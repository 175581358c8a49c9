//! The recursive-descent template parser.
//!
//! The grammar: outside a group, `\` escapes the next character, `@` starts
//! a hidden variable, `$` starts a variable or a group, and everything else
//! accumulates into literal runs. A group is `(` body `)` followed by a
//! separator: `*` alone for none, one character and `*`, or `(` text `)`
//! and `*`. A variable reference is a bare identifier, `{ident}` or
//! `{ident:alias}`. Inside a group body, unescaped parentheses are tracked
//! by depth; an unescaped `)` at depth zero closes the group.
//!
//! Each executable function returns exactly what its specification-level
//! counterpart describes, error for error.

use vstd::prelude::*;

use crate::ast::{opt_view, token_view, tokens_view, Node, ParseError, QuoteToken};
use crate::ast::lemma_tokens_view_push;
use crate::text::{alphabetic_char, alphanumeric_char, char_is_alphabetic, char_is_alphanumeric,
    push_char};

verus! {

/// Groups nested more deeply than this are refused rather than risking the
/// call stack.
pub const MAX_NESTING_DEPTH: usize = 64;

/// Whether a character may start an identifier.
pub open spec fn ident_start_char(c: char) -> bool {
    alphabetic_char(c) || c == '_'
}

/// Whether a character may continue an identifier.
pub open spec fn ident_char(c: char) -> bool {
    alphanumeric_char(c) || c == '_'
}

/// Appends the pending literal run, if any, to the node list.
pub open spec fn flush_literal(acc: Seq<Node>, lit: Seq<char>) -> Seq<Node> {
    if lit.len() == 0 {
        acc
    } else {
        acc.push(Node::Literal(lit))
    }
}

/// The position a scan continues from after a sub-parse that returned
/// `next`. A successful sub-parse always moves past at least one character
/// and never past the end (`lemma_parse_binding_pos` and its kin), so this
/// is `next` wherever it matters; the guard keeps the scan's measure
/// visibly decreasing.
pub open spec fn resume_at(next: int, pos: int, end: int) -> int {
    if pos < next <= end {
        next
    } else {
        pos + 1
    }
}

/// Extends the identifier `acc` with the identifier characters standing at
/// `pos` and after; returns the identifier and the position past it.
pub open spec fn scan_ident(src: Seq<char>, pos: int, acc: Seq<char>) -> (Seq<char>, int)
    decreases src.len() - pos,
{
    if pos < 0 || pos >= src.len() || !ident_char(src[pos]) {
        (acc, pos)
    } else {
        scan_ident(src, pos + 1, acc.push(src[pos]))
    }
}

/// Parses an identifier at `pos`: a letter or `_`, then letters, digits and
/// `_`.
pub open spec fn parse_ident_spec(src: Seq<char>, pos: int) -> Result<(Seq<char>, int), ParseError> {
    if pos >= src.len() {
        Err(ParseError::UnexpectedEnd)
    } else if !ident_start_char(src[pos]) {
        Err(ParseError::ExpectedIdentifier)
    } else {
        Ok(scan_ident(src, pos + 1, seq![src[pos]]))
    }
}

/// Parses a brace binding at `pos`: `{ident}` or `{ident:alias}`.
pub open spec fn parse_bound_ident_spec(src: Seq<char>, pos: int) -> Result<
    ((Seq<char>, Option<Seq<char>>), int),
    ParseError,
> {
    if pos >= src.len() || src[pos] != '{' {
        Err(ParseError::ExpectedBrace)
    } else {
        match parse_ident_spec(src, pos + 1) {
            Err(e) => Err(e),
            Ok((name, p)) => if p >= src.len() {
                Err(ParseError::UnexpectedEnd)
            } else if src[p] == ':' {
                match parse_ident_spec(src, p + 1) {
                    Err(e) => Err(e),
                    Ok((alias, q)) => if q >= src.len() || src[q] != '}' {
                        Err(ParseError::ExpectedCloseBrace)
                    } else {
                        Ok(((name, Some(alias)), q + 1))
                    },
                }
            } else if src[p] == '}' {
                Ok(((name, None), p + 1))
            } else {
                Err(ParseError::MalformedBinding)
            },
        }
    }
}

/// Parses a variable reference at `pos`: a brace binding where `{` stands,
/// a bare identifier otherwise.
pub open spec fn parse_variable_idents_spec(src: Seq<char>, pos: int) -> Result<
    ((Seq<char>, Option<Seq<char>>), int),
    ParseError,
> {
    if pos >= src.len() {
        Err(ParseError::UnexpectedEnd)
    } else if src[pos] == '{' {
        parse_bound_ident_spec(src, pos)
    } else {
        match parse_ident_spec(src, pos) {
            Err(e) => Err(e),
            Ok((name, p)) => Ok(((name, None), p)),
        }
    }
}

/// Parses a variable reference at `pos` into a `Variable` node.
pub open spec fn parse_variable_spec(src: Seq<char>, pos: int) -> Result<(Node, int), ParseError> {
    match parse_variable_idents_spec(src, pos) {
        Err(e) => Err(e),
        Ok(((name, alias), p)) => Ok((Node::Variable(name, alias), p)),
    }
}

/// Parses a variable reference at `pos` into a `HiddenVariable` node.
pub open spec fn parse_hidden_variable_spec(src: Seq<char>, pos: int) -> Result<
    (Node, int),
    ParseError,
> {
    match parse_variable_idents_spec(src, pos) {
        Err(e) => Err(e),
        Ok(((name, alias), p)) => Ok((Node::HiddenVariable(name, alias), p)),
    }
}

/// Scans a parenthesised separator text from `pos` to the `)` that closes
/// it, then requires `*`.
pub open spec fn scan_separator(src: Seq<char>, pos: int, acc: Seq<char>) -> Result<
    (Option<Seq<char>>, int),
    ParseError,
>
    decreases src.len() - pos,
{
    if pos < 0 || pos >= src.len() {
        Err(ParseError::UnexpectedEnd)
    } else if src[pos] == ')' {
        if pos + 1 >= src.len() {
            Err(ParseError::UnexpectedEnd)
        } else if src[pos + 1] != '*' {
            Err(ParseError::ExpectedStar)
        } else {
            Ok((Some(acc), pos + 2))
        }
    } else {
        scan_separator(src, pos + 1, acc.push(src[pos]))
    }
}

/// Parses the separator that follows a group's closing `)`: `*` for none,
/// `(` text `)` and `*` for a string, one character and `*` otherwise.
pub open spec fn parse_group_separator_spec(src: Seq<char>, pos: int) -> Result<
    (Option<Seq<char>>, int),
    ParseError,
> {
    if pos >= src.len() {
        Err(ParseError::MissingSeparator)
    } else if src[pos] == '*' {
        Ok((None, pos + 1))
    } else if src[pos] == '(' {
        scan_separator(src, pos + 1, Seq::empty())
    } else {
        if pos + 1 >= src.len() {
            Err(ParseError::UnexpectedEnd)
        } else if src[pos + 1] != '*' {
            Err(ParseError::ExpectedStar)
        } else {
            Ok((Some(seq![src[pos]]), pos + 2))
        }
    }
}

/// Parses a binding at `pos`: a group where `(` stands, a variable
/// reference otherwise. `depth` counts enclosing groups.
pub open spec fn parse_binding_spec(src: Seq<char>, pos: int, depth: int) -> Result<
    (Node, int),
    ParseError,
>
    decreases src.len() - pos, 1int,
{
    if pos >= src.len() {
        Err(ParseError::UnexpectedEnd)
    } else if src[pos] == '(' {
        parse_group_spec(src, pos, depth)
    } else {
        parse_variable_spec(src, pos)
    }
}

/// Parses a group at `pos`: `(`, a body of nodes, `)` and a separator.
pub open spec fn parse_group_spec(src: Seq<char>, pos: int, depth: int) -> Result<
    (Node, int),
    ParseError,
>
    decreases src.len() - pos, 0int,
{
    if depth > MAX_NESTING_DEPTH as int {
        Err(ParseError::TooDeeplyNested)
    } else if pos >= src.len() || src[pos] != '(' {
        Err(ParseError::ExpectedGroup)
    } else {
        scan_group(src, pos + 1, depth, 0, Seq::empty(), Seq::empty())
    }
}

/// Scans a group body from `pos`. `parens` counts unescaped parentheses
/// that are literal text; `acc` holds the nodes read so far and `lit` the
/// pending literal run.
pub open spec fn scan_group(
    src: Seq<char>,
    pos: int,
    depth: int,
    parens: int,
    acc: Seq<Node>,
    lit: Seq<char>,
) -> Result<(Node, int), ParseError>
    decreases src.len() - pos, 2int,
{
    if pos < 0 || pos >= src.len() {
        Err(ParseError::UnterminatedGroup)
    } else {
        let c = src[pos];
        if c == '@' {
            match parse_hidden_variable_spec(src, pos + 1) {
                Err(e) => Err(e),
                Ok((node, p)) => scan_group(
                    src,
                    resume_at(p, pos, src.len() as int),
                    depth,
                    parens,
                    flush_literal(acc, lit).push(node),
                    Seq::empty(),
                ),
            }
        } else if c == '$' {
            match parse_binding_spec(src, pos + 1, depth + 1) {
                Err(e) => Err(e),
                Ok((node, p)) => scan_group(
                    src,
                    resume_at(p, pos, src.len() as int),
                    depth,
                    parens,
                    flush_literal(acc, lit).push(node),
                    Seq::empty(),
                ),
            }
        } else if c == '\\' {
            if pos + 1 >= src.len() {
                Err(ParseError::UnexpectedEnd)
            } else {
                scan_group(src, pos + 2, depth, parens, acc, lit.push(src[pos + 1]))
            }
        } else if c == '(' {
            scan_group(src, pos + 1, depth, parens + 1, acc, lit.push('('))
        } else if c == ')' {
            if parens == 0 {
                match parse_group_separator_spec(src, pos + 1) {
                    Err(e) => Err(e),
                    Ok((sep, p)) => Ok((Node::Group(flush_literal(acc, lit), sep), p)),
                }
            } else {
                scan_group(src, pos + 1, depth, parens - 1, acc, lit.push(')'))
            }
        } else {
            scan_group(src, pos + 1, depth, parens, acc, lit.push(c))
        }
    }
}

/// Scans a whole template from `pos`: literal runs, escapes, `@` hidden
/// variables and `$` bindings, to the end of the source.
pub open spec fn parse_toplevel_spec(src: Seq<char>, pos: int, acc: Seq<Node>, lit: Seq<char>) -> Result<
    Seq<Node>,
    ParseError,
>
    decreases src.len() - pos,
{
    if pos >= src.len() {
        Ok(flush_literal(acc, lit))
    } else {
        let c = src[pos];
        if c == '@' {
            match parse_hidden_variable_spec(src, pos + 1) {
                Err(e) => Err(e),
                Ok((node, p)) => parse_toplevel_spec(
                    src,
                    resume_at(p, pos, src.len() as int),
                    flush_literal(acc, lit).push(node),
                    Seq::empty(),
                ),
            }
        } else if c == '$' {
            match parse_binding_spec(src, pos + 1, 1) {
                Err(e) => Err(e),
                Ok((node, p)) => parse_toplevel_spec(
                    src,
                    resume_at(p, pos, src.len() as int),
                    flush_literal(acc, lit).push(node),
                    Seq::empty(),
                ),
            }
        } else if c == '\\' {
            if pos + 1 >= src.len() {
                Err(ParseError::UnexpectedEnd)
            } else {
                parse_toplevel_spec(src, pos + 2, acc, lit.push(src[pos + 1]))
            }
        } else {
            parse_toplevel_spec(src, pos + 1, acc, lit.push(c))
        }
    }
}

/// Parses a whole template.
pub open spec fn parse_spec(src: Seq<char>) -> Result<Seq<Node>, ParseError> {
    parse_toplevel_spec(src, 0, Seq::empty(), Seq::empty())
}

/// `scan_ident` never moves backwards and never runs past the end.
pub proof fn lemma_scan_ident_pos(src: Seq<char>, pos: int, acc: Seq<char>)
    requires
        0 <= pos,
    ensures
        pos <= scan_ident(src, pos, acc).1,
        pos <= src.len() ==> scan_ident(src, pos, acc).1 <= src.len(),
    decreases src.len() - pos,
{
    if pos < src.len() && ident_char(src[pos]) {
        lemma_scan_ident_pos(src, pos + 1, acc.push(src[pos]));
    }
}

/// A parsed identifier stands strictly after `pos` and within the source.
pub proof fn lemma_parse_ident_pos(src: Seq<char>, pos: int)
    requires
        0 <= pos,
    ensures
        parse_ident_spec(src, pos) matches Ok(r) ==> pos < r.1 <= src.len(),
{
    if pos < src.len() && ident_start_char(src[pos]) {
        lemma_scan_ident_pos(src, pos + 1, seq![src[pos]]);
    }
}

/// A parsed variable reference ends strictly after `pos` and within the
/// source.
pub proof fn lemma_parse_variable_idents_pos(src: Seq<char>, pos: int)
    requires
        0 <= pos,
    ensures
        parse_variable_idents_spec(src, pos) matches Ok(r) ==> pos < r.1 <= src.len(),
{
    lemma_parse_ident_pos(src, pos);
    if pos < src.len() && src[pos] == '{' {
        lemma_parse_ident_pos(src, pos + 1);
        match parse_ident_spec(src, pos + 1) {
            Ok((name, p)) => {
                if p < src.len() && src[p] == ':' {
                    lemma_parse_ident_pos(src, p + 1);
                }
            },
            Err(_) => {},
        }
    }
}

/// A scanned separator ends strictly after `pos` and within the source.
pub proof fn lemma_scan_separator_pos(src: Seq<char>, pos: int, acc: Seq<char>)
    requires
        0 <= pos,
    ensures
        scan_separator(src, pos, acc) matches Ok(r) ==> pos < r.1 <= src.len(),
    decreases src.len() - pos,
{
    if 0 <= pos && pos < src.len() && src[pos] != ')' {
        lemma_scan_separator_pos(src, pos + 1, acc.push(src[pos]));
    }
}

/// A parsed separator ends strictly after `pos` and within the source.
pub proof fn lemma_parse_group_separator_pos(src: Seq<char>, pos: int)
    requires
        0 <= pos,
    ensures
        parse_group_separator_spec(src, pos) matches Ok(r) ==> pos < r.1 <= src.len(),
{
    if pos < src.len() && src[pos] != '*' && src[pos] == '(' {
        lemma_scan_separator_pos(src, pos + 1, Seq::empty());
    }
}

/// A parsed binding ends strictly after `pos` and within the source.
pub proof fn lemma_parse_binding_pos(src: Seq<char>, pos: int, depth: int)
    requires
        0 <= pos,
    ensures
        parse_binding_spec(src, pos, depth) matches Ok(r) ==> pos < r.1 <= src.len(),
    decreases src.len() - pos, 1int,
{
    if pos < src.len() {
        if src[pos] == '(' {
            lemma_parse_group_pos(src, pos, depth);
        } else {
            lemma_parse_variable_idents_pos(src, pos);
        }
    }
}

/// A parsed group ends strictly after `pos` and within the source.
pub proof fn lemma_parse_group_pos(src: Seq<char>, pos: int, depth: int)
    requires
        0 <= pos,
    ensures
        parse_group_spec(src, pos, depth) matches Ok(r) ==> pos < r.1 <= src.len(),
    decreases src.len() - pos, 0int,
{
    if depth <= MAX_NESTING_DEPTH as int && pos < src.len() && src[pos] == '(' {
        lemma_scan_group_pos(src, pos + 1, depth, 0, Seq::empty(), Seq::empty());
    }
}

/// A scanned group body ends strictly after `pos` and within the source.
pub proof fn lemma_scan_group_pos(
    src: Seq<char>,
    pos: int,
    depth: int,
    parens: int,
    acc: Seq<Node>,
    lit: Seq<char>,
)
    requires
        0 <= pos,
    ensures
        scan_group(src, pos, depth, parens, acc, lit) matches Ok(r) ==> pos < r.1 <= src.len(),
    decreases src.len() - pos, 2int,
{
    if 0 <= pos && pos < src.len() {
        let c = src[pos];
        if c == '@' {
            lemma_parse_variable_idents_pos(src, pos + 1);
            match parse_hidden_variable_spec(src, pos + 1) {
                Ok((node, p)) => {
                    lemma_scan_group_pos(
                        src,
                        resume_at(p, pos, src.len() as int),
                        depth,
                        parens,
                        flush_literal(acc, lit).push(node),
                        Seq::empty(),
                    );
                },
                Err(_) => {},
            }
        } else if c == '$' {
            lemma_parse_binding_pos(src, pos + 1, depth + 1);
            match parse_binding_spec(src, pos + 1, depth + 1) {
                Ok((node, p)) => {
                    lemma_scan_group_pos(
                        src,
                        resume_at(p, pos, src.len() as int),
                        depth,
                        parens,
                        flush_literal(acc, lit).push(node),
                        Seq::empty(),
                    );
                },
                Err(_) => {},
            }
        } else if c == '\\' {
            if pos + 1 < src.len() {
                lemma_scan_group_pos(src, pos + 2, depth, parens, acc, lit.push(src[pos + 1]));
            }
        } else if c == '(' {
            lemma_scan_group_pos(src, pos + 1, depth, parens + 1, acc, lit.push('('));
        } else if c == ')' {
            if parens == 0 {
                lemma_parse_group_separator_pos(src, pos + 1);
            } else {
                lemma_scan_group_pos(src, pos + 1, depth, parens - 1, acc, lit.push(')'));
            }
        } else {
            lemma_scan_group_pos(src, pos + 1, depth, parens, acc, lit.push(c));
        }
    }
}

} // verus!

// The executable parser. Each function returns exactly what its
// specification counterpart describes; the `*_res_view` functions state
// that correspondence.

use vstd::string::StrSliceExecFns;

verus! {

/// The view of an identifier parse result.
pub open spec fn ident_res_view(r: Result<(String, usize), ParseError>) -> Result<
    (Seq<char>, int),
    ParseError,
> {
    match r {
        Ok((s, p)) => Ok((s@, p as int)),
        Err(e) => Err(e),
    }
}

/// The view of a variable-reference parse result.
pub open spec fn idents_res_view(r: Result<((String, Option<String>), usize), ParseError>) -> Result<
    ((Seq<char>, Option<Seq<char>>), int),
    ParseError,
> {
    match r {
        Ok(((name, alias), p)) => Ok(((name@, opt_view(alias)), p as int)),
        Err(e) => Err(e),
    }
}

/// The view of a separator parse result.
pub open spec fn sep_res_view(r: Result<(Option<String>, usize), ParseError>) -> Result<
    (Option<Seq<char>>, int),
    ParseError,
> {
    match r {
        Ok((sep, p)) => Ok((opt_view(sep), p as int)),
        Err(e) => Err(e),
    }
}

/// The view of a single-node parse result.
pub open spec fn token_res_view(r: Result<(QuoteToken, usize), ParseError>) -> Result<
    (Node, int),
    ParseError,
> {
    match r {
        Ok((t, p)) => Ok((token_view(t), p as int)),
        Err(e) => Err(e),
    }
}

/// The view of a whole-template parse result.
pub open spec fn tokens_res_view(r: Result<Vec<QuoteToken>, ParseError>) -> Result<
    Seq<Node>,
    ParseError,
> {
    match r {
        Ok(ts) => Ok(tokens_view(ts@)),
        Err(e) => Err(e),
    }
}

/// Whether the identifier being scanned continues at `i`.
fn ident_continues(source: &str, i: usize, len: usize) -> (r: bool)
    requires
        len == source@.len(),
    ensures
        r == (i < source@.len() && ident_char(source@[i as int])),
{
    if i >= len {
        false
    } else {
        let c = source.get_char(i);
        char_is_alphanumeric(c) || c == '_'
    }
}

/// Parses an identifier at `pos`: a letter or `_`, then letters, digits
/// and `_`.
pub fn parse_ident(source: &str, pos: usize) -> (res: Result<(String, usize), ParseError>)
    ensures
        ident_res_view(res) == parse_ident_spec(source@, pos as int),
{
    let len = source.unicode_len();
    if pos >= len {
        return Err(ParseError::UnexpectedEnd);
    }
    let c0 = source.get_char(pos);
    if !(char_is_alphabetic(c0) || c0 == '_') {
        return Err(ParseError::ExpectedIdentifier);
    }
    let mut ident = String::new();
    push_char(&mut ident, c0);
    proof {
        assert(ident@ =~= seq![source@[pos as int]]);
    }
    let mut i: usize = pos + 1;
    while ident_continues(source, i, len)
        invariant
            len == source@.len(),
            pos < i <= len,
            scan_ident(source@, pos as int + 1, seq![source@[pos as int]]) == scan_ident(
                source@,
                i as int,
                ident@,
            ),
        decreases len - i,
    {
        let c = source.get_char(i);
        push_char(&mut ident, c);
        i = i + 1;
    }
    Ok((ident, i))
}

/// Parses a brace binding at `pos`: `{ident}` or `{ident:alias}`.
pub fn parse_bound_ident(source: &str, pos: usize) -> (res: Result<
    ((String, Option<String>), usize),
    ParseError,
>)
    ensures
        idents_res_view(res) == parse_bound_ident_spec(source@, pos as int),
{
    let len = source.unicode_len();
    if pos >= len || source.get_char(pos) != '{' {
        return Err(ParseError::ExpectedBrace);
    }
    match parse_ident(source, pos + 1) {
        Err(e) => Err(e),
        Ok((name, p)) => {
            proof {
                lemma_parse_ident_pos(source@, pos as int + 1);
            }
            if p >= len {
                return Err(ParseError::UnexpectedEnd);
            }
            let c = source.get_char(p);
            if c == ':' {
                match parse_ident(source, p + 1) {
                    Err(e) => Err(e),
                    Ok((alias, q)) => {
                        proof {
                            lemma_parse_ident_pos(source@, p as int + 1);
                        }
                        if q >= len || source.get_char(q) != '}' {
                            Err(ParseError::ExpectedCloseBrace)
                        } else {
                            Ok(((name, Some(alias)), q + 1))
                        }
                    },
                }
            } else if c == '}' {
                Ok(((name, None), p + 1))
            } else {
                Err(ParseError::MalformedBinding)
            }
        },
    }
}

/// Parses a variable reference at `pos`: a brace binding where `{` stands,
/// a bare identifier otherwise.
pub fn parse_variable_idents(source: &str, pos: usize) -> (res: Result<
    ((String, Option<String>), usize),
    ParseError,
>)
    ensures
        idents_res_view(res) == parse_variable_idents_spec(source@, pos as int),
{
    let len = source.unicode_len();
    if pos >= len {
        return Err(ParseError::UnexpectedEnd);
    }
    if source.get_char(pos) == '{' {
        parse_bound_ident(source, pos)
    } else {
        match parse_ident(source, pos) {
            Err(e) => Err(e),
            Ok((name, p)) => Ok(((name, None), p)),
        }
    }
}

/// Parses a variable reference at `pos` into a `Variable` node.
pub fn parse_variable(source: &str, pos: usize) -> (res: Result<(QuoteToken, usize), ParseError>)
    ensures
        token_res_view(res) == parse_variable_spec(source@, pos as int),
{
    match parse_variable_idents(source, pos) {
        Err(e) => Err(e),
        Ok(((name, alias), p)) => Ok((QuoteToken::Variable(name, alias), p)),
    }
}

/// Parses a variable reference at `pos` into a `HiddenVariable` node.
pub fn parse_hidden_variable(source: &str, pos: usize) -> (res: Result<
    (QuoteToken, usize),
    ParseError,
>)
    ensures
        token_res_view(res) == parse_hidden_variable_spec(source@, pos as int),
{
    match parse_variable_idents(source, pos) {
        Err(e) => Err(e),
        Ok(((name, alias), p)) => Ok((QuoteToken::HiddenVariable(name, alias), p)),
    }
}

/// Whether the separator text being scanned continues at `i`.
fn separator_continues(source: &str, i: usize, len: usize) -> (r: bool)
    requires
        len == source@.len(),
    ensures
        r == (i < source@.len() && source@[i as int] != ')'),
{
    if i >= len {
        false
    } else {
        source.get_char(i) != ')'
    }
}

/// Parses the separator that follows a group's closing `)`.
pub fn parse_group_separator(source: &str, pos: usize) -> (res: Result<
    (Option<String>, usize),
    ParseError,
>)
    ensures
        sep_res_view(res) == parse_group_separator_spec(source@, pos as int),
{
    let len = source.unicode_len();
    if pos >= len {
        return Err(ParseError::MissingSeparator);
    }
    let c = source.get_char(pos);
    if c == '*' {
        return Ok((None, pos + 1));
    }
    if c == '(' {
        let mut sep = String::new();
        let mut i: usize = pos + 1;
        while separator_continues(source, i, len)
            invariant
                len == source@.len(),
                pos < i <= len,
                scan_separator(source@, pos as int + 1, Seq::empty()) == scan_separator(
                    source@,
                    i as int,
                    sep@,
                ),
            decreases len - i,
        {
            let ch = source.get_char(i);
            push_char(&mut sep, ch);
            i = i + 1;
        }
        if i >= len {
            return Err(ParseError::UnexpectedEnd);
        }
        if i + 1 >= len {
            return Err(ParseError::UnexpectedEnd);
        }
        if source.get_char(i + 1) != '*' {
            return Err(ParseError::ExpectedStar);
        }
        return Ok((Some(sep), i + 2));
    }
    if pos + 1 >= len {
        return Err(ParseError::UnexpectedEnd);
    }
    if source.get_char(pos + 1) != '*' {
        return Err(ParseError::ExpectedStar);
    }
    let mut sep = String::new();
    push_char(&mut sep, c);
    proof {
        assert(sep@ =~= seq![source@[pos as int]]);
    }
    Ok((Some(sep), pos + 2))
}

/// Appends the pending literal run, if any, to the parsed nodes, and hands
/// back an empty run.
fn flush_run(tokens: &mut Vec<QuoteToken>, lit: String) -> (res: String)
    ensures
        tokens_view(final(tokens)@) == flush_literal(tokens_view(old(tokens)@), lit@),
        res@ == Seq::<char>::empty(),
{
    if lit.as_str().is_empty() {
        lit
    } else {
        proof {
            lemma_tokens_view_push(tokens@, QuoteToken::Literal(lit));
        }
        tokens.push(QuoteToken::Literal(lit));
        String::new()
    }
}

/// Parses a binding at `pos`: a group where `(` stands, a variable
/// reference otherwise. `depth` counts enclosing groups.
pub fn parse_binding(source: &str, pos: usize, depth: usize) -> (res: Result<
    (QuoteToken, usize),
    ParseError,
>)
    ensures
        token_res_view(res) == parse_binding_spec(source@, pos as int, depth as int),
    decreases source@.len() - pos, 1int,
{
    let len = source.unicode_len();
    if pos >= len {
        return Err(ParseError::UnexpectedEnd);
    }
    if source.get_char(pos) == '(' {
        parse_group(source, pos, depth)
    } else {
        parse_variable(source, pos)
    }
}

/// Parses a group at `pos`: `(`, a body of nodes, `)` and a separator.
pub fn parse_group(source: &str, pos: usize, depth: usize) -> (res: Result<
    (QuoteToken, usize),
    ParseError,
>)
    ensures
        token_res_view(res) == parse_group_spec(source@, pos as int, depth as int),
    decreases source@.len() - pos, 0int,
{
    if depth > MAX_NESTING_DEPTH {
        return Err(ParseError::TooDeeplyNested);
    }
    let len = source.unicode_len();
    if pos >= len || source.get_char(pos) != '(' {
        return Err(ParseError::ExpectedGroup);
    }
    let mut tokens: Vec<QuoteToken> = Vec::new();
    let mut lit = String::new();
    let mut parens: usize = 0;
    let mut i: usize = pos + 1;
    proof {
        assert(parse_group_spec(source@, pos as int, depth as int) == scan_group(
            source@,
            pos as int + 1,
            depth as int,
            0,
            Seq::empty(),
            Seq::empty(),
        ));
    }
    loop
        invariant
            len == source@.len(),
            pos < len,
            source@[pos as int] == '(',
            depth <= MAX_NESTING_DEPTH,
            pos < i <= len,
            parens <= i,
            scan_group(source@, pos as int + 1, depth as int, 0, Seq::empty(), Seq::empty())
                == scan_group(
                source@,
                i as int,
                depth as int,
                parens as int,
                tokens_view(tokens@),
                lit@,
            ),
        decreases len - i,
    {
        let ghost prev = scan_group(
            source@,
            i as int,
            depth as int,
            parens as int,
            tokens_view(tokens@),
            lit@,
        );
        let ghost tv0 = tokens_view(tokens@);
        let ghost lit0 = lit@;
        if i >= len {
            proof {
                assert(prev == Err::<(Node, int), ParseError>(ParseError::UnterminatedGroup));
            }
            return Err(ParseError::UnterminatedGroup);
        }
        let c = source.get_char(i);
        if c == '@' {
            match parse_hidden_variable(source, i + 1) {
                Err(e) => {
                    proof {
                        assert(prev == Err::<(Node, int), ParseError>(e));
                    }
                    return Err(e);
                },
                Ok((tok, p)) => {
                    proof {
                        lemma_parse_variable_idents_pos(source@, i as int + 1);
                        assert(resume_at(p as int, i as int, source@.len() as int) == p as int);
                    }
                    lit = flush_run(&mut tokens, lit);
                    proof {
                        lemma_tokens_view_push(tokens@, tok);
                    }
                    tokens.push(tok);
                    i = p;
                },
            }
        } else if c == '$' {
            match parse_binding(source, i + 1, depth + 1) {
                Err(e) => {
                    proof {
                        assert(prev == Err::<(Node, int), ParseError>(e));
                    }
                    return Err(e);
                },
                Ok((tok, p)) => {
                    proof {
                        lemma_parse_binding_pos(source@, i as int + 1, depth as int + 1);
                        assert(resume_at(p as int, i as int, source@.len() as int) == p as int);
                    }
                    lit = flush_run(&mut tokens, lit);
                    proof {
                        lemma_tokens_view_push(tokens@, tok);
                    }
                    tokens.push(tok);
                    i = p;
                },
            }
        } else if c == '\\' {
            if i + 1 >= len {
                proof {
                    assert(prev == Err::<(Node, int), ParseError>(ParseError::UnexpectedEnd));
                }
                return Err(ParseError::UnexpectedEnd);
            }
            let c2 = source.get_char(i + 1);
            push_char(&mut lit, c2);
            i = i + 2;
        } else if c == '(' {
            push_char(&mut lit, '(');
            parens = parens + 1;
            i = i + 1;
        } else if c == ')' {
            if parens == 0 {
                lit = flush_run(&mut tokens, lit);
                match parse_group_separator(source, i + 1) {
                    Err(e) => {
                        proof {
                            assert(prev == Err::<(Node, int), ParseError>(e));
                        }
                        return Err(e);
                    },
                    Ok((sep, p)) => {
                        proof {
                            assert(tokens_view(tokens@) == flush_literal(tv0, lit0));
                            assert(prev == Ok::<(Node, int), ParseError>((
                                Node::Group(flush_literal(tv0, lit0), opt_view(sep)),
                                p as int,
                            )));
                        }
                        return Ok((QuoteToken::Group(tokens, sep), p));
                    },
                }
            } else {
                push_char(&mut lit, ')');
                parens = parens - 1;
                i = i + 1;
            }
        } else {
            push_char(&mut lit, c);
            i = i + 1;
        }
    }
}

/// Parses a whole template: literal runs, escapes, `@` hidden variables
/// and `$` bindings, to the end of the source.
pub fn parse_toplevel(source: &str) -> (res: Result<Vec<QuoteToken>, ParseError>)
    ensures
        tokens_res_view(res) == parse_spec(source@),
{
    let len = source.unicode_len();
    let mut tokens: Vec<QuoteToken> = Vec::new();
    let mut lit = String::new();
    let mut i: usize = 0;
    loop
        invariant
            len == source@.len(),
            i <= len,
            parse_toplevel_spec(source@, 0, Seq::empty(), Seq::empty()) == parse_toplevel_spec(
                source@,
                i as int,
                tokens_view(tokens@),
                lit@,
            ),
        decreases len - i,
    {
        if i >= len {
            lit = flush_run(&mut tokens, lit);
            return Ok(tokens);
        }
        let c = source.get_char(i);
        if c == '@' {
            match parse_hidden_variable(source, i + 1) {
                Err(e) => return Err(e),
                Ok((tok, p)) => {
                    proof {
                        lemma_parse_variable_idents_pos(source@, i as int + 1);
                        assert(resume_at(p as int, i as int, source@.len() as int) == p as int);
                    }
                    lit = flush_run(&mut tokens, lit);
                    proof {
                        lemma_tokens_view_push(tokens@, tok);
                    }
                    tokens.push(tok);
                    i = p;
                },
            }
        } else if c == '$' {
            match parse_binding(source, i + 1, 1) {
                Err(e) => return Err(e),
                Ok((tok, p)) => {
                    proof {
                        lemma_parse_binding_pos(source@, i as int + 1, 1);
                        assert(resume_at(p as int, i as int, source@.len() as int) == p as int);
                    }
                    lit = flush_run(&mut tokens, lit);
                    proof {
                        lemma_tokens_view_push(tokens@, tok);
                    }
                    tokens.push(tok);
                    i = p;
                },
            }
        } else if c == '\\' {
            if i + 1 >= len {
                return Err(ParseError::UnexpectedEnd);
            }
            let c2 = source.get_char(i + 1);
            push_char(&mut lit, c2);
            i = i + 2;
        } else {
            push_char(&mut lit, c);
            i = i + 1;
        }
    }
}

/// Parses a whole template; fails fatally on malformed input, returning no
/// partial tree.
pub fn parse(source: &str) -> (res: Result<Vec<QuoteToken>, ParseError>)
    ensures
        tokens_res_view(res) == parse_spec(source@),
{
    parse_toplevel(source)
}

} // verus!
