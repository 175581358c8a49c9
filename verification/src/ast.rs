//! The template syntax tree and the parse errors.
//!
//! A template is an ordered list of nodes: literal text, variable
//! references (plain or hidden) with an optional alias, and repetition
//! groups with an optional separator.

use vstd::prelude::*;

verus! {

/// The abstract form of a template node, over mathematical sequences of
/// characters. Contracts and the parser's specification speak of these.
pub enum Node {
    /// Text emitted verbatim.
    Literal(Seq<char>),
    /// A variable reference: the referenced name and an optional alias that
    /// is bound to the resolved value for later siblings.
    Variable(Seq<char>, Option<Seq<char>>),
    /// A variable reference that never emits text; it contributes to a
    /// group's iteration count and may bind an alias.
    HiddenVariable(Seq<char>, Option<Seq<char>>),
    /// A repetition group: its children and an optional separator inserted
    /// after every iteration except the last.
    Group(Seq<Node>, Option<Seq<char>>),
}

/// A parsed template node.
#[derive(Debug, PartialEq, Eq)]
pub enum QuoteToken {
    /// Text emitted verbatim.
    Literal(String),
    /// A variable reference with an optional alias.
    Variable(String, Option<String>),
    /// A variable reference that never emits text.
    HiddenVariable(String, Option<String>),
    /// A repetition group with an optional separator.
    Group(Vec<QuoteToken>, Option<String>),
}

/// The view of an optional string as an optional character sequence.
pub open spec fn opt_view(o: Option<String>) -> Option<Seq<char>> {
    match o {
        Some(s) => Some(s@),
        None => None,
    }
}

/// The abstract node that a parsed node stands for.
pub open spec fn token_view(t: QuoteToken) -> Node
    decreases t,
{
    match t {
        QuoteToken::Literal(s) => Node::Literal(s@),
        QuoteToken::Variable(name, alias) => Node::Variable(name@, opt_view(alias)),
        QuoteToken::HiddenVariable(name, alias) => Node::HiddenVariable(name@, opt_view(alias)),
        QuoteToken::Group(children, sep) => Node::Group(tokens_view(children@), opt_view(sep)),
    }
}

/// The abstract nodes that a sequence of parsed nodes stands for.
pub open spec fn tokens_view(ts: Seq<QuoteToken>) -> Seq<Node>
    decreases ts,
{
    if ts.len() == 0 {
        Seq::empty()
    } else {
        seq![token_view(ts[0])] + tokens_view(ts.drop_first())
    }
}

/// `tokens_view` maps the sequence element by element.
pub proof fn lemma_tokens_view(ts: Seq<QuoteToken>)
    ensures
        tokens_view(ts).len() == ts.len(),
        forall|i: int| 0 <= i < ts.len() ==> tokens_view(ts)[i] == token_view(ts[i]),
    decreases ts.len(),
{
    if ts.len() > 0 {
        lemma_tokens_view(ts.drop_first());
    }
}

/// `tokens_view` distributes over `push`.
pub proof fn lemma_tokens_view_push(ts: Seq<QuoteToken>, t: QuoteToken)
    ensures
        tokens_view(ts.push(t)) == tokens_view(ts).push(token_view(t)),
{
    lemma_tokens_view(ts);
    lemma_tokens_view(ts.push(t));
    assert(tokens_view(ts.push(t)) =~= tokens_view(ts).push(token_view(t)));
}

/// The size of a node: one for a leaf, one plus the children's sizes for
/// a group. A termination measure for walks over the tree.
pub open spec fn node_size(n: Node) -> nat
    decreases n,
{
    match n {
        Node::Literal(_) => 1,
        Node::Variable(_, _) => 1,
        Node::HiddenVariable(_, _) => 1,
        Node::Group(children, _) => 1 + nodes_size(children),
    }
}

/// The summed size of a node list.
pub open spec fn nodes_size(nodes: Seq<Node>) -> nat
    decreases nodes,
{
    if nodes.len() == 0 {
        0
    } else {
        node_size(nodes[0]) + nodes_size(nodes.drop_first())
    }
}

/// Every node weighs no more than the whole list.
pub proof fn lemma_nodes_size_element(nodes: Seq<Node>, j: int)
    requires
        0 <= j < nodes.len(),
    ensures
        node_size(nodes[j]) <= nodes_size(nodes),
    decreases nodes.len(),
{
    if j > 0 {
        lemma_nodes_size_element(nodes.drop_first(), j - 1);
    }
}

/// A fatal parse error; no partial tree is returned.
#[derive(Clone, Copy, PartialEq, Eq, Structural, Debug)]
pub enum ParseError {
    /// The source ended where another character was required.
    UnexpectedEnd,
    /// A group was requested where no `(` stands.
    ExpectedGroup,
    /// The source ended inside a group body.
    UnterminatedGroup,
    /// The source ended right after a group, where its separator belongs.
    MissingSeparator,
    /// The `*` that closes a separator is missing.
    ExpectedStar,
    /// An identifier was required but does not start with a letter or `_`.
    ExpectedIdentifier,
    /// A brace binding was requested where no `{` stands.
    ExpectedBrace,
    /// The `}` that closes a brace binding is missing.
    ExpectedCloseBrace,
    /// A brace binding holds a character other than `:` or `}`.
    MalformedBinding,
    /// Groups are nested deeper than the parser accepts.
    TooDeeplyNested,
}

} // verus!
