//! General properties of the engine, stated and proved once for every
//! input: plain templates render to their decoded text, groups iterate in
//! lockstep to the shortest lane, separators stand between iterations and
//! nowhere else, hidden variables emit nothing, and a group never alters
//! the bindings around it.

use vstd::prelude::*;

use crate::ast::{Node, ParseError};
use crate::ext_format_spec;
use crate::parse::{flush_literal, parse_spec, parse_toplevel_spec, MAX_NESTING_DEPTH};
use crate::render::{distinct_aliases, group_lanes, lane_alias, lanes_from, lemma_min_len_from,
    min_lanes_len, min_len_from, overlay_from, prepend_scoped, render_group_spec, render_iters,
    render_nodes, renames_from, resolve_lanes, RenderError, Val};
use crate::util::unescape_spec;
use crate::TemplateError;

verus! {

/// In a source with no `$`, `@` or `\`, the scan reads everything into the
/// pending literal run.
proof fn lemma_plain_scan(src: Seq<char>, pos: int, acc: Seq<Node>, lit: Seq<char>)
    requires
        0 <= pos <= src.len(),
        forall|i: int| 0 <= i < src.len() ==> (#[trigger] src[i]) != '$' && src[i] != '@' && src[i]
            != '\\',
    ensures
        parse_toplevel_spec(src, pos, acc, lit) == Ok::<Seq<Node>, ParseError>(
            flush_literal(acc, lit + src.skip(pos)),
        ),
    decreases src.len() - pos,
{
    if pos >= src.len() {
        assert(src.skip(pos) =~= Seq::<char>::empty());
        assert(lit + src.skip(pos) =~= lit);
    } else {
        lemma_plain_scan(src, pos + 1, acc, lit.push(src[pos]));
        assert(lit.push(src[pos]) + src.skip(pos + 1) =~= lit + src.skip(pos));
    }
}

/// Literal round-trip: a template whose escape-decoded text holds no `$`,
/// `@` or `\` renders, under every environment, to that decoded text
/// exactly. (A decoded `\` would be re-read by the parser as an escape, so
/// such templates are left out.)
pub proof fn lemma_literal_round_trip(template: Seq<char>, env: Map<Seq<char>, Val>)
    requires
        forall|i: int|
            0 <= i < unescape_spec(template).len() ==> (#[trigger] unescape_spec(template)[i])
                != '$' && unescape_spec(template)[i] != '@' && unescape_spec(template)[i] != '\\',
    ensures
        ext_format_spec(template, env) == Ok::<Seq<char>, TemplateError>(unescape_spec(template)),
{
    let s = unescape_spec(template);
    lemma_plain_scan(s, 0, Seq::empty(), Seq::empty());
    assert(Seq::<char>::empty() + s.skip(0) =~= s);
    if s.len() == 0 {
        assert(parse_spec(s) == Ok::<Seq<Node>, ParseError>(flush_literal(Seq::empty(), s)));
        assert(flush_literal(Seq::empty(), s) =~= Seq::<Node>::empty());
        assert(render_nodes(Seq::<Node>::empty(), env, Map::empty(), 0) == Ok::<
            (Seq<char>, Map<Seq<char>, Val>),
            RenderError,
        >((Seq::empty(), env)));
        assert(s =~= Seq::<char>::empty());
    } else {
        let nodes = flush_literal(Seq::empty(), s);
        assert(nodes =~= seq![Node::Literal(s)]);
        assert(parse_spec(s) == Ok::<Seq<Node>, ParseError>(nodes));
        assert(nodes.drop_first() =~= Seq::<Node>::empty());
        assert(render_nodes(Seq::<Node>::empty(), env, Map::empty(), 0) == Ok::<
            (Seq<char>, Map<Seq<char>, Val>),
            RenderError,
        >((Seq::empty(), env)));
        assert(s + Seq::<char>::empty() =~= s);
    }
}

/// The texts of a group's iterations, joined with the separator between
/// them.
pub open spec fn join_texts(parts: Seq<Seq<char>>, sep: Seq<char>) -> Seq<char>
    decreases parts.len(),
{
    if parts.len() == 0 {
        Seq::empty()
    } else if parts.len() == 1 {
        parts[0]
    } else {
        parts[0] + sep + join_texts(parts.drop_first(), sep)
    }
}

/// The text of iteration `i` of a group body, under the enclosing rename
/// map `renames`.
pub open spec fn iteration_text(
    children: Seq<Node>,
    lanes: Seq<(Seq<char>, Seq<char>)>,
    seqs: Seq<Seq<Val>>,
    scope: Map<Seq<char>, Val>,
    renames: Map<Seq<char>, Seq<char>>,
    depth: int,
    i: int,
) -> Seq<char> {
    match render_nodes(
        children,
        overlay_from(scope, lanes, seqs, i, 0),
        renames_from(lanes, 0, renames),
        depth,
    ) {
        Ok((out, _)) => out,
        Err(_) => Seq::empty(),
    }
}

/// The texts of iterations `i` to `n`.
pub open spec fn iteration_texts(
    children: Seq<Node>,
    lanes: Seq<(Seq<char>, Seq<char>)>,
    seqs: Seq<Seq<Val>>,
    scope: Map<Seq<char>, Val>,
    renames: Map<Seq<char>, Seq<char>>,
    depth: int,
    i: int,
    n: int,
) -> Seq<Seq<char>> {
    Seq::new(
        if n >= i {
            (n - i) as nat
        } else {
            0
        },
        |k: int| iteration_text(children, lanes, seqs, scope, renames, depth, i + k),
    )
}

/// Every iteration of the body up to `n` renders without error.
pub open spec fn iterations_ok(
    children: Seq<Node>,
    lanes: Seq<(Seq<char>, Seq<char>)>,
    seqs: Seq<Seq<Val>>,
    scope: Map<Seq<char>, Val>,
    renames: Map<Seq<char>, Seq<char>>,
    depth: int,
    n: int,
) -> bool {
    forall|i: int|
        0 <= i < n ==> (#[trigger] render_nodes(
            children,
            overlay_from(scope, lanes, seqs, i, 0),
            renames_from(lanes, 0, renames),
            depth,
        )) is Ok
}

/// When every iteration succeeds, the iterations' output is their texts
/// joined by the separator.
proof fn lemma_render_iters_join(
    children: Seq<Node>,
    lanes: Seq<(Seq<char>, Seq<char>)>,
    seqs: Seq<Seq<Val>>,
    sep: Seq<char>,
    scope: Map<Seq<char>, Val>,
    renames: Map<Seq<char>, Seq<char>>,
    depth: int,
    i: int,
    n: int,
)
    requires
        0 <= i <= n,
        iterations_ok(children, lanes, seqs, scope, renames, depth, n),
    ensures
        render_iters(children, lanes, seqs, Some(sep), scope, renames, depth, i, n) == Ok::<
            Seq<char>,
            RenderError,
        >(join_texts(iteration_texts(children, lanes, seqs, scope, renames, depth, i, n), sep)),
    decreases n - i,
{
    let parts = iteration_texts(children, lanes, seqs, scope, renames, depth, i, n);
    if i >= n {
        assert(parts.len() == 0);
    } else {
        assert(render_nodes(
            children,
            overlay_from(scope, lanes, seqs, i, 0),
            renames_from(lanes, 0, renames),
            depth,
        ) is Ok);
        lemma_render_iters_join(children, lanes, seqs, sep, scope, renames, depth, i + 1, n);
        let parts2 = iteration_texts(children, lanes, seqs, scope, renames, depth, i + 1, n);
        let out_i = iteration_text(children, lanes, seqs, scope, renames, depth, i);
        assert(parts[0] == out_i);
        assert(parts.drop_first() =~= parts2);
        if i + 1 < n {
            assert(join_texts(parts, sep) == parts[0] + sep + join_texts(parts2, sep));
        } else {
            assert(parts2.len() == 0);
            assert(join_texts(parts2, sep) =~= Seq::<char>::empty());
            assert(out_i + Seq::<char>::empty() + Seq::<char>::empty() =~= out_i);
            assert(join_texts(parts, sep) == parts[0]);
        }
    }
}

/// A resolved lane list has one sequence per lane.
proof fn lemma_resolve_len(lanes: Seq<(Seq<char>, Seq<char>)>, scope: Map<Seq<char>, Val>)
    ensures
        resolve_lanes(lanes, scope) matches Ok(seqs) ==> seqs.len() == lanes.len(),
    decreases lanes.len(),
{
    if lanes.len() > 0 {
        lemma_resolve_len(lanes.drop_first(), scope);
    }
}

/// Zip-to-shortest: when a group's lanes resolve to sequences and every
/// iteration renders, the group's output is exactly
/// `min_lanes_len(seqs)` iteration texts — the length of the shortest
/// lane — joined by the separator; elements past the shortest lane are
/// never visited.
pub proof fn lemma_zip_to_shortest(
    children: Seq<Node>,
    seqs: Seq<Seq<Val>>,
    sep: Seq<char>,
    scope: Map<Seq<char>, Val>,
    renames: Map<Seq<char>, Seq<char>>,
    depth: int,
)
    requires
        0 <= depth <= MAX_NESTING_DEPTH as int,
        group_lanes(children).len() > 0,
        distinct_aliases(group_lanes(children)),
        resolve_lanes(group_lanes(children), scope) == Ok::<Seq<Seq<Val>>, RenderError>(seqs),
        iterations_ok(children, group_lanes(children), seqs, scope, renames, depth,
            min_lanes_len(seqs)),
    ensures
        ({
            let n = min_lanes_len(seqs);
            let parts = iteration_texts(children, group_lanes(children), seqs, scope, renames,
                depth, 0, n);
            &&& parts.len() == n
            &&& render_group_spec(children, Some(sep), scope, renames, depth) == Ok::<
                Seq<char>,
                RenderError,
            >(join_texts(parts, sep))
        }),
{
    let lanes = group_lanes(children);
    lemma_resolve_len(lanes, scope);
    lemma_min_len_from(seqs, 1, seqs[0].len() as int);
    lemma_render_iters_join(children, lanes, seqs, sep, scope, renames, depth, 0,
        min_lanes_len(seqs));
}

/// How often a character occurs in a text.
pub open spec fn count_char(s: Seq<char>, c: char) -> nat
    decreases s.len(),
{
    if s.len() == 0 {
        0
    } else {
        (if s[0] == c {
            1nat
        } else {
            0nat
        }) + count_char(s.drop_first(), c)
    }
}

/// Occurrences add up over concatenation.
proof fn lemma_count_char_concat(a: Seq<char>, b: Seq<char>, c: char)
    ensures
        count_char(a + b, c) == count_char(a, c) + count_char(b, c),
    decreases a.len(),
{
    if a.len() == 0 {
        assert(a + b =~= b);
    } else {
        lemma_count_char_concat(a.drop_first(), b, c);
        assert((a + b).drop_first() =~= a.drop_first() + b);
        assert((a + b)[0] == a[0]);
    }
}

/// A separator character occurs in the joined text once per junction and
/// nowhere else, when no part holds it.
proof fn lemma_join_count(parts: Seq<Seq<char>>, c: char)
    requires
        forall|k: int| 0 <= k < parts.len() ==> count_char(#[trigger] parts[k], c) == 0,
    ensures
        count_char(join_texts(parts, seq![c]), c) == if parts.len() == 0 {
            0int
        } else {
            parts.len() - 1
        },
    decreases parts.len(),
{
    if parts.len() == 0 {
    } else if parts.len() == 1 {
        assert(count_char(parts[0], c) == 0);
    } else {
        assert forall|k: int| 0 <= k < parts.drop_first().len() implies count_char(
            #[trigger] parts.drop_first()[k],
            c,
        ) == 0 by {
            assert(parts.drop_first()[k] == parts[k + 1]);
        }
        lemma_join_count(parts.drop_first(), c);
        lemma_count_char_concat(parts[0] + seq![c], join_texts(parts.drop_first(), seq![c]), c);
        lemma_count_char_concat(parts[0], seq![c], c);
        assert(seq![c].drop_first() =~= Seq::<char>::empty());
        assert(count_char(Seq::<char>::empty(), c) == 0);
        assert(seq![c].len() == 1 && seq![c][0] == c);
        assert(count_char(seq![c], c) == 1);
    }
}

/// Separator count: a group that iterates `n` times with a one-character
/// separator that no iteration's text holds puts the separator into its
/// output exactly `n - 1` times, and not at all when `n <= 1`.
pub proof fn lemma_separator_count(
    children: Seq<Node>,
    seqs: Seq<Seq<Val>>,
    c: char,
    scope: Map<Seq<char>, Val>,
    renames: Map<Seq<char>, Seq<char>>,
    depth: int,
)
    requires
        0 <= depth <= MAX_NESTING_DEPTH as int,
        group_lanes(children).len() > 0,
        distinct_aliases(group_lanes(children)),
        resolve_lanes(group_lanes(children), scope) == Ok::<Seq<Seq<Val>>, RenderError>(seqs),
        iterations_ok(children, group_lanes(children), seqs, scope, renames, depth,
            min_lanes_len(seqs)),
        forall|i: int|
            0 <= i < min_lanes_len(seqs) ==> count_char(
                #[trigger] iteration_text(children, group_lanes(children), seqs, scope, renames,
                    depth, i),
                c,
            ) == 0,
    ensures
        ({
            let n = min_lanes_len(seqs);
            render_group_spec(children, Some(seq![c]), scope, renames, depth) matches Ok(out)
                && count_char(out, c) == if n == 0 {
                0int
            } else {
                n - 1
            }
        }),
{
    let lanes = group_lanes(children);
    let n = min_lanes_len(seqs);
    let parts = iteration_texts(children, lanes, seqs, scope, renames, depth, 0, n);
    lemma_zip_to_shortest(children, seqs, seq![c], scope, renames, depth);
    assert forall|k: int| 0 <= k < parts.len() implies count_char(#[trigger] parts[k], c)
        == 0 by {
        assert(parts[k] == iteration_text(children, lanes, seqs, scope, renames, depth, k));
    }
    lemma_join_count(parts, c);
}

/// The scope after a hidden variable: unchanged, unless it gives an alias
/// other than `_`, which is bound to the resolved value.
pub open spec fn hidden_scope(
    scope: Map<Seq<char>, Val>,
    actual: Seq<char>,
    alias: Option<Seq<char>>,
) -> Map<Seq<char>, Val> {
    match alias {
        Some(a) => if a == seq!['_'] {
            scope
        } else {
            scope.insert(a, scope[actual])
        },
        None => scope,
    }
}

/// Hidden variables contribute no text: under any binding, a node list
/// that starts with a hidden variable renders to exactly what the
/// remaining nodes render to; the hidden variable only resolves its name
/// and possibly binds its alias.
pub proof fn lemma_hidden_no_output(
    name: Seq<char>,
    alias: Option<Seq<char>>,
    rest: Seq<Node>,
    scope: Map<Seq<char>, Val>,
    renames: Map<Seq<char>, Seq<char>>,
    depth: int,
)
    ensures
        ({
            let actual = if renames.contains_key(name) {
                renames[name]
            } else {
                name
            };
            let nodes = seq![Node::HiddenVariable(name, alias)] + rest;
            &&& (!scope.contains_key(actual) ==> render_nodes(nodes, scope, renames, depth)
                == Err::<(Seq<char>, Map<Seq<char>, Val>), RenderError>(
                RenderError::MissingBinding,
            ))
            &&& (scope.contains_key(actual) ==> render_nodes(nodes, scope, renames, depth)
                == render_nodes(rest, hidden_scope(scope, actual, alias), renames, depth))
        }),
{
    let nodes = seq![Node::HiddenVariable(name, alias)] + rest;
    assert(nodes[0] == Node::HiddenVariable(name, alias));
    assert(nodes.drop_first() =~= rest);
}

/// Shadowing: a variable rebound inside a group does not alter the outer
/// binding once the group closes — the nodes after a group are rendered
/// under exactly the scope that stood before it.
pub proof fn lemma_group_shadowing(
    children: Seq<Node>,
    sep: Option<Seq<char>>,
    rest: Seq<Node>,
    scope: Map<Seq<char>, Val>,
    renames: Map<Seq<char>, Seq<char>>,
    depth: int,
)
    ensures
        ({
            let nodes = seq![Node::Group(children, sep)] + rest;
            match render_group_spec(children, sep, scope, renames, depth + 1) {
                Ok(out) => render_nodes(nodes, scope, renames, depth) == prepend_scoped(
                    out,
                    render_nodes(rest, scope, renames, depth),
                ),
                Err(e) => render_nodes(nodes, scope, renames, depth) == Err::<
                    (Seq<char>, Map<Seq<char>, Val>),
                    RenderError,
                >(e),
            }
        }),
{
    let nodes = seq![Node::Group(children, sep)] + rest;
    assert(nodes[0] == Node::Group(children, sep));
    assert(nodes.drop_first() =~= rest);
}


/// When every iteration succeeds and there is no separator, the
/// iterations' output is the plain concatenation of their texts.
proof fn lemma_render_iters_concat(
    children: Seq<Node>,
    lanes: Seq<(Seq<char>, Seq<char>)>,
    seqs: Seq<Seq<Val>>,
    scope: Map<Seq<char>, Val>,
    renames: Map<Seq<char>, Seq<char>>,
    depth: int,
    i: int,
    n: int,
)
    requires
        0 <= i <= n,
        iterations_ok(children, lanes, seqs, scope, renames, depth, n),
    ensures
        render_iters(children, lanes, seqs, None, scope, renames, depth, i, n) == Ok::<
            Seq<char>,
            RenderError,
        >(join_texts(
            iteration_texts(children, lanes, seqs, scope, renames, depth, i, n),
            Seq::empty(),
        )),
    decreases n - i,
{
    let parts = iteration_texts(children, lanes, seqs, scope, renames, depth, i, n);
    if i >= n {
        assert(parts.len() == 0);
    } else {
        assert(render_nodes(
            children,
            overlay_from(scope, lanes, seqs, i, 0),
            renames_from(lanes, 0, renames),
            depth,
        ) is Ok);
        lemma_render_iters_concat(children, lanes, seqs, scope, renames, depth, i + 1, n);
        let parts2 = iteration_texts(children, lanes, seqs, scope, renames, depth, i + 1, n);
        let out_i = iteration_text(children, lanes, seqs, scope, renames, depth, i);
        assert(parts[0] == out_i);
        assert(parts.drop_first() =~= parts2);
        if i + 1 < n {
            assert(join_texts(parts, Seq::empty()) == parts[0] + Seq::<char>::empty()
                + join_texts(parts2, Seq::empty()));
        } else {
            assert(parts2.len() == 0);
            assert(join_texts(parts2, Seq::empty()) =~= Seq::<char>::empty());
            assert(out_i + Seq::<char>::empty() + Seq::<char>::empty() =~= out_i);
            assert(join_texts(parts, Seq::empty()) == parts[0]);
        }
    }
}

/// The display text of a scalar value; sequences have none.
pub open spec fn scalar_text(v: Val) -> Seq<char> {
    match v {
        Val::Scalar(s) => s,
        Val::Sequence(_) => Seq::empty(),
    }
}

/// Generated lane aliases of distinct names differ.
proof fn lemma_lane_alias_injective(x: Seq<char>, y: Seq<char>)
    requires
        lane_alias(x) == lane_alias(y),
    ensures
        x == y,
{
    let p = "__ext_format_inner_"@;
    assert(lane_alias(x).skip(p.len() as int) =~= x);
    assert(lane_alias(y).skip(p.len() as int) =~= y);
}

/// One iteration of the two-reference body `$x mid $y`: it renders the two
/// lanes' current elements with the literal between them.
proof fn lemma_pair_iteration(
    xn: Seq<char>,
    yn: Seq<char>,
    mid: Seq<char>,
    xv: Seq<Val>,
    yv: Seq<Val>,
    scope: Map<Seq<char>, Val>,
    renames: Map<Seq<char>, Seq<char>>,
    depth: int,
    i: int,
)
    requires
        xn != yn,
        0 <= i < xv.len(),
        0 <= i < yv.len(),
        xv[i] is Scalar,
        yv[i] is Scalar,
    ensures
        ({
            let children = seq![
                Node::Variable(xn, None),
                Node::Literal(mid),
                Node::Variable(yn, None),
            ];
            let lanes = seq![(xn, lane_alias(xn)), (yn, lane_alias(yn))];
            let sv = seq![xv, yv];
            &&& render_nodes(
                children,
                overlay_from(scope, lanes, sv, i, 0),
                renames_from(lanes, 0, renames),
                depth,
            ) is Ok
            &&& iteration_text(children, lanes, sv, scope, renames, depth, i) == scalar_text(
                xv[i],
            ) + mid + scalar_text(yv[i])
        }),
{
    let children = seq![Node::Variable(xn, None), Node::Literal(mid), Node::Variable(yn, None)];
    let lanes = seq![(xn, lane_alias(xn)), (yn, lane_alias(yn))];
    let sv = seq![xv, yv];
    let gxn = lane_alias(xn);
    let gyn = lane_alias(yn);
    if gxn == gyn {
        lemma_lane_alias_injective(xn, yn);
    }
    assert(gxn != gyn);
    // The iteration's scope and rename map, spelled out step by step.
    assert(lanes[0] == (xn, gxn) && lanes[1] == (yn, gyn));
    assert(sv[0] == xv && sv[1] == yv);
    let m1 = scope.insert(gxn, xv[i]);
    let overlay = m1.insert(gyn, yv[i]);
    assert(overlay_from(scope, lanes, sv, i, 0) == overlay_from(m1, lanes, sv, i, 1));
    assert(overlay_from(m1, lanes, sv, i, 1) == overlay_from(overlay, lanes, sv, i, 2));
    assert(overlay_from(overlay, lanes, sv, i, 2) == overlay);
    let r1 = renames.insert(xn, gxn);
    let rn = r1.insert(yn, gyn);
    assert(renames_from(lanes, 0, renames) == renames_from(lanes, 1, r1));
    assert(renames_from(lanes, 1, r1) == renames_from(lanes, 2, rn));
    assert(renames_from(lanes, 2, rn) == rn);
    assert(overlay_from(scope, lanes, sv, i, 0) == overlay);
    assert(renames_from(lanes, 0, renames) == rn);
    assert(rn.contains_key(xn) && rn[xn] == gxn);
    assert(rn.contains_key(yn) && rn[yn] == gyn);
    assert(overlay.contains_key(gxn) && overlay[gxn] == xv[i]);
    assert(overlay.contains_key(gyn) && overlay[gyn] == yv[i]);
    // Unfold the render of the three nodes.
    let rest1 = children.drop_first();
    let rest2 = rest1.drop_first();
    let rest3 = rest2.drop_first();
    assert(rest1 =~= seq![Node::Literal(mid), Node::Variable(yn, None)]);
    assert(rest2 =~= seq![Node::Variable(yn, None)]);
    assert(rest3 =~= Seq::<Node>::empty());
    let sx = scalar_text(xv[i]);
    let sy = scalar_text(yv[i]);
    assert(render_nodes(rest3, overlay, rn, depth) == Ok::<
        (Seq<char>, Map<Seq<char>, Val>),
        RenderError,
    >((Seq::empty(), overlay)));
    assert(render_nodes(rest2, overlay, rn, depth) == Ok::<
        (Seq<char>, Map<Seq<char>, Val>),
        RenderError,
    >((sy + Seq::<char>::empty(), overlay)));
    assert(render_nodes(rest1, overlay, rn, depth) == Ok::<
        (Seq<char>, Map<Seq<char>, Val>),
        RenderError,
    >((mid + (sy + Seq::<char>::empty()), overlay)));
    assert(render_nodes(children, overlay, rn, depth) == Ok::<
        (Seq<char>, Map<Seq<char>, Val>),
        RenderError,
    >((sx + (mid + (sy + Seq::<char>::empty())), overlay)));
    assert(sx + (mid + (sy + Seq::<char>::empty())) =~= sx + mid + sy);
}

/// Zip-to-shortest on the two-reference template: a group whose body is
/// `$x mid $y`, with `x` bound to a sequence of length `a` and `y` to one
/// of length `b` whose zipped elements are scalars, renders to exactly the
/// concatenation, over `i` in `0..min(a,b)`, of `x`'s element `i`, `mid`,
/// and `y`'s element `i`.
pub proof fn lemma_two_lane_zip(
    xn: Seq<char>,
    yn: Seq<char>,
    mid: Seq<char>,
    xv: Seq<Val>,
    yv: Seq<Val>,
    scope: Map<Seq<char>, Val>,
    renames: Map<Seq<char>, Seq<char>>,
    depth: int,
)
    requires
        0 <= depth <= MAX_NESTING_DEPTH as int,
        xn != yn,
        scope.contains_key(xn) && scope[xn] == Val::Sequence(xv),
        scope.contains_key(yn) && scope[yn] == Val::Sequence(yv),
        forall|i: int| 0 <= i < xv.len() ==> (#[trigger] xv[i]) is Scalar,
        forall|i: int| 0 <= i < yv.len() ==> (#[trigger] yv[i]) is Scalar,
    ensures
        ({
            let children = seq![
                Node::Variable(xn, None),
                Node::Literal(mid),
                Node::Variable(yn, None),
            ];
            let n: int = if xv.len() <= yv.len() {
                xv.len() as int
            } else {
                yv.len() as int
            };
            let parts = Seq::new(
                n as nat,
                |i: int| scalar_text(xv[i]) + mid + scalar_text(yv[i]),
            );
            render_group_spec(children, None, scope, renames, depth) == Ok::<
                Seq<char>,
                RenderError,
            >(join_texts(parts, Seq::empty()))
        }),
{
    let children = seq![Node::Variable(xn, None), Node::Literal(mid), Node::Variable(yn, None)];
    let gxn = lane_alias(xn);
    let gyn = lane_alias(yn);
    let lanes = seq![(xn, gxn), (yn, gyn)];
    let sv = seq![xv, yv];
    let n: int = if xv.len() <= yv.len() {
        xv.len() as int
    } else {
        yv.len() as int
    };
    // The group's lanes are exactly the two references, in order.
    let empty_strs = Seq::<Seq<char>>::empty();
    let seen1 = empty_strs.push(xn);
    assert(!empty_strs.contains(xn));
    assert(!empty_strs.contains(yn));
    assert(!seen1.contains(yn)) by {
        assert(forall|j: int| 0 <= j < seen1.len() ==> seen1[j] == xn);
    }
    assert(children[0] == Node::Variable(xn, None));
    assert(children[1] == Node::Literal(mid));
    assert(children[2] == Node::Variable(yn, None));
    assert(group_lanes(children) == lanes) by {
        let acc0 = Seq::<(Seq<char>, Seq<char>)>::empty();
        let acc1 = acc0.push((xn, gxn));
        let acc2 = acc1.push((yn, gyn));
        assert(lanes_from(children, 0, empty_strs, empty_strs, acc0) == lanes_from(
            children,
            1,
            seen1,
            empty_strs,
            acc1,
        ));
        assert(lanes_from(children, 1, seen1, empty_strs, acc1) == lanes_from(
            children,
            2,
            seen1,
            empty_strs,
            acc1,
        ));
        assert(lanes_from(children, 2, seen1, empty_strs, acc1) == lanes_from(
            children,
            3,
            seen1.push(yn),
            empty_strs,
            acc2,
        ));
        assert(lanes_from(children, 3, seen1.push(yn), empty_strs, acc2) == acc2);
        assert(acc2 =~= lanes);
    }
    // No two lanes share an alias.
    assert(distinct_aliases(lanes)) by {
        assert forall|j: int, k: int| 0 <= j < k < lanes.len() implies (#[trigger] lanes[j].1)
            != (#[trigger] lanes[k].1) by {
            if gxn == gyn {
                lemma_lane_alias_injective(xn, yn);
            }
        }
    }
    // The lanes resolve to the two bound sequences.
    let l1 = lanes.drop_first();
    assert(l1 =~= seq![(yn, gyn)]);
    assert(l1.drop_first() =~= Seq::<(Seq<char>, Seq<char>)>::empty());
    assert(resolve_lanes(l1.drop_first(), scope) == Ok::<Seq<Seq<Val>>, RenderError>(
        Seq::empty(),
    ));
    assert(l1[0] == (yn, gyn));
    assert(resolve_lanes(l1, scope) == Ok::<Seq<Seq<Val>>, RenderError>(
        seq![yv] + Seq::<Seq<Val>>::empty(),
    ));
    assert(seq![yv] + Seq::<Seq<Val>>::empty() =~= seq![yv]);
    assert(lanes[0] == (xn, gxn));
    assert(resolve_lanes(lanes, scope) == Ok::<Seq<Seq<Val>>, RenderError>(
        seq![xv] + seq![yv],
    ));
    assert(seq![xv] + seq![yv] =~= sv);
    // The iteration count is the shorter length.
    assert(sv[0] == xv && sv[1] == yv);
    let cur1: int = if (sv[1].len() as int) < xv.len() as int {
        sv[1].len() as int
    } else {
        xv.len() as int
    };
    assert(min_len_from(sv, 1, sv[0].len() as int) == min_len_from(sv, 2, cur1));
    assert(min_len_from(sv, 2, cur1) == cur1);
    assert(min_lanes_len(sv) == n);
    // Every iteration renders, to the two elements around the literal.
    assert forall|i: int| 0 <= i < n implies (#[trigger] render_nodes(
        children,
        overlay_from(scope, lanes, sv, i, 0),
        renames_from(lanes, 0, renames),
        depth,
    )) is Ok by {
        lemma_pair_iteration(xn, yn, mid, xv, yv, scope, renames, depth, i);
    }
    lemma_render_iters_concat(children, lanes, sv, scope, renames, depth, 0, n);
    // The iteration texts are the zipped pairs.
    let texts = iteration_texts(children, lanes, sv, scope, renames, depth, 0, n);
    let parts = Seq::new(n as nat, |i: int| scalar_text(xv[i]) + mid + scalar_text(yv[i]));
    assert forall|i: int| 0 <= i < n implies texts[i] == parts[i] by {
        lemma_pair_iteration(xn, yn, mid, xv, yv, scope, renames, depth, i);
    }
    assert(texts =~= parts);
}

} // verus!
