//! The renderer: walks a parsed template against an environment of named
//! values, performing variable lookup, lexical shadowing, zipped lockstep
//! iteration and separator insertion.

use vstd::prelude::*;
use vstd::string::StrSliceExecFns;
use vstd::string::StringExecFns;

use crate::ast::{opt_view, token_view, tokens_view, Node, QuoteToken};
use crate::ast::lemma_tokens_view;
use crate::ast::{lemma_nodes_size_element, node_size, nodes_size};
use crate::parse::MAX_NESTING_DEPTH;

verus! {

/// A runtime value: a scalar shown by its text, or an ordered sequence of
/// values iterated by groups.
pub enum Value {
    /// A scalar, held as its display text.
    Scalar(String),
    /// An ordered sequence of values.
    Sequence(Vec<Value>),
}

/// The abstract form of a runtime value.
pub enum Val {
    Scalar(Seq<char>),
    Sequence(Seq<Val>),
}

/// The abstract value that a runtime value stands for.
pub open spec fn value_view(v: Value) -> Val
    decreases v,
{
    match v {
        Value::Scalar(s) => Val::Scalar(s@),
        Value::Sequence(items) => Val::Sequence(values_view(items@)),
    }
}

/// The abstract values that a sequence of runtime values stands for.
pub open spec fn values_view(vs: Seq<Value>) -> Seq<Val>
    decreases vs,
{
    if vs.len() == 0 {
        Seq::empty()
    } else {
        seq![value_view(vs[0])] + values_view(vs.drop_first())
    }
}

/// `values_view` maps the sequence element by element.
pub proof fn lemma_values_view(vs: Seq<Value>)
    ensures
        values_view(vs).len() == vs.len(),
        forall|i: int| 0 <= i < vs.len() ==> values_view(vs)[i] == value_view(vs[i]),
    decreases vs.len(),
{
    if vs.len() > 0 {
        lemma_values_view(vs.drop_first());
    }
}

/// `values_view` distributes over `push`.
pub proof fn lemma_values_view_push(vs: Seq<Value>, v: Value)
    ensures
        values_view(vs.push(v)) == values_view(vs).push(value_view(v)),
{
    lemma_values_view(vs);
    lemma_values_view(vs.push(v));
    assert(values_view(vs.push(v)) =~= values_view(vs).push(value_view(v)));
}

/// The size of an abstract value: one for a scalar, one plus the sizes of
/// the items for a sequence. A termination measure for walks over values.
pub open spec fn val_size(v: Val) -> nat
    decreases v,
{
    match v {
        Val::Scalar(_) => 1,
        Val::Sequence(items) => 1 + vals_size(items),
    }
}

/// The summed size of a sequence of abstract values.
pub open spec fn vals_size(items: Seq<Val>) -> nat
    decreases items,
{
    if items.len() == 0 {
        0
    } else {
        val_size(items[0]) + vals_size(items.drop_first())
    }
}

/// Every element weighs no more than the whole sequence.
pub proof fn lemma_vals_size_element(items: Seq<Val>, j: int)
    requires
        0 <= j < items.len(),
    ensures
        val_size(items[j]) <= vals_size(items),
    decreases items.len(),
{
    if j > 0 {
        lemma_vals_size_element(items.drop_first(), j - 1);
    }
}

impl Clone for Value {
    /// Clones a value; the clone stands for the same abstract value.
    fn clone(&self) -> (res: Self)
        ensures
            value_view(res) == value_view(*self),
        decreases val_size(value_view(*self)),
    {
        match self {
            Value::Scalar(s) => Value::Scalar(s.clone()),
            Value::Sequence(items) => {
                let mut out: Vec<Value> = Vec::new();
                let mut j: usize = 0;
                while j < items.len()
                    invariant
                        *self == Value::Sequence(*items),
                        j <= items@.len(),
                        values_view(out@) == values_view(items@.take(j as int)),
                    decreases items@.len() - j,
                {
                    proof {
                        lemma_values_view_push(out@, items@[j as int]);
                        lemma_values_view_push(items@.take(j as int), items@[j as int]);
                        assert(items@.take(j as int).push(items@[j as int]) =~= items@.take(
                            j as int + 1,
                        ));
                    }
                    proof {
                        lemma_values_view(items@);
                        lemma_vals_size_element(values_view(items@), j as int);
                        assert(val_size(value_view(*self)) == 1 + vals_size(values_view(items@)));
                    }
                    let cloned = items[j].clone();
                    proof {
                        lemma_values_view(out@);
                        lemma_values_view(out@.push(cloned));
                        assert(values_view(out@.push(cloned)) =~= values_view(out@).push(
                            value_view(cloned),
                        ));
                    }
                    out.push(cloned);
                    j = j + 1;
                }
                proof {
                    assert(items@.take(items@.len() as int) =~= items@);
                }
                Value::Sequence(out)
            },
        }
    }
}

/// A fatal render error; no partial text is returned.
#[derive(Clone, Copy, PartialEq, Eq, Structural, Debug)]
pub enum RenderError {
    /// A referenced name is bound neither by the environment nor by an
    /// enclosing group.
    MissingBinding,
    /// A sequence stands where text is to be emitted.
    ExpectedScalar,
    /// A scalar stands where a group lane needs a sequence.
    ExpectedSequence,
    /// A group references no variable, so it has no iteration count.
    GroupWithoutVariables,
    /// Two lanes of one group share an alias, so their bindings would
    /// collide.
    ConflictingAliases,
    /// Groups are nested deeper than the renderer accepts.
    TooDeeplyNested,
}

/// The binding map that a list of name–value entries stands for; a later
/// entry for the same name shadows an earlier one.
pub open spec fn entries_map(entries: Seq<(String, Value)>) -> Map<Seq<char>, Val>
    decreases entries.len(),
{
    if entries.len() == 0 {
        Map::empty()
    } else {
        entries_map(entries.drop_last()).insert(
            entries.last().0@,
            value_view(entries.last().1),
        )
    }
}

/// An environment binding names to values; also the working scope that the
/// renderer threads through a node list.
pub struct Env {
    /// The bindings, oldest first; a later entry shadows an earlier one.
    entries: Vec<(String, Value)>,
}

impl View for Env {
    type V = Map<Seq<char>, Val>;

    closed spec fn view(&self) -> Map<Seq<char>, Val> {
        entries_map(self.entries@)
    }
}

impl Env {
    /// An empty environment.
    pub fn new() -> (res: Env)
        ensures
            res@ == Map::<Seq<char>, Val>::empty(),
    {
        Env { entries: Vec::new() }
    }

    /// Binds `name` to `value`, shadowing any earlier binding of the name.
    pub fn set(&mut self, name: String, value: Value)
        ensures
            final(self)@ == old(self)@.insert(name@, value_view(value)),
    {
        let ghost n = name@;
        let ghost v = value_view(value);
        let ghost before = self.entries@;
        self.entries.push((name, value));
        proof {
            assert(self.entries@.drop_last() =~= before);
        }
    }

    /// Looks `name` up, honouring shadowing: the latest binding wins.
    pub fn get(&self, name: &String) -> (res: Option<&Value>)
        ensures
            match res {
                Some(v) => self@.contains_key(name@) && value_view(*v) == self@[name@],
                None => !self@.contains_key(name@),
            },
    {
        let mut j = self.entries.len();
        proof {
            assert(self.entries@.take(self.entries@.len() as int) =~= self.entries@);
        }
        while j > 0
            invariant
                j <= self.entries@.len(),
                entries_map(self.entries@).contains_key(name@) == entries_map(
                    self.entries@.take(j as int),
                ).contains_key(name@),
                entries_map(self.entries@).contains_key(name@) ==> entries_map(
                    self.entries@.take(j as int),
                )[name@] == entries_map(self.entries@)[name@],
            decreases j,
        {
            j = j - 1;
            let ghost pre = self.entries@.take(j as int + 1);
            proof {
                assert(pre.drop_last() =~= self.entries@.take(j as int));
                assert(pre.last() == self.entries@[j as int]);
            }
            let entry = &self.entries[j];
            if entry.0.eq(name) {
                return Some(&entry.1);
            }
        }
        proof {
            assert(self.entries@.take(0) =~= Seq::<(String, Value)>::empty());
        }
        None
    }

    /// Clones the environment; the clone stands for the same binding map.
    pub fn duplicate(&self) -> (res: Env)
        ensures
            res@ == self@,
    {
        let mut out: Vec<(String, Value)> = Vec::new();
        let mut j: usize = 0;
        while j < self.entries.len()
            invariant
                j <= self.entries@.len(),
                entries_map(out@) == entries_map(self.entries@.take(j as int)),
            decreases self.entries@.len() - j,
        {
            let entry = &self.entries[j];
            let name = entry.0.clone();
            let value = entry.1.clone();
            let ghost before = out@;
            out.push((name, value));
            proof {
                assert(out@.drop_last() =~= before);
                let pre = self.entries@.take(j as int + 1);
                assert(pre.drop_last() =~= self.entries@.take(j as int));
                assert(pre.last() == self.entries@[j as int]);
            }
            j = j + 1;
        }
        proof {
            assert(self.entries@.take(self.entries@.len() as int) =~= self.entries@);
        }
        Env { entries: out }
    }
}


/// The name and optional alias of a variable reference node; `None` for
/// literals and groups.
pub open spec fn node_ref(n: Node) -> Option<(Seq<char>, Option<Seq<char>>)> {
    match n {
        Node::Variable(name, alias) => Some((name, alias)),
        Node::HiddenVariable(name, alias) => Some((name, alias)),
        Node::Literal(_) => None,
        Node::Group(_, _) => None,
    }
}

/// The alias generated for a lane whose reference gives none.
pub open spec fn lane_alias(name: Seq<char>) -> Seq<char> {
    "__ext_format_inner_"@ + name
}

/// The lanes of a group, scanned from child `i`: the first reference to
/// each distinct variable name opens one lane; a later reference to the
/// same name, or to an alias opened earlier in the same group, reuses the
/// first lane rather than opening a second one. `seen` holds the laned
/// names, `aliases` the aliases given so far, `acc` the lanes in
/// first-occurrence order as (name, alias) pairs.
pub open spec fn lanes_from(
    children: Seq<Node>,
    i: int,
    seen: Seq<Seq<char>>,
    aliases: Seq<Seq<char>>,
    acc: Seq<(Seq<char>, Seq<char>)>,
) -> Seq<(Seq<char>, Seq<char>)>
    decreases children.len() - i,
{
    if i < 0 || i >= children.len() {
        acc
    } else {
        match node_ref(children[i]) {
            None => lanes_from(children, i + 1, seen, aliases, acc),
            Some((name, alias)) => {
                if aliases.contains(name) || seen.contains(name) {
                    lanes_from(children, i + 1, seen, aliases, acc)
                } else {
                    let lane = match alias {
                        Some(a) => a,
                        None => lane_alias(name),
                    };
                    let aliases2 = match alias {
                        Some(a) => aliases.push(a),
                        None => aliases,
                    };
                    lanes_from(children, i + 1, seen.push(name), aliases2, acc.push((name, lane)))
                }
            },
        }
    }
}

/// The ordered, de-duplicated lanes of a group's direct children.
pub open spec fn group_lanes(children: Seq<Node>) -> Seq<(Seq<char>, Seq<char>)> {
    lanes_from(children, 0, Seq::empty(), Seq::empty(), Seq::empty())
}

/// Resolves each lane's name in the scope; every lane must be bound to a
/// sequence.
pub open spec fn resolve_lanes(
    lanes: Seq<(Seq<char>, Seq<char>)>,
    scope: Map<Seq<char>, Val>,
) -> Result<Seq<Seq<Val>>, RenderError>
    decreases lanes.len(),
{
    if lanes.len() == 0 {
        Ok(Seq::empty())
    } else if !scope.contains_key(lanes[0].0) {
        Err(RenderError::MissingBinding)
    } else {
        match scope[lanes[0].0] {
            Val::Scalar(_) => Err(RenderError::ExpectedSequence),
            Val::Sequence(items) => match resolve_lanes(lanes.drop_first(), scope) {
                Err(e) => Err(e),
                Ok(rest) => Ok(seq![items] + rest),
            },
        }
    }
}

/// The least length among the lane sequences from `j` on, folded from
/// `cur`.
pub open spec fn min_len_from(seqs: Seq<Seq<Val>>, j: int, cur: int) -> int
    decreases seqs.len() - j,
{
    if j < 0 || j >= seqs.len() {
        cur
    } else {
        min_len_from(seqs, j + 1, if (seqs[j].len() as int) < cur {
            seqs[j].len() as int
        } else {
            cur
        })
    }
}

/// The number of zipped iterations: the length of the shortest lane.
pub open spec fn min_lanes_len(seqs: Seq<Seq<Val>>) -> int {
    min_len_from(seqs, 1, seqs[0].len() as int)
}

/// The fold never exceeds its seed nor any lane length it saw.
pub proof fn lemma_min_len_from(seqs: Seq<Seq<Val>>, j: int, cur: int)
    ensures
        min_len_from(seqs, j, cur) <= cur,
        cur >= 0 ==> min_len_from(seqs, j, cur) >= 0,
        forall|t: int|
            j <= t < seqs.len() && 0 <= j ==> min_len_from(seqs, j, cur) <= seqs[t].len(),
    decreases seqs.len() - j,
{
    if 0 <= j && j < seqs.len() {
        lemma_min_len_from(seqs, j + 1, if (seqs[j].len() as int) < cur {
            seqs[j].len() as int
        } else {
            cur
        });
    }
}

/// The scope of one iteration: the base scope with each lane's alias bound
/// to that lane's element `i`, from lane `j` on.
pub open spec fn overlay_from(
    scope: Map<Seq<char>, Val>,
    lanes: Seq<(Seq<char>, Seq<char>)>,
    seqs: Seq<Seq<Val>>,
    i: int,
    j: int,
) -> Map<Seq<char>, Val>
    decreases lanes.len() - j,
{
    if j < 0 || j >= lanes.len() {
        scope
    } else {
        overlay_from(scope.insert(lanes[j].1, seqs[j][i]), lanes, seqs, i, j + 1)
    }
}

/// The rename map of a group: each lane's name to its alias, from lane `j`
/// on, folded onto `m`.
pub open spec fn renames_from(
    lanes: Seq<(Seq<char>, Seq<char>)>,
    j: int,
    m: Map<Seq<char>, Seq<char>>,
) -> Map<Seq<char>, Seq<char>>
    decreases lanes.len() - j,
{
    if j < 0 || j >= lanes.len() {
        m
    } else {
        renames_from(lanes, j + 1, m.insert(lanes[j].0, lanes[j].1))
    }
}

/// Whether no two lanes of a group share an alias. Two references with
/// distinct names but one explicit alias would bind colliding names, so
/// such a group is refused.
pub open spec fn distinct_aliases(lanes: Seq<(Seq<char>, Seq<char>)>) -> bool {
    forall|j: int, k: int| 0 <= j < k < lanes.len() ==> (#[trigger] lanes[j].1) != (#[trigger] lanes[k].1)
}

/// How many times a group's body iterates under a scope: the length of its
/// shortest lane; zero where the lanes do not resolve.
pub open spec fn group_iterations(children: Seq<Node>, scope: Map<Seq<char>, Val>) -> int {
    match resolve_lanes(group_lanes(children), scope) {
        Err(_) => 0,
        Ok(seqs) => if seqs.len() == 0 {
            0
        } else {
            min_lanes_len(seqs)
        },
    }
}

/// Renders iterations `i` to `n` of a group body: each iteration renders
/// the children under the base scope overlaid with the lanes' elements,
/// under the enclosing rename map extended with this group's lanes, and
/// the separator stands after every iteration except the last.
pub open spec fn render_iters(
    children: Seq<Node>,
    lanes: Seq<(Seq<char>, Seq<char>)>,
    seqs: Seq<Seq<Val>>,
    sep: Option<Seq<char>>,
    scope: Map<Seq<char>, Val>,
    renames: Map<Seq<char>, Seq<char>>,
    depth: int,
    i: int,
    n: int,
) -> Result<Seq<char>, RenderError>
    decreases children, n - i,
{
    if i >= n {
        Ok(Seq::empty())
    } else {
        match render_nodes(
            children,
            overlay_from(scope, lanes, seqs, i, 0),
            renames_from(lanes, 0, renames),
            depth,
        ) {
            Err(e) => Err(e),
            Ok((out, _)) => match render_iters(
                children,
                lanes,
                seqs,
                sep,
                scope,
                renames,
                depth,
                i + 1,
                n,
            ) {
                Err(e) => Err(e),
                Ok(rest) => {
                    let sep_part = if i + 1 < n {
                        match sep {
                            Some(s) => s,
                            None => Seq::<char>::empty(),
                        }
                    } else {
                        Seq::<char>::empty()
                    };
                    Ok(out + sep_part + rest)
                },
            },
        }
    }
}

/// Renders a group under a scope and the enclosing rename map: its lanes
/// are resolved to sequences, the body iterates as many times as the
/// shortest lane is long under the rename map extended with this group's
/// lanes (enclosing entries stay visible unless shadowed), and the outer
/// scope is left untouched.
pub open spec fn render_group_spec(
    children: Seq<Node>,
    sep: Option<Seq<char>>,
    scope: Map<Seq<char>, Val>,
    renames: Map<Seq<char>, Seq<char>>,
    depth: int,
) -> Result<Seq<char>, RenderError>
    decreases children, group_iterations(children, scope) + 1,
        via render_group_spec_decreases
{
    if depth > MAX_NESTING_DEPTH as int {
        Err(RenderError::TooDeeplyNested)
    } else {
        let lanes = group_lanes(children);
        if lanes.len() == 0 {
            Err(RenderError::GroupWithoutVariables)
        } else if !distinct_aliases(lanes) {
            Err(RenderError::ConflictingAliases)
        } else {
            match resolve_lanes(lanes, scope) {
                Err(e) => Err(e),
                Ok(seqs) => render_iters(children, lanes, seqs, sep, scope, renames, depth, 0, if seqs.len()
                    == 0 {
                    0
                } else {
                    min_lanes_len(seqs)
                }),
            }
        }
    }
}

#[via_fn]
proof fn render_group_spec_decreases(
    children: Seq<Node>,
    sep: Option<Seq<char>>,
    scope: Map<Seq<char>, Val>,
    renames: Map<Seq<char>, Seq<char>>,
    depth: int,
) {
    match resolve_lanes(group_lanes(children), scope) {
        Err(_) => {},
        Ok(seqs) => {
            if seqs.len() > 0 {
                lemma_min_len_from(seqs, 1, seqs[0].len() as int);
            }
        },
    }
}

/// Renders a node list under a scope and a rename map, threading the scope:
/// a literal emits its text; a variable resolves its (renamed) name to a
/// scalar, emits it, and binds its alias for later siblings; a hidden
/// variable resolves but emits nothing, binding its alias unless the alias
/// is absent or `_`; a group renders and leaves the scope unchanged.
/// Returns the text and the scope after the list.
pub open spec fn render_nodes(
    nodes: Seq<Node>,
    scope: Map<Seq<char>, Val>,
    renames: Map<Seq<char>, Seq<char>>,
    depth: int,
) -> Result<(Seq<char>, Map<Seq<char>, Val>), RenderError>
    decreases nodes, 0int,
{
    if nodes.len() == 0 {
        Ok((Seq::empty(), scope))
    } else {
        let rest = nodes.drop_first();
        match nodes[0] {
            Node::Literal(text) => match render_nodes(rest, scope, renames, depth) {
                Err(e) => Err(e),
                Ok((out, sc)) => Ok((text + out, sc)),
            },
            Node::Variable(name, alias) => {
                let actual = if renames.contains_key(name) {
                    renames[name]
                } else {
                    name
                };
                if !scope.contains_key(actual) {
                    Err(RenderError::MissingBinding)
                } else {
                    match scope[actual] {
                        Val::Sequence(_) => Err(RenderError::ExpectedScalar),
                        Val::Scalar(text) => {
                            let scope2 = match alias {
                                Some(a) => scope.insert(a, Val::Scalar(text)),
                                None => scope,
                            };
                            match render_nodes(rest, scope2, renames, depth) {
                                Err(e) => Err(e),
                                Ok((out, sc)) => Ok((text + out, sc)),
                            }
                        },
                    }
                }
            },
            Node::HiddenVariable(name, alias) => {
                let actual = if renames.contains_key(name) {
                    renames[name]
                } else {
                    name
                };
                if !scope.contains_key(actual) {
                    Err(RenderError::MissingBinding)
                } else {
                    let scope2 = match alias {
                        Some(a) => if a == seq!['_'] {
                            scope
                        } else {
                            scope.insert(a, scope[actual])
                        },
                        None => scope,
                    };
                    render_nodes(rest, scope2, renames, depth)
                }
            },
            Node::Group(children, sep) => match render_group_spec(
                children,
                sep,
                scope,
                renames,
                depth + 1,
            ) {
                Err(e) => Err(e),
                Ok(out) => match render_nodes(rest, scope, renames, depth) {
                    Err(e) => Err(e),
                    Ok((o2, sc)) => Ok((out + o2, sc)),
                },
            },
        }
    }
}

/// Renders a whole template against an environment: the scope starts as
/// the environment's bindings and no renames apply at top level.
pub open spec fn render_spec(nodes: Seq<Node>, env: Map<Seq<char>, Val>) -> Result<
    Seq<char>,
    RenderError,
> {
    match render_nodes(nodes, env, Map::empty(), 0) {
        Err(e) => Err(e),
        Ok((out, _)) => Ok(out),
    }
}


/// The views of a sequence of strings.
pub open spec fn strs_view(ss: Seq<String>) -> Seq<Seq<char>>
    decreases ss,
{
    if ss.len() == 0 {
        Seq::empty()
    } else {
        seq![ss[0]@] + strs_view(ss.drop_first())
    }
}

/// `strs_view` maps the sequence element by element.
pub proof fn lemma_strs_view(ss: Seq<String>)
    ensures
        strs_view(ss).len() == ss.len(),
        forall|i: int| 0 <= i < ss.len() ==> strs_view(ss)[i] == ss[i]@,
    decreases ss.len(),
{
    if ss.len() > 0 {
        lemma_strs_view(ss.drop_first());
    }
}

/// `strs_view` distributes over `push`.
pub proof fn lemma_strs_view_push(ss: Seq<String>, s: String)
    ensures
        strs_view(ss.push(s)) == strs_view(ss).push(s@),
{
    lemma_strs_view(ss);
    lemma_strs_view(ss.push(s));
    assert(strs_view(ss.push(s)) =~= strs_view(ss).push(s@));
}

/// The views of a sequence of string pairs.
pub open spec fn pairs_view(ps: Seq<(String, String)>) -> Seq<(Seq<char>, Seq<char>)>
    decreases ps,
{
    if ps.len() == 0 {
        Seq::empty()
    } else {
        seq![(ps[0].0@, ps[0].1@)] + pairs_view(ps.drop_first())
    }
}

/// `pairs_view` maps the sequence element by element.
pub proof fn lemma_pairs_view(ps: Seq<(String, String)>)
    ensures
        pairs_view(ps).len() == ps.len(),
        forall|i: int| 0 <= i < ps.len() ==> pairs_view(ps)[i] == (ps[i].0@, ps[i].1@),
    decreases ps.len(),
{
    if ps.len() > 0 {
        lemma_pairs_view(ps.drop_first());
    }
}

/// `pairs_view` distributes over `push`.
pub proof fn lemma_pairs_view_push(ps: Seq<(String, String)>, p: (String, String))
    ensures
        pairs_view(ps.push(p)) == pairs_view(ps).push((p.0@, p.1@)),
{
    lemma_pairs_view(ps);
    lemma_pairs_view(ps.push(p));
    assert(pairs_view(ps.push(p)) =~= pairs_view(ps).push((p.0@, p.1@)));
}

/// The abstract lane sequences that resolved lane vectors stand for.
pub open spec fn lane_seqs_view(ss: Seq<Vec<Value>>) -> Seq<Seq<Val>>
    decreases ss,
{
    if ss.len() == 0 {
        Seq::empty()
    } else {
        seq![values_view(ss[0]@)] + lane_seqs_view(ss.drop_first())
    }
}

/// `lane_seqs_view` maps the sequence element by element.
pub proof fn lemma_lane_seqs_view(ss: Seq<Vec<Value>>)
    ensures
        lane_seqs_view(ss).len() == ss.len(),
        forall|i: int| 0 <= i < ss.len() ==> lane_seqs_view(ss)[i] == values_view(ss[i]@),
    decreases ss.len(),
{
    if ss.len() > 0 {
        lemma_lane_seqs_view(ss.drop_first());
    }
}

/// `lane_seqs_view` distributes over `push`.
pub proof fn lemma_lane_seqs_view_push(ss: Seq<Vec<Value>>, v: Vec<Value>)
    ensures
        lane_seqs_view(ss.push(v)) == lane_seqs_view(ss).push(values_view(v@)),
{
    lemma_lane_seqs_view(ss);
    lemma_lane_seqs_view(ss.push(v));
    assert(lane_seqs_view(ss.push(v)) =~= lane_seqs_view(ss).push(values_view(v@)));
}

/// Whether some string in `v` reads `name`.
fn contains_str(v: &Vec<String>, name: &String) -> (r: bool)
    ensures
        r == strs_view(v@).contains(name@),
{
    proof {
        lemma_strs_view(v@);
    }
    let mut t: usize = 0;
    while t < v.len()
        invariant
            t <= v@.len(),
            strs_view(v@).len() == v@.len(),
            forall|i: int| 0 <= i < v@.len() ==> strs_view(v@)[i] == v@[i]@,
            forall|i: int| 0 <= i < t ==> v@[i]@ != name@,
        decreases v@.len() - t,
    {
        if v[t].eq(name) {
            proof {
                assert(strs_view(v@)[t as int] == name@);
            }
            return true;
        }
        t = t + 1;
    }
    proof {
        assert forall|i: int| 0 <= i < strs_view(v@).len() implies strs_view(v@)[i] != name@ by {
            assert(strs_view(v@)[i] == v@[i]@);
        }
    }
    false
}

/// Collects the lanes of a group: the ordered, de-duplicated `(name,
/// alias)` pairs that `group_lanes` describes, with a generated alias for
/// every reference that gives none.
pub fn get_variable_names(tokens: &Vec<QuoteToken>) -> (res: Vec<(String, String)>)
    ensures
        pairs_view(res@) == group_lanes(tokens_view(tokens@)),
{
    let ghost cv = tokens_view(tokens@);
    let mut lanes: Vec<(String, String)> = Vec::new();
    let mut seen: Vec<String> = Vec::new();
    let mut aliases: Vec<String> = Vec::new();
    let mut i: usize = 0;
    proof {
        lemma_tokens_view(tokens@);
    }
    while i < tokens.len()
        invariant
            i <= tokens@.len(),
            cv == tokens_view(tokens@),
            cv.len() == tokens@.len(),
            forall|t: int| 0 <= t < tokens@.len() ==> cv[t] == token_view(tokens@[t]),
            lanes_from(cv, i as int, strs_view(seen@), strs_view(aliases@), pairs_view(lanes@))
                == group_lanes(cv),
        decreases tokens@.len() - i,
    {
        let tok = &tokens[i];
        let reference: Option<(&String, &Option<String>)> = match tok {
            QuoteToken::Variable(name, alias) => Some((name, alias)),
            QuoteToken::HiddenVariable(name, alias) => Some((name, alias)),
            QuoteToken::Literal(_) => None,
            QuoteToken::Group(_, _) => None,
        };
        match reference {
            None => {
                proof {
                    assert(node_ref(cv[i as int]) is None);
                }
            },
            Some((name, alias)) => {
                proof {
                    assert(node_ref(cv[i as int]) == Some((name@, opt_view(*alias))));
                }
                let in_aliases = contains_str(&aliases, name);
                let in_seen = contains_str(&seen, name);
                if !in_aliases && !in_seen {
                    let lane_name: String = match alias {
                        Some(a) => a.clone(),
                        None => {
                            let mut generated = "__ext_format_inner_".to_owned();
                            generated.append(name.as_str());
                            generated
                        },
                    };
                    proof {
                        lemma_strs_view_push(seen@, *name);
                        lemma_pairs_view_push(lanes@, (*name, lane_name));
                        match *alias {
                            Some(ref a) => {
                                lemma_strs_view_push(aliases@, *a);
                            },
                            None => {
                                assert(lane_name@ == lane_alias(name@));
                            },
                        }
                    }
                    seen.push(name.clone());
                    match alias {
                        Some(a) => {
                            aliases.push(a.clone());
                        },
                        None => {},
                    }
                    lanes.push((name.clone(), lane_name));
                }
            },
        }
        i = i + 1;
    }
    proof {
        assert(lanes_from(cv, tokens@.len() as int, strs_view(seen@), strs_view(aliases@),
            pairs_view(lanes@)) == pairs_view(lanes@));
    }
    lanes
}

/// The rename map that a list of name–alias entries stands for.
pub open spec fn rename_entries_map(entries: Seq<(String, String)>) -> Map<Seq<char>, Seq<char>>
    decreases entries.len(),
{
    if entries.len() == 0 {
        Map::empty()
    } else {
        rename_entries_map(entries.drop_last()).insert(entries.last().0@, entries.last().1@)
    }
}

/// The rename map of an enclosing group: lane names to lane aliases.
pub struct Renames {
    entries: Vec<(String, String)>,
}

impl View for Renames {
    type V = Map<Seq<char>, Seq<char>>;

    closed spec fn view(&self) -> Map<Seq<char>, Seq<char>> {
        rename_entries_map(self.entries@)
    }
}

impl Renames {
    /// An empty rename map.
    pub fn new() -> (res: Renames)
        ensures
            res@ == Map::<Seq<char>, Seq<char>>::empty(),
    {
        Renames { entries: Vec::new() }
    }

    /// Maps `name` to `alias`.
    pub fn set(&mut self, name: String, alias: String)
        ensures
            final(self)@ == old(self)@.insert(name@, alias@),
    {
        let ghost before = self.entries@;
        self.entries.push((name, alias));
        proof {
            assert(self.entries@.drop_last() =~= before);
        }
    }

    /// Clones the rename map; the clone stands for the same map.
    pub fn duplicate(&self) -> (res: Renames)
        ensures
            res@ == self@,
    {
        let mut out: Vec<(String, String)> = Vec::new();
        let mut j: usize = 0;
        while j < self.entries.len()
            invariant
                j <= self.entries@.len(),
                rename_entries_map(out@) == rename_entries_map(self.entries@.take(j as int)),
            decreases self.entries@.len() - j,
        {
            let entry = &self.entries[j];
            let name = entry.0.clone();
            let alias = entry.1.clone();
            let ghost before = out@;
            out.push((name, alias));
            proof {
                assert(out@.drop_last() =~= before);
                let pre = self.entries@.take(j as int + 1);
                assert(pre.drop_last() =~= self.entries@.take(j as int));
                assert(pre.last() == self.entries@[j as int]);
            }
            j = j + 1;
        }
        proof {
            assert(self.entries@.take(self.entries@.len() as int) =~= self.entries@);
        }
        Renames { entries: out }
    }

    /// Looks `name` up; the latest entry wins.
    pub fn get(&self, name: &String) -> (res: Option<&String>)
        ensures
            match res {
                Some(a) => self@.contains_key(name@) && a@ == self@[name@],
                None => !self@.contains_key(name@),
            },
    {
        let mut j = self.entries.len();
        proof {
            assert(self.entries@.take(self.entries@.len() as int) =~= self.entries@);
        }
        while j > 0
            invariant
                j <= self.entries@.len(),
                rename_entries_map(self.entries@).contains_key(name@) == rename_entries_map(
                    self.entries@.take(j as int),
                ).contains_key(name@),
                rename_entries_map(self.entries@).contains_key(name@) ==> rename_entries_map(
                    self.entries@.take(j as int),
                )[name@] == rename_entries_map(self.entries@)[name@],
            decreases j,
        {
            j = j - 1;
            let ghost pre = self.entries@.take(j as int + 1);
            proof {
                assert(pre.drop_last() =~= self.entries@.take(j as int));
                assert(pre.last() == self.entries@[j as int]);
            }
            let entry = &self.entries[j];
            if entry.0.eq(name) {
                return Some(&entry.1);
            }
        }
        proof {
            assert(self.entries@.take(0) =~= Seq::<(String, String)>::empty());
        }
        None
    }
}

/// `r` with `prefix` put before its text, errors untouched.
pub open spec fn prepend_scoped(
    prefix: Seq<char>,
    r: Result<(Seq<char>, Map<Seq<char>, Val>), RenderError>,
) -> Result<(Seq<char>, Map<Seq<char>, Val>), RenderError> {
    match r {
        Ok((out, sc)) => Ok((prefix + out, sc)),
        Err(e) => Err(e),
    }
}

/// Prefixes compose.
pub proof fn lemma_prepend_scoped(
    a: Seq<char>,
    b: Seq<char>,
    r: Result<(Seq<char>, Map<Seq<char>, Val>), RenderError>,
)
    ensures
        prepend_scoped(a, prepend_scoped(b, r)) == prepend_scoped(a + b, r),
{
    match r {
        Ok((out, sc)) => {
            assert(a + (b + out) =~= (a + b) + out);
        },
        Err(_) => {},
    }
}

/// An empty prefix changes nothing.
pub proof fn lemma_prepend_scoped_empty(r: Result<(Seq<char>, Map<Seq<char>, Val>), RenderError>)
    ensures
        prepend_scoped(Seq::empty(), r) == r,
{
    match r {
        Ok((out, sc)) => {
            assert(Seq::<char>::empty() + out =~= out);
        },
        Err(_) => {},
    }
}

/// `r` with `prefix` put before its text, errors untouched.
pub open spec fn prepend_text(prefix: Seq<char>, r: Result<Seq<char>, RenderError>) -> Result<
    Seq<char>,
    RenderError,
> {
    match r {
        Ok(out) => Ok(prefix + out),
        Err(e) => Err(e),
    }
}

/// Prefixes compose.
pub proof fn lemma_prepend_text(a: Seq<char>, b: Seq<char>, r: Result<Seq<char>, RenderError>)
    ensures
        prepend_text(a, prepend_text(b, r)) == prepend_text(a + b, r),
{
    match r {
        Ok(out) => {
            assert(a + (b + out) =~= (a + b) + out);
        },
        Err(_) => {},
    }
}

/// An empty prefix changes nothing.
pub proof fn lemma_prepend_text_empty(r: Result<Seq<char>, RenderError>)
    ensures
        prepend_text(Seq::empty(), r) == r,
{
    match r {
        Ok(out) => {
            assert(Seq::<char>::empty() + out =~= out);
        },
        Err(_) => {},
    }
}

/// The view of a node-list render result.
pub open spec fn rt_res_view(r: Result<(String, Env), RenderError>) -> Result<
    (Seq<char>, Map<Seq<char>, Val>),
    RenderError,
> {
    match r {
        Ok((out, sc)) => Ok((out@, sc@)),
        Err(e) => Err(e),
    }
}

/// The view of a group render result.
pub open spec fn rg_res_view(r: Result<String, RenderError>) -> Result<Seq<char>, RenderError> {
    match r {
        Ok(out) => Ok(out@),
        Err(e) => Err(e),
    }
}


/// Renders a node list, threading the working scope exactly as
/// `render_nodes` describes.
pub fn render_tokens(
    tokens: &Vec<QuoteToken>,
    scope: Env,
    renames: &Renames,
    depth: usize,
) -> (res: Result<(String, Env), RenderError>)
    requires
        depth <= MAX_NESTING_DEPTH,
    ensures
        rt_res_view(res) == render_nodes(tokens_view(tokens@), scope@, renames@, depth as int),
    decreases nodes_size(tokens_view(tokens@)), 0int,
{
    let ghost all = tokens_view(tokens@);
    let mut cur = scope;
    let mut out = String::new();
    let mut idx: usize = 0;
    proof {
        lemma_tokens_view(tokens@);
        assert(all.skip(0) =~= all);
        lemma_prepend_scoped_empty(render_nodes(all, scope@, renames@, depth as int));
    }
    loop
        invariant
            depth <= MAX_NESTING_DEPTH,
            idx <= tokens@.len(),
            all == tokens_view(tokens@),
            all.len() == tokens@.len(),
            forall|t: int| 0 <= t < tokens@.len() ==> all[t] == token_view(tokens@[t]),
            render_nodes(all, scope@, renames@, depth as int) == prepend_scoped(
                out@,
                render_nodes(all.skip(idx as int), cur@, renames@, depth as int),
            ),
        decreases tokens@.len() - idx,
    {
        let ghost rem = all.skip(idx as int);
        let ghost scope_pre = cur@;
        let ghost out_pre = out@;
        if idx >= tokens.len() {
            proof {
                assert(rem =~= Seq::<Node>::empty());
                assert(render_nodes(rem, cur@, renames@, depth as int) == Ok::<
                    (Seq<char>, Map<Seq<char>, Val>),
                    RenderError,
                >((Seq::empty(), cur@)));
                assert(out@ + Seq::<char>::empty() =~= out@);
            }
            return Ok((out, cur));
        }
        proof {
            assert(rem[0] == all[idx as int]);
            assert(rem.drop_first() =~= all.skip(idx as int + 1));
        }
        let tok = &tokens[idx];
        match tok {
            QuoteToken::Literal(text) => {
                proof {
                    assert(rem[0] == Node::Literal(text@));
                    assert(render_nodes(rem, scope_pre, renames@, depth as int) == prepend_scoped(
                        text@,
                        render_nodes(rem.drop_first(), scope_pre, renames@, depth as int),
                    ));
                    lemma_prepend_scoped(
                        out_pre,
                        text@,
                        render_nodes(rem.drop_first(), scope_pre, renames@, depth as int),
                    );
                }
                out.append(text.as_str());
                idx = idx + 1;
            },
            QuoteToken::Variable(name, alias) => {
                proof {
                    assert(rem[0] == Node::Variable(name@, opt_view(*alias)));
                }
                let actual: &String = match renames.get(name) {
                    Some(a) => a,
                    None => name,
                };
                let resolved: Value = match cur.get(actual) {
                    None => {
                        proof {
                            assert(render_nodes(rem, scope_pre, renames@, depth as int) == Err::<
                                (Seq<char>, Map<Seq<char>, Val>),
                                RenderError,
                            >(RenderError::MissingBinding));
                        }
                        return Err(RenderError::MissingBinding);
                    },
                    Some(v) => v.clone(),
                };
                match resolved {
                    Value::Sequence(_) => {
                        proof {
                            assert(render_nodes(rem, scope_pre, renames@, depth as int) == Err::<
                                (Seq<char>, Map<Seq<char>, Val>),
                                RenderError,
                            >(RenderError::ExpectedScalar));
                        }
                        return Err(RenderError::ExpectedScalar);
                    },
                    Value::Scalar(text) => {
                        proof {
                            assert(value_view(Value::Scalar(text)) == Val::Scalar(text@));
                        }
                        out.append(text.as_str());
                        match alias {
                            Some(a) => {
                                cur.set(a.clone(), Value::Scalar(text));
                            },
                            None => {},
                        }
                        idx = idx + 1;
                        proof {
                            assert(render_nodes(rem, scope_pre, renames@, depth as int)
                                == prepend_scoped(
                                text@,
                                render_nodes(rem.drop_first(), cur@, renames@, depth as int),
                            ));
                            lemma_prepend_scoped(
                                out_pre,
                                text@,
                                render_nodes(rem.drop_first(), cur@, renames@, depth as int),
                            );
                        }
                    },
                }
            },
            QuoteToken::HiddenVariable(name, alias) => {
                proof {
                    assert(rem[0] == Node::HiddenVariable(name@, opt_view(*alias)));
                }
                let actual: &String = match renames.get(name) {
                    Some(a) => a,
                    None => name,
                };
                let resolved: Value = match cur.get(actual) {
                    None => {
                        proof {
                            assert(render_nodes(rem, scope_pre, renames@, depth as int) == Err::<
                                (Seq<char>, Map<Seq<char>, Val>),
                                RenderError,
                            >(RenderError::MissingBinding));
                        }
                        return Err(RenderError::MissingBinding);
                    },
                    Some(v) => v.clone(),
                };
                match alias {
                    Some(a) => {
                        let is_discard = a.unicode_len() == 1 && a.get_char(0) == '_';
                        proof {
                            if a@.len() == 1 && a@[0] == '_' {
                                assert(a@ =~= seq!['_']);
                            }
                            if a@ == seq!['_'] {
                                assert(a@.len() == 1 && a@[0] == '_');
                            }
                        }
                        if !is_discard {
                            cur.set(a.clone(), resolved);
                        }
                    },
                    None => {},
                }
                idx = idx + 1;
                proof {
                    assert(render_nodes(rem, scope_pre, renames@, depth as int) == render_nodes(
                        rem.drop_first(),
                        cur@,
                        renames@,
                        depth as int,
                    ));
                }
            },
            QuoteToken::Group(children, sep) => {
                proof {
                    assert(rem[0] == Node::Group(tokens_view(children@), opt_view(*sep)));
                    lemma_nodes_size_element(all, idx as int);
                    assert(node_size(all[idx as int]) == 1 + nodes_size(tokens_view(children@)));
                }
                match render_group(children, sep, &cur, renames, depth + 1) {
                    Err(e) => {
                        proof {
                            assert(render_nodes(rem, scope_pre, renames@, depth as int) == Err::<
                                (Seq<char>, Map<Seq<char>, Val>),
                                RenderError,
                            >(e));
                        }
                        return Err(e);
                    },
                    Ok(text) => {
                        proof {
                            assert(render_nodes(rem, scope_pre, renames@, depth as int)
                                == prepend_scoped(
                                text@,
                                render_nodes(rem.drop_first(), scope_pre, renames@, depth as int),
                            ));
                            lemma_prepend_scoped(
                                out_pre,
                                text@,
                                render_nodes(rem.drop_first(), scope_pre, renames@, depth as int),
                            );
                        }
                        out.append(text.as_str());
                        idx = idx + 1;
                    },
                }
            },
        }
    }
}

/// Renders a group under a scope and the enclosing rename map: the lanes
/// resolve to sequences, the body iterates as many times as the shortest
/// lane is long with the separator between iterations, under the rename
/// map extended with this group's lanes, and the outer scope is read,
/// never changed.
pub fn render_group(
    children: &Vec<QuoteToken>,
    sep: &Option<String>,
    scope: &Env,
    renames: &Renames,
    depth: usize,
) -> (res: Result<String, RenderError>)
    ensures
        rg_res_view(res) == render_group_spec(
            tokens_view(children@),
            opt_view(*sep),
            scope@,
            renames@,
            depth as int,
        ),
    decreases nodes_size(tokens_view(children@)), 1int,
{
    if depth > MAX_NESTING_DEPTH {
        return Err(RenderError::TooDeeplyNested);
    }
    let ghost cv = tokens_view(children@);
    let ghost lanes_v = group_lanes(cv);
    let lanes = get_variable_names(children);
    proof {
        lemma_pairs_view(lanes@);
    }
    if lanes.len() == 0 {
        return Err(RenderError::GroupWithoutVariables);
    }
    // Refuse a group whose lanes share an alias: their bindings would
    // collide silently.
    let mut j0: usize = 1;
    while j0 < lanes.len()
        invariant
            depth <= MAX_NESTING_DEPTH,
            cv == tokens_view(children@),
            lanes_v == group_lanes(cv),
            lanes_v == pairs_view(lanes@),
            lanes_v.len() == lanes@.len(),
            lanes_v.len() > 0,
            forall|t: int| 0 <= t < lanes@.len() ==> lanes_v[t] == (lanes@[t].0@, lanes@[t].1@),
            1 <= j0 <= lanes@.len(),
            forall|p: int, q: int|
                0 <= p < q < j0 ==> (#[trigger] lanes_v[p].1) != (#[trigger] lanes_v[q].1),
        decreases lanes@.len() - j0,
    {
        let mut k0: usize = 0;
        while k0 < j0
            invariant
                depth <= MAX_NESTING_DEPTH,
                cv == tokens_view(children@),
                lanes_v == group_lanes(cv),
                lanes_v == pairs_view(lanes@),
                lanes_v.len() == lanes@.len(),
                lanes_v.len() > 0,
                forall|t: int| 0 <= t < lanes@.len() ==> lanes_v[t] == (lanes@[t].0@, lanes@[t].1@),
                1 <= j0 < lanes@.len(),
                k0 <= j0,
                forall|p: int| 0 <= p < k0 ==> (#[trigger] lanes_v[p].1) != lanes_v[j0 as int].1,
            decreases j0 - k0,
        {
            if lanes[k0].1.eq(&lanes[j0].1) {
                proof {
                    assert(lanes_v[k0 as int].1 == lanes_v[j0 as int].1);
                    assert(!distinct_aliases(lanes_v));
                }
                return Err(RenderError::ConflictingAliases);
            }
            k0 = k0 + 1;
        }
        j0 = j0 + 1;
    }
    proof {
        assert(distinct_aliases(lanes_v));
    }
    // Resolve every lane to a sequence, in lane order.
    let mut seqs: Vec<Vec<Value>> = Vec::new();
    let mut j: usize = 0;
    proof {
        assert(lanes_v.skip(0) =~= lanes_v);
    }
    while j < lanes.len()
        invariant
            depth <= MAX_NESTING_DEPTH,
            cv == tokens_view(children@),
            lanes_v == group_lanes(cv),
            distinct_aliases(lanes_v),
            j <= lanes@.len(),
            lanes_v == pairs_view(lanes@),
            lanes_v.len() == lanes@.len(),
            lanes_v.len() > 0,
            forall|t: int| 0 <= t < lanes@.len() ==> lanes_v[t] == (lanes@[t].0@, lanes@[t].1@),
            seqs@.len() == j,
            lane_seqs_view(seqs@).len() == j,
            match resolve_lanes(lanes_v.skip(j as int), scope@) {
                Ok(rest) => resolve_lanes(lanes_v, scope@) == Ok::<Seq<Seq<Val>>, RenderError>(
                    lane_seqs_view(seqs@) + rest,
                ),
                Err(e) => resolve_lanes(lanes_v, scope@) == Err::<Seq<Seq<Val>>, RenderError>(e),
            },
        decreases lanes@.len() - j,
    {
        let ghost lrem = lanes_v.skip(j as int);
        proof {
            assert(lrem[0] == lanes_v[j as int]);
            assert(lrem.drop_first() =~= lanes_v.skip(j as int + 1));
            lemma_lane_seqs_view(seqs@);
        }
        let name = &lanes[j].0;
        let resolved: Value = match scope.get(name) {
            None => {
                proof {
                    assert(resolve_lanes(lrem, scope@) == Err::<Seq<Seq<Val>>, RenderError>(
                        RenderError::MissingBinding,
                    ));
                }
                return Err(RenderError::MissingBinding);
            },
            Some(v) => v.clone(),
        };
        let ghost rv = value_view(resolved);
        match resolved {
            Value::Scalar(_) => {
                proof {
                    assert(resolve_lanes(lrem, scope@) == Err::<Seq<Seq<Val>>, RenderError>(
                        RenderError::ExpectedSequence,
                    ));
                }
                return Err(RenderError::ExpectedSequence);
            },
            Value::Sequence(items) => {
                let ghost lsv0 = lane_seqs_view(seqs@);
                let ghost iv = values_view(items@);
                proof {
                    assert(rv == Val::Sequence(iv));
                    lemma_lane_seqs_view_push(seqs@, items);
                }
                seqs.push(items);
                proof {
                    assert(lane_seqs_view(seqs@) == lsv0.push(iv));
                    assert(lsv0.push(iv) =~= lsv0 + seq![iv]);
                    match resolve_lanes(lanes_v.skip(j as int + 1), scope@) {
                        Ok(rest2) => {
                            assert(lsv0 + (seq![iv] + rest2) =~= (lsv0 + seq![iv]) + rest2);
                        },
                        Err(_) => {},
                    }
                }
            },
        }
        j = j + 1;
    }
    proof {
        assert(lanes_v.skip(lanes_v.len() as int) =~= Seq::<(Seq<char>, Seq<char>)>::empty());
        assert(lane_seqs_view(seqs@) + Seq::<Seq<Val>>::empty() =~= lane_seqs_view(seqs@));
    }
    let ghost sv = lane_seqs_view(seqs@);
    // The iteration count: the length of the shortest lane.
    proof {
        lemma_lane_seqs_view(seqs@);
        assert forall|u: int| 0 <= u < seqs@.len() implies sv[u].len() == seqs@[u]@.len() by {
            lemma_values_view(seqs@[u]@);
        }
    }
    let mut n: usize = seqs[0].len();
    let mut t: usize = 1;
    while t < seqs.len()
        invariant
            1 <= t <= seqs@.len(),
            sv == lane_seqs_view(seqs@),
            sv.len() == seqs@.len(),
            forall|u: int| 0 <= u < seqs@.len() ==> sv[u] == values_view(seqs@[u]@),
            forall|u: int| 0 <= u < seqs@.len() ==> sv[u].len() == seqs@[u]@.len(),
            min_len_from(sv, 1, sv[0].len() as int) == min_len_from(sv, t as int, n as int),
        decreases seqs@.len() - t,
    {
        proof {
            lemma_values_view(seqs@[t as int]@);
        }
        if seqs[t].len() < n {
            n = seqs[t].len();
        }
        t = t + 1;
    }
    let ghost nn = if sv.len() == 0 { 0int } else { min_lanes_len(sv) };
    proof {
        assert(nn == n as int);
        lemma_min_len_from(sv, 1, sv[0].len() as int);
    }
    // The rename map: the enclosing one, extended with each lane's name to
    // its alias.
    let mut rn = renames.duplicate();
    let mut j2: usize = 0;
    while j2 < lanes.len()
        invariant
            j2 <= lanes@.len(),
            lanes_v == pairs_view(lanes@),
            lanes_v.len() == lanes@.len(),
            forall|u: int| 0 <= u < lanes@.len() ==> lanes_v[u] == (lanes@[u].0@, lanes@[u].1@),
            renames_from(lanes_v, j2 as int, rn@) == renames_from(lanes_v, 0, renames@),
        decreases lanes@.len() - j2,
    {
        rn.set(lanes[j2].0.clone(), lanes[j2].1.clone());
        j2 = j2 + 1;
    }
    // Iterate in lockstep, separator after every iteration except the last.
    let mut out = String::new();
    let mut i: usize = 0;
    proof {
        lemma_prepend_text_empty(
            render_iters(cv, lanes_v, sv, opt_view(*sep), scope@, renames@, depth as int, 0, nn),
        );
    }
    while i < n
        invariant
            depth <= MAX_NESTING_DEPTH,
            i <= n,
            nn == n as int,
            cv == tokens_view(children@),
            lanes_v == group_lanes(cv),
            lanes_v.len() > 0,
            resolve_lanes(lanes_v, scope@) == Ok::<Seq<Seq<Val>>, RenderError>(sv),
            nn == if sv.len() == 0 { 0int } else { min_lanes_len(sv) },
            lanes_v == pairs_view(lanes@),
            lanes_v.len() == lanes@.len(),
            forall|u: int| 0 <= u < lanes@.len() ==> lanes_v[u] == (lanes@[u].0@, lanes@[u].1@),
            sv == lane_seqs_view(seqs@),
            sv.len() == seqs@.len(),
            seqs@.len() == lanes@.len(),
            forall|u: int| 0 <= u < seqs@.len() ==> sv[u] == values_view(seqs@[u]@),
            forall|u: int| 0 <= u < seqs@.len() ==> sv[u].len() == seqs@[u]@.len(),
            forall|u: int| 0 <= u < sv.len() ==> nn <= sv[u].len(),
            distinct_aliases(lanes_v),
            rn@ == renames_from(lanes_v, 0, renames@),
            render_iters(cv, lanes_v, sv, opt_view(*sep), scope@, renames@, depth as int, 0, nn)
                == prepend_text(
                out@,
                render_iters(cv, lanes_v, sv, opt_view(*sep), scope@, renames@, depth as int,
                    i as int, nn),
            ),
        decreases n - i,
    {
        let ghost out_pre = out@;
        // The scope of this iteration: the base scope with each lane's
        // alias bound to that lane's current element.
        let mut iter_scope = scope.duplicate();
        let mut j3: usize = 0;
        while j3 < lanes.len()
            invariant
                i < n,
                nn == n as int,
                j3 <= lanes@.len(),
                lanes_v == pairs_view(lanes@),
                lanes_v.len() == lanes@.len(),
                forall|u: int| 0 <= u < lanes@.len() ==> lanes_v[u] == (lanes@[u].0@, lanes@[u].1@),
                sv == lane_seqs_view(seqs@),
                sv.len() == seqs@.len(),
                seqs@.len() == lanes@.len(),
                forall|u: int| 0 <= u < seqs@.len() ==> sv[u] == values_view(seqs@[u]@),
                forall|u: int| 0 <= u < seqs@.len() ==> sv[u].len() == seqs@[u]@.len(),
                forall|u: int| 0 <= u < sv.len() ==> nn <= sv[u].len(),
                overlay_from(scope@, lanes_v, sv, i as int, 0) == overlay_from(
                    iter_scope@,
                    lanes_v,
                    sv,
                    i as int,
                    j3 as int,
                ),
            decreases lanes@.len() - j3,
        {
            proof {
                lemma_values_view(seqs@[j3 as int]@);
            }
            let element = seqs[j3][i].clone();
            proof {
                assert(value_view(element) == sv[j3 as int][i as int]);
            }
            iter_scope.set(lanes[j3].1.clone(), element);
            j3 = j3 + 1;
        }
        proof {
            assert(overlay_from(iter_scope@, lanes_v, sv, i as int, lanes_v.len() as int)
                == iter_scope@);
            assert(overlay_from(scope@, lanes_v, sv, i as int, 0) == iter_scope@);
        }
        match render_tokens(children, iter_scope, &rn, depth) {
            Err(e) => {
                proof {
                    assert(render_iters(cv, lanes_v, sv, opt_view(*sep), scope@, renames@,
                        depth as int, i as int, nn) == Err::<Seq<char>, RenderError>(e));
                }
                return Err(e);
            },
            Ok((text, _)) => {
                let ghost sep_part: Seq<char> = if i + 1 < n {
                    match opt_view(*sep) {
                        Some(sp) => sp,
                        None => Seq::<char>::empty(),
                    }
                } else {
                    Seq::<char>::empty()
                };
                out.append(text.as_str());
                if i + 1 < n {
                    match sep {
                        Some(sp) => {
                            out.append(sp.as_str());
                        },
                        None => {},
                    }
                }
                proof {
                    assert(out@ =~= out_pre + (text@ + sep_part));
                    assert(render_iters(cv, lanes_v, sv, opt_view(*sep), scope@, renames@,
                        depth as int, i as int, nn) == prepend_text(
                        text@ + sep_part,
                        render_iters(cv, lanes_v, sv, opt_view(*sep), scope@, renames@,
                            depth as int, i as int + 1, nn),
                    ));
                    lemma_prepend_text(
                        out_pre,
                        text@ + sep_part,
                        render_iters(cv, lanes_v, sv, opt_view(*sep), scope@, renames@,
                            depth as int, i as int + 1, nn),
                    );
                }
                i = i + 1;
            },
        }
    }
    proof {
        assert(render_iters(cv, lanes_v, sv, opt_view(*sep), scope@, renames@, depth as int,
            n as int, nn) == Ok::<Seq<char>, RenderError>(Seq::empty()));
        assert(out@ + Seq::<char>::empty() =~= out@);
    }
    Ok(out)
}

/// Renders a parsed template against an environment: the scope starts as
/// the environment's bindings, no renames apply at top level, and the
/// environment itself is never changed.
pub fn render(tokens: &Vec<QuoteToken>, env: &Env) -> (res: Result<String, RenderError>)
    ensures
        rg_res_view(res) == render_spec(tokens_view(tokens@), env@),
{
    let scope = env.duplicate();
    let rn = Renames::new();
    match render_tokens(tokens, scope, &rn, 0) {
        Err(e) => Err(e),
        Ok((out, _)) => Ok(out),
    }
}

} // verus!
