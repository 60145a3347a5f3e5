//! Statements and scopes: the unit of query evaluation.
//!
//! A statement is a verb (which symbols to select) plus a scope (how a
//! nested statement tree narrows the selection). A scope is either empty —
//! its combination is the identity — or a block of nested statements; the
//! connecting rule of a statement-bearing scope is a direct graph edge (a
//! zero-intermediate path) from an outer match to a scope match.

use vstd::prelude::*;
use crate::cfg::{pairs_view, targets_of, ControlFlowGraph, EdgeList, NodeList};
use crate::symbols::{entries_map, ids_view, SymbolId, SymbolV};
use crate::verb::{verb_matches, verb_matches_absent, Verb};

verus! {

broadcast use vstd::std_specs::vec::group_vec_axioms;

/// How to recurse into a nested query and combine its result with an outer
/// match set: the empty scope, or a block of nested statements.
#[derive(Debug)]
pub enum Scope {
    Empty,
    Block(Vec<DefaultStatement>),
}

/// One (verb, scope) evaluation unit; a full query is a tree of these.
#[derive(Debug)]
pub struct DefaultStatement {
    pub verb: Verb,
    pub scope: Scope,
}

/// The mathematical content of a [`Scope`]: empty, or the contents of its
/// nested statements.
pub enum ScopeV {
    Empty,
    Block(Seq<StmtV>),
}

/// The mathematical content of a [`DefaultStatement`].
pub struct StmtV {
    pub verb: crate::verb::VerbV,
    pub scope: ScopeV,
}

/// The content of a statement: its verb's and its scope's.
pub open spec fn stmt_view(s: DefaultStatement) -> StmtV
    decreases s, 0int,
{
    StmtV { verb: crate::verb::verb_view(s.verb), scope: scope_view(s.scope) }
}

/// The content of a scope.
pub open spec fn scope_view(sc: Scope) -> ScopeV
    decreases sc, 0int,
{
    match sc {
        Scope::Empty => ScopeV::Empty,
        Scope::Block(ss) => ScopeV::Block(stmts_view(ss@)),
    }
}

/// The contents of a sequence of statements, in order.
pub open spec fn stmts_view(ss: Seq<DefaultStatement>) -> Seq<StmtV>
    decreases ss, 0int,
{
    if ss.len() == 0 {
        Seq::empty()
    } else {
        stmts_view(ss.drop_last()).push(stmt_view(ss.last()))
    }
}

/// The ids of the store entries a verb accepts, in store order.
pub open spec fn matched_ids(entries: Seq<(Seq<char>, SymbolV)>, v: Verb) -> Seq<Seq<char>>
    decreases entries.len(),
{
    if entries.len() == 0 {
        Seq::empty()
    } else {
        let rest = matched_ids(entries.drop_last(), v);
        if verb_matches(v, entries.last().1) {
            rest.push(entries.last().0)
        } else {
            rest
        }
    }
}

pub proof fn lemma_matched_ids_take_step(entries: Seq<(Seq<char>, SymbolV)>, v: Verb, i: int)
    requires
        0 <= i < entries.len(),
    ensures
        matched_ids(entries.take(i + 1), v) == if verb_matches(v, entries[i].1) {
            matched_ids(entries.take(i), v).push(entries[i].0)
        } else {
            matched_ids(entries.take(i), v)
        },
{
    assert(entries.take(i + 1).drop_last() =~= entries.take(i));
    assert(entries.take(i + 1).last() == entries[i]);
}

/// The match-all verb keeps every entry: a store of N symbols yields all N
/// ids as outer matches.
pub proof fn lemma_all_verb_matches_every(entries: Seq<(Seq<char>, SymbolV)>)
    ensures
        matched_ids(entries, Verb::All) == crate::symbols::keys_of(entries),
    decreases entries.len(),
{
    if entries.len() > 0 {
        lemma_all_verb_matches_every(entries.drop_last());
        assert(crate::symbols::keys_of(entries.drop_last()) =~= crate::symbols::keys_of(
            entries,
        ).drop_last());
        assert(matched_ids(entries, Verb::All) =~= crate::symbols::keys_of(entries));
    } else {
        assert(matched_ids(entries, Verb::All) =~= crate::symbols::keys_of(entries));
    }
}

/// Is `o` connected by a direct edge to some scope match in `sn`?
pub open spec fn is_connected(
    es: Set<(Seq<char>, Seq<char>)>,
    o: Seq<char>,
    sn: Seq<Seq<char>>,
) -> bool {
    exists|j: int| 0 <= j < sn.len() && es.contains((o, #[trigger] sn[j]))
}

/// The connecting edges from `o` to the scope matches it reaches, in scope
/// match order.
pub open spec fn connect_targets(
    es: Set<(Seq<char>, Seq<char>)>,
    o: Seq<char>,
    sn: Seq<Seq<char>>,
) -> Seq<(Seq<char>, Seq<char>)>
    decreases sn.len(),
{
    if sn.len() == 0 {
        Seq::empty()
    } else {
        let rest = connect_targets(es, o, sn.drop_last());
        if es.contains((o, sn.last())) {
            rest.push((o, sn.last()))
        } else {
            rest
        }
    }
}

pub proof fn lemma_connect_targets_take_step(
    es: Set<(Seq<char>, Seq<char>)>,
    o: Seq<char>,
    sn: Seq<Seq<char>>,
    j: int,
)
    requires
        0 <= j < sn.len(),
    ensures
        connect_targets(es, o, sn.take(j + 1)) == if es.contains((o, sn[j])) {
            connect_targets(es, o, sn.take(j)).push((o, sn[j]))
        } else {
            connect_targets(es, o, sn.take(j))
        },
{
    assert(sn.take(j + 1).drop_last() =~= sn.take(j));
    assert(sn.take(j + 1).last() == sn[j]);
}

/// The outer matches that reach some scope match, in outer order.
pub open spec fn connect_nodes(
    es: Set<(Seq<char>, Seq<char>)>,
    outer: Seq<Seq<char>>,
    sn: Seq<Seq<char>>,
) -> Seq<Seq<char>>
    decreases outer.len(),
{
    if outer.len() == 0 {
        Seq::empty()
    } else {
        let rest = connect_nodes(es, outer.drop_last(), sn);
        if is_connected(es, outer.last(), sn) {
            rest.push(outer.last())
        } else {
            rest
        }
    }
}

/// All connecting edges, grouped by outer match in outer order.
pub open spec fn connect_edges(
    es: Set<(Seq<char>, Seq<char>)>,
    outer: Seq<Seq<char>>,
    sn: Seq<Seq<char>>,
) -> Seq<(Seq<char>, Seq<char>)>
    decreases outer.len(),
{
    if outer.len() == 0 {
        Seq::empty()
    } else {
        connect_edges(es, outer.drop_last(), sn) + connect_targets(es, outer.last(), sn)
    }
}

pub proof fn lemma_connect_take_step(
    es: Set<(Seq<char>, Seq<char>)>,
    outer: Seq<Seq<char>>,
    sn: Seq<Seq<char>>,
    i: int,
)
    requires
        0 <= i < outer.len(),
    ensures
        connect_nodes(es, outer.take(i + 1), sn) == if is_connected(es, outer[i], sn) {
            connect_nodes(es, outer.take(i), sn).push(outer[i])
        } else {
            connect_nodes(es, outer.take(i), sn)
        },
        connect_edges(es, outer.take(i + 1), sn) == connect_edges(es, outer.take(i), sn)
            + connect_targets(es, outer[i], sn),
{
    assert(outer.take(i + 1).drop_last() =~= outer.take(i));
    assert(outer.take(i + 1).last() == outer[i]);
}

/// The combination rule. The empty scope is the identity: the outer matches
/// come back untouched and no edges are contributed, whatever the scope
/// matches are. A statement-bearing scope keeps the outer matches with a
/// direct edge to some scope match and reports those edges.
pub open spec fn spec_combine(
    sc: Scope,
    es: Set<(Seq<char>, Seq<char>)>,
    outer: Seq<Seq<char>>,
    sn: Seq<Seq<char>>,
) -> (Seq<Seq<char>>, Seq<(Seq<char>, Seq<char>)>) {
    match sc {
        Scope::Empty => (outer, Seq::empty()),
        Scope::Block(_) => (connect_nodes(es, outer, sn), connect_edges(es, outer, sn)),
    }
}

/// Top-level evaluation of a statement: filter every symbol through the
/// verb, evaluate the scope independently, combine, and extend the
/// combination's edges with the scope's own.
pub open spec fn spec_stmt_run(s: DefaultStatement, g: &ControlFlowGraph) -> (
    Seq<Seq<char>>,
    Seq<(Seq<char>, Seq<char>)>,
)
    decreases s,
{
    let outer = matched_ids(g.sym_seq(), s.verb);
    let sres = spec_scope_run(s.scope, g);
    let cres = spec_combine(s.scope, g.edge_set(), outer, sres.0);
    (cres.0, cres.1 + sres.1)
}

/// Evaluation of a scope's own statement tree against the whole graph.
pub open spec fn spec_scope_run(sc: Scope, g: &ControlFlowGraph) -> (
    Seq<Seq<char>>,
    Seq<(Seq<char>, Seq<char>)>,
)
    decreases sc,
{
    match sc {
        Scope::Empty => (Seq::empty(), Seq::empty()),
        Scope::Block(ss) => spec_block_run(ss@, g),
    }
}

/// Evaluation of a block of statements: results concatenated in order.
pub open spec fn spec_block_run(ss: Seq<DefaultStatement>, g: &ControlFlowGraph) -> (
    Seq<Seq<char>>,
    Seq<(Seq<char>, Seq<char>)>,
)
    decreases ss,
{
    if ss.len() == 0 {
        (Seq::empty(), Seq::empty())
    } else {
        let rest = spec_block_run(ss.drop_last(), g);
        let last = spec_stmt_run(ss.last(), g);
        (rest.0 + last.0, rest.1 + last.1)
    }
}

pub proof fn lemma_block_run_take_step(ss: Seq<DefaultStatement>, g: &ControlFlowGraph, i: int)
    requires
        0 <= i < ss.len(),
    ensures
        spec_block_run(ss.take(i + 1), g).0 == spec_block_run(ss.take(i), g).0 + spec_stmt_run(
            ss[i],
            g,
        ).0,
        spec_block_run(ss.take(i + 1), g).1 == spec_block_run(ss.take(i), g).1 + spec_stmt_run(
            ss[i],
            g,
        ).1,
{
    assert(ss.take(i + 1).drop_last() =~= ss.take(i));
    assert(ss.take(i + 1).last() == ss[i]);
}

/// Does the verb accept the node `c`? An id without a stored record has no
/// attributes: only the match-all verb accepts it.
pub open spec fn child_accepted(m: Map<Seq<char>, SymbolV>, v: Verb, c: Seq<char>) -> bool {
    if m.contains_key(c) {
        verb_matches(v, m[c])
    } else {
        verb_matches_absent(v)
    }
}

/// The children a verb accepts, in graph successor order.
pub open spec fn filter_accepted(
    m: Map<Seq<char>, SymbolV>,
    v: Verb,
    kids: Seq<Seq<char>>,
) -> Seq<Seq<char>>
    decreases kids.len(),
{
    if kids.len() == 0 {
        Seq::empty()
    } else {
        let rest = filter_accepted(m, v, kids.drop_last());
        if child_accepted(m, v, kids.last()) {
            rest.push(kids.last())
        } else {
            rest
        }
    }
}

pub proof fn lemma_filter_accepted_take_step(
    m: Map<Seq<char>, SymbolV>,
    v: Verb,
    kids: Seq<Seq<char>>,
    i: int,
)
    requires
        0 <= i < kids.len(),
    ensures
        filter_accepted(m, v, kids.take(i + 1)) == if child_accepted(m, v, kids[i]) {
            filter_accepted(m, v, kids.take(i)).push(kids[i])
        } else {
            filter_accepted(m, v, kids.take(i))
        },
{
    assert(kids.take(i + 1).drop_last() =~= kids.take(i));
    assert(kids.take(i + 1).last() == kids[i]);
}

/// Parent-scoped evaluation of a statement: the verb filter runs over the
/// children of `parent` rather than the whole graph, and the scope recurses
/// per matched child, results accumulated in order.
pub open spec fn spec_stmt_find(s: DefaultStatement, g: &ControlFlowGraph, parent: Seq<char>) -> (
    Seq<Seq<char>>,
    Seq<(Seq<char>, Seq<char>)>,
)
    decreases s, 0int,
{
    let kids = filter_accepted(
        entries_map(g.sym_seq()),
        s.verb,
        targets_of(g.edge_seq(), parent),
    );
    spec_scope_find_all(s.scope, g, kids)
}

/// Parent-scoped evaluation of a scope at one node: the empty scope yields
/// the node itself; a block accumulates each nested statement's result.
pub open spec fn spec_scope_find(sc: Scope, g: &ControlFlowGraph, node: Seq<char>) -> (
    Seq<Seq<char>>,
    Seq<(Seq<char>, Seq<char>)>,
)
    decreases sc, 0int,
{
    match sc {
        Scope::Empty => (seq![node], Seq::empty()),
        Scope::Block(ss) => spec_block_find(ss@, g, node),
    }
}

pub open spec fn spec_scope_find_all(sc: Scope, g: &ControlFlowGraph, kids: Seq<Seq<char>>) -> (
    Seq<Seq<char>>,
    Seq<(Seq<char>, Seq<char>)>,
)
    decreases sc, kids.len() + 1,
{
    if kids.len() == 0 {
        (Seq::empty(), Seq::empty())
    } else {
        let rest = spec_scope_find_all(sc, g, kids.drop_last());
        let one = spec_scope_find(sc, g, kids.last());
        (rest.0 + one.0, rest.1 + one.1)
    }
}

pub open spec fn spec_block_find(ss: Seq<DefaultStatement>, g: &ControlFlowGraph, node: Seq<char>) -> (
    Seq<Seq<char>>,
    Seq<(Seq<char>, Seq<char>)>,
)
    decreases ss, 0int,
{
    if ss.len() == 0 {
        (Seq::empty(), Seq::empty())
    } else {
        let rest = spec_block_find(ss.drop_last(), g, node);
        let one = spec_stmt_find(ss.last(), g, node);
        (rest.0 + one.0, rest.1 + one.1)
    }
}

pub proof fn lemma_scope_find_all_take_step(
    sc: Scope,
    g: &ControlFlowGraph,
    kids: Seq<Seq<char>>,
    i: int,
)
    requires
        0 <= i < kids.len(),
    ensures
        spec_scope_find_all(sc, g, kids.take(i + 1)).0 == spec_scope_find_all(
            sc,
            g,
            kids.take(i),
        ).0 + spec_scope_find(sc, g, kids[i]).0,
        spec_scope_find_all(sc, g, kids.take(i + 1)).1 == spec_scope_find_all(
            sc,
            g,
            kids.take(i),
        ).1 + spec_scope_find(sc, g, kids[i]).1,
{
    assert(kids.take(i + 1).drop_last() =~= kids.take(i));
    assert(kids.take(i + 1).last() == kids[i]);
}

pub proof fn lemma_block_find_take_step(
    ss: Seq<DefaultStatement>,
    g: &ControlFlowGraph,
    node: Seq<char>,
    i: int,
)
    requires
        0 <= i < ss.len(),
    ensures
        spec_block_find(ss.take(i + 1), g, node).0 == spec_block_find(ss.take(i), g, node).0
            + spec_stmt_find(ss[i], g, node).0,
        spec_block_find(ss.take(i + 1), g, node).1 == spec_block_find(ss.take(i), g, node).1
            + spec_stmt_find(ss[i], g, node).1,
{
    assert(ss.take(i + 1).drop_last() =~= ss.take(i));
    assert(ss.take(i + 1).last() == ss[i]);
}

impl Scope {
    /// Evaluates this scope's nested statement tree against the entire
    /// graph, independent of any outer match set. The empty scope returns
    /// nothing.
    pub fn run(&self, cfg: &ControlFlowGraph) -> (r: (NodeList, EdgeList))
        requires
            cfg.wf(),
        ensures
            (r.0@, r.1@) == spec_scope_run(*self, cfg),
        decreases *self,
    {
        match self {
            Scope::Empty => (NodeList(Vec::new()), EdgeList(Vec::new())),
            Scope::Block(ss) => {
                let mut nodes: Vec<SymbolId> = Vec::new();
                let mut edges: Vec<(SymbolId, SymbolId)> = Vec::new();
                let n = ss.len();
                let mut i: usize = 0;
                while i < n
                    invariant
                        i <= n,
                        n == ss@.len(),
                        cfg.wf(),
                        *self == Scope::Block(*ss),
                        (ids_view(nodes@), pairs_view(edges@)) == spec_block_run(
                            ss@.take(i as int),
                            cfg,
                        ),
                    decreases n - i,
                {
                    proof {
                        assert(*self == Scope::Block(*ss));
                        assert(decreases_to!(*self => self->Block_0));
                        assert(decreases_to!(*self => *ss));
                        assert(decreases_to!(*ss => ss@));
                        assert(decreases_to!(ss@ => ss@[i as int]));
                    }
                    let (mut sn, mut se) = ss[i].run(cfg);
                    proof {
                        lemma_block_run_take_step(ss@, cfg, i as int);
                    }
                    let ghost nodes_prev = nodes@;
                    let ghost edges_prev = edges@;
                    let ghost snv = sn@;
                    let ghost sev = se@;
                    nodes.append(&mut sn.0);
                    edges.append(&mut se.0);
                    proof {
                        assert(ids_view(nodes@) =~= ids_view(nodes_prev) + snv);
                        assert(pairs_view(edges@) =~= pairs_view(edges_prev) + sev);
                    }
                    i = i + 1;
                }
                proof {
                    assert(ss@.take(n as int) =~= ss@);
                }
                (NodeList(nodes), EdgeList(edges))
            },
        }
    }

    /// Folds an outer match set together with this scope's match set. The
    /// empty scope's combination is the identity: the outer matches come
    /// back unchanged with no edges, regardless of the scope matches.
    pub fn combine(
        &self,
        cfg: &ControlFlowGraph,
        outer: NodeList,
        scope_matches: NodeList,
    ) -> (r: (NodeList, EdgeList))
        requires
            cfg.wf(),
        ensures
            (r.0@, r.1@) == spec_combine(*self, cfg.edge_set(), outer@, scope_matches@),
            (*self) is Empty ==> r.0@ == outer@ && r.1@.len() == 0,
    {
        match self {
            Scope::Empty => (outer, EdgeList(Vec::new())),
            Scope::Block(_) => {
                let ghost es = cfg.edge_set();
                let ghost snv = scope_matches@;
                let mut nodes: Vec<SymbolId> = Vec::new();
                let mut edges: Vec<(SymbolId, SymbolId)> = Vec::new();
                let n = outer.0.len();
                let mut i: usize = 0;
                while i < n
                    invariant
                        i <= n,
                        n == outer@.len(),
                        cfg.wf(),
                        es == cfg.edge_set(),
                        snv == scope_matches@,
                        ids_view(nodes@) == connect_nodes(es, outer@.take(i as int), snv),
                        pairs_view(edges@) == connect_edges(es, outer@.take(i as int), snv),
                    decreases n - i,
                {
                    let o = &outer.0[i];
                    proof {
                        assert(outer@[i as int] == o@);
                        lemma_connect_take_step(es, outer@, snv, i as int);
                    }
                    let m = scope_matches.0.len();
                    let mut j: usize = 0;
                    let mut connected = false;
                    while j < m
                        invariant
                            j <= m,
                            m == snv.len(),
                            cfg.wf(),
                            es == cfg.edge_set(),
                            snv == scope_matches@,
                            outer@[i as int] == o@,
                            connected == exists|jj: int|
                                0 <= jj < j && es.contains((o@, #[trigger] snv[jj])),
                            pairs_view(edges@) == connect_edges(es, outer@.take(i as int), snv)
                                + connect_targets(es, o@, snv.take(j as int)),
                        decreases m - j,
                    {
                        proof {
                            assert(snv[j as int] == scope_matches.0@[j as int]@);
                            lemma_connect_targets_take_step(es, o@, snv, j as int);
                        }
                        let ghost edges_prev = edges@;
                        if cfg.has_edge(o, &scope_matches.0[j]) {
                            edges.push((o.clone(), scope_matches.0[j].clone()));
                            connected = true;
                            proof {
                                assert(pairs_view(edges@) =~= pairs_view(edges_prev).push(
                                    (o@, snv[j as int]),
                                ));
                                assert(es.contains((o@, snv[j as int])));
                            }
                        } else {
                            proof {
                                if exists|jj: int|
                                    0 <= jj < j + 1 && es.contains((o@, #[trigger] snv[jj])) {
                                    let jj = choose|jj: int|
                                        0 <= jj < j + 1 && es.contains((o@, #[trigger] snv[jj]));
                                    if jj == j {
                                        assert(false || es.contains((o@, snv[j as int])));
                                    }
                                }
                            }
                        }
                        j = j + 1;
                    }
                    proof {
                        assert(snv.take(m as int) =~= snv);
                        assert(connected == is_connected(es, o@, snv));
                    }
                    if connected {
                        let ghost nodes_prev = nodes@;
                        nodes.push(o.clone());
                        proof {
                            assert(ids_view(nodes@) =~= ids_view(nodes_prev).push(o@));
                        }
                    }
                    i = i + 1;
                }
                proof {
                    assert(outer@.take(n as int) =~= outer@);
                }
                (NodeList(nodes), EdgeList(edges))
            },
        }
    }

    /// Parent-scoped evaluation at one node: the empty scope yields the
    /// node itself; a block accumulates each nested statement's result.
    pub fn find_matches(&self, cfg: &ControlFlowGraph, node: &SymbolId) -> (r: (
        NodeList,
        EdgeList,
    ))
        requires
            cfg.wf(),
        ensures
            (r.0@, r.1@) == spec_scope_find(*self, cfg, node@),
        decreases *self, 0int,
    {
        match self {
            Scope::Empty => {
                let mut one: Vec<SymbolId> = Vec::new();
                one.push(node.clone());
                proof {
                    assert(ids_view(one@) =~= seq![node@]);
                }
                (NodeList(one), EdgeList(Vec::new()))
            },
            Scope::Block(ss) => {
                let mut nodes: Vec<SymbolId> = Vec::new();
                let mut edges: Vec<(SymbolId, SymbolId)> = Vec::new();
                let n = ss.len();
                let mut i: usize = 0;
                while i < n
                    invariant
                        i <= n,
                        n == ss@.len(),
                        cfg.wf(),
                        *self == Scope::Block(*ss),
                        (ids_view(nodes@), pairs_view(edges@)) == spec_block_find(
                            ss@.take(i as int),
                            cfg,
                            node@,
                        ),
                    decreases n - i,
                {
                    proof {
                        assert(*self == Scope::Block(*ss));
                        assert(decreases_to!(*self => self->Block_0));
                        assert(decreases_to!(*self => *ss));
                        assert(decreases_to!(*ss => ss@));
                        assert(decreases_to!(ss@ => ss@[i as int]));
                    }
                    let (mut sn, mut se) = ss[i].find_matches(cfg, node.clone());
                    proof {
                        lemma_block_find_take_step(ss@, cfg, node@, i as int);
                    }
                    let ghost nodes_prev = nodes@;
                    let ghost edges_prev = edges@;
                    let ghost snv = sn@;
                    let ghost sev = se@;
                    nodes.append(&mut sn.0);
                    edges.append(&mut se.0);
                    proof {
                        assert(ids_view(nodes@) =~= ids_view(nodes_prev) + snv);
                        assert(pairs_view(edges@) =~= pairs_view(edges_prev) + sev);
                    }
                    i = i + 1;
                }
                proof {
                    assert(ss@.take(n as int) =~= ss@);
                }
                (NodeList(nodes), EdgeList(edges))
            },
        }
    }
}

impl DefaultStatement {
    /// Top-level evaluation: filter every symbol in the graph through the
    /// verb, evaluate the scope independently, combine via the scope, and
    /// return the combination's edges extended with the scope's own.
    pub fn run(&self, cfg: &ControlFlowGraph) -> (r: (NodeList, EdgeList))
        requires
            cfg.wf(),
        ensures
            (r.0@, r.1@) == spec_stmt_run(*self, cfg),
        decreases *self,
    {
        let entries = cfg.iter_symbols();
        let mut matches: Vec<SymbolId> = Vec::new();
        let n = entries.len();
        let mut i: usize = 0;
        while i < n
            invariant
                i <= n,
                n == cfg.sym_seq().len(),
                entries@.len() == n,
                forall|k: int|
                    0 <= k < n ==> ((#[trigger] entries@[k]).0@, entries@[k].1@)
                        == cfg.sym_seq()[k],
                ids_view(matches@) == matched_ids(cfg.sym_seq().take(i as int), self.verb),
            decreases n - i,
        {
            proof {
                lemma_matched_ids_take_step(cfg.sym_seq(), self.verb, i as int);
            }
            if self.verb.matches(&entries[i].1) {
                let ghost prev = matches@;
                matches.push(entries[i].0.clone());
                proof {
                    assert(ids_view(matches@) =~= ids_view(prev).push(cfg.sym_seq()[i as int].0));
                }
            }
            i = i + 1;
        }
        proof {
            assert(cfg.sym_seq().take(n as int) =~= cfg.sym_seq());
        }
        let (scope_nodes, mut scope_edges) = self.scope.run(cfg);
        let (combined, mut combined_edges) = self.scope.combine(
            cfg,
            NodeList(matches),
            scope_nodes,
        );
        let ghost ce_prev = combined_edges.0@;
        let ghost sev = scope_edges@;
        combined_edges.0.append(&mut scope_edges.0);
        proof {
            assert(pairs_view(combined_edges.0@) =~= pairs_view(ce_prev) + sev);
        }
        (combined, combined_edges)
    }

    /// Parent-scoped evaluation: the verb filter runs over the children of
    /// `parent` rather than the whole graph, and the scope recurses per
    /// matched child, accumulating results.
    pub fn find_matches(&self, cfg: &ControlFlowGraph, parent: SymbolId) -> (r: (
        NodeList,
        EdgeList,
    ))
        requires
            cfg.wf(),
        ensures
            (r.0@, r.1@) == spec_stmt_find(*self, cfg, parent@),
        decreases *self, 0int,
    {
        let ghost m = entries_map(cfg.sym_seq());
        let kids_all = cfg.get_children(&parent);
        let ghost kv = ids_view(kids_all@);
        let mut kids: Vec<SymbolId> = Vec::new();
        let n = kids_all.len();
        let mut i: usize = 0;
        while i < n
            invariant
                i <= n,
                n == kv.len(),
                cfg.wf(),
                m == entries_map(cfg.sym_seq()),
                kv == ids_view(kids_all@),
                ids_view(kids@) == filter_accepted(m, self.verb, kv.take(i as int)),
            decreases n - i,
        {
            proof {
                lemma_filter_accepted_take_step(m, self.verb, kv, i as int);
                assert(kv[i as int] == kids_all@[i as int]@);
            }
            let accepted = match cfg.get_symbol(&kids_all[i]) {
                Some(symbol) => self.verb.matches(symbol),
                None => self.verb.matches_absent(),
            };
            if accepted {
                let ghost prev = kids@;
                kids.push(kids_all[i].clone());
                proof {
                    assert(ids_view(kids@) =~= ids_view(prev).push(kv[i as int]));
                }
            }
            i = i + 1;
        }
        proof {
            assert(kv.take(n as int) =~= kv);
        }
        let mut nodes: Vec<SymbolId> = Vec::new();
        let mut edges: Vec<(SymbolId, SymbolId)> = Vec::new();
        let ghost kidv = ids_view(kids@);
        let kn = kids.len();
        let mut k: usize = 0;
        while k < kn
            invariant
                k <= kn,
                kn == kidv.len(),
                cfg.wf(),
                kidv == ids_view(kids@),
                (ids_view(nodes@), pairs_view(edges@)) == spec_scope_find_all(
                    self.scope,
                    cfg,
                    kidv.take(k as int),
                ),
            decreases kn - k,
        {
            let (mut sn, mut se) = self.scope.find_matches(cfg, &kids[k]);
            proof {
                lemma_scope_find_all_take_step(self.scope, cfg, kidv, k as int);
                assert(kidv[k as int] == kids@[k as int]@);
            }
            let ghost nodes_prev = nodes@;
            let ghost edges_prev = edges@;
            let ghost snv = sn@;
            let ghost sev = se@;
            nodes.append(&mut sn.0);
            edges.append(&mut se.0);
            proof {
                assert(ids_view(nodes@) =~= ids_view(nodes_prev) + snv);
                assert(pairs_view(edges@) =~= pairs_view(edges_prev) + sev);
            }
            k = k + 1;
        }
        proof {
            assert(kidv.take(kn as int) =~= kidv);
        }
        (NodeList(nodes), EdgeList(edges))
    }

    /// The statement's verb capability.
    pub fn verb(&self) -> (r: &Verb)
        ensures
            *r == self.verb,
    {
        &self.verb
    }

    /// The statement's scope capability.
    pub fn scope(&self) -> (r: &Scope)
        ensures
            *r == self.scope,
    {
        &self.scope
    }
}

} // verus!
