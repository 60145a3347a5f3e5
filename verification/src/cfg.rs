//! The symbol graph: a directed graph whose nodes are symbol identities and
//! whose edges are derived from each symbol's relation set, plus bounded
//! enumeration of simple paths.
//!
//! Edge direction: for every symbol `s` and every id `c` in `s.children`,
//! the graph holds the edge `s -> c` (owner to child), and no others.

use vstd::prelude::*;
use crate::seq_distinct;
use crate::symbols::{
    entries_map, ids_view, keys_of, Symbol, SymbolId, SymbolMap, SymbolV,
};
use vstd::set_lib::lemma_len_subset;

verus! {

/// Pushing onto a sequence inserts into the set of its elements.
pub proof fn lemma_to_set_push<A>(s: Seq<A>, x: A)
    ensures
        s.push(x).to_set() == s.to_set().insert(x),
{
    assert forall|y: A| s.push(x).contains(y) implies s.contains(y) || y == x by {
        let i = choose|i: int| 0 <= i < s.push(x).len() && s.push(x)[i] == y;
        if i < s.len() {
            assert(s[i] == y);
        }
    }
    assert forall|y: A| s.contains(y) implies s.push(x).contains(y) by {
        let i = choose|i: int| 0 <= i < s.len() && s[i] == y;
        assert(s.push(x)[i] == y);
    }
    assert(s.push(x)[s.len() as int] == x);
    assert(s.push(x).to_set() =~= s.to_set().insert(x));
}

/// The character-sequence pairs of a sequence of id pairs.
pub open spec fn pairs_view(s: Seq<(SymbolId, SymbolId)>) -> Seq<(Seq<char>, Seq<char>)> {
    s.map_values(|e: (SymbolId, SymbolId)| (e.0@, e.1@))
}

/// The edges derived from a store: one edge from each symbol to each member
/// of its relation set.
pub open spec fn derived_edges(m: Map<Seq<char>, SymbolV>) -> Set<(Seq<char>, Seq<char>)> {
    Set::new(
        |e: (Seq<char>, Seq<char>)| m.contains_key(e.0) && m[e.0].children.contains(e.1),
    )
}

/// The node universe of a store's graph: every stored id, together with
/// every id some relation set mentions (an unknown id is a node with no
/// attributes, reachable only structurally).
pub open spec fn derived_nodes(m: Map<Seq<char>, SymbolV>) -> Set<Seq<char>> {
    m.dom().union(
        Set::new(
            |c: Seq<char>|
                exists|k: Seq<char>| #[trigger]
                    m.contains_key(k) && m[k].children.contains(c),
        ),
    )
}

/// The targets of every edge in `es` whose source is `p`, in edge order.
pub open spec fn targets_of(es: Seq<(Seq<char>, Seq<char>)>, p: Seq<char>) -> Seq<Seq<char>>
    decreases es.len(),
{
    if es.len() == 0 {
        Seq::empty()
    } else {
        let rest = targets_of(es.drop_last(), p);
        if es.last().0 == p {
            rest.push(es.last().1)
        } else {
            rest
        }
    }
}

pub proof fn lemma_targets_of_take_step(es: Seq<(Seq<char>, Seq<char>)>, p: Seq<char>, i: int)
    requires
        0 <= i < es.len(),
    ensures
        targets_of(es.take(i + 1), p) == if es[i].0 == p {
            targets_of(es.take(i), p).push(es[i].1)
        } else {
            targets_of(es.take(i), p)
        },
{
    assert(es.take(i + 1).drop_last() =~= es.take(i));
    assert(es.take(i + 1).last() == es[i]);
}

/// An ordered sequence of matched node identities; the container itself
/// does not deduplicate.
#[derive(Debug)]
pub struct NodeList(pub Vec<SymbolId>);

impl View for NodeList {
    type V = Seq<Seq<char>>;

    open spec fn view(&self) -> Seq<Seq<char>> {
        ids_view(self.0@)
    }
}

/// An ordered sequence of (from, to) node-identity pairs connecting matched
/// nodes.
#[derive(Debug)]
pub struct EdgeList(pub Vec<(SymbolId, SymbolId)>);

impl View for EdgeList {
    type V = Seq<(Seq<char>, Seq<char>)>;

    open spec fn view(&self) -> Seq<(Seq<char>, Seq<char>)> {
        pairs_view(self.0@)
    }
}

/// The symbol graph, built once from a symbol store and never mutated:
/// the store's records for attribute lookup, the node universe, and the
/// derived edges.
#[derive(Debug)]
pub struct ControlFlowGraph {
    symbols: SymbolMap,
    nodes: Vec<SymbolId>,
    edges: Vec<(SymbolId, SymbolId)>,
}

impl ControlFlowGraph {
    /// The store's entries, in iteration order.
    pub closed spec fn sym_seq(&self) -> Seq<(Seq<char>, SymbolV)> {
        self.symbols.seq_view()
    }

    /// The store's mapping from id to symbol content.
    pub open spec fn sym_map(&self) -> Map<Seq<char>, SymbolV> {
        entries_map(self.sym_seq())
    }

    /// The graph's nodes, in construction order.
    pub closed spec fn node_seq(&self) -> Seq<Seq<char>> {
        ids_view(self.nodes@)
    }

    /// The graph's node universe.
    pub open spec fn node_set(&self) -> Set<Seq<char>> {
        self.node_seq().to_set()
    }

    /// The graph's edges, in construction order.
    pub closed spec fn edge_seq(&self) -> Seq<(Seq<char>, Seq<char>)> {
        pairs_view(self.edges@)
    }

    /// The graph's edge set.
    pub open spec fn edge_set(&self) -> Set<(Seq<char>, Seq<char>)> {
        self.edge_seq().to_set()
    }

    /// The graph's representation invariant: a well-formed store, no node
    /// or edge listed twice, and every edge endpoint in the node universe.
    pub closed spec fn wf(&self) -> bool {
        &&& self.symbols.wf()
        &&& seq_distinct(self.node_seq())
        &&& seq_distinct(self.edge_seq())
        &&& forall|i: int|
            0 <= i < self.edge_seq().len() ==> self.node_set().contains(
                (#[trigger] self.edge_seq()[i]).0,
            ) && self.node_set().contains(self.edge_seq()[i].1)
    }

    /// Builds the graph from a store in one pass over every symbol's
    /// relation set. The edge set is exactly the derived one — an edge from
    /// each symbol to each of its children, and no other edges.
    pub fn from_symbols(symbols: SymbolMap) -> (r: Self)
        requires
            symbols.wf(),
        ensures
            r.wf(),
            r.sym_seq() == symbols.seq_view(),
            r.edge_set() == derived_edges(entries_map(symbols.seq_view())),
            r.node_set() == derived_nodes(entries_map(symbols.seq_view())),
    {
        let ghost sv = symbols.seq_view();
        let mut nodes: Vec<SymbolId> = Vec::new();
        let mut edges: Vec<(SymbolId, SymbolId)> = Vec::new();
        {
            let entries = symbols.iter();
            let n = entries.len();
            let mut i: usize = 0;
            while i < n
                invariant
                    i <= n,
                    n == sv.len(),
                    sv == symbols.seq_view(),
                    entries@.len() == n,
                    forall|k: int|
                        0 <= k < n ==> ((#[trigger] entries@[k]).0@, entries@[k].1@) == sv[k],
                    ids_view(nodes@) == keys_of(sv).take(i as int),
                decreases n - i,
            {
                let ghost prev = nodes@;
                nodes.push(entries[i].0.clone());
                proof {
                    assert(ids_view(nodes@) =~= ids_view(prev).push(entries@[i as int].0@));
                    assert(keys_of(sv)[i as int] == sv[i as int].0);
                    assert(ids_view(nodes@) =~= keys_of(sv).take(i + 1));
                }
                i = i + 1;
            }
            proof {
                assert(keys_of(sv).take(n as int) =~= keys_of(sv));
                assert(keys_of(sv).to_set() =~= ids_view(nodes@).to_set());
            }
            let ghost keyset = keys_of(sv).to_set();
            let mut i2: usize = 0;
            while i2 < n
                invariant
                    i2 <= n,
                    n == sv.len(),
                    sv == symbols.seq_view(),
                    entries@.len() == n,
                    forall|k: int|
                        0 <= k < n ==> ((#[trigger] entries@[k]).0@, entries@[k].1@) == sv[k],
                    forall|k: int| 0 <= k < n ==> (#[trigger] entries@[k].1).wf(),
                    seq_distinct(keys_of(sv)),
                    keyset == keys_of(sv).to_set(),
                    seq_distinct(ids_view(nodes@)),
                    seq_distinct(pairs_view(edges@)),
                    forall|k: Seq<char>| keyset.contains(k) ==> ids_view(nodes@).to_set().contains(k),
                    ids_view(nodes@).to_set() =~= keyset.union(
                        Set::new(
                            |c: Seq<char>|
                                exists|k: int|
                                    0 <= k < i2 && (#[trigger] sv[k]).1.children.contains(c),
                        ),
                    ),
                    pairs_view(edges@).to_set() =~= Set::new(
                        |e: (Seq<char>, Seq<char>)|
                            exists|k: int|
                                0 <= k < i2 && (#[trigger] sv[k]).0 == e.0
                                    && sv[k].1.children.contains(e.1),
                    ),
                    forall|q: int|
                        0 <= q < pairs_view(edges@).len() ==> ids_view(nodes@).to_set().contains(
                            (#[trigger] pairs_view(edges@)[q]).0,
                        ) && ids_view(nodes@).to_set().contains(pairs_view(edges@)[q].1),
                decreases n - i2,
            {
                let children = &entries[i2].1.children;
                proof {
                    assert(ids_view(children@).to_set() == sv[i2 as int].1.children);
                }
                let cn = children.len();
                let mut j: usize = 0;
                while j < cn
                    invariant
                        j <= cn,
                        i2 < n,
                        n == sv.len(),
                        sv == symbols.seq_view(),
                        cn == children@.len(),
                        ids_view(children@).to_set() == sv[i2 as int].1.children,
                        seq_distinct(ids_view(children@)),
                        entries@.len() == n,
                        forall|k: int|
                            0 <= k < n ==> ((#[trigger] entries@[k]).0@, entries@[k].1@) == sv[k],
                        seq_distinct(keys_of(sv)),
                        keyset == keys_of(sv).to_set(),
                        seq_distinct(ids_view(nodes@)),
                        seq_distinct(pairs_view(edges@)),
                        forall|k: Seq<char>|
                            keyset.contains(k) ==> ids_view(nodes@).to_set().contains(k),
                        ids_view(nodes@).to_set() =~= keyset.union(
                            Set::new(
                                |c: Seq<char>|
                                    exists|k: int|
                                        0 <= k < i2 && (#[trigger] sv[k]).1.children.contains(c),
                            ),
                        ).union(ids_view(children@).take(j as int).to_set()),
                        pairs_view(edges@).to_set() =~= Set::new(
                            |e: (Seq<char>, Seq<char>)|
                                exists|k: int|
                                    0 <= k < i2 && (#[trigger] sv[k]).0 == e.0
                                        && sv[k].1.children.contains(e.1),
                        ).union(
                            Set::new(
                                |e: (Seq<char>, Seq<char>)|
                                    e.0 == sv[i2 as int].0 && ids_view(children@).take(
                                        j as int,
                                    ).contains(e.1),
                            ),
                        ),
                        forall|q: int|
                            0 <= q < pairs_view(edges@).len() ==> ids_view(
                                nodes@,
                            ).to_set().contains((#[trigger] pairs_view(edges@)[q]).0) && ids_view(
                                nodes@,
                            ).to_set().contains(pairs_view(edges@)[q].1),
                    decreases cn - j,
                {
                    let c = &children[j];
                    proof {
                        assert(ids_view(children@)[j as int] == c@);
                    }
                    let ghost nodes_prev = nodes@;
                    if !crate::symbols::ids_contain(&nodes, c) {
                        nodes.push(c.clone());
                        proof {
                            assert(ids_view(nodes@) =~= ids_view(nodes_prev).push(c@));
                            lemma_to_set_push(ids_view(nodes_prev), c@);
                            assert forall|a: int, b: int|
                                0 <= a < b < ids_view(nodes@).len() implies ids_view(nodes@)[a]
                                != ids_view(nodes@)[b] by {
                                if b == ids_view(nodes@).len() - 1 {
                                    assert(ids_view(nodes_prev).contains(ids_view(nodes_prev)[a]));
                                }
                            }
                        }
                    }
                    let ghost edges_prev = edges@;
                    edges.push((entries[i2].0.clone(), c.clone()));
                    proof {
                        let newpair = (sv[i2 as int].0, c@);
                        assert(pairs_view(edges@) =~= pairs_view(edges_prev).push(newpair));
                        // the new pair was not present: its source is this
                        // entry's id, and this child was not yet processed
                        assert(!pairs_view(edges_prev).to_set().contains(newpair)) by {
                            if pairs_view(edges_prev).to_set().contains(newpair) {
                                if exists|k: int|
                                    0 <= k < i2 && (#[trigger] sv[k]).0 == newpair.0
                                        && sv[k].1.children.contains(newpair.1) {
                                    let k = choose|k: int|
                                        0 <= k < i2 && (#[trigger] sv[k]).0 == newpair.0
                                            && sv[k].1.children.contains(newpair.1);
                                    assert(keys_of(sv)[k] == sv[k].0);
                                    assert(keys_of(sv)[i2 as int] == sv[i2 as int].0);
                                } else {
                                    let w = choose|w: int|
                                        0 <= w < j && ids_view(children@).take(j as int)[w] == c@;
                                    assert(ids_view(children@)[w] == c@);
                                }
                            }
                        }
                        assert forall|a: int, b: int|
                            0 <= a < b < pairs_view(edges@).len() implies pairs_view(edges@)[a]
                            != pairs_view(edges@)[b] by {
                            if b == pairs_view(edges@).len() - 1 {
                                assert(pairs_view(edges_prev).contains(pairs_view(edges_prev)[a]));
                            }
                        }
                        assert(ids_view(children@).take(j + 1) =~= ids_view(children@).take(
                            j as int,
                        ).push(c@));
                        lemma_to_set_push(ids_view(children@).take(j as int), c@);
                        lemma_to_set_push(pairs_view(edges_prev), newpair);
                        assert forall|e: (Seq<char>, Seq<char>)|
                            (e.0 == sv[i2 as int].0 && ids_view(children@).take(j + 1).contains(
                                e.1,
                            )) <==> ((e.0 == sv[i2 as int].0 && ids_view(children@).take(
                            j as int,
                        ).contains(e.1)) || e == newpair) by {
                            assert(ids_view(children@).take(j + 1).to_set() == ids_view(
                                children@,
                            ).take(j as int).to_set().insert(c@));
                            assert(ids_view(children@).take(j + 1).contains(e.1) == ids_view(
                                children@,
                            ).take(j + 1).to_set().contains(e.1));
                            assert(ids_view(children@).take(j as int).contains(e.1) == ids_view(
                                children@,
                            ).take(j as int).to_set().contains(e.1));
                        }
                        assert(ids_view(nodes@).to_set() =~= keyset.union(
                            Set::new(
                                |cc: Seq<char>|
                                    exists|k: int|
                                        0 <= k < i2 && (#[trigger] sv[k]).1.children.contains(cc),
                            ),
                        ).union(ids_view(children@).take(j + 1).to_set()));
                        assert(pairs_view(edges@).to_set() =~= Set::new(
                            |e: (Seq<char>, Seq<char>)|
                                exists|k: int|
                                    0 <= k < i2 && (#[trigger] sv[k]).0 == e.0
                                        && sv[k].1.children.contains(e.1),
                        ).union(
                            Set::new(
                                |e: (Seq<char>, Seq<char>)|
                                    e.0 == sv[i2 as int].0 && ids_view(children@).take(
                                        j + 1,
                                    ).contains(e.1),
                            ),
                        ));
                        assert(keys_of(sv)[i2 as int] == sv[i2 as int].0);
                        assert(ids_view(nodes@).to_set().contains(sv[i2 as int].0));
                        assert(ids_view(nodes@).to_set().contains(c@));
                        assert forall|q: int|
                            0 <= q < pairs_view(edges@).len() implies ids_view(
                            nodes@,
                        ).to_set().contains((#[trigger] pairs_view(edges@)[q]).0) && ids_view(
                            nodes@,
                        ).to_set().contains(pairs_view(edges@)[q].1) by {
                            if q < pairs_view(edges_prev).len() {
                                assert(pairs_view(edges@)[q] == pairs_view(edges_prev)[q]);
                                assert(ids_view(nodes_prev).to_set().contains(
                                    pairs_view(edges_prev)[q].0,
                                ) && ids_view(nodes_prev).to_set().contains(
                                    pairs_view(edges_prev)[q].1,
                                ));
                                assert forall|y: Seq<char>|
                                    ids_view(nodes_prev).to_set().contains(y) implies ids_view(
                                    nodes@,
                                ).to_set().contains(y) by {
                                    let w = choose|w: int|
                                        0 <= w < ids_view(nodes_prev).len() && ids_view(
                                            nodes_prev,
                                        )[w] == y;
                                    assert(ids_view(nodes@)[w] == y);
                                }
                            } else {
                                assert(pairs_view(edges@)[q] == newpair);
                            }
                        }
                    }
                    j = j + 1;
                }
                proof {
                    assert(ids_view(children@).take(cn as int) =~= ids_view(children@));
                    assert forall|c: Seq<char>|
                        (exists|k: int|
                            0 <= k < i2 + 1 && (#[trigger] sv[k]).1.children.contains(c))
                        <==> (exists|k: int|
                            0 <= k < i2 && (#[trigger] sv[k]).1.children.contains(c)) || ids_view(
                        children@,
                    ).to_set().contains(c) by {}
                    assert(ids_view(nodes@).to_set() =~= keyset.union(
                        Set::new(
                            |c: Seq<char>|
                                exists|k: int|
                                    0 <= k < i2 + 1 && (#[trigger] sv[k]).1.children.contains(c),
                        ),
                    ));
                    assert(pairs_view(edges@).to_set() =~= Set::new(
                        |e: (Seq<char>, Seq<char>)|
                            exists|k: int|
                                0 <= k < i2 + 1 && (#[trigger] sv[k]).0 == e.0
                                    && sv[k].1.children.contains(e.1),
                    ));
                }
                i2 = i2 + 1;
            }
        }
        let r = ControlFlowGraph { symbols, nodes, edges };
        proof {
            let m = entries_map(sv);
            assert forall|e: (Seq<char>, Seq<char>)| r.edge_set().contains(e) implies
                derived_edges(m).contains(e) by {
                let k = choose|k: int|
                    0 <= k < sv.len() && (#[trigger] sv[k]).0 == e.0 && sv[k].1.children.contains(
                        e.1,
                    );
                crate::symbols::lemma_entries_map_value(sv, k);
            }
            assert forall|e: (Seq<char>, Seq<char>)| derived_edges(m).contains(e) implies
                r.edge_set().contains(e) by {
                crate::symbols::lemma_entries_map_key(sv, e.0);
                let k = choose|k: int| 0 <= k < keys_of(sv).len() && keys_of(sv)[k] == e.0;
                assert(sv[k].0 == e.0);
                crate::symbols::lemma_entries_map_value(sv, k);
            }
            assert(r.edge_set() =~= derived_edges(m));
            assert forall|c: Seq<char>| r.node_set().contains(c) implies derived_nodes(m).contains(
                c,
            ) by {
                if keys_of(sv).to_set().contains(c) {
                    crate::symbols::lemma_entries_map_key(sv, c);
                } else {
                    let k = choose|k: int|
                        0 <= k < sv.len() && (#[trigger] sv[k]).1.children.contains(c);
                    crate::symbols::lemma_entries_map_value(sv, k);
                    assert(m.contains_key(sv[k].0) && m[sv[k].0].children.contains(c));
                }
            }
            assert forall|c: Seq<char>| derived_nodes(m).contains(c) implies r.node_set().contains(
                c,
            ) by {
                if m.dom().contains(c) {
                    crate::symbols::lemma_entries_map_key(sv, c);
                } else {
                    let k = choose|k: Seq<char>| #[trigger]
                        m.contains_key(k) && m[k].children.contains(c);
                    crate::symbols::lemma_entries_map_key(sv, k);
                    let w = choose|w: int| 0 <= w < keys_of(sv).len() && keys_of(sv)[w] == k;
                    assert(sv[w].0 == k);
                    crate::symbols::lemma_entries_map_value(sv, w);
                }
            }
            assert(r.node_set() =~= derived_nodes(m));
        }
        r
    }

    /// Does the graph hold an edge from `a` to `b`?
    pub fn has_edge(&self, a: &SymbolId, b: &SymbolId) -> (r: bool)
        requires
            self.wf(),
        ensures
            r == self.edge_set().contains((a@, b@)),
    {
        let n = self.edges.len();
        let mut q: usize = 0;
        while q < n
            invariant
                q <= n,
                n == self.edge_seq().len(),
                forall|p: int| 0 <= p < q ==> (#[trigger] self.edge_seq()[p]) != (a@, b@),
            decreases n - q,
        {
            proof {
                assert(self.edge_seq()[q as int] == (self.edges@[q as int].0@,
                self.edges@[q as int].1@));
            }
            if self.edges[q].0 == *a && self.edges[q].1 == *b {
                proof {
                    assert(self.edge_seq().contains(self.edge_seq()[q as int]));
                }
                return true;
            }
            q = q + 1;
        }
        proof {
            if self.edge_set().contains((a@, b@)) {
                let p = choose|p: int|
                    0 <= p < self.edge_seq().len() && self.edge_seq()[p] == (a@, b@);
            }
        }
        false
    }

    /// The store entries behind the graph, in iteration order.
    pub fn iter_symbols(&self) -> (r: &Vec<(SymbolId, Symbol)>)
        requires
            self.wf(),
        ensures
            r@.len() == self.sym_seq().len(),
            forall|i: int|
                0 <= i < r@.len() ==> ((#[trigger] r@[i]).0@, r@[i].1@) == self.sym_seq()[i],
            seq_distinct(keys_of(self.sym_seq())),
    {
        self.symbols.iter()
    }

    /// Attribute lookup for a node; `None` for an id the store has no
    /// record of, which is not an error.
    pub fn get_symbol(&self, loc: &SymbolId) -> (r: Option<&Symbol>)
        requires
            self.wf(),
        ensures
            match r {
                Some(s) => self.sym_map().contains_key(loc@) && s@ == self.sym_map()[loc@],
                None => !self.sym_map().contains_key(loc@),
            },
    {
        self.symbols.get(loc)
    }

    /// The immediate successors of `parent`: every node the graph holds an
    /// edge from `parent` to, each exactly once.
    pub fn get_children(&self, parent: &SymbolId) -> (r: Vec<SymbolId>)
        requires
            self.wf(),
        ensures
            seq_distinct(ids_view(r@)),
            ids_view(r@) == targets_of(self.edge_seq(), parent@),
            ids_view(r@).to_set() == Set::new(
                |c: Seq<char>| self.edge_set().contains((parent@, c)),
            ),
    {
        let mut r: Vec<SymbolId> = Vec::new();
        let n = self.edges.len();
        let mut q: usize = 0;
        while q < n
            invariant
                q <= n,
                n == self.edge_seq().len(),
                self.wf(),
                ids_view(r@) == targets_of(self.edge_seq().take(q as int), parent@),
                seq_distinct(ids_view(r@)),
                forall|c: Seq<char>|
                    ids_view(r@).contains(c) ==> exists|p: int|
                        0 <= p < q && #[trigger] self.edge_seq()[p] == (parent@, c),
                forall|p: int|
                    0 <= p < q && (#[trigger] self.edge_seq()[p]).0 == parent@ ==> ids_view(
                        r@,
                    ).contains(self.edge_seq()[p].1),
            decreases n - q,
        {
            proof {
                assert(self.edge_seq()[q as int] == (self.edges@[q as int].0@,
                self.edges@[q as int].1@));
                lemma_targets_of_take_step(self.edge_seq(), parent@, q as int);
            }
            if self.edges[q].0 == *parent {
                let ghost prev = r@;
                let ghost c = self.edge_seq()[q as int].1;
                proof {
                    if ids_view(prev).contains(c) {
                        let p = choose|p: int|
                            0 <= p < q && #[trigger] self.edge_seq()[p] == (parent@, c);
                        assert(self.edge_seq()[p] == self.edge_seq()[q as int]);
                        assert(false);
                    }
                }
                r.push(self.edges[q].1.clone());
                proof {
                    assert(ids_view(r@) =~= ids_view(prev).push(c));
                    assert forall|a: int, b: int|
                        0 <= a < b < ids_view(r@).len() implies ids_view(r@)[a] != ids_view(
                        r@,
                    )[b] by {
                        if b == ids_view(r@).len() - 1 {
                            assert(ids_view(prev).contains(ids_view(prev)[a]));
                        }
                    }
                    assert forall|cc: Seq<char>| ids_view(r@).contains(cc) implies exists|p: int|
                        0 <= p < q + 1 && #[trigger] self.edge_seq()[p] == (parent@, cc) by {
                        let w = choose|w: int| 0 <= w < ids_view(r@).len() && ids_view(r@)[w] == cc;
                        if w < ids_view(prev).len() {
                            assert(ids_view(prev).contains(cc));
                        } else {
                            assert(self.edge_seq()[q as int] == (parent@, cc));
                        }
                    }
                    assert forall|p: int|
                        0 <= p < q + 1 && (#[trigger] self.edge_seq()[p]).0
                            == parent@ implies ids_view(r@).contains(self.edge_seq()[p].1) by {
                        if p < q {
                            assert(ids_view(prev).contains(self.edge_seq()[p].1));
                            let w = choose|w: int|
                                0 <= w < ids_view(prev).len() && ids_view(prev)[w]
                                    == self.edge_seq()[p].1;
                            assert(ids_view(r@)[w] == self.edge_seq()[p].1);
                        } else {
                            assert(ids_view(r@).last() == c);
                        }
                    }
                }
            }
            q = q + 1;
        }
        proof {
            assert(self.edge_seq().take(n as int) =~= self.edge_seq());
            assert forall|c: Seq<char>|
                ids_view(r@).to_set().contains(c) == Set::new(
                    |cc: Seq<char>| self.edge_set().contains((parent@, cc)),
                ).contains(c) by {
                if ids_view(r@).contains(c) {
                    let p = choose|p: int|
                        0 <= p < n && #[trigger] self.edge_seq()[p] == (parent@, c);
                    assert(self.edge_seq().contains(self.edge_seq()[p]));
                }
                if self.edge_set().contains((parent@, c)) {
                    let p = choose|p: int|
                        0 <= p < self.edge_seq().len() && self.edge_seq()[p] == (parent@, c);
                }
            }
            assert(ids_view(r@).to_set() =~= Set::new(
                |c: Seq<char>| self.edge_set().contains((parent@, c)),
            ));
        }
        r
    }
}

/// A simple path through `edges` from `from` to `to`: at least the one
/// node, endpoints as given, every step an edge, and no node visited twice.
#[verifier::opaque]
pub open spec fn is_path_in(
    edges: Set<(Seq<char>, Seq<char>)>,
    p: Seq<Seq<char>>,
    from: Seq<char>,
    to: Seq<char>,
) -> bool {
    &&& p.len() >= 1
    &&& p[0] == from
    &&& p.last() == to
    &&& forall|i: int| 0 <= i < p.len() - 1 ==> #[trigger] edges.contains((p[i], p[i + 1]))
    &&& seq_distinct(p)
}

/// A path's intermediate-node count (its length excluding both endpoints)
/// respects the bound, when one is given.
pub open spec fn within_bound(p: Seq<Seq<char>>, max_intermediate_nodes: Option<usize>) -> bool {
    match max_intermediate_nodes {
        Option::Some(m) => p.len() <= m + 2,
        Option::None => true,
    }
}

/// A finished search result relative to a search prefix `base`: a valid
/// bounded simple path to `to` that strictly extends `base`.
#[verifier::opaque]
pub open spec fn extension_path(
    es: Set<(Seq<char>, Seq<char>)>,
    base: Seq<Seq<char>>,
    p: Seq<Seq<char>>,
    to: Seq<char>,
    max_intermediate_nodes: Option<usize>,
) -> bool {
    &&& is_path_in(es, p, base[0], to)
    &&& within_bound(p, max_intermediate_nodes)
    &&& p.len() > base.len()
    &&& p.take(base.len() as int) == base
}

/// An extension whose next node after the prefix is `to` is exactly
/// `base.push(to)`: a simple path visits `to` only at its end.
#[verifier::rlimit(100)]
#[verifier::spinoff_prover]
proof fn lemma_extension_ends(
    es: Set<(Seq<char>, Seq<char>)>,
    base: Seq<Seq<char>>,
    p: Seq<Seq<char>>,
    to: Seq<char>,
    max_intermediate_nodes: Option<usize>,
)
    requires
        extension_path(es, base, p, to, max_intermediate_nodes),
        p[base.len() as int] == to,
    ensures
        p == base.push(to),
{
    reveal(is_path_in);
    reveal(extension_path);
    let l = base.len() as int;
    if l < p.len() - 1 {
        assert(p[l] != p[p.len() - 1]);
        assert(false);
    }
    assert forall|i: int| 0 <= i < l implies p[i] == base[i] by {
        assert(p.take(l)[i] == p[i]);
    }
    assert(p =~= base.push(to));
}

/// An extension that continues to a node other than `to` is an extension
/// of the pushed prefix, and reaches at least two nodes past the prefix.
#[verifier::rlimit(100)]
#[verifier::spinoff_prover]
proof fn lemma_extension_step_down(
    es: Set<(Seq<char>, Seq<char>)>,
    base: Seq<Seq<char>>,
    p: Seq<Seq<char>>,
    x: Seq<char>,
    to: Seq<char>,
    max_intermediate_nodes: Option<usize>,
)
    requires
        extension_path(es, base, p, to, max_intermediate_nodes),
        p[base.len() as int] == x,
        x != to,
        base.len() >= 1,
    ensures
        extension_path(es, base.push(x), p, to, max_intermediate_nodes),
        p.len() >= base.len() + 2,
        within_bound(p, max_intermediate_nodes),
{
    reveal(is_path_in);
    reveal(extension_path);
    let l = base.len() as int;
    if p.len() == l + 1 {
        assert(p.last() == x);
        assert(false);
    }
    assert forall|i: int| 0 <= i < l implies p[i] == base[i] by {
        assert(p.take(l)[i] == p[i]);
    }
    assert(p.take(l + 1) =~= base.push(x));
    assert(base.push(x)[0] == base[0]);
}

/// Conversely, an extension of a pushed prefix is an extension of the
/// prefix, continuing to the pushed node.
#[verifier::rlimit(100)]
#[verifier::spinoff_prover]
proof fn lemma_extension_step_up(
    es: Set<(Seq<char>, Seq<char>)>,
    base: Seq<Seq<char>>,
    x: Seq<char>,
    p: Seq<Seq<char>>,
    to: Seq<char>,
    max_intermediate_nodes: Option<usize>,
)
    requires
        extension_path(es, base.push(x), p, to, max_intermediate_nodes),
        base.len() >= 1,
    ensures
        extension_path(es, base, p, to, max_intermediate_nodes),
        p[base.len() as int] == x,
{
    reveal(extension_path);
    let l = base.len() as int;
    assert(base.push(x)[0] == base[0]);
    assert forall|i: int| 0 <= i <= l implies p[i] == base.push(x)[i] by {
        assert(p.take(l + 1)[i] == p[i]);
    }
    assert(p.take(l) =~= base);
}

/// No extension continues to a node already on the prefix: it would visit
/// that node twice.
#[verifier::rlimit(100)]
#[verifier::spinoff_prover]
proof fn lemma_extension_fresh(
    es: Set<(Seq<char>, Seq<char>)>,
    base: Seq<Seq<char>>,
    p: Seq<Seq<char>>,
    to: Seq<char>,
    max_intermediate_nodes: Option<usize>,
)
    requires
        extension_path(es, base, p, to, max_intermediate_nodes),
    ensures
        !base.contains(p[base.len() as int]),
{
    reveal(is_path_in);
    reveal(extension_path);
    let l = base.len() as int;
    if base.contains(p[l]) {
        let i = choose|i: int| 0 <= i < base.len() && base[i] == p[l];
        assert(p.take(l)[i] == p[i]);
        assert(p[i] == p[l]);
        assert(false);
    }
}

/// The one simple path from a node to itself is the trivial path.
#[verifier::rlimit(100)]
#[verifier::spinoff_prover]
proof fn lemma_trivial_path_only(
    es: Set<(Seq<char>, Seq<char>)>,
    p: Seq<Seq<char>>,
    x: Seq<char>,
)
    requires
        is_path_in(es, p, x, x),
    ensures
        p == seq![x],
{
    reveal(is_path_in);
    if p.len() >= 2 {
        assert(p[0] != p[p.len() - 1]);
        assert(false);
    }
    assert(p =~= seq![x]);
}

/// A duplicate-free sequence drawn from `t` is no longer than `t`.
#[verifier::rlimit(100)]
#[verifier::spinoff_prover]
proof fn lemma_distinct_len_le(s: Seq<Seq<char>>, t: Seq<Seq<char>>)
    requires
        seq_distinct(s),
        forall|x: Seq<char>| s.contains(x) ==> t.contains(x),
    ensures
        s.len() <= t.len(),
{
    broadcast use vstd::seq_lib::seq_to_set_is_finite;

    assert(s.no_duplicates());
    s.unique_seq_to_set();
    assert forall|x: Seq<char>| s.to_set().contains(x) implies t.to_set().contains(x) by {
        assert(s.contains(x));
    }
    assert(s.to_set().subset_of(t.to_set()));
    lemma_len_subset(s.to_set(), t.to_set());
    t.lemma_cardinality_of_set();
}

/// Extending a valid simple chain by an edge to `to` yields a simple path.
#[verifier::rlimit(100)]
#[verifier::spinoff_prover]
proof fn lemma_chain_complete(
    edges: Set<(Seq<char>, Seq<char>)>,
    p0v: Seq<Seq<char>>,
    to: Seq<char>,
)
    requires
        p0v.len() >= 1,
        seq_distinct(p0v),
        !p0v.contains(to),
        forall|i: int|
            0 <= i < p0v.len() - 1 ==> edges.contains(((#[trigger] p0v[i]), p0v[i + 1])),
        edges.contains((p0v.last(), to)),
    ensures
        is_path_in(edges, p0v.push(to), p0v[0], to),
{
    reveal(is_path_in);
    let pv = p0v.push(to);
    assert forall|a: int, b: int| 0 <= a < b < pv.len() implies pv[a] != pv[b] by {
        if b == pv.len() - 1 {
            assert(p0v.contains(p0v[a]));
        }
    }
    assert forall|i: int|
        0 <= i < pv.len() - 1 implies edges.contains(((#[trigger] pv[i]), pv[i + 1])) by {
        if i < p0v.len() - 1 {
            assert(edges.contains((p0v[i], p0v[i + 1])));
        } else {
            assert(pv[i] == p0v.last() && pv[i + 1] == to);
        }
    }
}

/// Extending a valid simple chain by an edge to a fresh node keeps every
/// chain property, and the extended chain still fits the node universe.
#[verifier::rlimit(100)]
#[verifier::spinoff_prover]
proof fn lemma_chain_step(
    edges: Set<(Seq<char>, Seq<char>)>,
    nodes: Seq<Seq<char>>,
    p0v: Seq<Seq<char>>,
    c: Seq<char>,
    to: Seq<char>,
)
    requires
        p0v.len() >= 1,
        seq_distinct(p0v),
        !p0v.contains(c),
        !p0v.contains(to),
        c != to,
        forall|i: int|
            0 <= i < p0v.len() - 1 ==> edges.contains(((#[trigger] p0v[i]), p0v[i + 1])),
        edges.contains((p0v.last(), c)),
        forall|i: int| 1 <= i < p0v.len() ==> nodes.to_set().contains(#[trigger] p0v[i]),
        nodes.to_set().contains(c),
    ensures
        seq_distinct(p0v.push(c)),
        !p0v.push(c).contains(to),
        forall|i: int|
            0 <= i < p0v.push(c).len() - 1 ==> edges.contains(
                ((#[trigger] p0v.push(c)[i]), p0v.push(c)[i + 1]),
            ),
        forall|i: int|
            1 <= i < p0v.push(c).len() ==> nodes.to_set().contains(#[trigger] p0v.push(c)[i]),
        p0v.push(c).len() <= nodes.len() + 1,
{
    let pv = p0v.push(c);
    assert forall|a: int, b: int| 0 <= a < b < pv.len() implies pv[a] != pv[b] by {
        if b == pv.len() - 1 {
            assert(p0v.contains(p0v[a]));
        }
    }
    assert(!pv.contains(to)) by {
        if pv.contains(to) {
            let w = choose|w: int| 0 <= w < pv.len() && pv[w] == to;
            if w < p0v.len() {
                assert(p0v.contains(to));
            }
        }
    }
    assert forall|i: int|
        0 <= i < pv.len() - 1 implies edges.contains(((#[trigger] pv[i]), pv[i + 1])) by {
        if i < p0v.len() - 1 {
            assert(edges.contains((p0v[i], p0v[i + 1])));
        } else {
            assert(pv[i] == p0v.last() && pv[i + 1] == c);
        }
    }
    assert forall|i: int| 1 <= i < pv.len() implies nodes.to_set().contains(
        #[trigger] pv[i],
    ) by {
        if i < p0v.len() {
            assert(nodes.to_set().contains(p0v[i]));
        }
    }
    let tail = pv.subrange(1, pv.len() as int);
    assert(seq_distinct(tail));
    assert forall|x: Seq<char>| tail.contains(x) implies nodes.contains(x) by {
        let w2 = choose|w2: int| 0 <= w2 < tail.len() && tail[w2] == x;
        assert(pv[w2 + 1] == x);
        assert(nodes.to_set().contains(x));
    }
    lemma_distinct_len_le(tail, nodes);
}

impl ControlFlowGraph {
    /// The search state after the first `q` edges have been scanned for the
    /// prefix `p0v`: `outs` extends `out0` with valid extensions of `p0v`
    /// only, each recorded once, first steps among the scanned edges, and
    /// every extension whose first step was scanned is recorded.
    #[verifier::opaque]
    spec fn dfs_out_ok(
        es: Set<(Seq<char>, Seq<char>)>,
        eseq: Seq<(Seq<char>, Seq<char>)>,
        p0v: Seq<Seq<char>>,
        to: Seq<char>,
        maxi: Option<usize>,
        q: int,
        out0: Seq<Vec<SymbolId>>,
        outs: Seq<Vec<SymbolId>>,
    ) -> bool {
        &&& outs.len() >= out0.len()
        &&& forall|k: int| 0 <= k < out0.len() ==> outs[k] == out0[k]
        &&& forall|k: int|
            out0.len() <= k < outs.len() ==> extension_path(
                es,
                p0v,
                ids_view((#[trigger] outs[k])@),
                to,
                maxi,
            )
        &&& forall|k: int|
            out0.len() <= k < outs.len() ==> exists|q2: int|
                0 <= q2 < q && eseq[q2] == (
                    p0v.last(),
                    ids_view((#[trigger] outs[k])@)[p0v.len() as int],
                )
        &&& forall|k1: int, k2: int|
            out0.len() <= k1 < k2 < outs.len() ==> ids_view(outs[k1]@) != ids_view(outs[k2]@)
        &&& forall|p: Seq<Seq<char>>|
            (#[trigger] extension_path(es, p0v, p, to, maxi)) && (exists|q2: int|
                0 <= q2 < q && eseq[q2] == (p0v.last(), p[p0v.len() as int])) ==> exists|k: int|
                out0.len() <= k < outs.len() && ids_view(outs[k]@) == p
    }

    /// Scanning starts with nothing recorded beyond `out0`.
    proof fn lemma_scan_init(
        es: Set<(Seq<char>, Seq<char>)>,
        eseq: Seq<(Seq<char>, Seq<char>)>,
        p0v: Seq<Seq<char>>,
        to: Seq<char>,
        maxi: Option<usize>,
        out0: Seq<Vec<SymbolId>>,
    )
        ensures
            Self::dfs_out_ok(es, eseq, p0v, to, maxi, 0, out0, out0),
    {
        reveal(ControlFlowGraph::dfs_out_ok);
    }

    /// After every edge has been scanned, every extension of the prefix has
    /// been recorded: its first step away from the prefix is a graph edge.
    #[verifier::rlimit(100)]
    #[verifier::spinoff_prover]
    proof fn lemma_scan_done(
        es: Set<(Seq<char>, Seq<char>)>,
        eseq: Seq<(Seq<char>, Seq<char>)>,
        p0v: Seq<Seq<char>>,
        to: Seq<char>,
        maxi: Option<usize>,
        out0: Seq<Vec<SymbolId>>,
        outs: Seq<Vec<SymbolId>>,
    )
        requires
            es == eseq.to_set(),
            p0v.len() >= 1,
            Self::dfs_out_ok(es, eseq, p0v, to, maxi, eseq.len() as int, out0, outs),
        ensures
            outs.len() >= out0.len(),
            forall|k: int| 0 <= k < out0.len() ==> outs[k] == out0[k],
            forall|k: int|
                out0.len() <= k < outs.len() ==> extension_path(
                    es,
                    p0v,
                    ids_view((#[trigger] outs[k])@),
                    to,
                    maxi,
                ),
            forall|p: Seq<Seq<char>>|
                #[trigger] extension_path(es, p0v, p, to, maxi) ==> exists|k: int|
                    out0.len() <= k < outs.len() && ids_view(outs[k]@) == p,
            forall|k1: int, k2: int|
                out0.len() <= k1 < k2 < outs.len() ==> ids_view(outs[k1]@) != ids_view(
                    outs[k2]@,
                ),
    {
        reveal(ControlFlowGraph::dfs_out_ok);
        let l: int = p0v.len() as int;
        assert forall|p2: Seq<Seq<char>>|
            #[trigger] extension_path(es, p0v, p2, to, maxi) implies exists|k: int|
            out0.len() <= k < outs.len() && ids_view(outs[k]@) == p2 by {
            reveal(is_path_in);
            reveal(extension_path);
            assert(p2.take(l)[l - 1] == p2[l - 1]);
            assert(p2[l - 1] == p0v.last());
            let i = l - 1;
            assert(es.contains((p2[i], p2[i + 1])));
            assert(es.contains((p2[l - 1], p2[l])));
            let q2 = choose|q2: int| 0 <= q2 < eseq.len() && eseq[q2] == (p0v.last(), p2[l]);
            assert(exists|q3: int|
                0 <= q3 < eseq.len() && eseq[q3] == (p0v.last(), p2[l]));
        }
    }

    /// Recording the one completed path `p0v.push(to)` for the edge at `q`.
    #[verifier::rlimit(100)]
    #[verifier::spinoff_prover]
    proof fn lemma_step_complete(
        es: Set<(Seq<char>, Seq<char>)>,
        eseq: Seq<(Seq<char>, Seq<char>)>,
        p0v: Seq<Seq<char>>,
        to: Seq<char>,
        maxi: Option<usize>,
        q: int,
        out0: Seq<Vec<SymbolId>>,
        outprev: Seq<Vec<SymbolId>>,
        outs: Seq<Vec<SymbolId>>,
        pv: Seq<Seq<char>>,
    )
        requires
            seq_distinct(eseq),
            0 <= q < eseq.len(),
            p0v.len() >= 1,
            eseq[q] == (p0v.last(), to),
            Self::dfs_out_ok(es, eseq, p0v, to, maxi, q, out0, outprev),
            outs.len() == outprev.len() + 1,
            forall|k: int| 0 <= k < outprev.len() ==> outs[k] == outprev[k],
            ids_view(outs.last()@) == pv,
            extension_path(es, p0v, pv, to, maxi),
            pv == p0v.push(to),
        ensures
            Self::dfs_out_ok(es, eseq, p0v, to, maxi, q + 1, out0, outs),
    {
        reveal(ControlFlowGraph::dfs_out_ok);
        let l: int = p0v.len() as int;
        assert(pv[l] == to);
        assert forall|k: int|
            out0.len() <= k < outprev.len() implies ids_view(outs[k]@) != pv by {
            assert(outs[k] == outprev[k]);
            if ids_view(outprev[k]@) == pv {
                let q2 = choose|q2: int|
                    0 <= q2 < q && eseq[q2] == (p0v.last(), ids_view(outprev[k]@)[l]);
                assert(eseq[q2] == eseq[q]);
                assert(false);
            }
        }
        assert forall|p2: Seq<Seq<char>>|
            (#[trigger] extension_path(es, p0v, p2, to, maxi)) && (exists|q2: int|
                0 <= q2 < q + 1 && eseq[q2] == (p0v.last(), p2[l]))
            implies exists|k: int|
            out0.len() <= k < outs.len() && ids_view(outs[k]@) == p2 by {
            let q2 = choose|q2: int| 0 <= q2 < q + 1 && eseq[q2] == (p0v.last(), p2[l]);
            if q2 < q {
                let k = choose|k: int|
                    out0.len() <= k < outprev.len() && ids_view(outprev[k]@) == p2;
                assert(outs[k] == outprev[k]);
                assert(ids_view(outs[k]@) == p2);
            } else {
                assert(p2[l] == to);
                lemma_extension_ends(es, p0v, p2, to, maxi);
                assert(ids_view(outs[outprev.len() as int]@) == p2);
            }
        }
    }

    /// Folding a recursive search below the edge at `q` (leading to the
    /// fresh node `x`) into the scan state.
    #[verifier::rlimit(100)]
    #[verifier::spinoff_prover]
    proof fn lemma_step_recurse(
        es: Set<(Seq<char>, Seq<char>)>,
        eseq: Seq<(Seq<char>, Seq<char>)>,
        p0v: Seq<Seq<char>>,
        x: Seq<char>,
        to: Seq<char>,
        maxi: Option<usize>,
        q: int,
        out0: Seq<Vec<SymbolId>>,
        outprev: Seq<Vec<SymbolId>>,
        outs: Seq<Vec<SymbolId>>,
    )
        requires
            seq_distinct(eseq),
            0 <= q < eseq.len(),
            p0v.len() >= 1,
            x != to,
            eseq[q] == (p0v.last(), x),
            Self::dfs_out_ok(es, eseq, p0v, to, maxi, q, out0, outprev),
            outs.len() >= outprev.len(),
            forall|k: int| 0 <= k < outprev.len() ==> outs[k] == outprev[k],
            forall|k: int|
                outprev.len() <= k < outs.len() ==> extension_path(
                    es,
                    p0v.push(x),
                    ids_view((#[trigger] outs[k])@),
                    to,
                    maxi,
                ),
            forall|p: Seq<Seq<char>>|
                #[trigger] extension_path(es, p0v.push(x), p, to, maxi) ==> exists|k: int|
                    outprev.len() <= k < outs.len() && ids_view(outs[k]@) == p,
            forall|k1: int, k2: int|
                outprev.len() <= k1 < k2 < outs.len() ==> ids_view(outs[k1]@) != ids_view(
                    outs[k2]@,
                ),
        ensures
            Self::dfs_out_ok(es, eseq, p0v, to, maxi, q + 1, out0, outs),
    {
        reveal(ControlFlowGraph::dfs_out_ok);
        let l: int = p0v.len() as int;
        assert forall|k: int|
            outprev.len() <= k < outs.len() implies extension_path(
            es,
            p0v,
            ids_view((#[trigger] outs[k])@),
            to,
            maxi,
        ) && ids_view(outs[k]@)[l] == x by {
            lemma_extension_step_up(es, p0v, x, ids_view(outs[k]@), to, maxi);
        }
        assert forall|k: int|
            out0.len() <= k < outs.len() implies exists|q2: int|
            0 <= q2 < q + 1 && eseq[q2] == (
                p0v.last(),
                ids_view((#[trigger] outs[k])@)[l],
            ) by {
            if k < outprev.len() {
                assert(outs[k] == outprev[k]);
                let q2 = choose|q2: int|
                    0 <= q2 < q && eseq[q2] == (p0v.last(), ids_view(outprev[k]@)[l]);
                assert(eseq[q2] == (p0v.last(), ids_view(outs[k]@)[l]));
            } else {
                assert(eseq[q] == (p0v.last(), ids_view(outs[k]@)[l]));
            }
        }
        assert forall|k1: int, k2: int|
            out0.len() <= k1 < k2 < outs.len() implies ids_view(outs[k1]@) != ids_view(
            outs[k2]@,
        ) by {
            if k2 < outprev.len() {
                assert(outs[k1] == outprev[k1]);
                assert(outs[k2] == outprev[k2]);
            } else if k1 >= outprev.len() {
            } else {
                assert(outs[k1] == outprev[k1]);
                if ids_view(outs[k1]@) == ids_view(outs[k2]@) {
                    let q2 = choose|q2: int|
                        0 <= q2 < q && eseq[q2] == (p0v.last(), ids_view(outprev[k1]@)[l]);
                    assert(ids_view(outs[k2]@)[l] == x);
                    assert(eseq[q2] == eseq[q]);
                    assert(false);
                }
            }
        }
        assert forall|p2: Seq<Seq<char>>|
            (#[trigger] extension_path(es, p0v, p2, to, maxi)) && (exists|q2: int|
                0 <= q2 < q + 1 && eseq[q2] == (p0v.last(), p2[l]))
            implies exists|k: int|
            out0.len() <= k < outs.len() && ids_view(outs[k]@) == p2 by {
            let q2 = choose|q2: int| 0 <= q2 < q + 1 && eseq[q2] == (p0v.last(), p2[l]);
            if q2 < q {
                let k = choose|k: int|
                    out0.len() <= k < outprev.len() && ids_view(outprev[k]@) == p2;
                assert(outs[k] == outprev[k]);
                assert(ids_view(outs[k]@) == p2);
            } else {
                assert(p2[l] == x);
                lemma_extension_step_down(es, p0v, p2, x, to, maxi);
                let k = choose|k: int|
                    outprev.len() <= k < outs.len() && ids_view(outs[k]@) == p2;
            }
        }
    }

    /// Scanning past an edge that offers no continuation: it does not leave
    /// the path's last node, or no extension can take it.
    #[verifier::rlimit(100)]
    #[verifier::spinoff_prover]
    proof fn lemma_step_skip(
        es: Set<(Seq<char>, Seq<char>)>,
        eseq: Seq<(Seq<char>, Seq<char>)>,
        p0v: Seq<Seq<char>>,
        to: Seq<char>,
        maxi: Option<usize>,
        q: int,
        out0: Seq<Vec<SymbolId>>,
        outs: Seq<Vec<SymbolId>>,
    )
        requires
            0 <= q < eseq.len(),
            p0v.len() >= 1,
            Self::dfs_out_ok(es, eseq, p0v, to, maxi, q, out0, outs),
            eseq[q].0 != p0v.last() || forall|p2: Seq<Seq<char>>|
                (#[trigger] extension_path(es, p0v, p2, to, maxi)) && p2[p0v.len() as int]
                    == eseq[q].1 ==> false,
        ensures
            Self::dfs_out_ok(es, eseq, p0v, to, maxi, q + 1, out0, outs),
    {
        reveal(ControlFlowGraph::dfs_out_ok);
        let l: int = p0v.len() as int;
        assert forall|p2: Seq<Seq<char>>|
            (#[trigger] extension_path(es, p0v, p2, to, maxi)) && (exists|q2: int|
                0 <= q2 < q + 1 && eseq[q2] == (p0v.last(), p2[l]))
            implies exists|k: int|
            out0.len() <= k < outs.len() && ids_view(outs[k]@) == p2 by {
            let q2 = choose|q2: int| 0 <= q2 < q + 1 && eseq[q2] == (p0v.last(), p2[l]);
            if q2 == q {
                assert(eseq[q].0 == p0v.last() && eseq[q].1 == p2[l]);
                assert(false);
            }
        }
    }

    /// Depth-first extension of `path` (a valid simple chain from its first
    /// node), appending to `out` exactly the bounded simple paths to `to`
    /// that strictly extend it, each exactly once.
    #[verifier::rlimit(100)]
    #[verifier::spinoff_prover]
    fn dfs(
        &self,
        to: &SymbolId,
        max_intermediate_nodes: Option<usize>,
        path: &mut Vec<SymbolId>,
        out: &mut Vec<Vec<SymbolId>>,
    )
        requires
            self.wf(),
            old(path)@.len() >= 1,
            seq_distinct(ids_view(old(path)@)),
            !ids_view(old(path)@).contains(to@),
            forall|i: int|
                0 <= i < old(path)@.len() - 1 ==> self.edge_set().contains(
                    ((#[trigger] ids_view(old(path)@)[i]), ids_view(old(path)@)[i + 1]),
                ),
            forall|i: int|
                1 <= i < old(path)@.len() ==> self.node_set().contains(
                    #[trigger] ids_view(old(path)@)[i],
                ),
            match max_intermediate_nodes {
                Option::Some(m) => old(path)@.len() - 1 <= m,
                Option::None => true,
            },
        ensures
            final(path)@ == old(path)@,
            final(out)@.len() >= old(out)@.len(),
            forall|k: int| 0 <= k < old(out)@.len() ==> final(out)@[k] == old(out)@[k],
            forall|k: int|
                old(out)@.len() <= k < final(out)@.len() ==> extension_path(
                    self.edge_set(),
                    ids_view(old(path)@),
                    ids_view((#[trigger] final(out)@[k])@),
                    to@,
                    max_intermediate_nodes,
                ),
            forall|p: Seq<Seq<char>>|
                #[trigger] extension_path(
                    self.edge_set(),
                    ids_view(old(path)@),
                    p,
                    to@,
                    max_intermediate_nodes,
                ) ==> exists|k: int|
                    old(out)@.len() <= k < final(out)@.len() && ids_view(final(out)@[k]@) == p,
            forall|k1: int, k2: int|
                old(out)@.len() <= k1 < k2 < final(out)@.len() ==> ids_view(final(out)@[k1]@)
                    != ids_view(final(out)@[k2]@),
        decreases self.node_seq().len() + 2 - old(path)@.len(), 1int,
    {
        let ghost p0 = path@;
        let ghost out0 = out@;
        let ghost p0v = ids_view(p0);
        let ghost es = self.edge_set();
        let ghost eseq = self.edge_seq();
        let ghost maxi = max_intermediate_nodes;
        let cur = path[path.len() - 1].clone();
        proof {
            assert(cur@ == p0v.last());
            Self::lemma_scan_init(es, eseq, p0v, to@, maxi, out0);
        }
        let n = self.edges.len();
        let mut q: usize = 0;
        while q < n
            invariant
                q <= n,
                n == eseq.len(),
                self.wf(),
                p0 == old(path)@,
                out0 == old(out)@,
                path@ == p0,
                p0.len() >= 1,
                p0v == ids_view(p0),
                es == self.edge_set(),
                eseq == self.edge_seq(),
                maxi == max_intermediate_nodes,
                cur@ == p0v.last(),
                seq_distinct(p0v),
                !p0v.contains(to@),
                forall|i: int|
                    0 <= i < p0.len() - 1 ==> es.contains(((#[trigger] p0v[i]), p0v[i + 1])),
                forall|i: int|
                    1 <= i < p0.len() ==> self.node_set().contains(#[trigger] p0v[i]),
                match maxi {
                    Option::Some(m) => p0.len() - 1 <= m,
                    Option::None => true,
                },
                Self::dfs_out_ok(es, eseq, p0v, to@, maxi, q as int, out0, out@),
            decreases n - q,
        {
            self.dfs_step(to, max_intermediate_nodes, &cur, q, path, out, Ghost(out0));
            q = q + 1;
        }
        proof {
            Self::lemma_scan_done(es, eseq, p0v, to@, maxi, out0, out@);
        }
    }

    /// One step of the search: scans edge `q` and records or explores the
    /// continuation it offers, if any.
    #[verifier::rlimit(100)]
    #[verifier::spinoff_prover]
    fn dfs_step(
        &self,
        to: &SymbolId,
        max_intermediate_nodes: Option<usize>,
        cur: &SymbolId,
        q: usize,
        path: &mut Vec<SymbolId>,
        out: &mut Vec<Vec<SymbolId>>,
        Ghost(out0): Ghost<Seq<Vec<SymbolId>>>,
    )
        requires
            self.wf(),
            q < self.edge_seq().len(),
            old(path)@.len() >= 1,
            cur@ == ids_view(old(path)@).last(),
            seq_distinct(ids_view(old(path)@)),
            !ids_view(old(path)@).contains(to@),
            forall|i: int|
                0 <= i < old(path)@.len() - 1 ==> self.edge_set().contains(
                    ((#[trigger] ids_view(old(path)@)[i]), ids_view(old(path)@)[i + 1]),
                ),
            forall|i: int|
                1 <= i < old(path)@.len() ==> self.node_set().contains(
                    #[trigger] ids_view(old(path)@)[i],
                ),
            match max_intermediate_nodes {
                Option::Some(m) => old(path)@.len() - 1 <= m,
                Option::None => true,
            },
            Self::dfs_out_ok(
                self.edge_set(),
                self.edge_seq(),
                ids_view(old(path)@),
                to@,
                max_intermediate_nodes,
                q as int,
                out0,
                old(out)@,
            ),
        ensures
            final(path)@ == old(path)@,
            Self::dfs_out_ok(
                self.edge_set(),
                self.edge_seq(),
                ids_view(old(path)@),
                to@,
                max_intermediate_nodes,
                q + 1,
                out0,
                final(out)@,
            ),
        decreases self.node_seq().len() + 2 - old(path)@.len(), 0int,
    {
        let ghost p0 = path@;
        let ghost p0v = ids_view(p0);
        let ghost es = self.edge_set();
        let ghost eseq = self.edge_seq();
        let ghost maxi = max_intermediate_nodes;
        let ghost l: int = p0.len() as int;
        let ghost curv = cur@;
        let ghost outprev = out@;
        let ghost x = self.edge_seq()[q as int].1;
        proof {
            assert(self.edges@.len() == eseq.len());
            assert(eseq[q as int] == (self.edges@[q as int].0@, self.edges@[q as int].1@));
            assert(eseq.contains(eseq[q as int]));
        }
        if self.edges[q].0 == *cur {
            if self.edges[q].1 == *to {
                // the edge completes a path: record it
                let mut p = crate::symbols::copy_ids(path);
                p.push(to.clone());
                let ghost pv = ids_view(p@);
                proof {
                    reveal(extension_path);
                    assert(es.contains((curv, to@)));
                    lemma_chain_complete(es, p0v, to@);
                    assert(pv =~= p0v.push(to@));
                    assert(pv.take(l) =~= p0v);
                    assert(extension_path(es, p0v, pv, to@, maxi));
                    assert(eseq[q as int] == (curv, to@));
                }
                out.push(p);
                proof {
                    assert(ids_view(out@.last()@) == pv);
                    Self::lemma_step_complete(
                        es,
                        eseq,
                        p0v,
                        to@,
                        maxi,
                        q as int,
                        out0,
                        outprev,
                        out@,
                        pv,
                    );
                }
            } else {
                let next_on_path = crate::symbols::ids_contain(&*path, &self.edges[q].1);
                if !next_on_path {
                    let within: bool = match max_intermediate_nodes {
                        Option::Some(m) => path.len() <= m,
                        Option::None => true,
                    };
                    if within {
                        path.push(self.edges[q].1.clone());
                        proof {
                            assert(es.contains((curv, x)));
                            let w = choose|w: int| 0 <= w < eseq.len() && eseq[w] == (curv, x);
                            assert(self.node_set().contains(x));
                            lemma_chain_step(es, self.node_seq(), p0v, x, to@);
                            assert(ids_view(path@) =~= p0v.push(x));
                            assert(ids_view(path@).len() <= self.node_seq().len() + 1);
                        }
                        let ghost callbase = ids_view(path@);
                        self.dfs(to, max_intermediate_nodes, path, out);
                        path.pop();
                        proof {
                            assert(path@ =~= p0);
                            assert(callbase == p0v.push(x));
                            assert forall|k: int|
                                outprev.len() <= k < out@.len() implies extension_path(
                                es,
                                p0v.push(x),
                                ids_view((#[trigger] out@[k])@),
                                to@,
                                maxi,
                            ) by {
                                assert(extension_path(
                                    es,
                                    callbase,
                                    ids_view(out@[k]@),
                                    to@,
                                    maxi,
                                ));
                            }
                            assert forall|p2: Seq<Seq<char>>|
                                #[trigger] extension_path(
                                    es,
                                    p0v.push(x),
                                    p2,
                                    to@,
                                    maxi,
                                ) implies exists|k: int|
                                outprev.len() <= k < out@.len() && ids_view(out@[k]@) == p2 by {
                                assert(extension_path(es, callbase, p2, to@, maxi));
                            }
                            Self::lemma_step_recurse(
                                es,
                                eseq,
                                p0v,
                                x,
                                to@,
                                maxi,
                                q as int,
                                out0,
                                outprev,
                                out@,
                            );
                        }
                    } else {
                        proof {
                            // the bound is exhausted: any extension continuing
                            // to x would need more intermediate nodes
                            assert forall|p2: Seq<Seq<char>>|
                                (#[trigger] extension_path(es, p0v, p2, to@, maxi)) && p2[l]
                                    == x implies false by {
                                lemma_extension_step_down(es, p0v, p2, x, to@, maxi);
                            }
                            Self::lemma_step_skip(es, eseq, p0v, to@, maxi, q as int, out0, out@);
                        }
                    }
                } else {
                    proof {
                        // x is already on the path: no simple path continues to it
                        assert(p0v.contains(x));
                        assert forall|p2: Seq<Seq<char>>|
                            (#[trigger] extension_path(es, p0v, p2, to@, maxi)) && p2[l]
                                == x implies false by {
                            lemma_extension_fresh(es, p0v, p2, to@, maxi);
                        }
                        Self::lemma_step_skip(es, eseq, p0v, to@, maxi, q as int, out0, out@);
                    }
                }
            }
        } else {
            proof {
                assert(eseq[q as int].0 != curv);
                Self::lemma_step_skip(es, eseq, p0v, to@, maxi, q as int, out0, out@);
            }
        }
    }

    /// Enumerates the simple paths from `from` to `to`, each with at most
    /// `max_intermediate_nodes` nodes between the endpoints when a bound is
    /// given. Every returned path is a simple bounded path, every simple
    /// path within the bound appears, and none appears twice; when `from`
    /// equals `to` the result is exactly the one trivial path, and when no
    /// path exists at all the result is empty.
    #[verifier::rlimit(100)]
    #[verifier::spinoff_prover]
    pub fn find_paths(
        &self,
        from: &SymbolId,
        to: &SymbolId,
        max_intermediate_nodes: Option<usize>,
    ) -> (r: Vec<Vec<SymbolId>>)
        requires
            self.wf(),
        ensures
            forall|k: int|
                0 <= k < r@.len() ==> is_path_in(
                    self.edge_set(),
                    ids_view((#[trigger] r@[k])@),
                    from@,
                    to@,
                ) && within_bound(ids_view(r@[k]@), max_intermediate_nodes),
            forall|p: Seq<Seq<char>>|
                #[trigger] is_path_in(self.edge_set(), p, from@, to@) && within_bound(
                    p,
                    max_intermediate_nodes,
                ) ==> exists|k: int| 0 <= k < r@.len() && ids_view(r@[k]@) == p,
            forall|k1: int, k2: int|
                0 <= k1 < k2 < r@.len() ==> ids_view(r@[k1]@) != ids_view(r@[k2]@),
            from@ == to@ ==> r@.len() == 1 && ids_view(r@[0]@) == seq![from@],
            (forall|p: Seq<Seq<char>>| !is_path_in(self.edge_set(), p, from@, to@)) ==> r@.len()
                == 0,
    {
        let mut out: Vec<Vec<SymbolId>> = Vec::new();
        if *from == *to {
            let mut p: Vec<SymbolId> = Vec::new();
            p.push(from.clone());
            proof {
                reveal(is_path_in);
                assert(ids_view(p@) =~= seq![from@]);
                assert(is_path_in(self.edge_set(), seq![from@], from@, to@));
            }
            out.push(p);
            proof {
                assert(ids_view(out@[0]@) == seq![from@]);
                assert forall|p2: Seq<Seq<char>>|
                    #[trigger] is_path_in(self.edge_set(), p2, from@, to@) && within_bound(
                        p2,
                        max_intermediate_nodes,
                    ) implies exists|k: int|
                    0 <= k < out@.len() && ids_view(out@[k]@) == p2 by {
                    lemma_trivial_path_only(self.edge_set(), p2, from@);
                    assert(ids_view(out@[0]@) == p2);
                }
            }
            return out;
        }
        let mut path: Vec<SymbolId> = Vec::new();
        path.push(from.clone());
        proof {
            assert(ids_view(path@) =~= seq![from@]);
        }
        self.dfs(to, max_intermediate_nodes, &mut path, &mut out);
        proof {
            assert(seq![from@][0] == from@);
            assert forall|k: int|
                0 <= k < out@.len() implies is_path_in(
                self.edge_set(),
                ids_view((#[trigger] out@[k])@),
                from@,
                to@,
            ) && within_bound(ids_view(out@[k]@), max_intermediate_nodes) by {
                reveal(extension_path);
                assert(extension_path(
                    self.edge_set(),
                    seq![from@],
                    ids_view(out@[k]@),
                    to@,
                    max_intermediate_nodes,
                ));
            }
            assert forall|p2: Seq<Seq<char>>|
                #[trigger] is_path_in(self.edge_set(), p2, from@, to@) && within_bound(
                    p2,
                    max_intermediate_nodes,
                ) implies exists|k: int|
                0 <= k < out@.len() && ids_view(out@[k]@) == p2 by {
                reveal(is_path_in);
                reveal(extension_path);
                if p2.len() == 1 {
                    assert(p2[0] == p2.last());
                    assert(false);
                }
                assert(p2.take(1) =~= seq![from@]);
                assert(extension_path(
                    self.edge_set(),
                    seq![from@],
                    p2,
                    to@,
                    max_intermediate_nodes,
                ));
            }
            if out@.len() > 0 {
                assert(is_path_in(self.edge_set(), ids_view(out@[0]@), from@, to@));
            }
        }
        out
    }
}

} // verus!
