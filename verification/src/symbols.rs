//! The symbol data model: identifiers, source ranges, symbols, and the
//! merged symbol store.
//!
//! A [`SymbolMap`] maps a [`SymbolId`] to a [`Symbol`]. Stores produced by
//! separate extraction runs are merged with [`SymbolMap::merge`]: for an id
//! present on both sides the ranges and children are unioned, and a
//! disagreement on the symbol's name is reported as a [`MergeConflict`]
//! rather than silently repaired.

use vstd::prelude::*;
use std::collections::hash_map::DefaultHasher;
use std::hash::Hasher;
use vstd::std_specs::hash::DefaultHasherAdditionalSpecFns;
use vstd::string::StringSliceAdditionalSpecFns;
use crate::seq_distinct;

verus! {

/// Appends `x` to `s` unless `s` already contains it.
pub open spec fn push_absent<A>(s: Seq<A>, x: A) -> Seq<A> {
    if s.contains(x) {
        s
    } else {
        s.push(x)
    }
}

/// Set-like union of two sequences: the elements of `s` followed by those
/// elements of `t` not already present, in first-seen order.
pub open spec fn seq_union<A>(s: Seq<A>, t: Seq<A>) -> Seq<A>
    decreases t.len(),
{
    if t.len() == 0 {
        s
    } else {
        push_absent(seq_union(s, t.drop_last()), t.last())
    }
}

/// `s` with duplicates removed, keeping the first occurrence of each element.
pub open spec fn seq_dedup<A>(s: Seq<A>) -> Seq<A> {
    seq_union(Seq::empty(), s)
}

pub proof fn lemma_seq_union_take_step<A>(s: Seq<A>, t: Seq<A>, i: int)
    requires
        0 <= i < t.len(),
    ensures
        seq_union(s, t.take(i + 1)) == push_absent(seq_union(s, t.take(i)), t[i]),
{
    assert(t.take(i + 1).drop_last() =~= t.take(i));
    assert(t.take(i + 1).last() == t[i]);
}

pub proof fn lemma_seq_union_contains<A>(s: Seq<A>, t: Seq<A>, x: A)
    ensures
        seq_union(s, t).contains(x) <==> s.contains(x) || t.contains(x),
    decreases t.len(),
{
    if t.len() > 0 {
        lemma_seq_union_contains(s, t.drop_last(), x);
        let u = seq_union(s, t.drop_last());
        if t.contains(x) {
            if x == t.last() {
                if !u.contains(x) {
                    assert(u.push(x)[u.len() as int] == x);
                }
            } else {
                let k = choose|k: int| 0 <= k < t.len() && t[k] == x;
                assert(t.drop_last()[k] == x);
            }
        }
        if seq_union(s, t).contains(x) && !u.contains(x) {
            let k = choose|k: int| 0 <= k < seq_union(s, t).len() && seq_union(s, t)[k] == x;
            assert(x == t.last());
            assert(t.contains(t.last()));
        }
        if u.contains(x) {
            let k = choose|k: int| 0 <= k < u.len() && u[k] == x;
            if !u.contains(t.last()) {
                assert(u.push(t.last())[k] == x);
            }
        }
        if t.drop_last().contains(x) {
            let k = choose|k: int| 0 <= k < t.len() - 1 && t.drop_last()[k] == x;
            assert(t[k] == x);
        }
    }
}

pub proof fn lemma_seq_union_distinct<A>(s: Seq<A>, t: Seq<A>)
    requires
        seq_distinct(s),
    ensures
        seq_distinct(seq_union(s, t)),
    decreases t.len(),
{
    if t.len() > 0 {
        lemma_seq_union_distinct(s, t.drop_last());
        let u = seq_union(s, t.drop_last());
        if !u.contains(t.last()) {
            assert forall|i: int, j: int| 0 <= i < j < u.push(t.last()).len() implies u.push(
                t.last(),
            )[i] != u.push(t.last())[j] by {
                if j == u.len() as int {
                    assert(u.contains(u[i]));
                }
            }
        }
    }
}

pub proof fn lemma_seq_union_noop<A>(s: Seq<A>, t: Seq<A>)
    requires
        forall|x: A| t.contains(x) ==> s.contains(x),
    ensures
        seq_union(s, t) == s,
    decreases t.len(),
{
    if t.len() > 0 {
        assert forall|x: A| t.drop_last().contains(x) implies s.contains(x) by {
            let k = choose|k: int| 0 <= k < t.len() - 1 && t.drop_last()[k] == x;
            assert(t[k] == x);
        }
        lemma_seq_union_noop(s, t.drop_last());
        assert(t.contains(t.last()));
        lemma_seq_union_contains(s, t.drop_last(), t.last());
    }
}

/// A hash identifying one source file.
#[derive(Debug, PartialEq, Eq, Structural, PartialOrd, Ord, Hash, Copy, Clone)]
pub struct FileHash(u64);

/// The hash value assigned to the characters of `url`.
pub open spec fn file_hash_of(url: &str) -> u64 {
    DefaultHasher::spec_finish(seq![url.spec_bytes()])
}

impl View for FileHash {
    type V = u64;

    closed spec fn view(&self) -> u64 {
        self.0
    }
}

impl FileHash {
    pub fn new(url: &str) -> (r: Self)
        ensures
            r@ == file_hash_of(url),
    {
        let mut s = DefaultHasher::new();
        s.write(url.as_bytes());
        FileHash(s.finish())
    }
}

/// An opaque, stable, string-valued symbol identifier, used as graph-node
/// identity. Viewed as its character sequence.
#[derive(Debug, Hash)]
pub struct SymbolId(String);

impl View for SymbolId {
    type V = Seq<char>;

    closed spec fn view(&self) -> Seq<char> {
        self.0@
    }
}

impl SymbolId {
    pub fn new(id: String) -> (r: Self)
        ensures
            r@ == id@,
    {
        SymbolId(id)
    }

    /// The identifier's text.
    pub fn as_str(&self) -> (r: &str)
        ensures
            r@ == self@,
    {
        self.0.as_str()
    }
}

impl Clone for SymbolId {
    fn clone(&self) -> (r: Self)
        ensures
            r == *self,
    {
        SymbolId(self.0.clone())
    }
}

impl PartialEq for SymbolId {
    fn eq(&self, other: &Self) -> (r: bool) {
        self.0 == other.0
    }
}

impl vstd::std_specs::cmp::PartialEqSpecImpl for SymbolId {
    open spec fn obeys_eq_spec() -> bool {
        true
    }

    open spec fn eq_spec(&self, other: &Self) -> bool {
        self@ == other@
    }
}

/// The character sequences of a sequence of identifiers.
pub open spec fn ids_view(s: Seq<SymbolId>) -> Seq<Seq<char>> {
    s.map_values(|id: SymbolId| id@)
}

/// One source-range span: a file and the begin/end positions within it.
#[derive(Debug, PartialEq, Eq, Structural, Copy, Clone)]
pub struct SourceRange {
    pub file: FileHash,
    pub begin_line: u64,
    pub begin_col: u64,
    pub end_line: u64,
    pub end_col: u64,
}

/// The mathematical content of a [`Symbol`]: its display name, its ordered
/// (duplicate-free) source ranges, and the set of ids it relates to.
#[verifier::ext_equal]
pub struct SymbolV {
    pub name: Seq<char>,
    pub ranges: Seq<SourceRange>,
    pub children: Set<Seq<char>>,
}

/// One logical program entity: display name, source ranges (one or more per
/// symbol, since a symbol can be merged from several files), and the set of
/// related symbol ids. `children` is a set: order irrelevant, no duplicates.
#[derive(Debug)]
pub struct Symbol {
    pub name: String,
    pub ranges: Vec<SourceRange>,
    pub children: Vec<SymbolId>,
}

impl View for Symbol {
    type V = SymbolV;

    open spec fn view(&self) -> SymbolV {
        SymbolV {
            name: self.name@,
            ranges: self.ranges@,
            children: ids_view(self.children@).to_set(),
        }
    }
}

impl Symbol {
    /// The representation stores the range sequence and the child set as
    /// duplicate-free vectors.
    pub open spec fn wf(&self) -> bool {
        seq_distinct(self.ranges@) && seq_distinct(ids_view(self.children@))
    }

    /// Builds a well-formed symbol, dropping duplicate ranges and duplicate
    /// child ids (keeping first occurrences).
    pub fn new(name: String, ranges: Vec<SourceRange>, children: Vec<SymbolId>) -> (r: Symbol)
        ensures
            r.wf(),
            r@.name == name@,
            r@.ranges == seq_dedup(ranges@),
            r@.children == ids_view(children@).to_set(),
    {
        let mut rs: Vec<SourceRange> = Vec::new();
        union_ranges(&mut rs, &ranges);
        let mut cs: Vec<SymbolId> = Vec::new();
        union_children(&mut cs, &children);
        proof {
            assert(ids_view(Seq::<SymbolId>::empty()) =~= Seq::<Seq<char>>::empty());
            lemma_seq_union_distinct(Seq::<SourceRange>::empty(), ranges@);
            lemma_seq_union_distinct(Seq::<Seq<char>>::empty(), ids_view(children@));
            assert forall|x: Seq<char>|
                ids_view(cs@).contains(x) == ids_view(children@).contains(x) by {
                lemma_seq_union_contains(Seq::<Seq<char>>::empty(), ids_view(children@), x);
                if Seq::<Seq<char>>::empty().contains(x) {
                    let k = choose|k: int|
                        0 <= k < Seq::<Seq<char>>::empty().len() && Seq::<Seq<char>>::empty()[k]
                            == x;
                }
            }
            assert(ids_view(cs@).to_set() =~= ids_view(children@).to_set());
        }
        Symbol { name, ranges: rs, children: cs }
    }
}

impl Clone for Symbol {
    fn clone(&self) -> (r: Self)
        ensures
            r@ == self@,
            r.ranges@ == self.ranges@,
            ids_view(r.children@) == ids_view(self.children@),
            self.wf() ==> r.wf(),
    {
        let mut rs: Vec<SourceRange> = Vec::new();
        let mut i: usize = 0;
        while i < self.ranges.len()
            invariant
                i <= self.ranges.len(),
                rs@ == self.ranges@.take(i as int),
            decreases self.ranges.len() - i,
        {
            rs.push(self.ranges[i]);
            proof {
                assert(self.ranges@.take(i + 1) =~= self.ranges@.take(i as int).push(
                    self.ranges@[i as int],
                ));
            }
            i = i + 1;
        }
        let mut cs: Vec<SymbolId> = Vec::new();
        let mut j: usize = 0;
        while j < self.children.len()
            invariant
                j <= self.children.len(),
                ids_view(cs@) == ids_view(self.children@).take(j as int),
            decreases self.children.len() - j,
        {
            let ghost prev = cs@;
            cs.push(self.children[j].clone());
            proof {
                assert(ids_view(cs@) =~= ids_view(prev).push(self.children@[j as int]@));
                assert(ids_view(cs@) =~= ids_view(self.children@).take(j + 1));
            }
            j = j + 1;
        }
        proof {
            assert(rs@ =~= self.ranges@);
            assert(ids_view(cs@) =~= ids_view(self.children@));
        }
        Symbol { name: self.name.clone(), ranges: rs, children: cs }
    }
}

/// Does `v` hold range `x`?
fn ranges_contain(v: &Vec<SourceRange>, x: &SourceRange) -> (r: bool)
    ensures
        r == v@.contains(*x),
{
    let mut i: usize = 0;
    while i < v.len()
        invariant
            i <= v.len(),
            forall|j: int| 0 <= j < i ==> v@[j] != *x,
        decreases v.len() - i,
    {
        if v[i] == *x {
            return true;
        }
        i = i + 1;
    }
    false
}

/// Does `v` hold an id whose characters equal those of `x`?
pub(crate) fn ids_contain(v: &Vec<SymbolId>, x: &SymbolId) -> (r: bool)
    ensures
        r == ids_view(v@).contains(x@),
{
    let mut i: usize = 0;
    while i < v.len()
        invariant
            i <= v.len(),
            forall|j: int| 0 <= j < i ==> ids_view(v@)[j] != x@,
        decreases v.len() - i,
    {
        if v[i] == *x {
            proof {
                assert(ids_view(v@)[i as int] == x@);
            }
            return true;
        }
        i = i + 1;
    }
    false
}

/// Appends to `dst` every range of `src` not already present.
fn union_ranges(dst: &mut Vec<SourceRange>, src: &Vec<SourceRange>)
    ensures
        final(dst)@ == seq_union(old(dst)@, src@),
{
    let mut i: usize = 0;
    while i < src.len()
        invariant
            i <= src.len(),
            dst@ == seq_union(old(dst)@, src@.take(i as int)),
        decreases src.len() - i,
    {
        proof {
            lemma_seq_union_take_step(old(dst)@, src@, i as int);
        }
        if !ranges_contain(dst, &src[i]) {
            dst.push(src[i]);
        }
        i = i + 1;
    }
    proof {
        assert(src@.take(src@.len() as int) =~= src@);
    }
}

/// Appends to `dst` every child id of `src` not already present.
fn union_children(dst: &mut Vec<SymbolId>, src: &Vec<SymbolId>)
    ensures
        ids_view(final(dst)@) == seq_union(ids_view(old(dst)@), ids_view(src@)),
{
    let mut i: usize = 0;
    while i < src.len()
        invariant
            i <= src.len(),
            ids_view(dst@) == seq_union(ids_view(old(dst)@), ids_view(src@).take(i as int)),
        decreases src.len() - i,
    {
        proof {
            lemma_seq_union_take_step(ids_view(old(dst)@), ids_view(src@), i as int);
        }
        if !ids_contain(dst, &src[i]) {
            let ghost prev = dst@;
            dst.push(src[i].clone());
            proof {
                assert(ids_view(dst@) =~= ids_view(prev).push(src@[i as int]@));
            }
        }
        i = i + 1;
    }
    proof {
        assert(ids_view(src@).take(ids_view(src@).len() as int) =~= ids_view(src@));
    }
}

/// Copies a vector of identifiers element by element.
pub(crate) fn copy_ids(v: &Vec<SymbolId>) -> (r: Vec<SymbolId>)
    ensures
        r@ == v@,
{
    let mut r: Vec<SymbolId> = Vec::new();
    let mut i: usize = 0;
    while i < v.len()
        invariant
            i <= v.len(),
            r@ == v@.take(i as int),
        decreases v.len() - i,
    {
        r.push(v[i].clone());
        proof {
            assert(r@ =~= v@.take(i + 1));
        }
        i = i + 1;
    }
    proof {
        assert(v@.take(v@.len() as int) =~= v@);
    }
    r
}

/// The id components of a sequence of store entries.
pub open spec fn keys_of(s: Seq<(Seq<char>, SymbolV)>) -> Seq<Seq<char>> {
    s.map_values(|e: (Seq<char>, SymbolV)| e.0)
}

/// The mapping described by a sequence of store entries; a later entry for
/// an id overrides an earlier one.
pub open spec fn entries_map(s: Seq<(Seq<char>, SymbolV)>) -> Map<Seq<char>, SymbolV>
    decreases s.len(),
{
    if s.len() == 0 {
        Map::empty()
    } else {
        entries_map(s.drop_last()).insert(s.last().0, s.last().1)
    }
}

pub proof fn lemma_entries_map_key(s: Seq<(Seq<char>, SymbolV)>, k: Seq<char>)
    ensures
        entries_map(s).contains_key(k) <==> keys_of(s).contains(k),
    decreases s.len(),
{
    if s.len() > 0 {
        lemma_entries_map_key(s.drop_last(), k);
        assert(keys_of(s.drop_last()) =~= keys_of(s).drop_last());
        if k == s.last().0 {
            assert(keys_of(s)[s.len() - 1] == k);
        }
        if keys_of(s).contains(k) && k != s.last().0 {
            let i = choose|i: int| 0 <= i < keys_of(s).len() && keys_of(s)[i] == k;
            assert(keys_of(s).drop_last()[i] == k);
        }
        if keys_of(s).drop_last().contains(k) {
            let i = choose|i: int|
                0 <= i < keys_of(s).drop_last().len() && keys_of(s).drop_last()[i] == k;
            assert(keys_of(s)[i] == k);
        }
    }
}

pub proof fn lemma_entries_map_value(s: Seq<(Seq<char>, SymbolV)>, i: int)
    requires
        seq_distinct(keys_of(s)),
        0 <= i < s.len(),
    ensures
        entries_map(s).contains_key(s[i].0),
        entries_map(s)[s[i].0] == s[i].1,
    decreases s.len(),
{
    assert(keys_of(s)[i] == s[i].0);
    lemma_entries_map_key(s, s[i].0);
    if i < s.len() - 1 {
        assert(keys_of(s.drop_last()) =~= keys_of(s).drop_last());
        lemma_entries_map_value(s.drop_last(), i);
        assert(s.last().0 == keys_of(s)[s.len() - 1]);
    }
}

pub proof fn lemma_entries_map_update(s: Seq<(Seq<char>, SymbolV)>, i: int, v: SymbolV)
    requires
        seq_distinct(keys_of(s)),
        0 <= i < s.len(),
    ensures
        entries_map(s.update(i, (s[i].0, v))) == entries_map(s).insert(s[i].0, v),
    decreases s.len(),
{
    let s2 = s.update(i, (s[i].0, v));
    if i == s.len() - 1 {
        assert(s2.drop_last() =~= s.drop_last());
        assert(s2.last() == (s[i].0, v));
        assert(entries_map(s.drop_last()).insert(s[i].0, v) =~= entries_map(s.drop_last()).insert(
            s[i].0,
            s[i].1,
        ).insert(s[i].0, v));
    } else {
        assert(keys_of(s.drop_last()) =~= keys_of(s).drop_last());
        assert(s2.drop_last() =~= s.drop_last().update(i, (s[i].0, v)));
        assert(s.drop_last()[i] == s[i]);
        lemma_entries_map_update(s.drop_last(), i, v);
        assert(s2.last() == s.last());
        assert(keys_of(s)[i] == s[i].0);
        assert(keys_of(s)[s.len() - 1] == s.last().0);
        assert(s[i].0 != s.last().0);
        assert(entries_map(s.drop_last()).insert(s[i].0, v).insert(s.last().0, s.last().1)
            =~= entries_map(s.drop_last()).insert(s.last().0, s.last().1).insert(s[i].0, v));
    }
}

/// The result of merging two symbol records for the same id: the (shared)
/// name, the union of the ranges, and the union of the child sets.
pub open spec fn sym_merge(a: SymbolV, b: SymbolV) -> SymbolV {
    SymbolV {
        name: a.name,
        ranges: seq_union(a.ranges, b.ranges),
        children: a.children.union(b.children),
    }
}

/// Two stores agree on the name of every id they share.
pub open spec fn merge_compat(m1: Map<Seq<char>, SymbolV>, m2: Map<Seq<char>, SymbolV>) -> bool {
    forall|k: Seq<char>|
        #![auto]
        m1.contains_key(k) && m2.contains_key(k) ==> m1[k].name == m2[k].name
}

/// The merge of two stores: a disjoint insert for ids on one side only, and
/// [`sym_merge`] for ids on both.
pub open spec fn map_merge(m1: Map<Seq<char>, SymbolV>, m2: Map<Seq<char>, SymbolV>) -> Map<
    Seq<char>,
    SymbolV,
> {
    Map::new(
        |k: Seq<char>| m1.contains_key(k) || m2.contains_key(k),
        |k: Seq<char>|
            if m1.contains_key(k) && m2.contains_key(k) {
                sym_merge(m1[k], m2[k])
            } else if m1.contains_key(k) {
                m1[k]
            } else {
                m2[k]
            },
    )
}

/// Merge idempotency: merging a store's contents with themselves yields the
/// same contents (same ids, same ranges, same child sets).
pub proof fn lemma_merge_idempotent(m: Map<Seq<char>, SymbolV>)
    ensures
        map_merge(m, m) == m,
{
    assert forall|k: Seq<char>| #[trigger]
        m.contains_key(k) implies map_merge(m, m)[k] == m[k] by {
        lemma_seq_union_noop(m[k].ranges, m[k].ranges);
        assert(m[k].children.union(m[k].children) =~= m[k].children);
        assert(map_merge(m, m)[k] =~= m[k]);
    }
    assert(map_merge(m, m) =~= m);
}

/// Two contributions for one id disagreed on the symbol's name: a
/// structural-corruption signal, reported rather than repaired.
#[derive(Debug)]
pub struct MergeConflict {
    pub id: SymbolId,
    pub existing: String,
    pub incoming: String,
}

/// The symbol store: a mapping from [`SymbolId`] to [`Symbol`], populated
/// incrementally by [`SymbolMap::add`] and [`SymbolMap::merge`]. Viewed as a
/// `Map` from id characters to symbol content.
#[derive(Debug)]
pub struct SymbolMap {
    entries: Vec<(SymbolId, Symbol)>,
}

impl View for SymbolMap {
    type V = Map<Seq<char>, SymbolV>;

    open spec fn view(&self) -> Map<Seq<char>, SymbolV> {
        entries_map(self.seq_view())
    }
}

impl SymbolMap {
    /// The store's entries, in iteration order.
    pub closed spec fn seq_view(&self) -> Seq<(Seq<char>, SymbolV)> {
        self.entries@.map_values(|e: (SymbolId, Symbol)| (e.0@, e.1@))
    }

    /// The store's representation invariant: no id occurs twice, and every
    /// stored record is well-formed. Every constructor establishes it and
    /// every method preserves it.
    pub closed spec fn wf(&self) -> bool {
        &&& seq_distinct(keys_of(self.seq_view()))
        &&& forall|i: int| 0 <= i < self.entries@.len() ==> (#[trigger] self.entries@[i].1).wf()
    }

    /// A well-formed store holds each id at most once.
    pub proof fn lemma_wf_distinct(&self)
        requires
            self.wf(),
        ensures
            seq_distinct(keys_of(self.seq_view())),
    {
    }

    pub fn new() -> (r: Self)
        ensures
            r.wf(),
            r@ == Map::<Seq<char>, SymbolV>::empty(),
            r.seq_view() == Seq::<(Seq<char>, SymbolV)>::empty(),
    {
        let r = SymbolMap { entries: Vec::new() };
        proof {
            assert(r.seq_view() =~= Seq::<(Seq<char>, SymbolV)>::empty());
        }
        r
    }

    /// How many symbols the store holds.
    pub fn len(&self) -> (r: usize)
        ensures
            r == self.seq_view().len(),
    {
        self.entries.len()
    }

    fn find_index(&self, id: &SymbolId) -> (r: Option<usize>)
        ensures
            match r {
                Some(i) => i < self.seq_view().len() && self.seq_view()[i as int].0 == id@,
                None => forall|i: int|
                    0 <= i < self.seq_view().len() ==> (#[trigger] self.seq_view()[i]).0 != id@,
            },
    {
        let mut i: usize = 0;
        while i < self.entries.len()
            invariant
                i <= self.entries.len(),
                forall|j: int| 0 <= j < i ==> (#[trigger] self.seq_view()[j]).0 != id@,
            decreases self.entries.len() - i,
        {
            if self.entries[i].0 == *id {
                proof {
                    assert(self.seq_view()[i as int].0 == id@);
                }
                return Some(i);
            }
            proof {
                assert(self.seq_view()[i as int].0 == self.entries@[i as int].0@);
            }
            i = i + 1;
        }
        None
    }

    /// Looks an id up; `None` when the store has no record for it.
    pub fn get(&self, id: &SymbolId) -> (r: Option<&Symbol>)
        requires
            self.wf(),
        ensures
            match r {
                Some(s) => self@.contains_key(id@) && s@ == self@[id@] && s.wf(),
                None => !self@.contains_key(id@),
            },
    {
        match self.find_index(id) {
            Some(i) => {
                proof {
                    lemma_entries_map_value(self.seq_view(), i as int);
                    assert(self.seq_view()[i as int].1 == self.entries@[i as int].1@);
                }
                Some(&self.entries[i].1)
            },
            None => {
                proof {
                    lemma_entries_map_key(self.seq_view(), id@);
                    if keys_of(self.seq_view()).contains(id@) {
                        let i = choose|i: int|
                            0 <= i < keys_of(self.seq_view()).len() && keys_of(self.seq_view())[i]
                                == id@;
                        assert(self.seq_view()[i].0 == id@);
                    }
                }
                None
            },
        }
    }

    /// The relation set recorded for `symbol_id`, or empty if the store has
    /// no record for it — an unknown id is never an error.
    pub fn get_children(&self, symbol_id: &SymbolId) -> (r: Vec<SymbolId>)
        requires
            self.wf(),
        ensures
            seq_distinct(ids_view(r@)),
            self@.contains_key(symbol_id@) ==> ids_view(r@).to_set() == self@[symbol_id@].children,
            !self@.contains_key(symbol_id@) ==> r@.len() == 0,
    {
        match self.get(symbol_id) {
            Some(symbol) => copy_ids(&symbol.children),
            None => Vec::new(),
        }
    }

    /// The store's entries in iteration order, for read-only traversal.
    pub fn iter(&self) -> (r: &Vec<(SymbolId, Symbol)>)
        requires
            self.wf(),
        ensures
            seq_distinct(keys_of(self.seq_view())),
            r@.len() == self.seq_view().len(),
            forall|i: int|
                0 <= i < r@.len() ==> ((#[trigger] r@[i]).0@, r@[i].1@) == self.seq_view()[i],
            forall|i: int| 0 <= i < r@.len() ==> (#[trigger] r@[i].1).wf(),
    {
        &self.entries
    }

    /// The ids of every symbol in the store, in iteration order.
    pub fn into_vec(&self) -> (r: Vec<SymbolId>)
        ensures
            ids_view(r@) == keys_of(self.seq_view()),
    {
        let mut r: Vec<SymbolId> = Vec::new();
        let mut i: usize = 0;
        while i < self.entries.len()
            invariant
                i <= self.entries.len(),
                ids_view(r@) == keys_of(self.seq_view()).take(i as int),
            decreases self.entries.len() - i,
        {
            let ghost prev = r@;
            r.push(self.entries[i].0.clone());
            proof {
                assert(ids_view(r@) =~= ids_view(prev).push(self.entries@[i as int].0@));
                assert(keys_of(self.seq_view())[i as int] == self.entries@[i as int].0@);
                assert(ids_view(r@) =~= keys_of(self.seq_view()).take(i + 1));
            }
            i = i + 1;
        }
        proof {
            assert(keys_of(self.seq_view()).take(self.seq_view().len() as int) =~= keys_of(
                self.seq_view(),
            ));
        }
        r
    }

    /// Inserts or merges one record. For a fresh id the record is stored as
    /// given; for a known id the ranges and child sets are unioned, provided
    /// the names agree — a name mismatch is a [`MergeConflict`] and leaves
    /// the store unchanged.
    pub fn add(&mut self, id: SymbolId, symbol: Symbol) -> (r: Result<(), MergeConflict>)
        requires
            old(self).wf(),
            symbol.wf(),
        ensures
            final(self).wf(),
            r is Err <==> old(self)@.contains_key(id@) && old(self)@[id@].name != symbol@.name,
            r matches Err(c) ==> *final(self) == *old(self) && c.id@ == id@ && c.existing@ == old(
                self,
            )@[id@].name && c.incoming@ == symbol@.name,
            r is Ok && old(self)@.contains_key(id@) ==> final(self)@ == old(self)@.insert(
                id@,
                sym_merge(old(self)@[id@], symbol@),
            ) && keys_of(final(self).seq_view()) == keys_of(old(self).seq_view()),
            r is Ok && !old(self)@.contains_key(id@) ==> final(self)@ == old(self)@.insert(
                id@,
                symbol@,
            ) && keys_of(final(self).seq_view()) == keys_of(old(self).seq_view()).push(id@),
    {
        match self.find_index(&id) {
            Some(i) => {
                proof {
                    lemma_entries_map_value(self.seq_view(), i as int);
                    assert(self.seq_view()[i as int] == (
                        self.entries@[i as int].0@,
                        self.entries@[i as int].1@,
                    ));
                }
                if self.entries[i].1.name != symbol.name {
                    let existing = self.entries[i].1.name.clone();
                    return Err(MergeConflict { id, existing, incoming: symbol.name });
                }
                let ghost prev = *self;
                let e = &mut self.entries[i];
                union_ranges(&mut e.1.ranges, &symbol.ranges);
                union_children(&mut e.1.children, &symbol.children);
                proof {
                    let k = id@;
                    let oldv = prev.seq_view()[i as int].1;
                    let newv = self.entries@[i as int].1@;
                    assert forall|x: Seq<char>| newv.children.contains(x) == oldv.children.union(
                        symbol@.children,
                    ).contains(x) by {
                        lemma_seq_union_contains(
                            ids_view(prev.entries@[i as int].1.children@),
                            ids_view(symbol.children@),
                            x,
                        );
                    }
                    assert(newv.children =~= oldv.children.union(symbol@.children));
                    assert(newv == sym_merge(oldv, symbol@));
                    assert(self.seq_view() =~= prev.seq_view().update(i as int, (k, newv)));
                    lemma_entries_map_update(prev.seq_view(), i as int, newv);
                    assert(keys_of(self.seq_view()) =~= keys_of(prev.seq_view()));
                    lemma_seq_union_distinct(
                        prev.entries@[i as int].1.ranges@,
                        symbol.ranges@,
                    );
                    lemma_seq_union_distinct(
                        ids_view(prev.entries@[i as int].1.children@),
                        ids_view(symbol.children@),
                    );
                }
                Ok(())
            },
            None => {
                proof {
                    lemma_entries_map_key(self.seq_view(), id@);
                    if keys_of(self.seq_view()).contains(id@) {
                        let j = choose|j: int|
                            0 <= j < keys_of(self.seq_view()).len() && keys_of(self.seq_view())[j]
                                == id@;
                        assert(self.seq_view()[j].0 == id@);
                    }
                }
                let ghost prev = *self;
                self.entries.push((id, symbol));
                proof {
                    assert(self.seq_view() =~= prev.seq_view().push(
                        (self.entries@.last().0@, self.entries@.last().1@),
                    ));
                    assert(self.seq_view().drop_last() =~= prev.seq_view());
                    assert(keys_of(self.seq_view()) =~= keys_of(prev.seq_view()).push(
                        self.entries@.last().0@,
                    ));
                    assert forall|a: int, b: int|
                        0 <= a < b < keys_of(self.seq_view()).len() implies keys_of(
                        self.seq_view(),
                    )[a] != keys_of(self.seq_view())[b] by {
                        if b == keys_of(self.seq_view()).len() - 1 {
                            assert(prev.seq_view()[a].0 != self.entries@.last().0@);
                        }
                    }
                }
                Ok(())
            },
        }
    }

    /// Merges every record of `other` into this store. Succeeds exactly when
    /// no shared id disagrees on its name; a conflict leaves this store
    /// unchanged and reports both names.
    pub fn merge(&mut self, other: SymbolMap) -> (r: Result<(), MergeConflict>)
        requires
            old(self).wf(),
            other.wf(),
        ensures
            final(self).wf(),
            r is Ok <==> merge_compat(old(self)@, other@),
            r is Ok ==> final(self)@ == map_merge(old(self)@, other@) && keys_of(
                final(self).seq_view(),
            ) == seq_union(keys_of(old(self).seq_view()), keys_of(other.seq_view())),
            r matches Err(c) ==> *final(self) == *old(self) && old(self)@.contains_key(c.id@)
                && other@.contains_key(c.id@) && c.existing@ == old(self)@[c.id@].name
                && c.incoming@ == other@[c.id@].name && c.existing@ != c.incoming@,
    {
        let n = other.entries.len();
        let mut j: usize = 0;
        while j < n
            invariant
                j <= n,
                n == other.seq_view().len(),
                *self == *old(self),
                self.wf(),
                other.wf(),
                forall|jj: int|
                    0 <= jj < j ==> !(entries_map(self.seq_view()).contains_key(
                        (#[trigger] other.seq_view()[jj]).0,
                    ) && entries_map(self.seq_view())[other.seq_view()[jj].0].name
                        != other.seq_view()[jj].1.name),
            decreases n - j,
        {
            proof {
                assert(other.seq_view()[j as int] == (
                    other.entries@[j as int].0@,
                    other.entries@[j as int].1@,
                ));
            }
            match self.get(&other.entries[j].0) {
                Some(existing) => {
                    if existing.name != other.entries[j].1.name {
                        let existing_name = existing.name.clone();
                        let id = other.entries[j].0.clone();
                        let incoming = other.entries[j].1.name.clone();
                        proof {
                            lemma_entries_map_value(other.seq_view(), j as int);
                        }
                        return Err(
                            MergeConflict { id, existing: existing_name, incoming },
                        );
                    }
                },
                None => {},
            }
            j = j + 1;
        }
        proof {
            assert forall|k: Seq<char>| #![auto]
                self@.contains_key(k) && other@.contains_key(k) implies self@[k].name
                == other@[k].name by {
                lemma_entries_map_key(other.seq_view(), k);
                let jj = choose|jj: int|
                    0 <= jj < keys_of(other.seq_view()).len() && keys_of(other.seq_view())[jj] == k;
                assert(other.seq_view()[jj].0 == k);
                lemma_entries_map_value(other.seq_view(), jj);
            }
            assert(merge_compat(self@, other@));
        }
        let ghost m0 = self@;
        let ghost k0 = keys_of(self.seq_view());
        proof {
            assert(other.seq_view().take(0) =~= Seq::<(Seq<char>, SymbolV)>::empty());
            assert(map_merge(m0, entries_map(other.seq_view().take(0))) =~= m0);
        }
        let mut j2: usize = 0;
        while j2 < n
            invariant
                j2 <= n,
                n == other.seq_view().len(),
                self.wf(),
                other.wf(),
                seq_distinct(keys_of(other.seq_view())),
                forall|i: int|
                    0 <= i < other.entries@.len() ==> (#[trigger] other.entries@[i].1).wf(),
                forall|i: int|
                    0 <= i < other.entries@.len() ==> ((#[trigger] other.entries@[i]).0@,
                    other.entries@[i].1@) == other.seq_view()[i],
                merge_compat(m0, entries_map(other.seq_view())),
                self@ == map_merge(m0, entries_map(other.seq_view().take(j2 as int))),
                keys_of(self.seq_view()) == seq_union(
                    k0,
                    keys_of(other.seq_view()).take(j2 as int),
                ),
            decreases n - j2,
        {
            let id = other.entries[j2].0.clone();
            let symbol = other.entries[j2].1.clone();
            let ghost before = self@;
            let ghost sv_before = self.seq_view();
            let ghost kbefore = keys_of(self.seq_view());
            let ghost pfx = entries_map(other.seq_view().take(j2 as int));
            let ghost k = other.seq_view()[j2 as int].0;
            let ghost v = other.seq_view()[j2 as int].1;
            proof {
                lemma_entries_map_value(other.seq_view(), j2 as int);
                // the prefix of `other` does not yet hold `k`
                assert(keys_of(other.seq_view().take(j2 as int)) =~= keys_of(
                    other.seq_view(),
                ).take(j2 as int));
                lemma_entries_map_key(other.seq_view().take(j2 as int), k);
                if keys_of(other.seq_view()).take(j2 as int).contains(k) {
                    let w = choose|w: int|
                        0 <= w < j2 && keys_of(other.seq_view()).take(j2 as int)[w] == k;
                    assert(keys_of(other.seq_view())[w] == k);
                    assert(keys_of(other.seq_view())[j2 as int] == k);
                }
                assert(!pfx.contains_key(k));
                lemma_entries_map_key(sv_before, k);
                if before.contains_key(k) {
                    assert(before[k] == map_merge(m0, pfx)[k]);
                    assert(m0.contains_key(k));
                    assert(before[k] == m0[k]);
                    assert(entries_map(other.seq_view()).contains_key(k));
                    assert(entries_map(other.seq_view())[k] == v);
                    assert(before[k].name == v.name);
                }
                assert(id@ == k && symbol@ == v);
            }
            let res = self.add(id, symbol);
            proof {
                assert(res is Ok);
                assert(other.seq_view().take(j2 + 1).drop_last() =~= other.seq_view().take(
                    j2 as int,
                ));
                assert(entries_map(other.seq_view().take(j2 + 1)) == pfx.insert(k, v));
                assert(self@ =~= map_merge(m0, pfx.insert(k, v)));
                lemma_seq_union_take_step(k0, keys_of(other.seq_view()), j2 as int);
                assert(keys_of(self.seq_view()) == push_absent(kbefore, k));
            }
            j2 = j2 + 1;
        }
        proof {
            assert(other.seq_view().take(n as int) =~= other.seq_view());
            assert(keys_of(other.seq_view()).take(n as int) =~= keys_of(other.seq_view()));
        }
        Ok(())
    }
}

impl Clone for SymbolMap {
    fn clone(&self) -> (r: Self)
        ensures
            self.wf() ==> r.wf(),
            r@ == self@,
            r.seq_view() == self.seq_view(),
    {
        let mut entries: Vec<(SymbolId, Symbol)> = Vec::new();
        let mut i: usize = 0;
        while i < self.entries.len()
            invariant
                i <= self.entries.len(),
                entries@.len() == i,
                forall|j: int|
                    0 <= j < i ==> ((#[trigger] entries@[j]).0@, entries@[j].1@)
                        == self.seq_view()[j],
                self.wf() ==> forall|j: int| 0 <= j < i ==> (#[trigger] entries@[j].1).wf(),
            decreases self.entries.len() - i,
        {
            entries.push((self.entries[i].0.clone(), self.entries[i].1.clone()));
            proof {
                assert(self.seq_view()[i as int] == (
                    self.entries@[i as int].0@,
                    self.entries@[i as int].1@,
                ));
            }
            i = i + 1;
        }
        let r = SymbolMap { entries };
        proof {
            assert(r.seq_view() =~= self.seq_view());
        }
        r
    }
}

} // verus!
