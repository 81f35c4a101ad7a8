//! The call graph that `callers` / `callees` traverse.
//!
//! A qualified name (`Qn`) names a definition, e.g. `src/lib.rs::run`.
//! Each edge records the calling definition and what the call resolved to.
//! The graph keeps two indexes over the same edges: `forward`, keyed by the
//! caller, and `reverse`, keyed by the resolved callee.
use vstd::prelude::*;

verus! {

/// A qualified name such as `src/lib.rs::run`.
pub type Qn = String;

/// What a call site resolved to.
#[derive(Debug, Clone, PartialEq, Eq)]
pub enum CallTarget {
    /// A definition of the project, by qualified name.
    Resolved(Qn),
    /// A definition outside the project (a library path).
    External(String),
    /// A bare name that could not be resolved.
    Bare(String),
}

/// One call: `source` calls `target`.
#[derive(Debug, Clone, PartialEq, Eq)]
pub struct CallEdge {
    pub source: Qn,
    pub target: CallTarget,
}

impl CallTarget {
    /// A copy that is equal to `self`.
    pub fn duplicate(&self) -> (r: CallTarget)
        ensures
            r == *self,
    {
        match self {
            CallTarget::Resolved(q) => CallTarget::Resolved(q.clone()),
            CallTarget::External(s) => CallTarget::External(s.clone()),
            CallTarget::Bare(s) => CallTarget::Bare(s.clone()),
        }
    }
}

impl CallEdge {
    /// A copy that is equal to `self`.
    pub fn duplicate(&self) -> (r: CallEdge)
        ensures
            r == *self,
    {
        CallEdge { source: self.source.clone(), target: self.target.duplicate() }
    }
}

/// The edges stored under key `k`: those of the first entry whose key is
/// `k`, or none.
pub open spec fn lookup(entries: Seq<(Qn, Vec<CallEdge>)>, k: Seq<char>) -> Seq<CallEdge>
    decreases entries.len(),
{
    if entries.len() == 0 {
        Seq::empty()
    } else if entries[0].0@ == k {
        entries[0].1@
    } else {
        lookup(entries.drop_first(), k)
    }
}

/// Whether some entry has key `k`.
pub open spec fn has_key(entries: Seq<(Qn, Vec<CallEdge>)>, k: Seq<char>) -> bool {
    exists|i: int| 0 <= i < entries.len() && #[trigger] entries[i].0@ == k
}

/// The edges of every entry, in entry order.
pub open spec fn all_edges(entries: Seq<(Qn, Vec<CallEdge>)>) -> Seq<CallEdge>
    decreases entries.len(),
{
    if entries.len() == 0 {
        Seq::empty()
    } else {
        entries[0].1@ + all_edges(entries.drop_first())
    }
}

/// The edges stored under `k` occur among all edges of the table.
pub proof fn lemma_lookup_in_all_edges(entries: Seq<(Qn, Vec<CallEdge>)>, k: Seq<char>, i: int)
    requires
        0 <= i < lookup(entries, k).len(),
    ensures
        all_edges(entries).contains(lookup(entries, k)[i]),
    decreases entries.len(),
{
    if entries[0].0@ == k {
        assert(all_edges(entries)[i] == lookup(entries, k)[i]);
    } else {
        lemma_lookup_in_all_edges(entries.drop_first(), k, i);
        let rest = all_edges(entries.drop_first());
        let j = choose|j: int| 0 <= j < rest.len() && rest[j] == lookup(entries, k)[i];
        assert(all_edges(entries)[entries[0].1@.len() + j] == rest[j]);
    }
}

/// An index from a qualified name to the edges stored under it.
pub struct EdgeTable {
    entries: Vec<(Qn, Vec<CallEdge>)>,
}

impl EdgeTable {
    /// The edges stored under `k` (empty when `k` is not a key).
    pub closed spec fn edges_for(self, k: Seq<char>) -> Seq<CallEdge> {
        lookup(self.entries@, k)
    }

    /// Whether `k` is a key of the table.
    pub closed spec fn contains_key(self, k: Seq<char>) -> bool {
        has_key(self.entries@, k)
    }

    /// Every edge stored in the table.
    pub closed spec fn every_edge(self) -> Seq<CallEdge> {
        all_edges(self.entries@)
    }

    /// The edges stored under one key occur among all edges of the table.
    pub proof fn lemma_edges_for_in_every_edge(self, k: Seq<char>, i: int)
        requires
            0 <= i < self.edges_for(k).len(),
        ensures
            self.every_edge().contains(self.edges_for(k)[i]),
    {
        lemma_lookup_in_all_edges(self.entries@, k, i);
    }

    /// An empty table.
    pub fn new() -> (t: EdgeTable)
        ensures
            forall|k: Seq<char>| #[trigger] t.edges_for(k) == Seq::<CallEdge>::empty(),
            forall|k: Seq<char>| !#[trigger] t.contains_key(k),
    {
        EdgeTable { entries: Vec::new() }
    }

    /// Position of the first entry with key `k`.
    fn position(&self, k: &str) -> (r: Option<usize>)
        ensures
            match r {
                Some(i) => i < self.entries@.len() && self.entries@[i as int].0@ == k@
                    && forall|j: int| 0 <= j < i ==> self.entries@[j].0@ != k@,
                None => !has_key(self.entries@, k@),
            },
    {
        let key = k.to_owned();
        let mut i: usize = 0;
        while i < self.entries.len()
            invariant
                i <= self.entries@.len(),
                key@ == k@,
                forall|j: int| 0 <= j < i ==> self.entries@[j].0@ != k@,
            decreases self.entries@.len() - i,
        {
            if self.entries[i].0 == key {
                return Some(i);
            }
            i += 1;
        }
        None
    }

    /// The edges stored under `k`, copied; empty when `k` is not a key.
    pub fn get(&self, k: &str) -> (r: Vec<CallEdge>)
        ensures
            r@ == self.edges_for(k@),
    {
        match self.position(k) {
            Some(i) => {
                proof {
                    lemma_lookup_first(self.entries@, k@, i as int);
                }
                copy_edges(&self.entries[i].1)
            },
            None => {
                proof {
                    lemma_lookup_absent(self.entries@, k@);
                }
                Vec::new()
            },
        }
    }

    /// Whether `k` is a key of the table.
    pub fn has(&self, k: &str) -> (r: bool)
        ensures
            r == self.contains_key(k@),
    {
        self.position(k).is_some()
    }

    /// Appends `e` to the edges stored under `k`.
    pub fn push_edge(&mut self, k: &str, e: CallEdge)
        ensures
            final(self).edges_for(k@) == old(self).edges_for(k@).push(e),
            forall|j: Seq<char>| j != k@ ==> #[trigger] final(self).edges_for(j) == old(self).edges_for(j),
            forall|j: Seq<char>| #[trigger] final(self).contains_key(j) == (old(self).contains_key(j) || j == k@),
    {
        match self.position(k) {
            Some(i) => {
                let ghost before = self.entries@;
                self.entries[i].1.push(e);
                proof {
                    lemma_lookup_first(before, k@, i as int);
                    lemma_lookup_update(before, i as int, k@, self.entries@[i as int]);
                    assert forall|j: Seq<char>| #[trigger] has_key(self.entries@, j) == (has_key(before, j) || j == k@) by {
                        if has_key(before, j) {
                            let w = choose|w: int| 0 <= w < before.len() && #[trigger] before[w].0@ == j;
                            assert(self.entries@[w].0@ == j);
                        }
                        if has_key(self.entries@, j) {
                            let w = choose|w: int| 0 <= w < self.entries@.len() && #[trigger] self.entries@[w].0@ == j;
                            assert(before[w].0@ == j);
                        }
                    }
                }
            },
            None => {
                let ghost before = self.entries@;
                let mut fresh: Vec<CallEdge> = Vec::new();
                fresh.push(e);
                self.entries.push((k.to_owned(), fresh));
                proof {
                    lemma_lookup_absent(before, k@);
                    lemma_lookup_push(before, k@, self.entries@.last());
                    assert forall|j: Seq<char>| #[trigger] has_key(self.entries@, j) == (has_key(before, j) || j == k@) by {
                        if has_key(before, j) {
                            let w = choose|w: int| 0 <= w < before.len() && #[trigger] before[w].0@ == j;
                            assert(self.entries@[w].0@ == j);
                        }
                        if j == k@ {
                            assert(self.entries@[before.len() as int].0@ == j);
                        }
                        if has_key(self.entries@, j) && j != k@ {
                            let w = choose|w: int| 0 <= w < self.entries@.len() && #[trigger] self.entries@[w].0@ == j;
                            assert(before[w].0@ == j);
                        }
                    }
                }
            },
        }
    }
}

/// A copy of a list of edges.
pub fn copy_edges(v: &Vec<CallEdge>) -> (r: Vec<CallEdge>)
    ensures
        r@ == v@,
{
    let mut r: Vec<CallEdge> = Vec::new();
    let mut i: usize = 0;
    while i < v.len()
        invariant
            i <= v@.len(),
            r@ == v@.take(i as int),
        decreases v@.len() - i,
    {
        r.push(v[i].duplicate());
        assert(v@.take(i + 1) == v@.take(i as int).push(v@[i as int]));
        i += 1;
    }
    assert(v@.take(v@.len() as int) == v@);
    r
}

proof fn lemma_lookup_first(entries: Seq<(Qn, Vec<CallEdge>)>, k: Seq<char>, i: int)
    requires
        0 <= i < entries.len(),
        entries[i].0@ == k,
        forall|j: int| 0 <= j < i ==> entries[j].0@ != k,
    ensures
        lookup(entries, k) == entries[i].1@,
    decreases i,
{
    if i > 0 {
        lemma_lookup_first(entries.drop_first(), k, i - 1);
    }
}

proof fn lemma_lookup_absent(entries: Seq<(Qn, Vec<CallEdge>)>, k: Seq<char>)
    requires
        !has_key(entries, k),
    ensures
        lookup(entries, k) == Seq::<CallEdge>::empty(),
    decreases entries.len(),
{
    if entries.len() > 0 {
        assert(entries[0].0@ != k);
        assert forall|i: int| 0 <= i < entries.drop_first().len() implies #[trigger] entries.drop_first()[i].0@ != k by {
            assert(entries[i + 1].0@ != k);
        }
        lemma_lookup_absent(entries.drop_first(), k);
    }
}

proof fn lemma_lookup_update(
    entries: Seq<(Qn, Vec<CallEdge>)>,
    i: int,
    k: Seq<char>,
    x: (Qn, Vec<CallEdge>),
)
    requires
        0 <= i < entries.len(),
        entries[i].0@ == k,
        x.0 == entries[i].0,
        forall|j: int| 0 <= j < i ==> entries[j].0@ != k,
    ensures
        lookup(entries.update(i, x), k) == x.1@,
        forall|j: Seq<char>| j != k ==> #[trigger] lookup(entries.update(i, x), j) == lookup(entries, j),
    decreases i,
{
    let u = entries.update(i, x);
    if i == 0 {
        assert(u.drop_first() =~= entries.drop_first());
        assert(u[0] == x);
    } else {
        assert(u.drop_first() =~= entries.drop_first().update(i - 1, x));
        lemma_lookup_update(entries.drop_first(), i - 1, k, x);
        assert(u[0] == entries[0]);
    }
    assert forall|j: Seq<char>| j != k implies #[trigger] lookup(u, j) == lookup(entries, j) by {
        if i > 0 && entries[0].0@ != j {
            assert(lookup(u.drop_first(), j) == lookup(entries.drop_first(), j));
        }
    }
}

proof fn lemma_lookup_push(entries: Seq<(Qn, Vec<CallEdge>)>, k: Seq<char>, x: (Qn, Vec<CallEdge>))
    requires
        !has_key(entries, k),
        x.0@ == k,
    ensures
        lookup(entries.push(x), k) == x.1@,
        forall|j: Seq<char>| j != k ==> #[trigger] lookup(entries.push(x), j) == lookup(entries, j),
    decreases entries.len(),
{
    let p = entries.push(x);
    if entries.len() == 0 {
        assert(p.drop_first() =~= Seq::<(Qn, Vec<CallEdge>)>::empty());
        assert(p[0] == x);
        assert forall|j: Seq<char>| j != k implies #[trigger] lookup(p, j) == lookup(entries, j) by {
            assert(lookup(p.drop_first(), j) == Seq::<CallEdge>::empty());
        }
    } else {
        assert(p.drop_first() =~= entries.drop_first().push(x));
        assert(entries[0].0@ != k);
        assert forall|i: int| 0 <= i < entries.drop_first().len() implies #[trigger] entries.drop_first()[i].0@ != k by {
            assert(entries[i + 1].0@ != k);
        }
        lemma_lookup_push(entries.drop_first(), k, x);
        assert(p[0] == entries[0]);
        assert forall|j: Seq<char>| j != k implies #[trigger] lookup(p, j) == lookup(entries, j) by {
            if entries[0].0@ != j {
                assert(lookup(p.drop_first(), j) == lookup(entries.drop_first(), j));
            }
        }
    }
}

/// The call graph: every edge under its caller in `forward`, and every
/// edge with a resolved target under that target in `reverse`.
pub struct CallGraph {
    pub forward: EdgeTable,
    pub reverse: EdgeTable,
}

impl CallGraph {
    /// A graph without edges.
    pub fn new() -> (g: CallGraph)
        ensures
            forall|k: Seq<char>| #[trigger] g.forward.edges_for(k) == Seq::<CallEdge>::empty(),
            forall|k: Seq<char>| #[trigger] g.reverse.edges_for(k) == Seq::<CallEdge>::empty(),
    {
        CallGraph { forward: EdgeTable::new(), reverse: EdgeTable::new() }
    }

    /// Records the call `e`: under its source in `forward`, and, when its
    /// target is resolved, under that target in `reverse`.
    pub fn add_edge(&mut self, e: CallEdge)
        ensures
            final(self).forward.edges_for(e.source@) == old(self).forward.edges_for(e.source@).push(e),
            forall|j: Seq<char>| j != e.source@
                ==> #[trigger] final(self).forward.edges_for(j) == old(self).forward.edges_for(j),
            match e.target {
                CallTarget::Resolved(t) => {
                    &&& final(self).reverse.edges_for(t@) == old(self).reverse.edges_for(t@).push(e)
                    &&& forall|j: Seq<char>| j != t@
                        ==> #[trigger] final(self).reverse.edges_for(j) == old(self).reverse.edges_for(j)
                },
                _ => final(self).reverse == old(self).reverse,
            },
    {
        match &e.target {
            CallTarget::Resolved(t) => {
                let t2 = t.clone();
                self.reverse.push_edge(t2.as_str(), e.duplicate());
            },
            _ => {},
        }
        let src = e.source.clone();
        self.forward.push_edge(src.as_str(), e);
    }
}

} // verus!
