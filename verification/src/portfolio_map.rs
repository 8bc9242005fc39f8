use vstd::prelude::*;
use crate::bbl::{BBL, bbl_lt, bbl_le, bbl_before, lemma_bbl_order_total, lemma_bbl_lt_trans};
use vstd::set_lib::lemma_len_subset;

verus! {

broadcast use vstd::seq_lib::lemma_seq_contains_after_push;

/// The partition of the portfolio graph: every portfolio as a sorted list of
/// its member BBLs, portfolios ordered by their smallest member, and a
/// reverse index from each BBL to the index of its portfolio.
pub struct PortfolioMap {
    pub portfolios: Vec<Vec<BBL>>,
    pub bbl_mapping: Vec<(BBL, usize)>,
}

/// An undirected-graph accumulator over BBL keys: vertices are every BBL
/// ever mentioned in an association, edges the recorded associations.
pub struct PortfolioBuilder {
    verts: Vec<BBL>,
    edges: Vec<(BBL, BBL)>,
}

/// A sequence of BBLs in strictly ascending `bbl_lt` order.
pub open spec fn sorted_strict(s: Seq<BBL>) -> bool {
    forall|i: int, j: int| 0 <= i < j < s.len() ==> bbl_lt(s[i], s[j])
}

/// Some portfolio of the list contains `b`.
pub open spec fn in_some(ps: Seq<Vec<BBL>>, b: BBL) -> bool {
    exists|j: int| 0 <= j < ps.len() && (#[trigger] ps[j])@.contains(b)
}

impl PortfolioBuilder {
    /// The set of vertices defined so far.
    pub closed spec fn dom(self) -> Set<BBL> {
        self.verts@.to_set()
    }

    /// The adjacency relation: `b` is in `a`'s adjacency set.  Kept
    /// symmetric and irreflexive by the mutating operations.
    pub closed spec fn edge(self, a: BBL, b: BBL) -> bool {
        self.edges@.contains((a, b))
    }

    /// Representation invariant short of symmetry: the vertex list is
    /// duplicate-free, no edge is a self-edge, and every edge endpoint is a
    /// vertex.
    spec fn wf_base(self) -> bool {
        &&& self.verts@.no_duplicates()
        &&& forall|a: BBL, b: BBL|
            #[trigger] self.edge(a, b) ==> a != b && self.dom().contains(a) && self.dom().contains(
                b,
            )
    }

    /// The full representation invariant: `wf_base` plus a symmetric
    /// adjacency relation.
    pub closed spec fn wf(self) -> bool {
        &&& self.wf_base()
        &&& forall|a: BBL, b: BBL| #[trigger] self.edge(a, b) ==> self.edge(b, a)
    }

    /// A fresh builder holds no vertices and no edges.
    pub fn new() -> (r: PortfolioBuilder)
        ensures
            r.wf(),
            r.dom() == Set::<BBL>::empty(),
            forall|a: BBL, b: BBL| !r.edge(a, b),
    {
        let r = PortfolioBuilder { verts: Vec::new(), edges: Vec::new() };
        proof {
            assert(r.verts@.to_set() =~= Set::<BBL>::empty());
            assert forall|a: BBL, b: BBL| !r.edge(a, b) by {
                assert(!r.edges@.contains((a, b)));
            }
        }
        r
    }

    /// Ensure `b` is a vertex; creates no edges, and is idempotent.
    pub fn define(&mut self, b: &BBL)
        requires
            old(self).wf(),
        ensures
            final(self).wf(),
            final(self).dom() == old(self).dom().insert(*b),
            forall|x: BBL, y: BBL| final(self).edge(x, y) == old(self).edge(x, y),
    {
        if !contains_vert(&self.verts, b) {
            let ghost pre = self.verts@;
            proof {
                lemma_push_nodup(pre, *b);
            }
            self.verts.push(*b);
            proof {
                pre.lemma_push_to_set_commute(*b);
                assert(self.verts@.to_set() =~= pre.to_set().insert(*b));
            }
        } else {
            proof {
                assert(self.verts@.to_set() =~= self.verts@.to_set().insert(*b));
            }
        }
        proof {
            assert(self.edges@ == old(self).edges@);
            assert(self.verts@.no_duplicates());
            assert forall|x: BBL, y: BBL| #[trigger] self.edge(x, y) implies x != y
                && self.dom().contains(x) && self.dom().contains(y) && self.edge(y, x) by {
                assert(old(self).edge(x, y));
            }
            assert(self.wf());
        }
    }

    /// Insert `b` into `a`'s adjacency set, assuming both are vertices.
    /// The symmetric completion is `associate`'s business.
    fn associate_one_way(&mut self, a: &BBL, b: &BBL)
        requires
            old(self).wf_base(),
            *a != *b,
            old(self).dom().contains(*a),
            old(self).dom().contains(*b),
        ensures
            final(self).wf_base(),
            final(self).dom() == old(self).dom(),
            forall|x: BBL, y: BBL|
                final(self).edge(x, y) == (old(self).edge(x, y) || (x == *a && y == *b)),
    {
        if !contains_edge(&self.edges, a, b) {
            let ghost pre = self.edges@;
            self.edges.push((*a, *b));
            proof {
                assert forall|x: BBL, y: BBL|
                    final(self).edge(x, y) == (old(self).edge(x, y) || (x == *a && y == *b)) by {
                    if pre.contains((x, y)) {
                        let i = choose|i: int| 0 <= i < pre.len() && pre[i] == (x, y);
                        assert(self.edges@[i] == (x, y));
                        assert(self.edges@.contains((x, y)));
                    }
                    if x == *a && y == *b {
                        assert(self.edges@[pre.len() as int] == (x, y));
                        assert(self.edges@.contains((x, y)));
                    }
                    if self.edges@.contains((x, y)) && !(x == *a && y == *b) {
                        let i = choose|i: int| 0 <= i < self.edges@.len() && self.edges@[i] == (x, y);
                        assert(i < pre.len());
                        assert(pre[i] == (x, y));
                        assert(pre.contains((x, y)));
                    }
                }
            }
        }
    }

    /// Record an undirected association between `a` and `b`.  A self-pair is
    /// a no-op; otherwise both endpoints become vertices and each is added to
    /// the other's adjacency set.  Idempotent.
    pub fn associate(&mut self, a: &BBL, b: &BBL)
        requires
            old(self).wf(),
        ensures
            final(self).wf(),
            associate_effect(*old(self), *final(self), *a, *b),
            *a == *b ==> *final(self) == *old(self),
    {
        if *a == *b {
            return ;
        }
        self.define(a);
        self.define(b);
        proof {
            assert(self.dom().contains(*a));
            assert(self.dom().contains(*b));
        }
        self.associate_one_way(a, b);
        self.associate_one_way(b, a);
        proof {
            assert forall|x: BBL, y: BBL| #[trigger] self.edge(x, y) implies x != y
                && self.dom().contains(x) && self.dom().contains(y) && self.edge(y, x) by {}
            assert(self.dom() =~= old(self).dom().insert(*a).insert(*b));
        }
    }

    /// The number of distinct vertices.
    pub fn num_bbls(&self) -> (r: usize)
        requires
            self.wf(),
        ensures
            r == self.dom().len(),
    {
        proof {
            self.verts@.unique_seq_to_set();
        }
        self.verts.len()
    }
}

/// What one `associate(a, b)` call does to the vertex set and the adjacency
/// relation: nothing for a self-pair, otherwise it adds both endpoints as
/// vertices and the edge in both directions.
pub open spec fn associate_effect(
    pre: PortfolioBuilder,
    post: PortfolioBuilder,
    a: BBL,
    b: BBL,
) -> bool {
    if a == b {
        &&& post.dom() == pre.dom()
        &&& forall|x: BBL, y: BBL| post.edge(x, y) == pre.edge(x, y)
    } else {
        &&& post.dom() == pre.dom().insert(a).insert(b)
        &&& forall|x: BBL, y: BBL|
            post.edge(x, y) == (pre.edge(x, y) || (x == a && y == b) || (x == b && y == a))
    }
}

impl PortfolioBuilder {
    /// A path through the graph: at least one entry, consecutive entries
    /// joined by edges.
    pub open spec fn is_path(self, p: Seq<BBL>) -> bool {
        &&& p.len() >= 1
        &&& forall|i: int| 0 <= i < p.len() - 1 ==> self.edge(#[trigger] p[i], p[i + 1])
    }

    /// `a` and `b` belong to the same portfolio: some association path joins
    /// them.  Reflexive for every BBL; symmetric and transitive on
    /// well-formed graphs.
    pub open spec fn connected(self, a: BBL, b: BBL) -> bool {
        exists|p: Seq<BBL>| self.is_path(p) && p.first() == a && p.last() == b
    }

    /// Everything in the same portfolio as `a`.
    pub open spec fn comp_set(self, a: BBL) -> Set<BBL> {
        Set::new(|x: BBL| self.connected(a, x))
    }
}

/// Connectivity is reflexive: the one-entry path.
pub proof fn lemma_connected_refl(g: PortfolioBuilder, a: BBL)
    ensures
        g.connected(a, a),
{
    let p = seq![a];
    assert(g.is_path(p));
    assert(p.first() == a && p.last() == a);
}

/// An edge is a path of length two.
pub proof fn lemma_connected_step(g: PortfolioBuilder, a: BBL, b: BBL)
    requires
        g.edge(a, b),
    ensures
        g.connected(a, b),
{
    let p = seq![a, b];
    assert(g.is_path(p)) by {
        assert(p[0] == a && p[1] == b);
    }
    assert(p.first() == a && p.last() == b);
}

/// Connectivity is transitive: paths concatenate.
pub proof fn lemma_connected_trans(g: PortfolioBuilder, a: BBL, b: BBL, c: BBL)
    requires
        g.connected(a, b),
        g.connected(b, c),
    ensures
        g.connected(a, c),
{
    let p1 = choose|p: Seq<BBL>| g.is_path(p) && p.first() == a && p.last() == b;
    let p2 = choose|p: Seq<BBL>| g.is_path(p) && p.first() == b && p.last() == c;
    let p = p1 + p2.drop_first();
    assert(g.is_path(p)) by {
        assert forall|i: int| 0 <= i < p.len() - 1 implies g.edge(#[trigger] p[i], p[i + 1]) by {
            if i < p1.len() - 1 {
                assert(p[i] == p1[i] && p[i + 1] == p1[i + 1]);
            } else if i == p1.len() - 1 {
                assert(p2.len() >= 2);
                assert(p[i] == p1[i] && p[i] == p2[0]);
                assert(p[i + 1] == p2.drop_first()[0]);
                assert(p[i + 1] == p2[1]);
                assert(g.edge(p2[0], p2[1]));
            } else {
                let k = i - p1.len();
                assert(p[i] == p2.drop_first()[k]);
                assert(p[i + 1] == p2.drop_first()[k + 1]);
                assert(p2.drop_first()[k] == p2[k + 1]);
                assert(p2.drop_first()[k + 1] == p2[k + 2]);
                assert(g.edge(p2[k + 1], p2[k + 2]));
            }
        }
    }
    assert(p.first() == a);
    assert(p.last() == c) by {
        if p2.len() == 1 {
            assert(p =~= p1);
        } else {
            assert(p.last() == p2.drop_first().last());
            assert(p2.drop_first().last() == p2.last());
        }
    }
}

/// On a well-formed graph connectivity is symmetric: reverse the path.
pub proof fn lemma_connected_sym(g: PortfolioBuilder, a: BBL, b: BBL)
    requires
        g.wf(),
        g.connected(a, b),
    ensures
        g.connected(b, a),
{
    let p = choose|p: Seq<BBL>| g.is_path(p) && p.first() == a && p.last() == b;
    let n = p.len();
    let q = Seq::new(n, |i: int| p[n - 1 - i]);
    assert(g.is_path(q)) by {
        assert forall|i: int| 0 <= i < q.len() - 1 implies g.edge(#[trigger] q[i], q[i + 1]) by {
            assert(q[i] == p[n - 1 - i]);
            assert(q[i + 1] == p[n - 2 - i]);
            assert(g.edge(p[n - 2 - i], p[n - 2 - i + 1]));
        }
    }
    assert(q.first() == b && q.last() == a);
}

/// A set that contains one end of a path and is closed under edges contains
/// the other end.
proof fn lemma_path_stays_in_closed(g: PortfolioBuilder, s: Set<BBL>, p: Seq<BBL>)
    requires
        g.is_path(p),
        s.contains(p.first()),
        forall|x: BBL, y: BBL| s.contains(x) && #[trigger] g.edge(x, y) ==> s.contains(y),
    ensures
        s.contains(p.last()),
    decreases p.len(),
{
    if p.len() == 1 {
    } else {
        assert(g.edge(p[0], p[1]));
        assert(s.contains(p[1]));
        let q = p.drop_first();
        assert(g.is_path(q)) by {
            assert forall|i: int| 0 <= i < q.len() - 1 implies g.edge(#[trigger] q[i], q[i + 1]) by {
                assert(q[i] == p[i + 1]);
                assert(q[i + 1] == p[i + 2]);
                assert(g.edge(p[i + 1], p[i + 1 + 1]));
            }
        }
        assert(q.first() == p[1]);
        lemma_path_stays_in_closed(g, s, q);
        assert(q.last() == p.last());
    }
}

/// A set containing `a` and closed under edges contains everything connected
/// to `a`.
pub proof fn lemma_closed_contains_connected(g: PortfolioBuilder, s: Set<BBL>, a: BBL, b: BBL)
    requires
        s.contains(a),
        forall|x: BBL, y: BBL| s.contains(x) && #[trigger] g.edge(x, y) ==> s.contains(y),
        g.connected(a, b),
    ensures
        s.contains(b),
{
    let p = choose|p: Seq<BBL>| g.is_path(p) && p.first() == a && p.last() == b;
    lemma_path_stays_in_closed(g, s, p);
}

/// On a well-formed graph, everything connected to a vertex is a vertex.
pub proof fn lemma_connected_in_dom(g: PortfolioBuilder, a: BBL, b: BBL)
    requires
        g.wf(),
        g.dom().contains(a),
        g.connected(a, b),
    ensures
        g.dom().contains(b),
{
    lemma_closed_contains_connected(g, g.dom(), a, b);
}

/// Linear scan for a BBL in a vector.
fn contains_vert(v: &Vec<BBL>, x: &BBL) -> (r: bool)
    ensures
        r == v@.contains(*x),
{
    let mut i: usize = 0;
    while i < v.len()
        invariant
            i <= v@.len(),
            forall|j: int| 0 <= j < i ==> v@[j] != *x,
        decreases v@.len() - i,
    {
        if v[i] == *x {
            return true;
        }
        i += 1;
    }
    false
}

/// Linear scan for a directed edge in the edge list.
fn contains_edge(es: &Vec<(BBL, BBL)>, a: &BBL, b: &BBL) -> (r: bool)
    ensures
        r == es@.contains((*a, *b)),
{
    let mut i: usize = 0;
    while i < es.len()
        invariant
            i <= es@.len(),
            forall|j: int| 0 <= j < i ==> es@[j] != (*a, *b),
        decreases es@.len() - i,
    {
        let hit = es[i].0 == *a && es[i].1 == *b;
        proof {
            if hit {
                assert(es@[i as int] == (*a, *b));
            }
        }
        if hit {
            return true;
        }
        i += 1;
    }
    false
}

/// Pushing a fresh element keeps a sequence duplicate-free.
proof fn lemma_push_nodup(s: Seq<BBL>, x: BBL)
    requires
        s.no_duplicates(),
        !s.contains(x),
    ensures
        s.push(x).no_duplicates(),
{
    let t = s.push(x);
    assert forall|i: int, j: int| 0 <= i < t.len() && 0 <= j < t.len() && i != j implies t[i]
        != t[j] by {
        if i < s.len() && j < s.len() {
        } else if i == s.len() {
            assert(t[j] == s[j]);
        } else {
            assert(t[i] == s[i]);
        }
    }
}

/// Dropping the last element keeps a sequence duplicate-free.
proof fn lemma_drop_last_nodup(s: Seq<BBL>)
    requires
        s.no_duplicates(),
        s.len() > 0,
    ensures
        s.drop_last().no_duplicates(),
        !s.drop_last().contains(s.last()),
{
    let t = s.drop_last();
    assert forall|i: int, j: int| 0 <= i < t.len() && 0 <= j < t.len() && i != j implies t[i]
        != t[j] by {
        assert(t[i] == s[i] && t[j] == s[j]);
    }
    if t.contains(s.last()) {
        let m = choose|m: int| 0 <= m < t.len() && t[m] == s.last();
        assert(s[m] == s[s.len() - 1]);
    }
}

impl PortfolioBuilder {
    /// Collect every BBL in the same portfolio as `root`, sorted ascending.
    fn component_of(&self, root: &BBL) -> (r: Vec<BBL>)
        requires
            self.wf(),
            self.dom().contains(*root),
        ensures
            sorted_strict(r@),
            r@.to_set() == self.comp_set(*root),
            r@.len() >= 1,
    {
        let mut comp: Vec<BBL> = Vec::new();
        let mut stack: Vec<BBL> = Vec::new();
        comp.push(*root);
        stack.push(*root);
        proof {
            lemma_connected_refl(*self, *root);
            assert(comp@.contains(*root));
            assert(stack@.contains(*root));
            assert forall|x: BBL| #[trigger] comp@.contains(x) implies self.dom().contains(x)
                && self.connected(*root, x) by {
                assert(x == *root);
            }
            assert forall|x: BBL| #[trigger] stack@.contains(x) implies comp@.contains(x) by {
                assert(x == *root);
            }
            assert(comp@.len() <= self.dom().len()) by {
                comp@.unique_seq_to_set();
                vstd::seq_lib::seq_to_set_is_finite::<BBL>(self.verts@);
                assert(comp@.to_set().subset_of(self.dom()));
                lemma_len_subset(comp@.to_set(), self.dom());
            }
        }
        while stack.len() > 0
            invariant
                self.wf(),
                self.dom().contains(*root),
                comp@.no_duplicates(),
                comp@.contains(*root),
                comp@.len() <= self.dom().len(),
                forall|x: BBL|
                    #[trigger] comp@.contains(x) ==> self.dom().contains(x) && self.connected(
                        *root,
                        x,
                    ),
                forall|x: BBL| #[trigger] stack@.contains(x) ==> comp@.contains(x),
                stack@.no_duplicates(),
                forall|x: BBL, y: BBL|
                    comp@.contains(x) && !stack@.contains(x) && #[trigger] self.edge(x, y)
                        ==> comp@.contains(y),
            decreases self.dom().len() - comp@.len(), stack@.len(),
        {
            let ghost stack_entry = stack@;
            let v = match stack.pop() {
                Some(v) => v,
                None => {
                    proof {
                        assert(false);
                    }
                    *root
                },
            };
            proof {
                assert(v == stack_entry.last());
                assert(stack@ == stack_entry.drop_last());
                assert(stack_entry.contains(v)) by {
                    assert(stack_entry[stack_entry.len() - 1] == v);
                }
                assert(comp@.contains(v));
                lemma_drop_last_nodup(stack_entry);
                assert(!stack@.contains(v));
                assert(stack_entry =~= stack@.push(v));
                assert forall|x: BBL| #[trigger] stack@.contains(x) implies comp@.contains(x) by {
                    let m = choose|m: int| 0 <= m < stack@.len() && stack@[m] == x;
                    assert(stack_entry[m] == x);
                    assert(stack_entry.contains(x));
                }
                assert forall|x: BBL, y: BBL|
                    comp@.contains(x) && !stack@.contains(x) && x != v && #[trigger] self.edge(
                        x,
                        y,
                    ) implies comp@.contains(y) by {
                    assert(!stack_entry.contains(x));
                }
            }
            let ghost comp0 = comp@;
            let ghost stack0 = stack@;
            let mut k: usize = 0;
            while k < self.edges.len()
                invariant
                    self.wf(),
                    self.dom().contains(*root),
                    k <= self.edges@.len(),
                    comp@.no_duplicates(),
                    comp@.contains(*root),
                    comp@.contains(v),
                    comp@.len() <= self.dom().len(),
                    forall|x: BBL|
                        #[trigger] comp@.contains(x) ==> self.dom().contains(x) && self.connected(
                            *root,
                            x,
                        ),
                    forall|x: BBL| #[trigger] stack@.contains(x) ==> comp@.contains(x),
                    stack@.no_duplicates(),
                    !stack@.contains(v),
                    forall|x: BBL| #[trigger] comp0.contains(x) ==> comp@.contains(x),
                    forall|x: BBL| #[trigger] stack0.contains(x) ==> stack@.contains(x),
                    (comp@ == comp0 && stack@ == stack0) || comp@.len() > comp0.len(),
                    forall|x: BBL, y: BBL|
                        comp@.contains(x) && !stack@.contains(x) && x != v && #[trigger] self.edge(
                            x,
                            y,
                        ) ==> comp@.contains(y),
                    forall|j: int|
                        0 <= j < k && (#[trigger] self.edges@[j]).0 == v ==> comp@.contains(
                            self.edges@[j].1,
                        ),
                decreases self.edges@.len() - k,
            {
                let e = self.edges[k];
                proof {
                    assert(e == self.edges@[k as int]);
                }
                if e.0 == v {
                    proof {
                        assert(e == (e.0, e.1));
                        assert(self.edges@.contains((v, e.1)));
                        assert(self.edge(v, e.1));
                        assert(self.dom().contains(e.1));
                    }
                    if !contains_vert(&comp, &e.1) {
                        proof {
                            lemma_connected_step(*self, v, e.1);
                            lemma_connected_trans(*self, *root, v, e.1);
                            lemma_push_nodup(comp@, e.1);
                            lemma_push_nodup(stack@, e.1);
                        }
                        let ghost comp_a = comp@;
                        comp.push(e.1);
                        stack.push(e.1);
                        proof {
                            assert(comp@.len() <= self.dom().len()) by {
                                comp@.unique_seq_to_set();
                                vstd::seq_lib::seq_to_set_is_finite::<BBL>(self.verts@);
                                assert forall|y: BBL| comp@.to_set().contains(y) implies
                                    self.dom().contains(y) by {
                                    assert(comp@.contains(y));
                                    if comp_a.contains(y) {
                                    } else {
                                        assert(y == e.1);
                                    }
                                }
                                assert(comp@.to_set().subset_of(self.dom()));
                                lemma_len_subset(comp@.to_set(), self.dom());
                            }
                        }
                    }
                }
                k += 1;
            }
            proof {
                assert forall|y: BBL| #[trigger] self.edge(v, y) implies comp@.contains(y) by {
                    let j = choose|j: int|
                        0 <= j < self.edges@.len() && self.edges@[j] == (v, y);
                    assert((self.edges@[j]).0 == v);
                    assert(self.edges@[j].1 == y);
                }
                assert forall|x: BBL, y: BBL|
                    comp@.contains(x) && !stack@.contains(x) && #[trigger] self.edge(x, y) implies
                    comp@.contains(y) by {
                    if x == v {
                    } else {
                        assert(!stack0.contains(x));
                    }
                }
            }
        }
        proof {
            let s = comp@.to_set();
            assert forall|x: BBL| self.comp_set(*root).contains(x) implies s.contains(x) by {
                assert(self.connected(*root, x));
                assert(s.contains(*root));
                assert forall|p: BBL, q: BBL| s.contains(p) && #[trigger] self.edge(p, q) implies
                    s.contains(q) by {
                    assert(comp@.contains(p));
                    assert(!stack@.contains(p));
                    assert(comp@.contains(q));
                }
                lemma_closed_contains_connected(*self, s, *root, x);
            }
            assert forall|x: BBL| s.contains(x) implies self.comp_set(*root).contains(x) by {
                assert(comp@.contains(x));
            }
            assert(comp@.to_set() =~= self.comp_set(*root));
        }
        let r = sort_unique(&comp);
        proof {
            assert(comp@.len() >= 1) by {
                assert(comp@.contains(*root));
            }
        }
        r
    }
}

/// Insert a fresh BBL into a strictly sorted vector, keeping it sorted.
fn insert_sorted(out: &mut Vec<BBL>, x: BBL)
    requires
        sorted_strict(old(out)@),
        !old(out)@.contains(x),
    ensures
        sorted_strict(final(out)@),
        final(out)@.to_set() == old(out)@.to_set().insert(x),
        final(out)@.len() == old(out)@.len() + 1,
{
    let mut p: usize = 0;
    while p < out.len() && bbl_before(&out[p], &x)
        invariant
            out@ == old(out)@,
            p <= out@.len(),
            forall|q: int| 0 <= q < p ==> bbl_lt(#[trigger] out@[q], x),
        decreases out@.len() - p,
    {
        p += 1;
    }
    proof {
        if p < out@.len() {
            assert(out@[p as int] != x) by {
                assert(!out@.contains(x));
            }
            lemma_bbl_order_total(out@[p as int], x);
            assert(bbl_lt(x, out@[p as int]));
        }
    }
    let ghost pre = out@;
    out.insert(p, x);
    proof {
        let post = out@;
        assert forall|m: int| 0 <= m < p implies post[m] == pre[m] by {}
        assert(post[p as int] == x);
        assert forall|m: int| p < m < post.len() implies post[m] == pre[m - 1] by {}
        assert forall|i: int, j: int| 0 <= i < j < post.len() implies bbl_lt(post[i], post[j]) by {
            if j < p {
            } else if i < p && j == p {
                assert(bbl_lt(pre[i], x));
            } else if i < p && j > p {
                if p < pre.len() {
                    assert(bbl_lt(x, pre[p as int]));
                    if j - 1 > p {
                        assert(bbl_lt(pre[p as int], pre[j - 1]));
                        lemma_bbl_lt_trans(pre[i], pre[p as int], pre[j - 1]);
                    }
                    lemma_bbl_lt_trans(pre[i], x, pre[j - 1]);
                }
            } else if i == p {
                assert(bbl_lt(x, pre[p as int]));
                if j - 1 > p {
                    lemma_bbl_lt_trans(x, pre[p as int], pre[j - 1]);
                }
            } else {
            }
        }
        assert forall|y: BBL| post.to_set().contains(y) implies pre.to_set().insert(x).contains(
            y,
        ) by {
            let m = choose|m: int| 0 <= m < post.len() && post[m] == y;
            if m < p {
                assert(pre[m] == y);
                assert(pre.contains(y));
            } else if m > p {
                assert(pre[m - 1] == y);
                assert(pre.contains(y));
            }
        }
        assert forall|y: BBL| pre.to_set().insert(x).contains(y) implies post.to_set().contains(
            y,
        ) by {
            if y == x {
                assert(post[p as int] == y);
                assert(post.contains(y));
            } else {
                let m = choose|m: int| 0 <= m < pre.len() && pre[m] == y;
                if m < p {
                    assert(post[m] == y);
                } else {
                    assert(post[m + 1] == y);
                }
                assert(post.contains(y));
            }
        }
        assert(post.to_set() =~= pre.to_set().insert(x));
    }
}

/// Sort a duplicate-free vector of BBLs into strictly ascending order.
fn sort_unique(v: &Vec<BBL>) -> (r: Vec<BBL>)
    requires
        v@.no_duplicates(),
    ensures
        sorted_strict(r@),
        r@.to_set() == v@.to_set(),
        r@.len() == v@.len(),
{
    let mut out: Vec<BBL> = Vec::new();
    let mut i: usize = 0;
    proof {
        assert(out@.to_set() =~= v@.take(0).to_set());
    }
    while i < v.len()
        invariant
            i <= v@.len(),
            v@.no_duplicates(),
            sorted_strict(out@),
            out@.to_set() == v@.take(i as int).to_set(),
            out@.len() == i,
        decreases v@.len() - i,
    {
        proof {
            assert(!out@.contains(v@[i as int])) by {
                if out@.contains(v@[i as int]) {
                    assert(v@.take(i as int).to_set().contains(v@[i as int]));
                    let m = choose|m: int|
                        0 <= m < i && #[trigger] v@.take(i as int)[m] == v@[i as int];
                    assert(v@[m] == v@[i as int]);
                }
            }
        }
        let ghost pre = out@;
        insert_sorted(&mut out, v[i]);
        proof {
            assert(v@.take(i + 1) =~= v@.take(i as int).push(v@[i as int]));
            v@.take(i as int).lemma_push_to_set_commute(v@[i as int]);
            assert(out@.to_set() =~= v@.take(i + 1).to_set());
        }
        i += 1;
    }
    proof {
        assert(v@.take(v@.len() as int) =~= v@);
    }
    out
}

impl PortfolioMap {
    /// The members of portfolio `i`.
    pub open spec fn portfolio_at(self, i: int) -> Seq<BBL> {
        self.portfolios@[i]@
    }

    /// How many portfolios the report holds.
    pub open spec fn num_portfolios(self) -> int {
        self.portfolios@.len() as int
    }

    /// `b` is a member of portfolio `i`.
    pub open spec fn member_of(self, i: int, b: BBL) -> bool {
        0 <= i < self.num_portfolios() && self.portfolio_at(i).contains(b)
    }

    /// The keys of the reverse index, in order.
    pub open spec fn mapping_keys(self) -> Seq<BBL> {
        self.bbl_mapping@.map_values(|p: (BBL, usize)| p.0)
    }
}

impl PortfolioMap {
    /// Look up the portfolio index recorded for `b`, if any.
    pub fn portfolio_index(&self, b: &BBL) -> (r: Option<usize>)
        ensures
            match r {
                Some(i) => self.bbl_mapping@.contains((*b, i)),
                None => forall|t: int|
                    0 <= t < self.bbl_mapping@.len() ==> (#[trigger] self.bbl_mapping@[t]).0 != *b,
            },
    {
        let mut t: usize = 0;
        while t < self.bbl_mapping.len()
            invariant
                t <= self.bbl_mapping@.len(),
                forall|u: int| 0 <= u < t ==> (#[trigger] self.bbl_mapping@[u]).0 != *b,
            decreases self.bbl_mapping@.len() - t,
        {
            if self.bbl_mapping[t].0 == *b {
                let i = self.bbl_mapping[t].1;
                proof {
                    assert(self.bbl_mapping@[t as int] == (*b, i));
                }
                return Some(i);
            }
            t += 1;
        }
        None
    }
}

/// The portfolio report that `get_portfolios` owes for the graph `g`: the
/// connected components, each sorted ascending, ordered among themselves by
/// their smallest member, together with a reverse index sorted by BBL.
/// `lemma_partition_unique` shows that these clauses pin the report down
/// completely.
pub open spec fn is_partition_for(g: PortfolioBuilder, pm: PortfolioMap) -> bool {
    &&& forall|i: int|
        0 <= i < pm.num_portfolios() ==> (#[trigger] pm.portfolio_at(i)).len() > 0
    &&& forall|i: int|
        0 <= i < pm.num_portfolios() ==> sorted_strict(#[trigger] pm.portfolio_at(i))
    &&& forall|i: int, j: int|
        0 <= i < j < pm.num_portfolios() ==> bbl_lt(pm.portfolio_at(i)[0], pm.portfolio_at(j)[0])
    &&& forall|i: int, b: BBL| #[trigger] pm.member_of(i, b) ==> g.dom().contains(b)
    &&& forall|b: BBL| #[trigger] g.dom().contains(b) ==> in_some(pm.portfolios@, b)
    &&& forall|i: int, j: int, x: BBL, y: BBL|
        #[trigger] pm.member_of(i, x) && #[trigger] pm.member_of(j, y) ==> (g.connected(x, y)
            <==> i == j)
    &&& sorted_strict(pm.mapping_keys())
    &&& forall|t: int|
        0 <= t < pm.bbl_mapping@.len() ==> pm.member_of(
            (#[trigger] pm.bbl_mapping@[t]).1 as int,
            pm.bbl_mapping@[t].0,
        )
    &&& forall|b: BBL| #[trigger] g.dom().contains(b) ==> pm.mapping_keys().contains(b)
}

/// In a strictly sorted sequence the first entry is the minimum.
proof fn lemma_sorted_first_min(s: Seq<BBL>, x: BBL)
    requires
        sorted_strict(s),
        s.contains(x),
    ensures
        s.len() > 0,
        bbl_le(s[0], x),
{
    let m = choose|m: int| 0 <= m < s.len() && s[m] == x;
    if m > 0 {
        assert(bbl_lt(s[0], s[m]));
    }
}

/// Portfolios are component sets from any of their members' point of view.
proof fn lemma_comp_set_shift(g: PortfolioBuilder, a: BBL, b: BBL)
    requires
        g.wf(),
        g.connected(a, b),
    ensures
        g.comp_set(a) == g.comp_set(b),
{
    assert forall|z: BBL| g.comp_set(a).contains(z) implies g.comp_set(b).contains(z) by {
        lemma_connected_sym(g, a, b);
        lemma_connected_trans(g, b, a, z);
    }
    assert forall|z: BBL| g.comp_set(b).contains(z) implies g.comp_set(a).contains(z) by {
        lemma_connected_trans(g, a, b, z);
    }
    assert(g.comp_set(a) =~= g.comp_set(b));
}

/// Linear scan over portfolios for one containing `b`.
fn in_any(ps: &Vec<Vec<BBL>>, b: &BBL) -> (r: bool)
    ensures
        r == in_some(ps@, *b),
{
    let mut j: usize = 0;
    while j < ps.len()
        invariant
            j <= ps@.len(),
            forall|t: int| 0 <= t < j ==> !(#[trigger] ps@[t])@.contains(*b),
        decreases ps@.len() - j,
    {
        if contains_vert(&ps[j], b) {
            proof {
                assert((ps@[j as int])@.contains(*b));
            }
            return true;
        }
        j += 1;
    }
    proof {
        if in_some(ps@, *b) {
            let t = choose|t: int| 0 <= t < ps@.len() && (#[trigger] ps@[t])@.contains(*b);
            assert(false);
        }
    }
    false
}

/// The index of the portfolio containing `b`, which must exist.
fn find_portfolio(ps: &Vec<Vec<BBL>>, b: &BBL) -> (r: usize)
    requires
        in_some(ps@, *b),
    ensures
        r < ps@.len(),
        (ps@[r as int])@.contains(*b),
{
    let mut j: usize = 0;
    while j < ps.len()
        invariant
            j <= ps@.len(),
            forall|t: int| 0 <= t < j ==> !(#[trigger] ps@[t])@.contains(*b),
            in_some(ps@, *b),
        decreases ps@.len() - j,
    {
        if contains_vert(&ps[j], b) {
            return j;
        }
        j += 1;
    }
    proof {
        let t = choose|t: int| 0 <= t < ps@.len() && (#[trigger] ps@[t])@.contains(*b);
        assert(false);
    }
    0
}

impl PortfolioBuilder {
    /// Compute the full partition into portfolios: scan the vertices in
    /// ascending order and collect the portfolio of every vertex not yet
    /// assigned, then build the reverse index over the sorted vertices.
    pub fn get_portfolios(&self) -> (pm: PortfolioMap)
        requires
            self.wf(),
        ensures
            is_partition_for(*self, pm),
    {
        let verts_sorted = sort_unique(&self.verts);
        let mut portfolios: Vec<Vec<BBL>> = Vec::new();
        let mut i: usize = 0;
        while i < verts_sorted.len()
            invariant
                self.wf(),
                sorted_strict(verts_sorted@),
                verts_sorted@.to_set() == self.dom(),
                i <= verts_sorted@.len(),
                forall|j: int|
                    0 <= j < portfolios@.len() ==> (#[trigger] portfolios@[j])@.len() > 0,
                forall|j: int|
                    0 <= j < portfolios@.len() ==> sorted_strict((#[trigger] portfolios@[j])@),
                forall|j: int|
                    0 <= j < portfolios@.len() ==> (#[trigger] portfolios@[j])@.to_set()
                        == self.comp_set(portfolios@[j]@[0]),
                forall|j1: int, j2: int|
                    0 <= j1 < j2 < portfolios@.len() ==> bbl_lt(
                        portfolios@[j1]@[0],
                        portfolios@[j2]@[0],
                    ),
                forall|j: int|
                    0 <= j < portfolios@.len() ==> exists|m: int|
                        0 <= m < i && verts_sorted@[m] == (#[trigger] portfolios@[j])@[0],
                forall|m: int| 0 <= m < i ==> in_some(portfolios@, #[trigger] verts_sorted@[m]),
            decreases verts_sorted@.len() - i,
        {
            let v = verts_sorted[i];
            if !in_any(&portfolios, &v) {
                proof {
                    assert(verts_sorted@.contains(v)) by {
                        assert(verts_sorted@[i as int] == v);
                    }
                    assert(self.dom().contains(v)) by {
                        assert(verts_sorted@.to_set().contains(v));
                    }
                    assert forall|x: BBL| self.comp_set(v).contains(x) implies bbl_le(v, x) by {
                        lemma_bbl_order_total(x, v);
                        if bbl_lt(x, v) {
                            lemma_connected_in_dom(*self, v, x);
                            assert(verts_sorted@.to_set().contains(x));
                            let m = choose|m: int|
                                0 <= m < verts_sorted@.len() && verts_sorted@[m] == x;
                            assert(m < i) by {
                                if m == i {
                                    assert(x == v);
                                    assert(false);
                                } else if m > i {
                                    assert(bbl_lt(verts_sorted@[i as int], verts_sorted@[m]));
                                    lemma_bbl_order_total(v, x);
                                    assert(false);
                                }
                            }
                            assert(in_some(portfolios@, x));
                            let j = choose|j: int|
                                0 <= j < portfolios@.len() && (#[trigger] portfolios@[j])@.contains(
                                    x,
                                );
                            let rt = portfolios@[j]@[0];
                            assert(portfolios@[j]@.to_set().contains(x));
                            assert(self.comp_set(rt).contains(x));
                            lemma_connected_sym(*self, v, x);
                            lemma_connected_trans(*self, rt, x, v);
                            assert(self.comp_set(rt).contains(v));
                            assert(portfolios@[j]@.to_set().contains(v));
                            assert(portfolios@[j]@.contains(v));
                            assert(in_some(portfolios@, v));
                            assert(false);
                        }
                    }
                }
                let comp = self.component_of(&v);
                proof {
                    lemma_connected_refl(*self, v);
                    assert(self.comp_set(v).contains(v));
                    assert(comp@.to_set().contains(v));
                    assert(comp@.contains(v));
                    lemma_sorted_first_min(comp@, v);
                    assert(comp@.contains(comp@[0]));
                    assert(comp@.to_set().contains(comp@[0]));
                    assert(self.comp_set(v).contains(comp@[0]));
                    assert(bbl_le(v, comp@[0]));
                    lemma_bbl_order_total(comp@[0], v);
                    assert(comp@[0] == v);
                }
                let ghost ps0 = portfolios@;
                portfolios.push(comp);
                proof {
                    assert forall|j: int| 0 <= j < portfolios@.len() implies (
                    #[trigger] portfolios@[j])@.len() > 0 && sorted_strict(portfolios@[j]@) && (
                    portfolios@[j])@.to_set() == self.comp_set(portfolios@[j]@[0]) by {
                        if j < ps0.len() {
                            assert(portfolios@[j] == ps0[j]);
                        } else {
                            assert(portfolios@[j] == comp);
                        }
                    }
                    assert forall|j1: int, j2: int| 0 <= j1 < j2 < portfolios@.len() implies
                        bbl_lt(portfolios@[j1]@[0], portfolios@[j2]@[0]) by {
                        if j2 < ps0.len() {
                            assert(portfolios@[j1] == ps0[j1] && portfolios@[j2] == ps0[j2]);
                        } else {
                            assert(portfolios@[j2] == comp);
                            assert(portfolios@[j1] == ps0[j1]);
                            let m = choose|m: int|
                                0 <= m < i && verts_sorted@[m] == (#[trigger] ps0[j1])@[0];
                            assert(bbl_lt(verts_sorted@[m], verts_sorted@[i as int]));
                        }
                    }
                    assert forall|j: int| 0 <= j < portfolios@.len() implies exists|m: int|
                        0 <= m < i + 1 && verts_sorted@[m] == (#[trigger] portfolios@[j])@[0] by {
                        if j < ps0.len() {
                            assert(portfolios@[j] == ps0[j]);
                            let m = choose|m: int|
                                0 <= m < i && verts_sorted@[m] == (#[trigger] ps0[j])@[0];
                            assert(0 <= m < i + 1 && verts_sorted@[m] == portfolios@[j]@[0]);
                        } else {
                            assert(portfolios@[j] == comp);
                            assert(verts_sorted@[i as int] == portfolios@[j]@[0]);
                        }
                    }
                    assert forall|m: int| 0 <= m < i + 1 implies in_some(
                        portfolios@,
                        #[trigger] verts_sorted@[m],
                    ) by {
                        if m < i {
                            assert(in_some(ps0, verts_sorted@[m]));
                            let j = choose|j: int|
                                0 <= j < ps0.len() && (#[trigger] ps0[j])@.contains(
                                    verts_sorted@[m],
                                );
                            assert(portfolios@[j] == ps0[j]);
                            assert((portfolios@[j])@.contains(verts_sorted@[m]));
                        } else {
                            let j = ps0.len() as int;
                            assert(portfolios@[j] == comp);
                            assert((portfolios@[j])@.contains(v));
                        }
                    }
                }
            } else {
                proof {
                    assert forall|m: int| 0 <= m < i + 1 implies in_some(
                        portfolios@,
                        #[trigger] verts_sorted@[m],
                    ) by {
                        if m == i {
                            assert(verts_sorted@[m] == v);
                        }
                    }
                }
            }
            i += 1;
        }
        proof {
            assert forall|b: BBL| #[trigger] self.dom().contains(b) implies in_some(
                portfolios@,
                b,
            ) by {
                assert(verts_sorted@.to_set().contains(b));
                let m = choose|m: int| 0 <= m < verts_sorted@.len() && verts_sorted@[m] == b;
                assert(in_some(portfolios@, verts_sorted@[m]));
            }
            assert forall|j: int, x: BBL|
                0 <= j < portfolios@.len() && #[trigger] (portfolios@[j]@.contains(x)) implies
                self.dom().contains(x) && portfolios@[j]@.to_set() == self.comp_set(x) by {
                let rt = portfolios@[j]@[0];
                assert(portfolios@[j]@.to_set().contains(x));
                assert(self.comp_set(rt).contains(x));
                let m = choose|m: int|
                    0 <= m < i && verts_sorted@[m] == (#[trigger] portfolios@[j])@[0];
                assert(verts_sorted@[m] == rt);
                assert(verts_sorted@.contains(rt));
                assert(verts_sorted@.to_set().contains(rt));
                assert(self.dom().contains(rt));
                lemma_connected_in_dom(*self, rt, x);
                lemma_comp_set_shift(*self, rt, x);
            }
        }
        let mut bbl_mapping: Vec<(BBL, usize)> = Vec::new();
        let mut k: usize = 0;
        while k < verts_sorted.len()
            invariant
                self.wf(),
                sorted_strict(verts_sorted@),
                verts_sorted@.to_set() == self.dom(),
                k <= verts_sorted@.len(),
                forall|b: BBL| #[trigger] self.dom().contains(b) ==> in_some(portfolios@, b),
                bbl_mapping@.len() == k,
                forall|t: int| 0 <= t < k ==> (#[trigger] bbl_mapping@[t]).0 == verts_sorted@[t],
                forall|t: int|
                    0 <= t < k ==> (#[trigger] bbl_mapping@[t]).1 < portfolios@.len() && (
                    portfolios@[bbl_mapping@[t].1 as int])@.contains(bbl_mapping@[t].0),
            decreases verts_sorted@.len() - k,
        {
            let b = verts_sorted[k];
            proof {
                assert(verts_sorted@[k as int] == b);
                assert(verts_sorted@.contains(b));
                assert(verts_sorted@.to_set().contains(b));
                assert(in_some(portfolios@, b));
            }
            let idx = find_portfolio(&portfolios, &b);
            bbl_mapping.push((b, idx));
            k += 1;
        }
        let pm = PortfolioMap { portfolios, bbl_mapping };
        proof {
            assert(pm.mapping_keys() =~= verts_sorted@) by {
                assert(pm.mapping_keys().len() == verts_sorted@.len());
                assert forall|t: int| 0 <= t < pm.mapping_keys().len() implies pm.mapping_keys()[t]
                    == verts_sorted@[t] by {
                    assert(pm.mapping_keys()[t] == pm.bbl_mapping@[t].0);
                }
            }
            assert forall|b: BBL| #[trigger] self.dom().contains(b) implies
                pm.mapping_keys().contains(b) by {
                assert(verts_sorted@.to_set().contains(b));
                let m = choose|m: int| 0 <= m < verts_sorted@.len() && verts_sorted@[m] == b;
                assert(pm.mapping_keys()[m] == b);
            }
            assert forall|i2: int, j2: int, x: BBL, y: BBL|
                #[trigger] pm.member_of(i2, x) && #[trigger] pm.member_of(j2, y) implies (
            self.connected(x, y) <==> i2 == j2) by {
                let r1 = pm.portfolio_at(i2)[0];
                let r2 = pm.portfolio_at(j2)[0];
                assert(pm.portfolio_at(i2).to_set().contains(x));
                assert(pm.portfolio_at(j2).to_set().contains(y));
                assert(self.comp_set(r1).contains(x));
                assert(self.comp_set(r2).contains(y));
                if i2 == j2 {
                    lemma_connected_sym(*self, r1, x);
                    lemma_connected_trans(*self, x, r1, y);
                } else {
                    if self.connected(x, y) {
                        lemma_connected_trans(*self, r1, x, y);
                        lemma_connected_sym(*self, r2, y);
                        lemma_connected_trans(*self, r1, y, r2);
                        assert(self.comp_set(r1).contains(r2));
                        assert(pm.portfolio_at(i2).to_set().contains(r2));
                        assert(pm.portfolio_at(i2).contains(r2));
                        lemma_sorted_first_min(pm.portfolio_at(i2), r2);
                        lemma_connected_sym(*self, r1, r2);
                        assert(self.comp_set(r2).contains(r1));
                        assert(pm.portfolio_at(j2).to_set().contains(r1));
                        assert(pm.portfolio_at(j2).contains(r1));
                        lemma_sorted_first_min(pm.portfolio_at(j2), r1);
                        lemma_bbl_order_total(r1, r2);
                        assert(r1 == r2);
                        if i2 < j2 {
                            assert(bbl_lt(r1, r2));
                            assert(false);
                        } else {
                            assert(bbl_lt(r2, r1));
                            assert(false);
                        }
                    }
                }
            }
        }
        pm
    }
}

/// Two strictly sorted sequences with the same element set are equal.
proof fn lemma_sorted_same_set(s1: Seq<BBL>, s2: Seq<BBL>)
    requires
        sorted_strict(s1),
        sorted_strict(s2),
        s1.to_set() == s2.to_set(),
    ensures
        s1 == s2,
    decreases s1.len(),
{
    if s1.len() == 0 {
        if s2.len() > 0 {
            assert(s2.contains(s2[0]));
            assert(s2.to_set().contains(s2[0]));
            assert(s1.contains(s2[0]));
            assert(false);
        }
        assert(s1 =~= s2);
    } else if s2.len() == 0 {
        assert(s1.contains(s1[0]));
        assert(s1.to_set().contains(s1[0]));
        assert(s2.contains(s1[0]));
        assert(false);
    } else {
        assert(s1.contains(s1[0]));
        assert(s1.to_set().contains(s1[0]));
        assert(s2.contains(s1[0]));
        lemma_sorted_first_min(s2, s1[0]);
        assert(s2.contains(s2[0]));
        assert(s2.to_set().contains(s2[0]));
        assert(s1.contains(s2[0]));
        lemma_sorted_first_min(s1, s2[0]);
        lemma_bbl_order_total(s1[0], s2[0]);
        assert(s1[0] == s2[0]);
        let t1 = s1.drop_first();
        let t2 = s2.drop_first();
        assert(sorted_strict(t1)) by {
            assert forall|i: int, j: int| 0 <= i < j < t1.len() implies bbl_lt(t1[i], t1[j]) by {
                assert(t1[i] == s1[i + 1] && t1[j] == s1[j + 1]);
            }
        }
        assert(sorted_strict(t2)) by {
            assert forall|i: int, j: int| 0 <= i < j < t2.len() implies bbl_lt(t2[i], t2[j]) by {
                assert(t2[i] == s2[i + 1] && t2[j] == s2[j + 1]);
            }
        }
        assert(t1.to_set() =~= s1.to_set().remove(s1[0])) by {
            assert forall|x: BBL| t1.to_set().contains(x) implies s1.to_set().remove(
                s1[0],
            ).contains(x) by {
                let m = choose|m: int| 0 <= m < t1.len() && t1[m] == x;
                assert(s1[m + 1] == x);
                assert(s1.contains(x));
                assert(bbl_lt(s1[0], s1[m + 1]));
                lemma_bbl_order_total(s1[0], x);
            }
            assert forall|x: BBL| s1.to_set().remove(s1[0]).contains(x) implies
                t1.to_set().contains(x) by {
                let m = choose|m: int| 0 <= m < s1.len() && s1[m] == x;
                assert(m != 0);
                assert(t1[m - 1] == x);
                assert(t1.contains(x));
            }
        }
        assert(t2.to_set() =~= s2.to_set().remove(s2[0])) by {
            assert forall|x: BBL| t2.to_set().contains(x) implies s2.to_set().remove(
                s2[0],
            ).contains(x) by {
                let m = choose|m: int| 0 <= m < t2.len() && t2[m] == x;
                assert(s2[m + 1] == x);
                assert(s2.contains(x));
                assert(bbl_lt(s2[0], s2[m + 1]));
                lemma_bbl_order_total(s2[0], x);
            }
            assert forall|x: BBL| s2.to_set().remove(s2[0]).contains(x) implies
                t2.to_set().contains(x) by {
                let m = choose|m: int| 0 <= m < s2.len() && s2[m] == x;
                assert(m != 0);
                assert(t2[m - 1] == x);
                assert(t2.contains(x));
            }
        }
        lemma_sorted_same_set(t1, t2);
        assert(s1 =~= s2) by {
            assert forall|m: int| 0 <= m < s1.len() implies s1[m] == s2[m] by {
                if m > 0 {
                    assert(s1[m] == t1[m - 1] && s2[m] == t2[m - 1]);
                }
            }
        }
    }
}

/// The portfolio of `x` in a partition report is, as a set, everything
/// connected to `x`.
proof fn lemma_partition_member_set(g: PortfolioBuilder, pm: PortfolioMap, t: int, x: BBL)
    requires
        g.wf(),
        is_partition_for(g, pm),
        pm.member_of(t, x),
    ensures
        forall|y: BBL|
            #[trigger] (pm.portfolio_at(t).contains(y)) <==> g.comp_set(x).contains(y),
        forall|y: BBL|
            #[trigger] (g.comp_set(x).contains(y)) <==> pm.portfolio_at(t).contains(y),
{
    assert forall|y: BBL| pm.portfolio_at(t).contains(y) implies g.comp_set(x).contains(y) by {
        assert(pm.member_of(t, y));
    }
    assert forall|y: BBL| g.comp_set(x).contains(y) implies pm.portfolio_at(t).contains(y) by {
        assert(g.connected(x, y));
        assert(g.dom().contains(x));
        lemma_connected_in_dom(g, x, y);
        assert(in_some(pm.portfolios@, y));
        let j = choose|j: int|
            0 <= j < pm.portfolios@.len() && (#[trigger] pm.portfolios@[j])@.contains(y);
        assert(pm.member_of(j, y));
        assert(g.connected(x, y) && pm.member_of(t, x) && pm.member_of(j, y));
        assert(j == t);
    }
}

/// Determinism of the report: the clauses of `is_partition_for` admit only
/// one value.  Two reports for the same graph agree portfolio by portfolio
/// and entry by entry.
pub proof fn lemma_partition_unique(g: PortfolioBuilder, pm1: PortfolioMap, pm2: PortfolioMap)
    requires
        g.wf(),
        is_partition_for(g, pm1),
        is_partition_for(g, pm2),
    ensures
        pm1.num_portfolios() == pm2.num_portfolios(),
        forall|i: int|
            0 <= i < pm1.num_portfolios() ==> #[trigger] pm1.portfolio_at(i)
                == pm2.portfolio_at(i),
        pm1.bbl_mapping@ == pm2.bbl_mapping@,
{
    let n1 = pm1.num_portfolios();
    let n2 = pm2.num_portfolios();
    let n = if n1 < n2 {
        n1
    } else {
        n2
    };
    lemma_partition_prefix_equal(g, pm1, pm2, n);
    if n1 < n2 {
        let x = pm2.portfolio_at(n1)[0];
        assert(pm2.portfolio_at(n1).contains(x));
        assert(pm2.member_of(n1, x));
        assert(g.dom().contains(x));
        assert(in_some(pm1.portfolios@, x));
        let j = choose|j: int|
            0 <= j < pm1.portfolios@.len() && (#[trigger] pm1.portfolios@[j])@.contains(x);
        assert(pm1.member_of(j, x));
        assert(pm1.portfolio_at(j) == pm2.portfolio_at(j));
        assert(pm2.member_of(j, x));
        lemma_connected_refl(g, x);
        assert(j == n1);
        assert(false);
    } else if n2 < n1 {
        let x = pm1.portfolio_at(n2)[0];
        assert(pm1.portfolio_at(n2).contains(x));
        assert(pm1.member_of(n2, x));
        assert(g.dom().contains(x));
        assert(in_some(pm2.portfolios@, x));
        let j = choose|j: int|
            0 <= j < pm2.portfolios@.len() && (#[trigger] pm2.portfolios@[j])@.contains(x);
        assert(pm2.member_of(j, x));
        assert(pm1.portfolio_at(j) == pm2.portfolio_at(j));
        assert(pm1.member_of(j, x));
        lemma_connected_refl(g, x);
        assert(j == n2);
        assert(false);
    }
    assert(pm1.mapping_keys() == pm2.mapping_keys()) by {
        assert(pm1.mapping_keys().to_set() =~= pm2.mapping_keys().to_set()) by {
            assert forall|b: BBL| pm1.mapping_keys().to_set().contains(b) implies
                pm2.mapping_keys().to_set().contains(b) by {
                let t = choose|t: int|
                    0 <= t < pm1.mapping_keys().len() && pm1.mapping_keys()[t] == b;
                assert(pm1.mapping_keys()[t] == pm1.bbl_mapping@[t].0);
                assert(pm1.member_of(pm1.bbl_mapping@[t].1 as int, b));
                assert(g.dom().contains(b));
                assert(pm2.mapping_keys().contains(b));
            }
            assert forall|b: BBL| pm2.mapping_keys().to_set().contains(b) implies
                pm1.mapping_keys().to_set().contains(b) by {
                let t = choose|t: int|
                    0 <= t < pm2.mapping_keys().len() && pm2.mapping_keys()[t] == b;
                assert(pm2.mapping_keys()[t] == pm2.bbl_mapping@[t].0);
                assert(pm2.member_of(pm2.bbl_mapping@[t].1 as int, b));
                assert(g.dom().contains(b));
                assert(pm1.mapping_keys().contains(b));
            }
        }
        lemma_sorted_same_set(pm1.mapping_keys(), pm2.mapping_keys());
    }
    assert(pm1.bbl_mapping@ =~= pm2.bbl_mapping@) by {
        assert(pm1.bbl_mapping@.len() == pm1.mapping_keys().len());
        assert(pm2.bbl_mapping@.len() == pm2.mapping_keys().len());
        assert forall|t: int| 0 <= t < pm1.bbl_mapping@.len() implies pm1.bbl_mapping@[t]
            == pm2.bbl_mapping@[t] by {
            let b = pm1.bbl_mapping@[t].0;
            assert(pm1.mapping_keys()[t] == b);
            assert(pm2.mapping_keys()[t] == pm2.bbl_mapping@[t].0);
            assert(pm2.bbl_mapping@[t].0 == b);
            let i1 = pm1.bbl_mapping@[t].1;
            let i2 = pm2.bbl_mapping@[t].1;
            assert(pm1.member_of(i1 as int, b));
            assert(pm2.member_of(i2 as int, b));
            assert(pm1.portfolio_at(i2 as int) == pm2.portfolio_at(i2 as int));
            assert(pm1.member_of(i2 as int, b));
            lemma_connected_refl(g, b);
            assert(i1 as int == i2 as int);
            assert(pm1.bbl_mapping@[t] == (b, i1));
            assert(pm2.bbl_mapping@[t] == (b, i2));
        }
    }
}

/// Portfolios of matching index in two reports for the same graph are equal:
/// the inductive step behind `lemma_partition_unique`.
proof fn lemma_partition_prefix_equal(g: PortfolioBuilder, pm1: PortfolioMap, pm2: PortfolioMap, n: int)
    requires
        g.wf(),
        is_partition_for(g, pm1),
        is_partition_for(g, pm2),
        0 <= n <= pm1.num_portfolios(),
        n <= pm2.num_portfolios(),
    ensures
        forall|j: int| 0 <= j < n ==> #[trigger] pm1.portfolio_at(j) == pm2.portfolio_at(j),
    decreases n,
{
    if n > 0 {
        lemma_partition_prefix_equal(g, pm1, pm2, n - 1);
        let t = n - 1;
        let b1 = pm1.portfolio_at(t)[0];
        let b2 = pm2.portfolio_at(t)[0];
        assert(pm1.portfolio_at(t).contains(b1));
        assert(pm1.member_of(t, b1));
        assert(pm2.portfolio_at(t).contains(b2));
        assert(pm2.member_of(t, b2));
        assert(g.dom().contains(b1));
        assert(g.dom().contains(b2));
        assert(in_some(pm2.portfolios@, b1));
        let j2 = choose|j: int|
            0 <= j < pm2.portfolios@.len() && (#[trigger] pm2.portfolios@[j])@.contains(b1);
        assert(pm2.member_of(j2, b1));
        assert(j2 >= t) by {
            if j2 < t {
                assert(pm1.portfolio_at(j2) == pm2.portfolio_at(j2));
                assert(pm1.member_of(j2, b1));
                lemma_connected_refl(g, b1);
                assert(j2 == t);
            }
        }
        assert(bbl_le(b2, b1)) by {
            lemma_sorted_first_min(pm2.portfolio_at(j2), b1);
            if j2 > t {
                assert(bbl_lt(pm2.portfolio_at(t)[0], pm2.portfolio_at(j2)[0]));
                lemma_bbl_lt_trans_le(b2, pm2.portfolio_at(j2)[0], b1);
            }
        }
        assert(in_some(pm1.portfolios@, b2));
        let j1 = choose|j: int|
            0 <= j < pm1.portfolios@.len() && (#[trigger] pm1.portfolios@[j])@.contains(b2);
        assert(pm1.member_of(j1, b2));
        assert(j1 >= t) by {
            if j1 < t {
                assert(pm1.portfolio_at(j1) == pm2.portfolio_at(j1));
                assert(pm2.member_of(j1, b2));
                lemma_connected_refl(g, b2);
                assert(j1 == t);
            }
        }
        assert(bbl_le(b1, b2)) by {
            lemma_sorted_first_min(pm1.portfolio_at(j1), b2);
            if j1 > t {
                assert(bbl_lt(pm1.portfolio_at(t)[0], pm1.portfolio_at(j1)[0]));
                lemma_bbl_lt_trans_le(b1, pm1.portfolio_at(j1)[0], b2);
            }
        }
        lemma_bbl_order_total(b1, b2);
        assert(b1 == b2);
        lemma_partition_member_set(g, pm1, t, b1);
        lemma_partition_member_set(g, pm2, t, b1);
        assert(pm1.portfolio_at(t).to_set() =~= pm2.portfolio_at(t).to_set()) by {
            assert forall|y: BBL| pm1.portfolio_at(t).to_set().contains(y) implies
                pm2.portfolio_at(t).to_set().contains(y) by {
                assert(pm1.portfolio_at(t).contains(y));
                assert(g.comp_set(b1).contains(y));
                assert(pm2.portfolio_at(t).contains(y));
            }
            assert forall|y: BBL| pm2.portfolio_at(t).to_set().contains(y) implies
                pm1.portfolio_at(t).to_set().contains(y) by {
                assert(pm2.portfolio_at(t).contains(y));
                assert(g.comp_set(b1).contains(y));
                assert(pm1.portfolio_at(t).contains(y));
            }
        }
        lemma_sorted_same_set(pm1.portfolio_at(t), pm2.portfolio_at(t));
    }
}

/// Symmetry law: after associating two distinct BBLs both are vertices and
/// each is in the other's adjacency set; associating a BBL with itself
/// changes neither the vertex set nor the adjacency relation.
pub proof fn lemma_associate_symmetric(
    pre: PortfolioBuilder,
    post: PortfolioBuilder,
    a: BBL,
    b: BBL,
)
    requires
        associate_effect(pre, post, a, b),
    ensures
        a != b ==> post.dom().contains(a) && post.dom().contains(b) && post.edge(a, b)
            && post.edge(b, a),
        a == b ==> post.dom() == pre.dom() && forall|x: BBL, y: BBL|
            post.edge(x, y) == pre.edge(x, y),
{
}

/// Idempotence law: repeating an association leaves the vertex set and the
/// adjacency relation exactly as they were after the first call.
pub proof fn lemma_associate_idempotent(
    g0: PortfolioBuilder,
    g1: PortfolioBuilder,
    g2: PortfolioBuilder,
    a: BBL,
    b: BBL,
)
    requires
        associate_effect(g0, g1, a, b),
        associate_effect(g1, g2, a, b),
    ensures
        g2.dom() == g1.dom(),
        forall|x: BBL, y: BBL| g2.edge(x, y) == g1.edge(x, y),
{
    if a != b {
        assert(g2.dom() =~= g1.dom());
    }
}

/// A builder that holds nothing yet: what `PortfolioBuilder::new` returns.
pub open spec fn unbuilt(g: PortfolioBuilder) -> bool {
    &&& g.dom() == Set::<BBL>::empty()
    &&& forall|x: BBL, y: BBL| !g.edge(x, y)
}

/// `g` is a state obtained from `g0` by the given `associate` calls, in
/// order, as `associate`'s contract describes them.
pub open spec fn replayed(g0: PortfolioBuilder, calls: Seq<(BBL, BBL)>, g: PortfolioBuilder) -> bool
    decreases calls.len(),
{
    if calls.len() == 0 {
        g.dom() == g0.dom() && forall|x: BBL, y: BBL| g.edge(x, y) == g0.edge(x, y)
    } else {
        exists|mid: PortfolioBuilder|
            replayed(g0, calls.drop_last(), mid) && #[trigger] associate_effect(
                mid,
                g,
                calls.last().0,
                calls.last().1,
            )
    }
}

/// The endpoints of the distinct non-self pairs among the calls.
pub open spec fn call_verts(calls: Seq<(BBL, BBL)>) -> Set<BBL> {
    Set::new(
        |v: BBL|
            exists|i: int|
                0 <= i < calls.len() && (#[trigger] calls[i]).0 != calls[i].1 && (calls[i].0 == v
                    || calls[i].1 == v),
    )
}

/// The adjacency the calls ask for: some call names the unordered pair.
pub open spec fn call_edge(calls: Seq<(BBL, BBL)>, x: BBL, y: BBL) -> bool {
    x != y && exists|i: int|
        0 <= i < calls.len() && ((#[trigger] calls[i]) == (x, y) || calls[i] == (y, x))
}

/// Determinism of building: replaying any sequence of associations from an
/// empty builder yields exactly the graph of the pairs mentioned.  Vertex
/// set and adjacency relation depend on the set of pairs alone — not on call
/// order, and not on repetition.
pub proof fn lemma_replay_characterized(
    g0: PortfolioBuilder,
    calls: Seq<(BBL, BBL)>,
    g: PortfolioBuilder,
)
    requires
        unbuilt(g0),
        replayed(g0, calls, g),
    ensures
        g.dom() == call_verts(calls),
        forall|x: BBL, y: BBL| #[trigger] g.edge(x, y) == call_edge(calls, x, y),
    decreases calls.len(),
{
    if calls.len() == 0 {
        assert(g.dom() =~= call_verts(calls)) by {
            assert forall|v: BBL| !call_verts(calls).contains(v) by {
                if exists|i: int|
                    0 <= i < calls.len() && (#[trigger] calls[i]).0 != calls[i].1 && (calls[i].0
                        == v || calls[i].1 == v) {
                    assert(false);
                }
            }
        }
        assert forall|x: BBL, y: BBL| #[trigger] g.edge(x, y) == call_edge(calls, x, y) by {
            if call_edge(calls, x, y) {
                let i = choose|i: int|
                    0 <= i < calls.len() && ((#[trigger] calls[i]) == (x, y) || calls[i] == (
                    y,
                    x,
                ));
                assert(false);
            }
        }
    } else {
        let pre = calls.drop_last();
        let a = calls.last().0;
        let b = calls.last().1;
        let mid = choose|mid: PortfolioBuilder|
            replayed(g0, calls.drop_last(), mid) && #[trigger] associate_effect(
                mid,
                g,
                calls.last().0,
                calls.last().1,
            );
        lemma_replay_characterized(g0, pre, mid);
        assert(calls[calls.len() - 1] == (a, b)) by {
            assert(calls.last() == (calls.last().0, calls.last().1));
        }
        assert(g.dom() =~= call_verts(calls)) by {
            assert forall|v: BBL| g.dom().contains(v) implies call_verts(calls).contains(v) by {
                if mid.dom().contains(v) {
                    assert(call_verts(pre).contains(v));
                    let i = choose|i: int|
                        0 <= i < pre.len() && (#[trigger] pre[i]).0 != pre[i].1 && (pre[i].0 == v
                            || pre[i].1 == v);
                    assert(calls[i] == pre[i]);
                    assert((calls[i]).0 != calls[i].1 && (calls[i].0 == v || calls[i].1 == v));
                } else {
                    assert(a != b && (v == a || v == b));
                    assert((calls[calls.len() - 1]).0 != calls[calls.len() - 1].1 && (calls[calls.len()
                        - 1].0 == v || calls[calls.len() - 1].1 == v));
                }
            }
            assert forall|v: BBL| call_verts(calls).contains(v) implies g.dom().contains(v) by {
                let i = choose|i: int|
                    0 <= i < calls.len() && (#[trigger] calls[i]).0 != calls[i].1 && (calls[i].0
                        == v || calls[i].1 == v);
                if i < pre.len() {
                    assert(pre[i] == calls[i]);
                    assert((pre[i]).0 != pre[i].1 && (pre[i].0 == v || pre[i].1 == v));
                    assert(call_verts(pre).contains(v));
                    assert(mid.dom().contains(v));
                } else {
                    assert(a != b && (v == a || v == b));
                }
            }
        }
        assert forall|x: BBL, y: BBL| #[trigger] g.edge(x, y) == call_edge(calls, x, y) by {
            if g.edge(x, y) {
                if mid.edge(x, y) {
                    assert(call_edge(pre, x, y));
                    let i = choose|i: int|
                        0 <= i < pre.len() && ((#[trigger] pre[i]) == (x, y) || pre[i] == (y, x));
                    assert(calls[i] == pre[i]);
                    assert((calls[i]) == (x, y) || calls[i] == (y, x));
                    assert(call_edge(calls, x, y));
                } else {
                    assert(a != b && ((x == a && y == b) || (x == b && y == a)));
                    assert((calls[calls.len() - 1]) == (x, y) || calls[calls.len() - 1] == (y, x));
                    assert(call_edge(calls, x, y));
                }
            }
            if call_edge(calls, x, y) {
                let i = choose|i: int|
                    0 <= i < calls.len() && ((#[trigger] calls[i]) == (x, y) || calls[i] == (
                    y,
                    x,
                ));
                if i < pre.len() {
                    assert(pre[i] == calls[i]);
                    assert((pre[i]) == (x, y) || pre[i] == (y, x));
                    assert(call_edge(pre, x, y));
                    assert(mid.edge(x, y));
                    assert(g.edge(x, y));
                } else {
                    assert(calls[i] == (a, b));
                    assert((x == a && y == b) || (x == b && y == a));
                    assert(g.edge(x, y));
                }
            }
        }
    }
}

/// Two builders fed the same set of associations, in any orders and with any
/// repetitions, hold the same vertex set and the same adjacency relation.
pub proof fn lemma_build_order_irrelevant(
    g0a: PortfolioBuilder,
    c1: Seq<(BBL, BBL)>,
    g1: PortfolioBuilder,
    g0b: PortfolioBuilder,
    c2: Seq<(BBL, BBL)>,
    g2: PortfolioBuilder,
)
    requires
        unbuilt(g0a),
        unbuilt(g0b),
        replayed(g0a, c1, g1),
        replayed(g0b, c2, g2),
        c1.to_set() == c2.to_set(),
    ensures
        g1.dom() == g2.dom(),
        forall|x: BBL, y: BBL| g1.edge(x, y) == g2.edge(x, y),
{
    lemma_replay_characterized(g0a, c1, g1);
    lemma_replay_characterized(g0b, c2, g2);
    assert(call_verts(c1) =~= call_verts(c2)) by {
        assert forall|v: BBL| call_verts(c1).contains(v) implies call_verts(c2).contains(v) by {
            let i = choose|i: int|
                0 <= i < c1.len() && (#[trigger] c1[i]).0 != c1[i].1 && (c1[i].0 == v || c1[i].1
                    == v);
            assert(c1.contains(c1[i]));
            assert(c1.to_set().contains(c1[i]));
            assert(c2.contains(c1[i]));
            let j = choose|j: int| 0 <= j < c2.len() && c2[j] == c1[i];
            assert((c2[j]).0 != c2[j].1 && (c2[j].0 == v || c2[j].1 == v));
        }
        assert forall|v: BBL| call_verts(c2).contains(v) implies call_verts(c1).contains(v) by {
            let i = choose|i: int|
                0 <= i < c2.len() && (#[trigger] c2[i]).0 != c2[i].1 && (c2[i].0 == v || c2[i].1
                    == v);
            assert(c2.contains(c2[i]));
            assert(c2.to_set().contains(c2[i]));
            assert(c1.contains(c2[i]));
            let j = choose|j: int| 0 <= j < c1.len() && c1[j] == c2[i];
            assert((c1[j]).0 != c1[j].1 && (c1[j].0 == v || c1[j].1 == v));
        }
    }
    assert forall|x: BBL, y: BBL| g1.edge(x, y) == g2.edge(x, y) by {
        if call_edge(c1, x, y) {
            let i = choose|i: int|
                0 <= i < c1.len() && ((#[trigger] c1[i]) == (x, y) || c1[i] == (y, x));
            assert(c1.contains(c1[i]));
            assert(c1.to_set().contains(c1[i]));
            assert(c2.contains(c1[i]));
            let j = choose|j: int| 0 <= j < c2.len() && c2[j] == c1[i];
            assert((c2[j]) == (x, y) || c2[j] == (y, x));
            assert(call_edge(c2, x, y));
        }
        if call_edge(c2, x, y) {
            let i = choose|i: int|
                0 <= i < c2.len() && ((#[trigger] c2[i]) == (x, y) || c2[i] == (y, x));
            assert(c2.contains(c2[i]));
            assert(c2.to_set().contains(c2[i]));
            assert(c1.contains(c2[i]));
            let j = choose|j: int| 0 <= j < c1.len() && c1[j] == c2[i];
            assert((c1[j]) == (x, y) || c1[j] == (y, x));
            assert(call_edge(c1, x, y));
        }
    }
}

/// Builders with the same vertices and the same adjacency owe the same
/// partition report: `is_partition_for` carries over.  Together with
/// `lemma_partition_unique` and the replay laws this says that the report is
/// a function of the set of associations fed in, whatever the order.
pub proof fn lemma_same_graph_same_partition(
    g1: PortfolioBuilder,
    g2: PortfolioBuilder,
    pm: PortfolioMap,
)
    requires
        g1.dom() == g2.dom(),
        forall|x: BBL, y: BBL| g1.edge(x, y) == g2.edge(x, y),
        is_partition_for(g1, pm),
    ensures
        is_partition_for(g2, pm),
{
    assert forall|x: BBL, y: BBL| #[trigger] g1.connected(x, y) implies g2.connected(x, y) by {
        let p = choose|p: Seq<BBL>| g1.is_path(p) && p.first() == x && p.last() == y;
        assert(g2.is_path(p)) by {
            assert forall|i: int| 0 <= i < p.len() - 1 implies g2.edge(#[trigger] p[i], p[i + 1]) by {
                assert(g1.edge(p[i], p[i + 1]));
            }
        }
    }
    assert forall|x: BBL, y: BBL| #[trigger] g2.connected(x, y) implies g1.connected(x, y) by {
        let p = choose|p: Seq<BBL>| g2.is_path(p) && p.first() == x && p.last() == y;
        assert(g1.is_path(p)) by {
            assert forall|i: int| 0 <= i < p.len() - 1 implies g1.edge(#[trigger] p[i], p[i + 1]) by {
                assert(g2.edge(p[i], p[i + 1]));
            }
        }
    }
    assert forall|i: int, j: int, x: BBL, y: BBL|
        #[trigger] pm.member_of(i, x) && #[trigger] pm.member_of(j, y) implies (g2.connected(x, y)
        <==> i == j) by {
        assert(g1.connected(x, y) <==> i == j);
    }
}

/// Idempotence carried to the report: a repeated association leaves every
/// partition report owed exactly as after the single call.
pub proof fn lemma_associate_idempotent_partition(
    g0: PortfolioBuilder,
    g1: PortfolioBuilder,
    g2: PortfolioBuilder,
    a: BBL,
    b: BBL,
    pm1: PortfolioMap,
    pm2: PortfolioMap,
)
    requires
        g1.wf(),
        associate_effect(g0, g1, a, b),
        associate_effect(g1, g2, a, b),
        is_partition_for(g1, pm1),
        is_partition_for(g2, pm2),
    ensures
        pm1.num_portfolios() == pm2.num_portfolios(),
        forall|i: int|
            0 <= i < pm1.num_portfolios() ==> #[trigger] pm1.portfolio_at(i)
                == pm2.portfolio_at(i),
        pm1.bbl_mapping@ == pm2.bbl_mapping@,
{
    lemma_associate_idempotent(g0, g1, g2, a, b);
    lemma_same_graph_same_partition(g2, g1, pm2);
    lemma_partition_unique(g1, pm1, pm2);
}

/// Full determinism: two builders fed the same set of associations, in any
/// orders and with any repetitions, owe identical partition reports — same
/// component contents, same component ordering, same reverse index.
pub proof fn lemma_build_determinism(
    g0a: PortfolioBuilder,
    c1: Seq<(BBL, BBL)>,
    g1: PortfolioBuilder,
    g0b: PortfolioBuilder,
    c2: Seq<(BBL, BBL)>,
    g2: PortfolioBuilder,
    pm1: PortfolioMap,
    pm2: PortfolioMap,
)
    requires
        g1.wf(),
        unbuilt(g0a),
        unbuilt(g0b),
        replayed(g0a, c1, g1),
        replayed(g0b, c2, g2),
        c1.to_set() == c2.to_set(),
        is_partition_for(g1, pm1),
        is_partition_for(g2, pm2),
    ensures
        pm1.num_portfolios() == pm2.num_portfolios(),
        forall|i: int|
            0 <= i < pm1.num_portfolios() ==> #[trigger] pm1.portfolio_at(i)
                == pm2.portfolio_at(i),
        pm1.bbl_mapping@ == pm2.bbl_mapping@,
{
    lemma_build_order_irrelevant(g0a, c1, g1, g0b, c2, g2);
    lemma_same_graph_same_partition(g2, g1, pm2);
    lemma_partition_unique(g1, pm1, pm2);
}

/// Chain a strict and a non-strict comparison.
proof fn lemma_bbl_lt_trans_le(a: BBL, b: BBL, c: BBL)
    requires
        bbl_lt(a, b),
        bbl_le(b, c),
    ensures
        bbl_lt(a, c),
{
    if b != c {
        lemma_bbl_lt_trans(a, b, c);
    }
}

} // verus!
