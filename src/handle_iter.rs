use vstd::multiset::Multiset;
use vstd::prelude::*;
use crate::area::Area;
use crate::qtinner::{lemma_handles_multiset, lemma_quarters, lemma_within, QTInner};

verus! {

broadcast use {
    vstd::seq_lib::group_seq_properties,
    vstd::multiset::group_multiset_axioms,
    vstd::seq_lib::group_to_multiset_ensures,
};

/// How much work is left in a subtree: one step for each node and one for each
/// handle it keeps.
pub open spec fn weight(n: QTInner) -> nat
    decreases n,
{
    1 + n.kept@.len() + match n.children {
        None => 0,
        Some(q) => weight(q.nw) + weight(q.ne) + weight(q.sw) + weight(q.se),
    }
}

/// The work left in every subtree of a stack of nodes.
pub open spec fn stack_weight(s: Seq<&QTInner>) -> nat
    decreases s.len(),
{
    if s.len() == 0 {
        0
    } else {
        stack_weight(s.drop_last()) + weight(*s.last())
    }
}

/// The handles held under a stack of nodes, counted.
pub open spec fn stack_handles(s: Seq<&QTInner>) -> Multiset<u128>
    decreases s.len(),
{
    if s.len() == 0 {
        Multiset::empty()
    } else {
        stack_handles(s.drop_last()).add(s.last().handles().to_multiset())
    }
}

/// The order in which a walk started at `n` hands out the handles of its
/// subtree: the node's own, last kept first, then the subtrees of its
/// southeast, southwest, northeast and northwest children.
pub open spec fn walk(n: QTInner) -> Seq<u128>
    decreases n,
{
    n.kept@.reverse() + match n.children {
        None => Seq::empty(),
        Some(q) => walk(q.se) + walk(q.sw) + walk(q.ne) + walk(q.nw),
    }
}

/// The order in which the subtrees of a stack of nodes are walked: the top of
/// the stack first.
pub open spec fn stack_order(s: Seq<&QTInner>) -> Seq<u128>
    decreases s.len(),
{
    if s.len() == 0 {
        Seq::empty()
    } else {
        walk(*s.last()) + stack_order(s.drop_last())
    }
}

proof fn lemma_stack_order_push(s: Seq<&QTInner>, n: &QTInner)
    ensures
        stack_order(s.push(n)) == walk(*n) + stack_order(s),
{
    assert(s.push(n).drop_last() =~= s);
}

/// Visiting the node on top of a stack: its own handles come first, then
/// the subtrees of the children it puts on the stack.
proof fn lemma_visit_order(qs1: Seq<&QTInner>, qt: &QTInner, qs2: Seq<&QTInner>)
    requires
        qt.children matches Some(q) ==> qs2 == qs1.push(&q.nw).push(&q.ne).push(&q.sw).push(&q.se),
        qt.children is None ==> qs2 == qs1,
    ensures
        qt.kept@.reverse() + stack_order(qs2) == stack_order(qs1.push(qt)),
{
    lemma_stack_order_push(qs1, qt);
    match qt.children {
        None => {
            assert(qt.kept@.reverse() + stack_order(qs2) =~= walk(*qt) + stack_order(qs1));
        },
        Some(q) => {
            lemma_stack_order_push(qs1, &q.nw);
            lemma_stack_order_push(qs1.push(&q.nw), &q.ne);
            lemma_stack_order_push(qs1.push(&q.nw).push(&q.ne), &q.sw);
            lemma_stack_order_push(qs1.push(&q.nw).push(&q.ne).push(&q.sw), &q.se);
            assert(qt.kept@.reverse() + stack_order(qs2) =~= walk(*qt) + stack_order(qs1));
        },
    }
}

proof fn lemma_stack_push(s: Seq<&QTInner>, n: &QTInner)
    ensures
        stack_weight(s.push(n)) == stack_weight(s) + weight(*n),
        stack_handles(s.push(n)) == stack_handles(s).add(n.handles().to_multiset()),
{
    assert(s.push(n).drop_last() =~= s);
}

/// The descent from `n` towards `req`: the handles kept at the nodes passed
/// through, top down, and the node where it stops. It steps into the first
/// child, in the order northwest, northeast, southwest, southeast, whose
/// region wholly contains `req`, and stops where no child does. Where `n`
/// itself does not contain `req`, it does not move.
pub open spec fn descent(n: QTInner, req: Area) -> (Seq<u128>, QTInner)
    decreases n,
{
    if !n.region.spec_contains(req) {
        (Seq::empty(), n)
    } else {
        match n.children {
            None => (Seq::empty(), n),
            Some(q) => if q.nw.region.spec_contains(req) {
                let d = descent(q.nw, req);
                (n.kept@ + d.0, d.1)
            } else if q.ne.region.spec_contains(req) {
                let d = descent(q.ne, req);
                (n.kept@ + d.0, d.1)
            } else if q.sw.region.spec_contains(req) {
                let d = descent(q.sw, req);
                (n.kept@ + d.0, d.1)
            } else if q.se.region.spec_contains(req) {
                let d = descent(q.se, req);
                (n.kept@ + d.0, d.1)
            } else {
                (Seq::empty(), n)
            },
        }
    }
}

/// No child of `n` wholly contains `req`.
pub open spec fn no_child_contains(n: QTInner, req: Area) -> bool {
    n.children matches Some(q) ==> {
        &&& !q.nw.region.spec_contains(req)
        &&& !q.ne.region.spec_contains(req)
        &&& !q.sw.region.spec_contains(req)
        &&& !q.se.region.spec_contains(req)
    }
}

/// Stepping from `n` into its child `c`, whose region contains `req`, and
/// setting aside the handles that `n` keeps, loses no handle of an entry that
/// intersects `req`: the handles under the other children lie in quarters
/// that `req` does not reach.
proof fn lemma_enter(n: QTInner, c: QTInner, m: Map<u128, Area>, req: Area)
    requires
        n.wf(),
        n.placed(m),
        req.wf(),
        n.children matches Some(q) && (c == q.nw || c == q.ne || c == q.sw || c == q.se),
        c.region.spec_contains(req),
    ensures
        n.kept@.to_multiset().add(c.handles().to_multiset()).subset_of(n.handles().to_multiset()),
        forall|h: u128|
            n.handles().to_multiset().contains(h) && req.spec_intersects(m[h])
                ==> #[trigger] n.kept@.to_multiset().add(c.handles().to_multiset()).contains(h),
        c.wf(),
        c.placed(m),
        c.depth < n.depth,
{
    let q = n.children.unwrap();
    lemma_handles_multiset(n);
    lemma_quarters(n.region, n.depth as nat);
    lemma_within(q.nw, m);
    lemma_within(q.ne, m);
    lemma_within(q.sw, m);
    lemma_within(q.se, m);
    assert forall|h: u128|
        n.handles().to_multiset().contains(h) && req.spec_intersects(m[h])
            implies #[trigger] n.kept@.to_multiset().add(c.handles().to_multiset()).contains(h) by {
        if q.nw.handles().to_multiset().contains(h) {
            assert(q.nw.handles().contains(h));
        }
        if q.ne.handles().to_multiset().contains(h) {
            assert(q.ne.handles().contains(h));
        }
        if q.sw.handles().to_multiset().contains(h) {
            assert(q.sw.handles().contains(h));
        }
        if q.se.handles().to_multiset().contains(h) {
            assert(q.se.handles().contains(h));
        }
    }
}

/// A walk over the handles held in a tree, one at a time.
///
/// It keeps a stack of nodes still to visit and a stack of handles met but not
/// yet handed out. Each visited node puts its children on the first stack and
/// its own handles on the second.
pub(crate) struct HandleIter<'a> {
    pub(crate) handle_stack: Vec<u128>,
    pub(crate) qt_stack: Vec<&'a QTInner>,
}

impl<'a> HandleIter<'a> {
    /// Every node still to visit is well formed.
    pub(crate) open spec fn wf(&self) -> bool {
        forall|i: int| 0 <= i < self.qt_stack@.len() ==> (#[trigger] self.qt_stack@[i]).wf()
    }

    /// The handles still to come, counted.
    pub(crate) open spec fn pending(&self) -> Multiset<u128> {
        self.handle_stack@.to_multiset().add(stack_handles(self.qt_stack@))
    }

    /// The handles still to come, in the order they will come.
    pub(crate) open spec fn order(&self) -> Seq<u128> {
        self.handle_stack@.reverse() + stack_order(self.qt_stack@)
    }

    /// An upper bound on the steps left.
    pub(crate) open spec fn measure(&self) -> nat {
        self.handle_stack@.len() + stack_weight(self.qt_stack@)
    }

    /// A walk over every handle held in the tree under `root`.
    pub(crate) fn new(root: &'a QTInner) -> (r: HandleIter<'a>)
        requires
            root.wf(),
        ensures
            r.wf(),
            r.pending() == root.handles().to_multiset(),
            r.qt_stack@ == seq![root],
            r.handle_stack@.len() == 0,
            r.order() == walk(*root),
    {
        let mut qt_stack: Vec<&'a QTInner> = Vec::new();
        qt_stack.push(root);
        let r = HandleIter { handle_stack: Vec::new(), qt_stack };
        proof {
            lemma_stack_push(Seq::empty(), root);
            lemma_stack_order_push(Seq::empty(), root);
            assert(r.qt_stack@ =~= Seq::<&QTInner>::empty().push(root));
            assert(r.order() =~= walk(*root));
            assert(r.pending() =~= root.handles().to_multiset());
        }
        r
    }

    /// The next handle, or `None` once every handle has been handed out.
    pub(crate) fn next(&mut self) -> (r: Option<u128>)
        requires
            old(self).wf(),
        ensures
            final(self).wf(),
            match r {
                None => {
                    &&& old(self).pending() =~= Multiset::empty()
                    &&& final(self).pending() =~= Multiset::empty()
                    &&& old(self).order().len() == 0
                    &&& final(self).order().len() == 0
                },
                Some(h) => {
                    &&& old(self).pending() == final(self).pending().insert(h)
                    &&& old(self).order() == seq![h] + final(self).order()
                    &&& final(self).measure() < old(self).measure()
                },
            },
    {
        loop
            invariant
                self.wf(),
                self.pending() == old(self).pending(),
                self.order() == old(self).order(),
                self.measure() <= old(self).measure(),
            decreases self.measure(),
        {
            let ghost hs0 = self.handle_stack@;
            if let Some(h) = self.handle_stack.pop() {
                proof {
                    assert(hs0 =~= self.handle_stack@.push(h));
                    assert(hs0.reverse() =~= seq![h] + self.handle_stack@.reverse());
                    assert(old(self).order() =~= seq![h] + self.order());
                }
                return Some(h);
            }
            let ghost qs0 = self.qt_stack@;
            match self.qt_stack.pop() {
                None => {
                    proof {
                        assert(hs0 =~= Seq::<u128>::empty());
                        assert(qs0 =~= Seq::<&QTInner>::empty());
                        assert(old(self).order() =~= Seq::<u128>::empty());
                        assert(self.qt_stack@ =~= Seq::<&QTInner>::empty());
                        assert(self.handle_stack@ =~= Seq::<u128>::empty());
                        assert(self.order() =~= Seq::<u128>::empty());
                    }
                    return None;
                },
                Some(qt) => {
                    proof {
                        assert(qs0 =~= self.qt_stack@.push(qt));
                        assert(qs0[qs0.len() - 1] == qt);
                        lemma_stack_push(self.qt_stack@, qt);
                        lemma_handles_multiset(*qt);
                    }
                    let ghost qs1 = self.qt_stack@;
                    if let Some(q) = &qt.children {
                        self.qt_stack.push(&q.nw);
                        self.qt_stack.push(&q.ne);
                        self.qt_stack.push(&q.sw);
                        self.qt_stack.push(&q.se);
                        proof {
                            lemma_stack_push(qs1, &q.nw);
                            lemma_stack_push(qs1.push(&q.nw), &q.ne);
                            lemma_stack_push(qs1.push(&q.nw).push(&q.ne), &q.sw);
                            lemma_stack_push(qs1.push(&q.nw).push(&q.ne).push(&q.sw), &q.se);
                            assert(self.qt_stack@ =~= qs1.push(&q.nw).push(&q.ne).push(&q.sw).push(&q.se));
                        }
                    }
                    let ghost qs2 = self.qt_stack@;
                    proof {
                        assert forall|k: int| 0 <= k < qs2.len() implies (#[trigger] qs2[k]).wf() by {
                            if k >= qs1.len() {
                                assert(qt.wf());
                            } else {
                                assert(qs0[k] == qs2[k]);
                            }
                        }
                    }
                    let mut i: usize = 0;
                    while i < qt.kept.len()
                        invariant
                            self.qt_stack@ == qs2,
                            i <= qt.kept@.len(),
                            self.handle_stack@ == qt.kept@.subrange(0, i as int),
                        decreases qt.kept@.len() - i,
                    {
                        self.handle_stack.push(qt.kept[i]);
                        i = i + 1;
                        proof {
                            assert(qt.kept@.subrange(0, i as int) =~= qt.kept@.subrange(0, i - 1).push(qt.kept@[i - 1]));
                        }
                    }
                    proof {
                        assert(self.handle_stack@ =~= qt.kept@);
                        assert(self.pending() =~= old(self).pending());
                        assert(hs0 =~= Seq::<u128>::empty());
                        lemma_visit_order(qs1, qt, qs2);
                        assert(self.order() =~= old(self).order());
                    }
                },
            }
        }
    }

    /// Moves the walk from `parent`, the one node on the stack, to its child
    /// `child`, setting aside the handles that `parent` keeps.
    fn enter(&mut self, parent: &'a QTInner, child: &'a QTInner)
        ensures
            final(self).handle_stack@ == old(self).handle_stack@ + parent.kept@,
            final(self).qt_stack@ == seq![child],
    {
        let ghost hs0 = self.handle_stack@;
        let mut i: usize = 0;
        while i < parent.kept.len()
            invariant
                i <= parent.kept@.len(),
                self.handle_stack@ == hs0 + parent.kept@.subrange(0, i as int),
            decreases parent.kept@.len() - i,
        {
            self.handle_stack.push(parent.kept[i]);
            i = i + 1;
            proof {
                assert(hs0 + parent.kept@.subrange(0, i as int) =~= (hs0 + parent.kept@.subrange(0, i - 1)).push(
                    parent.kept@[i - 1],
                ));
            }
        }
        let mut qt_stack: Vec<&'a QTInner> = Vec::new();
        qt_stack.push(child);
        self.qt_stack = qt_stack;
        proof {
            assert(parent.kept@.subrange(0, parent.kept@.len() as int) =~= parent.kept@);
            assert(self.qt_stack@ =~= seq![child]);
        }
    }

    /// Narrows a walk that has just begun towards `req`: it then starts at the
    /// smallest node whose region wholly contains `req`, and first hands out
    /// the handles kept at the nodes above it. Nothing is handed out twice,
    /// and no handle is lost whose entry's region (by `m`) intersects `req`.
    pub(crate) fn query_optimization(&mut self, req: Area, Ghost(m): Ghost<Map<u128, Area>>)
        requires
            old(self).qt_stack@.len() == 1,
            old(self).qt_stack@[0].wf(),
            old(self).qt_stack@[0].placed(m),
            req.wf(),
        ensures
            final(self).wf(),
            final(self).pending().subset_of(old(self).pending()),
            forall|h: u128|
                old(self).pending().contains(h) && req.spec_intersects(m[h])
                    ==> #[trigger] final(self).pending().contains(h),
            final(self).qt_stack@.len() == 1,
            final(self).handle_stack@ == old(self).handle_stack@ + descent(*old(self).qt_stack@[0], req).0,
            *final(self).qt_stack@[0] == descent(*old(self).qt_stack@[0], req).1,
            !old(self).qt_stack@[0].region.spec_contains(req) ==> final(self).qt_stack@ == old(self).qt_stack@,
            old(self).qt_stack@[0].region.spec_contains(req) ==> final(self).qt_stack@[0].region.spec_contains(req)
                && no_child_contains(*final(self).qt_stack@[0], req),
    {
        self.descend_recurse_step(req, Ghost(m));
    }

    /// One level of the descent of `query_optimization`.
    fn descend_recurse_step(&mut self, req: Area, Ghost(m): Ghost<Map<u128, Area>>)
        requires
            old(self).qt_stack@.len() == 1,
            old(self).qt_stack@[0].wf(),
            old(self).qt_stack@[0].placed(m),
            req.wf(),
        ensures
            final(self).wf(),
            final(self).pending().subset_of(old(self).pending()),
            forall|h: u128|
                old(self).pending().contains(h) && req.spec_intersects(m[h])
                    ==> #[trigger] final(self).pending().contains(h),
            final(self).qt_stack@.len() == 1,
            final(self).handle_stack@ == old(self).handle_stack@ + descent(*old(self).qt_stack@[0], req).0,
            *final(self).qt_stack@[0] == descent(*old(self).qt_stack@[0], req).1,
            !old(self).qt_stack@[0].region.spec_contains(req) ==> final(self).qt_stack@ == old(self).qt_stack@,
            old(self).qt_stack@[0].region.spec_contains(req) ==> final(self).qt_stack@[0].region.spec_contains(req)
                && no_child_contains(*final(self).qt_stack@[0], req),
        decreases old(self).qt_stack@[0].depth,
    {
        let qt: &'a QTInner = self.qt_stack[0];
        proof {
            lemma_stack_push(Seq::empty(), qt);
            assert(self.qt_stack@ =~= Seq::<&QTInner>::empty().push(qt));
        }
        // Where the node does not contain the request, the walk is already
        // as low as it may go.
        if !qt.region.contains(req) {
            proof {
                assert(self.handle_stack@ =~= old(self).handle_stack@ + Seq::<u128>::empty());
            }
            return;
        }
        if let Some(q) = &qt.children {
            let next: Option<&'a QTInner> = if q.nw.region.contains(req) {
                Some(&q.nw)
            } else if q.ne.region.contains(req) {
                Some(&q.ne)
            } else if q.sw.region.contains(req) {
                Some(&q.sw)
            } else if q.se.region.contains(req) {
                Some(&q.se)
            } else {
                None
            };
            if let Some(child) = next {
                let ghost before = *self;
                proof {
                    lemma_enter(*qt, *child, m, req);
                }
                self.enter(qt, child);
                proof {
                    lemma_stack_push(Seq::empty(), child);
                    assert(self.qt_stack@ =~= Seq::<&QTInner>::empty().push(child));
                    vstd::seq_lib::lemma_multiset_commutative(before.handle_stack@, qt.kept@);
                    assert(self.pending() =~= before.handle_stack@.to_multiset().add(
                        qt.kept@.to_multiset().add(child.handles().to_multiset()),
                    ));
                }
                let ghost mid = *self;
                self.descend_recurse_step(req, Ghost(m));
                proof {
                    assert(self.handle_stack@ =~= old(self).handle_stack@ + descent(*qt, req).0);
                    assert(before.pending() =~= before.handle_stack@.to_multiset().add(qt.handles().to_multiset()));
                    assert forall|h: u128|
                        old(self).pending().contains(h) && req.spec_intersects(m[h])
                            implies #[trigger] self.pending().contains(h) by {
                        if !before.handle_stack@.to_multiset().contains(h) {
                            assert(qt.handles().to_multiset().contains(h));
                            assert(qt.kept@.to_multiset().add(child.handles().to_multiset()).contains(h));
                        }
                        assert(mid.pending().contains(h));
                    }
                }
            } else {
                proof {
                    assert(self.handle_stack@ =~= old(self).handle_stack@ + Seq::<u128>::empty());
                }
            }
        } else {
            proof {
                assert(self.handle_stack@ =~= old(self).handle_stack@ + Seq::<u128>::empty());
            }
        }
    }
}

} // verus!
