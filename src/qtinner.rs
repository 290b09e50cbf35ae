use vstd::multiset::Multiset;
use vstd::prelude::*;
use crate::area::Area;
use crate::point::Point;

verus! {

broadcast use {
    vstd::seq_lib::group_seq_properties,
    vstd::multiset::group_multiset_axioms,
    vstd::seq_lib::group_to_multiset_ensures,
};

/// The deepest tree supported: the side `2^depth` of the root must fit an `i64`.
pub const MAX_DEPTH: usize = 62;

pub open spec fn pow2(d: nat) -> nat
    decreases d,
{
    if d == 0 {
        1
    } else {
        2 * pow2((d - 1) as nat)
    }
}

proof fn lemma_pow2_monotonic(a: nat, b: nat)
    requires
        a <= b,
    ensures
        1 <= pow2(a) <= pow2(b),
    decreases b,
{
    if b > a {
        lemma_pow2_monotonic(a, (b - 1) as nat);
    } else if b > 0 {
        lemma_pow2_monotonic(0, (b - 1) as nat);
    }
}

pub proof fn lemma_pow2_bounds(d: nat)
    requires
        d <= MAX_DEPTH,
    ensures
        1 <= pow2(d) <= 0x4000_0000_0000_0000,
        d > 0 ==> pow2(d) == 2 * pow2((d - 1) as nat),
{
    reveal_with_fuel(pow2, 63);
    assert(pow2(62) == 0x4000_0000_0000_0000);
    lemma_pow2_monotonic(d, 62);
}

/// A square of side `2^depth` whose cells all have representable coordinates.
pub open spec fn is_square(region: Area, depth: nat) -> bool {
    &&& depth <= MAX_DEPTH
    &&& region.width == pow2(depth)
    &&& region.height == pow2(depth)
    &&& region.right() - 1 <= i64::MAX
    &&& region.bottom() - 1 <= i64::MAX
}

/// One quarter of a square region: the eastern or the western half of its
/// columns, and the southern or the northern half of its rows.
pub open spec fn quarter(region: Area, east: bool, south: bool) -> Area {
    let half = region.width / 2;
    Area {
        anchor: Point {
            x: (if east { region.anchor.x + half } else { region.anchor.x as int }) as i64,
            y: (if south { region.anchor.y + half } else { region.anchor.y as int }) as i64,
        },
        width: half as i64,
        height: half as i64,
    }
}

/// Whether some quarter of `region` wholly contains `a`.
pub open spec fn fits_a_quarter(region: Area, a: Area) -> bool {
    ||| quarter(region, false, false).spec_contains(a)
    ||| quarter(region, true, false).spec_contains(a)
    ||| quarter(region, false, true).spec_contains(a)
    ||| quarter(region, true, true).spec_contains(a)
}

/// The four children of a node, one for each quarter of its region.
#[derive(Debug)]
pub struct Quarters {
    pub nw: QTInner,
    pub ne: QTInner,
    pub sw: QTInner,
    pub se: QTInner,
}

/// A node of the index. It covers a square region, keeps the handles of the
/// entries that fit none of its quarters, and, once needed, has four children.
#[derive(Debug)]
pub struct QTInner {
    pub region: Area,
    pub depth: usize,
    pub children: Option<Box<Quarters>>,
    pub kept: Vec<u128>,
}

impl QTInner {
    /// The node covers a square of side `2^depth`, and its children, if any,
    /// cover its four quarters one level down.
    pub open spec fn wf(&self) -> bool
        decreases self,
    {
        &&& is_square(self.region, self.depth as nat)
        &&& match self.children {
            None => true,
            Some(q) => {
                &&& self.depth > 0
                &&& q.nw.region == quarter(self.region, false, false)
                &&& q.ne.region == quarter(self.region, true, false)
                &&& q.sw.region == quarter(self.region, false, true)
                &&& q.se.region == quarter(self.region, true, true)
                &&& q.nw.depth == self.depth - 1
                &&& q.ne.depth == self.depth - 1
                &&& q.sw.depth == self.depth - 1
                &&& q.se.depth == self.depth - 1
                &&& q.nw.wf()
                &&& q.ne.wf()
                &&& q.sw.wf()
                &&& q.se.wf()
            },
        }
    }

    /// Every handle held in the subtree, in pre-order: this node's own first,
    /// then those of its children.
    pub open spec fn handles(&self) -> Seq<u128>
        decreases self,
    {
        self.kept@ + match self.children {
            None => Seq::empty(),
            Some(q) => q.nw.handles() + q.ne.handles() + q.sw.handles() + q.se.handles(),
        }
    }

    /// Each handle of the subtree is known to `m`, its region lies inside the
    /// node that keeps it, and it is kept there only where it could go no
    /// lower: at the bottom level, or where no quarter contains it.
    pub open spec fn placed(&self, m: Map<u128, Area>) -> bool
        decreases self,
    {
        &&& forall|i: int|
            0 <= i < self.kept@.len() ==> {
                &&& m.contains_key(#[trigger] self.kept@[i])
                &&& self.region.spec_contains(m[self.kept@[i]])
                &&& (self.depth == 0 || !fits_a_quarter(self.region, m[self.kept@[i]]))
            }
        &&& match self.children {
            None => true,
            Some(q) => q.nw.placed(m) && q.ne.placed(m) && q.sw.placed(m) && q.se.placed(m),
        }
    }

}

/// The handles of a node, counted: its own and its children's.
pub proof fn lemma_handles_multiset(n: QTInner)
    ensures
        n.handles().to_multiset() == n.kept@.to_multiset().add(
            match n.children {
                None => Multiset::empty(),
                Some(q) => q.nw.handles().to_multiset().add(q.ne.handles().to_multiset()).add(
                    q.sw.handles().to_multiset(),
                ).add(q.se.handles().to_multiset()),
            },
        ),
{
    match n.children {
        None => {
            vstd::seq_lib::lemma_multiset_commutative(n.kept@, Seq::<u128>::empty());
            assert(Seq::<u128>::empty().to_multiset() =~= Multiset::empty());
        },
        Some(q) => {
            let a = q.nw.handles();
            let b = q.ne.handles();
            let c = q.sw.handles();
            let d = q.se.handles();
            vstd::seq_lib::lemma_multiset_commutative(a, b);
            vstd::seq_lib::lemma_multiset_commutative(a + b, c);
            vstd::seq_lib::lemma_multiset_commutative(a + b + c, d);
            vstd::seq_lib::lemma_multiset_commutative(n.kept@, a + b + c + d);
        },
    }
}

/// Adding a key that the subtree does not hold keeps its placement.
pub proof fn lemma_placed_extend(n: QTInner, m: Map<u128, Area>, h: u128, a: Area)
    requires
        n.placed(m),
        !n.handles().contains(h),
    ensures
        n.placed(m.insert(h, a)),
    decreases n,
{
    let m2 = m.insert(h, a);
    assert forall|i: int| 0 <= i < n.kept@.len() implies {
        &&& m2.contains_key(#[trigger] n.kept@[i])
        &&& n.region.spec_contains(m2[n.kept@[i]])
        &&& (n.depth == 0 || !fits_a_quarter(n.region, m2[n.kept@[i]]))
    } by {
        assert(n.handles()[i] == n.kept@[i]);
    }
    match n.children {
        None => {},
        Some(q) => {
            let rest = q.nw.handles() + q.ne.handles() + q.sw.handles() + q.se.handles();
            assert(n.handles() == n.kept@ + rest);
            assert forall|x: u128| rest.contains(x) implies n.handles().contains(x) by {
                let j = choose|j: int| 0 <= j < rest.len() && rest[j] == x;
                assert(n.handles()[n.kept@.len() + j] == x);
            }
            assert forall|x: u128| #[trigger] q.nw.handles().contains(x) implies rest.contains(x) by {
                let j = choose|j: int| 0 <= j < q.nw.handles().len() && q.nw.handles()[j] == x;
                assert(rest[j] == x);
            }
            assert forall|x: u128| #[trigger] q.ne.handles().contains(x) implies rest.contains(x) by {
                let j = choose|j: int| 0 <= j < q.ne.handles().len() && q.ne.handles()[j] == x;
                assert(rest[q.nw.handles().len() + j] == x);
            }
            assert forall|x: u128| #[trigger] q.sw.handles().contains(x) implies rest.contains(x) by {
                let j = choose|j: int| 0 <= j < q.sw.handles().len() && q.sw.handles()[j] == x;
                assert(rest[q.nw.handles().len() + q.ne.handles().len() + j] == x);
            }
            assert forall|x: u128| #[trigger] q.se.handles().contains(x) implies rest.contains(x) by {
                let j = choose|j: int| 0 <= j < q.se.handles().len() && q.se.handles()[j] == x;
                assert(rest[q.nw.handles().len() + q.ne.handles().len() + q.sw.handles().len() + j] == x);
            }
            lemma_placed_extend(q.nw, m, h, a);
            lemma_placed_extend(q.ne, m, h, a);
            lemma_placed_extend(q.sw, m, h, a);
            lemma_placed_extend(q.se, m, h, a);
        },
    }
}

/// The quarters of a square lie inside it and share no cell with each other.
pub proof fn lemma_quarters(r: Area, d: nat)
    requires
        is_square(r, d),
        d > 0,
    ensures
        forall|e: bool, s: bool| r.spec_contains(#[trigger] quarter(r, e, s)) && quarter(r, e, s).wf(),
        forall|e1: bool, s1: bool, e2: bool, s2: bool|
            (e1 != e2 || s1 != s2) ==> !(#[trigger] quarter(r, e1, s1)).spec_intersects(#[trigger] quarter(r, e2, s2)),
{
    lemma_pow2_bounds(d);
    assert(r.width == 2 * (r.width / 2));
}

/// The region of every handle in a subtree lies inside the subtree's region.
pub proof fn lemma_within(n: QTInner, m: Map<u128, Area>)
    requires
        n.wf(),
        n.placed(m),
    ensures
        forall|h: u128| #[trigger] n.handles().contains(h) ==> m.contains_key(h) && n.region.spec_contains(m[h]),
    decreases n,
{
    match n.children {
        None => {
            assert(n.handles() =~= n.kept@);
        },
        Some(q) => {
            lemma_quarters(n.region, n.depth as nat);
            assert(n.region.spec_contains(quarter(n.region, false, false)));
            assert(n.region.spec_contains(quarter(n.region, true, false)));
            assert(n.region.spec_contains(quarter(n.region, false, true)));
            assert(n.region.spec_contains(quarter(n.region, true, true)));
            lemma_within(q.nw, m);
            lemma_within(q.ne, m);
            lemma_within(q.sw, m);
            lemma_within(q.se, m);
            lemma_handles_multiset(n);
            assert forall|h: u128| #[trigger] n.handles().contains(h) implies m.contains_key(h)
                && n.region.spec_contains(m[h]) by {
                assert(n.handles().to_multiset().contains(h));
                if n.kept@.to_multiset().contains(h) {
                    assert(n.kept@.contains(h));
                    let i = choose|i: int| 0 <= i < n.kept@.len() && n.kept@[i] == h;
                } else if q.nw.handles().to_multiset().contains(h) {
                    assert(q.nw.handles().contains(h));
                } else if q.ne.handles().to_multiset().contains(h) {
                    assert(q.ne.handles().contains(h));
                } else if q.sw.handles().to_multiset().contains(h) {
                    assert(q.sw.handles().contains(h));
                } else {
                    assert(q.se.handles().to_multiset().contains(h));
                    assert(q.se.handles().contains(h));
                }
            }
        },
    }
}

impl QTInner {
    /// An empty node without children covering the square of side `2^depth`
    /// anchored at `anchor`.
    pub fn new(anchor: Point, depth: usize) -> (r: QTInner)
        requires
            depth <= MAX_DEPTH,
            anchor.x + pow2(depth as nat) - 1 <= i64::MAX,
            anchor.y + pow2(depth as nat) - 1 <= i64::MAX,
        ensures
            r.wf(),
            r.region.anchor == anchor,
            r.region.width == pow2(depth as nat),
            r.depth == depth,
            r.children is None,
            r.handles() == Seq::<u128>::empty(),
    {
        let mut side: i64 = 1;
        let mut i: usize = 0;
        while i < depth
            invariant
                i <= depth <= MAX_DEPTH,
                side == pow2(i as nat),
            decreases depth - i,
        {
            proof {
                lemma_pow2_bounds((i + 1) as nat);
            }
            side = side * 2;
            i = i + 1;
        }
        proof {
            lemma_pow2_bounds(depth as nat);
        }
        QTInner {
            region: Area { anchor, width: side, height: side },
            depth,
            children: None,
            kept: Vec::new(),
        }
    }

    /// A childless node one level down covering the given quarter of this
    /// node's region.
    fn new_quarter(&self, east: bool, south: bool) -> (r: QTInner)
        requires
            self.wf(),
            self.depth > 0,
        ensures
            r.wf(),
            r.region == quarter(self.region, east, south),
            r.depth == self.depth - 1,
            r.children is None,
            r.handles() == Seq::<u128>::empty(),
    {
        proof {
            lemma_pow2_bounds(self.depth as nat);
        }
        let half = self.region.width / 2;
        let x = if east { self.region.anchor.x + half } else { self.region.anchor.x };
        let y = if south { self.region.anchor.y + half } else { self.region.anchor.y };
        QTInner::new(Point::new(x, y), self.depth - 1)
    }

    /// Gives a childless node its four children, each empty.
    fn split(&mut self)
        requires
            old(self).wf(),
            old(self).depth > 0,
            old(self).children is None,
        ensures
            final(self).wf(),
            final(self).region == old(self).region,
            final(self).depth == old(self).depth,
            final(self).kept == old(self).kept,
            final(self).children is Some,
            final(self).handles() == old(self).handles(),
            forall|m: Map<u128, Area>| #[trigger] old(self).placed(m) ==> final(self).placed(m),
    {
        let nw = self.new_quarter(false, false);
        let ne = self.new_quarter(true, false);
        let sw = self.new_quarter(false, true);
        let se = self.new_quarter(true, true);
        self.children = Some(Box::new(Quarters { nw, ne, sw, se }));
        proof {
            assert(self.handles() =~= old(self).handles());
            assert forall|m: Map<u128, Area>| #[trigger] old(self).placed(m) implies self.placed(m) by {
                let q = self.children.unwrap();
                assert(q.nw.placed(m));
                assert(q.ne.placed(m));
                assert(q.sw.placed(m));
                assert(q.se.placed(m));
            }
        }
    }

    /// Places handle `h` of an entry whose region is `region`: pushed down
    /// into the one quarter that wholly contains it, as long as there is a
    /// level below, and otherwise kept at this node. Children are made on
    /// first need. Returns false, and changes nothing, where this node's
    /// region does not contain `region`.
    pub fn insert(&mut self, region: Area, h: u128) -> (r: bool)
        requires
            old(self).wf(),
            region.wf(),
        ensures
            final(self).wf(),
            final(self).region == old(self).region,
            final(self).depth == old(self).depth,
            r == old(self).region.spec_contains(region),
            r ==> final(self).handles().to_multiset() == old(self).handles().to_multiset().insert(h),
            !r ==> final(self).handles() == old(self).handles(),
            forall|m: Map<u128, Area>|
                #[trigger] old(self).placed(m) && m.contains_key(h) && m[h] == region
                    ==> final(self).placed(m),
        decreases old(self).depth,
    {
        if !self.region.contains(region) {
            return false;
        }
        if self.depth == 0 {
            self.kept.push(h);
            proof {
                vstd::seq_lib::lemma_multiset_commutative(self.kept@, Seq::<u128>::empty());
                vstd::seq_lib::lemma_multiset_commutative(old(self).kept@, Seq::<u128>::empty());
                assert(self.handles().to_multiset() =~= old(self).handles().to_multiset().insert(h));
                assert forall|m: Map<u128, Area>|
                    #[trigger] old(self).placed(m) && m.contains_key(h) && m[h] == region
                        implies self.placed(m) by {
                    assert forall|i: int| 0 <= i < self.kept@.len() implies {
                        &&& m.contains_key(#[trigger] self.kept@[i])
                        &&& self.region.spec_contains(m[self.kept@[i]])
                        &&& (self.depth == 0 || !fits_a_quarter(self.region, m[self.kept@[i]]))
                    } by {
                        if i < old(self).kept@.len() {
                            assert(self.kept@[i] == old(self).kept@[i]);
                        }
                    }
                }
            }
            return true;
        }
        if self.children.is_none() {
            self.split();
        }
        let ghost before = *self;
        proof {
            lemma_handles_multiset(before);
        }
        match &mut self.children {
            Some(q) => {
                if q.nw.region.contains(region) {
                    q.nw.insert(region, h);
                } else if q.ne.region.contains(region) {
                    q.ne.insert(region, h);
                } else if q.sw.region.contains(region) {
                    q.sw.insert(region, h);
                } else if q.se.region.contains(region) {
                    q.se.insert(region, h);
                } else {
                    self.kept.push(h);
                }
            },
            None => {},
        }
        proof {
            lemma_handles_multiset(*self);
            assert(self.handles().to_multiset() =~= before.handles().to_multiset().insert(h));
            assert forall|m: Map<u128, Area>|
                #[trigger] old(self).placed(m) && m.contains_key(h) && m[h] == region
                    implies self.placed(m) by {
                assert(before.placed(m));
                let q0 = before.children.unwrap();
                let q1 = self.children.unwrap();
                assert(q0.nw.placed(m) && q0.ne.placed(m) && q0.sw.placed(m) && q0.se.placed(m));
                assert(q1.nw.placed(m));
                assert(q1.ne.placed(m));
                assert(q1.sw.placed(m));
                assert(q1.se.placed(m));
                assert forall|i: int| 0 <= i < self.kept@.len() implies {
                    &&& m.contains_key(#[trigger] self.kept@[i])
                    &&& self.region.spec_contains(m[self.kept@[i]])
                    &&& (self.depth == 0 || !fits_a_quarter(self.region, m[self.kept@[i]]))
                } by {
                    if i < before.kept@.len() {
                        assert(self.kept@[i] == before.kept@[i]);
                    }
                }
            }
        }
        true
    }

    /// Drops every handle and every child, keeping the region and the depth.
    pub fn reset(&mut self)
        requires
            old(self).wf(),
        ensures
            final(self).wf(),
            final(self).region == old(self).region,
            final(self).depth == old(self).depth,
            final(self).children is None,
            final(self).handles() == Seq::<u128>::empty(),
    {
        self.children = None;
        self.kept = Vec::new();
        proof {
            assert(self.handles() =~= Seq::<u128>::empty());
        }
    }

    /// A copy of the subtree.
    pub fn copy(&self) -> (r: QTInner)
        ensures
            self.wf() ==> r.wf(),
            r.region == self.region,
            r.depth == self.depth,
            r.kept@ == self.kept@,
            r.handles() == self.handles(),
            forall|m: Map<u128, Area>| #[trigger] self.placed(m) ==> r.placed(m),
        decreases self,
    {
        let children = match &self.children {
            None => None,
            Some(q) => Some(
                Box::new(
                    Quarters { nw: q.nw.copy(), ne: q.ne.copy(), sw: q.sw.copy(), se: q.se.copy() },
                ),
            ),
        };
        let r = QTInner { region: self.region, depth: self.depth, children, kept: self.kept.clone() };
        proof {
            assert(r.handles() =~= self.handles());
            assert forall|m: Map<u128, Area>| #[trigger] self.placed(m) implies r.placed(m) by {
                assert forall|i: int| 0 <= i < r.kept@.len() implies {
                    &&& m.contains_key(#[trigger] r.kept@[i])
                    &&& r.region.spec_contains(m[r.kept@[i]])
                    &&& (r.depth == 0 || !fits_a_quarter(r.region, m[r.kept@[i]]))
                } by {
                    assert(r.kept@[i] == self.kept@[i]);
                }
                if let Some(q) = self.children {
                    let rq = r.children.unwrap();
                    assert(q.nw.placed(m) && q.ne.placed(m) && q.sw.placed(m) && q.se.placed(m));
                    assert(rq.nw.placed(m) && rq.ne.placed(m) && rq.sw.placed(m) && rq.se.placed(m));
                }
            }
        }
        r
    }
}

impl Clone for QTInner {
    fn clone(&self) -> (r: QTInner) {
        self.copy()
    }
}

} // verus!
