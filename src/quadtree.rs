use std::collections::HashMap;
use vstd::prelude::*;
use crate::area::Area;
use crate::handle_iter::{descent, walk, HandleIter};
use crate::point::Point;
use crate::qtinner::{lemma_placed_extend, lemma_pow2_bounds, pow2, QTInner, MAX_DEPTH};

verus! {

broadcast use {
    vstd::seq_lib::group_seq_properties,
    vstd::multiset::group_multiset_axioms,
    vstd::std_specs::hash::group_hash_axioms,
    vstd::seq_lib::group_to_multiset_ensures,
};

/// Relies on `uuid::Uuid::new_v4` and `Uuid::as_u128`: a random identifier of
/// version 4 and of the RFC 4122 variant, read as an integer. `new_v4` panics
/// only where the system gives no random bytes.
#[verifier::external_body]
fn random_handle() -> (r: u128)
    ensures
        (r >> 76u128) & 0xfu128 == 4,
        (r >> 62u128) & 0x3u128 == 2,
{
    uuid::Uuid::new_v4().as_u128()
}

/// The region of each entry.
pub open spec fn regions_of<V>(m: Map<u128, (Area, V)>) -> Map<u128, Area> {
    m.map_values(|e: (Area, V)| e.0)
}

/// Whether a listing restricted by `q` takes an entry whose region is `a`:
/// every entry without a restriction, those whose region intersects `q` with
/// one.
pub open spec fn selects(q: Option<Area>, a: Area) -> bool {
    match q {
        None => true,
        Some(q) => q.spec_intersects(a),
    }
}

/// `hs` names each entry of `m` that `q` selects, once, and nothing else.
pub open spec fn is_listing<V>(m: Map<u128, (Area, V)>, q: Option<Area>, hs: Seq<u128>) -> bool {
    &&& hs.no_duplicates()
    &&& forall|h: u128| #[trigger] hs.contains(h) <==> (m.contains_key(h) && selects(q, m[h].0))
}

/// `r` holds the region and the value of each entry of `m` that `q` selects,
/// once each, in some order.
pub open spec fn lists<V>(m: Map<u128, (Area, V)>, q: Option<Area>, r: Seq<(Area, &V)>) -> bool {
    exists|hs: Seq<u128>|
        {
            &&& #[trigger] is_listing(m, q, hs)
            &&& r.len() == hs.len()
            &&& forall|i: int| 0 <= i < r.len() ==> r[i].0 == m[hs[i]].0 && *r[i].1 == m[hs[i]].1
        }
}

/// `m2` is `m1` with the value `v` of each entry that `q` selects replaced by
/// a result of `f` on `v`; the handles and the regions stay.
pub open spec fn modified<V, F: Fn(V) -> V>(m1: Map<u128, (Area, V)>, m2: Map<u128, (Area, V)>, q: Option<Area>, f: F) -> bool {
    &&& m2.dom() == m1.dom()
    &&& forall|h: u128|
        #[trigger] m2.contains_key(h) ==> {
            &&& m2[h].0 == m1[h].0
            &&& if selects(q, m1[h].0) {
                f.ensures((m1[h].1,), m2[h].1)
            } else {
                m2[h].1 == m1[h].1
            }
        }
}

/// The entries of `m` after storing, in turn, each item whose region fits
/// `region`, the `i`-th under the handle `hs[i]`.
pub open spec fn with_items<V>(
    m: Map<u128, (Area, V)>,
    region: Area,
    items: Seq<(((i64, i64), (i64, i64)), V)>,
    hs: Seq<u128>,
) -> Map<u128, (Area, V)>
    decreases items.len(),
{
    if items.len() == 0 {
        m
    } else {
        let prev = with_items(m, region, items.drop_last(), hs.drop_last());
        let a = area_of(items.last().0.0, items.last().0.1);
        if region.spec_contains(a) {
            prev.insert(hs.last(), (a, items.last().1))
        } else {
            prev
        }
    }
}

/// There is a handle for each item, and the handle of each item that fits
/// `region` is not in use at the moment that item is stored.
pub open spec fn fresh_handles<V>(
    m: Map<u128, (Area, V)>,
    region: Area,
    items: Seq<(((i64, i64), (i64, i64)), V)>,
    hs: Seq<u128>,
) -> bool {
    &&& hs.len() == items.len()
    &&& forall|i: int|
        0 <= i < items.len() && region.spec_contains(area_of((#[trigger] items[i]).0.0, items[i].0.1))
            ==> !with_items(m, region, items.take(i), hs.take(i)).contains_key(hs[i])
}

/// How many of the items have a region that fits `region`.
pub open spec fn fitting_count<V>(region: Area, items: Seq<(((i64, i64), (i64, i64)), V)>) -> nat
    decreases items.len(),
{
    if items.len() == 0 {
        0
    } else {
        fitting_count(region, items.drop_last()) + if region.spec_contains(
            area_of(items.last().0.0, items.last().0.1),
        ) {
            1nat
        } else {
            0nat
        }
    }
}

/// Cell items as items of size `(1, 1)`.
pub open spec fn as_cells<V>(items: Seq<((i64, i64), V)>) -> Seq<(((i64, i64), (i64, i64)), V)> {
    items.map_values(|it: ((i64, i64), V)| ((it.0, (1i64, 1i64)), it.1))
}

/// The handles of `hs`, in order, that name an entry of `m` that `q` selects.
pub open spec fn selected<V>(m: Map<u128, (Area, V)>, q: Option<Area>, hs: Seq<u128>) -> Seq<u128>
    decreases hs.len(),
{
    if hs.len() == 0 {
        Seq::empty()
    } else {
        let prev = selected(m, q, hs.drop_last());
        if m.contains_key(hs.last()) && selects(q, m[hs.last()].0) {
            prev.push(hs.last())
        } else {
            prev
        }
    }
}

/// `r` holds, in order, the region and the value of the entry of `m` named
/// by each handle of `hs`.
pub open spec fn shows<V>(m: Map<u128, (Area, V)>, hs: Seq<u128>, r: Seq<(Area, &V)>) -> bool {
    &&& r.len() == hs.len()
    &&& forall|i: int| 0 <= i < r.len() ==> r[i].0 == m[hs[i]].0 && *r[i].1 == m[hs[i]].1
}

/// The area of `size` anchored at `anchor`.
pub open spec fn area_of(anchor: (i64, i64), size: (i64, i64)) -> Area {
    Area { anchor: Point { x: anchor.0, y: anchor.1 }, width: size.0, height: size.1 }
}

/// A region quadtree: a map from rectangular regions of the integer plane to
/// values, indexed for lookup by overlap.
///
/// Each entry is stored under a handle minted on insertion; the index holds
/// only handles, each at exactly one node.
#[derive(Debug, Clone)]
pub struct Quadtree<V> {
    depth: usize,
    inner: QTInner,
    store: HashMap<u128, (Area, V)>,
}

impl<V> View for Quadtree<V> {
    type V = Map<u128, (Area, V)>;

    /// The entries, by handle.
    closed spec fn view(&self) -> Map<u128, (Area, V)> {
        self.store@
    }
}

impl<V> Quadtree<V> {
    /// The square region that the tree covers.
    pub closed spec fn region(&self) -> Area {
        self.inner.region
    }

    pub closed spec fn spec_depth(&self) -> nat {
        self.depth as nat
    }

    /// The order in which the index is walked for a listing restricted by
    /// `q`: all of it; or, for a query area, first the handles kept on the way
    /// down to the smallest node that contains the area, then that node's
    /// subtree.
    pub closed spec fn walk_order(&self, q: Option<Area>) -> Seq<u128> {
        match q {
            None => walk(self.inner),
            Some(a) => descent(self.inner, a).0.reverse() + walk(descent(self.inner, a).1),
        }
    }

    /// The handles that a listing restricted by `q` reports, in the order it
    /// reports them.
    pub closed spec fn listed(&self, q: Option<Area>) -> Seq<u128> {
        selected(self@, q, self.walk_order(q))
    }

    /// The index holds each stored handle exactly once, at a node whose
    /// region contains the entry's region, as placement asks.
    pub closed spec fn wf(&self) -> bool {
        &&& self.inner.wf()
        &&& self.inner.depth == self.depth
        &&& self.inner.handles().no_duplicates()
        &&& forall|h: u128| #[trigger] self.inner.handles().contains(h) <==> self.store@.contains_key(h)
        &&& forall|h: u128| #[trigger] self.store@.contains_key(h) ==> self.store@[h].0.wf()
        &&& self.inner.placed(regions_of(self.store@))
    }

    /// An empty tree over the square of side `2^depth` anchored at `(0, 0)`.
    pub fn new(depth: usize) -> (r: Quadtree<V>)
        requires
            depth <= MAX_DEPTH,
        ensures
            r.wf(),
            r@ == Map::<u128, (Area, V)>::empty(),
            r.region() == area_of((0, 0), (pow2(depth as nat) as i64, pow2(depth as nat) as i64)),
            r.spec_depth() == depth,
    {
        proof {
            lemma_pow2_bounds(depth as nat);
        }
        Quadtree::new_with_anchor((0, 0), depth)
    }

    /// An empty tree over the square of side `2^depth` anchored at `anchor`.
    /// Every cell of it must have representable coordinates.
    pub fn new_with_anchor(anchor: (i64, i64), depth: usize) -> (r: Quadtree<V>)
        requires
            depth <= MAX_DEPTH,
            anchor.0 + pow2(depth as nat) - 1 <= i64::MAX,
            anchor.1 + pow2(depth as nat) - 1 <= i64::MAX,
        ensures
            r.wf(),
            r@ == Map::<u128, (Area, V)>::empty(),
            r.region() == area_of(anchor, (pow2(depth as nat) as i64, pow2(depth as nat) as i64)),
            r.spec_depth() == depth,
    {
        let inner = QTInner::new(Point::new(anchor.0, anchor.1), depth);
        let r = Quadtree { depth, inner, store: HashMap::new() };
        proof {
            assert(r.inner.handles() =~= Seq::<u128>::empty());
        }
        r
    }

    /// The top-left corner of the covered region.
    pub fn anchor(&self) -> (r: (i64, i64))
        requires
            self.wf(),
        ensures
            r == (self.region().anchor.x, self.region().anchor.y),
    {
        (self.inner.region.anchor.x, self.inner.region.anchor.y)
    }

    /// The width of the covered region, `2^depth`.
    pub fn width(&self) -> (r: usize)
        requires
            self.wf(),
            pow2(self.spec_depth()) <= usize::MAX,
        ensures
            r == self.region().width,
            r == pow2(self.spec_depth()),
    {
        proof {
            lemma_pow2_bounds(self.depth as nat);
        }
        self.inner.region.width as usize
    }

    /// The height of the covered region, `2^depth`.
    pub fn height(&self) -> (r: usize)
        requires
            self.wf(),
            pow2(self.spec_depth()) <= usize::MAX,
        ensures
            r == self.region().height,
            r == pow2(self.spec_depth()),
    {
        proof {
            lemma_pow2_bounds(self.depth as nat);
        }
        self.inner.region.height as usize
    }

    /// The number of levels below the root: a tree of depth 0 is a single
    /// node that never splits.
    pub fn depth(&self) -> (r: usize)
        requires
            self.wf(),
        ensures
            r == self.spec_depth(),
    {
        self.inner.depth
    }

    /// The number of entries.
    pub fn len(&self) -> (r: usize)
        requires
            self.wf(),
        ensures
            r == self@.len(),
    {
        self.store.len()
    }

    /// Whether there are no entries.
    pub fn is_empty(&self) -> (r: bool)
        requires
            self.wf(),
        ensures
            r == (self@.len() == 0),
    {
        self.store.is_empty()
    }

    /// Whether the region of `size` anchored at `anchor` lies wholly inside
    /// the region the tree covers, that is, whether it could be inserted.
    pub fn contains(&self, anchor: (i64, i64), size: (i64, i64)) -> (r: bool)
        requires
            self.wf(),
            size.0 > 0,
            size.1 > 0,
        ensures
            r == self.region().spec_contains(area_of(anchor, size)),
    {
        self.inner.region.contains(Area::new(anchor, size))
    }

    /// Stores `val` over the region of `size` anchored at `anchor`, under
    /// `handle`. Returns false, and changes nothing, where the region does not
    /// fit the tree or the handle is already in use.
    pub fn insert_with_handle(&mut self, anchor: (i64, i64), size: (i64, i64), val: V, handle: u128) -> (r: bool)
        requires
            old(self).wf(),
            size.0 > 0,
            size.1 > 0,
        ensures
            final(self).wf(),
            final(self).region() == old(self).region(),
            final(self).spec_depth() == old(self).spec_depth(),
            r == (old(self).region().spec_contains(area_of(anchor, size)) && !old(self)@.contains_key(handle)),
            r ==> final(self)@ == old(self)@.insert(handle, (area_of(anchor, size), val)),
            !r ==> final(self)@ == old(self)@,
    {
        let area = Area::new(anchor, size);
        if !self.inner.region.contains(area) {
            return false;
        }
        if self.store.contains_key(&handle) {
            return false;
        }
        let ghost old_handles = self.inner.handles();
        let ghost old_regions = regions_of(self.store@);
        proof {
            lemma_placed_extend(self.inner, old_regions, handle, area);
        }
        self.inner.insert(area, handle);
        self.store.insert(handle, (area, val));
        proof {
            let hs = self.inner.handles();
            assert(regions_of(self.store@) =~= old_regions.insert(handle, area));
            old_handles.lemma_multiset_has_no_duplicates();
            assert forall|x: u128| hs.to_multiset().contains(x) implies hs.to_multiset().count(x) == 1 by {
                if x != handle {
                    assert(old_handles.to_multiset().contains(x));
                }
            }
            hs.lemma_multiset_has_no_duplicates_conv();
            assert forall|h: u128| #[trigger] hs.contains(h) <==> self.store@.contains_key(h) by {
                assert(hs.contains(h) <==> hs.to_multiset().contains(h));
                assert(old_handles.contains(h) <==> old_handles.to_multiset().contains(h));
            }
        }
        true
    }

    /// A handle not in use: `drawn` where it is free, otherwise the smallest
    /// free integer. There are more integers up to the number of entries than
    /// entries, so the search ends there at the latest.
    fn fresh_handle(&self, drawn: u128) -> (r: u128)
        requires
            self.wf(),
        ensures
            !self@.contains_key(r),
            !self@.contains_key(drawn) ==> r == drawn,
    {
        if !self.store.contains_key(&drawn) {
            return drawn;
        }
        let n = self.store.len();
        let mut c: u128 = 0;
        let ghost mut seen: Set<u128> = Set::empty();
        while self.store.contains_key(&c)
            invariant
                n == self.store@.len(),
                seen.finite(),
                seen.len() == c,
                seen.subset_of(self.store@.dom()),
                forall|k: u128| #[trigger] seen.contains(k) ==> k < c,
                c <= self.store@.len(),
            decreases self.store@.len() - c,
        {
            proof {
                let more = seen.insert(c);
                assert(!seen.contains(c));
                vstd::set_lib::lemma_len_subset(more, self.store@.dom());
                seen = more;
            }
            c = c + 1;
        }
        c
    }

    /// Stores `val` over the region of `size` anchored at `anchor`, under a
    /// freshly drawn handle (or, should the drawn one be in use already, under
    /// the smallest free one). Nothing is stored where the region does not fit
    /// the tree.
    pub fn insert(&mut self, anchor: (i64, i64), size: (i64, i64), val: V)
        requires
            old(self).wf(),
            size.0 > 0,
            size.1 > 0,
        ensures
            final(self).wf(),
            final(self).region() == old(self).region(),
            final(self).spec_depth() == old(self).spec_depth(),
            !old(self).region().spec_contains(area_of(anchor, size)) ==> final(self)@ == old(self)@,
            old(self).region().spec_contains(area_of(anchor, size)) ==> {
                &&& final(self)@.len() == old(self)@.len() + 1
                &&& exists|h: u128|
                    !old(self)@.contains_key(h) && final(self)@ == old(self)@.insert(h, (area_of(anchor, size), val))
            },
    {
        let drawn = random_handle();
        let handle = self.fresh_handle(drawn);
        let ghost before = *self;
        self.insert_with_handle(anchor, size, val, handle);
        proof {
            lemma_insert_adds_one(before, handle, area_of(anchor, size), val);
        }
    }

    /// Stores `val` at the single cell `anchor`, as `insert` with size `(1, 1)`.
    pub fn insert_pt(&mut self, anchor: (i64, i64), val: V)
        requires
            old(self).wf(),
        ensures
            final(self).wf(),
            final(self).region() == old(self).region(),
            final(self).spec_depth() == old(self).spec_depth(),
            !old(self).region().spec_contains(area_of(anchor, (1, 1))) ==> final(self)@ == old(self)@,
            old(self).region().spec_contains(area_of(anchor, (1, 1))) ==> {
                &&& final(self)@.len() == old(self)@.len() + 1
                &&& exists|h: u128|
                    !old(self)@.contains_key(h) && final(self)@ == old(self)@.insert(h, (area_of(anchor, (1, 1)), val))
            },
    {
        self.insert(anchor, (1, 1), val);
    }

    /// Empties the tree; the region and the depth stay.
    pub fn reset(&mut self)
        requires
            old(self).wf(),
        ensures
            final(self).wf(),
            final(self)@ == Map::<u128, (Area, V)>::empty(),
            final(self).region() == old(self).region(),
            final(self).spec_depth() == old(self).spec_depth(),
    {
        self.store.clear();
        self.inner.reset();
        proof {
            assert(self.store@ =~= Map::<u128, (Area, V)>::empty());
        }
    }

    /// Stored handles, once each, in the order of `walk_order(q)`: every one
    /// where `q` is `None`; otherwise at least those of the entries whose
    /// region intersects the area of `q`, found by first descending to the
    /// smallest node that contains it.
    fn collect_handles(&self, q: Option<Area>) -> (r: Vec<u128>)
        requires
            self.wf(),
            q matches Some(a) ==> a.wf(),
        ensures
            r@.no_duplicates(),
            forall|h: u128| #[trigger] r@.contains(h) ==> self@.contains_key(h),
            forall|h: u128| self@.contains_key(h) && selects(q, self@[h].0) ==> #[trigger] r@.contains(h),
            r@ == self.walk_order(q),
    {
        let mut it = HandleIter::new(&self.inner);
        if let Some(a) = q {
            it.query_optimization(a, Ghost(regions_of(self.store@)));
            proof {
                let d = descent(self.inner, a);
                assert(it.handle_stack@ =~= d.0);
                assert(it.qt_stack@ =~= Seq::<&QTInner>::empty().push(it.qt_stack@[0]));
                assert(it.order() =~= d.0.reverse() + walk(d.1));
            }
        }
        let ghost start = it.pending();
        let ghost start_order = it.order();
        proof {
            assert(start_order == self.walk_order(q));
        }
        let mut out: Vec<u128> = Vec::new();
        loop
            invariant
                it.wf(),
                out@.to_multiset().add(it.pending()) == start,
                out@ + it.order() == start_order,
            ensures
                it.pending() =~= vstd::multiset::Multiset::empty(),
                it.order().len() == 0,
            decreases it.measure(),
        {
            let ghost out0 = out@;
            match it.next() {
                Some(h) => {
                    out.push(h);
                    proof {
                        assert(out@ + it.order() =~= out0 + (seq![h] + it.order()));
                    }
                },
                None => {
                    break;
                },
            }
        }
        proof {
            let hs = self.inner.handles();
            assert(out@ =~= out@ + it.order());
            assert(out@.to_multiset() =~= start);
            assert(start.subset_of(hs.to_multiset()));
            hs.lemma_multiset_has_no_duplicates();
            assert forall|x: u128| out@.to_multiset().contains(x) implies out@.to_multiset().count(x) == 1 by {
                assert(hs.to_multiset().contains(x));
            }
            out@.lemma_multiset_has_no_duplicates_conv();
            assert forall|h: u128| #[trigger] out@.contains(h) implies self@.contains_key(h) by {
                assert(out@.to_multiset().contains(h));
                assert(hs.to_multiset().contains(h));
                assert(hs.contains(h));
            }
            assert forall|h: u128| self@.contains_key(h) && selects(q, self@[h].0) implies #[trigger] out@.contains(h) by {
                assert(hs.contains(h));
                assert(hs.to_multiset().contains(h));
                assert(regions_of(self.store@)[h] == self@[h].0);
                assert(out@.to_multiset().contains(h));
            }
        }
        out
    }

    /// The region and the value of every entry that `q` selects, once each.
    fn gather(&self, q: Option<Area>) -> (r: Vec<(Area, &V)>)
        requires
            self.wf(),
            q matches Some(a) ==> a.wf(),
        ensures
            lists(self@, q, r@),
            shows(self@, self.listed(q), r@),
    {
        let hs = self.collect_handles(q);
        let mut out: Vec<(Area, &V)> = Vec::new();
        let ghost mut picked: Seq<u128> = Seq::empty();
        let mut i: usize = 0;
        while i < hs.len()
            invariant
                self.wf(),
                hs@.no_duplicates(),
                forall|h: u128| self@.contains_key(h) && selects(q, self@[h].0) ==> #[trigger] hs@.contains(h),
                i <= hs@.len(),
                picked == selected(self@, q, hs@.take(i as int)),
                picked.no_duplicates(),
                out@.len() == picked.len(),
                forall|j: int|
                    0 <= j < out@.len() ==> out@[j].0 == self@[picked[j]].0 && *out@[j].1 == self@[picked[j]].1,
                forall|h: u128|
                    #[trigger] picked.contains(h) <==> (hs@.subrange(0, i as int).contains(h) && self@.contains_key(h)
                        && selects(q, self@[h].0)),
            decreases hs@.len() - i,
        {
            let h = hs[i];
            proof {
                assert(hs@.subrange(0, i + 1) =~= hs@.subrange(0, i as int).push(h));
                assert(hs@.take(i + 1).drop_last() =~= hs@.take(i as int));
                assert(hs@.take(i + 1).last() == h);
                assert(!hs@.subrange(0, i as int).contains(h)) by {
                    if hs@.subrange(0, i as int).contains(h) {
                        let k = choose|k: int| 0 <= k < i && hs@.subrange(0, i as int)[k] == h;
                        assert(hs@[k] == hs@[i as int]);
                    }
                }
                assert(!picked.contains(h));
            }
            match self.store.get(&h) {
                Some(e) => {
                    let keep = match q {
                        None => true,
                        Some(qa) => qa.intersects(e.0),
                    };
                    if keep {
                        out.push((e.0, &e.1));
                        proof {
                            picked = picked.push(h);
                        }
                    }
                },
                None => {},
            }
            i = i + 1;
        }
        proof {
            assert(hs@.subrange(0, hs@.len() as int) =~= hs@);
            assert(hs@.take(hs@.len() as int) =~= hs@);
            assert(is_listing(self@, q, picked));
        }
        out
    }

    /// The region and the value of every entry, once each.
    pub fn iter(&self) -> (r: Vec<(Area, &V)>)
        requires
            self.wf(),
        ensures
            lists(self@, None, r@),
            shows(self@, self.listed(None), r@),
    {
        self.gather(None)
    }

    /// The region and the value of every entry whose region intersects the
    /// region of `size` anchored at `anchor`, once each.
    pub fn query(&self, anchor: (i64, i64), size: (i64, i64)) -> (r: Vec<(Area, &V)>)
        requires
            self.wf(),
            size.0 > 0,
            size.1 > 0,
        ensures
            lists(self@, Some(area_of(anchor, size)), r@),
            shows(self@, self.listed(Some(area_of(anchor, size))), r@),
    {
        self.gather(Some(Area::new(anchor, size)))
    }

    /// The region and the value of every entry whose region covers the cell
    /// `anchor`, as `query` with size `(1, 1)`.
    pub fn query_pt(&self, anchor: (i64, i64)) -> (r: Vec<(Area, &V)>)
        requires
            self.wf(),
        ensures
            lists(self@, Some(area_of(anchor, (1, 1))), r@),
            shows(self@, self.listed(Some(area_of(anchor, (1, 1)))), r@),
    {
        self.query(anchor, (1, 1))
    }

    /// The region of every entry, once for each entry.
    pub fn regions(&self) -> (r: Vec<Area>)
        requires
            self.wf(),
        ensures
            exists|hs: Seq<u128>|
                {
                    &&& #[trigger] is_listing(self@, None, hs)
                    &&& r@.len() == hs.len()
                    &&& forall|i: int| 0 <= i < r@.len() ==> r@[i] == self@[hs[i]].0
                },
            r@.len() == self.listed(None).len(),
            forall|i: int| 0 <= i < r@.len() ==> r@[i] == self@[self.listed(None)[i]].0,
    {
        let all = self.iter();
        let ghost hs = choose|hs: Seq<u128>|
            {
                &&& #[trigger] is_listing(self@, None, hs)
                &&& all@.len() == hs.len()
                &&& forall|i: int| 0 <= i < all@.len() ==> all@[i].0 == self@[hs[i]].0 && *all@[i].1 == self@[hs[i]].1
            };
        let mut out: Vec<Area> = Vec::new();
        let mut i: usize = 0;
        while i < all.len()
            invariant
                i <= all@.len(),
                out@.len() == i,
                forall|j: int| 0 <= j < i ==> out@[j] == all@[j].0,
            decreases all@.len() - i,
        {
            out.push(all[i].0);
            i = i + 1;
        }
        proof {
            assert(is_listing(self@, None, hs));
        }
        out
    }

    /// The value of every entry, once for each entry.
    pub fn values(&self) -> (r: Vec<&V>)
        requires
            self.wf(),
        ensures
            exists|hs: Seq<u128>|
                {
                    &&& #[trigger] is_listing(self@, None, hs)
                    &&& r@.len() == hs.len()
                    &&& forall|i: int| 0 <= i < r@.len() ==> *r@[i] == self@[hs[i]].1
                },
            r@.len() == self.listed(None).len(),
            forall|i: int| 0 <= i < r@.len() ==> *r@[i] == self@[self.listed(None)[i]].1,
    {
        let all = self.iter();
        let ghost hs = choose|hs: Seq<u128>|
            {
                &&& #[trigger] is_listing(self@, None, hs)
                &&& all@.len() == hs.len()
                &&& forall|i: int| 0 <= i < all@.len() ==> all@[i].0 == self@[hs[i]].0 && *all@[i].1 == self@[hs[i]].1
            };
        let mut out: Vec<&V> = Vec::new();
        let mut i: usize = 0;
        while i < all.len()
            invariant
                i <= all@.len(),
                out@.len() == i,
                forall|j: int| 0 <= j < i ==> out@[j] == all@[j].1,
            decreases all@.len() - i,
        {
            out.push(all[i].1);
            i = i + 1;
        }
        proof {
            assert(is_listing(self@, None, hs));
        }
        out
    }

    /// Replaces the value `v` of every entry that `q` selects with `f(v)`;
    /// the regions, and so the index, stay as they are.
    fn modify_region<F: Fn(V) -> V>(&mut self, q: Option<Area>, f: F)
        requires
            old(self).wf(),
            forall|v: V| #[trigger] f.requires((v,)),
        ensures
            final(self).wf(),
            modified(old(self)@, final(self)@, q, f),
            final(self).region() == old(self).region(),
            final(self).spec_depth() == old(self).spec_depth(),
    {
        let hs = self.collect_handles(None);
        let ghost m0 = self.store@;
        proof {
            assert(is_listing(m0, None, hs@));
        }
        let mut i: usize = 0;
        while i < hs.len()
            invariant
                self.inner == old(self).inner,
                self.depth == old(self).depth,
                m0 == old(self).store@,
                forall|v: V| #[trigger] f.requires((v,)),
                is_listing(m0, None, hs@),
                i <= hs@.len(),
                self.store@.dom() == m0.dom(),
                regions_of(self.store@) == regions_of(m0),
                forall|h: u128|
                    #[trigger] self.store@.contains_key(h) ==> {
                        if hs@.subrange(0, i as int).contains(h) && selects(q, m0[h].0) {
                            f.ensures((m0[h].1,), self.store@[h].1)
                        } else {
                            self.store@[h].1 == m0[h].1
                        }
                    },
            decreases hs@.len() - i,
        {
            let h = hs[i];
            let ghost before = self.store@;
            proof {
                assert(hs@.subrange(0, i + 1) =~= hs@.subrange(0, i as int).push(h));
                assert(!hs@.subrange(0, i as int).contains(h)) by {
                    if hs@.subrange(0, i as int).contains(h) {
                        let k = choose|k: int| 0 <= k < i && hs@.subrange(0, i as int)[k] == h;
                        assert(hs@[k] == hs@[i as int]);
                    }
                }
                assert(hs@[i as int] == h);
                assert(hs@.contains(h));
                assert(m0.contains_key(h));
                assert(regions_of(before).contains_key(h));
                assert(regions_of(before)[h] == before[h].0);
            }
            match self.store.remove(&h) {
                Some(e) => {
                    let (a, v) = e;
                    let keep = match q {
                        None => true,
                        Some(qa) => qa.intersects(a),
                    };
                    let nv = if keep {
                        f(v)
                    } else {
                        v
                    };
                    self.store.insert(h, (a, nv));
                    proof {
                        assert(self.store@ =~= before.insert(h, (a, nv)));
                        assert(regions_of(self.store@) =~= regions_of(before));
                        assert(self.store@.dom() =~= m0.dom());
                    }
                },
                None => {},
            }
            i = i + 1;
        }
        proof {
            assert(hs@.subrange(0, hs@.len() as int) =~= hs@);
            assert(self.store@.dom() =~= m0.dom());
            assert forall|h: u128| #[trigger] self.store@.contains_key(h) implies self.store@[h].0.wf()
                && self.store@[h].0 == m0[h].0 by {
                assert(regions_of(self.store@)[h] == regions_of(m0)[h]);
            }
            assert forall|h: u128| #[trigger] self.store@.contains_key(h) implies hs@.contains(h) by {
                assert(m0.contains_key(h));
            }
        }
    }

    /// Replaces the value `v` of every entry with `f(v)`.
    pub fn modify_all<F: Fn(V) -> V>(&mut self, f: F)
        requires
            old(self).wf(),
            forall|v: V| #[trigger] f.requires((v,)),
        ensures
            final(self).wf(),
            modified(old(self)@, final(self)@, None, f),
            final(self).region() == old(self).region(),
            final(self).spec_depth() == old(self).spec_depth(),
    {
        self.modify_region(None, f)
    }

    /// Replaces the value `v` of every entry whose region intersects the
    /// region of `size` anchored at `anchor` with `f(v)`.
    pub fn modify<F: Fn(V) -> V>(&mut self, anchor: (i64, i64), size: (i64, i64), f: F)
        requires
            old(self).wf(),
            size.0 > 0,
            size.1 > 0,
            forall|v: V| #[trigger] f.requires((v,)),
        ensures
            final(self).wf(),
            modified(old(self)@, final(self)@, Some(area_of(anchor, size)), f),
            final(self).region() == old(self).region(),
            final(self).spec_depth() == old(self).spec_depth(),
    {
        self.modify_region(Some(Area::new(anchor, size)), f)
    }

    /// Replaces the value `v` of every entry whose region covers the cell
    /// `anchor` with `f(v)`.
    pub fn modify_pt<F: Fn(V) -> V>(&mut self, anchor: (i64, i64), f: F)
        requires
            old(self).wf(),
            forall|v: V| #[trigger] f.requires((v,)),
        ensures
            final(self).wf(),
            modified(old(self)@, final(self)@, Some(area_of(anchor, (1, 1))), f),
            final(self).region() == old(self).region(),
            final(self).spec_depth() == old(self).spec_depth(),
    {
        self.modify_region(Some(Area::new(anchor, (1, 1))), f)
    }

    /// Inserts each `((anchor, size), value)` item in turn, as `insert` does.
    /// An item whose region does not fit the tree is dropped without notice.
    pub fn extend(&mut self, items: Vec<(((i64, i64), (i64, i64)), V)>)
        requires
            old(self).wf(),
            forall|i: int| 0 <= i < items@.len() ==> (#[trigger] items@[i]).0.1.0 > 0 && items@[i].0.1.1 > 0,
        ensures
            final(self).wf(),
            final(self).region() == old(self).region(),
            final(self).spec_depth() == old(self).spec_depth(),
            final(self)@.len() == old(self)@.len() + fitting_count(old(self).region(), items@),
            exists|hs: Seq<u128>|
                #[trigger] fresh_handles(old(self)@, old(self).region(), items@, hs)
                    && final(self)@ == with_items(old(self)@, old(self).region(), items@, hs),
    {
        let ghost m0 = self@;
        let ghost all = items@;
        let ghost region = self.region();
        let ghost mut hs: Seq<u128> = Seq::empty();
        proof {
            assert(all.take(0) =~= Seq::<(((i64, i64), (i64, i64)), V)>::empty());
        }
        for item in it: items
            invariant
                self.wf(),
                self.region() == region,
                region == old(self).region(),
                self.spec_depth() == old(self).spec_depth(),
                m0 == old(self)@,
                all == items@,
                it.seq() == all,
                forall|i: int| 0 <= i < all.len() ==> (#[trigger] all[i]).0.1.0 > 0 && all[i].0.1.1 > 0,
                fresh_handles(m0, region, all.take(it.index() as int), hs),
                self@ == with_items(m0, region, all.take(it.index() as int), hs),
                self@.len() == m0.len() + fitting_count(region, all.take(it.index() as int)),
        {
            let ghost k = it.index() as int;
            let ghost before = self@;
            let ghost hs0 = hs;
            let ((anchor, size), val) = item;
            self.insert(anchor, size, val);
            proof {
                let a = area_of(anchor, size);
                let h = if region.spec_contains(a) {
                    choose|h: u128| !before.contains_key(h) && self@ == before.insert(h, (a, val))
                } else {
                    0u128
                };
                hs = hs0.push(h);
                let items1 = all.take(k + 1);
                assert(all[k] == ((anchor, size), val));
                assert(items1.drop_last() =~= all.take(k));
                assert(items1.last() == all[k]);
                assert(hs.drop_last() =~= hs0);
                assert(self@ == with_items(m0, region, items1, hs));
                assert forall|i: int|
                    0 <= i < items1.len() && region.spec_contains(
                        area_of((#[trigger] items1[i]).0.0, items1[i].0.1),
                    ) implies !with_items(m0, region, items1.take(i), hs.take(i)).contains_key(hs[i]) by {
                    if i < k {
                        assert(items1.take(i) =~= all.take(k).take(i));
                        assert(hs.take(i) =~= hs0.take(i));
                        assert(items1[i] == all.take(k)[i]);
                    } else {
                        assert(items1.take(i) =~= all.take(k));
                        assert(hs.take(i) =~= hs0);
                    }
                }
            }
        }
        proof {
            assert(all.take(all.len() as int) =~= all);
        }
    }

    /// Inserts each `(anchor, value)` item in turn, as `insert_pt` does. An
    /// item whose cell lies outside the tree is dropped without notice.
    pub fn extend_pts(&mut self, items: Vec<((i64, i64), V)>)
        requires
            old(self).wf(),
        ensures
            final(self).wf(),
            final(self).region() == old(self).region(),
            final(self).spec_depth() == old(self).spec_depth(),
            final(self)@.len() == old(self)@.len() + fitting_count(old(self).region(), as_cells(items@)),
            exists|hs: Seq<u128>|
                #[trigger] fresh_handles(old(self)@, old(self).region(), as_cells(items@), hs)
                    && final(self)@ == with_items(old(self)@, old(self).region(), as_cells(items@), hs),
    {
        let ghost all = items@;
        let mut cells: Vec<(((i64, i64), (i64, i64)), V)> = Vec::new();
        for item in it: items
            invariant
                all == items@,
                it.seq() == all,
                cells@ == as_cells(all.take(it.index() as int)),
        {
            let ghost k = it.index() as int;
            let (anchor, val) = item;
            cells.push(((anchor, (1, 1)), val));
            proof {
                assert(all[k] == (anchor, val));
                assert(as_cells(all.take(k + 1)) =~= as_cells(all.take(k)).push(((anchor, (1i64, 1i64)), val)));
            }
        }
        proof {
            assert(all.take(all.len() as int) =~= all);
        }
        self.extend(cells);
    }

    /// Hands over every entry, region and value, once each, consuming the
    /// tree.
    pub fn into_iter(self) -> (r: Vec<(Area, V)>)
        requires
            self.wf(),
        ensures
            exists|hs: Seq<u128>|
                {
                    &&& #[trigger] is_listing(self@, None, hs)
                    &&& r@.len() == hs.len()
                    &&& forall|i: int| 0 <= i < r@.len() ==> r@[i] == self@[hs[i]]
                },
            r@.len() == self.walk_order(None).len(),
            forall|i: int| 0 <= i < r@.len() ==> r@[i] == self@[self.walk_order(None)[i]],
    {
        let hs = self.collect_handles(None);
        let ghost m0 = self@;
        proof {
            assert(is_listing(m0, None, hs@));
        }
        let Quadtree { depth: _, inner: _, mut store } = self;
        proof {
            assert(store@ == m0);
            assert forall|k: int| 0 <= k < hs@.len() implies m0.contains_key(#[trigger] hs@[k]) by {
                assert(hs@.contains(hs@[k]));
            }
        }
        let mut out: Vec<(Area, V)> = Vec::new();
        let mut i: usize = 0;
        while i < hs.len()
            invariant
                is_listing(m0, None, hs@),
                i <= hs@.len(),
                out@.len() == i,
                forall|j: int| 0 <= j < i ==> out@[j] == m0[hs@[j]],
                forall|k: int| i <= k < hs@.len() ==> store@.contains_key(#[trigger] hs@[k]) && store@[hs@[k]] == m0[hs@[k]],
            decreases hs@.len() - i,
        {
            let h = hs[i];
            let ghost before = store@;
            match store.remove(&h) {
                Some(e) => {
                    out.push(e);
                },
                None => {},
            }
            proof {
                assert forall|k: int| i + 1 <= k < hs@.len() implies store@.contains_key(#[trigger] hs@[k])
                    && store@[hs@[k]] == m0[hs@[k]] by {
                    assert(hs@[k] != hs@[i as int]);
                }
            }
            i = i + 1;
        }
        out
    }
}

/// Storing an entry under a handle that is not in use adds exactly one entry.
pub proof fn lemma_insert_adds_one<V>(qt: Quadtree<V>, h: u128, a: Area, v: V)
    requires
        qt.wf(),
        !qt@.contains_key(h),
    ensures
        qt@.insert(h, (a, v)).len() == qt@.len() + 1,
{
}

/// Once an entry is stored, every listing that selects its region (all
/// entries, as `iter` gives; or those meeting an area it meets, as `query`
/// gives) holds its region and its value.
pub proof fn lemma_inserted_entry_listed<V>(
    m: Map<u128, (Area, V)>,
    h: u128,
    a: Area,
    v: V,
    q: Option<Area>,
    r: Seq<(Area, &V)>,
)
    requires
        selects(q, a),
        lists(m.insert(h, (a, v)), q, r),
    ensures
        exists|i: int| 0 <= i < r.len() && r[i].0 == a && *r[i].1 == v,
{
    let m2 = m.insert(h, (a, v));
    let hs = choose|hs: Seq<u128>|
        {
            &&& #[trigger] is_listing(m2, q, hs)
            &&& r.len() == hs.len()
            &&& forall|i: int| 0 <= i < r.len() ==> r[i].0 == m2[hs[i]].0 && *r[i].1 == m2[hs[i]].1
        };
    assert(hs.contains(h));
    let i = choose|i: int| 0 <= i < hs.len() && hs[i] == h;
    assert(r[i].0 == a && *r[i].1 == v);
}

/// A query over exactly the region of a stored entry reports that entry, and
/// reports its handle once.
pub proof fn lemma_query_own_region<V>(m: Map<u128, (Area, V)>, h: u128, a: Area, v: V, r: Seq<(Area, &V)>)
    requires
        a.wf(),
        lists(m.insert(h, (a, v)), Some(a), r),
    ensures
        exists|hs: Seq<u128>, j: int|
            #![trigger is_listing(m.insert(h, (a, v)), Some(a), hs), hs[j]]
            {
                &&& is_listing(m.insert(h, (a, v)), Some(a), hs)
                &&& r.len() == hs.len()
                &&& 0 <= j < hs.len()
                &&& hs[j] == h
                &&& r[j].0 == a
                &&& *r[j].1 == v
                &&& forall|k: int| 0 <= k < hs.len() && hs[k] == h ==> k == j
            },
{
    let m2 = m.insert(h, (a, v));
    let hs = choose|hs: Seq<u128>|
        {
            &&& #[trigger] is_listing(m2, Some(a), hs)
            &&& r.len() == hs.len()
            &&& forall|i: int| 0 <= i < r.len() ==> r[i].0 == m2[hs[i]].0 && *r[i].1 == m2[hs[i]].1
        };
    assert(a.spec_intersects(a));
    assert(hs.contains(h));
    let j = choose|j: int| 0 <= j < hs.len() && hs[j] == h;
    assert(r[j].0 == a && *r[j].1 == v);
}

/// An empty tree lists nothing: after `reset`, `is_empty` holds and `iter`
/// gives no entry.
pub proof fn lemma_empty_lists_nothing<V>(q: Option<Area>, r: Seq<(Area, &V)>)
    requires
        lists(Map::<u128, (Area, V)>::empty(), q, r),
    ensures
        r.len() == 0,
{
    let hs = choose|hs: Seq<u128>|
        {
            &&& #[trigger] is_listing(Map::<u128, (Area, V)>::empty(), q, hs)
            &&& r.len() == hs.len()
            &&& forall|i: int| 0 <= i < r.len() ==> r[i].0 == Map::<u128, (Area, V)>::empty()[hs[i]].0
        };
    if hs.len() > 0 {
        assert(hs.contains(hs[0]));
    }
}

/// A region fits the tree exactly when it lies within the square of side
/// `2^depth` at the tree's anchor.
pub proof fn lemma_contains_bounds<V>(qt: Quadtree<V>, anchor: (i64, i64), size: (i64, i64))
    requires
        qt.wf(),
    ensures
        qt.region().spec_contains(area_of(anchor, size)) <==> {
            &&& qt.region().anchor.x <= anchor.0
            &&& anchor.0 + size.0 <= qt.region().anchor.x + pow2(qt.spec_depth())
            &&& qt.region().anchor.y <= anchor.1
            &&& anchor.1 + size.1 <= qt.region().anchor.y + pow2(qt.spec_depth())
        },
{
}

/// A listing is fixed by the entries and the order of the walk: two calls of
/// `query` with the same area on an unchanged tree (or `query_pt` and `query`
/// with size `(1, 1)`, or two calls of `iter`) give the same sequence.
pub proof fn lemma_listing_deterministic<V>(
    m: Map<u128, (Area, V)>,
    hs: Seq<u128>,
    r1: Seq<(Area, &V)>,
    r2: Seq<(Area, &V)>,
)
    requires
        shows(m, hs, r1),
        shows(m, hs, r2),
    ensures
        r1 == r2,
{
    assert(r1 =~= r2);
}

} // verus!
