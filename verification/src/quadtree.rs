use crate::error::QuadTreeError;
use crate::point::Point;
use crate::query::Query;
use crate::interval::Interval;
use crate::region::{
    box_contains, box_wf, lemma_box_shared_point, lemma_box_subdivide_partitions,
    lemma_box_subdivide_wf, lemma_box_subdivide_within, Region,
};
use crate::seqs::{
    lemma_filter_all, lemma_filter_none, lemma_filter_passed, lemma_filter_same,
    lemma_filter_to_multiset, lemma_filter_twice,
};
use vstd::multiset::*;
use vstd::prelude::*;
use vstd::seq_lib::*;

verus! {

/// What a tree can store: a value that has a point, by which the tree files
/// it, and an item, which queries hand out.
///
/// A value may be its own item, as a `Point` is, or a record that carries
/// more than its point.
///
/// The tree relies on a value keeping its point: `spec_point` says which
/// point that is, and `point` must return it on every call. Code that is
/// not verified writes `spec_point` as an ordinary method that returns a
/// copy of the point.
pub trait Storable<V, const N: usize> {
    /// The point of the value, as a specification: a value has one point,
    /// and `point` returns it whenever it is called.
    spec fn spec_point(&self) -> Point<N>;

    /// The point by which the value is filed.
    fn point(&self) -> (point: &Point<N>)
        ensures
            *point == self.spec_point(),
    ;

    /// The item that queries hand out.
    fn item(&self) -> (item: &V)
    ;
}

/// A tree over a region of `N`-dimensional space. With two axes it is a
/// quadtree, with three an octree.
///
/// Every node has a region and a bucket of values. A leaf takes values into
/// its bucket until the bucket holds `capacity` of them; the next value
/// makes it cut its region into boxes and hand each box to a new child. From
/// then on the node keeps its bucket and passes new values down to the child
/// whose region holds their point. A leaf whose region cannot be cut goes on
/// taking values beyond its capacity.
#[derive(PartialEq, Debug)]
pub struct QuadTree<const N: usize, V> {
    region: Region<N>,
    capacity: usize,
    subtrees: Option<Vec<QuadTree<N, V>>>,
    points: Vec<V>,
}

impl<const N: usize, V> QuadTree<N, V> {
    /// The region of the node.
    pub closed spec fn spec_region(&self) -> Region<N> {
        self.region
    }

    /// The number of values after which a leaf is cut.
    pub closed spec fn spec_capacity(&self) -> nat {
        self.capacity as nat
    }

    /// The values in the node's own bucket, oldest first.
    pub closed spec fn bucket(&self) -> Seq<V> {
        self.points@
    }

    /// A leaf is a node without children.
    pub closed spec fn is_leaf(&self) -> bool {
        self.subtrees is None
    }

    /// The children of the node, in the order of the boxes that its region
    /// was cut into; a leaf has none.
    pub closed spec fn children(&self) -> Seq<QuadTree<N, V>> {
        match self.subtrees {
            Some(subtrees) => subtrees@,
            None => Seq::empty(),
        }
    }

    /// The number of levels below the node.
    pub closed spec fn height(&self) -> nat
        decreases self,
    {
        match self.subtrees {
            None => 0,
            Some(subtrees) => 1 + Self::max_height(subtrees@),
        }
    }

    /// The largest height among the nodes.
    pub closed spec fn max_height(nodes: Seq<QuadTree<N, V>>) -> nat
        decreases nodes,
    {
        if nodes.len() == 0 {
            0
        } else {
            let rest = Self::max_height(nodes.drop_last());
            if nodes.last().height() > rest {
                nodes.last().height()
            } else {
                rest
            }
        }
    }

    /// All values in the node and below it: the node's own bucket first,
    /// then what each child holds, child by child.
    pub closed spec fn items(&self) -> Seq<V>
        decreases self,
    {
        match self.subtrees {
            None => self.points@,
            Some(subtrees) => self.points@ + Self::items_of(subtrees@),
        }
    }

    /// All values in the nodes and below them, node by node.
    pub closed spec fn items_of(nodes: Seq<QuadTree<N, V>>) -> Seq<V>
        decreases nodes,
    {
        if nodes.len() == 0 {
            Seq::empty()
        } else {
            Self::items_of(nodes.drop_last()) + nodes.last().items()
        }
    }

    /// The regions of the node and of all nodes below it: the node's own
    /// first, then those of each child's subtree, child by child.
    pub closed spec fn spec_regions(&self) -> Seq<Region<N>>
        decreases self,
    {
        match self.subtrees {
            None => seq![self.region],
            Some(subtrees) => seq![self.region] + Self::regions_of(subtrees@),
        }
    }

    /// The regions of the nodes and of all nodes below them, node by node.
    pub closed spec fn regions_of(nodes: Seq<QuadTree<N, V>>) -> Seq<Region<N>>
        decreases nodes,
    {
        if nodes.len() == 0 {
            Seq::empty()
        } else {
            Self::regions_of(nodes.drop_last()) + nodes.last().spec_regions()
        }
    }

    /// What `items` is, in terms of the node's bucket and children.
    pub proof fn lemma_items(&self)
        ensures
            self.is_leaf() ==> self.items() == self.bucket(),
            !self.is_leaf() ==> self.items() == self.bucket() + Self::items_of(self.children()),
            Self::items_of(Seq::empty()) == Seq::<V>::empty(),
    {
    }

    /// What `items_of` is for a list of nodes that is not empty.
    pub proof fn lemma_items_of(nodes: Seq<QuadTree<N, V>>)
        requires
            nodes.len() > 0,
        ensures
            Self::items_of(nodes) == Self::items_of(nodes.drop_last()) + nodes.last().items(),
    {
    }

    /// A leaf has no children and no levels below it; a node with
    /// children is higher than each of them.
    pub proof fn lemma_height(&self)
        ensures
            self.is_leaf() ==> self.children().len() == 0 && self.height() == 0,
            forall|i: int|
                0 <= i < self.children().len() ==> (#[trigger] self.children()[i]).height()
                    < self.height(),
    {
        if !self.is_leaf() {
            assert forall|i: int| 0 <= i < self.children().len() implies (
            #[trigger] self.children()[i]).height() < self.height() by {
                Self::lemma_max_height(self.children(), i);
            }
        }
    }

    proof fn lemma_max_height(nodes: Seq<QuadTree<N, V>>, i: int)
        requires
            0 <= i < nodes.len(),
        ensures
            nodes[i].height() <= Self::max_height(nodes),
        decreases nodes,
    {
        if i < nodes.len() - 1 {
            Self::lemma_max_height(nodes.drop_last(), i);
        }
    }

    /// Nodes that hold nothing hold nothing together.
    pub proof fn lemma_items_of_empty(nodes: Seq<QuadTree<N, V>>)
        requires
            forall|i: int| 0 <= i < nodes.len() ==> (#[trigger] nodes[i]).items().len() == 0,
        ensures
            Self::items_of(nodes) == Seq::<V>::empty(),
        decreases nodes,
    {
        if nodes.len() > 0 {
            Self::lemma_items_of_empty(nodes.drop_last());
            assert(nodes.last().items() =~= Seq::<V>::empty());
            assert(Self::items_of(nodes) =~= Seq::<V>::empty());
        }
    }

    /// Where one node of a list gains one value, the list gains that value.
    pub proof fn lemma_items_of_gain(
        nodes: Seq<QuadTree<N, V>>,
        index: int,
        node: QuadTree<N, V>,
        value: V,
    )
        requires
            0 <= index < nodes.len(),
            node.items().to_multiset() == nodes[index].items().to_multiset().insert(value),
        ensures
            Self::items_of(nodes.update(index, node)).to_multiset() == Self::items_of(
                nodes,
            ).to_multiset().insert(value),
        decreases nodes,
    {
        let updated = nodes.update(index, node);
        let head = Self::items_of(nodes.drop_last());
        lemma_multiset_commutative(head, nodes.last().items());
        if index == nodes.len() - 1 {
            assert(updated.drop_last() =~= nodes.drop_last());
            lemma_multiset_commutative(head, node.items());
            assert(Self::items_of(updated).to_multiset() =~= Self::items_of(
                nodes,
            ).to_multiset().insert(value));
        } else {
            Self::lemma_items_of_gain(nodes.drop_last(), index, node, value);
            assert(updated.drop_last() =~= nodes.drop_last().update(index, node));
            let new_head = Self::items_of(updated.drop_last());
            lemma_multiset_commutative(new_head, nodes.last().items());
            assert(Self::items_of(updated).to_multiset() =~= Self::items_of(
                nodes,
            ).to_multiset().insert(value));
        }
    }
}

impl<const N: usize, V: Storable<V, N>> QuadTree<N, V> {
    /// The predicate of a query, taken on the point of a stored value.
    pub open spec fn accepted_by<Q: Query<N>>(query: Q) -> spec_fn(V) -> bool {
        |value: V| query.accepts(value.spec_point())
    }

    /// `out` holds, in order, what `item` returned for each of `values`.
    pub open spec fn hands_out(out: Seq<&V>, values: Seq<V>) -> bool {
        &&& out.len() == values.len()
        &&& forall|i: int|
            0 <= i < out.len() ==> call_ensures(V::item, (&values[i],), #[trigger] out[i])
    }

    /// `after` is `before`, followed by what `item` returned for each of
    /// `values`.
    pub open spec fn extended_by(before: Seq<&V>, after: Seq<&V>, values: Seq<V>) -> bool {
        &&& after.len() == before.len() + values.len()
        &&& after.take(before.len() as int) =~= before
        &&& Self::hands_out(after.skip(before.len() as int), values)
    }

    proof fn lemma_extended_twice(
        first: Seq<&V>,
        second: Seq<&V>,
        third: Seq<&V>,
        values: Seq<V>,
        more: Seq<V>,
    )
        requires
            Self::extended_by(first, second, values),
            Self::extended_by(second, third, more),
        ensures
            Self::extended_by(first, third, values + more),
    {
        let n = first.len() as int;
        let m = second.len() as int;
        assert(third.take(n) =~= first) by {
            assert(third.take(m) == second);
            assert(second.take(n) == first);
            assert forall|i: int| 0 <= i < n implies third.take(n)[i] == first[i] by {
                assert(third.take(m)[i] == second[i]);
                assert(second.take(n)[i] == first[i]);
            }
        }
        let tail = third.skip(n);
        assert forall|i: int| 0 <= i < tail.len() implies call_ensures(
            V::item,
            (&(values + more)[i],),
            #[trigger] tail[i],
        ) by {
            if i < values.len() {
                assert(third.take(m)[n + i] == second[n + i]);
                assert(second.skip(n)[i] == second[n + i]);
            } else {
                assert(third.skip(m)[i - values.len()] == third[n + i]);
            }
        }
    }

    /// The values that a query finds in the node and below it.
    ///
    /// These are the values of the node's own bucket that the query
    /// accepts, followed by what the query finds in each child whose region
    /// intersects the query's bounding region. A child whose region does
    /// not intersect it is left out with everything below it.
    pub closed spec fn spec_query<Q: Query<N>>(&self, query: Q) -> Seq<V>
        decreases self,
    {
        match self.subtrees {
            None => self.points@.filter(Self::accepted_by(query)),
            Some(subtrees) => self.points@.filter(Self::accepted_by(query)) + Self::query_of(
                subtrees@,
                query,
            ),
        }
    }

    /// The values that a query finds in the nodes and below them, node by
    /// node, leaving out the nodes whose region does not intersect the
    /// query's bounding region.
    pub closed spec fn query_of<Q: Query<N>>(nodes: Seq<QuadTree<N, V>>, query: Q) -> Seq<V>
        decreases nodes,
    {
        if nodes.len() == 0 {
            Seq::empty()
        } else if nodes.last().region.spec_intersects(query.bounding()) {
            Self::query_of(nodes.drop_last(), query) + nodes.last().spec_query(query)
        } else {
            Self::query_of(nodes.drop_last(), query)
        }
    }

    /// The invariant of a tree.
    ///
    /// The capacity is positive and the region well formed. Every value in
    /// a bucket has its point in the region of the bucket's node. A leaf
    /// holds no more values than the capacity, unless its region cannot be
    /// cut. A node with children has a bucket that is exactly full, and its
    /// children are, in order, nodes over the boxes that its region is cut
    /// into, at least two of them, with the same capacity.
    pub open spec fn wf(&self) -> bool
        decreases self.height(),
        via Self::wf_terminates
    {
        &&& self.spec_capacity() > 0
        &&& self.spec_region().wf()
        &&& forall|i: int|
            0 <= i < self.bucket().len() ==> self.spec_region().spec_contains(
                (#[trigger] self.bucket()[i]).spec_point(),
            )
        &&& if self.is_leaf() {
            self.bucket().len() <= self.spec_capacity() || self.spec_region().spec_subdivide().len()
                == 1
        } else {
            &&& self.bucket().len() == self.spec_capacity()
            &&& self.children().len() == self.spec_region().spec_subdivide().len()
            &&& self.children().len() >= 2
            &&& forall|i: int|
                0 <= i < self.children().len() ==> {
                    &&& (#[trigger] self.children()[i]).wf()
                    &&& self.children()[i].spec_region()@ == self.spec_region().spec_subdivide()[i]
                    &&& self.children()[i].spec_capacity() == self.spec_capacity()
                }
        }
    }

    #[via_fn]
    proof fn wf_terminates(&self) {
        self.lemma_height();
    }

    /// `after` is `before` with `value` put where `insert` puts it.
    ///
    /// A node whose bucket has room takes the value into its bucket, and
    /// so does a full leaf whose region cannot be cut. A full leaf whose
    /// region can be cut keeps its bucket and gets one new leaf for each
    /// box of its region, all of them empty but the one whose box holds the
    /// point of the value: that one holds the value alone. A node with
    /// children keeps its bucket, and the value is put into the child whose
    /// region holds its point, while the other children stay as they are.
    pub open spec fn placed(before: Self, value: V, after: Self) -> bool
        decreases before.height(),
        via Self::placed_terminates
    {
        let boxes = before.spec_region().spec_subdivide();
        &&& after.spec_region() == before.spec_region()
        &&& after.spec_capacity() == before.spec_capacity()
        &&& if before.bucket().len() < before.spec_capacity() || (before.is_leaf() && boxes.len()
            == 1) {
            &&& after.bucket() == before.bucket().push(value)
            &&& after.is_leaf() == before.is_leaf()
            &&& after.children() == before.children()
        } else {
            &&& after.bucket() == before.bucket()
            &&& !after.is_leaf()
            &&& after.children().len() == boxes.len()
            &&& forall|i: int|
                0 <= i < boxes.len() ==> if before.is_leaf() {
                    &&& (#[trigger] after.children()[i]).is_leaf()
                    &&& after.children()[i].spec_region()@ == boxes[i]
                    &&& after.children()[i].spec_capacity() == before.spec_capacity()
                    &&& after.children()[i].bucket() == if box_contains(
                        boxes[i],
                        value.spec_point()@,
                    ) {
                        seq![value]
                    } else {
                        Seq::<V>::empty()
                    }
                } else if box_contains(boxes[i], value.spec_point()@) && i
                    < before.children().len() {
                    Self::placed(before.children()[i], value, #[trigger] after.children()[i])
                } else {
                    (#[trigger] after.children()[i]) == before.children()[i]
                }
        }
    }

    #[via_fn]
    proof fn placed_terminates(before: Self, value: V, after: Self) {
        before.lemma_height();
    }

    /// A new tree over `region`: a single leaf with an empty bucket, which
    /// will be cut once it holds `max_points` values.
    pub fn new(region: &Region<N>, max_points: usize) -> (tree: Self)
        requires
            region.wf(),
            max_points > 0,
        ensures
            tree.wf(),
            tree.spec_region() == *region,
            tree.spec_capacity() == max_points,
            tree.is_leaf(),
            tree.bucket() == Seq::<V>::empty(),
            tree.items() == Seq::<V>::empty(),
    {
        let own = Region::new(region.intervals());
        proof {
            Region::lemma_same_intervals(own, *region);
        }
        QuadTree {
            region: own,
            capacity: max_points,
            subtrees: None,
            points: Vec::with_capacity(max_points),
        }
    }

    /// Cuts the region of a full leaf and gives the leaf one empty child
    /// for each box. A region that cannot be cut yields a single box, the
    /// region itself: then the leaf is left as it is, and the result is
    /// `false`.
    fn subdivide(&mut self) -> (split: bool)
        requires
            old(self).wf(),
            old(self).is_leaf(),
            old(self).bucket().len() >= old(self).spec_capacity(),
        ensures
            final(self).wf(),
            final(self).spec_region() == old(self).spec_region(),
            final(self).spec_capacity() == old(self).spec_capacity(),
            final(self).bucket() == old(self).bucket(),
            final(self).items() == old(self).items(),
            split == (old(self).spec_region().spec_subdivide().len() > 1),
            split == !final(self).is_leaf(),
            forall|i: int|
                #![trigger final(self).children()[i]]
                0 <= i < final(self).children().len() ==> final(self).children()[i].is_leaf()
                    && final(self).children()[i].bucket().len() == 0,
    {
        let subregions = self.region.subdivide();
        proof {
            lemma_box_subdivide_wf(self.region@);
        }
        if subregions.len() < 2 {
            return false;
        }
        let capacity = self.capacity;
        let ghost boxes = self.region.spec_subdivide();
        let mut subtrees: Vec<QuadTree<N, V>> = Vec::with_capacity(subregions.len());
        let mut k: usize = 0;
        while k < subregions.len()
            invariant
                k <= subregions@.len(),
                capacity > 0,
                subregions@.len() == boxes.len(),
                forall|j: int| 0 <= j < boxes.len() ==> (#[trigger] subregions@[j])@ == boxes[j],
                forall|j: int| 0 <= j < boxes.len() ==> box_wf(#[trigger] boxes[j]),
                subtrees@.len() == k,
                forall|j: int|
                    0 <= j < k ==> {
                        &&& (#[trigger] subtrees@[j]).wf()
                        &&& subtrees@[j].is_leaf()
                        &&& subtrees@[j].bucket().len() == 0
                        &&& subtrees@[j].items().len() == 0
                        &&& subtrees@[j].spec_region()@ == boxes[j]
                        &&& subtrees@[j].spec_capacity() == capacity
                    },
            decreases subregions@.len() - k,
        {
            let region = Region::new(&subregions[k]);
            subtrees.push(QuadTree::new(&region, capacity));
            k += 1;
        }
        proof {
            Self::lemma_items_of_empty(subtrees@);
            assert(self.points@ + Seq::<V>::empty() =~= self.points@);
            assert forall|j: int| 0 <= j < subtrees@.len() implies (#[trigger] subtrees@[j]).height()
                == 0 by {
                subtrees@[j].lemma_height();
            }
        }
        self.subtrees = Some(subtrees);
        proof {
            self.lemma_height();
        }
        true
    }

    /// The first child whose region holds the point.
    fn find_subtree(&self, point: &Point<N>) -> (found: Option<usize>)
        ensures
            found matches Some(index) ==> index < self.children().len()
                && self.children()[index as int].spec_region().spec_contains(*point),
            found is None ==> forall|i: int|
                0 <= i < self.children().len() ==> !(#[trigger] self.children()[i]).spec_region().spec_contains(
                *point),
    {
        match &self.subtrees {
            None => None,
            Some(subtrees) => {
                let mut i: usize = 0;
                while i < subtrees.len()
                    invariant
                        i <= subtrees@.len(),
                        subtrees@ == self.children(),
                        forall|j: int|
                            0 <= j < i ==> !(#[trigger] self.children()[j]).spec_region().spec_contains(
                            *point),
                    decreases subtrees@.len() - i,
                {
                    if subtrees[i].region.contains(point) {
                        return Some(i);
                    }
                    i += 1;
                }
                None
            },
        }
    }

    /// Stores a value in the tree.
    ///
    /// A value whose point lies outside the region of the tree is refused
    /// with `OutOfBounds`, and the tree stays as it was. Any other value is
    /// stored: in the bucket of this node while the bucket has room, and
    /// otherwise in the child whose region holds its point, after the node
    /// has been cut if it was a leaf. A full leaf whose region cannot be
    /// cut takes the value into its bucket all the same.
    pub fn insert(&mut self, point: V) -> (r: Result<(), QuadTreeError>)
        requires
            old(self).wf(),
        ensures
            final(self).wf(),
            final(self).spec_region() == old(self).spec_region(),
            final(self).spec_capacity() == old(self).spec_capacity(),
            r is Ok <==> old(self).spec_region().spec_contains(point.spec_point()),
            r is Ok ==> final(self).items().to_multiset() == old(self).items().to_multiset().insert(
                point,
            ),
            r is Ok ==> Self::inserted(*old(self), point, *final(self)),
            r is Ok ==> Self::placed(*old(self), point, *final(self)),
            r is Err ==> r == Err::<(), QuadTreeError>(QuadTreeError::OutOfBounds) && *final(self)
                == *old(self),
        decreases
                old(self).height(),
                (if old(self).bucket().len() >= old(self).spec_capacity() {
                    1nat
                } else {
                    0nat
                }),
    {
        if !self.region.contains(point.point()) {
            return Err(QuadTreeError::OutOfBounds);
        }
        proof {
            lemma_box_subdivide_wf(self.region@);
        }
        if self.points.len() < self.capacity {
            assert(self.is_leaf());
            proof {
                to_multiset_build(self.points@, point);
            }
            self.points.push(point);
            return Ok(());
        }
        let ghost was_leaf = self.is_leaf();
        if self.subtrees.is_none() {
            let split = self.subdivide();
            if !split {
                proof {
                    to_multiset_build(self.points@, point);
                }
                self.points.push(point);
                return Ok(());
            }
        }
        let found = self.find_subtree(point.point());
        let ghost boxes = self.region.spec_subdivide();
        let ghost before = self.children();
        let ghost bucket = self.bucket();
        let ghost hit = lemma_box_subdivide_partitions(self.region@, point.spec_point()@);
        proof {
            self.lemma_height();
            assert(before[hit].spec_region()@ == boxes[hit]);
        }
        // The boxes of a region leave no point of it out, and a node that gets
        // here has children: neither of the two failures below can happen.
        let result = match found {
            None => Err(QuadTreeError::InternalInvariant),
            Some(index) => match &mut self.subtrees {
                None => Err(QuadTreeError::InternalInvariant),
                Some(subtrees) => {
                    assert(before[index as int].spec_region()@ == boxes[index as int]);
                    assert(index == hit);
                    let result = subtrees[index].insert(point);
                    proof {
                        Self::lemma_items_of_gain(before, index as int, subtrees@[index as int], point);
                        assert(subtrees@ =~= before.update(index as int, subtrees@[index as int]));
                        lemma_multiset_commutative(bucket, Self::items_of(before));
                        lemma_multiset_commutative(bucket, Self::items_of(subtrees@));
                    }
                    result
                },
            },
        };
        proof {
            self.lemma_height();
            let after = self.children();
            assert(self.items().to_multiset() =~= old(self).items().to_multiset().insert(point));
            assert forall|i: int| 0 <= i < boxes.len() implies if was_leaf {
                &&& (#[trigger] after[i]).is_leaf()
                &&& after[i].spec_region()@ == boxes[i]
                &&& after[i].spec_capacity() == self.spec_capacity()
                &&& after[i].bucket() == if box_contains(boxes[i], point.spec_point()@) {
                    seq![point]
                } else {
                    Seq::<V>::empty()
                }
            } else if box_contains(boxes[i], point.spec_point()@) && i < before.len() {
                Self::placed(before[i], point, #[trigger] after[i])
            } else {
                (#[trigger] after[i]) == before[i]
            } by {
                assert(before[i].spec_region()@ == boxes[i]);
                if i == hit {
                    if was_leaf {
                        assert(before[i].bucket() =~= Seq::<V>::empty());
                        assert(Seq::<V>::empty().push(point) =~= seq![point]);
                    }
                } else {
                    assert(after[i] == before[i]);
                    assert(before[i].bucket() =~= Seq::<V>::empty() || !was_leaf);
                }
            }
        }
        result
    }

    /// The items of the stored values that the query finds.
    ///
    /// The values of this node's bucket come first, as far as the query
    /// accepts their point; then come the finds in each child whose region
    /// intersects the query's bounding region. Children whose region does
    /// not intersect it are not visited.
    pub fn query<'a, Q: Query<N>>(&'a self, query: &'a Q) -> (out: Vec<&'a V>)
        ensures
            Self::hands_out(out@, self.spec_query(*query)),
    {
        let mut out: Vec<&V> = Vec::new();
        self.collect(query, &mut out);
        assert(out@.skip(0) =~= out@);
        out
    }

    /// Appends to `out` the items of the stored values that the query finds
    /// in this node and below it.
    fn collect<'a, Q: Query<N>>(&'a self, query: &Q, out: &mut Vec<&'a V>)
        ensures
            Self::extended_by(old(out)@, final(out)@, self.spec_query(*query)),
        decreases self.height(),
    {
        let ghost accepted = Self::accepted_by(*query);
        let ghost start = out@;
        let mut i: usize = 0;
        proof {
            reveal(Seq::filter);
            assert(self.points@.take(0) =~= Seq::<V>::empty());
            assert(out@.skip(start.len() as int) =~= Seq::<&V>::empty());
        }
        while i < self.points.len()
            invariant
                i <= self.points@.len(),
                accepted == Self::accepted_by(*query),
                Self::extended_by(start, out@, self.points@.take(i as int).filter(accepted)),
            decreases self.points@.len() - i,
        {
            let ghost middle = out@;
            proof {
                reveal(Seq::filter);
                assert(self.points@.take(i as int + 1).drop_last() =~= self.points@.take(i as int));
            }
            if query.contains(self.points[i].point()) {
                let item = self.points[i].item();
                out.push(item);
                proof {
                    let n = start.len() as int;
                    assert(out@.skip(n) =~= middle.skip(n).push(item));
                    assert(out@.take(n) =~= middle.take(n));
                }
            }
            i += 1;
        }
        assert(self.points@.take(i as int) =~= self.points@);
        match &self.subtrees {
            None => {},
            Some(subtrees) => {
                let ghost own = self.points@.filter(accepted);
                let mut k: usize = 0;
                proof {
                    self.lemma_height();
                    assert(subtrees@ == self.children());
                    assert(subtrees@.take(0) =~= Seq::<QuadTree<N, V>>::empty());
                    assert(own + Seq::<V>::empty() =~= own);
                }
                while k < subtrees.len()
                    invariant
                        k <= subtrees@.len(),
                        subtrees@ == self.children(),
                        forall|j: int|
                            0 <= j < subtrees@.len() ==> (#[trigger] subtrees@[j]).height()
                                < self.height(),
                        Self::extended_by(
                            start,
                            out@,
                            own + Self::query_of(subtrees@.take(k as int), *query),
                        ),
                    decreases subtrees@.len() - k,
                {
                    let ghost before = Self::query_of(subtrees@.take(k as int), *query);
                    let ghost middle = out@;
                    proof {
                        assert(subtrees@.take(k as int + 1).drop_last() =~= subtrees@.take(k as int));
                    }
                    if subtrees[k].region.intersects(query.region()) {
                        subtrees[k].collect(query, out);
                        proof {
                            let more = subtrees@[k as int].spec_query(*query);
                            assert(own + (before + more) =~= (own + before) + more);
                            Self::lemma_extended_twice(start, middle, out@, own + before, more);
                        }
                    }
                    k += 1;
                }
                assert(subtrees@.take(k as int) =~= subtrees@);
            },
        }
    }

    /// The regions of all nodes of the tree: that of this node first, then
    /// those of each child's subtree, child by child.
    pub fn regions(&self) -> (out: Vec<Region<N>>)
        ensures
            out@ == self.spec_regions(),
        decreases self.height(),
    {
        let mut out: Vec<Region<N>> = Vec::new();
        let own = Region::new(self.region.intervals());
        proof {
            Region::lemma_same_intervals(own, self.region);
        }
        out.push(own);
        match &self.subtrees {
            None => {},
            Some(subtrees) => {
                let mut k: usize = 0;
                proof {
                    self.lemma_height();
                    assert(subtrees@ == self.children());
                    assert(subtrees@.take(0) =~= Seq::<QuadTree<N, V>>::empty());
                }
                while k < subtrees.len()
                    invariant
                        k <= subtrees@.len(),
                        subtrees@ == self.children(),
                        forall|j: int|
                            0 <= j < subtrees@.len() ==> (#[trigger] subtrees@[j]).height()
                                < self.height(),
                        out@ == seq![self.region] + Self::regions_of(subtrees@.take(k as int)),
                    decreases subtrees@.len() - k,
                {
                    proof {
                        assert(subtrees@.take(k as int + 1).drop_last() =~= subtrees@.take(k as int));
                    }
                    let mut below = subtrees[k].regions();
                    out.append(&mut below);
                    k += 1;
                }
                assert(subtrees@.take(k as int) =~= subtrees@);
            },
        }
        out
    }

    /// The region of this node.
    pub fn region(&self) -> (region: &Region<N>)
        ensures
            *region == self.spec_region(),
    {
        &self.region
    }

    /// The number of values after which a leaf is cut.
    pub fn capacity(&self) -> (capacity: usize)
        ensures
            capacity == self.spec_capacity(),
    {
        self.capacity
    }

    /// The values in this node's own bucket, oldest first.
    pub fn points(&self) -> (points: &Vec<V>)
        ensures
            points@ == self.bucket(),
    {
        &self.points
    }

    /// The children of this node, or nothing for a leaf.
    pub fn subtrees(&self) -> (subtrees: Option<&Vec<QuadTree<N, V>>>)
        ensures
            subtrees is None <==> self.is_leaf(),
            subtrees matches Some(children) ==> children@ == self.children(),
    {
        self.subtrees.as_ref()
    }
}

impl<const N: usize, V: Storable<V, N>> QuadTree<N, V> {
    /// The point of a stored value lies in the query's bounding region.
    pub open spec fn within_bounds_of<Q: Query<N>>(query: Q) -> spec_fn(V) -> bool {
        |value: V| query.bounding().spec_contains(value.spec_point())
    }

    /// The query accepts the point of a stored value, and the point lies
    /// in the query's bounding region.
    pub open spec fn accepted_within<Q: Query<N>>(query: Q) -> spec_fn(V) -> bool {
        |value: V|
            query.accepts(value.spec_point()) && query.bounding().spec_contains(
                value.spec_point(),
            )
    }

    /// A query is bounded when its bounding region holds every point that
    /// it accepts. A region, taken as a query, is bounded.
    pub open spec fn bounded<Q: Query<N>>(query: Q) -> bool {
        forall|point: Point<N>| #[trigger] query.accepts(point) ==> query.bounding().spec_contains(point)
    }

    /// A region, taken as a query, is bounded.
    pub proof fn lemma_region_bounded(region: Region<N>)
        ensures
            Self::bounded(region),
    {
    }

    /// `after` is what a successful `insert` of `value` makes of `before`.
    pub open spec fn inserted(before: Self, value: V, after: Self) -> bool {
        &&& before.wf()
        &&& after.wf()
        &&& before.spec_region().spec_contains(value.spec_point())
        &&& after.spec_region() == before.spec_region()
        &&& after.spec_capacity() == before.spec_capacity()
        &&& after.items().to_multiset() == before.items().to_multiset().insert(value)
    }

    /// `after` is what a run of successful inserts, of `values` in their
    /// order, makes of `before`.
    pub open spec fn inserted_all(before: Self, values: Seq<V>, after: Self) -> bool
        decreases values.len(),
    {
        if values.len() == 0 {
            after == before
        } else {
            exists|middle: Self|
                Self::inserted_all(before, values.drop_last(), middle) && #[trigger] Self::inserted(
                    middle,
                    values.last(),
                    after,
                )
        }
    }

    /// In a well-formed tree the point of every value, at whatever depth
    /// it is stored, lies in the region of the tree.
    pub proof fn lemma_items_within(&self)
        requires
            self.wf(),
        ensures
            forall|j: int|
                0 <= j < self.items().len() ==> self.spec_region().spec_contains(
                    (#[trigger] self.items()[j]).spec_point(),
                ),
        decreases self,
    {
        match self.subtrees {
            None => {
                assert(self.items() == self.bucket());
            },
            Some(subtrees) => {
                assert(subtrees@ == self.children());
                assert(self.items() == self.bucket() + Self::items_of(subtrees@));
                assert forall|i: int, p: Seq<i64>|
                    #![trigger box_contains(subtrees@[i].spec_region()@, p)]
                    0 <= i < subtrees@.len() && box_contains(
                        subtrees@[i].spec_region()@,
                        p,
                    ) implies box_contains(self.region@, p) by {
                    assert(self.children()[i].spec_region()@ == self.region.spec_subdivide()[i]);
                    lemma_box_subdivide_within(self.region@, i, p);
                }
                assert forall|i: int| 0 <= i < subtrees@.len() implies (#[trigger] subtrees@[i]).wf() by {
                    assert(self.children()[i].wf());
                }
                Self::lemma_items_of_within(subtrees@, self.region@);
                assert forall|j: int| 0 <= j < self.items().len() implies self.spec_region().spec_contains(
                    (#[trigger] self.items()[j]).spec_point(),
                ) by {
                    let own = self.bucket().len();
                    if j < own {
                        assert(self.items()[j] == self.bucket()[j]);
                    } else {
                        assert(self.items()[j] == Self::items_of(subtrees@)[j - own]);
                    }
                }
            },
        }
    }

    proof fn lemma_items_of_within(nodes: Seq<QuadTree<N, V>>, outer: Seq<Interval>)
        requires
            forall|i: int| 0 <= i < nodes.len() ==> (#[trigger] nodes[i]).wf(),
            forall|i: int, p: Seq<i64>|
                #![trigger box_contains(nodes[i].spec_region()@, p)]
                0 <= i < nodes.len() && box_contains(nodes[i].spec_region()@, p) ==> box_contains(
                    outer,
                    p,
                ),
        ensures
            forall|j: int|
                0 <= j < Self::items_of(nodes).len() ==> box_contains(
                    outer,
                    (#[trigger] Self::items_of(nodes)[j]).spec_point()@,
                ),
        decreases nodes,
    {
        if nodes.len() > 0 {
            let head = nodes.drop_last();
            let last = nodes.last();
            Self::lemma_items_of_within(head, outer);
            last.lemma_items_within();
            assert forall|j: int| 0 <= j < Self::items_of(nodes).len() implies box_contains(
                outer,
                (#[trigger] Self::items_of(nodes)[j]).spec_point()@,
            ) by {
                let before = Self::items_of(head).len();
                if j >= before {
                    let value = last.items()[j - before];
                    assert(Self::items_of(nodes)[j] == value);
                    assert(last.spec_region().spec_contains(value.spec_point()));
                    assert(box_contains(nodes[nodes.len() - 1].spec_region()@, value.spec_point()@));
                } else {
                    assert(Self::items_of(nodes)[j] == Self::items_of(head)[j]);
                }
            }
        }
    }

    /// Every value that a query finds is one whose point the query accepts.
    pub proof fn lemma_query_accepted<Q: Query<N>>(&self, query: Q)
        ensures
            forall|j: int|
                0 <= j < self.spec_query(query).len() ==> query.accepts(
                    (#[trigger] self.spec_query(query)[j]).spec_point(),
                ),
        decreases self,
    {
        let accepted = Self::accepted_by(query);
        lemma_filter_passed(self.points@, accepted);
        match self.subtrees {
            None => {
                assert forall|j: int| 0 <= j < self.spec_query(query).len() implies query.accepts(
                    (#[trigger] self.spec_query(query)[j]).spec_point(),
                ) by {
                    assert(accepted(self.points@.filter(accepted)[j]));
                }
            },
            Some(subtrees) => {
                Self::lemma_query_of_accepted(subtrees@, query);
                let own = self.points@.filter(accepted);
                assert forall|j: int| 0 <= j < self.spec_query(query).len() implies query.accepts(
                    (#[trigger] self.spec_query(query)[j]).spec_point(),
                ) by {
                    if j < own.len() {
                        assert(accepted(own[j]));
                    } else {
                        assert(self.spec_query(query)[j] == Self::query_of(subtrees@, query)[j
                            - own.len()]);
                    }
                }
            },
        }
    }

    proof fn lemma_query_of_accepted<Q: Query<N>>(nodes: Seq<QuadTree<N, V>>, query: Q)
        ensures
            forall|j: int|
                0 <= j < Self::query_of(nodes, query).len() ==> query.accepts(
                    (#[trigger] Self::query_of(nodes, query)[j]).spec_point(),
                ),
        decreases nodes,
    {
        if nodes.len() > 0 {
            let head = nodes.drop_last();
            let last = nodes.last();
            Self::lemma_query_of_accepted(head, query);
            if last.region.spec_intersects(query.bounding()) {
                last.lemma_query_accepted(query);
                let before = Self::query_of(head, query).len();
                assert forall|j: int|
                    0 <= j < Self::query_of(nodes, query).len() implies query.accepts(
                    (#[trigger] Self::query_of(nodes, query)[j]).spec_point(),
                ) by {
                    if j >= before {
                        assert(Self::query_of(nodes, query)[j] == last.spec_query(query)[j
                            - before]);
                    } else {
                        assert(Self::query_of(nodes, query)[j] == Self::query_of(head, query)[j]);
                    }
                }
            }
        }
    }

    /// Every value that a query finds is stored in the tree, and no stored
    /// value is found more often than it is stored.
    pub proof fn lemma_query_stored<Q: Query<N>>(&self, query: Q)
        ensures
            self.spec_query(query).to_multiset().subset_of(self.items().to_multiset()),
        decreases self,
    {
        broadcast use group_multiset_axioms;

        let accepted = Self::accepted_by(query);
        lemma_filter_to_multiset(self.points@, accepted);
        match self.subtrees {
            None => {},
            Some(subtrees) => {
                Self::lemma_query_of_stored(subtrees@, query);
                lemma_multiset_commutative(
                    self.points@.filter(accepted),
                    Self::query_of(subtrees@, query),
                );
                lemma_multiset_commutative(self.points@, Self::items_of(subtrees@));
            },
        }
    }

    proof fn lemma_query_of_stored<Q: Query<N>>(nodes: Seq<QuadTree<N, V>>, query: Q)
        ensures
            Self::query_of(nodes, query).to_multiset().subset_of(
                Self::items_of(nodes).to_multiset(),
            ),
        decreases nodes,
    {
        broadcast use group_multiset_axioms;

        if nodes.len() > 0 {
            let head = nodes.drop_last();
            let last = nodes.last();
            Self::lemma_query_of_stored(head, query);
            lemma_multiset_commutative(Self::items_of(head), last.items());
            if last.region.spec_intersects(query.bounding()) {
                last.lemma_query_stored(query);
                lemma_multiset_commutative(Self::query_of(head, query), last.spec_query(query));
            }
        }
    }

    /// Every stored value that a query accepts, and whose point lies in the
    /// query's bounding region, is found: among the finds, those within the
    /// bounding region are exactly the stored values that are accepted and
    /// within it, in the order in which the tree stores them.
    pub proof fn lemma_query_within_bounds<Q: Query<N>>(&self, query: Q)
        requires
            self.wf(),
        ensures
            self.spec_query(query).filter(Self::within_bounds_of(query)) == self.items().filter(
                Self::accepted_within(query),
            ),
        decreases self,
    {
        let accepted = Self::accepted_by(query);
        let within = Self::within_bounds_of(query);
        let both = Self::accepted_within(query);
        lemma_filter_twice(self.points@, accepted, within, both);
        match self.subtrees {
            None => {},
            Some(subtrees) => {
                assert(subtrees@ == self.children());
                assert forall|i: int| 0 <= i < subtrees@.len() implies (#[trigger] subtrees@[i]).wf() by {
                    assert(self.children()[i].wf());
                }
                Self::lemma_query_of_within_bounds(subtrees@, query);
                Seq::filter_distributes_over_add(
                    self.points@.filter(accepted),
                    Self::query_of(subtrees@, query),
                    within,
                );
                Seq::filter_distributes_over_add(self.points@, Self::items_of(subtrees@), both);
            },
        }
    }

    proof fn lemma_query_of_within_bounds<Q: Query<N>>(nodes: Seq<QuadTree<N, V>>, query: Q)
        requires
            forall|i: int| 0 <= i < nodes.len() ==> (#[trigger] nodes[i]).wf(),
        ensures
            Self::query_of(nodes, query).filter(Self::within_bounds_of(query)) == Self::items_of(
                nodes,
            ).filter(Self::accepted_within(query)),
        decreases nodes,
    {
        let within = Self::within_bounds_of(query);
        let both = Self::accepted_within(query);
        if nodes.len() == 0 {
            lemma_filter_none(Seq::<V>::empty(), within);
            lemma_filter_none(Seq::<V>::empty(), both);
        } else {
            let head = nodes.drop_last();
            let last = nodes.last();
            Self::lemma_query_of_within_bounds(head, query);
            Seq::filter_distributes_over_add(Self::items_of(head), last.items(), both);
            if last.region.spec_intersects(query.bounding()) {
                last.lemma_query_within_bounds(query);
                Seq::filter_distributes_over_add(
                    Self::query_of(head, query),
                    last.spec_query(query),
                    within,
                );
            } else {
                last.lemma_items_within();
                assert forall|j: int| 0 <= j < last.items().len() implies !both(
                    #[trigger] last.items()[j],
                ) by {
                    let value = last.items()[j];
                    if both(value) {
                        lemma_box_shared_point(
                            last.region@,
                            query.bounding()@,
                            value.spec_point()@,
                        );
                    }
                }
                lemma_filter_none(last.items(), both);
                assert(Self::items_of(head).filter(both) + Seq::<V>::empty() =~= Self::items_of(
                    head,
                ).filter(both));
            }
        }
    }

    /// A bounded query finds exactly the stored values whose point it
    /// accepts, each as often as it is stored, in the order in which the
    /// tree stores them.
    pub proof fn lemma_query_bounded<Q: Query<N>>(&self, query: Q)
        requires
            self.wf(),
            Self::bounded(query),
        ensures
            self.spec_query(query) == self.items().filter(Self::accepted_by(query)),
            self.spec_query(query).to_multiset() == self.items().to_multiset().filter(
                Self::accepted_by(query),
            ),
    {
        let accepted = Self::accepted_by(query);
        let within = Self::within_bounds_of(query);
        let both = Self::accepted_within(query);
        self.lemma_query_within_bounds(query);
        self.lemma_query_accepted(query);
        let found = self.spec_query(query);
        assert forall|j: int| 0 <= j < found.len() implies within(#[trigger] found[j]) by {
            assert(query.accepts(found[j].spec_point()));
        }
        lemma_filter_all(found, within);
        assert forall|j: int| 0 <= j < self.items().len() implies both(#[trigger] self.items()[j])
            == accepted(self.items()[j]) by {
            let point = self.items()[j].spec_point();
            if query.accepts(point) {
                assert(query.bounding().spec_contains(point));
            }
        }
        lemma_filter_same(self.items(), both, accepted);
        lemma_filter_to_multiset(self.items(), accepted);
    }

    /// The query for the tree's own region finds every stored value, each
    /// as often as it is stored.
    pub proof fn lemma_query_own_region(&self)
        requires
            self.wf(),
        ensures
            self.spec_query(self.spec_region()) == self.items(),
    {
        let query = self.spec_region();
        let accepted = Self::accepted_by(query);
        Self::lemma_region_bounded(query);
        self.lemma_query_bounded(query);
        self.lemma_items_within();
        assert forall|j: int| 0 <= j < self.items().len() implies accepted(
            #[trigger] self.items()[j],
        ) by {
            assert(self.spec_region().spec_contains(self.items()[j].spec_point()));
        }
        lemma_filter_all(self.items(), accepted);
    }

    /// A run of successful inserts into an empty tree stores exactly the
    /// inserted values, each as often as it was inserted.
    pub proof fn lemma_inserted_all(empty: Self, values: Seq<V>, tree: Self)
        requires
            empty.wf(),
            empty.items().len() == 0,
            Self::inserted_all(empty, values, tree),
        ensures
            tree.wf(),
            tree.spec_region() == empty.spec_region(),
            tree.spec_capacity() == empty.spec_capacity(),
            tree.items().to_multiset() == values.to_multiset(),
        decreases values.len(),
    {
        broadcast use group_multiset_axioms;

        if values.len() == 0 {
            assert(tree.items() =~= values);
        } else {
            let middle = choose|middle: Self|
                Self::inserted_all(empty, values.drop_last(), middle) && #[trigger] Self::inserted(
                    middle,
                    values.last(),
                    tree,
                );
            Self::lemma_inserted_all(empty, values.drop_last(), middle);
            assert(values.drop_last().push(values.last()) =~= values);
            to_multiset_build(values.drop_last(), values.last());
        }
    }

    /// After a run of successful inserts into an empty tree, the query for
    /// the tree's region returns exactly the inserted values, each as
    /// often as it was inserted, whatever the capacity.
    pub proof fn lemma_round_trip(empty: Self, values: Seq<V>, tree: Self)
        requires
            empty.wf(),
            empty.items().len() == 0,
            Self::inserted_all(empty, values, tree),
        ensures
            tree.spec_query(empty.spec_region()).to_multiset() == values.to_multiset(),
    {
        Self::lemma_inserted_all(empty, values, tree);
        tree.lemma_query_own_region();
    }

    /// Two trees over the same region, filled from empty with the same
    /// values in any two orders, answer a query alike.
    ///
    /// A bounded query finds the same values in both, each equally often.
    /// For any query, the finds within the query's bounding region are the
    /// same in both. The capacities of the two trees may differ.
    pub proof fn lemma_insertion_order<Q: Query<N>>(
        first_empty: Self,
        first_values: Seq<V>,
        first: Self,
        second_empty: Self,
        second_values: Seq<V>,
        second: Self,
        query: Q,
    )
        requires
            first_empty.wf(),
            first_empty.items().len() == 0,
            Self::inserted_all(first_empty, first_values, first),
            second_empty.wf(),
            second_empty.items().len() == 0,
            Self::inserted_all(second_empty, second_values, second),
            first_values.to_multiset() == second_values.to_multiset(),
        ensures
            first.spec_query(query).filter(Self::within_bounds_of(query)).to_multiset()
                == second.spec_query(query).filter(Self::within_bounds_of(query)).to_multiset(),
            Self::bounded(query) ==> first.spec_query(query).to_multiset() == second.spec_query(
                query,
            ).to_multiset(),
    {
        Self::lemma_inserted_all(first_empty, first_values, first);
        Self::lemma_inserted_all(second_empty, second_values, second);
        first.lemma_query_within_bounds(query);
        second.lemma_query_within_bounds(query);
        lemma_filter_to_multiset(first.items(), Self::accepted_within(query));
        lemma_filter_to_multiset(second.items(), Self::accepted_within(query));
        if Self::bounded(query) {
            first.lemma_query_bounded(query);
            second.lemma_query_bounded(query);
        }
    }
}

} // verus!
