//! The consistent-hash ring: which member owns which key.
//!
//! The positions live in a `hashring::HashRing`. Every member asks for as many
//! positions as there are virtual nodes, and for one where there are none; a
//! position whose hash is already taken is left out, so the hashes on the ring
//! are pairwise different and every key has one owner. No two members have the
//! same id: a node that joins takes the place of the member that had its id.

use vstd::prelude::*;
use crate::node::{Node, NodeIdentity, NodeView};
use crate::sequences::{
    lemma_filter_agree, lemma_filter_all, lemma_filter_kept, lemma_filter_twice, lemma_filter_with,
    lemma_filter_without,
};

verus! {

/// One position on the ring: id, host, cluster port, API port, replica number.
pub type Point = (String, String, u32, u32, u64);

/// The mathematical value of a [`Point`].
pub type PointView = (Seq<char>, Seq<char>, u32, u32, u64);

/// `hashring::HashRing`, the collection that keeps the positions. Nothing is
/// known of what is in one but through [`ring_points`].
#[verifier::external_type_specification]
#[verifier::external_body]
#[verifier::reject_recursive_types(T)]
#[verifier::reject_recursive_types(S)]
pub struct ExHashRing<T, S>(hashring::HashRing<T, S>);

/// `hashring::DefaultHashBuilder`, the hasher that a `HashRing` is made with:
/// SipHash with the zero key.
#[verifier::external_type_specification]
#[verifier::external_body]
pub struct ExDefaultHashBuilder(hashring::DefaultHashBuilder);

/// The positions that a `hashring::HashRing` holds, in the order in which it
/// keeps them.
pub uninterp spec fn ring_points(ring: hashring::HashRing<Point>) -> Seq<PointView>;

/// The hash under which `hashring` files a position: SipHash with the zero key
/// over the two strings and the three numbers.
pub uninterp spec fn point_hash(point: PointView) -> u64;

/// The hash under which `hashring` looks a key up: SipHash with the zero key
/// over the key's text.
pub uninterp spec fn key_hash(key: Seq<char>) -> u64;

/// The hashes never decrease along the sequence.
pub open spec fn ordered(points: Seq<PointView>) -> bool {
    forall|i: int, j: int|
        0 <= i < j < points.len() ==> point_hash(#[trigger] points[i]) <= point_hash(
            #[trigger] points[j],
        )
}

/// The hashes grow strictly along the sequence: no two positions share one.
pub open spec fn strictly_ordered(points: Seq<PointView>) -> bool {
    forall|i: int, j: int|
        0 <= i < j < points.len() ==> point_hash(#[trigger] points[i]) < point_hash(
            #[trigger] points[j],
        )
}

/// `after` is `before` with `point` put behind every position whose hash is not
/// greater than its own.
pub open spec fn filed(before: Seq<PointView>, point: PointView, after: Seq<PointView>) -> bool {
    exists|at: int|
        0 <= at <= before.len() && #[trigger] before.insert(at, point) == after && (forall|j: int|
            0 <= j < at ==> point_hash(#[trigger] before[j]) <= point_hash(point)) && (forall|
            j: int,
        |
            at <= j < before.len() ==> point_hash(#[trigger] before[j]) > point_hash(point))
}

/// `after` is `before` without one position whose hash is that of `point`, and
/// `taken` is that position.
pub open spec fn unfiled(
    before: Seq<PointView>,
    point: PointView,
    taken: PointView,
    after: Seq<PointView>,
) -> bool {
    exists|at: int|
        0 <= at < before.len() && #[trigger] before.remove(at) == after && before[at] == taken
            && point_hash(taken) == point_hash(point)
}

/// `found` is what a lookup of hash `hash` lands on: a position with that very
/// hash, or else the first position with a greater one, or else the first of all.
pub open spec fn landed(points: Seq<PointView>, hash: u64, found: PointView) -> bool {
    exists|at: int|
        0 <= at < points.len() && #[trigger] points[at] == found && (point_hash(found) == hash || (
        forall|j: int| 0 <= j < at ==> point_hash(#[trigger] points[j]) < hash) && point_hash(found)
            > hash || at == 0 && (forall|j: int|
            0 <= j < points.len() ==> point_hash(#[trigger] points[j]) < hash))
}

/// `HashRing::new`: a ring without positions.
#[verifier::external_body]
fn ring_new() -> (ring: hashring::HashRing<Point>)
    ensures
        ring_points(ring).len() == 0,
{
    hashring::HashRing::new()
}

/// `HashRing::add`: hashes the position, appends it and sorts by hash with a
/// stable sort, so that it comes to stand behind the positions of equal hash.
#[verifier::external_body]
fn ring_add(ring: &mut hashring::HashRing<Point>, point: Point)
    requires
        ordered(ring_points(*old(ring))),
    ensures
        filed(ring_points(*old(ring)), point@, ring_points(*final(ring))),
{
    ring.add(point)
}

/// `HashRing::remove`: a binary search for the position's hash; where one is
/// found it leaves the ring and is handed out, else the ring stays as it is.
#[verifier::external_body]
fn ring_remove(ring: &mut hashring::HashRing<Point>, point: &Point) -> (taken: Option<Point>)
    requires
        ordered(ring_points(*old(ring))),
    ensures
        match taken {
            Some(t) => unfiled(
                ring_points(*old(ring)),
                point@,
                t@,
                ring_points(*final(ring)),
            ),
            None => ring_points(*final(ring)) == ring_points(*old(ring)) && forall|j: int|
                0 <= j < ring_points(*old(ring)).len() ==> point_hash(
                    #[trigger] ring_points(*old(ring))[j],
                ) != point_hash(point@),
        },
{
    ring.remove(point)
}

/// `HashRing::get`: nothing on an empty ring; else a binary search for the
/// key's hash, which lands on a position of that hash or on the next greater
/// one, and on the first position when there is none.
#[verifier::external_body]
fn ring_get(ring: &hashring::HashRing<Point>, key: &str) -> (found: Option<Point>)
    requires
        ordered(ring_points(*ring)),
    ensures
        match found {
            Some(p) => landed(ring_points(*ring), key_hash(key@), p@),
            None => ring_points(*ring).len() == 0,
        },
{
    ring.get(&key).cloned()
}

/// The position that replica `replica` of the member `identity` takes.
pub open spec fn point_of(identity: NodeIdentity, replica: u64) -> PointView {
    (identity.0, identity.1, identity.2 as u32, identity.3 as u32, replica)
}

/// Whether a position is one of the member `identity`.
pub open spec fn belongs_to(point: PointView, identity: NodeIdentity) -> bool {
    point.0 == identity.0 && point.1 == identity.1 && point.2 == identity.2 && point.3
        == identity.3
}

/// The index of the first position from `from` on whose hash is at least `hash`,
/// or the length of the sequence where there is none.
pub open spec fn first_from(points: Seq<PointView>, hash: u64, from: int) -> int
    decreases points.len() - from,
{
    if from >= points.len() {
        points.len() as int
    } else if point_hash(points[from]) >= hash {
        from
    } else {
        first_from(points, hash, from + 1)
    }
}

/// The index of the first position whose hash is at least `hash`, or the length
/// of the sequence where every hash is smaller.
pub open spec fn successor(points: Seq<PointView>, hash: u64) -> int {
    first_from(points, hash, 0)
}

/// The position that owns `key`: the nearest one clockwise from the key's hash,
/// which is the first of all where the key's hash is beyond the last.
pub open spec fn owner_point(points: Seq<PointView>, key: Seq<char>) -> Option<PointView> {
    if points.len() == 0 {
        None
    } else {
        let at = successor(points, key_hash(key));
        Some(
            points[if at == points.len() {
                0
            } else {
                at
            }],
        )
    }
}

/// Whether some position has the hash `hash`.
pub open spec fn taken(points: Seq<PointView>, hash: u64) -> bool {
    exists|j: int| 0 <= j < points.len() && point_hash(#[trigger] points[j]) == hash
}

/// The ring after one position has asked for a place: it gets the place that its
/// hash assigns, unless that hash is taken, in which case the ring stays.
pub open spec fn place(points: Seq<PointView>, point: PointView) -> Seq<PointView> {
    if taken(points, point_hash(point)) {
        points
    } else {
        points.insert(successor(points, point_hash(point)), point)
    }
}

/// The ring after the replicas `0 .. count` of a member have asked for a place,
/// one after the other.
pub open spec fn place_replicas(points: Seq<PointView>, identity: NodeIdentity, count: nat) -> Seq<
    PointView,
>
    decreases count,
{
    if count == 0 {
        points
    } else {
        place(
            place_replicas(points, identity, (count - 1) as nat),
            point_of(identity, (count - 1) as u64),
        )
    }
}

/// `first_from` stops at the first index whose hash is large enough.
pub proof fn lemma_first_from(points: Seq<PointView>, hash: u64, from: int, at: int)
    requires
        0 <= from <= at <= points.len(),
        forall|j: int| from <= j < at ==> point_hash(#[trigger] points[j]) < hash,
        at == points.len() || point_hash(points[at]) >= hash,
    ensures
        first_from(points, hash, from) == at,
    decreases at - from,
{
    if from < at {
        lemma_first_from(points, hash, from + 1, at);
    }
}

/// The successor is the one index that parts the smaller hashes from the rest.
pub proof fn lemma_successor(points: Seq<PointView>, hash: u64, at: int)
    requires
        0 <= at <= points.len(),
        forall|j: int| 0 <= j < at ==> point_hash(#[trigger] points[j]) < hash,
        at == points.len() || point_hash(points[at]) >= hash,
    ensures
        successor(points, hash) == at,
{
    lemma_first_from(points, hash, 0, at);
}

/// Where `first_from` stops: within the sequence, behind smaller hashes only.
pub proof fn lemma_first_from_bounds(points: Seq<PointView>, hash: u64, from: int)
    requires
        0 <= from <= points.len(),
    ensures
        from <= first_from(points, hash, from) <= points.len(),
        forall|j: int|
            from <= j < first_from(points, hash, from) ==> point_hash(#[trigger] points[j]) < hash,
        first_from(points, hash, from) < points.len() ==> point_hash(
            points[first_from(points, hash, from)],
        ) >= hash,
    decreases points.len() - from,
{
    if from < points.len() && point_hash(points[from]) < hash {
        lemma_first_from_bounds(points, hash, from + 1);
    }
}

/// A position filed into a ring of pairwise different hashes, none of them its
/// own, stands at the successor of its hash and leaves the hashes different.
pub proof fn lemma_filed_fresh(before: Seq<PointView>, point: PointView, after: Seq<PointView>)
    requires
        strictly_ordered(before),
        !taken(before, point_hash(point)),
        filed(before, point, after),
    ensures
        after == place(before, point),
        strictly_ordered(after),
{
    let at = choose|at: int|
        0 <= at <= before.len() && #[trigger] before.insert(at, point) == after && (forall|j: int|
            0 <= j < at ==> point_hash(#[trigger] before[j]) <= point_hash(point)) && (forall|
            j: int,
        |
            at <= j < before.len() ==> point_hash(#[trigger] before[j]) > point_hash(point));
    assert forall|j: int| 0 <= j < at implies point_hash(#[trigger] before[j]) < point_hash(
        point,
    ) by {
        assert(point_hash(before[j]) != point_hash(point));
    }
    lemma_successor(before, point_hash(point), at);
    assert forall|i: int, j: int| 0 <= i < j < after.len() implies point_hash(
        #[trigger] after[i],
    ) < point_hash(#[trigger] after[j]) by {
        let a = if i < at {
            before[i]
        } else if i == at {
            point
        } else {
            before[i - 1]
        };
        let b = if j < at {
            before[j]
        } else if j == at {
            point
        } else {
            before[j - 1]
        };
        assert(after[i] == a);
        assert(after[j] == b);
    }
}

/// A position taken out of a ring of pairwise different hashes and filed again
/// comes back to its old place.
pub proof fn lemma_filed_again(
    ring: Seq<PointView>,
    point: PointView,
    taken_out: PointView,
    without: Seq<PointView>,
    after: Seq<PointView>,
)
    requires
        strictly_ordered(ring),
        unfiled(ring, point, taken_out, without),
        filed(without, taken_out, after),
    ensures
        after == ring,
        taken(ring, point_hash(point)),
        strictly_ordered(without),
{
    let n = choose|n: int|
        0 <= n < ring.len() && #[trigger] ring.remove(n) == without && ring[n] == taken_out
            && point_hash(taken_out) == point_hash(point);
    let at = choose|at: int|
        0 <= at <= without.len() && #[trigger] without.insert(at, taken_out) == after && (forall|
            j: int,
        |
            0 <= j < at ==> point_hash(#[trigger] without[j]) <= point_hash(taken_out)) && (forall|
            j: int,
        |
            at <= j < without.len() ==> point_hash(#[trigger] without[j]) > point_hash(taken_out));
    assert(taken(ring, point_hash(point))) by {
        assert(point_hash(ring[n]) == point_hash(point));
    }
    assert forall|i: int, j: int| 0 <= i < j < without.len() implies point_hash(
        #[trigger] without[i],
    ) < point_hash(#[trigger] without[j]) by {
        assert(without[i] == ring[if i < n {
            i
        } else {
            i + 1
        }]);
        assert(without[j] == ring[if j < n {
            j
        } else {
            j + 1
        }]);
    }
    if at < n {
        assert(without[at] == ring[at]);
        assert(point_hash(ring[at]) < point_hash(ring[n]));
    }
    if at > n {
        assert(without[n] == ring[n + 1]);
        assert(point_hash(ring[n]) < point_hash(ring[n + 1]));
    }
    assert(at == n);
    assert(ring.remove(n).insert(n, ring[n]) =~= ring);
}

/// How many positions a member asks for: as many as the configured number of
/// virtual nodes, and one where that number is zero, so that no member is
/// without a place on the ring.
pub open spec fn positions_per_member(virtual_nodes: usize) -> nat {
    if virtual_nodes == 0 {
        1
    } else {
        virtual_nodes as nat
    }
}

/// The member that a position belongs to.
pub open spec fn identity_of(point: PointView) -> NodeIdentity {
    (point.0, point.1, point.2 as u16, point.3 as u16)
}

/// The mathematical value of a [`NodeRing`].
#[verifier::ext_equal]
pub struct RingView {
    /// The positions, in the order of their hashes.
    pub points: Seq<PointView>,
    /// The members, in the order in which they joined.
    pub members: Seq<NodeView>,
    /// How many positions a member asks for: at least one.
    pub replicas: nat,
}

impl RingView {
    /// Whether `identity` is a member.
    pub open spec fn has_member(self, identity: NodeIdentity) -> bool {
        exists|i: int|
            0 <= i < self.members.len() && (#[trigger] self.members[i]).identity() == identity
    }

    /// Whether some member listens on `host` and `port`.
    pub open spec fn at_address(self, host: Seq<char>, port: u16) -> bool {
        exists|i: int|
            0 <= i < self.members.len() && (#[trigger] self.members[i]).host == host
                && self.members[i].port == port
    }

    /// Whether `node` is the first member that listens on `host` and `port`.
    pub open spec fn is_first_at(self, node: NodeView, host: Seq<char>, port: u16) -> bool {
        exists|i: int|
            0 <= i < self.members.len() && #[trigger] self.members[i] == node && node.host == host
                && node.port == port && forall|j: int|
                0 <= j < i ==> !((#[trigger] self.members[j]).host == host && self.members[j].port
                    == port)
    }

    /// Whether some member has the id `id`.
    pub open spec fn has_id(self, id: Seq<char>) -> bool {
        exists|i: int| 0 <= i < self.members.len() && (#[trigger] self.members[i]).id == id
    }

    /// Where in the list of members the one with the id `id` stands.
    pub open spec fn index_of_id(self, id: Seq<char>) -> int {
        choose|i: int| 0 <= i < self.members.len() && (#[trigger] self.members[i]).id == id
    }

    /// The ring after the member with the id `id` has left, if there is one.
    pub open spec fn without_id(self, id: Seq<char>) -> RingView {
        if self.has_id(id) {
            self.without_node(self.members[self.index_of_id(id)].identity())
        } else {
            self
        }
    }

    /// Where in the list of members `identity` stands.
    pub open spec fn index_of(self, identity: NodeIdentity) -> int {
        choose|i: int|
            0 <= i < self.members.len() && (#[trigger] self.members[i]).identity() == identity
    }

    /// The ring is in order: the hashes of its positions grow strictly, no
    /// two members have the same id, and every position is a replica of a
    /// member. The members are the registry: it maps an id to one node.
    pub open spec fn wf(self) -> bool {
        &&& strictly_ordered(self.points)
        &&& 1 <= self.replicas <= u64::MAX
        &&& forall|i: int, j: int|
            0 <= i < j < self.members.len() ==> (#[trigger] self.members[i]).id != (
            #[trigger] self.members[j]).id
        &&& forall|i: int, j: int|
            0 <= i < j < self.members.len() ==> (#[trigger] self.members[i]).identity() != (
            #[trigger] self.members[j]).identity()
        &&& forall|i: int|
            0 <= i < self.points.len() ==> self.has_member(identity_of(#[trigger] self.points[i]))
                && belongs_to(self.points[i], identity_of(self.points[i])) && self.points[i].4
                < self.replicas
    }

    /// The member that owns `key`, if the ring has a position at all.
    pub open spec fn owner(self, key: Seq<char>) -> Option<NodeView> {
        match owner_point(self.points, key) {
            Some(point) => Some(self.members[self.index_of(identity_of(point))]),
            None => None,
        }
    }

    /// The ring after `node` has joined: a member stays as it was; a newcomer
    /// is listed and its replicas take their places, after the member that
    /// had its id, if there was one, has left.
    pub open spec fn with_node(self, node: NodeView) -> RingView {
        if self.has_member(node.identity()) {
            self
        } else {
            let base = self.without_id(node.id);
            RingView {
                points: place_replicas(base.points, node.identity(), self.replicas),
                members: base.members.push(node),
                replicas: self.replicas,
            }
        }
    }

    /// The ring after the member `identity` has left: its positions are gone
    /// and all others stand as they stood.
    pub open spec fn without_node(self, identity: NodeIdentity) -> RingView {
        if self.has_member(identity) {
            RingView {
                points: self.points.filter(|p: PointView| !belongs_to(p, identity)),
                members: self.members.remove(self.index_of(identity)),
                replicas: self.replicas,
            }
        } else {
            self
        }
    }
}

/// What a lookup lands on in a ring of pairwise different hashes is the owner.
pub proof fn lemma_landed_owner(points: Seq<PointView>, key: Seq<char>, found: PointView)
    requires
        strictly_ordered(points),
        landed(points, key_hash(key), found),
    ensures
        owner_point(points, key) == Some(found),
{
    let hash = key_hash(key);
    let at = choose|at: int|
        0 <= at < points.len() && #[trigger] points[at] == found && (point_hash(found) == hash || (
        forall|j: int| 0 <= j < at ==> point_hash(#[trigger] points[j]) < hash) && point_hash(found)
            > hash || at == 0 && (forall|j: int|
            0 <= j < points.len() ==> point_hash(#[trigger] points[j]) < hash));
    if point_hash(found) == hash {
        assert forall|j: int| 0 <= j < at implies point_hash(#[trigger] points[j]) < hash by {
            assert(point_hash(points[j]) < point_hash(points[at]));
        }
        lemma_successor(points, hash, at);
    } else if (forall|j: int| 0 <= j < at ==> point_hash(#[trigger] points[j]) < hash)
        && point_hash(found) > hash {
        lemma_successor(points, hash, at);
    } else {
        lemma_successor(points, hash, points.len() as int);
    }
}

/// Every position of `place(points, point)` is `point` or one of `points`, and
/// every one of `points` is still there.
pub proof fn lemma_place_holds(points: Seq<PointView>, point: PointView)
    ensures
        forall|j: int|
            0 <= j < place(points, point).len() ==> (#[trigger] place(points, point)[j]) == point
                || points.contains(place(points, point)[j]),
        forall|j: int| 0 <= j < points.len() ==> place(points, point).contains(#[trigger] points[j]),
{
    let after = place(points, point);
    if !taken(points, point_hash(point)) {
        let at = successor(points, point_hash(point));
        lemma_first_from_bounds(points, point_hash(point), 0);
        assert forall|j: int| 0 <= j < after.len() implies (#[trigger] after[j]) == point
            || points.contains(after[j]) by {
            if j < at {
                assert(after[j] == points[j]);
            } else if j > at {
                assert(after[j] == points[j - 1]);
            }
        }
        assert forall|j: int| 0 <= j < points.len() implies after.contains(
            #[trigger] points[j],
        ) by {
            if j < at {
                assert(after[j] == points[j]);
            } else {
                assert(after[j + 1] == points[j]);
            }
        }
    }
}

/// A consistent-hash ring over the members of a cluster.
pub struct NodeRing {
    points: hashring::HashRing<Point>,
    members: Vec<Node>,
    replicas: u64,
}

impl View for NodeRing {
    type V = RingView;

    closed spec fn view(&self) -> RingView {
        RingView {
            points: ring_points(self.points),
            members: self.members@.map_values(|n: Node| n@),
            replicas: self.replicas as nat,
        }
    }
}

/// Whether two positions are the same.
fn same_point(a: &Point, b: &Point) -> (same: bool)
    ensures
        same == (a@ == b@),
{
    a.0 == b.0 && a.1 == b.1 && a.2 == b.2 && a.3 == b.3 && a.4 == b.4
}

/// Asks for a place for one position.
fn place_point(ring: &mut hashring::HashRing<Point>, point: Point)
    requires
        strictly_ordered(ring_points(*old(ring))),
    ensures
        ring_points(*final(ring)) == place(ring_points(*old(ring)), point@),
        strictly_ordered(ring_points(*final(ring))),
{
    let ghost before = ring_points(*ring);
    match ring_remove(ring, &point) {
        Some(holder) => {
            let ghost without = ring_points(*ring);
            ring_add(ring, holder);
            proof {
                lemma_filed_again(before, point@, holder@, without, ring_points(*ring));
            }
        },
        None => {
            ring_add(ring, point);
            proof {
                lemma_filed_fresh(before, point@, ring_points(*ring));
            }
        },
    }
}

/// Takes one position off the ring, if it is there.
fn drop_point(ring: &mut hashring::HashRing<Point>, point: &Point)
    requires
        strictly_ordered(ring_points(*old(ring))),
    ensures
        ring_points(*final(ring)) == ring_points(*old(ring)).filter(|q: PointView| q != point@),
        strictly_ordered(ring_points(*final(ring))),
{
    let ghost before = ring_points(*ring);
    let ghost others = |q: PointView| q != point@;
    match ring_remove(ring, point) {
        Some(holder) => {
            let ghost without = ring_points(*ring);
            let ghost n = choose|n: int|
                0 <= n < before.len() && #[trigger] before.remove(n) == without && before[n]
                    == holder@ && point_hash(holder@) == point_hash(point@);
            if same_point(&holder, point) {
                proof {
                    assert forall|i: int, j: int| 0 <= i < j < without.len() implies point_hash(
                        #[trigger] without[i],
                    ) < point_hash(#[trigger] without[j]) by {
                        assert(without[i] == before[if i < n {
                            i
                        } else {
                            i + 1
                        }]);
                        assert(without[j] == before[if j < n {
                            j
                        } else {
                            j + 1
                        }]);
                    }
                    assert forall|i: int| 0 <= i < without.len() implies others(
                        #[trigger] without[i],
                    ) by {
                        let k = if i < n {
                            i
                        } else {
                            i + 1
                        };
                        assert(without[i] == before[k]);
                        if k < n {
                            assert(point_hash(before[k]) < point_hash(before[n]));
                        } else {
                            assert(point_hash(before[n]) < point_hash(before[k]));
                        }
                    }
                    lemma_filter_all(without, others);
                    lemma_filter_without(before, n, others);
                }
            } else {
                ring_add(ring, holder);
                proof {
                    lemma_filed_again(before, point@, holder@, without, ring_points(*ring));
                    assert forall|i: int| 0 <= i < before.len() implies others(
                        #[trigger] before[i],
                    ) by {
                        if i < n {
                            assert(point_hash(before[i]) < point_hash(before[n]));
                        } else if i > n {
                            assert(point_hash(before[n]) < point_hash(before[i]));
                        }
                    }
                    lemma_filter_all(before, others);
                }
            }
        },
        None => {
            proof {
                lemma_filter_all(before, others);
            }
        },
    }
}

impl NodeRing {
    /// The ring is in order; see [`RingView::wf`].
    pub open spec fn wf(&self) -> bool {
        self@.wf()
    }

    /// An empty ring on which every member will ask for `virtual_nodes`
    /// positions, and for one where `virtual_nodes` is zero.
    pub fn new(virtual_nodes: usize) -> (ring: NodeRing)
        ensures
            ring.wf(),
            ring@.points.len() == 0,
            ring@.members.len() == 0,
            ring@.replicas == positions_per_member(virtual_nodes),
    {
        let replicas: u64 = if virtual_nodes == 0 {
            1
        } else {
            virtual_nodes as u64
        };
        NodeRing { points: ring_new(), members: Vec::new(), replicas }
    }

    /// How many positions a member asks for: the number of virtual nodes
    /// that the ring was made with, or one where that was zero.
    pub fn virtual_nodes(&self) -> (count: u64)
        ensures
            count == self@.replicas,
    {
        self.replicas
    }

    /// Where the member with this identity stands in the list of members.
    fn find(&self, id: &String, host: &String, port: u16, api_port: u16) -> (at: Option<usize>)
        ensures
            match at {
                Some(i) => i < self@.members.len() && self@.members[i as int].identity() == (
                    id@,
                    host@,
                    port,
                    api_port,
                ),
                None => !self@.has_member((id@, host@, port, api_port)),
            },
    {
        let mut i: usize = 0;
        while i < self.members.len()
            invariant
                i <= self.members.len(),
                forall|j: int|
                    0 <= j < i ==> (#[trigger] self@.members[j]).identity() != (
                        id@,
                        host@,
                        port,
                        api_port,
                    ),
            decreases self.members.len() - i,
        {
            let member = &self.members[i];
            if member.id == *id && member.host == *host && member.port == port && member.api_port
                == api_port {
                assert(self@.members[i as int].identity() =~= (id@, host@, port, api_port));
                return Some(i);
            }
            assert(self@.members[i as int].identity() != (id@, host@, port, api_port));
            i += 1;
        }
        None
    }

    /// Where the member with this id stands in the list of members.
    fn find_id(&self, id: &String) -> (at: Option<usize>)
        ensures
            match at {
                Some(i) => i < self@.members.len() && self@.members[i as int].id == id@,
                None => !self@.has_id(id@),
            },
    {
        let mut i: usize = 0;
        while i < self.members.len()
            invariant
                i <= self.members.len(),
                forall|j: int| 0 <= j < i ==> (#[trigger] self@.members[j]).id != id@,
            decreases self.members.len() - i,
        {
            if self.members[i].id == *id {
                assert(self@.members[i as int].id == id@);
                return Some(i);
            }
            i += 1;
        }
        None
    }

    /// Whether `node` is a member.
    pub fn contains(&self, node: &Node) -> (member: bool)
        ensures
            member == self@.has_member(node.identity()),
    {
        self.find(&node.id, &node.host, node.port, node.api_port).is_some()
    }

    /// How many members the ring has.
    pub fn len(&self) -> (count: usize)
        ensures
            count == self@.members.len(),
    {
        self.members.len()
    }

    /// The members, in the order in which they joined.
    pub fn nodes(&self) -> (members: Vec<Node>)
        ensures
            members@.map_values(|n: Node| n@) == self@.members,
    {
        let mut members: Vec<Node> = Vec::new();
        let mut i: usize = 0;
        while i < self.members.len()
            invariant
                i <= self.members.len(),
                members@.len() == i,
                forall|j: int| 0 <= j < i ==> (#[trigger] members@[j])@ == self.members@[j]@,
            decreases self.members.len() - i,
        {
            members.push(self.members[i].duplicate());
            i += 1;
        }
        assert(members@.map_values(|n: Node| n@) =~= self@.members);
        members
    }

    /// The first member that listens on `host` and `port`, if there is one.
    pub fn find_by_address(&self, host: &str, port: u16) -> (found: Option<Node>)
        ensures
            match found {
                Some(node) => self@.at_address(host@, port) && self@.is_first_at(
                    node@,
                    host@,
                    port,
                ),
                None => !self@.at_address(host@, port),
            },
    {
        let wanted = host.to_owned();
        let mut i: usize = 0;
        while i < self.members.len()
            invariant
                wanted@ == host@,
                i <= self.members.len(),
                forall|j: int|
                    0 <= j < i ==> !((#[trigger] self@.members[j]).host == host@
                        && self@.members[j].port == port),
            decreases self.members.len() - i,
        {
            let member = &self.members[i];
            if member.host == wanted && member.port == port {
                let found = member.duplicate();
                assert(self@.members[i as int] == found@);
                assert(self@.members[i as int].host == host@ && self@.members[i as int].port == port);
                return Some(found);
            }
            i += 1;
        }
        None
    }

    /// Lets `node` join: a member stays as it was; a newcomer is listed, after
    /// the member that had its id has left, and each of its replicas takes the
    /// place that its hash assigns, unless another position holds that hash
    /// already.
    pub fn add(&mut self, node: Node)
        requires
            old(self).wf(),
        ensures
            final(self).wf(),
            final(self)@ == old(self)@.with_node(node@),
            final(self)@.has_member(node.identity()),
    {
        if self.find(&node.id, &node.host, node.port, node.api_port).is_some() {
            return ;
        }
        let ghost identity = node.identity();
        match self.find_id(&node.id) {
            Some(i) => {
                let holder = self.members[i].duplicate();
                proof {
                    let chosen = self@.index_of_id(node@.id);
                    assert(self@.members[i as int].id == node@.id);
                    assert(chosen == i);
                    assert(self@.members[i as int].identity() == holder.identity());
                    assert(self@.has_member(holder.identity()));
                }
                let ghost listed = self@;
                let ghost gone_at = listed.index_of(holder.identity());
                self.remove(&holder);
                proof {
                    assert(listed.members[gone_at].identity() == holder.identity());
                    assert(gone_at == i);
                    assert forall|j: int| 0 <= j < self@.members.len() implies (
                    #[trigger] self@.members[j]).id != node@.id by {
                        let back = if j < i {
                            j
                        } else {
                            j + 1
                        };
                        assert(self@.members[j] == listed.members[back]);
                        assert(listed.members[back].id != listed.members[i as int].id);
                    }
                }
            },
            None => {},
        }
        let ghost before = self@;
        proof {
            assert(before == old(self)@.without_id(node@.id));
            assert(!before.has_id(node@.id));
            if before.has_member(identity) {
                let m = choose|m: int|
                    0 <= m < before.members.len() && (#[trigger] before.members[m]).identity()
                        == identity;
                assert(before.members[m].id == node@.id);
            }
        }
        let mut replica: u64 = 0;
        while replica < self.replicas
            invariant
                replica <= self.replicas,
                before.wf(),
                !before.has_id(node@.id),
                !before.has_member(identity),
                identity == node.identity(),
                self.replicas == before.replicas,
                self@.members == before.members,
                strictly_ordered(self@.points),
                self@.points == place_replicas(before.points, identity, replica as nat),
                forall|j: int|
                    0 <= j < self@.points.len() ==> (before.has_member(
                        identity_of(#[trigger] self@.points[j]),
                    ) || identity_of(self@.points[j]) == identity) && belongs_to(
                        self@.points[j],
                        identity_of(self@.points[j]),
                    ) && self@.points[j].4 < before.replicas,
            decreases self.replicas - replica,
        {
            let ghost current = self@.points;
            let point: Point = (
                node.id.clone(),
                node.host.clone(),
                node.port as u32,
                node.api_port as u32,
                replica,
            );
            assert(point@ == point_of(identity, replica));
            assert(identity_of(point@) =~= identity);
            place_point(&mut self.points, point);
            proof {
                lemma_place_holds(current, point_of(identity, replica));
                assert forall|j: int| 0 <= j < self@.points.len() implies (before.has_member(
                    identity_of(#[trigger] self@.points[j]),
                ) || identity_of(self@.points[j]) == identity) && belongs_to(
                    self@.points[j],
                    identity_of(self@.points[j]),
                ) && self@.points[j].4 < before.replicas by {
                    let q = self@.points[j];
                    if q != point_of(identity, replica) {
                        let k = choose|k: int| 0 <= k < current.len() && current[k] == q;
                        assert(current[k] == q);
                    }
                }
            }
            replica += 1;
        }
        let ghost joined = node@;
        self.members.push(node);
        proof {
            assert(self@.members =~= before.members.push(joined));
            assert(self@.members[before.members.len() as int].identity() == identity);
            assert forall|i: int| 0 <= i < self@.points.len() implies self@.has_member(
                identity_of(#[trigger] self@.points[i]),
            ) by {
                let q = self@.points[i];
                if before.has_member(identity_of(q)) {
                    let m = choose|m: int|
                        0 <= m < before.members.len() && (#[trigger] before.members[m]).identity()
                            == identity_of(q);
                    assert(self@.members[m].identity() == identity_of(q));
                } else {
                    assert(self@.members[before.members.len() as int].identity() == identity_of(q));
                }
            }
        }
    }

    /// Lets the member with the identity of `node` leave: its positions go,
    /// every other position stays where it is. Says whether it was a member.
    pub fn remove(&mut self, node: &Node) -> (removed: bool)
        requires
            old(self).wf(),
        ensures
            final(self).wf(),
            final(self)@ == old(self)@.without_node(node.identity()),
            removed == old(self)@.has_member(node.identity()),
            !final(self)@.has_member(node.identity()),
            forall|i: int|
                0 <= i < final(self)@.points.len() ==> !belongs_to(
                    #[trigger] final(self)@.points[i],
                    node.identity(),
                ),
    {
        let at = match self.find(&node.id, &node.host, node.port, node.api_port) {
            Some(at) => at,
            None => {
                return false;
            },
        };
        let ghost before = self@;
        let ghost identity = node.identity();
        let mut replica: u64 = 0;
        proof {
            lemma_filter_all(
                before.points,
                |q: PointView| !(belongs_to(q, identity) && q.4 < replica),
            );
        }
        while replica < self.replicas
            invariant
                replica <= self.replicas,
                before.wf(),
                identity == node.identity(),
                self.replicas == before.replicas,
                self@.members == before.members,
                strictly_ordered(self@.points),
                self@.points == before.points.filter(
                    |q: PointView| !(belongs_to(q, identity) && q.4 < replica),
                ),
            decreases self.replicas - replica,
        {
            let point: Point = (
                node.id.clone(),
                node.host.clone(),
                node.port as u32,
                node.api_port as u32,
                replica,
            );
            assert(point@ == point_of(identity, replica));
            drop_point(&mut self.points, &point);
            proof {
                let so_far = |q: PointView| !(belongs_to(q, identity) && q.4 < replica);
                let others = |q: PointView| q != point@;
                let next = |q: PointView| !(belongs_to(q, identity) && q.4 < replica + 1);
                assert forall|q: PointView| #[trigger] next(q) == (so_far(q) && others(q)) by {
                    if belongs_to(q, identity) && q.4 == replica {
                        assert(q =~= point_of(identity, replica));
                    }
                }
                lemma_filter_twice(before.points, so_far, others, next);
            }
            replica += 1;
        }
        self.members.remove(at);
        proof {
            let all = |q: PointView| !(belongs_to(q, identity) && q.4 < before.replicas);
            let gone = |q: PointView| !belongs_to(q, identity);
            lemma_filter_agree(before.points, all, gone);
            assert(self@.points == before.points.filter(gone));
            assert(before.members[at as int].identity() == identity);
            assert(before.index_of(identity) == at);
            assert(self@.members =~= before.members.remove(at as int));
            lemma_filter_kept(before.points, gone);
            assert forall|j: int| 0 <= j < self@.members.len() implies (
            #[trigger] self@.members[j]).identity() != identity by {
                let back = if j < at {
                    j
                } else {
                    j + 1
                };
                assert(self@.members[j] == before.members[back]);
                assert(before.members[back].identity() != before.members[at as int].identity());
            }
            assert forall|i: int| 0 <= i < self@.points.len() implies self@.has_member(
                identity_of(#[trigger] self@.points[i]),
            ) && belongs_to(self@.points[i], identity_of(self@.points[i])) && self@.points[i].4
                < self@.replicas by {
                let q = self@.points[i];
                let k = choose|k: int| 0 <= k < before.points.len() && before.points[k] == q;
                assert(before.points[k] == q);
                let m = choose|m: int|
                    0 <= m < before.members.len() && (#[trigger] before.members[m]).identity()
                        == identity_of(q);
                assert(m != at);
                let shifted = if m < at {
                    m
                } else {
                    m - 1
                };
                assert(self@.members[shifted].identity() == identity_of(q));
            }
        }
        true
    }

    /// The member that owns `key`: the one whose position is the nearest
    /// clockwise from the key's hash. An empty ring has no owner.
    pub fn get(&self, key: &str) -> (owner: Option<Node>)
        requires
            self.wf(),
        ensures
            match owner {
                Some(node) => self@.owner(key@) == Some(node@),
                None => self@.owner(key@).is_none(),
            },
    {
        match ring_get(&self.points, key) {
            Some(point) => {
                proof {
                    lemma_landed_owner(self@.points, key@, point@);
                    let at = choose|at: int|
                        0 <= at < self@.points.len() && self@.points[at] == point@;
                    assert(self@.points[at] == point@);
                    assert(identity_of(point@) == (point.0@, point.1@, point.2 as u16, point.3 as u16));
                }
                match self.find(&point.0, &point.1, point.2 as u16, point.3 as u16) {
                    Some(i) => Some(self.members[i].duplicate()),
                    None => None,
                }
            },
            None => None,
        }
    }
}

/// The replicas of a member that asked for a place change nothing in what the
/// other members hold.
pub proof fn lemma_place_replicas_others(
    points: Seq<PointView>,
    identity: NodeIdentity,
    count: nat,
)
    ensures
        place_replicas(points, identity, count).filter(|q: PointView| !belongs_to(q, identity))
            == points.filter(|q: PointView| !belongs_to(q, identity)),
    decreases count,
{
    if count > 0 {
        let others = |q: PointView| !belongs_to(q, identity);
        let so_far = place_replicas(points, identity, (count - 1) as nat);
        let point = point_of(identity, (count - 1) as u64);
        lemma_place_replicas_others(points, identity, (count - 1) as nat);
        if !taken(so_far, point_hash(point)) {
            lemma_first_from_bounds(so_far, point_hash(point), 0);
            lemma_filter_with(so_far, successor(so_far, point_hash(point)), point, others);
        }
    }
}

/// A node whose id no member has is no member, and nobody leaves when it joins.
pub proof fn lemma_stranger(ring: RingView, node: NodeView)
    requires
        !ring.has_id(node.id),
    ensures
        !ring.has_member(node.identity()),
        ring.without_id(node.id) == ring,
{
    if ring.has_member(node.identity()) {
        let m = choose|m: int|
            0 <= m < ring.members.len() && (#[trigger] ring.members[m]).identity()
                == node.identity();
        assert(ring.members[m].id == node.id);
    }
}

/// The owner of a key depends on nothing but the positions, the members and the
/// key: two rings that agree in these name the same owner, whenever and
/// wherever they are asked. A ring that has a position names a member.
pub proof fn law_owner_is_stable(one: RingView, other: RingView, key: Seq<char>)
    requires
        one.wf(),
        one.points == other.points,
        one.members == other.members,
    ensures
        one.owner(key) == other.owner(key),
        one.points.len() > 0 ==> one.owner(key).is_some() && one.has_member(
            one.owner(key).unwrap().identity(),
        ),
        one.points.len() == 0 ==> one.owner(key).is_none(),
{
    if one.points.len() > 0 {
        let hash = key_hash(key);
        lemma_first_from_bounds(one.points, hash, 0);
        let at = successor(one.points, hash);
        let point = one.points[if at == one.points.len() {
            0
        } else {
            at
        }];
        assert(one.has_member(identity_of(point)));
        let i = one.index_of(identity_of(point));
        assert(one.members[i].identity() == identity_of(point));
    }
}

/// Which member owns a key depends on nothing but the positions on the ring:
/// two rings with the same positions name owners of the same identity,
/// in whatever order their members joined.
pub proof fn law_owner_depends_on_positions(one: RingView, other: RingView, key: Seq<char>)
    requires
        one.wf(),
        other.wf(),
        one.points == other.points,
    ensures
        one.owner(key).is_some() == other.owner(key).is_some(),
        one.owner(key).is_some() ==> one.owner(key).unwrap().identity() == other.owner(
            key,
        ).unwrap().identity(),
{
    if one.points.len() > 0 {
        lemma_first_from_bounds(one.points, key_hash(key), 0);
        let at = successor(one.points, key_hash(key));
        let point = one.points[if at == one.points.len() {
            0
        } else {
            at
        }];
        assert(one.has_member(identity_of(point)));
        assert(other.has_member(identity_of(point)));
        assert(one.members[one.index_of(identity_of(point))].identity() == identity_of(point));
        assert(other.members[other.index_of(identity_of(point))].identity() == identity_of(
            point,
        ));
    }
}

/// A node that joins a ring on which no member has its id, and then leaves,
/// leaves the ring as it found it: every key has the owner that it had before.
pub proof fn law_join_then_leave_restores(ring: RingView, node: NodeView, key: Seq<char>)
    requires
        ring.wf(),
        !ring.has_id(node.id),
    ensures
        ring.with_node(node).without_node(node.identity()) == ring,
        ring.with_node(node).without_node(node.identity()).owner(key) == ring.owner(key),
{
    let identity = node.identity();
    lemma_stranger(ring, node);
    let joined = ring.with_node(node);
    let left = joined.without_node(identity);
    let gone = |q: PointView| !belongs_to(q, identity);
    assert(joined.members[ring.members.len() as int].identity() == identity);
    assert(joined.has_member(identity));
    let at = joined.index_of(identity);
    if at < ring.members.len() {
        assert(ring.members[at].identity() == identity);
    }
    assert(left.members =~= ring.members);
    lemma_place_replicas_others(ring.points, identity, ring.replicas);
    assert forall|i: int| 0 <= i < ring.points.len() implies gone(#[trigger] ring.points[i]) by {
        let q = ring.points[i];
        if belongs_to(q, identity) {
            assert(identity_of(q) =~= identity);
        }
    }
    lemma_filter_all(ring.points, gone);
    assert(left.points == ring.points);
}

/// A position that asks for a place leaves the hashes pairwise different, and
/// every key with the owner that it had, unless the position itself owns it
/// now.
pub proof fn lemma_place_owner(points: Seq<PointView>, point: PointView, key: Seq<char>)
    requires
        strictly_ordered(points),
    ensures
        strictly_ordered(place(points, point)),
        owner_point(place(points, point), key) == owner_point(points, key) || owner_point(
            place(points, point),
            key,
        ) == Some(point),
{
    let hash = point_hash(point);
    let wanted = key_hash(key);
    if !taken(points, hash) {
        let at = successor(points, hash);
        let from = successor(points, wanted);
        let after = points.insert(at, point);
        lemma_first_from_bounds(points, hash, 0);
        lemma_first_from_bounds(points, wanted, 0);
        assert(filed(points, point, after)) by {
            assert forall|j: int| at <= j < points.len() implies point_hash(
                #[trigger] points[j],
            ) > hash by {
                if j > at {
                    assert(point_hash(points[at]) < point_hash(points[j]));
                }
            }
            assert(points.insert(at, point) == after);
        }
        lemma_filed_fresh(points, point, after);
        if wanted <= hash {
            if from > at {
                assert(point_hash(points[at]) < wanted);
            }
            assert forall|j: int| 0 <= j < from implies point_hash(#[trigger] after[j])
                < wanted by {
                assert(after[j] == points[j]);
            }
            if from < at {
                assert(after[from] == points[from]);
            } else {
                assert(after[from] == point);
            }
            lemma_successor(after, wanted, from);
        } else {
            if from < at {
                assert(point_hash(points[from]) < hash);
            }
            assert forall|j: int| 0 <= j < from + 1 implies point_hash(#[trigger] after[j])
                < wanted by {
                if j < at {
                    assert(after[j] == points[j]);
                } else if j > at {
                    assert(after[j] == points[j - 1]);
                }
            }
            if from < points.len() {
                assert(after[from + 1] == points[from]);
            } else if at > 0 {
                assert(after[0] == points[0]);
            }
            lemma_successor(after, wanted, from + 1);
        }
    }
}

/// The replicas of a member that ask for their places leave every key with
/// the owner that it had, unless one of them owns it now.
pub proof fn lemma_place_replicas_owner(
    points: Seq<PointView>,
    identity: NodeIdentity,
    count: nat,
    key: Seq<char>,
)
    requires
        strictly_ordered(points),
    ensures
        strictly_ordered(place_replicas(points, identity, count)),
        owner_point(place_replicas(points, identity, count), key) == owner_point(points, key) || (
        exists|replica: u64|
            owner_point(place_replicas(points, identity, count), key) == Some(
                #[trigger] point_of(identity, replica),
            )),
    decreases count,
{
    if count > 0 {
        let so_far = place_replicas(points, identity, (count - 1) as nat);
        let point = point_of(identity, (count - 1) as u64);
        lemma_place_replicas_owner(points, identity, (count - 1) as nat, key);
        lemma_place_owner(so_far, point, key);
    }
}

/// A node that joins a ring on which no member has its id takes keys over and
/// changes no other owner: every key has the owner that it had before, or the
/// newcomer.
pub proof fn law_join_moves_keys_to_newcomer_only(ring: RingView, node: NodeView, key: Seq<char>)
    requires
        ring.wf(),
        !ring.has_id(node.id),
    ensures
        ring.with_node(node).owner(key) == ring.owner(key) || ring.with_node(node).owner(key)
            == Some(node),
{
    let identity = node.identity();
    lemma_stranger(ring, node);
    let joined = ring.with_node(node);
    let last = ring.members.len() as int;
    lemma_place_replicas_owner(ring.points, identity, ring.replicas, key);
    assert(joined.members[last].identity() == identity);
    match owner_point(joined.points, key) {
        Some(q) => {
            if owner_point(ring.points, key) == Some(q) {
                lemma_first_from_bounds(ring.points, key_hash(key), 0);
                let at = successor(ring.points, key_hash(key));
                let spot = if at == ring.points.len() {
                    0
                } else {
                    at
                };
                assert(ring.points[spot] == q);
                assert(ring.has_member(identity_of(q)));
                let before = ring.index_of(identity_of(q));
                assert(joined.members[before].identity() == identity_of(q));
                let now = joined.index_of(identity_of(q));
                if now < last {
                    assert(ring.members[now].identity() == identity_of(q));
                }
                assert(now == before);
            } else {
                let replica = choose|replica: u64|
                    owner_point(joined.points, key) == Some(
                        #[trigger] point_of(identity, replica),
                    );
                assert(identity_of(q) =~= identity);
                let now = joined.index_of(identity);
                if now < last {
                    assert(ring.members[now].identity() == identity);
                }
                assert(now == last);
            }
        },
        None => {},
    }
}

/// What a filter keeps of a ring of pairwise different hashes is such a ring.
pub proof fn lemma_filter_ordered(points: Seq<PointView>, keep: spec_fn(PointView) -> bool)
    requires
        strictly_ordered(points),
    ensures
        strictly_ordered(points.filter(keep)),
    decreases points.len(),
{
    reveal(Seq::filter);
    if points.len() > 0 {
        let init = points.drop_last();
        let last = points.last();
        lemma_filter_ordered(init, keep);
        lemma_filter_kept(init, keep);
        let kept = init.filter(keep);
        if keep(last) {
            assert forall|i: int, j: int| 0 <= i < j < kept.push(last).len() implies point_hash(
                #[trigger] kept.push(last)[i],
            ) < point_hash(#[trigger] kept.push(last)[j]) by {
                if j == kept.len() {
                    let n = choose|n: int| 0 <= n < init.len() && init[n] == kept[i];
                    assert(points[n] == kept[i]);
                    assert(point_hash(points[n]) < point_hash(points[points.len() - 1]));
                } else {
                    assert(point_hash(kept[i]) < point_hash(kept[j]));
                }
            }
        }
    }
}

/// A member that leaves takes no key from another owner: every key that
/// another member owned has the owner that it had before.
pub proof fn law_leave_moves_only_the_leavers_keys(
    ring: RingView,
    identity: NodeIdentity,
    key: Seq<char>,
)
    requires
        ring.wf(),
        ring.owner(key).is_some(),
        ring.owner(key).unwrap().identity() != identity,
    ensures
        ring.without_node(identity).owner(key) == ring.owner(key),
{
    if ring.has_member(identity) {
        let left = ring.without_node(identity);
        let gone = |q: PointView| !belongs_to(q, identity);
        let wanted = key_hash(key);
        let gone_at = ring.index_of(identity);
        assert(ring.members[gone_at].identity() == identity);
        lemma_first_from_bounds(ring.points, wanted, 0);
        let at = successor(ring.points, wanted);
        let spot = if at == ring.points.len() {
            0
        } else {
            at
        };
        let q = ring.points[spot];
        assert(ring.has_member(identity_of(q)));
        let owner_at = ring.index_of(identity_of(q));
        assert(ring.members[owner_at].identity() == identity_of(q));
        assert(gone(q)) by {
            if belongs_to(q, identity) {
                assert(identity_of(q) =~= identity);
            }
        }
        lemma_filter_ordered(ring.points, gone);
        lemma_filter_kept(ring.points, gone);
        ring.points.lemma_filter_contains(gone, spot);
        let kept = left.points;
        let there = choose|i: int| 0 <= i < kept.len() && kept[i] == q;
        assert(kept[there] == q);
        if at < ring.points.len() {
            assert forall|j: int| 0 <= j < there implies point_hash(#[trigger] kept[j])
                < wanted by {
                let n = choose|n: int| 0 <= n < ring.points.len() && ring.points[n] == kept[j];
                assert(ring.points[n] == kept[j]);
                assert(point_hash(kept[j]) < point_hash(kept[there]));
                if n > at {
                    assert(point_hash(ring.points[at]) < point_hash(ring.points[n]));
                }
            }
            lemma_successor(kept, wanted, there);
        } else {
            assert forall|j: int| 0 <= j < kept.len() implies point_hash(#[trigger] kept[j])
                < wanted by {
                let n = choose|n: int| 0 <= n < ring.points.len() && ring.points[n] == kept[j];
                assert(ring.points[n] == kept[j]);
            }
            lemma_successor(kept, wanted, kept.len() as int);
            if there > 0 {
                let n = choose|n: int| 0 <= n < ring.points.len() && ring.points[n] == kept[0];
                assert(ring.points[n] == kept[0]);
                assert(point_hash(kept[0]) < point_hash(kept[there]));
                if n > 0 {
                    assert(point_hash(ring.points[0]) < point_hash(ring.points[n]));
                }
            }
            assert(there == 0);
        }
        assert(owner_point(kept, key) == Some(q));
        let shifted = if owner_at < gone_at {
            owner_at
        } else {
            owner_at - 1
        };
        assert(owner_at != gone_at);
        assert(left.members[shifted] == ring.members[owner_at]);
        let now = left.index_of(identity_of(q));
        assert(left.members[now].identity() == identity_of(q));
        let back = if now < gone_at {
            now
        } else {
            now + 1
        };
        assert(ring.members[back] == left.members[now]);
        assert(back == owner_at);
    }
}

/// The replicas of a member that ask for their places leave every position
/// where it is on the ring, and each new position is one of theirs.
pub proof fn lemma_place_replicas_holds(points: Seq<PointView>, identity: NodeIdentity, count: nat)
    ensures
        forall|j: int|
            0 <= j < points.len() ==> place_replicas(points, identity, count).contains(
                #[trigger] points[j],
            ),
        forall|j: int|
            0 <= j < place_replicas(points, identity, count).len() ==> points.contains(
                #[trigger] place_replicas(points, identity, count)[j],
            ) || (exists|replica: u64|
                replica < count && place_replicas(points, identity, count)[j] == #[trigger] point_of(
                    identity,
                    replica,
                )),
    decreases count,
{
    if count > 0 {
        let so_far = place_replicas(points, identity, (count - 1) as nat);
        let point = point_of(identity, (count - 1) as u64);
        let after = place_replicas(points, identity, count);
        lemma_place_replicas_holds(points, identity, (count - 1) as nat);
        lemma_place_holds(so_far, point);
        assert forall|j: int| 0 <= j < points.len() implies after.contains(
            #[trigger] points[j],
        ) by {
            let k = choose|k: int| 0 <= k < so_far.len() && so_far[k] == points[j];
            assert(after.contains(so_far[k]));
        }
        assert forall|j: int| 0 <= j < after.len() implies points.contains(#[trigger] after[j])
            || (exists|replica: u64|
            replica < count && after[j] == #[trigger] point_of(identity, replica)) by {
            let q = after[j];
            if q == point {
                assert(q == point_of(identity, (count - 1) as u64));
            } else {
                let k = choose|k: int| 0 <= k < so_far.len() && so_far[k] == q;
                assert(so_far[k] == q);
                if !points.contains(q) {
                    let replica = choose|replica: u64|
                        replica < count - 1 && so_far[k] == #[trigger] point_of(identity, replica);
                    assert(q == point_of(identity, replica));
                }
            }
        }
    }
}

/// The first replica of the first member of a ring always gets its place.
pub proof fn lemma_first_replica_is_placed(identity: NodeIdentity, count: nat)
    requires
        count >= 1,
    ensures
        place_replicas(Seq::<PointView>::empty(), identity, count).contains(point_of(identity, 0)),
    decreases count,
{
    let empty = Seq::<PointView>::empty();
    if count == 1 {
        assert(place_replicas(empty, identity, 0) == empty);
        let first = point_of(identity, 0);
        assert(!taken(empty, point_hash(first)));
        lemma_first_from_bounds(empty, point_hash(first), 0);
        let after = place(empty, first);
        assert(after == empty.insert(0, first));
        assert(after[0] == first);
    } else {
        lemma_first_replica_is_placed(identity, (count - 1) as nat);
        let so_far = place_replicas(empty, identity, (count - 1) as nat);
        lemma_place_holds(so_far, point_of(identity, (count - 1) as u64));
        let k = choose|k: int| 0 <= k < so_far.len() && so_far[k] == point_of(identity, 0);
        assert(so_far[k] == point_of(identity, 0));
    }
}

/// A ring on which a position stands names an owner for every key, and the
/// owner is a member.
pub proof fn law_every_key_has_an_owner(ring: RingView, key: Seq<char>)
    requires
        ring.wf(),
        ring.points.len() > 0,
    ensures
        ring.owner(key).is_some(),
        ring.has_member(ring.owner(key).unwrap().identity()),
        ring.members.contains(ring.owner(key).unwrap()),
{
    law_owner_is_stable(ring, ring, key);
    lemma_first_from_bounds(ring.points, key_hash(key), 0);
    let at = successor(ring.points, key_hash(key));
    let point = ring.points[if at == ring.points.len() {
        0
    } else {
        at
    }];
    assert(ring.has_member(identity_of(point)));
    let i = ring.index_of(identity_of(point));
    assert(ring.members[i] == ring.owner(key).unwrap());
}

/// The ring that comes of `nodes` joining an empty ring one after the other.
pub open spec fn ring_of(nodes: Seq<NodeView>, replicas: nat) -> RingView
    decreases nodes.len(),
{
    if nodes.len() == 0 {
        RingView { points: Seq::<PointView>::empty(), members: Seq::<NodeView>::empty(), replicas }
    } else {
        ring_of(nodes.drop_last(), replicas).with_node(nodes.last())
    }
}

/// Whether `point` is one of the positions that the nodes ask for.
pub open spec fn is_replica(nodes: Seq<NodeView>, replicas: nat, point: PointView) -> bool {
    exists|i: int, replica: u64|
        0 <= i < nodes.len() && replica < replicas && point == #[trigger] point_of(
            (#[trigger] nodes[i]).identity(),
            replica,
        )
}

/// No two different positions that the nodes ask for have the same hash.
pub open spec fn collision_free(nodes: Seq<NodeView>, replicas: nat) -> bool {
    forall|p: PointView, q: PointView|
        #[trigger] is_replica(nodes, replicas, p) && #[trigger] is_replica(nodes, replicas, q)
            && point_hash(p) == point_hash(q) ==> p == q
}

/// No two of the nodes have the same id.
pub open spec fn distinct_ids(nodes: Seq<NodeView>) -> bool {
    forall|i: int, j: int|
        0 <= i < j < nodes.len() ==> (#[trigger] nodes[i]).id != (#[trigger] nodes[j]).id
}

/// Whether one of the nodes has the identity `identity`.
pub open spec fn has_identity(nodes: Seq<NodeView>, identity: NodeIdentity) -> bool {
    exists|i: int| 0 <= i < nodes.len() && (#[trigger] nodes[i]).identity() == identity
}

/// Where no hash is shared within `universe`, every replica that asks for a
/// place gets one.
pub proof fn lemma_every_replica_is_placed(
    points: Seq<PointView>,
    identity: NodeIdentity,
    count: nat,
    universe: spec_fn(PointView) -> bool,
)
    requires
        count <= u64::MAX,
        forall|j: int| 0 <= j < points.len() ==> universe(#[trigger] points[j]),
        forall|replica: u64| replica < count ==> universe(#[trigger] point_of(identity, replica)),
        forall|p: PointView, q: PointView|
            #[trigger] universe(p) && #[trigger] universe(q) && point_hash(p) == point_hash(q)
                ==> p == q,
    ensures
        forall|replica: u64|
            replica < count ==> place_replicas(points, identity, count).contains(
                #[trigger] point_of(identity, replica),
            ),
        forall|j: int|
            0 <= j < place_replicas(points, identity, count).len() ==> universe(
                #[trigger] place_replicas(points, identity, count)[j],
            ),
    decreases count,
{
    if count > 0 {
        let so_far = place_replicas(points, identity, (count - 1) as nat);
        let point = point_of(identity, (count - 1) as u64);
        let after = place_replicas(points, identity, count);
        lemma_every_replica_is_placed(points, identity, (count - 1) as nat, universe);
        lemma_place_holds(so_far, point);
        assert(universe(point));
        assert forall|j: int| 0 <= j < after.len() implies universe(#[trigger] after[j]) by {
            let q = after[j];
            if q != point {
                let k = choose|k: int| 0 <= k < so_far.len() && so_far[k] == q;
                assert(so_far[k] == q);
            }
        }
        assert(after.contains(point)) by {
            if taken(so_far, point_hash(point)) {
                let j = choose|j: int|
                    0 <= j < so_far.len() && point_hash(#[trigger] so_far[j]) == point_hash(point);
                assert(universe(so_far[j]));
                assert(so_far[j] == point);
            } else {
                lemma_first_from_bounds(so_far, point_hash(point), 0);
                assert(after[successor(so_far, point_hash(point))] == point);
            }
        }
        assert forall|replica: u64| replica < count implies after.contains(
            #[trigger] point_of(identity, replica),
        ) by {
            if replica < count - 1 {
                let k = choose|k: int|
                    0 <= k < so_far.len() && so_far[k] == point_of(identity, replica);
                assert(so_far[k] == point_of(identity, replica));
                assert(after.contains(so_far[k]));
            }
        }
    }
}

/// Two rings of pairwise different hashes that hold the same positions hold
/// them in the same order.
pub proof fn lemma_same_positions_same_ring(one: Seq<PointView>, other: Seq<PointView>)
    requires
        strictly_ordered(one),
        strictly_ordered(other),
        forall|p: PointView| one.contains(p) <==> other.contains(p),
    ensures
        one == other,
    decreases one.len(),
{
    if one.len() == 0 {
        if other.len() > 0 {
            assert(other.contains(other[0]));
        }
        assert(one =~= other);
    } else {
        let last = one.last();
        assert(one.contains(last));
        let j = choose|j: int| 0 <= j < other.len() && other[j] == last;
        assert(other[j] == last);
        let top = other.last();
        assert(other.contains(top));
        let i = choose|i: int| 0 <= i < one.len() && one[i] == top;
        assert(one[i] == top);
        if i < one.len() - 1 {
            assert(point_hash(one[i]) < point_hash(one[one.len() - 1]));
        }
        if j < other.len() - 1 {
            assert(point_hash(other[j]) < point_hash(other[other.len() - 1]));
        }
        assert(top == last);
        let a = one.drop_last();
        let b = other.drop_last();
        assert forall|p: PointView| a.contains(p) <==> b.contains(p) by {
            if a.contains(p) {
                let n = choose|n: int| 0 <= n < a.len() && a[n] == p;
                assert(one[n] == p);
                assert(point_hash(one[n]) < point_hash(one[one.len() - 1]));
                assert(one.contains(p));
                let m = choose|m: int| 0 <= m < other.len() && other[m] == p;
                assert(other[m] == p);
                assert(m < other.len() - 1);
                assert(b[m] == p);
            }
            if b.contains(p) {
                let n = choose|n: int| 0 <= n < b.len() && b[n] == p;
                assert(other[n] == p);
                assert(point_hash(other[n]) < point_hash(other[other.len() - 1]));
                assert(other.contains(p));
                let m = choose|m: int| 0 <= m < one.len() && one[m] == p;
                assert(one[m] == p);
                assert(m < one.len() - 1);
                assert(a[m] == p);
            }
        }
        assert forall|x: int, y: int| 0 <= x < y < a.len() implies point_hash(#[trigger] a[x])
            < point_hash(#[trigger] a[y]) by {
            assert(a[x] == one[x] && a[y] == one[y]);
        }
        assert forall|x: int, y: int| 0 <= x < y < b.len() implies point_hash(#[trigger] b[x])
            < point_hash(#[trigger] b[y]) by {
            assert(b[x] == other[x] && b[y] == other[y]);
        }
        lemma_same_positions_same_ring(a, b);
        assert(one =~= a.push(last));
        assert(other =~= b.push(top));
    }
}

/// The ring of nodes with pairwise different ids whose positions share no
/// hash is in order, lists the nodes as they joined, and holds exactly the
/// positions that they ask for.
pub proof fn lemma_ring_of(nodes: Seq<NodeView>, replicas: nat)
    requires
        1 <= replicas <= u64::MAX,
        distinct_ids(nodes),
        collision_free(nodes, replicas),
    ensures
        ring_of(nodes, replicas).wf(),
        ring_of(nodes, replicas).members == nodes,
        ring_of(nodes, replicas).replicas == replicas,
        forall|p: PointView|
            ring_of(nodes, replicas).points.contains(p) <==> is_replica(nodes, replicas, p),
    decreases nodes.len(),
{
    let ring = ring_of(nodes, replicas);
    if nodes.len() == 0 {
        assert(ring.members =~= nodes);
        assert forall|p: PointView| ring.points.contains(p) <==> is_replica(
            nodes,
            replicas,
            p,
        ) by {}
    } else {
        let prefix = nodes.drop_last();
        let last = nodes.last();
        let identity = last.identity();
        let before = ring_of(prefix, replicas);
        let universe = |p: PointView| is_replica(nodes, replicas, p);
        assert forall|p: PointView| is_replica(prefix, replicas, p) implies is_replica(
            nodes,
            replicas,
            p,
        ) by {
            let (i, replica) = choose|i: int, replica: u64|
                0 <= i < prefix.len() && replica < replicas && p == #[trigger] point_of(
                    (#[trigger] prefix[i]).identity(),
                    replica,
                );
            assert(p == point_of(nodes[i].identity(), replica));
        }
        assert(distinct_ids(prefix)) by {
            assert forall|i: int, j: int| 0 <= i < j < prefix.len() implies (
            #[trigger] prefix[i]).id != (#[trigger] prefix[j]).id by {
                assert(nodes[i].id != nodes[j].id);
            }
        }
        lemma_ring_of(prefix, replicas);
        assert(!before.has_id(last.id)) by {
            if before.has_id(last.id) {
                let m = before.index_of_id(last.id);
                assert(nodes[m].id == nodes[nodes.len() - 1].id);
            }
        }
        lemma_stranger(before, last);
        assert(ring.members =~= nodes);
        assert forall|j: int| 0 <= j < before.points.len() implies universe(
            #[trigger] before.points[j],
        ) by {
            assert(before.points.contains(before.points[j]));
        }
        assert forall|replica: u64| replica < replicas implies universe(
            #[trigger] point_of(identity, replica),
        ) by {
            assert(point_of(identity, replica) == point_of(
                nodes[nodes.len() - 1].identity(),
                replica,
            ));
        }
        lemma_every_replica_is_placed(before.points, identity, replicas, universe);
        lemma_place_replicas_holds(before.points, identity, replicas);
        lemma_place_replicas_owner(before.points, identity, replicas, Seq::<char>::empty());
        assert forall|p: PointView| ring.points.contains(p) <==> is_replica(
            nodes,
            replicas,
            p,
        ) by {
            if ring.points.contains(p) {
                let k = choose|k: int| 0 <= k < ring.points.len() && ring.points[k] == p;
                assert(universe(ring.points[k]));
            }
            if is_replica(nodes, replicas, p) {
                let (i, replica) = choose|i: int, replica: u64|
                    0 <= i < nodes.len() && replica < replicas && p == #[trigger] point_of(
                        (#[trigger] nodes[i]).identity(),
                        replica,
                    );
                if i < nodes.len() - 1 {
                    assert(p == point_of(prefix[i].identity(), replica));
                    assert(is_replica(prefix, replicas, p));
                    let k = choose|k: int| 0 <= k < before.points.len() && before.points[k] == p;
                    assert(before.points[k] == p);
                } else {
                    assert(p == point_of(identity, replica));
                }
            }
        }
        assert forall|i: int| 0 <= i < ring.points.len() implies ring.has_member(
            identity_of(#[trigger] ring.points[i]),
        ) && belongs_to(ring.points[i], identity_of(ring.points[i])) && ring.points[i].4
            < ring.replicas by {
            let p = ring.points[i];
            assert(ring.points.contains(p));
            let (m, replica) = choose|m: int, replica: u64|
                0 <= m < nodes.len() && replica < replicas && p == #[trigger] point_of(
                    (#[trigger] nodes[m]).identity(),
                    replica,
                );
            assert(identity_of(p) =~= nodes[m].identity());
            assert(ring.members[m].identity() == identity_of(p));
        }
        assert forall|i: int, j: int| 0 <= i < j < ring.members.len() implies (
        #[trigger] ring.members[i]).identity() != (#[trigger] ring.members[j]).identity() by {
            assert(nodes[i].id != nodes[j].id);
        }
    }
}

/// The owner of a key does not depend on the order in which the members
/// joined, nor on their metadata: two rings that the same nodes joined, in
/// whatever order, hold the same positions and name owners of the same
/// identity, provided that no two positions of these nodes share a hash.
pub proof fn law_owner_does_not_depend_on_joining_order(
    first: Seq<NodeView>,
    second: Seq<NodeView>,
    replicas: nat,
    key: Seq<char>,
)
    requires
        1 <= replicas <= u64::MAX,
        distinct_ids(first),
        distinct_ids(second),
        forall|identity: NodeIdentity|
            has_identity(first, identity) <==> has_identity(second, identity),
        collision_free(first, replicas),
    ensures
        ring_of(first, replicas).points == ring_of(second, replicas).points,
        ring_of(first, replicas).owner(key).is_some() == ring_of(second, replicas).owner(
            key,
        ).is_some(),
        ring_of(first, replicas).owner(key).is_some() ==> ring_of(first, replicas).owner(
            key,
        ).unwrap().identity() == ring_of(second, replicas).owner(key).unwrap().identity(),
{
    assert forall|p: PointView| is_replica(first, replicas, p) <==> is_replica(
        second,
        replicas,
        p,
    ) by {
        if is_replica(first, replicas, p) {
            let (i, replica) = choose|i: int, replica: u64|
                0 <= i < first.len() && replica < replicas && p == #[trigger] point_of(
                    (#[trigger] first[i]).identity(),
                    replica,
                );
            assert(has_identity(first, first[i].identity()));
            let j = choose|j: int|
                0 <= j < second.len() && (#[trigger] second[j]).identity() == first[i].identity();
            assert(p == point_of(second[j].identity(), replica));
        }
        if is_replica(second, replicas, p) {
            let (i, replica) = choose|i: int, replica: u64|
                0 <= i < second.len() && replica < replicas && p == #[trigger] point_of(
                    (#[trigger] second[i]).identity(),
                    replica,
                );
            assert(has_identity(second, second[i].identity()));
            let j = choose|j: int|
                0 <= j < first.len() && (#[trigger] first[j]).identity() == second[i].identity();
            assert(p == point_of(first[j].identity(), replica));
        }
    }
    assert(collision_free(second, replicas)) by {
        assert forall|p: PointView, q: PointView|
            #[trigger] is_replica(second, replicas, p) && #[trigger] is_replica(
                second,
                replicas,
                q,
            ) && point_hash(p) == point_hash(q) implies p == q by {
            assert(is_replica(first, replicas, p) && is_replica(first, replicas, q));
        }
    }
    lemma_ring_of(first, replicas);
    lemma_ring_of(second, replicas);
    let one = ring_of(first, replicas);
    let other = ring_of(second, replicas);
    assert forall|p: PointView| one.points.contains(p) <==> other.points.contains(p) by {
        assert(one.points.contains(p) <==> is_replica(first, replicas, p));
        assert(other.points.contains(p) <==> is_replica(second, replicas, p));
    }
    lemma_same_positions_same_ring(one.points, other.points);
    law_owner_depends_on_positions(one, other, key);
}

} // verus!
