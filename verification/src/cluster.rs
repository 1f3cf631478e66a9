//! Cluster membership: who the members are, which of them owns a key, how the
//! node comes up, and what it does with what arrives on a connection.
//!
//! The node does not touch the network here. Each function takes what
//! happened and says what is to be done next; the caller performs it.

use vstd::prelude::*;
use vstd::string::StringExecFns;
use crate::config::ClusterConfig;
use crate::error::{ClusterError, ClusterResult};
use crate::message::{ClusterMessage, MessageView};
use crate::node::{Node, NodeView};
use crate::ring::{
    law_every_key_has_an_owner, lemma_first_replica_is_placed, lemma_place_replicas_holds,
    lemma_stranger, point_of, positions_per_member, belongs_to, NodeRing, PointView, RingView,
};

verus! {

/// The byte that acknowledges a cluster message.
pub const ACK: u8 = 1;

/// How far a node has come up.
#[derive(Debug, Clone, Copy, PartialEq, Eq, Structural)]
pub enum Phase {
    /// Created, not yet started.
    Uninitialized,
    /// Listening, and contacting its peers.
    Initializing,
    /// Part of the cluster.
    Active,
}

/// The mathematical value of a [`FastbuCluster`].
#[verifier::ext_equal]
pub struct ClusterView {
    /// The local node.
    pub local: NodeView,
    /// The ring and the members.
    pub ring: RingView,
    /// The addresses of the peers to contact.
    pub peers: Seq<Seq<char>>,
    /// The seed addresses of the configuration.
    pub seeds: Seq<Seq<char>>,
    /// The number of ring positions per member that the configuration asks for.
    pub virtual_nodes: usize,
    /// The gossip interval of the configuration, in seconds.
    pub gossip_interval: u64,
    /// The node timeout of the configuration, in seconds.
    pub node_timeout: u64,
    /// How far the node has come up.
    pub phase: Phase,
}

/// A list of addresses with one more, unless it is in the list already.
pub open spec fn with_peer(peers: Seq<Seq<char>>, peer: Seq<char>) -> Seq<Seq<char>> {
    if peers.contains(peer) {
        peers
    } else {
        peers.push(peer)
    }
}

/// A list of addresses with the first `count` of `more` added, each unless it
/// is in the list already.
pub open spec fn with_peers(peers: Seq<Seq<char>>, more: Seq<Seq<char>>, count: nat) -> Seq<
    Seq<char>,
>
    decreases count,
{
    if count == 0 {
        peers
    } else {
        with_peer(with_peers(peers, more, (count - 1) as nat), more[count - 1])
    }
}

/// The ring of a node that knows nobody but itself.
pub open spec fn lone_ring(local: NodeView, replicas: nat) -> RingView {
    RingView { points: Seq::<PointView>::empty(), members: Seq::<NodeView>::empty(), replicas }
        .with_node(local)
}

impl ClusterView {
    /// The members are in order, the local node is one of them, and its first
    /// position stands on the ring: every key has an owner.
    pub open spec fn wf(self) -> bool {
        &&& self.ring.wf()
        &&& self.ring.has_member(self.local.identity())
        &&& self.ring.points.contains(point_of(self.local.identity(), 0))
    }

    /// Whether `node` is the local node.
    pub open spec fn is_local(self, node: NodeView) -> bool {
        node.identity() == self.local.identity()
    }

    /// Whether `node` may not join: it claims the id of the local node from
    /// another address.
    pub open spec fn refuses(self, node: NodeView) -> bool {
        node.id == self.local.id && !self.is_local(node)
    }

    /// The cluster after the node has started: initializing, with the seeds
    /// among the peers.
    pub open spec fn started(self) -> ClusterView {
        ClusterView {
            peers: with_peers(self.peers, self.seeds, self.seeds.len()),
            phase: Phase::Initializing,
            ..self
        }
    }

    /// The cluster after `node` has asked to join: a node that is refused
    /// changes nothing; any other is a member, in place of the one that had
    /// its id.
    pub open spec fn joined(self, node: NodeView) -> ClusterView {
        if self.refuses(node) {
            self
        } else {
            ClusterView { ring: self.ring.with_node(node), ..self }
        }
    }

    /// The cluster after `node` has left. The local node never leaves.
    pub open spec fn left(self, node: NodeView) -> ClusterView {
        if self.is_local(node) {
            self
        } else {
            ClusterView { ring: self.ring.without_node(node.identity()), ..self }
        }
    }
}

/// The text with which a node is refused that claims the local node's id.
pub open spec fn refusal_text(node: NodeView) -> Seq<char> {
    "Node id is that of the local node: "@ + node.id
}

/// Why a start fails, if it does: the node has been started before, or its
/// listener could not be started.
pub open spec fn start_failure(cluster: ClusterView, listener: Result<(), String>) -> Option<
    Seq<char>,
> {
    if cluster.phase != Phase::Uninitialized {
        Some("The node has been started already"@)
    } else {
        match listener {
            Ok(_) => None,
            Err(reason) => Some(listener_failure(cluster.local, reason@)),
        }
    }
}

/// The cluster after a peer that was contacted has answered, or has not: a
/// peer that answers while the node is initializing asks to join.
pub open spec fn after_handshake(cluster: ClusterView, answer: Option<Node>) -> ClusterView {
    match answer {
        Some(node) => if cluster.phase == Phase::Initializing {
            cluster.joined(node@)
        } else {
            cluster
        },
        None => cluster,
    }
}

/// A cluster that is in order stays so when a node asks to join.
pub proof fn lemma_joined_wf(cluster: ClusterView, node: NodeView)
    requires
        cluster.wf(),
        cluster.ring.with_node(node).wf(),
    ensures
        cluster.joined(node).wf(),
{
    let local = cluster.local.identity();
    let anchor = point_of(local, 0);
    if !cluster.refuses(node) && !cluster.ring.has_member(node.identity()) {
        let ring = cluster.ring;
        let base = ring.without_id(node.id);
        let after = ring.with_node(node);
        let at = choose|i: int|
            0 <= i < ring.members.len() && (#[trigger] ring.members[i]).identity() == local;
        assert(ring.members[at].identity() == local);
        if ring.has_id(node.id) {
            let gone_at = ring.index_of_id(node.id);
            let holder = ring.members[gone_at].identity();
            assert(ring.members[gone_at].id == node.id);
            assert(ring.has_member(holder));
            let listed = ring.index_of(holder);
            assert(ring.members[listed].identity() == holder);
            assert(holder != local);
            assert(listed != at);
            let shifted = if at < listed {
                at
            } else {
                at - 1
            };
            assert(base.members[shifted] == ring.members[at]);
            let keep = |q: PointView| !belongs_to(q, holder);
            let n = choose|n: int| 0 <= n < ring.points.len() && ring.points[n] == anchor;
            assert(ring.points[n] == anchor);
            assert(keep(anchor));
            ring.points.lemma_filter_contains(keep, n);
            assert(base.points.contains(anchor));
            assert(base.has_member(local)) by {
                assert(base.members[shifted].identity() == local);
            }
        } else {
            assert(base == ring);
        }
        let m = choose|m: int|
            0 <= m < base.members.len() && (#[trigger] base.members[m]).identity() == local;
        assert(after.members[m].identity() == local);
        lemma_place_replicas_holds(base.points, node.identity(), ring.replicas);
        let k = choose|k: int| 0 <= k < base.points.len() && base.points[k] == anchor;
        assert(base.points[k] == anchor);
        assert(after.points.contains(base.points[k]));
    }
}

/// A cluster that is in order stays so when a node leaves.
pub proof fn lemma_left_wf(cluster: ClusterView, node: NodeView)
    requires
        cluster.wf(),
        cluster.ring.without_node(node.identity()).wf(),
    ensures
        cluster.left(node).wf(),
{
    let ring = cluster.ring;
    let local = cluster.local.identity();
    let anchor = point_of(local, 0);
    let leaver = node.identity();
    if !cluster.is_local(node) && ring.has_member(leaver) {
        let after = ring.without_node(leaver);
        let gone_at = ring.index_of(leaver);
        assert(ring.members[gone_at].identity() == leaver);
        let at = choose|i: int|
            0 <= i < ring.members.len() && (#[trigger] ring.members[i]).identity() == local;
        assert(ring.members[at].identity() == local);
        let shifted = if at < gone_at {
            at
        } else {
            at - 1
        };
        assert(after.members[shifted] == ring.members[at]);
        assert(after.members[shifted].identity() == local);
        let keep = |q: PointView| !belongs_to(q, leaver);
        let n = choose|n: int| 0 <= n < ring.points.len() && ring.points[n] == anchor;
        assert(ring.points[n] == anchor);
        assert(keep(anchor)) by {
            if belongs_to(anchor, leaver) {
                assert(leaver =~= local);
            }
        }
        ring.points.lemma_filter_contains(keep, n);
    }
}

/// In a cluster that is in order every key has an owner, and the owner is a
/// member.
pub proof fn law_cluster_names_an_owner(cluster: ClusterView, key: Seq<char>)
    requires
        cluster.wf(),
    ensures
        cluster.ring.owner(key).is_some(),
        cluster.ring.members.contains(cluster.ring.owner(key).unwrap()),
{
    let anchor = point_of(cluster.local.identity(), 0);
    let n = choose|n: int| 0 <= n < cluster.ring.points.len() && cluster.ring.points[n] == anchor;
    assert(cluster.ring.points[n] == anchor);
    law_every_key_has_an_owner(cluster.ring, key);
}

/// A node that knows nobody but itself owns every key.
pub proof fn law_lone_node_owns_every_key(local: NodeView, replicas: nat, key: Seq<char>)
    requires
        1 <= replicas <= u64::MAX,
    ensures
        lone_ring(local, replicas).wf(),
        lone_ring(local, replicas).points.contains(point_of(local.identity(), 0)),
        lone_ring(local, replicas).members == seq![local],
        lone_ring(local, replicas).owner(key) == Some(local),
{
    let empty = RingView {
        points: Seq::<PointView>::empty(),
        members: Seq::<NodeView>::empty(),
        replicas,
    };
    let ring = lone_ring(local, replicas);
    let identity = local.identity();
    assert(!empty.has_id(local.id));
    lemma_stranger(empty, local);
    assert(ring.members =~= seq![local]);
    lemma_first_replica_is_placed(identity, replicas);
    lemma_place_replicas_holds(empty.points, identity, replicas);
    crate::ring::lemma_place_replicas_owner(empty.points, identity, replicas, key);
    assert forall|i: int| 0 <= i < ring.points.len() implies ring.has_member(
        crate::ring::identity_of(#[trigger] ring.points[i]),
    ) && belongs_to(ring.points[i], crate::ring::identity_of(ring.points[i])) && ring.points[i].4
        < ring.replicas by {
        let q = ring.points[i];
        assert(!empty.points.contains(q));
        let replica = choose|replica: u64|
            replica < replicas && ring.points[i] == #[trigger] point_of(identity, replica);
        assert(crate::ring::identity_of(q) =~= identity);
        assert(ring.members[0].identity() == identity);
    }
    let n = choose|n: int| 0 <= n < ring.points.len() && ring.points[n] == point_of(identity, 0);
    assert(ring.points[n] == point_of(identity, 0));
    law_every_key_has_an_owner(ring, key);
    let owner = ring.owner(key).unwrap();
    let at = choose|i: int| 0 <= i < ring.members.len() && ring.members[i] == owner;
    assert(ring.members[at] == owner);
}

/// The detail of a failed start: where the listener should have been, and why
/// it is not.
pub open spec fn listener_failure(local: NodeView, reason: Seq<char>) -> Seq<char> {
    "Failed to start message listener on "@ + crate::node::address_text(local.host, local.port)
        + ": "@ + reason
}

/// What a frame does to the cluster: a node that introduces itself asks to
/// join, anything else changes nothing.
pub open spec fn after_frame(cluster: ClusterView, as_node: Option<Node>) -> ClusterView {
    match as_node {
        Some(node) => cluster.joined(node@),
        None => cluster,
    }
}

/// Whether `sender` is whom a message from `host` and `port` is taken to come
/// from: the first member at that address, or else a placeholder with a fresh
/// id, no API port and no metadata.
pub open spec fn sent_by(cluster: ClusterView, sender: NodeView, host: Seq<char>, port: u16) -> bool {
    if cluster.ring.at_address(host, port) {
        cluster.ring.is_first_at(sender, host, port)
    } else {
        sender.host == host && sender.port == port && sender.api_port == 0 && sender.metadata.len()
            == 0 && sender.id.len() == 36
    }
}

/// Whether `inbound` is what a frame amounts to that reads as `as_node` and
/// as `as_message` and came from `peer_host` and `peer_port`.
pub open spec fn reads_as(
    inbound: Inbound,
    cluster: ClusterView,
    as_node: Option<Node>,
    as_message: Option<ClusterMessage>,
    peer_host: Seq<char>,
    peer_port: u16,
) -> bool {
    match as_node {
        Some(_) => {
            &&& inbound matches Inbound::Handshake { reply }
            &&& reply@ == cluster.local
        },
        None => match as_message {
            Some(message) => {
                &&& inbound matches Inbound::Message { sender, message: handed }
                &&& handed@ == message@
                &&& sent_by(cluster, sender@, peer_host, peer_port)
            },
            None => inbound is Unreadable,
        },
    }
}

/// The views of a list of strings.
pub open spec fn texts(list: Seq<String>) -> Seq<Seq<char>> {
    list.map_values(|s: String| s@)
}

/// What is to be done with a message for a node.
#[derive(Debug, Clone)]
pub enum Delivery {
    /// The node is the local one: the message goes to the local processor,
    /// with the local node as its sender.
    Local { sender: Node, message: ClusterMessage },
    /// The node is another one: the message goes in a frame to this address,
    /// and an acknowledgment is awaited.
    Remote { address: String, message: ClusterMessage },
}

/// Whether `how` is the way on which `message` reaches `node`.
pub open spec fn delivers(
    how: Delivery,
    cluster: ClusterView,
    node: NodeView,
    message: MessageView,
) -> bool {
    match how {
        Delivery::Local { sender, message: handed } => cluster.is_local(node) && sender@ == node
            && handed@ == message,
        Delivery::Remote { address, message: handed } => !cluster.is_local(node) && address@
            == crate::node::address_text(node.host, node.port) && handed@ == message,
    }
}

/// Where the sending of a message to another node failed.
#[derive(Debug, Clone)]
pub enum SendFailure {
    /// The message could not be serialised.
    Serialize(String),
    /// No connection to the node.
    Connect(String),
    /// The length of the frame could not be sent.
    SendLength(String),
    /// The payload of the frame could not be sent.
    SendData(String),
    /// No acknowledgment came back.
    Acknowledge(String),
}

/// The text of a failed send: what failed, and for a failed connection to
/// whom, then the detail.
pub open spec fn failure_text(node: NodeView, failure: SendFailure) -> Seq<char> {
    match failure {
        SendFailure::Serialize(d) => "Failed to serialize message: "@ + d@,
        SendFailure::Connect(d) => "Failed to connect to node "@ + node.id + ": "@ + d@,
        SendFailure::SendLength(d) => "Failed to send message length: "@ + d@,
        SendFailure::SendData(d) => "Failed to send message data: "@ + d@,
        SendFailure::Acknowledge(d) => "Failed to receive acknowledgment: "@ + d@,
    }
}

/// The error that a failed send to `node` ends in: always one of
/// communication, never fatal.
pub fn communication_error(node: &Node, failure: &SendFailure) -> (error: ClusterError)
    ensures
        error is CommunicationError,
        error.detail() == failure_text(node@, *failure),
{
    let mut text: String;
    match failure {
        SendFailure::Serialize(d) => {
            text = String::from_str("Failed to serialize message: ");
            text.append(d.as_str());
        },
        SendFailure::Connect(d) => {
            text = String::from_str("Failed to connect to node ");
            text.append(node.id.as_str());
            text.append(": ");
            text.append(d.as_str());
        },
        SendFailure::SendLength(d) => {
            text = String::from_str("Failed to send message length: ");
            text.append(d.as_str());
        },
        SendFailure::SendData(d) => {
            text = String::from_str("Failed to send message data: ");
            text.append(d.as_str());
        },
        SendFailure::Acknowledge(d) => {
            text = String::from_str("Failed to receive acknowledgment: ");
            text.append(d.as_str());
        },
    }
    ClusterError::CommunicationError(text)
}

/// What arrived in a frame.
#[derive(Debug, Clone)]
pub enum Inbound {
    /// A node introduced itself and has asked to join: answer with the
    /// descriptor of the local node, on the same connection.
    Handshake { reply: Node },
    /// A cluster message from `sender`: hand it to the processor, then
    /// acknowledge with [`ACK`].
    Message { sender: Node, message: ClusterMessage },
    /// Neither a node descriptor nor a cluster message: drop the connection.
    Unreadable,
}

/// What a member of a cluster can be asked and told about the membership.
pub trait ClusterNode {
    /// What the node knows of the cluster.
    spec fn state(&self) -> ClusterView;

    /// The node starts. A node that has been started before, or whose listener
    /// could not be started, stays as it is and the start fails. Else the
    /// node goes from uninitialized to initializing, the seeds are peers, and
    /// the peers are handed out to be contacted.
    fn initialize(&mut self, listener: Result<(), String>) -> (contacts: ClusterResult<
        Vec<String>,
    >)
        requires
            old(self).state().wf(),
        ensures
            final(self).state().wf(),
            match start_failure(old(self).state(), listener) {
                None => contacts is Ok && texts(contacts->Ok_0@) == final(self).state().peers
                    && final(self).state() == old(self).state().started(),
                Some(why) => final(self).state() == old(self).state() && contacts is Err
                    && contacts->Err_0 is InitializationError && contacts->Err_0.detail() == why,
            },
    ;

    /// What is to be done with a message for `node`: the local node gets it
    /// in process, any other at its cluster address.
    fn send_message(&self, node: &Node, message: ClusterMessage) -> (how: Delivery)
        ensures
            delivers(how, self.state(), node@, message@),
    ;

    /// The member that owns `key`. In a cluster that is in order there is one
    /// for every key.
    fn get_responsible_node(&self, key: &str) -> (owner: Option<Node>)
        requires
            self.state().wf(),
        ensures
            owner.is_some(),
            self.state().ring.owner(key@) == Some(owner.unwrap()@),
            self.state().ring.members.contains(owner.unwrap()@),
    ;

    /// All members, the local node among them.
    fn get_nodes(&self) -> (nodes: Vec<Node>)
        ensures
            nodes@.map_values(|n: Node| n@) == self.state().ring.members,
    ;

    /// A node asks to join: it becomes a member and takes its places on the
    /// ring, both or neither, in place of the member that had its id. A node
    /// that claims the id of the local node from another address is refused,
    /// and nothing changes.
    fn handle_node_joined(&mut self, node: &Node) -> (done: ClusterResult<()>)
        requires
            old(self).state().wf(),
        ensures
            final(self).state().wf(),
            final(self).state() == old(self).state().joined(node@),
            match done {
                Ok(_) => !old(self).state().refuses(node@) && final(self).state().ring.has_member(
                    node@.identity(),
                ),
                Err(error) => old(self).state().refuses(node@) && error is JoinError
                    && error.detail() == refusal_text(node@),
            },
    ;

    /// A node has left: it is no member any more and its places on the ring
    /// are free, both or neither. The local node does not leave.
    fn handle_node_left(&mut self, node: &Node) -> (done: ClusterResult<()>)
        requires
            old(self).state().wf(),
        ensures
            final(self).state().wf(),
            done is Ok,
            final(self).state() == old(self).state().left(node@),
            !old(self).state().is_local(node@) ==> !final(self).state().ring.has_member(
                node@.identity(),
            ),
    ;
}

/// A cluster member's knowledge of the cluster.
pub struct FastbuCluster {
    config: ClusterConfig,
    ring: NodeRing,
    peers: Vec<String>,
    phase: Phase,
}

impl View for FastbuCluster {
    type V = ClusterView;

    closed spec fn view(&self) -> ClusterView {
        ClusterView {
            local: self.config.node@,
            ring: self.ring@,
            peers: texts(self.peers@),
            seeds: texts(self.config.cluster.seeds@),
            virtual_nodes: self.config.cluster.virtual_nodes,
            gossip_interval: self.config.cluster.gossip_interval,
            node_timeout: self.config.cluster.node_timeout,
            phase: self.phase,
        }
    }
}

impl FastbuCluster {
    /// The cluster is in order; see [`ClusterView::wf`].
    pub open spec fn wf(&self) -> bool {
        self@.wf()
    }

    /// A node that knows nobody but itself and has not started yet: it is in
    /// the registry and on the ring, and owns every key.
    pub fn new(config: ClusterConfig) -> (cluster: FastbuCluster)
        ensures
            cluster.wf(),
            cluster@.local == config.node@,
            cluster@.ring == lone_ring(
                config.node@,
                positions_per_member(config.cluster.virtual_nodes),
            ),
            cluster@.ring.members == seq![config.node@],
            forall|key: Seq<char>| #[trigger] cluster@.ring.owner(key) == Some(config.node@),
            cluster@.peers.len() == 0,
            cluster@.seeds == texts(config.cluster.seeds@),
            cluster@.virtual_nodes == config.cluster.virtual_nodes,
            cluster@.gossip_interval == config.cluster.gossip_interval,
            cluster@.node_timeout == config.cluster.node_timeout,
            cluster@.phase == Phase::Uninitialized,
    {
        let mut ring = NodeRing::new(config.cluster.virtual_nodes);
        let ghost empty = ring@;
        ring.add(config.node.duplicate());
        let cluster = FastbuCluster {
            config,
            ring,
            peers: Vec::new(),
            phase: Phase::Uninitialized,
        };
        proof {
            let replicas = positions_per_member(cluster.config.cluster.virtual_nodes);
            assert(empty =~= RingView {
                points: Seq::<PointView>::empty(),
                members: Seq::<NodeView>::empty(),
                replicas,
            });
            assert(cluster@.ring == lone_ring(cluster@.local, replicas));
            assert(cluster@.peers =~= Seq::<Seq<char>>::empty());
            assert forall|key: Seq<char>| #[trigger] cluster@.ring.owner(key) == Some(
                cluster@.local,
            ) by {
                law_lone_node_owns_every_key(cluster@.local, replicas, key);
            }
            law_lone_node_owns_every_key(cluster@.local, replicas, Seq::<char>::empty());
            assert(cluster@.ring.members[0].identity() == cluster@.local.identity());
        }
        cluster
    }

    /// The configuration that the node was made with.
    pub fn get_config(&self) -> (config: &ClusterConfig)
        ensures
            config.node@ == self@.local,
            texts(config.cluster.seeds@) == self@.seeds,
            config.cluster.virtual_nodes == self@.virtual_nodes,
            config.cluster.gossip_interval == self@.gossip_interval,
            config.cluster.node_timeout == self@.node_timeout,
    {
        &self.config
    }

    /// The local node.
    pub fn local_node(&self) -> (node: &Node)
        ensures
            node@ == self@.local,
    {
        &self.config.node
    }

    /// How far the node has come up.
    pub fn phase(&self) -> (phase: Phase)
        ensures
            phase == self@.phase,
    {
        self.phase
    }

    /// Whether `node` is the local node.
    pub fn is_local(&self, node: &Node) -> (local: bool)
        ensures
            local == self@.is_local(node@),
    {
        self.config.node.same_identity(node)
    }

    /// Whether `peer` is among the peers.
    fn knows_peer(&self, peer: &String) -> (known: bool)
        ensures
            known == self@.peers.contains(peer@),
    {
        let mut i: usize = 0;
        while i < self.peers.len()
            invariant
                i <= self.peers.len(),
                forall|j: int| 0 <= j < i ==> (#[trigger] self@.peers[j]) != peer@,
            decreases self.peers.len() - i,
        {
            if self.peers[i] == *peer {
                assert(self@.peers[i as int] == peer@);
                return true;
            }
            i += 1;
        }
        false
    }

    /// Adds the address of a peer, unless it is known already.
    pub fn add_peer(&mut self, peer: String)
        ensures
            final(self).wf() == old(self).wf(),
            final(self)@ == (ClusterView {
                peers: with_peer(old(self)@.peers, peer@),
                ..old(self)@
            }),
    {
        if !self.knows_peer(&peer) {
            self.peers.push(peer);
            assert(texts(self.peers@) =~= texts(old(self).peers@).push(peer@));
        }
    }

    /// The addresses of the peers, in the order in which they were added.
    pub fn get_peers(&self) -> (peers: Vec<String>)
        ensures
            texts(peers@) == self@.peers,
    {
        let mut peers: Vec<String> = Vec::new();
        let mut i: usize = 0;
        while i < self.peers.len()
            invariant
                i <= self.peers.len(),
                peers@.len() == i,
                forall|j: int| 0 <= j < i ==> (#[trigger] peers@[j])@ == self.peers@[j]@,
            decreases self.peers.len() - i,
        {
            peers.push(self.peers[i].clone());
            i += 1;
        }
        assert(texts(peers@) =~= texts(self.peers@));
        peers
    }

    /// A peer has been contacted. One that answered with its descriptor
    /// while the node is initializing asks to join; one that did not answer
    /// is skipped. Says whether it joined.
    pub fn handshake_outcome(&mut self, answer: Option<Node>) -> (joined: bool)
        requires
            old(self).wf(),
        ensures
            final(self).wf(),
            final(self)@ == after_handshake(old(self)@, answer),
            joined == (answer is Some && old(self)@.phase == Phase::Initializing && !old(
                self,
            )@.refuses(answer->Some_0@)),
    {
        match answer {
            Some(node) => {
                if self.phase == Phase::Initializing {
                    self.handle_node_joined(&node).is_ok()
                } else {
                    false
                }
            },
            None => false,
        }
    }

    /// The peers have been contacted: the node goes from initializing to
    /// active, however many of them answered. A node that is not
    /// initializing stays as it is, and the step fails.
    pub fn finish_initialize(&mut self) -> (done: ClusterResult<()>)
        ensures
            final(self).wf() == old(self).wf(),
            match done {
                Ok(_) => old(self)@.phase == Phase::Initializing && final(self)@ == (ClusterView {
                    phase: Phase::Active,
                    ..old(self)@
                }),
                Err(error) => old(self)@.phase != Phase::Initializing && final(self)@ == old(
                    self,
                )@ && error is InitializationError && error.detail()
                    == "The node is not initializing"@,
            },
    {
        if self.phase == Phase::Initializing {
            self.phase = Phase::Active;
            Ok(())
        } else {
            Err(ClusterError::InitializationError(String::from_str("The node is not initializing")))
        }
    }

    /// The sender of a message that came from `host` and `port`: the first
    /// member at that address, or else a placeholder with a fresh id and no
    /// API port.
    pub fn sender_of(&self, host: String, port: u16) -> (sender: Node)
        ensures
            sent_by(self@, sender@, host@, port),
    {
        match self.ring.find_by_address(host.as_str(), port) {
            Some(node) => node,
            None => Node::new(host, port, 0),
        }
    }

    /// What a frame holds, read as a node descriptor first and as a cluster
    /// message second. A node that introduces itself asks to join, and is
    /// answered with the local node's descriptor; a message goes to the
    /// processor with its sender; anything else is unreadable.
    pub fn accept_frame(
        &mut self,
        as_node: Option<Node>,
        as_message: Option<ClusterMessage>,
        peer_host: String,
        peer_port: u16,
    ) -> (inbound: Inbound)
        requires
            old(self).wf(),
        ensures
            final(self).wf(),
            final(self)@ == after_frame(old(self)@, as_node),
            reads_as(inbound, old(self)@, as_node, as_message, peer_host@, peer_port),
    {
        match as_node {
            Some(node) => {
                let _ = self.handle_node_joined(&node);
                Inbound::Handshake { reply: self.config.node.duplicate() }
            },
            None => match as_message {
                Some(message) => Inbound::Message {
                    sender: self.sender_of(peer_host, peer_port),
                    message,
                },
                None => Inbound::Unreadable,
            },
        }
    }
}

impl ClusterNode for FastbuCluster {
    open spec fn state(&self) -> ClusterView {
        self@
    }

    fn initialize(&mut self, listener: Result<(), String>) -> (contacts: ClusterResult<
        Vec<String>,
    >) {
        if self.phase != Phase::Uninitialized {
            return Err(
                ClusterError::InitializationError(
                    String::from_str("The node has been started already"),
                ),
            );
        }
        match listener {
            Err(reason) => {
                let mut text = String::from_str("Failed to start message listener on ");
                text.append(self.config.node.addr().as_str());
                text.append(": ");
                text.append(reason.as_str());
                return Err(ClusterError::InitializationError(text));
            },
            Ok(_) => {},
        }
        self.phase = Phase::Initializing;
        let count = self.config.cluster.seeds.len();
        assert(self@.seeds.len() == count);
        let mut i: usize = 0;
        while i < count
            invariant
                i <= count,
                count == old(self)@.seeds.len(),
                self.wf() == old(self).wf(),
                self@ == (ClusterView {
                    peers: with_peers(old(self)@.peers, old(self)@.seeds, i as nat),
                    phase: Phase::Initializing,
                    ..old(self)@
                }),
            decreases count - i,
        {
            assert(self@.seeds.len() == self.config.cluster.seeds@.len());
            let seed = self.config.cluster.seeds[i].clone();
            assert(seed@ == self@.seeds[i as int]);
            self.add_peer(seed);
            i += 1;
        }
        Ok(self.get_peers())
    }

    fn send_message(&self, node: &Node, message: ClusterMessage) -> (how: Delivery) {
        if self.config.node.same_identity(node) {
            Delivery::Local { sender: node.duplicate(), message }
        } else {
            Delivery::Remote { address: node.addr(), message }
        }
    }

    fn get_responsible_node(&self, key: &str) -> (owner: Option<Node>) {
        proof {
            law_cluster_names_an_owner(self@, key@);
        }
        self.ring.get(key)
    }

    fn get_nodes(&self) -> (nodes: Vec<Node>) {
        self.ring.nodes()
    }

    fn handle_node_joined(&mut self, node: &Node) -> (done: ClusterResult<()>) {
        if node.id == self.config.node.id && !self.config.node.same_identity(node) {
            proof {
                reveal_strlit("Node id is that of the local node: ");
            }
            let mut text = String::from_str("Node id is that of the local node: ");
            text.append(node.id.as_str());
            return Err(ClusterError::JoinError(text));
        }
        let ghost before = self@;
        self.ring.add(node.duplicate());
        proof {
            lemma_joined_wf(before, node@);
        }
        Ok(())
    }

    fn handle_node_left(&mut self, node: &Node) -> (done: ClusterResult<()>) {
        if self.config.node.same_identity(node) {
            return Ok(());
        }
        let ghost before = self@;
        self.ring.remove(node);
        proof {
            lemma_left_wf(before, node@);
        }
        Ok(())
    }
}

} // verus!
