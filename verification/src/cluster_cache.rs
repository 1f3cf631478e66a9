//! The cluster-aware cache: where a read or a write of a key is served.
//!
//! The owner of a key serves it. A write that the local node owns is stored
//! and told to every other member; a write that another node owns is sent
//! there, and stored locally only where that fails. A read that another node
//! owns is asked for there, with the local store and a direct fetch as the
//! ways out.

use vstd::prelude::*;
use crate::cache::FastbuCache;
use crate::cluster::{
    after_frame, after_handshake, delivers, reads_as, start_failure, texts, with_peer,
    ClusterNode, ClusterView, Delivery, FastbuCluster, Inbound, Phase,
};
use crate::error::{ClusterError, ClusterResult};
use crate::message::{CacheEntry, ClusterMessage, MessageView};
use crate::node::{address_text, Node, NodeView};
use crate::ring::{identity_of, key_hash, lemma_first_from_bounds, successor};
use crate::sequences::lemma_filter_next;
use crate::wire::{
    begins_with, fetch_key, fetch_request, fetch_response, found_head, parse_fetch_response,
    request_head, FetchReply,
};

verus! {

/// Where a key is served, as a mathematical value.
pub enum RouteView {
    /// The local node owns the key.
    Local,
    /// Nobody owns the key: the ring has no position.
    Unowned,
    /// Another node owns the key.
    Remote(NodeView),
}

/// Where `key` is served from the point of view of `cluster`.
pub open spec fn route(cluster: ClusterView, key: Seq<char>) -> RouteView {
    match cluster.ring.owner(key) {
        Some(owner) => if cluster.is_local(owner) {
            RouteView::Local
        } else {
            RouteView::Remote(owner)
        },
        None => RouteView::Unowned,
    }
}

/// The members other than the local node, in the order of the registry.
pub open spec fn others(cluster: ClusterView) -> Seq<NodeView> {
    cluster.ring.members.filter(|m: NodeView| !cluster.is_local(m))
}

/// A store after a message has been applied to it: an update stores, an
/// invalidation removes, nothing else changes anything.
pub open spec fn applied(store: Map<Seq<char>, Seq<char>>, message: MessageView) -> Map<
    Seq<char>,
    Seq<char>,
> {
    match message {
        MessageView::KeyUpdated { key, value } => store.insert(key, value),
        MessageView::KeyInvalidated { key } => store.remove(key),
        _ => store,
    }
}

/// What a store has under a key.
pub open spec fn lookup(store: Map<Seq<char>, Seq<char>>, key: Seq<char>) -> Option<Seq<char>> {
    if store.contains_key(key) {
        Some(store[key])
    } else {
        None
    }
}

/// The answer that a message asks for: a fetch request is answered with what
/// the store has, nothing else is answered.
pub open spec fn answer(store: Map<Seq<char>, Seq<char>>, message: MessageView) -> Option<
    MessageView,
> {
    match message {
        MessageView::FetchRequest { key } => Some(
            MessageView::FetchResponse { key, value: lookup(store, key) },
        ),
        _ => None,
    }
}

/// The mathematical value of a [`ClusterCache`].
#[verifier::ext_equal]
pub struct CacheView {
    /// What the local store holds.
    pub store: Map<Seq<char>, Seq<char>>,
    /// What the node knows of the cluster.
    pub cluster: ClusterView,
}

impl CacheView {
    /// The cache after the first step of a write: stored, unless another node
    /// owns the key.
    pub open spec fn written(self, key: Seq<char>, value: Seq<char>) -> CacheView {
        match route(self.cluster, key) {
            RouteView::Remote(_) => self,
            _ => CacheView { store: self.store.insert(key, value), ..self },
        }
    }

    /// The cache after a write could not be sent to the owner: stored locally.
    pub open spec fn fallen_back(self, key: Seq<char>, value: Seq<char>) -> CacheView {
        CacheView { store: self.store.insert(key, value), ..self }
    }

    /// The cache after a message has been processed.
    pub open spec fn received(self, message: MessageView) -> CacheView {
        CacheView { store: applied(self.store, message), ..self }
    }
}

/// The views of a list of nodes.
pub open spec fn node_views(nodes: Seq<Node>) -> Seq<NodeView> {
    nodes.map_values(|n: Node| n@)
}

/// The first step of a write.
#[derive(Debug, Clone)]
pub enum InsertStep {
    /// The value is in the local store. [`stored_outcome`] is told whether
    /// it could be persisted; where it could, `message` goes to each of
    /// `notify`, and a failure there does not fail the write.
    Stored { notify: Vec<Node>, message: ClusterMessage },
    /// Another node owns the key: `message` goes to `owner`, and
    /// [`ClusterCache::forward_outcome`] is told how that went.
    Forward { owner: Node, message: ClusterMessage },
}

/// The first step of a read.
#[derive(Debug, Clone)]
pub enum GetStep {
    /// The read is served from the local store.
    Done(Option<String>),
    /// Another node owns the key: `message` goes to `owner`, and
    /// [`ClusterCache::after_ask`] is told how that went.
    Ask { owner: Node, message: ClusterMessage },
}

/// The second step of a read that another node owns.
#[derive(Debug, Clone)]
pub enum FetchStep {
    /// The read is served from the local store.
    Done(Option<String>),
    /// The request goes as plain text to the owner's address, and
    /// [`after_direct_fetch`] reads the answer.
    DirectFetch { address: String, request: String },
}

/// What the processor does after it has applied a message.
#[derive(Debug, Clone)]
pub enum Reaction {
    /// Nothing more.
    Nothing,
    /// `message` goes to `to`.
    Reply { to: Node, message: ClusterMessage },
}

/// A cache that shares its keys with the other members of a cluster.
pub struct ClusterCache {
    local_cache: FastbuCache,
    cluster: FastbuCluster,
}

impl View for ClusterCache {
    type V = CacheView;

    closed spec fn view(&self) -> CacheView {
        CacheView { store: self.local_cache@, cluster: self.cluster@ }
    }
}

/// The value that the answer to a direct fetch brings: the text behind
/// `FOUND:`; nothing where no answer came, or another one.
pub fn after_direct_fetch(response: Option<String>) -> (value: Option<String>)
    ensures
        match response {
            Some(text) => match value {
                Some(v) => text@ == found_head() + v@,
                None => !begins_with(text@, found_head()),
            },
            None => value.is_none(),
        },
{
    match response {
        Some(text) => match parse_fetch_response(text.as_str()) {
            FetchReply::Found(v) => Some(v),
            FetchReply::NotFound => {
                proof {
                    crate::wire::law_fetch_answer_is_unambiguous(
                        Seq::<char>::empty(),
                        Seq::<char>::empty(),
                    );
                }
                None
            },
            FetchReply::Invalid => None,
        },
        None => None,
    }
}

/// The end of a write that was stored locally, once the store has tried to
/// persist it. A write that was persisted succeeds, and the members to tell
/// are handed on; a write that was not persisted fails with the reason, and
/// nobody is told.
pub fn stored_outcome(persisted: Result<(), String>, notify: Vec<Node>) -> (tell: ClusterResult<
    Vec<Node>,
>)
    ensures
        match persisted {
            Ok(_) => tell is Ok && tell->Ok_0 == notify,
            Err(reason) => tell is Err && tell->Err_0 is IoError && tell->Err_0.detail()
                == reason@,
        },
{
    match persisted {
        Ok(_) => Ok(notify),
        Err(reason) => Err(ClusterError::IoError(reason)),
    }
}

impl ClusterCache {
    /// The cache is in order: its store and its cluster are.
    pub closed spec fn wf(&self) -> bool {
        self.local_cache.wf() && self.cluster.wf()
    }

    /// A cache with an empty store for a member of `cluster`.
    pub fn new(cluster: FastbuCluster) -> (cache: ClusterCache)
        requires
            cluster.wf(),
        ensures
            cache.wf(),
            cache@.cluster == cluster@,
            cache@.store == Map::<Seq<char>, Seq<char>>::empty(),
    {
        ClusterCache { local_cache: FastbuCache::new(), cluster }
    }

    /// The local store.
    pub fn local_cache(&self) -> (store: &FastbuCache)
        ensures
            store@ == self@.store,
            self.wf() ==> store.wf(),
    {
        &self.local_cache
    }

    /// What the node knows of the cluster.
    pub fn cluster(&self) -> (cluster: &FastbuCluster)
        ensures
            cluster@ == self@.cluster,
            self.wf() ==> cluster.wf(),
    {
        &self.cluster
    }

    /// A node has joined the cluster.
    pub fn node_joined(&mut self, node: &Node)
        requires
            old(self).wf(),
        ensures
            final(self).wf(),
            final(self)@ == (CacheView { cluster: old(self)@.cluster.joined(node@), ..old(self)@ }),
    {
        let _ = self.cluster.handle_node_joined(node);
    }

    /// A node has left the cluster.
    pub fn node_left(&mut self, node: &Node)
        requires
            old(self).wf(),
        ensures
            final(self).wf(),
            final(self)@ == (CacheView { cluster: old(self)@.cluster.left(node@), ..old(self)@ }),
    {
        let _ = self.cluster.handle_node_left(node);
    }

    /// Adds the address of a peer, unless it is known already.
    pub fn add_peer(&mut self, peer: String)
        requires
            old(self).wf(),
        ensures
            final(self).wf(),
            final(self)@ == (CacheView {
                cluster: ClusterView {
                    peers: with_peer(old(self)@.cluster.peers, peer@),
                    ..old(self)@.cluster
                },
                ..old(self)@
            }),
    {
        self.cluster.add_peer(peer);
    }

    /// The node starts; see [`ClusterNode::initialize`].
    pub fn initialize(&mut self, listener: Result<(), String>) -> (contacts: ClusterResult<
        Vec<String>,
    >)
        requires
            old(self).wf(),
        ensures
            final(self).wf(),
            final(self)@.store == old(self)@.store,
            match start_failure(old(self)@.cluster, listener) {
                None => contacts is Ok && texts(contacts->Ok_0@) == final(self)@.cluster.peers
                    && final(self)@.cluster == old(self)@.cluster.started(),
                Some(why) => final(self)@ == old(self)@ && contacts is Err && contacts->Err_0
                    is InitializationError && contacts->Err_0.detail() == why,
            },
    {
        self.cluster.initialize(listener)
    }

    /// A peer has been contacted; see [`FastbuCluster::handshake_outcome`].
    pub fn handshake_outcome(&mut self, answer: Option<Node>) -> (joined: bool)
        requires
            old(self).wf(),
        ensures
            final(self).wf(),
            joined == (answer is Some && old(self)@.cluster.phase == Phase::Initializing && !old(
                self,
            )@.cluster.refuses(answer->Some_0@)),
            final(self)@ == (CacheView {
                cluster: after_handshake(old(self)@.cluster, answer),
                ..old(self)@
            }),
    {
        self.cluster.handshake_outcome(answer)
    }

    /// The peers have been contacted; see
    /// [`FastbuCluster::finish_initialize`].
    pub fn finish_initialize(&mut self) -> (done: ClusterResult<()>)
        requires
            old(self).wf(),
        ensures
            final(self).wf(),
            match done {
                Ok(_) => old(self)@.cluster.phase == Phase::Initializing && final(self)@ == (
                CacheView {
                    cluster: ClusterView { phase: Phase::Active, ..old(self)@.cluster },
                    ..old(self)@
                }),
                Err(error) => old(self)@.cluster.phase != Phase::Initializing && final(self)@
                    == old(self)@ && error is InitializationError && error.detail()
                    == "The node is not initializing"@,
            },
    {
        self.cluster.finish_initialize()
    }

    /// What a frame holds; see [`FastbuCluster::accept_frame`].
    pub fn accept_frame(
        &mut self,
        as_node: Option<Node>,
        as_message: Option<ClusterMessage>,
        peer_host: String,
        peer_port: u16,
    ) -> (inbound: Inbound)
        requires
            old(self).wf(),
        ensures
            final(self).wf(),
            final(self)@ == (CacheView {
                cluster: after_frame(old(self)@.cluster, as_node),
                ..old(self)@
            }),
            reads_as(
                inbound,
                old(self)@.cluster,
                as_node,
                as_message,
                peer_host@,
                peer_port,
            ),
    {
        self.cluster.accept_frame(as_node, as_message, peer_host, peer_port)
    }

    /// What is to be done with a message for `node`; see
    /// [`ClusterNode::send_message`].
    pub fn send_message(&self, node: &Node, message: ClusterMessage) -> (how: Delivery)
        ensures
            delivers(how, self@.cluster, node@, message@),
    {
        self.cluster.send_message(node, message)
    }

    /// The members other than the local node.
    fn other_nodes(&self) -> (nodes: Vec<Node>)
        ensures
            node_views(nodes@) == others(self@.cluster),
    {
        let all = self.cluster.get_nodes();
        let ghost members = self@.cluster.ring.members;
        let ghost cluster = self@.cluster;
        let ghost apart = |m: NodeView| !cluster.is_local(m);
        let mut nodes: Vec<Node> = Vec::new();
        let mut i: usize = 0;
        proof {
            assert(members.subrange(0, 0) =~= Seq::<NodeView>::empty());
            reveal(Seq::filter);
            assert(node_views(nodes@) =~= members.subrange(0, 0).filter(apart));
        }
        while i < all.len()
            invariant
                i <= all.len(),
                cluster == self@.cluster,
                members == cluster.ring.members,
                node_views(all@) == members,
                apart == |m: NodeView| !cluster.is_local(m),
                node_views(nodes@) == members.subrange(0, i as int).filter(apart),
            decreases all.len() - i,
        {
            proof {
                lemma_filter_next(members, i as int, apart);
                assert(node_views(all@)[i as int] == all@[i as int]@);
            }
            if !self.cluster.is_local(&all[i]) {
                let ghost before = node_views(nodes@);
                nodes.push(all[i].duplicate());
                assert(node_views(nodes@) =~= before.push(members[i as int]));
            }
            i += 1;
        }
        assert(members.subrange(0, all.len() as int) =~= members);
        nodes
    }

    /// The first step of a write. A key that the local node owns is stored
    /// and every other member is to be told; a key that nobody owns is stored
    /// and nobody is told; a key that another node owns is not stored but
    /// sent to its owner.
    pub fn insert(&mut self, key: String, value: String) -> (step: InsertStep)
        requires
            old(self).wf(),
        ensures
            final(self).wf(),
            final(self)@ == old(self)@.written(key@, value@),
            match route(old(self)@.cluster, key@) {
                RouteView::Local => {
                    &&& step matches InsertStep::Stored { notify, message }
                    &&& node_views(notify@) == others(old(self)@.cluster)
                    &&& message@ == (MessageView::KeyUpdated { key: key@, value: value@ })
                },
                RouteView::Unowned => {
                    &&& step matches InsertStep::Stored { notify, message }
                    &&& notify@.len() == 0
                    &&& message@ == (MessageView::KeyUpdated { key: key@, value: value@ })
                },
                RouteView::Remote(node) => {
                    &&& step matches InsertStep::Forward { owner, message }
                    &&& owner@ == node
                    &&& message@ == (MessageView::KeyUpdated { key: key@, value: value@ })
                },
            },
    {
        let message = ClusterMessage::KeyUpdated {
            key: key.clone(),
            value: CacheEntry::new(value.clone()),
        };
        match self.cluster.get_responsible_node(key.as_str()) {
            Some(owner) => {
                if self.cluster.is_local(&owner) {
                    let notify = self.other_nodes();
                    self.local_cache.insert(key, value);
                    InsertStep::Stored { notify, message }
                } else {
                    InsertStep::Forward { owner, message }
                }
            },
            None => {
                self.local_cache.insert(key, value);
                InsertStep::Stored { notify: Vec::new(), message }
            },
        }
    }

    /// The end of a write that went to its owner. Where the message was
    /// delivered, nothing is stored here; where it was not, the value is
    /// stored locally, so that it is not lost. The write succeeds either way.
    pub fn forward_outcome(&mut self, key: String, value: String, sent: bool) -> (done:
        ClusterResult<()>)
        requires
            old(self).wf(),
        ensures
            final(self).wf(),
            done is Ok,
            final(self)@ == if sent {
                old(self)@
            } else {
                old(self)@.fallen_back(key@, value@)
            },
    {
        if !sent {
            self.local_cache.insert(key, value);
        }
        Ok(())
    }

    /// The first step of a read. A key that the local node owns, or nobody,
    /// is read from the local store; for a key that another node owns, a
    /// fetch request goes to its owner.
    pub fn get(&self, key: &str) -> (step: GetStep)
        requires
            self.wf(),
        ensures
            match route(self@.cluster, key@) {
                RouteView::Remote(node) => {
                    &&& step matches GetStep::Ask { owner, message }
                    &&& owner@ == node
                    &&& message@ == (MessageView::FetchRequest { key: key@ })
                },
                _ => {
                    &&& step matches GetStep::Done(value)
                    &&& option_view(value) == lookup(self@.store, key@)
                },
            },
    {
        match self.cluster.get_responsible_node(key) {
            Some(owner) => {
                if self.cluster.is_local(&owner) {
                    GetStep::Done(self.local_cache.get(key))
                } else {
                    GetStep::Ask {
                        owner,
                        message: ClusterMessage::FetchRequest { key: key.to_owned() },
                    }
                }
            },
            None => GetStep::Done(self.local_cache.get(key)),
        }
    }

    /// The second step of a read that another node owns. Where the fetch
    /// request could not be sent, the local store answers. Where it was sent,
    /// the local store answers if it has the key; else the owner is asked
    /// directly, in plain text.
    pub fn after_ask(&self, key: &str, owner: &Node, sent: bool) -> (step: FetchStep)
        requires
            self.wf(),
        ensures
            if !sent || self@.store.contains_key(key@) {
                &&& step matches FetchStep::Done(value)
                &&& option_view(value) == lookup(self@.store, key@)
            } else {
                &&& step matches FetchStep::DirectFetch { address, request }
                &&& address@ == address_text(owner@.host, owner@.port)
                &&& request@ == request_head() + key@
            },
    {
        let local = self.local_cache.get(key);
        if !sent || local.is_some() {
            FetchStep::Done(local)
        } else {
            FetchStep::DirectFetch { address: owner.addr(), request: fetch_request(key) }
        }
    }

    /// The answer to a direct fetch that arrived here: what the local store
    /// has under the key. No answer where the request is none.
    pub fn serve_direct_fetch(&self, request: &str) -> (response: Option<String>)
        requires
            self.wf(),
        ensures
            match response {
                Some(text) => exists|key: Seq<char>|
                    request@ == request_head() + key && text@ == crate::wire::answered(
                        lookup(self@.store, key),
                    ),
                None => !begins_with(request@, request_head()),
            },
    {
        match fetch_key(request) {
            Some(key) => {
                let value = self.local_cache.get(key.as_str());
                Some(fetch_response(value))
            },
            None => None,
        }
    }

    /// Processes a message from `sender`: an update is stored, an
    /// invalidation removes the key, a fetch request is answered to the
    /// sender with what the store has, and a ping, a pong or a fetch response
    /// changes nothing.
    pub fn process_message(&mut self, sender: &Node, message: ClusterMessage) -> (reaction:
        Reaction)
        requires
            old(self).wf(),
        ensures
            final(self).wf(),
            final(self)@ == old(self)@.received(message@),
            match answer(old(self)@.store, message@) {
                Some(reply) => {
                    &&& reaction matches Reaction::Reply { to, message: sent }
                    &&& to@ == sender@
                    &&& sent@ == reply
                },
                None => reaction is Nothing,
            },
    {
        match message {
            ClusterMessage::Ping => Reaction::Nothing,
            ClusterMessage::Pong => Reaction::Nothing,
            ClusterMessage::FetchRequest { key } => {
                let value = match self.local_cache.get(key.as_str()) {
                    Some(v) => Some(CacheEntry::new(v)),
                    None => None,
                };
                Reaction::Reply {
                    to: sender.duplicate(),
                    message: ClusterMessage::FetchResponse { key, value },
                }
            },
            ClusterMessage::FetchResponse { key, value } => Reaction::Nothing,
            ClusterMessage::KeyUpdated { key, value } => {
                self.local_cache.insert(key, value.value);
                Reaction::Nothing
            },
            ClusterMessage::KeyInvalidated { key } => {
                self.local_cache.remove(key.as_str());
                Reaction::Nothing
            },
        }
    }
}

/// The view of a value that may be missing.
pub open spec fn option_view(value: Option<String>) -> Option<Seq<char>> {
    match value {
        Some(v) => Some(v@),
        None => None,
    }
}

/// In a cluster that is in order every key has an owner: a read or a write
/// is served locally or by another member, never by nobody.
pub proof fn law_every_route_has_an_owner(cluster: ClusterView, key: Seq<char>)
    requires
        cluster.wf(),
    ensures
        !(route(cluster, key) is Unowned),
        route(cluster, key) matches RouteView::Remote(owner) ==> cluster.ring.members.contains(
            owner,
        ),
{
    crate::cluster::law_cluster_names_an_owner(cluster, key);
}

/// In a cluster of one node no key is served elsewhere, and what was written
/// under a key is what is read under it.
pub proof fn law_single_node_reads_its_writes(
    cache: CacheView,
    key: Seq<char>,
    value: Seq<char>,
)
    requires
        cache.cluster.wf(),
        cache.cluster.ring.members.len() == 1,
    ensures
        !(route(cache.cluster, key) is Remote),
        cache.written(key, value).store == cache.store.insert(key, value),
        !(route(cache.written(key, value).cluster, key) is Remote),
        lookup(cache.written(key, value).store, key) == Some(value),
{
    let ring = cache.cluster.ring;
    if ring.points.len() > 0 {
        lemma_first_from_bounds(ring.points, key_hash(key), 0);
        let at = successor(ring.points, key_hash(key));
        let point = ring.points[if at == ring.points.len() {
            0
        } else {
            at
        }];
        assert(ring.has_member(identity_of(point)));
        let owner = ring.index_of(identity_of(point));
        assert(owner == 0);
        let local = choose|i: int|
            0 <= i < ring.members.len() && (#[trigger] ring.members[i]).identity()
                == cache.cluster.local.identity();
        assert(local == 0);
    }
}

/// A write of a key that another node owns leaves the writer as it was, and
/// the owner that processes the update which the writer sends holds the value
/// under the key.
pub proof fn law_forwarded_write_reaches_owner(
    writer: CacheView,
    owner: CacheView,
    key: Seq<char>,
    value: Seq<char>,
)
    requires
        route(writer.cluster, key) is Remote,
    ensures
        writer.written(key, value) == writer,
        lookup(owner.received(MessageView::KeyUpdated { key, value }).store, key) == Some(value),
        owner.received(MessageView::KeyUpdated { key, value }).cluster == owner.cluster,
{
}

/// A node that processes the invalidation of a key holds nothing under it
/// afterwards, and under every other key what it held before.
pub proof fn law_invalidation_removes(cache: CacheView, key: Seq<char>, other: Seq<char>)
    ensures
        lookup(cache.received(MessageView::KeyInvalidated { key }).store, key).is_none(),
        other != key ==> lookup(cache.received(MessageView::KeyInvalidated { key }).store, other)
            == lookup(cache.store, other),
{
}

/// A write that could not be sent to its owner is kept by the writer: the
/// value is read back from the local store.
pub proof fn law_failed_forward_keeps_value(cache: CacheView, key: Seq<char>, value: Seq<char>)
    ensures
        lookup(cache.fallen_back(key, value).store, key) == Some(value),
        cache.fallen_back(key, value).cluster == cache.cluster,
{
}

} // verus!
