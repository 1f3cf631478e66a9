//! Identity and addressing of a cluster member.

use vstd::prelude::*;
use vstd::std_specs::cmp::PartialEqSpecImpl;
use vstd::string::StringExecFns;

verus! {

/// What tells one cluster member from another: id, host, cluster port, API port.
pub type NodeIdentity = (Seq<char>, Seq<char>, u16, u16);

/// The mathematical value of a [`Node`].
#[verifier::ext_equal]
pub struct NodeView {
    pub id: Seq<char>,
    pub host: Seq<char>,
    pub port: u16,
    pub api_port: u16,
    pub metadata: Seq<(Seq<char>, Seq<char>)>,
}

impl NodeView {
    /// The identity of the node: `(id, host, port, api_port)`.
    pub open spec fn identity(self) -> NodeIdentity {
        (self.id, self.host, self.port, self.api_port)
    }

    /// The metadata is a map: no key occurs twice.
    pub open spec fn has_distinct_metadata_keys(self) -> bool {
        forall|i: int, j: int|
            0 <= i < j < self.metadata.len() ==> (#[trigger] self.metadata[i]).0 != (
            #[trigger] self.metadata[j]).0
    }

    /// Whether the metadata has an entry for `key`.
    pub open spec fn has_metadata(self, key: Seq<char>) -> bool {
        exists|i: int| 0 <= i < self.metadata.len() && (#[trigger] self.metadata[i]).0 == key
    }
}

/// A member of the cluster.
#[derive(Debug, Clone)]
pub struct Node {
    /// Unique identifier of the node.
    pub id: String,
    /// Host name or IP address of the node.
    pub host: String,
    /// Port for node-to-node communication.
    pub port: u16,
    /// The HTTP API's port.
    pub api_port: u16,
    /// Free-form metadata, a map from keys to values kept as a list in which
    /// no key occurs twice; it never takes part in equality or ring placement.
    pub metadata: Vec<(String, String)>,
}

/// The view of a metadata list: each entry by the characters of its key and value.
pub open spec fn metadata_view(entries: Seq<(String, String)>) -> Seq<(Seq<char>, Seq<char>)> {
    entries.map_values(|e: (String, String)| (e.0@, e.1@))
}

impl View for Node {
    type V = NodeView;

    open spec fn view(&self) -> NodeView {
        NodeView {
            id: self.id@,
            host: self.host@,
            port: self.port,
            api_port: self.api_port,
            metadata: metadata_view(self.metadata@),
        }
    }
}

/// The decimal digit `d` as a character.
pub open spec fn digit(d: nat) -> char {
    seq!['0', '1', '2', '3', '4', '5', '6', '7', '8', '9'][d as int]
}

/// A number in decimal, without leading zeros.
pub open spec fn decimal(n: nat) -> Seq<char>
    decreases n,
{
    if n < 10 {
        seq![digit(n)]
    } else {
        decimal(n / 10).push(digit(n % 10))
    }
}

/// A socket address as text: the host, a colon, the port in decimal.
pub open spec fn address_text(host: Seq<char>, port: u16) -> Seq<char> {
    host + seq![':'] + decimal(port as nat)
}

/// One decimal digit as text.
fn digit_text(d: u16) -> (text: &'static str)
    requires
        d < 10,
    ensures
        text@ == seq![digit(d as nat)],
{
    proof {
        reveal_strlit("0");
        reveal_strlit("1");
        reveal_strlit("2");
        reveal_strlit("3");
        reveal_strlit("4");
        reveal_strlit("5");
        reveal_strlit("6");
        reveal_strlit("7");
        reveal_strlit("8");
        reveal_strlit("9");
    }
    let text = if d == 0 {
        "0"
    } else if d == 1 {
        "1"
    } else if d == 2 {
        "2"
    } else if d == 3 {
        "3"
    } else if d == 4 {
        "4"
    } else if d == 5 {
        "5"
    } else if d == 6 {
        "6"
    } else if d == 7 {
        "7"
    } else if d == 8 {
        "8"
    } else {
        "9"
    };
    assert(text@ =~= seq![digit(d as nat)]);
    text
}

/// Appends a port number in decimal.
fn append_port(text: &mut String, port: u16)
    ensures
        final(text)@ == old(text)@ + decimal(port as nat),
{
    let ghost start = text@;
    proof {
        reveal_with_fuel(decimal, 6);
    }
    if port >= 10000 {
        text.append(digit_text(port / 10000));
    }
    if port >= 1000 {
        text.append(digit_text(port / 1000 % 10));
    }
    if port >= 100 {
        text.append(digit_text(port / 100 % 10));
    }
    if port >= 10 {
        text.append(digit_text(port / 10 % 10));
    }
    text.append(digit_text(port % 10));
    assert(text@ =~= start + decimal(port as nat));
}

/// `Uuid::new_v4` in its usual text form: a random id of 36 characters.
#[verifier::external_body]
fn fresh_id() -> (id: String)
    ensures
        id@.len() == 36,
{
    uuid::Uuid::new_v4().to_string()
}

impl PartialEq for Node {
    /// Two nodes are equal when they are the same member; metadata is not
    /// compared.
    fn eq(&self, other: &Node) -> (same: bool) {
        self.id == other.id && self.host == other.host && self.port == other.port
            && self.api_port == other.api_port
    }
}

impl Eq for Node {

}

impl PartialEqSpecImpl for Node {
    open spec fn obeys_eq_spec() -> bool {
        true
    }

    open spec fn eq_spec(&self, other: &Node) -> bool {
        self.id@ == other.id@ && self.host@ == other.host@ && self.port == other.port
            && self.api_port == other.api_port
    }
}

impl Node {
    /// The identity of this node: `(id, host, port, api_port)`.
    pub open spec fn identity(&self) -> NodeIdentity {
        self@.identity()
    }

    /// The metadata is a map: no key occurs twice.
    pub open spec fn has_distinct_metadata_keys(&self) -> bool {
        self@.has_distinct_metadata_keys()
    }

    /// A node with the given id and no metadata.
    pub fn with_id(id: String, host: String, port: u16, api_port: u16) -> (node: Node)
        ensures
            node.id == id,
            node.host == host,
            node.port == port,
            node.api_port == api_port,
            node.metadata@.len() == 0,
            node@.metadata.len() == 0,
            node.has_distinct_metadata_keys(),
    {
        Node { id, host, port, api_port, metadata: Vec::new() }
    }

    /// A node with a fresh random id and no metadata.
    pub fn new(host: String, port: u16, api_port: u16) -> (node: Node)
        ensures
            node.id@.len() == 36,
            node.host == host,
            node.port == port,
            node.api_port == api_port,
            node@.metadata.len() == 0,
            node.has_distinct_metadata_keys(),
    {
        Node { id: fresh_id(), host, port, api_port, metadata: Vec::new() }
    }

    /// The address for node-to-node communication, as `host:port`.
    pub fn addr(&self) -> (address: String)
        ensures
            address@ == address_text(self.host@, self.port),
    {
        proof {
            reveal_strlit(":");
        }
        let mut address = self.host.clone();
        address.append(":");
        append_port(&mut address, self.port);
        assert(address@ =~= address_text(self.host@, self.port));
        address
    }

    /// The address of the HTTP API, as `host:api_port`.
    pub fn api_addr(&self) -> (address: String)
        ensures
            address@ == address_text(self.host@, self.api_port),
    {
        proof {
            reveal_strlit(":");
        }
        let mut address = self.host.clone();
        address.append(":");
        append_port(&mut address, self.api_port);
        assert(address@ =~= address_text(self.host@, self.api_port));
        address
    }

    /// Sets the metadata under `key`: the value takes the place of the one
    /// that was there, or is added where there was none. No key comes to
    /// stand twice.
    pub fn set_metadata(&mut self, key: String, value: String)
        requires
            old(self).has_distinct_metadata_keys(),
        ensures
            final(self).has_distinct_metadata_keys(),
            final(self)@.identity() == old(self)@.identity(),
            final(self)@.has_metadata(key@),
            forall|i: int|
                0 <= i < final(self)@.metadata.len() ==> (#[trigger] final(self)@.metadata[i]).0
                    == key@ ==> final(self)@.metadata[i].1 == value@,
            forall|i: int|
                0 <= i < old(self)@.metadata.len() && (#[trigger] old(self)@.metadata[i]).0
                    != key@ ==> final(self)@.metadata.contains(old(self)@.metadata[i]),
            forall|i: int|
                0 <= i < final(self)@.metadata.len() && (#[trigger] final(self)@.metadata[i]).0
                    != key@ ==> old(self)@.metadata.contains(final(self)@.metadata[i]),
    {
        let ghost before = self@.metadata;
        let mut i: usize = 0;
        while i < self.metadata.len()
            invariant
                i <= self.metadata.len(),
                *self == *old(self),
                before == self@.metadata,
                old(self).has_distinct_metadata_keys(),
                forall|j: int| 0 <= j < i ==> (#[trigger] before[j]).0 != key@,
            decreases self.metadata.len() - i,
        {
            if self.metadata[i].0 == key {
                self.metadata.set(i, (key, value));
                proof {
                    let after = self@.metadata;
                    assert(after =~= before.update(i as int, (key@, value@)));
                    assert(after[i as int].0 == key@);
                    assert forall|k: int|
                        0 <= k < before.len() && (#[trigger] before[k]).0
                            != key@ implies after.contains(before[k]) by {
                        assert(after[k] == before[k]);
                    }
                    assert forall|k: int|
                        0 <= k < after.len() && (#[trigger] after[k]).0
                            != key@ implies before.contains(after[k]) by {
                        assert(before[k] == after[k]);
                    }
                    assert forall|a: int, b: int| 0 <= a < b < after.len() implies (
                    #[trigger] after[a]).0 != (#[trigger] after[b]).0 by {
                        assert(before[a].0 != before[b].0);
                    }
                }
                return ;
            }
            assert(before[i as int].0 == self.metadata@[i as int].0@);
            i += 1;
        }
        self.metadata.push((key, value));
        proof {
            let after = self@.metadata;
            assert(after =~= before.push((key@, value@)));
            assert(after[before.len() as int].0 == key@);
            assert forall|k: int|
                0 <= k < before.len() && (#[trigger] before[k]).0 != key@ implies after.contains(
                before[k],
            ) by {
                assert(after[k] == before[k]);
            }
            assert forall|k: int|
                0 <= k < after.len() && (#[trigger] after[k]).0 != key@ implies before.contains(
                after[k],
            ) by {
                assert(before[k] == after[k]);
            }
            assert forall|a: int, b: int| 0 <= a < b < after.len() implies (#[trigger] after[a]).0
                != (#[trigger] after[b]).0 by {
                if b < before.len() {
                    assert(before[a].0 != before[b].0);
                }
            }
        }
    }

    /// A copy of this node, metadata included.
    pub fn duplicate(&self) -> (copy: Node)
        ensures
            copy@ == self@,
            copy.has_distinct_metadata_keys() == self.has_distinct_metadata_keys(),
    {
        let mut metadata: Vec<(String, String)> = Vec::new();
        let mut i: usize = 0;
        while i < self.metadata.len()
            invariant
                i <= self.metadata.len(),
                metadata@.len() == i,
                forall|j: int|
                    0 <= j < i ==> (#[trigger] metadata@[j]).0@ == self.metadata@[j].0@
                        && metadata@[j].1@ == self.metadata@[j].1@,
            decreases self.metadata.len() - i,
        {
            let entry = &self.metadata[i];
            metadata.push((entry.0.clone(), entry.1.clone()));
            i += 1;
        }
        assert(metadata_view(metadata@) =~= metadata_view(self.metadata@));
        Node {
            id: self.id.clone(),
            host: self.host.clone(),
            port: self.port,
            api_port: self.api_port,
            metadata,
        }
    }

    /// Whether two nodes are the same member: metadata is not compared.
    pub fn same_identity(&self, other: &Node) -> (same: bool)
        ensures
            same == (self.identity() == other.identity()),
    {
        self.id == other.id && self.host == other.host && self.port == other.port
            && self.api_port == other.api_port
    }
}

} // verus!
