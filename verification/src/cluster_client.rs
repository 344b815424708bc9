//! The client of a cluster: a fixed list of nodes, each owning the keys that
//! hash to it.
//!
//! A key goes to the node whose index is the 32-bit Murmur3 hash of the key,
//! with seed 0, modulo the number of nodes. The client keeps, for each node,
//! whether a connection to it is open; the connections themselves belong to
//! whoever does the sending. A connection is opened when the first request
//! for its node comes, and used again for every later one. One client is
//! meant for one owner: it is changed through `&mut self` alone.

use crate::request::{
    address_of, address_text, get_line, get_line_text, set_line, set_line_text,
};
use vstd::prelude::*;
use vstd::string::*;

verus! {

/// `std::io::Error`, the error of a reader. Nothing of its value is visible
/// here.
#[verifier::external_type_specification]
#[verifier::external_body]
pub struct ExIoError(std::io::Error);

/// The 32-bit Murmur3 hash of `bytes` with the seed `seed`, as
/// `murmur3::murmur3_32` computes it.
pub uninterp spec fn murmur3_32_of(bytes: Seq<u8>, seed: u32) -> u32;

/// `murmur3::murmur3_32` on a cursor over the bytes of `key`: it returns a
/// hash, and the hash depends on the bytes and the seed alone. The function
/// fails only where its reader does, and a cursor over bytes in memory never
/// does. It counts the bytes in 32 bits, so longer keys are left out.
#[verifier::external_body]
fn murmur3_32_hash(key: &str, seed: u32) -> (r: Result<u32, std::io::Error>)
    requires
        key.spec_bytes().len() <= u32::MAX,
    ensures
        r is Ok,
        r matches Ok(h) ==> h == murmur3_32_of(key.spec_bytes(), seed),
{
    murmur3::murmur3_32(&mut std::io::Cursor::new(key), seed)
}

/// The seed of the hash that routes keys.
pub const ROUTE_SEED: u32 = 0;

/// The index of the node, of `shards` nodes, that owns the keys with the
/// hash `hash`.
pub open spec fn shard_of(hash: u32, shards: nat) -> nat {
    hash as nat % shards
}

/// Why a key could not be routed.
#[derive(Debug, PartialEq, Eq)]
pub enum RouteError {
    /// The key is longer than the hash can count.
    KeyTooLong,
}

/// What to do for a request: where to send it, and what to send.
#[derive(Debug, PartialEq, Eq)]
pub struct Request {
    /// The index of the node that owns the key.
    pub shard: usize,
    /// Whether a connection to that node has to be opened first.
    pub connect: bool,
    /// The line to send.
    pub line: String,
}

/// The index of the node, of `shards` nodes, that owns the keys with the
/// hash `hash`.
pub fn shard_for_hash(hash: u32, shards: usize) -> (index: usize)
    requires
        shards > 0,
    ensures
        index == shard_of(hash, shards as nat),
        index < shards,
{
    hash as usize % shards
}

/// The client of a cluster.
pub struct ClusterClient {
    links: Vec<bool>,
    nodes: Vec<(String, u16)>,
}

impl ClusterClient {
    /// The nodes of the cluster in order, each as host and port.
    pub closed spec fn shards(&self) -> Seq<(Seq<char>, u16)> {
        Seq::new(self.nodes.len() as nat, |i: int| (self.nodes[i].0@, self.nodes[i].1))
    }

    /// For each node, whether a connection to it is open.
    pub closed spec fn open(&self) -> Seq<bool> {
        self.links@
    }

    /// The client keeps one connection state for each node.
    pub closed spec fn wf(&self) -> bool {
        self.links.len() == self.nodes.len()
    }

    /// A sound client keeps one connection state for each node.
    pub proof fn lemma_one_state_per_node(&self)
        requires
            self.wf(),
        ensures
            self.open().len() == self.shards().len(),
    {
    }

    /// The index of the node that owns the key with the bytes `key`.
    pub open spec fn route_of(&self, key: Seq<u8>) -> nat {
        shard_of(murmur3_32_of(key, ROUTE_SEED), self.shards().len())
    }

    /// A client of the nodes of `cluster`, with no connection open.
    pub fn new(cluster: &[(&str, u16)]) -> (client: Self)
        ensures
            client.wf(),
            client.shards() == Seq::new(
                cluster@.len(),
                |i: int| (cluster@[i].0@, cluster@[i].1),
            ),
            client.open() == Seq::new(cluster@.len(), |i: int| false),
    {
        let mut links: Vec<bool> = Vec::new();
        let mut nodes: Vec<(String, u16)> = Vec::new();
        let n = cluster.len();
        let mut i: usize = 0;
        while i < n
            invariant
                i <= n,
                n == cluster@.len(),
                links.len() == i,
                nodes.len() == i,
                forall|j: int| 0 <= j < i ==> !(#[trigger] links[j]),
                forall|j: int|
                    0 <= j < i ==> (#[trigger] nodes[j]).0@ == cluster@[j].0@ && nodes[j].1
                        == cluster@[j].1,
            decreases n - i,
        {
            let node = cluster[i];
            nodes.push((String::from_str(node.0), node.1));
            links.push(false);
            i += 1;
        }
        let client = Self { links, nodes };
        proof {
            assert(client.shards() =~= Seq::new(
                cluster@.len(),
                |i: int| (cluster@[i].0@, cluster@[i].1),
            ));
            assert(client.open() =~= Seq::new(cluster@.len(), |i: int| false));
        }
        client
    }

    /// The index of the node that owns `key`: the hash of the key modulo the
    /// number of nodes. Every key is routed but one that is longer than the
    /// hash can count.
    pub fn route(&self, key: &str) -> (r: Result<usize, RouteError>)
        requires
            self.shards().len() > 0,
        ensures
            key.spec_bytes().len() <= u32::MAX ==> r == Ok::<usize, RouteError>(
                self.route_of(key.spec_bytes()) as usize,
            ),
            key.spec_bytes().len() > u32::MAX ==> r == Err::<usize, RouteError>(
                RouteError::KeyTooLong,
            ),
            r matches Ok(index) ==> index < self.shards().len(),
    {
        if key.as_bytes().len() > u32::MAX as usize {
            return Err(RouteError::KeyTooLong);
        }
        let hash = murmur3_32_hash(key, ROUTE_SEED).unwrap();
        Ok(shard_for_hash(hash, self.nodes.len()))
    }

    /// Whether a request for the node `shard` has to open a connection
    /// first: it has to where none is open.
    pub fn connection_for(&self, shard: usize) -> (connect: bool)
        requires
            self.wf(),
            shard < self.shards().len(),
        ensures
            connect == !self.open()[shard as int],
    {
        !self.links[shard]
    }

    /// Records that a connection to the node `shard` was opened. A
    /// connection that could not be opened is not recorded, so the next
    /// request for the node tries again.
    pub fn connected(&mut self, shard: usize)
        requires
            old(self).wf(),
            shard < old(self).shards().len(),
        ensures
            final(self).wf(),
            final(self).shards() == old(self).shards(),
            final(self).open() == old(self).open().update(shard as int, true),
    {
        self.links[shard] = true;
        assert(self.shards() =~= old(self).shards());
    }

    /// The address of the node `shard`: `<host>:<port>`.
    pub fn address(&self, shard: usize) -> (address: String)
        requires
            shard < self.shards().len(),
        ensures
            address@ == address_text(self.shards()[shard as int].0, self.shards()[shard as int].1),
    {
        address_of(self.nodes[shard].0.as_str(), self.nodes[shard].1)
    }

    /// What to do for a request with the line `line` about `key`: the node
    /// of the key, and whether a connection to it has to be opened. There is
    /// a request for every key but one that is too long to be routed.
    fn get_stream(&self, key: &str, line: String) -> (r: Result<Request, RouteError>)
        requires
            self.wf(),
            self.shards().len() > 0,
        ensures
            match r {
                Ok(request) => {
                    &&& key.spec_bytes().len() <= u32::MAX
                    &&& request.shard == self.route_of(key.spec_bytes())
                    &&& request.shard < self.shards().len()
                    &&& request.connect == !self.open()[request.shard as int]
                    &&& request.line == line
                },
                Err(e) => key.spec_bytes().len() > u32::MAX && e == RouteError::KeyTooLong,
            },
    {
        match self.route(key) {
            Ok(shard) => Ok(Request { shard, connect: self.connection_for(shard), line }),
            Err(e) => Err(e),
        }
    }

    /// What to do to set `key` to `value`, with `flags` and the expiry time
    /// `exp_time`: one request, for the node of the key. There is a request
    /// for every key but one that is too long to be routed.
    pub fn set(&self, key: &str, flags: u32, exp_time: u32, value: &str) -> (r: Result<
        Request,
        RouteError,
    >)
        requires
            self.wf(),
            self.shards().len() > 0,
        ensures
            match r {
                Ok(request) => {
                    &&& key.spec_bytes().len() <= u32::MAX
                    &&& request.shard == self.route_of(key.spec_bytes())
                    &&& request.shard < self.shards().len()
                    &&& request.connect == !self.open()[request.shard as int]
                    &&& request.line@ == set_line_text(key@, flags, exp_time, value@)
                },
                Err(e) => key.spec_bytes().len() > u32::MAX && e == RouteError::KeyTooLong,
            },
    {
        self.get_stream(key, set_line(key, flags, exp_time, value))
    }

    /// What to do to get the value of `key`: one request, for the node of the
    /// key. There is a request for every key but one that is too long to be
    /// routed.
    pub fn get(&self, key: &str) -> (r: Result<Request, RouteError>)
        requires
            self.wf(),
            self.shards().len() > 0,
        ensures
            match r {
                Ok(request) => {
                    &&& key.spec_bytes().len() <= u32::MAX
                    &&& request.shard == self.route_of(key.spec_bytes())
                    &&& request.shard < self.shards().len()
                    &&& request.connect == !self.open()[request.shard as int]
                    &&& request.line@ == get_line_text(key@)
                },
                Err(e) => key.spec_bytes().len() > u32::MAX && e == RouteError::KeyTooLong,
            },
    {
        self.get_stream(key, get_line(key))
    }

    /// Two clients of clusters of the same size route every key to the same
    /// node: the route of a key depends on the key and on the number of
    /// nodes, and on nothing else.
    pub proof fn lemma_route_agrees(&self, other: &Self, key: Seq<u8>)
        requires
            self.shards().len() == other.shards().len(),
        ensures
            self.route_of(key) == other.route_of(key),
    {
    }
}

} // verus!
