//! Replicas that tell each other of the requests they serve: how a process takes
//! part, its peers, and the messages.

use std::num::NonZeroU64;
use vstd::prelude::*;
use vstd::string::StrSliceExecFns;

use crate::sorting::{
    lex_lt, lex_lt_is_irreflexive, lex_lt_is_transitive, name_rank, order_names, NameOrder,
};
use crate::text::{append_decimal, decimal};

verus! {

/// Messages that wait to be sent, at most.
pub const REPLICA_EVENT_CHANNEL_CAPACITY: usize = 100_000;

/// What the messages of replicas are filed under.
pub const REPLICA_TOPIC: &'static str = "dynamo.slot-tracker.v1";

/// Why replicas are not set up.
#[derive(Clone, Copy, Debug, PartialEq, Eq, Structural)]
pub enum ReplicaSyncError {
    ZeroPort,
    PeersWithoutPort,
}

impl ReplicaSyncError {
    /// The error in words.
    pub open spec fn spec_message(&self) -> Seq<char> {
        match *self {
            ReplicaSyncError::ZeroPort => "replica sync port must be greater than zero"@,
            ReplicaSyncError::PeersWithoutPort => {
                "--replica-sync-peers requires --replica-sync-port"@
            },
        }
    }

    /// The error in words.
    pub fn message(&self) -> (text: String)
        ensures
            text@ == self.spec_message(),
    {
        match self {
            ReplicaSyncError::ZeroPort => "replica sync port must be greater than zero".to_owned(),
            ReplicaSyncError::PeersWithoutPort => {
                "--replica-sync-peers requires --replica-sync-port".to_owned()
            },
        }
    }
}

/// Where a process with a port can be reached.
pub open spec fn wildcard_endpoint(port: u16) -> Seq<char> {
    "tcp://*:"@ + decimal(port as nat)
}

/// Where a process is to be reached by its replicas.
pub fn replica_sync_bind_endpoint(port: u16) -> (r: Result<String, ReplicaSyncError>)
    ensures
        r is Ok <==> port > 0,
        r matches Ok(endpoint) ==> endpoint@ == wildcard_endpoint(port),
        r matches Err(e) ==> e == ReplicaSyncError::ZeroPort,
{
    if port == 0 {
        return Err(ReplicaSyncError::ZeroPort);
    }
    let mut endpoint = "tcp://*:".to_owned();
    append_decimal(&mut endpoint, port as u64);
    Ok(endpoint)
}

/// `rand::random` of a number that is not zero: any such number can come.
#[verifier::external_body]
fn random_nonzero() -> (id: u64)
    ensures
        id != 0,
{
    rand::random::<NonZeroU64>().get()
}

/// A number for this process. Zero stands for no process.
pub fn generate_process_id() -> (id: u64)
    ensures
        id != 0,
{
    random_nonzero()
}

/// How a process takes part.
pub struct ReplicaSyncSettings {
    pub bind_endpoint: String,
    /// The number by which the replicas know the process.
    pub process_id: u64,
}

/// How a process takes part with a port and the peers that are named to it. It does
/// not without a port, and then cannot have peers.
pub fn replica_sync_settings(port: Option<u16>, initial_peers: &Vec<String>) -> (r: Result<
    Option<ReplicaSyncSettings>,
    ReplicaSyncError,
>)
    ensures
        r == Err::<Option<ReplicaSyncSettings>, ReplicaSyncError>(ReplicaSyncError::ZeroPort)
            <==> port == Some(0u16),
        r == Err::<Option<ReplicaSyncSettings>, ReplicaSyncError>(
            ReplicaSyncError::PeersWithoutPort,
        ) <==> port is None && initial_peers@.len() > 0,
        r matches Ok(settings) ==> (settings is Some <==> port is Some),
        r matches Ok(Some(settings)) ==> settings.bind_endpoint@ == wildcard_endpoint(port->0)
            && settings.process_id != 0,
{
    let port = match port {
        Some(port) => port,
        None => {
            if initial_peers.len() > 0 {
                return Err(ReplicaSyncError::PeersWithoutPort);
            }
            return Ok(None);
        },
    };
    let bind_endpoint = match replica_sync_bind_endpoint(port) {
        Ok(bind_endpoint) => bind_endpoint,
        Err(e) => {
            return Err(e);
        },
    };
    Ok(Some(ReplicaSyncSettings { bind_endpoint, process_id: generate_process_id() }))
}

/// Whether bytes are the characters of a text, one for one.
pub open spec fn bytes_spell(bytes: Seq<u8>, text: Seq<char>) -> bool {
    &&& bytes.len() == text.len()
    &&& forall|i: int| 0 <= i < text.len() ==> #[trigger] bytes[i] as int == text[i] as int
}

fn spells(bytes: &Vec<u8>, text: &str) -> (r: bool)
    ensures
        r == bytes_spell(bytes@, text@),
{
    if bytes.len() != text.unicode_len() {
        return false;
    }
    for i in 0..bytes.len()
        invariant
            bytes@.len() == text@.len(),
            forall|j: int| 0 <= j < i ==> #[trigger] bytes@[j] as int == text@[j] as int,
    {
        if bytes[i] as u32 != text.get_char(i) as u32 {
            assert(bytes@[i as int] as int != text@[i as int] as int);
            return false;
        }
    }
    true
}

/// What a message of a replica carries. A message with too few or too many frames,
/// or that is filed under something else, is dropped.
pub fn replica_payload(frames: &Vec<Vec<u8>>) -> (payload: Option<&Vec<u8>>)
    ensures
        payload is Some <==> frames@.len() == 2 && bytes_spell(frames@[0]@, REPLICA_TOPIC@),
        payload matches Some(bytes) ==> *bytes == frames@[1],
{
    if frames.len() != 2 || !spells(&frames[0], REPLICA_TOPIC) {
        return None;
    }
    Some(&frames[1])
}

/// Why a change of the peers failed.
#[derive(Debug, PartialEq, Eq)]
pub enum PeerError {
    InvalidEndpoint(String),
    Unavailable,
}

impl PeerError {
    /// The error in words.
    pub fn message(&self) -> (text: String)
        ensures
            text@ == match *self {
                PeerError::InvalidEndpoint(why) => why@,
                PeerError::Unavailable => "replica peer manager is unavailable"@,
            },
    {
        match self {
            PeerError::InvalidEndpoint(why) => why.as_str().to_owned(),
            PeerError::Unavailable => "replica peer manager is unavailable".to_owned(),
        }
    }
}

/// The status that an HTTP answer to the registration of a peer has.
pub fn register_peer_status(outcome: &Option<Result<bool, PeerError>>) -> (status: u16)
    ensures
        status == match *outcome {
            None => 409u16,
            Some(Ok(new)) => if new {
                201
            } else {
                200
            },
            Some(Err(PeerError::InvalidEndpoint(_))) => 400,
            Some(Err(PeerError::Unavailable)) => 503,
        },
{
    match outcome {
        None => 409,
        Some(Ok(new)) => if *new {
            201
        } else {
            200
        },
        Some(Err(PeerError::InvalidEndpoint(_))) => 400,
        Some(Err(PeerError::Unavailable)) => 503,
    }
}

/// The status that an HTTP answer to the removal of a peer has.
pub fn deregister_peer_status(outcome: &Option<Result<bool, PeerError>>) -> (status: u16)
    ensures
        status == match *outcome {
            None => 409u16,
            Some(Ok(known)) => if known {
                200
            } else {
                404
            },
            Some(Err(PeerError::InvalidEndpoint(_))) => 400,
            Some(Err(PeerError::Unavailable)) => 503,
        },
{
    match outcome {
        None => 409,
        Some(Ok(known)) => if *known {
            200
        } else {
            404
        },
        Some(Err(PeerError::InvalidEndpoint(_))) => 400,
        Some(Err(PeerError::Unavailable)) => 503,
    }
}

/// Whether names stand in ascending order, none twice.
pub open spec fn names_ascend(names: Seq<Seq<char>>) -> bool {
    forall|i: int, j: int|
        0 <= i < j < names.len() ==> lex_lt(
            name_rank(#[trigger] names[i]),
            name_rank(#[trigger] names[j]),
        )
}

/// The views of some names.
pub open spec fn name_views(names: Seq<String>) -> Seq<Seq<char>> {
    names.map_values(|n: String| n@)
}

/// The peers that a process listens to.
pub struct PeerSet {
    /// In ascending order.
    peers: Vec<String>,
}

impl View for PeerSet {
    type V = Set<Seq<char>>;

    closed spec fn view(&self) -> Set<Seq<char>> {
        name_views(self.peers@).to_set()
    }
}

impl PeerSet {
    /// The invariant.
    pub closed spec fn wf(&self) -> bool {
        names_ascend(name_views(self.peers@))
    }

    /// No peers.
    pub fn new() -> (set: Self)
        ensures
            set.wf(),
            set@ == Set::<Seq<char>>::empty(),
    {
        let set = PeerSet { peers: Vec::new() };
        assert(set@ =~= Set::empty());
        set
    }

    /// Where a peer stands or would stand, and whether it is there.
    fn find(&self, endpoint: &str) -> (r: (usize, bool))
        requires
            self.wf(),
        ensures
            r.0 <= self.peers@.len(),
            r.1 == self@.contains(endpoint@),
            r.1 ==> r.0 < self.peers@.len() && self.peers@[r.0 as int]@ == endpoint@,
            !r.1 ==> forall|i: int|
                0 <= i < r.0 ==> lex_lt(
                    name_rank((#[trigger] self.peers@[i])@),
                    name_rank(endpoint@),
                ),
            !r.1 ==> forall|i: int|
                r.0 <= i < self.peers@.len() ==> lex_lt(
                    name_rank(endpoint@),
                    name_rank((#[trigger] self.peers@[i])@),
                ),
    {
        let ghost names = name_views(self.peers@);
        let ghost none = Seq::<int>::empty();
        for i in 0..self.peers.len()
            invariant
                self.wf(),
                names == name_views(self.peers@),
                none == Seq::<int>::empty(),
                forall|j: int|
                    0 <= j < i ==> lex_lt(
                        name_rank((#[trigger] self.peers@[j])@),
                        name_rank(endpoint@),
                    ),
        {
            proof {
                assert(names[i as int] == self.peers@[i as int]@);
                assert(name_rank(names[i as int]) + none =~= name_rank(names[i as int]));
                assert(name_rank(endpoint@) + none =~= name_rank(endpoint@));
            }
            match order_names(self.peers[i].as_str(), endpoint) {
                NameOrder::Same => {
                    assert(names.contains(endpoint@));
                    return (i, true);
                },
                NameOrder::After => {
                    proof {
                        assert(!lex_lt(
                            name_rank(names[i as int]) + none,
                            name_rank(endpoint@) + none,
                        ));
                        lemma_later_names(names, endpoint@, i as int);
                        assert forall|j: int| i <= j < self.peers@.len() implies lex_lt(
                            name_rank(endpoint@),
                            name_rank((#[trigger] self.peers@[j])@),
                        ) by {
                            assert(names[j] == self.peers@[j]@);
                        }
                    }
                    return (i, false);
                },
                NameOrder::Before => {
                    assert(lex_lt(
                        name_rank(names[i as int]) + none,
                        name_rank(endpoint@) + none,
                    ));
                },
            }
        }
        proof {
            if names.contains(endpoint@) {
                let k = choose|k: int| 0 <= k < names.len() && names[k] == endpoint@;
                assert(lex_lt(name_rank(self.peers@[k]@), name_rank(endpoint@)));
                lex_lt_is_irreflexive(name_rank(endpoint@));
            }
        }
        (self.peers.len(), false)
    }

    /// Whether a peer is among them.
    pub fn contains(&self, endpoint: &str) -> (r: bool)
        requires
            self.wf(),
        ensures
            r == self@.contains(endpoint@),
    {
        self.find(endpoint).1
    }

    /// Adds a peer. Tells whether it is new.
    pub fn insert(&mut self, endpoint: &str) -> (new: bool)
        requires
            old(self).wf(),
        ensures
            final(self).wf(),
            final(self)@ == old(self)@.insert(endpoint@),
            new == !old(self)@.contains(endpoint@),
    {
        let (place, there) = self.find(endpoint);
        if there {
            assert(self@ =~= old(self)@.insert(endpoint@));
            return false;
        }
        let ghost before = name_views(self.peers@);
        self.peers.insert(place, endpoint.to_owned());
        proof {
            let after = name_views(self.peers@);
            assert(after =~= before.insert(place as int, endpoint@));
            assert forall|i: int, j: int| 0 <= i < j < after.len() implies lex_lt(
                name_rank(#[trigger] after[i]),
                name_rank(#[trigger] after[j]),
            ) by {
                let a = if i < place {
                    i
                } else {
                    i - 1
                };
                let b = if j < place {
                    j
                } else {
                    j - 1
                };
                if i != place && j != place {
                    assert(lex_lt(name_rank(before[a]), name_rank(before[b])));
                } else if i == place {
                    assert(old(self).peers@[b]@ == before[b]);
                } else {
                    assert(old(self).peers@[a]@ == before[a]);
                }
            }
            assert forall|n: Seq<char>| after.contains(n) <==> before.contains(n) || n
                == endpoint@ by {
                if before.contains(n) {
                    let k = choose|k: int| 0 <= k < before.len() && before[k] == n;
                    if k < place {
                        assert(after[k] == n);
                    } else {
                        assert(after[k + 1] == n);
                    }
                }
                assert(after[place as int] == endpoint@);
                if after.contains(n) && n != endpoint@ {
                    let k = choose|k: int| 0 <= k < after.len() && after[k] == n;
                    if k < place {
                        assert(before[k] == n);
                    } else {
                        assert(before[k - 1] == n);
                    }
                }
            }
            assert(self@ =~= old(self)@.insert(endpoint@));
        }
        true
    }

    /// Takes a peer out. Tells whether it was there.
    pub fn remove(&mut self, endpoint: &str) -> (known: bool)
        requires
            old(self).wf(),
        ensures
            final(self).wf(),
            final(self)@ == old(self)@.remove(endpoint@),
            known == old(self)@.contains(endpoint@),
    {
        let (place, there) = self.find(endpoint);
        if !there {
            assert(self@ =~= old(self)@.remove(endpoint@));
            return false;
        }
        let ghost before = name_views(self.peers@);
        let _ = self.peers.remove(place);
        proof {
            let after = name_views(self.peers@);
            assert(after =~= before.remove(place as int));
            assert forall|i: int, j: int| 0 <= i < j < after.len() implies lex_lt(
                name_rank(#[trigger] after[i]),
                name_rank(#[trigger] after[j]),
            ) by {
                let a = if i < place {
                    i
                } else {
                    i + 1
                };
                let b = if j < place {
                    j
                } else {
                    j + 1
                };
                assert(lex_lt(name_rank(before[a]), name_rank(before[b])));
            }
            assert forall|n: Seq<char>| after.contains(n) <==> before.contains(n) && n
                != endpoint@ by {
                if before.contains(n) && n != endpoint@ {
                    let k = choose|k: int| 0 <= k < before.len() && before[k] == n;
                    if k < place {
                        assert(after[k] == n);
                    } else {
                        assert(k != place);
                        assert(after[k - 1] == n);
                    }
                }
                if after.contains(n) {
                    let k = choose|k: int| 0 <= k < after.len() && after[k] == n;
                    let a = if k < place {
                        k
                    } else {
                        k + 1
                    };
                    assert(before[a] == n);
                    if n == endpoint@ {
                        lex_lt_is_irreflexive(name_rank(n));
                        if a < place {
                            assert(lex_lt(name_rank(before[a]), name_rank(before[place as int])));
                        } else {
                            assert(lex_lt(name_rank(before[place as int]), name_rank(before[a])));
                        }
                    }
                }
            }
            assert(self@ =~= old(self)@.remove(endpoint@));
        }
        true
    }

    /// The peers in ascending order.
    pub fn list_peers(&self) -> (peers: &Vec<String>)
        requires
            self.wf(),
        ensures
            names_ascend(name_views(peers@)),
            name_views(peers@).to_set() == self@,
    {
        &self.peers
    }
}

/// Names behind one that comes after another do so too.
proof fn lemma_later_names(names: Seq<Seq<char>>, name: Seq<char>, at: int)
    requires
        names_ascend(names),
        0 <= at < names.len(),
        names[at] != name,
        !lex_lt(name_rank(names[at]), name_rank(name)),
        forall|j: int| 0 <= j < at ==> lex_lt(name_rank(#[trigger] names[j]), name_rank(name)),
    ensures
        forall|j: int|
            at <= j < names.len() ==> lex_lt(name_rank(name), name_rank(#[trigger] names[j])),
        !names.contains(name),
{
    crate::sorting::lex_lt_is_total(name_rank(names[at]), name_rank(name));
    if name_rank(names[at]) == name_rank(name) {
        let none = Seq::<int>::empty();
        crate::sorting::name_rank_is_prefix_free(names[at], none, name, none);
    }
    assert forall|j: int| at <= j < names.len() implies lex_lt(
        name_rank(name),
        name_rank(#[trigger] names[j]),
    ) by {
        if j > at {
            assert(lex_lt(name_rank(names[at]), name_rank(names[j])));
            lex_lt_is_transitive(name_rank(name), name_rank(names[at]), name_rank(names[j]));
        }
    }
    if names.contains(name) {
        let k = choose|k: int| 0 <= k < names.len() && names[k] == name;
        lex_lt_is_irreflexive(name_rank(name));
        if k < at {
            assert(lex_lt(name_rank(names[k]), name_rank(name)));
        } else {
            assert(lex_lt(name_rank(name), name_rank(names[k])));
        }
    }
}

} // verus!
