//! Who a request to the wallet comes from, and whether it is let through.
use crate::text::{after_prefix, find_last, last_place, lemma_last_place, trim, trimmed};
use crate::wallet_limit::{
    request, Counts, WindowMap, DEFAULT_SIM_PER_IP_10S, MIN_SIM_PER_IP_10S, SIM_PER_TXID_10S,
};
use vstd::prelude::*;
use vstd::string::*;

verus! {

/// The address of a client.
#[derive(Clone, Copy, Debug, PartialEq, Eq)]
pub enum ClientIp {
    V4([u8; 4]),
    V6([u8; 16]),
}

/// The bytes under which a client is counted: the version, the address, then zeros.
pub open spec fn client_bytes(ip: ClientIp) -> Seq<u8> {
    match ip {
        ClientIp::V4(a) => seq![4u8] + a@ + Seq::new(27, |i: int| 0u8),
        ClientIp::V6(a) => seq![6u8] + a@ + Seq::new(15, |i: int| 0u8),
    }
}

/// Two clients are counted under one key only where they are the same.
pub proof fn law_clients_have_keys_of_their_own(a: ClientIp, b: ClientIp)
    requires
        client_bytes(a) == client_bytes(b),
    ensures
        a == b,
{
    let x = client_bytes(a);
    let y = client_bytes(b);
    assert(x[0] == y[0]);
    match (a, b) {
        (ClientIp::V4(p), ClientIp::V4(q)) => {
            assert forall|i: int| 0 <= i < 4 implies p[i] == q[i] by {
                assert(x[1 + i] == p@[i] && y[1 + i] == q@[i]);
            }
            assert(p =~= q);
        },
        (ClientIp::V6(p), ClientIp::V6(q)) => {
            assert forall|i: int| 0 <= i < 16 implies p[i] == q[i] by {
                assert(x[1 + i] == p@[i] && y[1 + i] == q@[i]);
            }
            assert(p =~= q);
        },
        _ => {},
    }
}

impl ClientIp {
    /// The client is on this machine: `127.0.0.0/8` or `::1`.
    pub open spec fn is_local(&self) -> bool {
        match self {
            ClientIp::V4(a) => a[0] == 127,
            ClientIp::V6(a) => (forall|i: int| 0 <= i < 15 ==> a[i] == 0) && a[15] == 1,
        }
    }

    /// Whether the client is on this machine.
    pub fn is_loopback(&self) -> (local: bool)
        ensures
            local == self.is_local(),
    {
        match self {
            ClientIp::V4(a) => a[0] == 127,
            ClientIp::V6(a) => {
                let mut i: usize = 0;
                while i < 15
                    invariant
                        i <= 15,
                        *self == ClientIp::V6(*a),
                        forall|j: int| 0 <= j < i ==> a[j] == 0,
                    decreases 15 - i,
                {
                    if a[i] != 0 {
                        return false;
                    }
                    i += 1;
                }
                a[15] == 1
            },
        }
    }

    /// The bytes under which the client is counted.
    pub fn key(&self) -> (key: [u8; 32])
        ensures
            key@ == client_bytes(*self),
    {
        let mut key: [u8; 32] = [0u8; 32];
        match self {
            ClientIp::V4(a) => {
                key[0] = 4;
                let mut i: usize = 0;
                while i < 4
                    invariant
                        i <= 4,
                        key@[0] == 4,
                        forall|j: int| 0 <= j < i ==> key@[1 + j] == a@[j],
                        forall|j: int| 1 + i <= j < 32 ==> key@[j] == 0,
                    decreases 4 - i,
                {
                    key[1 + i] = a[i];
                    i += 1;
                }
            },
            ClientIp::V6(a) => {
                key[0] = 6;
                let mut i: usize = 0;
                while i < 16
                    invariant
                        i <= 16,
                        key@[0] == 6,
                        forall|j: int| 0 <= j < i ==> key@[1 + j] == a@[j],
                        forall|j: int| 1 + i <= j < 32 ==> key@[j] == 0,
                    decreases 16 - i,
                {
                    key[1 + i] = a[i];
                    i += 1;
                }
            },
        }
        proof {
            let want = client_bytes(*self);
            assert forall|j: int| 0 <= j < 32 implies key@[j] == want[j] by {
                if 1 <= j {
                    assert(key@[1 + (j - 1)] == want[j]);
                }
            }
            assert(key@ =~= want);
        }
        key
    }
}

/// What follows the last comma, or all where there is none, without white space around it.
pub open spec fn last_hop(header: Seq<char>) -> Seq<char> {
    trimmed(
        match last_place(header, ',') {
            Some(i) => header.skip(i + 1),
            None => header,
        },
    )
}

/// The last hop in an `X-Forwarded-For` header: the address that the nearest proxy put
/// there. What a client wrote stands before it.
pub fn rightmost_hop<'a>(header: &'a str) -> (hop: &'a str)
    ensures
        hop@ == last_hop(header@),
{
    let n: usize = header.unicode_len();
    match find_last(header, ',') {
        Some(i) => {
            assert(i < n);
            trim(after_prefix(header, i + 1))
        },
        None => trim(header),
    }
}

/// What a client wrote in the header, before the comma that the proxy adds, does not
/// change the last hop.
pub proof fn law_last_hop_is_the_proxys(written: Seq<char>, hop: Seq<char>)
    requires
        last_place(hop, ',') is None,
    ensures
        last_hop(written + seq![','] + hop) == trimmed(hop),
{
    let header = written + seq![','] + hop;
    lemma_last_place(header, ',');
    lemma_last_place(hop, ',');
    assert(header[written.len() as int] == ',');
    match last_place(header, ',') {
        Some(i) => {
            if i > written.len() {
                assert(header[i] == hop[i - written.len() - 1]);
            }
            assert(header.skip(i + 1) =~= hop);
        },
        None => {},
    }
}

/// The client of a request that came from `peer`, where the addresses that two headers gave
/// are `connecting` and `hop`.
pub open spec fn client_of(
    trust_proxy: bool,
    peer: ClientIp,
    connecting: Option<ClientIp>,
    hop: Option<ClientIp>,
) -> Option<ClientIp> {
    if trust_proxy && peer.is_local() {
        if connecting is Some {
            connecting
        } else {
            hop
        }
    } else {
        Some(peer)
    }
}

/// The client a request comes from. Behind a trusted proxy on this machine it is the one
/// that `CF-Connecting-IP` names, else the last hop of `X-Forwarded-For`, else nobody; a
/// header that came from elsewhere is not read.
pub fn resolve_client_ip(
    trust_proxy: bool,
    peer: ClientIp,
    connecting: Option<ClientIp>,
    hop: Option<ClientIp>,
) -> (client: Option<ClientIp>)
    ensures
        client == client_of(trust_proxy, peer, connecting, hop),
{
    if trust_proxy && peer.is_loopback() {
        if connecting.is_some() {
            return connecting;
        }
        return hop;
    }
    Some(peer)
}

/// Headers are believed only from a proxy on this machine.
pub proof fn law_headers_from_elsewhere_are_not_read(
    trust_proxy: bool,
    peer: ClientIp,
    connecting: Option<ClientIp>,
    hop: Option<ClientIp>,
)
    requires
        !trust_proxy || !peer.is_local(),
    ensures
        client_of(trust_proxy, peer, connecting, hop) == Some(peer),
{
}

/// Behind the proxy the proxy's own address is never taken for the client's.
pub proof fn law_unknown_client_is_nobody(peer: ClientIp)
    requires
        peer.is_local(),
    ensures
        client_of(true, peer, None, None) is None,
{
}

/// The limit for one address: on a public wallet at least the lowest one, elsewhere only
/// what was configured.
pub open spec fn limit_for(public: bool, configured: Option<u32>) -> Option<u32> {
    let wanted = match configured {
        Some(n) => if n > 0 {
            Some(n)
        } else {
            None
        },
        None => None,
    };
    if public {
        let n = match wanted {
            Some(n) => n,
            None => DEFAULT_SIM_PER_IP_10S,
        };
        Some(
            if n >= MIN_SIM_PER_IP_10S {
                n
            } else {
                MIN_SIM_PER_IP_10S
            },
        )
    } else {
        wanted
    }
}

/// A public wallet always has a limiter, and its limit is not below the lowest one.
pub proof fn law_public_wallet_is_limited(configured: Option<u32>)
    ensures
        limit_for(true, configured) is Some,
        limit_for(true, configured)->0 >= MIN_SIM_PER_IP_10S,
{
}

/// A limit for each address and one for each transaction.
pub struct SimRateLimiter {
    per_ip: WindowMap,
    per_txid: WindowMap,
    ip_limit: u32,
    txid_limit: u32,
    trust_proxy: bool,
}

impl SimRateLimiter {
    /// What is counted for addresses.
    pub closed spec fn ips(&self) -> Counts {
        self.per_ip@
    }

    /// What is counted for transactions.
    pub closed spec fn txids(&self) -> Counts {
        self.per_txid@
    }

    /// The limits and whether the proxy is trusted.
    pub closed spec fn settings(&self) -> (u32, u32, bool) {
        (self.ip_limit, self.txid_limit, self.trust_proxy)
    }

    /// Both maps are in order.
    pub closed spec fn wf(&self) -> bool {
        self.per_ip.wf() && self.per_txid.wf()
    }

    /// A limiter that has counted nothing.
    pub fn new(ip_limit: u32, txid_limit: u32, trust_proxy: bool, now: u64) -> (limiter: Self)
        ensures
            limiter.wf(),
            limiter.settings() == (ip_limit, txid_limit, trust_proxy),
            limiter.ips() == (Counts { windows: Map::empty(), last_gc: now }),
            limiter.txids() == (Counts { windows: Map::empty(), last_gc: now }),
    {
        SimRateLimiter {
            per_ip: WindowMap::new(now),
            per_txid: WindowMap::new(now),
            ip_limit,
            txid_limit,
            trust_proxy,
        }
    }

    /// The limiter of a wallet. A wallet that others can reach, by itself or through a
    /// trusted proxy, always has one.
    pub fn for_wallet(
        exposed: bool,
        trust_proxy: bool,
        configured_per_ip: Option<u32>,
        now: u64,
    ) -> (limiter: Option<Self>)
        ensures
            match (limiter, limit_for(exposed || trust_proxy, configured_per_ip)) {
                (Some(l), Some(n)) => {
                    &&& l.wf()
                    &&& l.settings() == (n, SIM_PER_TXID_10S, trust_proxy)
                    &&& l.ips() == (Counts { windows: Map::empty(), last_gc: now })
                    &&& l.txids() == (Counts { windows: Map::empty(), last_gc: now })
                },
                (None, None) => true,
                _ => false,
            },
    {
        let wanted: Option<u32> = match configured_per_ip {
            Some(n) => if n > 0 {
                Some(n)
            } else {
                None
            },
            None => None,
        };
        let ip_limit: u32 = if exposed || trust_proxy {
            let n: u32 = match wanted {
                Some(n) => n,
                None => DEFAULT_SIM_PER_IP_10S,
            };
            if n >= MIN_SIM_PER_IP_10S {
                n
            } else {
                MIN_SIM_PER_IP_10S
            }
        } else {
            match wanted {
                Some(n) => n,
                None => return None,
            }
        };
        Some(Self::new(ip_limit, SIM_PER_TXID_10S, trust_proxy, now))
    }

    /// Whether the proxy on this machine is trusted.
    pub fn trust_proxy(&self) -> (trusted: bool)
        ensures
            trusted == self.settings().2,
    {
        self.trust_proxy
    }

    /// The limit for one address.
    pub fn ip_limit(&self) -> (limit: u32)
        ensures
            limit == self.settings().0,
    {
        self.ip_limit
    }

    /// Counts a request of a client and says whether it is let through.
    pub fn allow_ip(&mut self, ip: ClientIp, now: u64) -> (admitted: bool)
        requires
            old(self).wf(),
        ensures
            final(self).wf(),
            final(self).settings() == old(self).settings(),
            final(self).txids() == old(self).txids(),
            forall|key: [u8; 32]|
                key@ == client_bytes(ip) ==> (final(self).ips(), admitted) == #[trigger] request(
                    old(self).ips(),
                    key,
                    old(self).settings().0,
                    now,
                ),
    {
        let key: [u8; 32] = ip.key();
        let admitted = self.per_ip.allow(key, self.ip_limit, now);
        proof {
            assert forall|k: [u8; 32]| k@ == client_bytes(ip) implies k == key by {
                assert(k =~= key);
            }
        }
        admitted
    }

    /// Counts a transaction and says whether it is let through.
    pub fn allow_txid(&mut self, txid: [u8; 32], now: u64) -> (admitted: bool)
        requires
            old(self).wf(),
        ensures
            final(self).wf(),
            final(self).settings() == old(self).settings(),
            final(self).ips() == old(self).ips(),
            (final(self).txids(), admitted) == request(
                old(self).txids(),
                txid,
                old(self).settings().1,
                now,
            ),
    {
        self.per_txid.allow(txid, self.txid_limit, now)
    }
}

/// Whether a request is let in.
#[derive(Clone, Copy, Debug, PartialEq, Eq)]
pub enum Entry {
    /// Go on; the client's address is handed to the node where it is known.
    Pass(Option<ClientIp>),
    /// The address that the request came from is not known.
    NoPeer,
    /// Nobody can be named as the client behind the proxy.
    NoClient,
    /// The client comes too often.
    TooOften,
}

/// Meters a request: without a limiter everything passes; with one, the client has to be
/// known and within its limit.
pub fn meter_request(
    limiter: &mut Option<SimRateLimiter>,
    peer: Option<ClientIp>,
    connecting: Option<ClientIp>,
    hop: Option<ClientIp>,
    now: u64,
) -> (entry: Entry)
    requires
        *old(limiter) is Some ==> old(limiter)->0.wf(),
    ensures
        *final(limiter) is Some == *old(limiter) is Some,
        *final(limiter) is Some ==> final(limiter)->0.wf() && final(limiter)->0.settings()
            == old(limiter)->0.settings() && final(limiter)->0.txids() == old(limiter)->0.txids(),
        *old(limiter) is None ==> entry == Entry::Pass(None),
        *old(limiter) is Some && peer is None ==> entry == Entry::NoPeer,
        *old(limiter) is Some && peer is Some ==> match client_of(
            old(limiter)->0.settings().2,
            peer->0,
            connecting,
            hop,
        ) {
            None => entry == Entry::NoClient,
            Some(ip) => forall|key: [u8; 32]| key@ == client_bytes(ip) ==> {
                let r = #[trigger] request(
                    old(limiter)->0.ips(),
                    key,
                    old(limiter)->0.settings().0,
                    now,
                );
                &&& final(limiter)->0.ips() == r.0
                &&& entry == if r.1 {
                    Entry::Pass(Some(ip))
                } else {
                    Entry::TooOften
                }
            },
        },
        !(entry is Pass) && !(entry is TooOften) ==> *final(limiter) == *old(limiter),
{
    match limiter {
        None => Entry::Pass(None),
        Some(l) => {
            let from = match peer {
                None => return Entry::NoPeer,
                Some(p) => p,
            };
            match resolve_client_ip(l.trust_proxy(), from, connecting, hop) {
                None => Entry::NoClient,
                Some(ip) => if l.allow_ip(ip, now) {
                    Entry::Pass(Some(ip))
                } else {
                    Entry::TooOften
                },
            }
        },
    }
}

} // verus!
