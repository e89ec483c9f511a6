//! The node's summary state and its event handlers.
//!
//! One [`NodeState`] value holds everything the dispatch loop records: the
//! gateway mapping status, the set of currently mapped external addresses,
//! the table of open connections, and the latest identify result per peer.
//! Each handler consumes one event, updates the state, and returns the
//! [`Report`] describing the single log line the event deserves.  The exact
//! effect of every event is stated over the spec-level step functions
//! ([`gw_step`], [`conn_step`]) that the laws in [`crate::laws`] reason
//! about.

use vstd::prelude::*;
use crate::events::{Event, GatewayEvent, IdentifyEvent, PingEvent, PingOutcome, PeerInfo, Report};

verus! {

/// The gateway mapping state machine for the listening port.
#[derive(Clone, Copy, Debug, PartialEq, Eq, Structural)]
pub enum GatewayStatus {
    /// No gateway interaction yet, or every mapping has expired.
    Unmapped,
    /// Gateway discovery in progress.
    Probing,
    /// At least one external address is actively mapped.
    Mapped,
    /// Discovery finished with no mapping-capable gateway; terminal for
    /// this attempt.
    GatewayAbsent,
    /// A gateway was found but is itself behind another translation layer;
    /// terminal for this attempt.
    GatewayNonRoutable,
}

/// One open connection: the remote peer and the remote endpoint.
#[derive(Debug)]
pub struct ConnRecord {
    pub peer: String,
    pub remote_addr: String,
}

/// The latest identify result recorded for one peer.
#[derive(Debug)]
pub struct PeerInfoEntry {
    pub peer: String,
    pub info: PeerInfo,
}

/// The addresses of a mapping table, as plain character sequences.
pub open spec fn addrs_view(v: Seq<String>) -> Seq<Seq<char>> {
    v.map_values(|s: String| s@)
}

/// `m` with every occurrence of the address `a` removed.
pub open spec fn addr_remove(m: Seq<Seq<char>>, a: Seq<char>) -> Seq<Seq<char>>
    decreases m.len(),
{
    if m.len() == 0 {
        m
    } else if m.last() == a {
        addr_remove(m.drop_last(), a)
    } else {
        addr_remove(m.drop_last(), a).push(m.last())
    }
}

/// How one gateway event transforms the set of actively mapped addresses:
/// a `NewExternalAddr` is authoritative for its own address and inserts it
/// (idempotently); an `ExpiredExternalAddr` removes its address; the two
/// terminal discovery outcomes leave the set alone.
pub open spec fn gw_step(m: Seq<Seq<char>>, ev: GatewayEvent) -> Seq<Seq<char>> {
    match ev {
        GatewayEvent::NewExternalAddr(a) => if m.contains(a@) {
            m
        } else {
            m.push(a@)
        },
        GatewayEvent::ExpiredExternalAddr(a) => addr_remove(m, a@),
        GatewayEvent::GatewayNotFound => m,
        GatewayEvent::NonRoutableGateway => m,
    }
}

/// How one gateway event transforms the gateway status, given the mapped
/// address set after the event: a fresh mapping means `Mapped`; an expiry
/// that drains the last mapping falls back to `Unmapped`; the two terminal
/// discovery outcomes are recorded as such.
pub open spec fn status_step(
    st: GatewayStatus,
    m_after: Seq<Seq<char>>,
    ev: GatewayEvent,
) -> GatewayStatus {
    match ev {
        GatewayEvent::NewExternalAddr(_) => GatewayStatus::Mapped,
        GatewayEvent::ExpiredExternalAddr(_) => if m_after.len() == 0 {
            GatewayStatus::Unmapped
        } else {
            st
        },
        GatewayEvent::GatewayNotFound => GatewayStatus::GatewayAbsent,
        GatewayEvent::NonRoutableGateway => GatewayStatus::GatewayNonRoutable,
    }
}

/// How many records of `s` belong to peer `p`.
pub open spec fn conn_count(s: Seq<ConnRecord>, p: Seq<char>) -> int
    decreases s.len(),
{
    if s.len() == 0 {
        0
    } else {
        conn_count(s.drop_last(), p) + if s.last().peer@ == p {
            1int
        } else {
            0int
        }
    }
}

/// `s` with the most recently recorded connection to peer `p` removed
/// (unchanged when no record of `p` exists).
pub open spec fn conn_remove_last(s: Seq<ConnRecord>, p: Seq<char>) -> Seq<ConnRecord>
    decreases s.len(),
{
    if s.len() == 0 {
        s
    } else if s.last().peer@ == p {
        s.drop_last()
    } else {
        conn_remove_last(s.drop_last(), p).push(s.last())
    }
}

/// How one event of the merged stream transforms the connection table:
/// an establishment appends a record, a close removes the most recent
/// record of that peer, and every other event leaves the table alone.
pub open spec fn conn_step(s: Seq<ConnRecord>, ev: Event) -> Seq<ConnRecord> {
    match ev {
        Event::ConnectionEstablished { peer, remote_addr } => s.push(
            ConnRecord { peer, remote_addr },
        ),
        Event::ConnectionClosed { peer, cause: _ } => conn_remove_last(s, peer@),
        _ => s,
    }
}

/// The latest identify result recorded for peer `p`, if any, as its
/// mathematical value.
pub open spec fn info_of(s: Seq<PeerInfoEntry>, p: Seq<char>) -> Option<crate::events::PeerInfoV>
    decreases s.len(),
{
    if s.len() == 0 {
        Option::None
    } else if s.last().peer@ == p {
        Option::Some(s.last().info@)
    } else {
        info_of(s.drop_last(), p)
    }
}

/// `s` with every entry for peer `p` removed.
pub open spec fn info_remove(s: Seq<PeerInfoEntry>, p: Seq<char>) -> Seq<PeerInfoEntry>
    decreases s.len(),
{
    if s.len() == 0 {
        s
    } else if s.last().peer@ == p {
        info_remove(s.drop_last(), p)
    } else {
        info_remove(s.drop_last(), p).push(s.last())
    }
}

/// The node-level summary state mutated only by the dispatch loop.
#[derive(Debug)]
pub struct NodeState {
    /// Where the gateway mapping state machine stands.
    pub gateway: GatewayStatus,
    /// The external addresses currently mapped for the listening port.
    pub mapped_addrs: Vec<String>,
    /// One record per open connection.
    pub connections: Vec<ConnRecord>,
    /// The latest identify result per peer, one entry per peer; an entry
    /// lives only as long as some connection to its peer does.
    pub peer_infos: Vec<PeerInfoEntry>,
}

impl NodeState {
    /// The mapped external addresses as plain character sequences.
    pub open spec fn mapped_view(self) -> Seq<Seq<char>> {
        addrs_view(self.mapped_addrs@)
    }

    /// The externally reported reachability flag for one address: true
    /// exactly while a mapping for that address is active.
    pub open spec fn reachable_via(self, a: Seq<char>) -> bool {
        self.mapped_view().contains(a)
    }

    /// No address is recorded twice in the mapping table.
    pub open spec fn addrs_unique(self) -> bool {
        forall|i: int, j: int|
            0 <= i < j < self.mapped_addrs@.len() ==> self.mapped_addrs@[i]@
                != self.mapped_addrs@[j]@
    }

    /// At most one identify entry per peer.
    pub open spec fn infos_unique(self) -> bool {
        forall|i: int, j: int|
            0 <= i < j < self.peer_infos@.len() ==> self.peer_infos@[i].peer@
                != self.peer_infos@[j].peer@
    }

    /// The state's internal invariant, established at startup and preserved
    /// by every handler.
    pub open spec fn wf(self) -> bool {
        self.addrs_unique() && self.infos_unique()
    }

    /// A fresh node: nothing mapped, no connections, no peer metadata, and
    /// no gateway interaction yet.
    pub fn new() -> (s: NodeState)
        ensures
            s.wf(),
            s.gateway == GatewayStatus::Unmapped,
            s.mapped_view() == Seq::<Seq<char>>::empty(),
            s.connections@ == Seq::<ConnRecord>::empty(),
            s.peer_infos@ == Seq::<PeerInfoEntry>::empty(),
    {
        let s = NodeState {
            gateway: GatewayStatus::Unmapped,
            mapped_addrs: Vec::new(),
            connections: Vec::new(),
            peer_infos: Vec::new(),
        };
        proof {
            assert(s.mapped_view() =~= Seq::<Seq<char>>::empty());
        }
        s
    }

    /// Gateway discovery has begun for the listening port.
    pub fn begin_discovery(&mut self)
        ensures
            *final(self) == (NodeState { gateway: GatewayStatus::Probing, ..*old(self) }),
    {
        self.gateway = GatewayStatus::Probing;
    }

    /// Handles one gateway mapping event: updates the mapped address set and
    /// the gateway status exactly as [`gw_step`] and [`status_step`] say,
    /// touches nothing else, and reports the transition.  A duplicate
    /// mapping of an already active address leaves the state untouched and
    /// only repeats the report.
    pub fn handle_upnp_event(&mut self, ev: GatewayEvent) -> (r: Report)
        requires
            old(self).wf(),
        ensures
            final(self).wf(),
            final(self).mapped_view() == gw_step(old(self).mapped_view(), ev),
            final(self).gateway == status_step(old(self).gateway, final(self).mapped_view(), ev),
            final(self).connections == old(self).connections,
            final(self).peer_infos == old(self).peer_infos,
            (match ev {
                GatewayEvent::NewExternalAddr(a) => r == (Report::MappedAddressUsable {
                    address: a,
                }) && (old(self).reachable_via(a@) ==> final(self).mapped_addrs
                    == old(self).mapped_addrs),
                GatewayEvent::ExpiredExternalAddr(a) => r == (Report::MappingExpired {
                    address: a,
                }),
                GatewayEvent::GatewayNotFound => r == Report::GatewayAbsent,
                GatewayEvent::NonRoutableGateway => r == Report::GatewayNonRoutable,
            }),
    {
        match ev {
            GatewayEvent::NewExternalAddr(a) => {
                let n = self.mapped_addrs.len();
                let mut i: usize = 0;
                let mut found = false;
                while i < n
                    invariant
                        i <= n,
                        n == self.mapped_addrs@.len(),
                        found <==> exists|j: int| 0 <= j < i && self.mapped_addrs@[j]@ == a@,
                    decreases n - i,
                {
                    if self.mapped_addrs[i] == a {
                        found = true;
                    }
                    i += 1;
                }
                proof {
                    assert(forall|j: int|
                        0 <= j < n ==> self.mapped_view()[j] == self.mapped_addrs@[j]@);
                    assert(found <==> self.mapped_view().contains(a@)) by {
                        if found {
                            let j = choose|j: int| 0 <= j < n && self.mapped_addrs@[j]@ == a@;
                            assert(self.mapped_view()[j] == a@);
                        }
                        if self.mapped_view().contains(a@) {
                            let j = choose|j: int|
                                0 <= j < self.mapped_view().len() && self.mapped_view()[j] == a@;
                            assert(self.mapped_addrs@[j]@ == a@);
                        }
                    }
                }
                self.gateway = GatewayStatus::Mapped;
                if found {
                    Report::MappedAddressUsable { address: a }
                } else {
                    let address = clone_string(&a);
                    self.mapped_addrs.push(a);
                    proof {
                        assert(self.mapped_view() =~= old(self).mapped_view().push(address@));
                        let s1 = self.mapped_addrs@;
                        let s0 = old(self).mapped_addrs@;
                        assert forall|i2: int, j2: int|
                            0 <= i2 < j2 < s1.len() implies s1[i2]@ != s1[j2]@ by {
                            assert(s1[i2] == s0[i2]);
                            if j2 < s1.len() - 1 {
                                assert(s1[j2] == s0[j2]);
                            } else {
                                assert(s1[j2]@ == a@);
                            }
                        }
                    }
                    Report::MappedAddressUsable { address }
                }
            },
            GatewayEvent::ExpiredExternalAddr(a) => {
                let n = self.mapped_addrs.len();
                let mut kept: Vec<String> = Vec::new();
                let mut i: usize = 0;
                while i < n
                    invariant
                        i <= n,
                        n == self.mapped_addrs@.len(),
                        addrs_view(kept@) == addr_remove(
                            addrs_view(self.mapped_addrs@.take(i as int)),
                            a@,
                        ),
                    decreases n - i,
                {
                    let ghost prefix = addrs_view(self.mapped_addrs@.take(i as int));
                    let ghost prefix1 = addrs_view(self.mapped_addrs@.take(i as int + 1));
                    let ghost e_v = self.mapped_addrs@[i as int]@;
                    let ghost kept0 = kept@;
                    proof {
                        assert(prefix1 =~= prefix.push(e_v));
                        assert(prefix1.last() == e_v);
                        assert(prefix1.drop_last() =~= prefix);
                    }
                    if !(self.mapped_addrs[i] == a) {
                        let kept_one = clone_string(&self.mapped_addrs[i]);
                        kept.push(kept_one);
                        proof {
                            assert(addrs_view(kept@) =~= addrs_view(kept0).push(e_v));
                            assert(addr_remove(prefix1, a@) == addr_remove(prefix, a@).push(e_v));
                        }
                    } else {
                        proof {
                            assert(addr_remove(prefix1, a@) == addr_remove(prefix, a@));
                        }
                    }
                    i += 1;
                }
                proof {
                    assert(self.mapped_addrs@.take(n as int) =~= self.mapped_addrs@);
                }
                self.mapped_addrs = kept;
                if self.mapped_addrs.len() == 0 {
                    self.gateway = GatewayStatus::Unmapped;
                }
                proof {
                    let m0 = old(self).mapped_view();
                    assert(forall|k: int| 0 <= k < m0.len() ==> m0[k] == old(self).mapped_addrs@[k]@);
                    assert(forall|i2: int, j2: int| 0 <= i2 < j2 < m0.len() ==> m0[i2] != m0[j2]);
                    lemma_addr_remove_unique(m0, a@);
                    let m1 = self.mapped_view();
                    assert(m1 == addr_remove(m0, a@));
                    assert(forall|k: int| 0 <= k < m1.len() ==> m1[k] == self.mapped_addrs@[k]@);
                    assert forall|i2: int, j2: int|
                        0 <= i2 < j2 < self.mapped_addrs@.len() implies self.mapped_addrs@[i2]@
                        != self.mapped_addrs@[j2]@ by {
                        assert(m1[i2] != m1[j2]);
                        assert(m1[i2] == self.mapped_addrs@[i2]@);
                        assert(m1[j2] == self.mapped_addrs@[j2]@);
                    }
                }
                Report::MappingExpired { address: a }
            },
            GatewayEvent::GatewayNotFound => {
                self.gateway = GatewayStatus::GatewayAbsent;
                Report::GatewayAbsent
            },
            GatewayEvent::NonRoutableGateway => {
                self.gateway = GatewayStatus::GatewayNonRoutable;
                Report::GatewayNonRoutable
            },
        }
    }
    /// Handles one identify event.  A received exchange supersedes any
    /// earlier entry for that peer, so the recorded metadata of a peer is
    /// always exactly its most recent exchange; the other outcomes only
    /// produce their report.
    pub fn handle_identify_event(&mut self, ev: IdentifyEvent) -> (r: Report)
        requires
            old(self).wf(),
        ensures
            final(self).wf(),
            final(self).gateway == old(self).gateway,
            final(self).mapped_addrs == old(self).mapped_addrs,
            final(self).connections == old(self).connections,
            (match ev {
                IdentifyEvent::Received { peer, info } => {
                    &&& final(self).peer_infos@ == info_remove(old(self).peer_infos@, peer@).push(
                        PeerInfoEntry { peer, info },
                    )
                    &&& forall|q: Seq<char>|
                        info_of(final(self).peer_infos@, q) == if q == peer@ {
                            Option::Some(info@)
                        } else {
                            info_of(old(self).peer_infos@, q)
                        }
                    &&& r matches Report::PeerIdentified { peer: rp, info: ri } && rp == peer
                        && ri@ == info@
                },
                IdentifyEvent::Sent { peer } => final(self).peer_infos == old(self).peer_infos
                    && r == (Report::IdentifySent { peer }),
                IdentifyEvent::Pushed { peer } => final(self).peer_infos == old(self).peer_infos
                    && r == (Report::IdentifyPushed { peer }),
                IdentifyEvent::Error { peer, reason } => final(self).peer_infos == old(
                    self,
                ).peer_infos && r == (Report::IdentifyFailed { peer, reason }),
            }),
    {
        match ev {
            IdentifyEvent::Received { peer, info } => {
                let n = self.peer_infos.len();
                let mut i: usize = 0;
                let mut idx: usize = n;
                while i < n
                    invariant
                        i <= n,
                        idx <= n,
                        n == self.peer_infos@.len(),
                        idx == n ==> forall|j: int| 0 <= j < i ==> self.peer_infos@[j].peer@
                            != peer@,
                        idx < n ==> idx < i && self.peer_infos@[idx as int].peer@ == peer@,
                    decreases n - i,
                {
                    if self.peer_infos[i].peer == peer {
                        idx = i;
                    }
                    i += 1;
                }
                let ghost s0 = self.peer_infos@;
                if idx < n {
                    proof {
                        assert forall|j: int|
                            0 <= j < s0.len() && j != idx implies s0[j].peer@ != peer@ by {
                            if j < idx {
                                assert(s0[j].peer@ != s0[idx as int].peer@);
                            } else {
                                assert(s0[idx as int].peer@ != s0[j].peer@);
                            }
                        }
                        lemma_info_remove_at(s0, peer@, idx as int);
                    }
                    let _superseded = self.peer_infos.remove(idx);
                } else {
                    proof {
                        lemma_info_remove_absent(s0, peer@);
                    }
                }
                let ghost mid = self.peer_infos@;
                proof {
                    assert(mid == info_remove(s0, peer@));
                    lemma_info_remove_no_match(s0, peer@);
                    assert(forall|j: int| 0 <= j < mid.len() ==> mid[j].peer@ != peer@);
                    assert(forall|i2: int, j2: int|
                        0 <= i2 < j2 < mid.len() ==> mid[i2].peer@ != mid[j2].peer@) by {
                        lemma_info_remove_keeps(s0, peer@);
                    }
                }
                let rp = clone_string(&peer);
                let ri = clone_peer_info(&info);
                self.peer_infos.push(PeerInfoEntry { peer, info });
                proof {
                    let fin = self.peer_infos@;
                    assert(fin.last().peer@ == peer@);
                    assert(forall|q: Seq<char>|
                        info_of(fin, q) == if q == peer@ {
                            Option::Some(fin.last().info@)
                        } else {
                            info_of(fin.drop_last(), q)
                        });
                    assert(fin.drop_last() =~= mid);
                    assert(forall|q: Seq<char>| q != peer@ ==> info_of(mid, q) == info_of(s0, q))
                        by {
                        lemma_info_of_remove(s0, peer@);
                    }
                    assert(self.mapped_addrs@ == old(self).mapped_addrs@);
                    assert(self.mapped_view() == old(self).mapped_view());
                    assert(self.addrs_unique());
                    assert forall|i2: int, j2: int|
                        0 <= i2 < j2 < fin.len() implies fin[i2].peer@ != fin[j2].peer@ by {
                        assert(fin[i2] == mid[i2]);
                        if j2 < fin.len() - 1 {
                            assert(fin[j2] == mid[j2]);
                        } else {
                            assert(fin[j2].peer@ == peer@);
                        }
                    }
                }
                Report::PeerIdentified { peer: rp, info: ri }
            },
            IdentifyEvent::Sent { peer } => Report::IdentifySent { peer },
            IdentifyEvent::Pushed { peer } => Report::IdentifyPushed { peer },
            IdentifyEvent::Error { peer, reason } => Report::IdentifyFailed { peer, reason },
        }
    }

    /// Dispatches one event of the merged stream: exactly one event is
    /// processed to completion per call, the connection table moves by
    /// [`conn_step`], the mapping state moves by [`gw_step`] on gateway
    /// events and is untouched otherwise, and the returned report is the
    /// one [`event_report_ok`] prescribes for the event.  When the last
    /// connection to a peer closes, the peer's recorded identify metadata
    /// goes with it.  No event is fatal: every event yields a report and
    /// leaves the node ready for the next one.
    pub fn handle_event(&mut self, ev: Event) -> (r: Report)
        requires
            old(self).wf(),
        ensures
            final(self).wf(),
            final(self).connections@ == conn_step(old(self).connections@, ev),
            event_report_ok(ev, r),
            (ev matches Event::Gateway(g)
                ==> final(self).mapped_view() == gw_step(old(self).mapped_view(), g)
                && final(self).gateway
                    == status_step(old(self).gateway, final(self).mapped_view(), g)
                && final(self).peer_infos == old(self).peer_infos),
            !(ev is Gateway)
                ==> final(self).mapped_addrs == old(self).mapped_addrs
                && final(self).gateway == old(self).gateway,
            (ev matches Event::Gateway(GatewayEvent::NewExternalAddr(a))
                && old(self).reachable_via(a@)
                ==> final(self).mapped_addrs == old(self).mapped_addrs),
            (ev matches Event::Identify(IdentifyEvent::Received { peer, info })
                ==> forall|q: Seq<char>|
                    info_of(final(self).peer_infos@, q) == if q == peer@ {
                        Option::Some(info@)
                    } else {
                        info_of(old(self).peer_infos@, q)
                    }),
            (ev matches Event::ConnectionClosed { peer, .. } ==> final(self).peer_infos@ == (if
                conn_count(final(self).connections@, peer@) > 0 {
                old(self).peer_infos@
            } else {
                info_remove(old(self).peer_infos@, peer@)
            }) && (conn_count(final(self).connections@, peer@) == 0 ==> info_of(
                final(self).peer_infos@,
                peer@,
            ) is None)),
            !(ev matches Event::Identify(IdentifyEvent::Received { .. })) && !(ev matches
            Event::ConnectionClosed { .. }) ==> final(self).peer_infos == old(self).peer_infos,
    {
        match ev {
            Event::NewListenAddr { address } => Report::ListenAddrBound { address },
            Event::Gateway(g) => self.handle_upnp_event(g),
            Event::Identify(e) => self.handle_identify_event(e),
            Event::Ping(e) => self.handle_ping_event(e),
            Event::ConnectionEstablished { peer, remote_addr } => {
                let rp = clone_string(&peer);
                let ra = clone_string(&remote_addr);
                self.connections.push(ConnRecord { peer, remote_addr });
                Report::ConnectionRecorded { peer: rp, remote_addr: ra }
            },
            Event::ConnectionClosed { peer, cause } => {
                let n = self.connections.len();
                let mut i: usize = 0;
                let mut idx: usize = n;
                while i < n
                    invariant
                        i <= n,
                        idx <= n,
                        n == self.connections@.len(),
                        idx == n ==> forall|j: int| 0 <= j < i ==> self.connections@[j].peer@
                            != peer@,
                        idx < n ==> idx < i && self.connections@[idx as int].peer@ == peer@
                            && forall|j: int| idx < j < i ==> self.connections@[j].peer@ != peer@,
                    decreases n - i,
                {
                    if self.connections[i].peer == peer {
                        idx = i;
                    }
                    i += 1;
                }
                if idx < n {
                    proof {
                        lemma_conn_remove_at(self.connections@, peer@, idx as int);
                    }
                    let _closed = self.connections.remove(idx);
                } else {
                    proof {
                        lemma_conn_remove_absent(self.connections@, peer@);
                    }
                }
                let remaining = self.open_connections_to(&peer);
                if remaining == 0 {
                    let ni = self.peer_infos.len();
                    let mut i2: usize = 0;
                    let mut idx2: usize = ni;
                    while i2 < ni
                        invariant
                            i2 <= ni,
                            idx2 <= ni,
                            ni == self.peer_infos@.len(),
                            idx2 == ni ==> forall|j: int| 0 <= j < i2 ==> self.peer_infos@[j].peer@
                                != peer@,
                            idx2 < ni ==> idx2 < i2 && self.peer_infos@[idx2 as int].peer@
                                == peer@,
                        decreases ni - i2,
                    {
                        if self.peer_infos[i2].peer == peer {
                            idx2 = i2;
                        }
                        i2 += 1;
                    }
                    let ghost s0i = self.peer_infos@;
                    if idx2 < ni {
                        proof {
                            assert forall|j: int|
                                0 <= j < s0i.len() && j != idx2 implies s0i[j].peer@ != peer@ by {
                                if j < idx2 {
                                    assert(s0i[j].peer@ != s0i[idx2 as int].peer@);
                                } else {
                                    assert(s0i[idx2 as int].peer@ != s0i[j].peer@);
                                }
                            }
                            lemma_info_remove_at(s0i, peer@, idx2 as int);
                        }
                        let _dropped = self.peer_infos.remove(idx2);
                    } else {
                        proof {
                            lemma_info_remove_absent(s0i, peer@);
                        }
                    }
                    proof {
                        assert(self.peer_infos@ == info_remove(s0i, peer@));
                        lemma_info_remove_keeps(s0i, peer@);
                        lemma_info_of_remove(s0i, peer@);
                    }
                }
                Report::ConnectionDropped { peer, cause }
            },
            Event::IncomingConnection { local_addr, remote_addr } => Report::IncomingAttempt {
                local_addr,
                remote_addr,
            },
            Event::IncomingConnectionError { local_addr, remote_addr, reason } => {
                Report::IncomingFailed { local_addr, remote_addr, reason }
            },
            Event::OutgoingConnectionError { peer, reason } => Report::OutgoingFailed {
                peer,
                reason,
            },
        }
    }

    /// The externally reported reachability flag for one address: true
    /// exactly while a mapping for that address is active.
    pub fn is_reachable_via(&self, addr: &String) -> (b: bool)
        ensures
            b == self.reachable_via(addr@),
    {
        let n = self.mapped_addrs.len();
        let mut i: usize = 0;
        let mut found = false;
        while i < n
            invariant
                i <= n,
                n == self.mapped_addrs@.len(),
                found <==> exists|j: int| 0 <= j < i && self.mapped_addrs@[j]@ == addr@,
            decreases n - i,
        {
            if self.mapped_addrs[i] == *addr {
                found = true;
            }
            i += 1;
        }
        proof {
            assert(forall|j: int| 0 <= j < n ==> self.mapped_view()[j] == self.mapped_addrs@[j]@);
            if found {
                let j = choose|j: int| 0 <= j < n && self.mapped_addrs@[j]@ == addr@;
                assert(self.mapped_view()[j] == addr@);
            }
            if self.mapped_view().contains(addr@) {
                let j = choose|j: int|
                    0 <= j < self.mapped_view().len() && self.mapped_view()[j] == addr@;
                assert(self.mapped_addrs@[j]@ == addr@);
            }
        }
        found
    }

    /// How many connections to this peer are currently recorded.
    pub fn open_connections_to(&self, peer: &String) -> (n: usize)
        ensures
            n as int == conn_count(self.connections@, peer@),
    {
        let len = self.connections.len();
        let mut i: usize = 0;
        let mut n: usize = 0;
        while i < len
            invariant
                i <= len,
                n <= i,
                len == self.connections@.len(),
                n as int == conn_count(self.connections@.take(i as int), peer@),
            decreases len - i,
        {
            let ghost pre = self.connections@.take(i as int);
            let ghost pre1 = self.connections@.take(i as int + 1);
            proof {
                assert(pre1.drop_last() =~= pre);
                assert(pre1.last() == self.connections@[i as int]);
            }
            if self.connections[i].peer == *peer {
                n += 1;
            }
            i += 1;
        }
        proof {
            assert(self.connections@.take(len as int) =~= self.connections@);
        }
        n
    }

    /// The latest identify metadata recorded for this peer, if any.
    pub fn identify_info_of(&self, peer: &String) -> (r: Option<&PeerInfo>)
        requires
            self.wf(),
        ensures
            (match r {
                Option::Some(pi) => info_of(self.peer_infos@, peer@) == Option::Some(pi@),
                Option::None => info_of(self.peer_infos@, peer@) is None,
            }),
    {
        let n = self.peer_infos.len();
        let mut i: usize = 0;
        let mut idx: usize = n;
        while i < n
            invariant
                i <= n,
                idx <= n,
                n == self.peer_infos@.len(),
                idx == n ==> forall|j: int| 0 <= j < i ==> self.peer_infos@[j].peer@ != peer@,
                idx < n ==> idx < i && self.peer_infos@[idx as int].peer@ == peer@,
            decreases n - i,
        {
            if self.peer_infos[i].peer == *peer {
                idx = i;
            }
            i += 1;
        }
        if idx < n {
            proof {
                assert forall|j: int|
                    0 <= j < self.peer_infos@.len() && j != idx implies self.peer_infos@[j].peer@
                    != peer@ by {
                    if j < idx {
                        assert(self.peer_infos@[j].peer@ != self.peer_infos@[idx as int].peer@);
                    } else {
                        assert(self.peer_infos@[idx as int].peer@ != self.peer_infos@[j].peer@);
                    }
                }
                lemma_info_of_at(self.peer_infos@, peer@, idx as int);
            }
            Option::Some(&self.peer_infos[idx].info)
        } else {
            proof {
                lemma_info_of_absent(self.peer_infos@, peer@);
            }
            Option::None
        }
    }

    /// Handles one liveness probe result.  Probes only measure: no state
    /// changes, and a failure is reported without closing anything.
    pub fn handle_ping_event(&mut self, ev: PingEvent) -> (r: Report)
        requires
            old(self).wf(),
        ensures
            final(self).wf(),
            *final(self) == *old(self),
            (match ev {
                PingEvent { peer, result: PingOutcome::Success { rtt_micros } } => r == (
                Report::PingSuccess { peer, rtt_micros }),
                PingEvent { peer, result: PingOutcome::Failure { reason } } => r == (
                Report::PingFailure { peer, reason }),
            }),
    {
        let PingEvent { peer, result } = ev;
        match result {
            PingOutcome::Success { rtt_micros } => Report::PingSuccess { peer, rtt_micros },
            PingOutcome::Failure { reason } => Report::PingFailure { peer, reason },
        }
    }
}

/// The report the dispatch table prescribes for each event: every event
/// maps to exactly one report carrying the event's own data.  A received
/// identify exchange is pinned up to the mathematical value of the metadata;
/// every other report is pinned exactly.
pub open spec fn event_report_ok(ev: Event, r: Report) -> bool {
    match ev {
        Event::NewListenAddr { address } => r == (Report::ListenAddrBound { address }),
        Event::Gateway(g) => match g {
            GatewayEvent::NewExternalAddr(a) => r == (Report::MappedAddressUsable { address: a }),
            GatewayEvent::ExpiredExternalAddr(a) => r == (Report::MappingExpired { address: a }),
            GatewayEvent::GatewayNotFound => r == Report::GatewayAbsent,
            GatewayEvent::NonRoutableGateway => r == Report::GatewayNonRoutable,
        },
        Event::Identify(e) => match e {
            IdentifyEvent::Received { peer, info } => r matches Report::PeerIdentified {
                peer: rp,
                info: ri,
            } && rp == peer && ri@ == info@,
            IdentifyEvent::Sent { peer } => r == (Report::IdentifySent { peer }),
            IdentifyEvent::Pushed { peer } => r == (Report::IdentifyPushed { peer }),
            IdentifyEvent::Error { peer, reason } => r == (Report::IdentifyFailed {
                peer,
                reason,
            }),
        },
        Event::Ping(e) => match e {
            PingEvent { peer, result: PingOutcome::Success { rtt_micros } } => r == (
            Report::PingSuccess { peer, rtt_micros }),
            PingEvent { peer, result: PingOutcome::Failure { reason } } => r == (
            Report::PingFailure { peer, reason }),
        },
        Event::ConnectionEstablished { peer, remote_addr } => r == (Report::ConnectionRecorded {
            peer,
            remote_addr,
        }),
        Event::ConnectionClosed { peer, cause } => r == (Report::ConnectionDropped {
            peer,
            cause,
        }),
        Event::IncomingConnection { local_addr, remote_addr } => r == (Report::IncomingAttempt {
            local_addr,
            remote_addr,
        }),
        Event::IncomingConnectionError { local_addr, remote_addr, reason } => r == (
        Report::IncomingFailed { local_addr, remote_addr, reason }),
        Event::OutgoingConnectionError { peer, reason } => r == (Report::OutgoingFailed {
            peer,
            reason,
        }),
    }
}

/// Removing a connection of a peer that has none leaves the table unchanged.
pub proof fn lemma_conn_remove_absent(s: Seq<ConnRecord>, p: Seq<char>)
    requires
        forall|j: int| 0 <= j < s.len() ==> s[j].peer@ != p,
    ensures
        conn_remove_last(s, p) == s,
    decreases s.len(),
{
    if s.len() == 0 {
    } else {
        lemma_conn_remove_absent(s.drop_last(), p);
        assert(conn_remove_last(s, p) =~= s);
    }
}

/// Removing the most recent connection of peer `p` removes exactly the
/// record at the last index belonging to `p`.
pub proof fn lemma_conn_remove_at(s: Seq<ConnRecord>, p: Seq<char>, k: int)
    requires
        0 <= k < s.len(),
        s[k].peer@ == p,
        forall|j: int| k < j < s.len() ==> s[j].peer@ != p,
    ensures
        conn_remove_last(s, p) == s.remove(k),
    decreases s.len(),
{
    if k == s.len() - 1 {
        assert(conn_remove_last(s, p) =~= s.remove(k));
    } else {
        lemma_conn_remove_at(s.drop_last(), p, k);
        assert(conn_remove_last(s, p) =~= s.remove(k)) by {
            assert(conn_remove_last(s, p) == s.drop_last().remove(k).push(s.last()));
        }
    }
}

/// With at most one entry per peer, the recorded metadata of peer `p` is
/// the entry at its index.
pub proof fn lemma_info_of_at(s: Seq<PeerInfoEntry>, p: Seq<char>, k: int)
    requires
        0 <= k < s.len(),
        s[k].peer@ == p,
        forall|j: int| 0 <= j < s.len() && j != k ==> s[j].peer@ != p,
    ensures
        info_of(s, p) == Option::Some(s[k].info@),
    decreases s.len(),
{
    if k == s.len() - 1 {
    } else {
        lemma_info_of_at(s.drop_last(), p, k);
    }
}

/// A peer with no entry has no recorded metadata.
pub proof fn lemma_info_of_absent(s: Seq<PeerInfoEntry>, p: Seq<char>)
    requires
        forall|j: int| 0 <= j < s.len() ==> s[j].peer@ != p,
    ensures
        info_of(s, p) is None,
    decreases s.len(),
{
    if s.len() == 0 {
    } else {
        lemma_info_of_absent(s.drop_last(), p);
    }
}

/// An exact copy of a string: the copy is the very same value.
pub fn clone_string(s: &String) -> (r: String)
    ensures
        r == *s,
{
    s.clone()
}

/// A copy of a peer's metadata with the very same mathematical value.
pub fn clone_peer_info(p: &PeerInfo) -> (r: PeerInfo)
    ensures
        r@ == p@,
{
    let n = p.listen_addrs.len();
    let mut listen_addrs: Vec<String> = Vec::new();
    let mut i: usize = 0;
    while i < n
        invariant
            i <= n,
            n == p.listen_addrs@.len(),
            listen_addrs@ == p.listen_addrs@.take(i as int),
        decreases n - i,
    {
        listen_addrs.push(clone_string(&p.listen_addrs[i]));
        proof {
            assert(listen_addrs@ =~= p.listen_addrs@.take(i as int + 1));
        }
        i += 1;
    }
    proof {
        assert(p.listen_addrs@.take(n as int) =~= p.listen_addrs@);
    }
    let r = PeerInfo {
        protocol_version: clone_string(&p.protocol_version),
        agent_version: clone_string(&p.agent_version),
        listen_addrs,
        observed_addr: clone_string(&p.observed_addr),
    };
    proof {
        assert(r.listen_addrs.deep_view() =~= p.listen_addrs.deep_view());
    }
    r
}

/// Removing entries of a peer that has none leaves the table unchanged.
pub proof fn lemma_info_remove_absent(s: Seq<PeerInfoEntry>, p: Seq<char>)
    requires
        forall|j: int| 0 <= j < s.len() ==> s[j].peer@ != p,
    ensures
        info_remove(s, p) == s,
    decreases s.len(),
{
    if s.len() == 0 {
    } else {
        lemma_info_remove_absent(s.drop_last(), p);
        assert(info_remove(s, p) =~= s);
    }
}

/// With at most one entry per peer, removing peer `p` removes exactly the
/// entry at its index.
pub proof fn lemma_info_remove_at(s: Seq<PeerInfoEntry>, p: Seq<char>, k: int)
    requires
        0 <= k < s.len(),
        s[k].peer@ == p,
        forall|j: int| 0 <= j < s.len() && j != k ==> s[j].peer@ != p,
    ensures
        info_remove(s, p) == s.remove(k),
    decreases s.len(),
{
    if k == s.len() - 1 {
        lemma_info_remove_absent(s.drop_last(), p);
        assert(info_remove(s, p) =~= s.remove(k));
    } else {
        lemma_info_remove_at(s.drop_last(), p, k);
        assert(info_remove(s, p) =~= s.remove(k)) by {
            assert(info_remove(s, p) == s.drop_last().remove(k).push(s.last()));
        }
    }
}

/// After removal of peer `p`, no entry of `p` remains.
pub proof fn lemma_info_remove_no_match(s: Seq<PeerInfoEntry>, p: Seq<char>)
    ensures
        forall|j: int| 0 <= j < info_remove(s, p).len() ==> info_remove(s, p)[j].peer@ != p,
    decreases s.len(),
{
    if s.len() == 0 {
    } else {
        lemma_info_remove_no_match(s.drop_last(), p);
        if s.last().peer@ == p {
        } else {
            let r0 = info_remove(s.drop_last(), p);
            let r = r0.push(s.last());
            assert(forall|j: int| 0 <= j < r0.len() ==> r[j] == r0[j]);
            assert(r[r.len() - 1] == s.last());
        }
    }
}

/// Every entry of a removal result was an entry of the original table, so
/// key uniqueness survives the removal.
pub proof fn lemma_info_remove_keeps(s: Seq<PeerInfoEntry>, p: Seq<char>)
    ensures
        forall|j: int| 0 <= j < info_remove(s, p).len() ==> s.contains(
            #[trigger] info_remove(s, p)[j],
        ),
        (forall|i: int, j: int| 0 <= i < j < s.len() ==> s[i].peer@ != s[j].peer@) ==> (forall|
            i: int,
            j: int,
        |
            0 <= i < j < info_remove(s, p).len() ==> info_remove(s, p)[i].peer@ != info_remove(
                s,
                p,
            )[j].peer@),
    decreases s.len(),
{
    if s.len() == 0 {
    } else {
        lemma_info_remove_keeps(s.drop_last(), p);
        assert(forall|j: int| 0 <= j < s.drop_last().len() ==> s.drop_last()[j] == s[j]);
        assert(forall|x: PeerInfoEntry| s.drop_last().contains(x) ==> s.contains(x)) by {
            assert forall|x: PeerInfoEntry| s.drop_last().contains(x) implies s.contains(x) by {
                let k = choose|k: int| 0 <= k < s.drop_last().len() && s.drop_last()[k] == x;
                assert(s[k] == x);
            }
        }
        assert(s.contains(s.last()));
        if s.last().peer@ == p {
        } else {
            let r0 = info_remove(s.drop_last(), p);
            let r = r0.push(s.last());
            assert(forall|j: int| 0 <= j < r0.len() ==> r[j] == r0[j]);
            assert(r[r.len() - 1] == s.last());
            if forall|i: int, j: int| 0 <= i < j < s.len() ==> s[i].peer@ != s[j].peer@ {
                assert(forall|i: int, j: int|
                    0 <= i < j < s.drop_last().len()
                        ==> s.drop_last()[i].peer@ != s.drop_last()[j].peer@);
                assert forall|i: int, j: int| 0 <= i < j < r.len() implies r[i].peer@
                    != r[j].peer@ by {
                    if j < r.len() - 1 {
                    } else {
                        assert(s.drop_last().contains(r[i]));
                        let k = choose|k: int|
                            0 <= k < s.drop_last().len() && s.drop_last()[k] == r[i];
                        assert(s[k] == r[i]);
                        assert(s[k].peer@ != s[s.len() - 1].peer@);
                    }
                }
            }
        }
    }
}

/// Removing a peer's entries keeps every other peer's latest entry intact.
pub proof fn lemma_info_of_remove(s: Seq<PeerInfoEntry>, p: Seq<char>)
    ensures
        forall|q: Seq<char>| q != p ==> info_of(info_remove(s, p), q) == info_of(s, q),
        info_of(info_remove(s, p), p) == Option::<crate::events::PeerInfoV>::None,
    decreases s.len(),
{
    if s.len() == 0 {
    } else {
        lemma_info_of_remove(s.drop_last(), p);
        if s.last().peer@ == p {
            assert(info_remove(s, p) == info_remove(s.drop_last(), p));
            assert forall|q: Seq<char>| q != p implies info_of(info_remove(s, p), q) == info_of(
                s,
                q,
            ) by {
                assert(info_of(s, q) == info_of(s.drop_last(), q));
            }
        } else {
            let r0 = info_remove(s.drop_last(), p);
            let r = r0.push(s.last());
            assert(r.drop_last() =~= r0);
            assert(r.last() == s.last());
            assert forall|q: Seq<char>| q != p implies info_of(r, q) == info_of(s, q) by {
                if q == s.last().peer@ {
                    assert(info_of(r, q) == Option::Some(s.last().info@));
                } else {
                    assert(info_of(r, q) == info_of(r0, q));
                    assert(info_of(s, q) == info_of(s.drop_last(), q));
                }
            }
            assert(info_of(r, p) == info_of(r0, p));
        }
    }
}

/// Membership in a removal result: removing `a` takes out exactly the
/// occurrences of `a` and keeps everything else, so uniqueness survives.
pub proof fn lemma_addr_remove_unique(m: Seq<Seq<char>>, a: Seq<char>)
    ensures
        forall|x: Seq<char>| #[trigger] addr_remove(m, a).contains(x) <==> m.contains(x) && x != a,
        (forall|i: int, j: int| 0 <= i < j < m.len() ==> m[i] != m[j]) ==> (forall|i: int, j: int|
            0 <= i < j < addr_remove(m, a).len() ==> addr_remove(m, a)[i] != addr_remove(m, a)[j]),
    decreases m.len(),
{
    if m.len() == 0 {
    } else {
        lemma_addr_remove_unique(m.drop_last(), a);
        assert(forall|x: Seq<char>| #[trigger] m.contains(x) <==> m.drop_last().contains(x) || x == m.last()) by {
            assert(forall|x: Seq<char>| #[trigger] m.drop_last().contains(x) ==> m.contains(x));
            assert(m.contains(m.last()));
            assert(forall|x: Seq<char>| #[trigger] m.contains(x) && x != m.last()
                ==> m.drop_last().contains(x)) by {
                assert forall|x: Seq<char>| #[trigger] m.contains(x) && x != m.last()
                    implies m.drop_last().contains(x) by {
                    let k = choose|k: int| 0 <= k < m.len() && m[k] == x;
                    assert(k < m.len() - 1);
                    assert(m.drop_last()[k] == x);
                }
            }
        }
        if m.last() == a {
        } else {
            let r0 = addr_remove(m.drop_last(), a);
            let r = r0.push(m.last());
            assert(forall|x: Seq<char>| #[trigger] r.contains(x) <==> r0.contains(x) || x == m.last()) by {
                assert(r[r.len() - 1] == m.last());
                assert(forall|k: int| 0 <= k < r0.len() ==> r[k] == r0[k]);
                assert forall|x: Seq<char>| #[trigger] r.contains(x)
                    implies r0.contains(x) || x == m.last() by {
                    let k = choose|k: int| 0 <= k < r.len() && r[k] == x;
                    if k < r.len() - 1 {
                        assert(r0[k] == x);
                    }
                }
                assert forall|x: Seq<char>| r0.contains(x) implies #[trigger] r.contains(x) by {
                    let k = choose|k: int| 0 <= k < r0.len() && r0[k] == x;
                    assert(r[k] == x);
                }
            }
            if forall|i: int, j: int| 0 <= i < j < m.len() ==> m[i] != m[j] {
                assert(forall|i: int, j: int|
                    0 <= i < j < m.drop_last().len() ==> m.drop_last()[i] != m.drop_last()[j]);
                assert(!m.drop_last().contains(m.last())) by {
                    if m.drop_last().contains(m.last()) {
                        let k = choose|k: int|
                            0 <= k < m.len() - 1 && m.drop_last()[k] == m.last();
                        assert(m[k] == m[m.len() - 1]);
                    }
                }
                assert forall|i: int, j: int| 0 <= i < j < r.len() implies r[i] != r[j] by {
                    if j < r.len() - 1 {
                        assert(r[i] == r0[i] && r[j] == r0[j]);
                    } else {
                        assert(r[j] == m.last());
                        assert(r0.contains(r0[i]));
                    }
                }
            }
        }
    }
}

} // verus!
