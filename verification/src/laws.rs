//! Node-level laws, proved over whole event histories.
//!
//! The handlers in [`crate::state`] pin each single step to the spec-level
//! step functions [`gw_step`] and [`conn_step`]; the proofs here chain those
//! steps over arbitrary event sequences: reachability reporting is exact,
//! mapping is idempotent, and the connection table never holds a record of
//! a connection whose history has closed it.

use vstd::prelude::*;
use crate::events::{Event, GatewayEvent};
use crate::state::{gw_step, conn_step, conn_count, conn_remove_last, ConnRecord};
use crate::state::lemma_addr_remove_unique;

verus! {

/// The mapped address set after a whole sequence of gateway events,
/// starting from nothing mapped.
pub open spec fn gw_run(evs: Seq<GatewayEvent>) -> Seq<Seq<char>>
    decreases evs.len(),
{
    if evs.len() == 0 {
        Seq::empty()
    } else {
        gw_step(gw_run(evs.drop_last()), evs.last())
    }
}

/// Whether the most recent gateway event about address `a` was a successful
/// mapping, with no expiry of that same address after it.
pub open spec fn addr_active(evs: Seq<GatewayEvent>, a: Seq<char>) -> bool
    decreases evs.len(),
{
    if evs.len() == 0 {
        false
    } else {
        match evs.last() {
            GatewayEvent::NewExternalAddr(x) => if x@ == a {
                true
            } else {
                addr_active(evs.drop_last(), a)
            },
            GatewayEvent::ExpiredExternalAddr(x) => if x@ == a {
                false
            } else {
                addr_active(evs.drop_last(), a)
            },
            GatewayEvent::GatewayNotFound => addr_active(evs.drop_last(), a),
            GatewayEvent::NonRoutableGateway => addr_active(evs.drop_last(), a),
        }
    }
}

/// One more gateway event extends the run by one step, so a node that
/// applies [`gw_step`] per event (as the handlers' contracts state) holds
/// exactly `gw_run` of its history.
pub proof fn lemma_gw_run_extends(evs: Seq<GatewayEvent>, e: GatewayEvent)
    ensures
        gw_run(evs.push(e)) == gw_step(gw_run(evs), e),
{
    assert(evs.push(e).drop_last() =~= evs);
    assert(evs.push(e).last() == e);
}

/// Appending one element extends membership by exactly that element.
pub proof fn lemma_push_contains(m: Seq<Seq<char>>, x: Seq<char>, y: Seq<char>)
    ensures
        m.push(x).contains(y) <==> m.contains(y) || x == y,
{
    if m.contains(y) {
        let k = choose|k: int| 0 <= k < m.len() && m[k] == y;
        assert(m.push(x)[k] == y);
    }
    assert(m.push(x)[m.len() as int] == x);
    if m.push(x).contains(y) {
        let k = choose|k: int| 0 <= k < m.push(x).len() && m.push(x)[k] == y;
        if k < m.len() {
            assert(m[k] == y);
        }
    }
}

/// LAW (reachability is exact): for every sequence of gateway mapping
/// events, an address is in the node's mapped set after the sequence — and
/// so reported as reachable — if and only if the most recent mapping event
/// for that address was a successful mapping and no expiry of that same
/// address has been observed since.
pub proof fn lemma_reachability(evs: Seq<GatewayEvent>, a: Seq<char>)
    ensures
        gw_run(evs).contains(a) <==> addr_active(evs, a),
    decreases evs.len(),
{
    if evs.len() == 0 {
        assert(!gw_run(evs).contains(a));
    } else {
        lemma_reachability(evs.drop_last(), a);
        let m = gw_run(evs.drop_last());
        match evs.last() {
            GatewayEvent::NewExternalAddr(x) => {
                if m.contains(x@) {
                } else {
                    lemma_push_contains(m, x@, a);
                }
            },
            GatewayEvent::ExpiredExternalAddr(x) => {
                lemma_addr_remove_unique(m, x@);
            },
            GatewayEvent::GatewayNotFound => {},
            GatewayEvent::NonRoutableGateway => {},
        }
    }
}

/// LAW (mapping is idempotent): a duplicate mapping event for an address
/// leaves the mapped address set exactly as the first one left it.
pub proof fn lemma_mapped_idempotent(m: Seq<Seq<char>>, a: String)
    ensures
        gw_step(gw_step(m, GatewayEvent::NewExternalAddr(a)), GatewayEvent::NewExternalAddr(a))
            == gw_step(m, GatewayEvent::NewExternalAddr(a)),
{
    let m1 = gw_step(m, GatewayEvent::NewExternalAddr(a));
    if m.contains(a@) {
    } else {
        lemma_push_contains(m, a@, a@);
    }
    assert(m1.contains(a@));
}

/// The connection table after a whole event sequence, starting with no
/// connections.
pub open spec fn conn_run(evs: Seq<Event>) -> Seq<ConnRecord>
    decreases evs.len(),
{
    if evs.len() == 0 {
        Seq::empty()
    } else {
        conn_step(conn_run(evs.drop_last()), evs.last())
    }
}

/// How many connections to peer `p` a history leaves open: each
/// establishment opens one, each close closes one if any is open.
pub open spec fn hist_open(evs: Seq<Event>, p: Seq<char>) -> int
    decreases evs.len(),
{
    if evs.len() == 0 {
        0
    } else {
        let c = hist_open(evs.drop_last(), p);
        match evs.last() {
            Event::ConnectionEstablished { peer, .. } => if peer@ == p {
                c + 1
            } else {
                c
            },
            Event::ConnectionClosed { peer, .. } => if peer@ == p && c > 0 {
                c - 1
            } else {
                c
            },
            _ => c,
        }
    }
}

/// One more event extends the run by one step, so a node that applies
/// [`conn_step`] per event (as the handlers' contracts state) holds exactly
/// `conn_run` of its history.
pub proof fn lemma_conn_run_extends(evs: Seq<Event>, e: Event)
    ensures
        conn_run(evs.push(e)) == conn_step(conn_run(evs), e),
{
    assert(evs.push(e).drop_last() =~= evs);
    assert(evs.push(e).last() == e);
}

/// Whether this event establishes a connection to peer `p`.
pub open spec fn establishes(ev: Event, p: Seq<char>) -> bool {
    match ev {
        Event::ConnectionEstablished { peer, .. } => peer@ == p,
        _ => false,
    }
}

/// A record count is never negative.
pub proof fn lemma_conn_count_nonneg(s: Seq<ConnRecord>, p: Seq<char>)
    ensures
        conn_count(s, p) >= 0,
    decreases s.len(),
{
    if s.len() == 0 {
    } else {
        lemma_conn_count_nonneg(s.drop_last(), p);
    }
}

/// Removing the most recent connection of peer `q` lowers `q`'s own count
/// by one when any is present, and leaves every other peer's count alone.
pub proof fn lemma_count_remove_last(s: Seq<ConnRecord>, q: Seq<char>, p: Seq<char>)
    ensures
        conn_count(conn_remove_last(s, q), p) == if q == p && conn_count(s, q) > 0 {
            conn_count(s, p) - 1
        } else {
            conn_count(s, p)
        },
    decreases s.len(),
{
    if s.len() == 0 {
    } else if s.last().peer@ == q {
        lemma_conn_count_nonneg(s.drop_last(), q);
    } else {
        lemma_count_remove_last(s.drop_last(), q, p);
        let r0 = conn_remove_last(s.drop_last(), q);
        let r = r0.push(s.last());
        assert(r.drop_last() =~= r0);
        assert(r.last() == s.last());
    }
}

/// LAW (the table mirrors the history): after any event sequence, the
/// number of records the node holds for a peer equals the number of
/// connections to that peer the history leaves open — every close removes
/// the record its establishment created, and nothing else creates or
/// removes records.
pub proof fn lemma_connection_tracking(evs: Seq<Event>, p: Seq<char>)
    ensures
        conn_count(conn_run(evs), p) == hist_open(evs, p),
        hist_open(evs, p) >= 0,
    decreases evs.len(),
{
    if evs.len() == 0 {
    } else {
        lemma_connection_tracking(evs.drop_last(), p);
        let s = conn_run(evs.drop_last());
        match evs.last() {
            Event::ConnectionEstablished { peer, remote_addr } => {
                let r = s.push(ConnRecord { peer, remote_addr });
                assert(r.drop_last() =~= s);
                assert(r.last() == (ConnRecord { peer, remote_addr }));
            },
            Event::ConnectionClosed { peer, .. } => {
                lemma_count_remove_last(s, peer@, p);
            },
            _ => {},
        }
    }
}

/// LAW (no stale connection records): once every connection to a peer
/// established so far has been closed, and no new connection to that peer
/// is established afterwards, the node holds no record of the peer — a
/// later event referencing it refers to no live connection.  A `Closed`
/// must be followed by a new establishment before any event can again find
/// that peer's connection recorded.
pub proof fn lemma_no_stale_record(evs: Seq<Event>, i: int, j: int, p: Seq<char>)
    requires
        0 <= i <= j <= evs.len(),
        hist_open(evs.take(i), p) == 0,
        forall|k: int| i <= k < j ==> !establishes(#[trigger] evs[k], p),
    ensures
        conn_count(conn_run(evs.take(j)), p) == 0,
    decreases j - i,
{
    if j == i {
        lemma_connection_tracking(evs.take(i), p);
    } else {
        lemma_no_stale_record(evs, i, j - 1, p);
        lemma_connection_tracking(evs.take(j - 1), p);
        assert(evs.take(j).drop_last() =~= evs.take(j - 1));
        assert(evs.take(j).last() == evs[j - 1]);
        assert(hist_open(evs.take(j), p) == 0) by {
            assert(!establishes(evs[j - 1], p));
        }
        lemma_connection_tracking(evs.take(j), p);
    }
}

} // verus!
