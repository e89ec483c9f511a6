//! Startup decisions: the listen address to bind and the optional dial.
//!
//! The node always binds every local interface on its configured port; the
//! exact multiaddress string for that is built and proved here.  An optional
//! dial target is validated by the multiaddress parser: a well-formed target
//! yields a dial instruction, a malformed one yields a report and nothing
//! more — never a failure that would keep the event loop from starting.

use vstd::prelude::*;
use crate::state::NodeState;
use crate::state::GatewayStatus;

verus! {

/// libp2p's structured network address; opaque here, produced only by the
/// trusted parser below and consumed by the process's transport stack.
#[verifier::external_type_specification]
#[verifier::external_body]
pub struct ExMultiaddr(libp2p::Multiaddr);

/// Whether libp2p's multiaddress grammar accepts this string; a function of
/// the characters alone.
pub uninterp spec fn multiaddr_parses(s: Seq<char>) -> bool;

/// Relies on `<libp2p::Multiaddr as FromStr>::from_str`: it parses from the
/// input characters alone, and succeeds exactly on the multiaddress grammar
/// named by `multiaddr_parses`.
#[verifier::external_body]
fn parse_multiaddr(s: &str) -> (r: Option<libp2p::Multiaddr>)
    ensures
        r is Some <==> multiaddr_parses(s@),
{
    match s.parse::<libp2p::Multiaddr>() {
        Ok(a) => Some(a),
        Err(_) => None,
    }
}

/// What startup decides about the optional dial target.
pub enum DialPlan {
    /// No target was configured: nothing to dial.
    NoTarget,
    /// The target is a well-formed multiaddress: dial it.
    Dial { addr: libp2p::Multiaddr, input: String },
    /// The target is malformed: report it and continue without dialing.
    Invalid { input: String },
}

/// Decides the optional startup dial.  A malformed target is classified as
/// `Invalid`, to be reported and ignored; it never aborts startup.
pub fn plan_dial(target: Option<String>) -> (r: DialPlan)
    ensures
        (match target {
            Option::None => r is NoTarget,
            Option::Some(s) => if multiaddr_parses(s@) {
                r matches DialPlan::Dial { addr: _, input } && input == s
            } else {
                r == (DialPlan::Invalid { input: s })
            },
        }),
{
    match target {
        Option::None => DialPlan::NoTarget,
        Option::Some(s) => {
            let parsed = parse_multiaddr(s.as_str());
            match parsed {
                Option::Some(addr) => DialPlan::Dial { addr, input: s },
                Option::None => DialPlan::Invalid { input: s },
            }
        },
    }
}

/// The decimal digit character for `d`.
pub open spec fn digit_char(d: nat) -> char {
    if d == 0 {
        '0'
    } else if d == 1 {
        '1'
    } else if d == 2 {
        '2'
    } else if d == 3 {
        '3'
    } else if d == 4 {
        '4'
    } else if d == 5 {
        '5'
    } else if d == 6 {
        '6'
    } else if d == 7 {
        '7'
    } else if d == 8 {
        '8'
    } else {
        '9'
    }
}

/// The decimal rendering of `n`, most significant digit first, with no
/// leading zeros (a single zero for zero itself).
pub open spec fn dec_digits(n: nat) -> Seq<char>
    decreases n,
{
    if n < 10 {
        seq![digit_char(n)]
    } else {
        dec_digits(n / 10).push(digit_char(n % 10))
    }
}

/// The decimal digit character for `d`, executable.
fn digit_char_exec(d: u16) -> (c: char)
    requires
        d < 10,
    ensures
        c == digit_char(d as nat),
{
    if d == 0 {
        '0'
    } else if d == 1 {
        '1'
    } else if d == 2 {
        '2'
    } else if d == 3 {
        '3'
    } else if d == 4 {
        '4'
    } else if d == 5 {
        '5'
    } else if d == 6 {
        '6'
    } else if d == 7 {
        '7'
    } else if d == 8 {
        '8'
    } else {
        '9'
    }
}

/// Relies on `String::push`: appends exactly the given character.
#[verifier::external_body]
fn string_push_char(s: &mut String, c: char)
    ensures
        final(s)@ == old(s)@.push(c),
{
    s.push(c);
}

/// Relies on `String::push_str`: appends exactly the given string slice.
#[verifier::external_body]
fn string_push_str(s: &mut String, t: &str)
    ensures
        final(s)@ == old(s)@ + t@,
{
    s.push_str(t);
}

/// Renders a port number in decimal.
pub fn u16_to_dec(n: u16) -> (r: String)
    ensures
        r@ == dec_digits(n as nat),
{
    let mut rev: Vec<char> = Vec::new();
    let mut m: u16 = n;
    while m >= 10
        invariant
            dec_digits(n as nat) == dec_digits(m as nat) + rev@.reverse(),
        decreases m,
    {
        let d = digit_char_exec(m % 10);
        let ghost rev0 = rev@;
        proof {
            assert(m as nat / 10 == (m / 10) as nat);
            assert(m as nat % 10 == (m % 10) as nat);
            assert(dec_digits(m as nat) == dec_digits((m / 10) as nat).push(d));
            assert(rev0.push(d).reverse() =~= seq![d] + rev0.reverse());
            assert(dec_digits((m / 10) as nat) + rev0.push(d).reverse() =~= dec_digits(
                (m / 10) as nat,
            ).push(d) + rev0.reverse());
        }
        rev.push(d);
        m = m / 10;
    }
    let d0 = digit_char_exec(m);
    let mut r = String::new();
    string_push_char(&mut r, d0);
    proof {
        assert(r@ =~= seq![digit_char(m as nat)]);
        assert(r@ =~= dec_digits(m as nat));
        assert(r@ + rev@.reverse().take(0) =~= dec_digits(m as nat));
    }
    let ghost mf = m;
    let k = rev.len();
    let mut i: usize = 0;
    while i < k
        invariant
            i <= k,
            k == rev@.len(),
            dec_digits(n as nat) == dec_digits(mf as nat) + rev@.reverse(),
            r@ == dec_digits(mf as nat) + rev@.reverse().take(i as int),
        decreases k - i,
    {
        let c = rev[k - 1 - i];
        proof {
            assert(rev@.reverse()[i as int] == rev@[k - 1 - i]);
        }
        string_push_char(&mut r, c);
        proof {
            assert(r@ =~= dec_digits(mf as nat) + rev@.reverse().take(i as int + 1));
        }
        i += 1;
    }
    proof {
        assert(rev@.reverse().take(k as int) =~= rev@.reverse());
    }
    r
}

/// The multiaddress string for listening on all local interfaces at `port`
/// over the connection-oriented transport.
pub open spec fn listen_addr_spec(port: u16) -> Seq<char> {
    "/ip4/0.0.0.0/tcp/"@ + dec_digits(port as nat)
}

/// Builds the listening multiaddress string for this port.
pub fn listen_addr_string(port: u16) -> (r: String)
    ensures
        r@ == listen_addr_spec(port),
{
    let mut r = String::new();
    string_push_str(&mut r, "/ip4/0.0.0.0/tcp/");
    let digits = u16_to_dec(port);
    string_push_str(&mut r, digits.as_str());
    proof {
        assert(r@ =~= listen_addr_spec(port));
    }
    r
}

/// Everything startup decides before the dispatch loop begins.
pub struct Startup {
    /// The node's summary state, ready for the first event.
    pub state: NodeState,
    /// The multiaddress string to bind.
    pub listen_addr: String,
    /// What to do about the optional dial target.
    pub dial: DialPlan,
}

/// The startup decisions: a fresh node state with gateway discovery begun,
/// the listen address for the configured port, and the dial plan for the
/// optional target.  This function is total: in particular a malformed dial
/// target only yields an `Invalid` plan to be reported — the state is ready
/// for the dispatch loop in every case.
pub fn begin_node(port: u16, connect: Option<String>) -> (r: Startup)
    ensures
        r.state.wf(),
        r.state.gateway == GatewayStatus::Probing,
        r.state.mapped_view() == Seq::<Seq<char>>::empty(),
        r.state.connections@ == Seq::<crate::state::ConnRecord>::empty(),
        r.state.peer_infos@ == Seq::<crate::state::PeerInfoEntry>::empty(),
        r.listen_addr@ == listen_addr_spec(port),
        (match connect {
            Option::None => r.dial is NoTarget,
            Option::Some(s) => if multiaddr_parses(s@) {
                r.dial matches DialPlan::Dial { addr: _, input } && input == s
            } else {
                r.dial == (DialPlan::Invalid { input: s })
            },
        }),
{
    let mut state = NodeState::new();
    state.begin_discovery();
    let listen_addr = listen_addr_string(port);
    let dial = plan_dial(connect);
    Startup { state, listen_addr, dial }
}

} // verus!
