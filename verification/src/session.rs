//! Per-connection state machine. It interprets one decoded packet at a
//! time, consults the routing table on the handshake, and decides the
//! connection's fate: answer locally, connect to a backend, or hand the
//! byte stream off to a relay. All socket work is returned to the
//! caller as a `Step`; the machine itself only computes.

use vstd::prelude::*;
use vstd::utf8::{encode_utf8, decode_utf8};
use crate::codec::{
    Packet, PacketBuilder, FramingError,
    varint_enc, varint_ok, varint_size, varint_value, varint_truncated,
    le_bytes, le_value, be16_enc, be16_value,
    str_enc, str_at_ok, str_at_bytes, str_at_err, frame, header_ok, header_len,
    lemma_varint_enc_parses, lemma_varint_enc_len5, lemma_le_round_trip, lemma_le_bytes_len,
};
use crate::routing::{RoutingTable, RoutingTableV, spec_lookup, spec_display_name};
use crate::status::{status_json, status_name_fits, status_json_string, lemma_status_json_fits};

verus! {

/// The first client message: protocol version, requested hostname and
/// port, and the next state the client asks for (1 = status,
/// 2 = login).
pub struct Handshake {
    pub protocol: u32,
    pub host: String,
    pub port: u16,
    pub state: u32,
}

/// Mathematical image of a parsed handshake, with the number of
/// payload bytes it consumed.
pub ghost struct HandshakeV {
    pub protocol: u32,
    pub host: Seq<char>,
    pub port: u16,
    pub state: u32,
    pub used: nat,
}

/// What a handshake payload at the front of `rem` parses to, if it
/// parses: a protocol varint, a length-prefixed hostname, a big-endian
/// port, and a state varint.
pub open spec fn parse_handshake_spec(rem: Seq<u8>) -> Option<HandshakeV> {
    if !varint_ok(rem) {
        None
    } else {
        let r1 = rem.skip(varint_size(rem) as int);
        if !str_at_ok(r1) {
            None
        } else {
            let r2 = r1.skip((varint_size(r1) + varint_value(r1)) as int);
            if r2.len() < 2 {
                None
            } else {
                let r3 = r2.skip(2);
                if !varint_ok(r3) {
                    None
                } else {
                    Some(HandshakeV {
                        protocol: varint_value(rem) as u32,
                        host: decode_utf8(str_at_bytes(r1)),
                        port: be16_value(r2.take(2)) as u16,
                        state: varint_value(r3) as u32,
                        used: (rem.len() - r3.len() + varint_size(r3)) as nat,
                    })
                }
            }
        }
    }
}

/// The first fault met when no handshake parses at the front of `rem`.
pub open spec fn parse_handshake_err(rem: Seq<u8>) -> FramingError {
    if !varint_ok(rem) {
        if varint_truncated(rem) {
            FramingError::Truncated
        } else {
            FramingError::VarIntTooLarge
        }
    } else {
        let r1 = rem.skip(varint_size(rem) as int);
        if !str_at_ok(r1) {
            str_at_err(r1)
        } else {
            let r2 = r1.skip((varint_size(r1) + varint_value(r1)) as int);
            if r2.len() < 2 {
                FramingError::Truncated
            } else {
                let r3 = r2.skip(2);
                if varint_truncated(r3) {
                    FramingError::Truncated
                } else {
                    FramingError::VarIntTooLarge
                }
            }
        }
    }
}

/// Read the handshake fields at the cursor. On a fault the cursor does
/// not move.
pub fn parse_handshake(pkt: &mut Packet) -> (r: Result<Handshake, FramingError>)
    requires
        old(pkt).wf(),
    ensures
        final(pkt).wf(),
        final(pkt).body == old(pkt).body,
        final(pkt).size == old(pkt).size,
        final(pkt).id == old(pkt).id,
        match r {
            Ok(h) => {
                &&& parse_handshake_spec(old(pkt).remaining()) matches Some(hv)
                    && h.protocol == hv.protocol
                    && h.host@ == hv.host
                    && h.port == hv.port
                    && h.state == hv.state
                    && final(pkt).offset as nat == old(pkt).offset + hv.used
            },
            Err(e) => {
                &&& parse_handshake_spec(old(pkt).remaining()) is None
                &&& e == parse_handshake_err(old(pkt).remaining())
                &&& final(pkt).offset == old(pkt).offset
            },
        },
{
    let ghost rem = old(pkt).remaining();
    let off0: u32 = pkt.offset;
    let protocol = match pkt.read_var_int() {
        Ok(v) => v,
        Err(e) => {
            return Err(e);
        },
    };
    proof {
        assert(pkt.remaining() =~= rem.skip(varint_size(rem) as int));
    }
    let ghost r1 = rem.skip(varint_size(rem) as int);
    let host = match pkt.read_string() {
        Ok(s) => s,
        Err(e) => {
            pkt.offset = off0;
            return Err(e);
        },
    };
    proof {
        assert(pkt.remaining() =~= r1.skip((varint_size(r1) + varint_value(r1)) as int));
    }
    let ghost r2 = r1.skip((varint_size(r1) + varint_value(r1)) as int);
    let port = match pkt.read_uint16() {
        Ok(v) => v,
        Err(e) => {
            pkt.offset = off0;
            return Err(e);
        },
    };
    proof {
        assert(pkt.remaining() =~= r2.skip(2));
    }
    let ghost r3 = r2.skip(2);
    let state = match pkt.read_var_int() {
        Ok(v) => v,
        Err(e) => {
            pkt.offset = off0;
            return Err(e);
        },
    };
    Ok(Handshake { protocol, host, port, state })
}

/// Per-connection data gathered from the handshake: the client's
/// protocol, port and requested state, whether a routed backend turned
/// out unreachable, and the peer address of a connected backend.
pub struct SessionData {
    pub protocol: u32,
    pub port: u16,
    pub state: u32,
    pub backend_offline: bool,
    pub backend_ip: Option<String>,
}

/// The connection's phase: waiting for the handshake, holding
/// handshake data while a local status answer is still possible, or
/// handed off to the relay (every further packet is ignored).
pub enum Session {
    AwaitingHandshake,
    Pending(SessionData),
    HandedOff,
}

/// Mathematical image of `SessionData`.
pub ghost struct SessionDataV {
    pub protocol: u32,
    pub port: u16,
    pub state: u32,
    pub backend_offline: bool,
    pub backend_ip: Option<Seq<char>>,
}

/// Mathematical image of `Session`.
pub ghost enum SessionV {
    AwaitingHandshake,
    Pending(SessionDataV),
    HandedOff,
}

impl View for SessionData {
    type V = SessionDataV;

    open spec fn view(&self) -> SessionDataV {
        SessionDataV {
            protocol: self.protocol,
            port: self.port,
            state: self.state,
            backend_offline: self.backend_offline,
            backend_ip: match self.backend_ip {
                Some(ip) => Some(ip@),
                None => None,
            },
        }
    }
}

impl View for Session {
    type V = SessionV;

    open spec fn view(&self) -> SessionV {
        match self {
            Session::AwaitingHandshake => SessionV::AwaitingHandshake,
            Session::Pending(d) => SessionV::Pending(d@),
            Session::HandedOff => SessionV::HandedOff,
        }
    }
}

/// What the caller must do next: nothing, close the connection, write
/// bytes back to the client, open a backend connection, or write bytes
/// to the backend and then relay the two sockets.
pub enum Step {
    Ignore,
    Close,
    Reply(Vec<u8>),
    Connect(String, u16),
    Handoff(Vec<u8>),
}

/// Mathematical image of `Step`.
pub ghost enum StepV {
    Ignore,
    Close,
    Reply(Seq<u8>),
    Connect(Seq<char>, u16),
    Handoff(Seq<u8>),
}

impl View for Step {
    type V = StepV;

    open spec fn view(&self) -> StepV {
        match self {
            Step::Ignore => StepV::Ignore,
            Step::Close => StepV::Close,
            Step::Reply(b) => StepV::Reply(b@),
            Step::Connect(h, p) => StepV::Connect(h@, *p),
            Step::Handoff(b) => StepV::Handoff(b@),
        }
    }
}

/// A hostname of this byte length leaves room for the rest of a
/// synthesized handshake inside the 32-bit length prefixes.
pub open spec fn host_fits(h: Seq<char>) -> bool {
    encode_utf8(h).len() + 64 <= u32::MAX
}

/// The handshake frame the proxy writes to a backend on handoff: id 0,
/// the client's protocol version, the backend's peer address as the
/// hostname, and the client's port and requested state.
pub open spec fn synth_handshake_frame(protocol: u32, host: Seq<char>, port: u16, state: u32) -> Seq<u8> {
    frame(varint_enc(0) + varint_enc(protocol as nat) + str_enc(host)
        + be16_enc(port) + varint_enc(state as nat))
}

/// The echo written back for a ping: id 1 and the eight payload bytes.
pub open spec fn ping_reply_frame(payload: nat) -> Seq<u8> {
    frame(varint_enc(1) + le_bytes(payload, 8))
}

/// The locally synthesized status packet: id 0 and the status document
/// as a length-prefixed string.
pub open spec fn status_frame(protocol: u32, name: Seq<char>, offline: bool) -> Seq<u8> {
    frame(varint_enc(0) + str_enc(status_json(protocol, name, offline)))
}

/// The empty status-request packet forwarded after the synthesized
/// handshake when a status query is handed off.
pub open spec fn empty_frame() -> Seq<u8> {
    frame(varint_enc(0))
}

/// Build the echo for a ping payload.
pub fn build_ping_reply(payload: u64) -> (r: Vec<u8>)
    ensures
        r@ == ping_reply_frame(payload as nat),
{
    let mut b = PacketBuilder::new();
    b.write_var_int(1);
    b.write_long(payload);
    proof {
        assert(varint_enc(1).len() == 1);
        lemma_le_bytes_len(payload as nat, 8);
    }
    let p = b.build();
    p.body
}

/// Build the synthesized handshake frame written to a backend.
pub fn build_forward_handshake(protocol: u32, host: &str, port: u16, state: u32) -> (r: Vec<u8>)
    requires
        host_fits(host@),
    ensures
        r@ == synth_handshake_frame(protocol, host@, port, state),
{
    proof {
        lemma_varint_enc_len5(protocol as nat);
        lemma_varint_enc_len5(state as nat);
    }
    let mut b = PacketBuilder::new();
    b.write_var_int(0);
    b.write_var_int(protocol);
    b.write_string(host);
    b.write_uint16(port);
    b.write_var_int(state);
    proof {
        lemma_varint_enc_len5(encode_utf8(host@).len());
        assert(varint_enc(0).len() == 1);
        assert(be16_enc(port).len() == 2);
        assert(str_enc(host@).len() == varint_enc(encode_utf8(host@).len()).len()
            + encode_utf8(host@).len());
        assert(b@.len() + 5 <= u32::MAX);
    }
    let p = b.build();
    p.body
}

/// Build the locally synthesized status packet.
pub fn build_status_frame(protocol: u32, name: &str, offline: bool) -> (r: Vec<u8>)
    requires
        status_name_fits(name@),
    ensures
        r@ == status_frame(protocol, name@, offline),
{
    proof {
        lemma_status_json_fits(protocol, name@, offline);
    }
    let json = status_json_string(protocol, name, offline);
    let mut b = PacketBuilder::new();
    b.write_var_int(0);
    b.write_string(json.as_str());
    proof {
        lemma_varint_enc_len5(encode_utf8(json@).len());
    }
    let p = b.build();
    p.body
}

/// Build the empty status-request frame.
pub fn build_empty_frame() -> (r: Vec<u8>)
    ensures
        r@ == empty_frame(),
{
    let mut b = PacketBuilder::new();
    b.write_var_int(0);
    let p = b.build();
    p.body
}

/// The transition taken for one decoded packet: the next session state
/// and the step the caller must perform. `id` is the packet id and
/// `rem` the payload bytes at the cursor.
pub open spec fn next_step(s: SessionV, id: u32, rem: Seq<u8>, t: RoutingTableV) -> (SessionV, StepV) {
    if s is HandedOff {
        (s, StepV::Ignore)
    } else if id == 0 {
        match s {
            SessionV::AwaitingHandshake => {
                match parse_handshake_spec(rem) {
                    None => (s, StepV::Close),
                    Some(h) => {
                        let d = SessionDataV {
                            protocol: h.protocol,
                            port: h.port,
                            state: h.state,
                            backend_offline: false,
                            backend_ip: None,
                        };
                        match spec_lookup(t.routes, h.host) {
                            None => (SessionV::Pending(d), StepV::Ignore),
                            Some((bh, bp)) => (SessionV::Pending(d), StepV::Connect(bh, bp)),
                        }
                    },
                }
            },
            SessionV::Pending(d) => {
                match d.backend_ip {
                    Some(ip) => (
                        SessionV::HandedOff,
                        StepV::Handoff(
                            synth_handshake_frame(d.protocol, ip, d.port, d.state) + empty_frame(),
                        ),
                    ),
                    None => (
                        SessionV::Pending(d),
                        StepV::Reply(status_frame(d.protocol, spec_display_name(t), d.backend_offline)),
                    ),
                }
            },
            SessionV::HandedOff => (s, StepV::Ignore),
        }
    } else if id == 1 {
        if rem.len() >= 8 {
            (s, StepV::Reply(ping_reply_frame(le_value(rem.take(8)))))
        } else {
            (s, StepV::Close)
        }
    } else {
        (s, StepV::Ignore)
    }
}

/// Payload bytes the cursor moves past for one packet.
pub open spec fn consumed_bytes(s: SessionV, id: u32, rem: Seq<u8>) -> nat {
    if s is HandedOff {
        0
    } else if id == 0 {
        if s is AwaitingHandshake {
            match parse_handshake_spec(rem) {
                Some(h) => h.used,
                None => 0,
            }
        } else {
            0
        }
    } else if id == 1 {
        if rem.len() >= 8 {
            8
        } else {
            0
        }
    } else {
        0
    }
}

/// Drive the session with one decoded packet: returns the next state
/// and the step to perform. A placeholder packet (`offset == 0`: too
/// few bytes for a frame header) asks for nothing but more bytes.
pub fn handle_packet(sess: Session, pkt: &mut Packet, table: &RoutingTable) -> (r: (Session, Step))
    requires
        old(pkt).wf(),
        status_name_fits(spec_display_name(table@)),
        sess@ matches SessionV::Pending(d)
            ==> (d.backend_ip matches Some(ip) ==> host_fits(ip)),
    ensures
        final(pkt).wf(),
        final(pkt).body == old(pkt).body,
        final(pkt).size == old(pkt).size,
        final(pkt).id == old(pkt).id,
        old(pkt).offset == 0 ==> r.0@ == sess@ && r.1@ == StepV::Ignore
            && final(pkt).offset == 0,
        old(pkt).offset != 0 ==> {
            &&& (r.0@, r.1@) == next_step(sess@, old(pkt).id, old(pkt).remaining(), table@)
            &&& final(pkt).offset as nat == old(pkt).offset
                + consumed_bytes(sess@, old(pkt).id, old(pkt).remaining())
        },
{
    if pkt.offset == 0 {
        return (sess, Step::Ignore);
    }
    if pkt.id == 0 {
        match sess {
            Session::HandedOff => (Session::HandedOff, Step::Ignore),
            Session::AwaitingHandshake => {
                match parse_handshake(pkt) {
                    Err(_) => (Session::AwaitingHandshake, Step::Close),
                    Ok(h) => {
                        let d = SessionData {
                            protocol: h.protocol,
                            port: h.port,
                            state: h.state,
                            backend_offline: false,
                            backend_ip: None,
                        };
                        match table.lookup(h.host.as_str()) {
                            None => (Session::Pending(d), Step::Ignore),
                            Some((bh, bp)) => (Session::Pending(d), Step::Connect(bh, bp)),
                        }
                    },
                }
            },
            Session::Pending(d) => {
                let SessionData { protocol, port, state, backend_offline, backend_ip } = d;
                match backend_ip {
                    Some(ip) => {
                        let mut bytes = build_forward_handshake(protocol, ip.as_str(), port, state);
                        let mut tail = build_empty_frame();
                        bytes.append(&mut tail);
                        (Session::HandedOff, Step::Handoff(bytes))
                    },
                    None => {
                        let name = table.display_name();
                        let reply = build_status_frame(protocol, name.as_str(), backend_offline);
                        (
                            Session::Pending(SessionData {
                                protocol,
                                port,
                                state,
                                backend_offline,
                                backend_ip: None,
                            }),
                            Step::Reply(reply),
                        )
                    },
                }
            },
        }
    } else if pkt.id == 1 {
        match sess {
            Session::HandedOff => (Session::HandedOff, Step::Ignore),
            other => {
                match pkt.read_long() {
                    Err(_) => (other, Step::Close),
                    Ok(payload) => {
                        let reply = build_ping_reply(payload);
                        (other, Step::Reply(reply))
                    },
                }
            },
        }
    } else {
        (sess, Step::Ignore)
    }
}

/// The transition taken when the backend connect attempt settles:
/// `ip` carries the backend's peer address on success and is `None` on
/// failure. Expected only in the pending phase with no backend
/// attached; elsewhere the outcome changes nothing.
pub open spec fn connect_step(s: SessionV, ip: Option<Seq<char>>) -> (SessionV, StepV) {
    match s {
        SessionV::Pending(d) => {
            if d.backend_ip is Some {
                (s, StepV::Ignore)
            } else {
                match ip {
                    None => (
                        SessionV::Pending(SessionDataV { backend_offline: true, ..d }),
                        StepV::Ignore,
                    ),
                    Some(ipc) => {
                        if d.state != 1 {
                            (
                                SessionV::HandedOff,
                                StepV::Handoff(synth_handshake_frame(d.protocol, ipc, d.port, d.state)),
                            )
                        } else {
                            (
                                SessionV::Pending(SessionDataV { backend_ip: Some(ipc), ..d }),
                                StepV::Ignore,
                            )
                        }
                    },
                }
            }
        },
        _ => (s, StepV::Ignore),
    }
}

/// Feed the outcome of the backend connect attempt into the session:
/// on success with a login-phase client the synthesized handshake goes
/// out and the relay takes over; on success with a status-phase client
/// the backend stays attached for the coming status request; on
/// failure the session remembers the backend as offline.
pub fn handle_connect_outcome(sess: Session, peer_ip: Option<String>) -> (r: (Session, Step))
    requires
        peer_ip matches Some(ip) ==> host_fits(ip@),
    ensures
        (r.0@, r.1@) == connect_step(sess@, match peer_ip {
            Some(ip) => Some(ip@),
            None => None::<Seq<char>>,
        }),
{
    match sess {
        Session::Pending(d) => {
            let SessionData { protocol, port, state, backend_offline, backend_ip } = d;
            match backend_ip {
                Some(ip) => (
                    Session::Pending(SessionData {
                        protocol,
                        port,
                        state,
                        backend_offline,
                        backend_ip: Some(ip),
                    }),
                    Step::Ignore,
                ),
                None => {
                    match peer_ip {
                        None => (
                            Session::Pending(SessionData {
                                protocol,
                                port,
                                state,
                                backend_offline: true,
                                backend_ip: None,
                            }),
                            Step::Ignore,
                        ),
                        Some(ipc) => {
                            if state != 1 {
                                let bytes = build_forward_handshake(
                                    protocol, ipc.as_str(), port, state);
                                (Session::HandedOff, Step::Handoff(bytes))
                            } else {
                                (
                                    Session::Pending(SessionData {
                                        protocol,
                                        port,
                                        state,
                                        backend_offline,
                                        backend_ip: Some(ipc),
                                    }),
                                    Step::Ignore,
                                )
                            }
                        },
                    }
                },
            }
        },
        Session::AwaitingHandshake => (Session::AwaitingHandshake, Step::Ignore),
        Session::HandedOff => (Session::HandedOff, Step::Ignore),
    }
}

/// One ping step: in every phase short of handed-off, a ping carrying
/// eight payload bytes leaves the session exactly as it was and echoes
/// back a ping frame holding those same eight bytes, unaltered.
pub proof fn lemma_ping_echo(s: SessionV, t: RoutingTableV, rem: Seq<u8>)
    requires
        !(s is HandedOff),
        rem.len() >= 8,
    ensures
        next_step(s, 1, rem, t) == (s, StepV::Reply(frame(varint_enc(1) + rem.take(8)))),
{
    lemma_le_round_trip(rem.take(8));
    assert(le_bytes(le_value(rem.take(8)), 8) =~= rem.take(8));
}

/// The replies produced by `n` successive packets with id 1 and the
/// same payload bytes, threading the session state through.
pub open spec fn ping_responses(s: SessionV, t: RoutingTableV, rem: Seq<u8>, n: nat) -> Seq<StepV>
    decreases n,
{
    if n == 0 {
        Seq::empty()
    } else {
        let step = next_step(s, 1, rem, t);
        seq![step.1] + ping_responses(step.0, t, rem, (n - 1) as nat)
    }
}

/// Ping idempotence: however many times the same eight-byte payload is
/// pinged on one connection, and in whatever phase short of
/// handed-off, every reply is the identical echo of those bytes and
/// the session state never changes.
pub proof fn lemma_ping_idempotent(s: SessionV, t: RoutingTableV, rem: Seq<u8>, n: nat)
    requires
        !(s is HandedOff),
        rem.len() >= 8,
    ensures
        ping_responses(s, t, rem, n)
            == Seq::new(n, |i: int| StepV::Reply(frame(varint_enc(1) + rem.take(8)))),
    decreases n,
{
    if n > 0 {
        lemma_ping_echo(s, t, rem);
        lemma_ping_idempotent(s, t, rem, (n - 1) as nat);
        assert(ping_responses(s, t, rem, n)
            =~= Seq::new(n, |i: int| StepV::Reply(frame(varint_enc(1) + rem.take(8)))));
    } else {
        assert(ping_responses(s, t, rem, 0)
            =~= Seq::new(0, |i: int| StepV::Reply(frame(varint_enc(1) + rem.take(8)))));
    }
}

/// The handshake payload laid out by the synthesizer parses back to
/// exactly the fields it was built from.
proof fn lemma_handshake_payload_parses(protocol: u32, peer: Seq<char>, port: u16, state: u32)
    requires
        host_fits(peer),
    ensures
        ({
            let rem = varint_enc(protocol as nat) + str_enc(peer)
                + be16_enc(port) + varint_enc(state as nat);
            parse_handshake_spec(rem) matches Some(h)
                && h.protocol == protocol
                && h.host == peer
                && h.port == port
                && h.state == state
        }),
{
    vstd::utf8::encode_utf8_valid_utf8(peer);
    vstd::utf8::encode_utf8_decode_utf8(peer);
    let hb = encode_utf8(peer);
    lemma_varint_enc_len5(protocol as nat);
    lemma_varint_enc_len5(state as nat);
    lemma_varint_enc_len5(hb.len());
    let rem = varint_enc(protocol as nat) + str_enc(peer)
        + be16_enc(port) + varint_enc(state as nat);

    // Protocol varint.
    lemma_varint_enc_parses(protocol as nat, str_enc(peer)
        + be16_enc(port) + varint_enc(state as nat));
    assert(rem =~= varint_enc(protocol as nat) + (str_enc(peer)
        + be16_enc(port) + varint_enc(state as nat)));
    assert(varint_ok(rem));
    assert(varint_value(rem) == protocol);
    let r1 = rem.skip(varint_size(rem) as int);
    assert(r1 =~= varint_enc(hb.len()) + (hb + be16_enc(port) + varint_enc(state as nat)));

    // Hostname: length varint, bytes, UTF-8 round trip.
    lemma_varint_enc_parses(hb.len(), hb + be16_enc(port) + varint_enc(state as nat));
    assert(varint_ok(r1));
    assert(varint_value(r1) == hb.len());
    assert(str_at_bytes(r1) =~= hb);
    assert(str_at_ok(r1));
    assert(decode_utf8(str_at_bytes(r1)) == peer);

    // Port, big-endian.
    let r2 = r1.skip((varint_size(r1) + varint_value(r1)) as int);
    assert(r2 =~= be16_enc(port) + varint_enc(state as nat));
    assert(r2.take(2) =~= be16_enc(port));
    assert(be16_value(be16_enc(port)) == port) by {
        assert(be16_enc(port)[0] == port / 256);
        assert(be16_enc(port)[1] == port % 256);
    }

    // State varint.
    let r3 = r2.skip(2);
    assert(r3 =~= varint_enc(state as nat) + Seq::<u8>::empty());
    lemma_varint_enc_parses(state as nat, Seq::<u8>::empty());
    assert(varint_ok(r3));
    assert(varint_value(r3) == state);
}

/// Handoff correctness: the synthesized handshake frame handed to a
/// backend decodes back to a packet with id 0 whose handshake carries
/// the client's own protocol version, port and requested state, and
/// whose hostname field is exactly the peer address the proxy saw.
pub proof fn lemma_forward_handshake_faithful(protocol: u32, peer: Seq<char>, port: u16, state: u32)
    requires
        host_fits(peer),
    ensures
        ({
            let f = synth_handshake_frame(protocol, peer, port, state);
            &&& header_ok(f)
            &&& varint_value(f.skip(varint_size(f) as int)) == 0
            &&& parse_handshake_spec(f.skip(header_len(f) as int)) matches Some(h)
                && h.protocol == protocol
                && h.host == peer
                && h.port == port
                && h.state == state
        }),
{
    let hb = encode_utf8(peer);
    let tail = varint_enc(protocol as nat) + str_enc(peer)
        + be16_enc(port) + varint_enc(state as nat);
    let body = varint_enc(0) + varint_enc(protocol as nat) + str_enc(peer)
        + be16_enc(port) + varint_enc(state as nat);
    let f = synth_handshake_frame(protocol, peer, port, state);
    lemma_varint_enc_len5(protocol as nat);
    lemma_varint_enc_len5(state as nat);
    lemma_varint_enc_len5(hb.len());
    assert(varint_enc(0) =~= seq![0u8]);
    assert(body.len() <= 18 + hb.len());

    // Frame header: the size varint, then the id varint (value 0).
    lemma_varint_enc_parses(body.len(), body);
    lemma_varint_enc_len5(body.len());
    assert(f.skip(varint_size(f) as int) =~= body);
    lemma_varint_enc_parses(0, tail);
    assert(body =~= varint_enc(0) + tail);
    assert(varint_value(body) == 0);
    assert(varint_size(body) == 1);

    // The handshake payload after the header parses to the fields.
    assert(f.skip(header_len(f) as int) =~= tail);
    lemma_handshake_payload_parses(protocol, peer, port, state);
}

} // verus!
