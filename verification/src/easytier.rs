//! What the server hands to EasyTier: the arguments of `easytier-core` and
//! `easytier-cli`, the retry policy for port forwards, and the reading of the
//! peer list that `easytier-cli` prints.

use vstd::prelude::*;
use vstd::utf8::{valid_utf8, decode_utf8};
use crate::room::Room;
use crate::text::{decimal, push_decimal, chars_of, text_eq, split_on, split_chars, pieces};
use crate::codec::{Member, decode_json_rows, json_text_rows, keys_view, rows_view, utf8_text};

verus! {

/// The views of a list of strings.
pub open spec fn texts(v: Seq<String>) -> Seq<Seq<char>> {
    v.map_values(|s: String| s@)
}

fn push_text(v: &mut Vec<String>, s: &str)
    ensures
        texts(final(v)@) == texts(old(v)@).push(s@),
{
    v.push(String::from_str(s));
    assert(texts(v@) =~= texts(old(v)@).push(s@));
}

fn push_string(v: &mut Vec<String>, s: String)
    ensures
        texts(final(v)@) == texts(old(v)@).push(s@),
{
    let ghost t = s@;
    v.push(s);
    assert(texts(v@) =~= texts(old(v)@).push(t));
}

/// `-p <server>` for each relay server, in order.
pub open spec fn relay_args(servers: Seq<Seq<char>>) -> Seq<Seq<char>>
    decreases servers.len(),
{
    if servers.len() == 0 {
        seq![]
    } else {
        relay_args(servers.drop_last()) + seq!["-p"@, servers.last()]
    }
}

/// The relay servers every host connects to: Terracotta's own relays and
/// the EasyTier community relays.
pub open spec fn default_relays() -> Seq<Seq<char>> {
    seq![
        "tcp://public0.terracotta.glavo.site:21010"@,
        "tcp://public1.terracotta.glavo.site:21010"@,
        "tcp://public.easytier.top:11010"@,
        "tcp://public2.easytier.cn:54321"@,
        "https://etnode.zkitefly.eu.org/node1"@,
        "https://etnode.zkitefly.eu.org/node2"@,
    ]
}

/// The arguments of `easytier-core` for a host: network identity, relays
/// (the defaults, then `extra`), the fixed host options, the host name and
/// address, and the port whitelists.
pub open spec fn host_arguments(
    network_name: Seq<char>,
    network_secret: Seq<char>,
    mc_port: u16,
    scaffolding_port: u16,
    extra: Seq<Seq<char>>,
) -> Seq<Seq<char>> {
    seq!["--network-name"@, network_name, "--network-secret"@, network_secret]
        + relay_args(default_relays()) + relay_args(extra) + seq![
        "--no-tun"@,
        "--compression=zstd"@,
        "--multi-thread"@,
        "--latency-first"@,
        "--enable-kcp-proxy"@,
        "-l"@,
        "udp://0.0.0.0:0"@,
        "-l"@,
        "tcp://0.0.0.0:0"@,
        "--p2p-only"@,
        "--hostname"@,
        "scaffolding-mc-server-"@ + decimal(scaffolding_port as nat),
        "--ipv4"@,
        "10.144.144.1"@,
        "--tcp-whitelist="@ + decimal(scaffolding_port as nat),
        "--tcp-whitelist="@ + decimal(mc_port as nat),
        "--udp-whitelist="@ + decimal(mc_port as nat),
    ]
}

/// A string made of `prefix` and the decimal `n`.
fn text_with_number(prefix: &str, n: u16) -> (r: String)
    ensures
        r@ == prefix@ + decimal(n as nat),
{
    let mut s = String::from_str(prefix);
    push_decimal(&mut s, n as u64);
    s
}

/// Builds the command-line arguments of `easytier-core` for a host.
pub fn build_arguments(
    room: &Room,
    mc_port: u16,
    scaffolding_port: u16,
    public_servers: &[String],
) -> (r: Vec<String>)
    ensures
        texts(r@) == host_arguments(
            room.network_name@,
            room.network_secret@,
            mc_port,
            scaffolding_port,
            texts(public_servers@),
        ),
{
    let mut args: Vec<String> = Vec::new();
    push_text(&mut args, "--network-name");
    push_string(&mut args, room.network_name.clone());
    push_text(&mut args, "--network-secret");
    push_string(&mut args, room.network_secret.clone());
    let ghost head = texts(args@);
    assert(head =~= seq!["--network-name"@, room.network_name@, "--network-secret"@, room.network_secret@]);

    let defaults: [&str; 6] = [
        "tcp://public0.terracotta.glavo.site:21010",
        "tcp://public1.terracotta.glavo.site:21010",
        "tcp://public.easytier.top:11010",
        "tcp://public2.easytier.cn:54321",
        "https://etnode.zkitefly.eu.org/node1",
        "https://etnode.zkitefly.eu.org/node2",
    ];
    let ghost dv = defaults@.map_values(|s: &str| s@);
    assert(dv =~= default_relays());
    for i in 0..6
        invariant
            dv == defaults@.map_values(|s: &str| s@),
            texts(args@) == head + relay_args(dv.take(i as int)),
    {
        push_text(&mut args, "-p");
        push_text(&mut args, defaults[i]);
        assert(dv.take(i + 1).drop_last() =~= dv.take(i as int));
        assert(texts(args@) =~= head + relay_args(dv.take(i + 1)));
    }
    assert(dv.take(6) =~= dv);
    let ghost mid = texts(args@);
    let ghost pv = texts(public_servers@);
    for i in 0..public_servers.len()
        invariant
            pv == texts(public_servers@),
            texts(args@) == mid + relay_args(pv.take(i as int)),
    {
        push_text(&mut args, "-p");
        push_string(&mut args, public_servers[i].clone());
        assert(pv.take(i + 1).drop_last() =~= pv.take(i as int));
        assert(texts(args@) =~= mid + relay_args(pv.take(i + 1)));
    }
    assert(pv.take(public_servers@.len() as int) =~= pv);
    let ghost before_tail = texts(args@);

    push_text(&mut args, "--no-tun");
    push_text(&mut args, "--compression=zstd");
    push_text(&mut args, "--multi-thread");
    push_text(&mut args, "--latency-first");
    push_text(&mut args, "--enable-kcp-proxy");
    push_text(&mut args, "-l");
    push_text(&mut args, "udp://0.0.0.0:0");
    push_text(&mut args, "-l");
    push_text(&mut args, "tcp://0.0.0.0:0");
    push_text(&mut args, "--p2p-only");
    push_text(&mut args, "--hostname");
    push_string(&mut args, text_with_number("scaffolding-mc-server-", scaffolding_port));
    push_text(&mut args, "--ipv4");
    push_text(&mut args, "10.144.144.1");
    push_string(&mut args, text_with_number("--tcp-whitelist=", scaffolding_port));
    push_string(&mut args, text_with_number("--tcp-whitelist=", mc_port));
    push_string(&mut args, text_with_number("--udp-whitelist=", mc_port));
    assert(texts(args@) =~= host_arguments(
        room.network_name@,
        room.network_secret@,
        mc_port,
        scaffolding_port,
        texts(public_servers@),
    ));
    args
}


/// The arguments `easytier-core` is started with: the host arguments, then
/// `-r` and the RPC port.
pub fn core_arguments(args: Vec<String>, rpc_port: u16) -> (r: Vec<String>)
    ensures
        texts(r@) == texts(args@) + seq!["-r"@, decimal(rpc_port as nat)],
{
    let mut r = args;
    push_text(&mut r, "-r");
    push_string(&mut r, text_with_number("", rpc_port));
    proof {
        assert(""@ =~= Seq::<char>::empty()) by {
            reveal_strlit("");
        }
    }
    assert(texts(r@) =~= texts(args@) + seq!["-r"@, decimal(rpc_port as nat)]);
    r
}

/// The address of the local RPC endpoint: `127.0.0.1:<port>`.
pub open spec fn rpc_address(rpc_port: u16) -> Seq<char> {
    "127.0.0.1:"@ + decimal(rpc_port as nat)
}

/// The arguments of `easytier-cli` that list the peers as JSON.
pub fn peer_query_arguments(rpc_port: u16) -> (r: Vec<String>)
    ensures
        texts(r@) == seq!["-p"@, rpc_address(rpc_port), "-o"@, "json"@, "peer"@],
{
    let mut r: Vec<String> = Vec::new();
    push_text(&mut r, "-p");
    push_string(&mut r, text_with_number("127.0.0.1:", rpc_port));
    push_text(&mut r, "-o");
    push_text(&mut r, "json");
    push_text(&mut r, "peer");
    assert(texts(r@) =~= seq!["-p"@, rpc_address(rpc_port), "-o"@, "json"@, "peer"@]);
    r
}

/// The arguments of `easytier-cli` that add a port-forward rule.
pub fn port_forward_arguments(rpc_port: u16, proto: &str, local_addr: &str, remote_addr: &str) -> (r: Vec<String>)
    ensures
        texts(r@) == seq![
            "-p"@,
            rpc_address(rpc_port),
            "port-forward"@,
            "add"@,
            proto@,
            local_addr@,
            remote_addr@,
        ],
{
    let mut r: Vec<String> = Vec::new();
    push_text(&mut r, "-p");
    push_string(&mut r, text_with_number("127.0.0.1:", rpc_port));
    push_text(&mut r, "port-forward");
    push_text(&mut r, "add");
    push_text(&mut r, proto);
    push_text(&mut r, local_addr);
    push_text(&mut r, remote_addr);
    assert(texts(r@) =~= seq![
        "-p"@,
        rpc_address(rpc_port),
        "port-forward"@,
        "add"@,
        proto@,
        local_addr@,
        remote_addr@,
    ]);
    r
}

/// How many times adding a port forward is tried.
pub const PORT_FORWARD_ATTEMPTS: u32 = 3;

/// What to do after an attempt to add a port forward.
#[derive(Debug, PartialEq, Eq, Structural)]
pub enum ForwardStep {
    /// The rule was added.
    Succeeded,
    /// Wait `delay_ms` milliseconds, then make attempt `next_attempt`.
    Retry { delay_ms: u64, next_attempt: u32 },
    /// Wait `delay_ms` milliseconds, then report failure.
    GiveUp { delay_ms: u64 },
}

/// The pause after failed attempt `attempt` (counted from 0): 500 ms plus
/// one second per earlier attempt.
pub open spec fn retry_delay_ms(attempt: u32) -> u64 {
    (500 + 1000 * attempt) as u64
}

/// The decision after attempt `attempt` (counted from 0) of adding a port
/// forward: stop on success; otherwise pause, then try again while fewer than
/// three attempts were made, or give up.
pub fn port_forward_step(attempt: u32, succeeded: bool) -> (r: ForwardStep)
    requires
        attempt < PORT_FORWARD_ATTEMPTS,
    ensures
        succeeded ==> r == ForwardStep::Succeeded,
        !succeeded && attempt + 1 < PORT_FORWARD_ATTEMPTS ==> r == (ForwardStep::Retry {
            delay_ms: retry_delay_ms(attempt),
            next_attempt: (attempt + 1) as u32,
        }),
        !succeeded && attempt + 1 == PORT_FORWARD_ATTEMPTS ==> r == (ForwardStep::GiveUp {
            delay_ms: retry_delay_ms(attempt),
        }),
{
    if succeeded {
        return ForwardStep::Succeeded;
    }
    let delay_ms: u64 = 500 + 1000 * (attempt as u64);
    if attempt + 1 < PORT_FORWARD_ATTEMPTS {
        ForwardStep::Retry { delay_ms, next_attempt: attempt + 1 }
    } else {
        ForwardStep::GiveUp { delay_ms }
    }
}


/// Whether `c` is an ASCII decimal digit.
pub open spec fn is_ascii_digit(c: char) -> bool {
    48 <= (c as u32) <= 57
}

/// The value of a run of decimal digits.
pub open spec fn digits_value(s: Seq<char>) -> nat
    decreases s.len(),
{
    if s.len() == 0 {
        0
    } else {
        digits_value(s.drop_last()) * 10 + ((s.last() as u32) - 48) as nat
    }
}

/// The octet that `p` writes: one to three decimal digits, no leading zero
/// unless the octet is `0`, at most 255.
pub open spec fn octet_of(p: Seq<char>) -> Option<u8> {
    if 1 <= p.len() <= 3 && (forall|i: int| 0 <= i < p.len() ==> is_ascii_digit(#[trigger] p[i]))
        && (p.len() == 1 || p[0] != '0') && digits_value(p) <= 255 {
        Some(digits_value(p) as u8)
    } else {
        None
    }
}

/// The address that dotted-decimal `s` writes: exactly four octets
/// separated by dots.
pub open spec fn ipv4_octets(s: Seq<char>) -> Option<Seq<u8>> {
    let parts = split_on(s, '.');
    if parts.len() == 4 && (forall|i: int| 0 <= i < 4 ==> #[trigger] octet_of(parts[i]) is Some) {
        Some(Seq::new(4, |i: int| octet_of(parts[i])->0))
    } else {
        None
    }
}

/// Reads one octet.
fn parse_octet(p: &Vec<char>) -> (r: Option<u8>)
    ensures
        r == octet_of(p@),
{
    let n = p.len();
    if n < 1 || n > 3 {
        return None;
    }
    if n > 1 && p[0] == '0' {
        return None;
    }
    let mut v: u16 = 0;
    for i in 0..n
        invariant
            n == p@.len(),
            1 <= n <= 3,
            v == digits_value(p@.take(i as int)),
            i <= 1 ==> v < 10,
            i <= 2 ==> v < 100,
            v < 1000,
            forall|j: int| 0 <= j < i ==> is_ascii_digit(#[trigger] p@[j]),
    {
        let x = p[i] as u32;
        if x < 48 || x > 57 {
            assert(!is_ascii_digit(p@[i as int]));
            return None;
        }
        assert(p@.take(i + 1).drop_last() =~= p@.take(i as int));
        v = v * 10 + (x - 48) as u16;
    }
    assert(p@.take(n as int) =~= p@);
    if v > 255 {
        None
    } else {
        Some(v as u8)
    }
}

/// Reads a dotted-decimal IPv4 address, as std's `Ipv4Addr` parser does:
/// four octets of one to three digits, no leading zeros, each at most 255.
pub fn parse_ipv4(text: &str) -> (r: Option<[u8; 4]>)
    ensures
        match ipv4_octets(text@) {
            Some(o) => r matches Some(a) && a@ == o,
            None => r is None,
        },
{
    let cs = chars_of(text);
    let parts = split_chars(&cs, '.');
    if parts.len() != 4 {
        return None;
    }
    let a = parse_octet(&parts[0]);
    let b = parse_octet(&parts[1]);
    let c = parse_octet(&parts[2]);
    let d = parse_octet(&parts[3]);
    assert(pieces(parts@)[0] == parts@[0]@);
    assert(pieces(parts@)[1] == parts@[1]@);
    assert(pieces(parts@)[2] == parts@[2]@);
    assert(pieces(parts@)[3] == parts@[3]@);
    match (a, b, c, d) {
        (Some(a), Some(b), Some(c), Some(d)) => {
            let r = [a, b, c, d];
            assert(r@ =~= ipv4_octets(text@)->0);
            Some(r)
        },
        _ => {
            proof {
                if a is None {
                    assert(octet_of(split_on(text@, '.')[0]) is None);
                } else if b is None {
                    assert(octet_of(split_on(text@, '.')[1]) is None);
                } else if c is None {
                    assert(octet_of(split_on(text@, '.')[2]) is None);
                } else {
                    assert(octet_of(split_on(text@, '.')[3]) is None);
                }
            }
            None
        },
    }
}


/// Information about a peer in the EasyTier network.
#[derive(Debug)]
pub struct EasyTierMember {
    /// The peer's host name.
    pub hostname: String,
    /// The peer's IPv4 address, when it reports a valid one.
    pub address: Option<[u8; 4]>,
    /// Whether the peer is this host itself.
    pub is_local: bool,
}

/// A peer as plain values: host name, address octets, whether it is local.
pub type PeerView = (Seq<char>, Option<Seq<u8>>, bool);

/// The view of a peer.
pub open spec fn member_view(m: EasyTierMember) -> PeerView {
    (
        m.hostname@,
        match m.address {
            Some(a) => Some(a@),
            None => None,
        },
        m.is_local,
    )
}

/// The views of a list of peers.
pub open spec fn members_view(v: Seq<EasyTierMember>) -> Seq<PeerView> {
    v.map_values(|m: EasyTierMember| member_view(m))
}

/// The members read from each peer entry.
pub open spec fn peer_keys() -> Seq<Seq<char>> {
    seq!["hostname"@, "ipv4"@, "cost"@]
}

/// The peer that one entry of the list describes: the entry must be an
/// object with a string `hostname`, an `ipv4` member (whose text is read as
/// an address when it is a string) and a string `cost`; the peer is local
/// when the cost is `Local`.
pub open spec fn peer_of_row(row: Option<Seq<Option<Option<Seq<char>>>>>) -> Option<PeerView> {
    match row {
        None => None,
        Some(ms) => if ms.len() != 3 {
            None
        } else {
            match (ms[0], ms[1], ms[2]) {
                (Some(Some(host)), Some(ip), Some(Some(cost))) => Some(
                    (
                        host,
                        match ip {
                            Some(t) => ipv4_octets(t),
                            None => None,
                        },
                        cost == "Local"@,
                    ),
                ),
                _ => None,
            }
        },
    }
}

/// The peers of all entries, or `None` if one entry is not a peer.
pub open spec fn peers_of_rows(rows: Seq<Option<Seq<Option<Option<Seq<char>>>>>>) -> Option<Seq<PeerView>>
    decreases rows.len(),
{
    if rows.len() == 0 {
        Some(seq![])
    } else {
        match (peers_of_rows(rows.drop_last()), peer_of_row(rows.last())) {
            (Some(ps), Some(p)) => Some(ps.push(p)),
            _ => None,
        }
    }
}

/// The peers that the output of `easytier-cli ... peer` lists: it must be
/// UTF-8 holding a JSON array of peer entries.
pub open spec fn peers_of_output(stdout: Seq<u8>) -> Option<Seq<PeerView>> {
    if !valid_utf8(stdout) {
        None
    } else {
        match json_text_rows(decode_utf8(stdout), peer_keys()) {
            None => None,
            Some(rows) => peers_of_rows(rows),
        }
    }
}

/// Reads the peer list that `easytier-cli -o json peer` printed.
pub fn peers_from_output(stdout: &[u8]) -> (r: Option<Vec<EasyTierMember>>)
    ensures
        match peers_of_output(stdout@) {
            Some(ps) => r matches Some(v) && members_view(v@) == ps,
            None => r is None,
        },
{
    let text = match utf8_text(stdout) {
        Some(t) => t,
        None => return None,
    };
    let keys: [&str; 3] = ["hostname", "ipv4", "cost"];
    let key_slice = keys.as_slice();
    assert(keys_view(key_slice@) =~= peer_keys());
    let rows = match decode_json_rows(text.as_str(), key_slice) {
        Some(rows) => rows,
        None => return None,
    };
    let ghost rv = rows_view(rows@);
    let mut members: Vec<EasyTierMember> = Vec::new();
    for i in 0..rows.len()
        invariant
            rv == rows_view(rows@),
            valid_utf8(stdout@),
            json_text_rows(decode_utf8(stdout@), peer_keys()) == Some(rv),
            peers_of_rows(rv.take(i as int)) == Some(members_view(members@)),
    {
        assert(rv.take(i + 1).drop_last() =~= rv.take(i as int));
        assert(rv[i as int] == match rows@[i as int] {
            None => None,
            Some(ms) => Some(crate::codec::members_view(ms@)),
        });
        match member_of_row(&rows[i]) {
            Some(m) => {
                let ghost before = members_view(members@);
                members.push(m);
                assert(members_view(members@) =~= before.push(peer_of_row(rv[i as int])->0));
            },
            None => {
                proof {
                    lemma_peers_of_rows_fail(rv, i as int);
                }
                return None;
            },
        }
    }
    assert(rv.take(rows@.len() as int) =~= rv);
    Some(members)
}

/// One failed entry makes the whole list fail.
proof fn lemma_peers_of_rows_fail(rows: Seq<Option<Seq<Option<Option<Seq<char>>>>>>, i: int)
    requires
        0 <= i < rows.len(),
        peer_of_row(rows[i]) is None,
    ensures
        peers_of_rows(rows) is None,
    decreases rows.len(),
{
    if i < rows.len() - 1 {
        lemma_peers_of_rows_fail(rows.drop_last(), i);
    }
}

/// The peer one entry describes.
fn member_of_row(row: &Option<Vec<Member>>) -> (r: Option<EasyTierMember>)
    ensures
        match peer_of_row(
            match row {
                None => None,
                Some(ms) => Some(crate::codec::members_view(ms@)),
            },
        ) {
            Some(p) => r matches Some(m) && member_view(m) == p,
            None => r is None,
        },
{
    let ms = match row {
        Some(ms) => ms,
        None => return None,
    };
    if ms.len() != 3 {
        return None;
    }
    let hostname = match &ms[0] {
        Some(Some(h)) => h.clone(),
        _ => return None,
    };
    let address = match &ms[1] {
        Some(Some(t)) => parse_ipv4(t.as_str()),
        Some(None) => None,
        None => return None,
    };
    let is_local = match &ms[2] {
        Some(Some(c)) => text_eq(c.as_str(), "Local"),
        _ => return None,
    };
    Some(EasyTierMember { hostname, address, is_local })
}

/// How many peers are not this host.
pub fn remote_peer_count(peers: &Vec<EasyTierMember>) -> (r: usize)
    ensures
        r == peers@.filter(|m: EasyTierMember| !m.is_local).len(),
{
    let ghost pred = |m: EasyTierMember| !m.is_local;
    let mut count: usize = 0;
    for i in 0..peers.len()
        invariant
            pred == (|m: EasyTierMember| !m.is_local),
            count == peers@.take(i as int).filter(pred).len(),
            count <= i,
    {
        assert(peers@.take(i + 1).drop_last() =~= peers@.take(i as int));
        proof {
            reveal(Seq::filter);
        }
        if !peers[i].is_local {
            count = count + 1;
        }
    }
    assert(peers@.take(peers@.len() as int) =~= peers@);
    count
}

/// `-p` and a relay server for each server, in order.
proof fn lemma_relay_args(servers: Seq<Seq<char>>)
    ensures
        relay_args(servers).len() == 2 * servers.len(),
        forall|i: int| 0 <= i < servers.len() ==> #[trigger] servers[i] == relay_args(servers)[2 * i + 1]
            && relay_args(servers)[2 * i] == "-p"@,
    decreases servers.len(),
{
    if servers.len() > 0 {
        let s0 = servers.drop_last();
        lemma_relay_args(s0);
        let r0 = relay_args(s0);
        let r = relay_args(servers);
        assert(r == r0 + seq!["-p"@, servers.last()]);
        assert forall|i: int| 0 <= i < servers.len() implies #[trigger] servers[i] == relay_args(servers)[2 * i + 1]
            && relay_args(servers)[2 * i] == "-p"@ by {
            if i < s0.len() {
                assert(s0[i] == servers[i]);
                assert(r[2 * i] == r0[2 * i]);
                assert(r[2 * i + 1] == r0[2 * i + 1]);
            } else {
                assert(r[2 * i] == "-p"@);
                assert(r[2 * i + 1] == servers.last());
            }
        }
    }
}

/// The host passes `-p` and each relay server to `easytier-core`: first the
/// six default relays, then every configured one, in order; the fixed
/// options follow them.
#[verifier::spinoff_prover]
pub proof fn lemma_host_relays(
    network_name: Seq<char>,
    network_secret: Seq<char>,
    mc_port: u16,
    scaffolding_port: u16,
    extra: Seq<Seq<char>>,
)
    ensures
        ({
            let args = host_arguments(network_name, network_secret, mc_port, scaffolding_port, extra);
            &&& args.len() == 4 + 2 * (6 + extra.len()) + 17
            &&& forall|k: int| 0 <= k < 6 ==> args.subrange(4 + 2 * k, 6 + 2 * k)
                == seq!["-p"@, #[trigger] default_relays()[k]]
            &&& forall|i: int| 0 <= i < extra.len() ==> args.subrange(16 + 2 * i, 18 + 2 * i)
                == seq!["-p"@, #[trigger] extra[i]]
            &&& args[16 + 2 * extra.len() as int] == "--no-tun"@
        }),
{
    let args = host_arguments(network_name, network_secret, mc_port, scaffolding_port, extra);
    let head = seq!["--network-name"@, network_name, "--network-secret"@, network_secret];
    let d = relay_args(default_relays());
    let e = relay_args(extra);
    lemma_relay_args(default_relays());
    lemma_relay_args(extra);
    assert(default_relays().len() == 6);
    let pre = head + d + e;
    assert(pre.len() == 16 + 2 * extra.len());
    assert(args.subrange(0, pre.len() as int) =~= pre);
    assert(args[pre.len() as int] == "--no-tun"@);
    assert forall|k: int| 0 <= k < 6 implies args.subrange(4 + 2 * k, 6 + 2 * k)
        == seq!["-p"@, #[trigger] default_relays()[k]] by {
        assert(args[4 + 2 * k] == pre[4 + 2 * k]);
        assert(args[5 + 2 * k] == pre[5 + 2 * k]);
        assert(pre[4 + 2 * k] == d[2 * k]);
        assert(pre[5 + 2 * k] == d[2 * k + 1]);
        assert(d[2 * k + 1] == default_relays()[k]);
        assert(args.subrange(4 + 2 * k, 6 + 2 * k) =~= seq!["-p"@, default_relays()[k]]);
    }
    assert forall|i: int| 0 <= i < extra.len() implies args.subrange(16 + 2 * i, 18 + 2 * i)
        == seq!["-p"@, #[trigger] extra[i]] by {
        assert(args[16 + 2 * i] == pre[16 + 2 * i]);
        assert(args[17 + 2 * i] == pre[17 + 2 * i]);
        assert(pre[16 + 2 * i] == e[2 * i]);
        assert(pre[17 + 2 * i] == e[2 * i + 1]);
        assert(e[2 * i + 1] == extra[i]);
        assert(args.subrange(16 + 2 * i, 18 + 2 * i) =~= seq!["-p"@, extra[i]]);
    }
}

/// The decimal text of `n` is a run of digits without leading zero whose
/// value is `n`, with at most three digits below 1000.
proof fn lemma_decimal_digits(n: nat)
    ensures
        decimal(n).len() >= 1,
        forall|i: int| 0 <= i < decimal(n).len() ==> is_ascii_digit(#[trigger] decimal(n)[i]),
        digits_value(decimal(n)) == n,
        n >= 10 ==> decimal(n)[0] != '0',
        n < 10 ==> decimal(n).len() == 1,
        n < 100 ==> decimal(n).len() <= 2,
        n < 1000 ==> decimal(n).len() <= 3,
    decreases n,
{
    vstd::utf8::char_u32_cast('0', 48);
    if n < 10 {
        let s = decimal(n);
        assert(s == seq![crate::text::ascii_digit(n)]);
        assert(s.drop_last() =~= Seq::<char>::empty());
        assert(digits_value(s.drop_last()) == 0);
        assert((s.last() as u32) == 48 + n);
        assert(digits_value(s) == n);
    } else {
        let p = decimal(n / 10);
        lemma_decimal_digits(n / 10);
        let c = crate::text::ascii_digit(n % 10);
        assert(decimal(n) == p.push(c));
        assert((c as u32) == 48 + n % 10);
        assert(decimal(n).drop_last() =~= p);
        assert(digits_value(decimal(n)) == digits_value(p) * 10 + n % 10);
        assert((n / 10) * 10 + n % 10 == n);
        assert(decimal(n)[0] == p[0]);
        if n / 10 < 10 {
            assert(p == seq![crate::text::ascii_digit(n / 10)]);
            assert((p[0] as u32) == 48 + n / 10);
        }
        assert forall|i: int| 0 <= i < decimal(n).len() implies is_ascii_digit(#[trigger] decimal(n)[i]) by {
            if i < p.len() {
                assert(decimal(n)[i] == p[i]);
            }
        }
    }
}

/// The decimal text of an octet reads back as that octet and holds no dot.
proof fn lemma_decimal_octet(n: u8)
    ensures
        octet_of(decimal(n as nat)) == Some(n),
        !decimal(n as nat).contains('.'),
{
    lemma_decimal_digits(n as nat);
    vstd::utf8::char_u32_cast('.', 46);
    if decimal(n as nat).contains('.') {
        let i = choose|i: int| 0 <= i < decimal(n as nat).len() && decimal(n as nat)[i] == '.';
        assert(is_ascii_digit(decimal(n as nat)[i]));
    }
}

/// Octets keep their order: the dotted-decimal text of four octets is read
/// back as those four octets, in the order written.
pub proof fn lemma_ipv4_text(a: u8, b: u8, c: u8, d: u8)
    ensures
        ipv4_octets(decimal(a as nat) + seq!['.'] + decimal(b as nat) + seq!['.'] + decimal(c as nat)
            + seq!['.'] + decimal(d as nat)) == Some(seq![a, b, c, d]),
{
    let (sa, sb, sc, sd) = (decimal(a as nat), decimal(b as nat), decimal(c as nat), decimal(d as nat));
    lemma_decimal_octet(a);
    lemma_decimal_octet(b);
    lemma_decimal_octet(c);
    lemma_decimal_octet(d);
    crate::text::lemma_split_on_pair(sa, sb, '.');
    let x2 = sa + seq!['.'] + sb;
    crate::text::lemma_split_on_push(x2, sc, '.');
    let x3 = x2 + seq!['.'] + sc;
    crate::text::lemma_split_on_push(x3, sd, '.');
    let s = x3 + seq!['.'] + sd;
    let parts = split_on(s, '.');
    assert(parts =~= seq![sa, sb, sc, sd]);
    assert(octet_of(parts[0]) == Some(a));
    assert(octet_of(parts[1]) == Some(b));
    assert(octet_of(parts[2]) == Some(c));
    assert(octet_of(parts[3]) == Some(d));
    assert(ipv4_octets(s)->0 =~= seq![a, b, c, d]);
}

/// A port forward that keeps failing is tried three times, attempts 0, 1
/// and 2, and the pause after attempt `a` is `500 + 1000 * a` milliseconds.
pub proof fn lemma_forward_schedule(a: u32)
    ensures
        a < PORT_FORWARD_ATTEMPTS <==> a < 3,
        a < 3 ==> retry_delay_ms(a) == 500 + 1000 * a,
{
}

/// The peer list keeps the entries' order: it is there exactly when every
/// entry describes a peer, and then its `i`-th peer is that of entry `i`.
pub proof fn lemma_peers_in_order(rows: Seq<Option<Seq<Option<Option<Seq<char>>>>>>)
    ensures
        peers_of_rows(rows) is Some <==> forall|i: int| 0 <= i < rows.len() ==> #[trigger] peer_of_row(rows[i]) is Some,
        peers_of_rows(rows) matches Some(ps) ==> ps.len() == rows.len() && forall|i: int|
            0 <= i < rows.len() ==> ps[i] == #[trigger] peer_of_row(rows[i])->0,
    decreases rows.len(),
{
    if rows.len() > 0 {
        let r0 = rows.drop_last();
        lemma_peers_in_order(r0);
        assert forall|i: int| 0 <= i < r0.len() implies #[trigger] r0[i] == rows[i] by {}
        if forall|i: int| 0 <= i < rows.len() ==> #[trigger] peer_of_row(rows[i]) is Some {
            assert forall|i: int| 0 <= i < r0.len() implies #[trigger] peer_of_row(r0[i]) is Some by {
                assert(r0[i] == rows[i]);
            }
            assert(peer_of_row(rows[rows.len() - 1]) is Some);
        }
        if peers_of_rows(rows) is Some {
            assert forall|i: int| 0 <= i < rows.len() implies #[trigger] peer_of_row(rows[i]) is Some by {
                if i < r0.len() {
                    assert(r0[i] == rows[i]);
                    assert(peer_of_row(r0[i]) is Some);
                }
            }
            let ps = peers_of_rows(rows)->0;
            let ps0 = peers_of_rows(r0)->0;
            assert(ps == ps0.push(peer_of_row(rows.last())->0));
            assert forall|i: int| 0 <= i < rows.len() implies ps[i] == #[trigger] peer_of_row(rows[i])->0 by {
                if i < r0.len() {
                    assert(r0[i] == rows[i]);
                    assert(ps0[i] == peer_of_row(r0[i])->0);
                }
            }
        }
    }
}

} // verus!
