//! Terracotta's scaffolding protocol, seen from the host: the table of
//! player profiles and the answer to each request.
//!
//! A request names a protocol as `namespace:path` and carries a body; the
//! answer is a status byte (0 for success, 255 for failure) and a body.
//! Times are nanoseconds since the Unix epoch.

use vstd::prelude::*;
use vstd::utf8::{valid_utf8, decode_utf8, encode_utf8};
use crate::text::{text_eq, chars_of, split_on, split_chars, pieces, string_of};
use crate::codec::{decode_json_object, json_bytes_members, json_quote, json_quoted, keys_view, members_view, Member, hex_encode, hex_lower};

verus! {

/// Profile kinds of Terracotta's protocol.
#[allow(non_camel_case_types)]
#[derive(Debug, Clone, Copy, PartialEq, Eq, Structural)]
pub enum ProfileKind {
    HOST,
    LOCAL,
    GUEST,
}

/// Player profile information.
#[derive(Debug, Clone)]
pub struct Profile {
    pub machine_id: String,
    pub name: String,
    pub vendor: String,
    pub kind: ProfileKind,
}

/// The state the scaffolding server keeps: the Minecraft port, this host's
/// machine id, and every profile with the time it was last seen.
pub struct ScaffoldingState {
    pub mc_port: u16,
    pub machine_id: String,
    pub profiles: Vec<(u64, Profile)>,
}

/// Guests that have not pinged for this long (15 s) are dropped.
pub const GUEST_TIMEOUT_NANOS: u64 = 15_000_000_000;

/// The shape every profile table keeps: the host's own profile first, only
/// guests after it, and no machine id twice.
pub open spec fn profiles_wf(ps: Seq<(u64, Profile)>, host_id: Seq<char>) -> bool {
    &&& ps.len() >= 1
    &&& ps[0].1.kind == ProfileKind::HOST
    &&& ps[0].1.machine_id@ == host_id
    &&& forall|i: int| 1 <= i < ps.len() ==> #[trigger] ps[i].1.kind == ProfileKind::GUEST
    &&& forall|i: int, j: int|
        0 <= i < j < ps.len() ==> #[trigger] ps[i].1.machine_id@ != #[trigger] ps[j].1.machine_id@
}

/// Whether a profile is still listed at time `now`: hosts always, guests
/// seen less than 15 s before `now` or, by a clock that went back, after it.
pub open spec fn still_listed(e: (u64, Profile), now: u64) -> bool {
    e.1.kind == ProfileKind::HOST || e.0 > now || now - e.0 < GUEST_TIMEOUT_NANOS
}

/// The vendor string of the host's own profile.
pub open spec fn host_vendor_text(version: Seq<char>, easytier_version: Seq<char>) -> Seq<char> {
    "terracotta-server "@ + version + ", EasyTier "@ + easytier_version
}

/// The vendor string of the host's own profile:
/// `terracotta-server <version>, EasyTier <version>`.
pub fn host_vendor(version: &str, easytier_version: &str) -> (r: String)
    ensures
        r@ == host_vendor_text(version@, easytier_version@),
{
    let mut s = String::from_str("terracotta-server ");
    s.append(version);
    s.append(", EasyTier ");
    s.append(easytier_version);
    s
}

/// A machine id made of 16 bytes: their lowercase hex.
pub fn machine_id_from_bytes(bytes: [u8; 16]) -> (r: String)
    ensures
        r@ == hex_lower(bytes@),
{
    hex_encode(bytes.as_slice())
}

/// A fresh random machine id: 32 lowercase hex digits of 16 random bytes.
pub fn new_machine_id() -> (r: String)
    ensures
        exists|b: Seq<u8>| b.len() == 16 && r@ == #[trigger] hex_lower(b),
{
    let bytes = crate::room::random_bytes();
    let r = machine_id_from_bytes(bytes);
    assert(bytes@.len() == 16 && r@ == hex_lower(bytes@));
    r
}

impl ScaffoldingState {
    /// Whether the profile table has its shape (see `profiles_wf`).
    pub open spec fn wf(&self) -> bool {
        profiles_wf(self.profiles@, self.machine_id@)
    }

    /// The state of a server that has just started: the host's own profile
    /// (named `Terracotta Server`, seen at `now`) and nothing else.
    pub fn new(mc_port: u16, machine_id: String, vendor: String, now: u64) -> (r: ScaffoldingState)
        ensures
            r.wf(),
            r.mc_port == mc_port,
            r.machine_id@ == machine_id@,
            r.profiles@.len() == 1,
            r.profiles@[0].0 == now,
            r.profiles@[0].1.name@ == "Terracotta Server"@,
            r.profiles@[0].1.vendor@ == vendor@,
    {
        let host = Profile {
            machine_id: machine_id.clone(),
            name: String::from_str("Terracotta Server"),
            vendor,
            kind: ProfileKind::HOST,
        };
        let mut profiles: Vec<(u64, Profile)> = Vec::new();
        profiles.push((now, host));
        ScaffoldingState { mc_port, machine_id, profiles }
    }

    /// How many guests are listed.
    pub fn guest_count(&self) -> (r: usize)
        ensures
            r == self.profiles@.filter(|e: (u64, Profile)| e.1.kind == ProfileKind::GUEST).len(),
    {
        let ghost pred = |e: (u64, Profile)| e.1.kind == ProfileKind::GUEST;
        let mut count: usize = 0;
        for i in 0..self.profiles.len()
            invariant
                pred == (|e: (u64, Profile)| e.1.kind == ProfileKind::GUEST),
                count == self.profiles@.take(i as int).filter(pred).len(),
                count <= i,
        {
            assert(self.profiles@.take(i + 1).drop_last() =~= self.profiles@.take(i as int));
            proof {
                reveal(Seq::filter);
            }
            if self.profiles[i].1.kind == ProfileKind::GUEST {
                count = count + 1;
            }
        }
        assert(self.profiles@.take(self.profiles@.len() as int) =~= self.profiles@);
        count
    }

    /// Drops the guests not seen for 15 s at time `now`; everything else
    /// stays, in order. The host's profile is never dropped.
    pub fn expire_guests(&mut self, now: u64)
        ensures
            final(self).profiles@ == old(self).profiles@.filter(|e: (u64, Profile)| still_listed(e, now)),
            final(self).mc_port == old(self).mc_port,
            final(self).machine_id == old(self).machine_id,
            old(self).wf() ==> final(self).wf(),
    {
        let ghost pred = |e: (u64, Profile)| still_listed(e, now);
        let ghost ps = self.profiles@;
        let ghost wf0 = self.wf();
        let mut i: usize = 0;
        let ghost mut j: int = 0;
        while i < self.profiles.len()
            invariant
                pred == (|e: (u64, Profile)| still_listed(e, now)),
                0 <= j <= ps.len(),
                self.profiles@ == ps.take(j).filter(pred) + ps.skip(j),
                i == ps.take(j).filter(pred).len(),
                self.mc_port == old(self).mc_port,
                self.machine_id == old(self).machine_id,
                ps == old(self).profiles@,
                wf0 == old(self).wf(),
                wf0 ==> self.wf(),
                wf0 && j >= 1 ==> i >= 1,
            decreases self.profiles@.len() - i,
        {
            proof {
                reveal(Seq::filter);
                ps.take(j).lemma_filter_len(pred);
                assert(ps.take(j + 1).drop_last() =~= ps.take(j));
                assert(self.profiles@[i as int] == ps[j]);
            }
            let keep = {
                let e = &self.profiles[i];
                e.1.kind == ProfileKind::HOST || e.0 > now || now - e.0 < GUEST_TIMEOUT_NANOS
            };
            if keep {
                proof {
                    assert(ps.take(j + 1).filter(pred) == ps.take(j).filter(pred).push(ps[j]));
                    assert(self.profiles@ =~= ps.take(j + 1).filter(pred) + ps.skip(j + 1));
                }
                i = i + 1;
            } else {
                proof {
                    if wf0 {
                        assert(j >= 1) by {
                            if j == 0 {
                                assert(ps[0].1.kind == ProfileKind::HOST);
                            }
                        }
                        lemma_remove_keeps_wf(self.profiles@, self.machine_id@, i as int);
                    }
                }
                self.profiles.remove(i);
                proof {
                    assert(ps.take(j + 1).filter(pred) == ps.take(j).filter(pred));
                    assert(self.profiles@ =~= ps.take(j + 1).filter(pred) + ps.skip(j + 1));
                }
            }
            proof {
                j = j + 1;
            }
        }
        proof {
            assert(ps.skip(j) =~= Seq::<(u64, Profile)>::empty()) by {
                assert(self.profiles@.len() == ps.take(j).filter(pred).len() + ps.skip(j).len());
            }
            if j < ps.len() {
                assert(false);
            }
            assert(ps.take(j) =~= ps);
            assert(self.profiles@ =~= ps.filter(pred));
        }
    }
}

/// Removing a guest keeps the table's shape.
proof fn lemma_remove_keeps_wf(ps: Seq<(u64, Profile)>, host_id: Seq<char>, i: int)
    requires
        profiles_wf(ps, host_id),
        1 <= i < ps.len(),
    ensures
        profiles_wf(ps.remove(i), host_id),
{
    let qs = ps.remove(i);
    assert forall|a: int, b: int| 0 <= a < b < qs.len() implies #[trigger] qs[a].1.machine_id@
        != #[trigger] qs[b].1.machine_id@ by {
        let a2 = if a < i { a } else { a + 1 };
        let b2 = if b < i { b } else { b + 1 };
        assert(qs[a] == ps[a2]);
        assert(qs[b] == ps[b2]);
        assert(ps[a2].1.machine_id@ != ps[b2].1.machine_id@);
    }
    assert forall|a: int| 1 <= a < qs.len() implies #[trigger] qs[a].1.kind == ProfileKind::GUEST by {
        let a2 = if a < i { a } else { a + 1 };
        assert(qs[a] == ps[a2]);
    }
}


/// The protocols this server answers, joined by NUL characters.
pub open spec fn protocols_text() -> Seq<char> {
    "c:ping\0c:protocols\0c:server_port\0c:player_ping\0c:player_profiles_list"@
}

/// The members a ping body is read for.
pub open spec fn ping_keys() -> Seq<Seq<char>> {
    seq!["name"@, "machine_id"@, "vendor"@]
}

/// The string held by member `k` of an object's members, if any.
pub open spec fn string_member(m: Option<Seq<Option<Option<Seq<char>>>>>, k: int) -> Option<Seq<char>> {
    match m {
        Some(ms) => if 0 <= k < ms.len() {
            match ms[k] {
                Some(Some(s)) => Some(s),
                _ => None,
            }
        } else {
            None
        },
        None => None,
    }
}

/// The name, machine id and vendor a ping body announces, or the message
/// of the first thing wrong with it.
pub open spec fn ping_fields(body: Seq<u8>) -> Result<(Seq<char>, Seq<char>, Seq<char>), Seq<char>> {
    match json_bytes_members(body, ping_keys()) {
        Err(e) => Err("Invalid JSON: "@ + e),
        Ok(m) => match string_member(m, 0) {
            None => Err("Missing 'name'"@),
            Some(name) => match string_member(m, 1) {
                None => Err("Missing 'machine_id'"@),
                Some(machine_id) => match string_member(m, 2) {
                    None => Err("Missing 'vendor'"@),
                    Some(vendor) => Ok((name, machine_id, vendor)),
                },
            },
        },
    }
}

/// A profile kind as serde_json writes the unit variant.
pub open spec fn kind_json(k: ProfileKind) -> Seq<char> {
    match k {
        ProfileKind::HOST => "\"HOST\""@,
        ProfileKind::LOCAL => "\"LOCAL\""@,
        ProfileKind::GUEST => "\"GUEST\""@,
    }
}

/// A profile as a JSON object, members in declaration order.
pub open spec fn profile_json(p: Profile) -> Seq<char> {
    "{\"machine_id\":"@ + json_quoted(p.machine_id@) + ",\"name\":"@ + json_quoted(p.name@)
        + ",\"vendor\":"@ + json_quoted(p.vendor@) + ",\"kind\":"@ + kind_json(p.kind) + "}"@
}

/// The profiles of `ps` as JSON objects separated by commas.
pub open spec fn profiles_json_items(ps: Seq<(u64, Profile)>) -> Seq<char>
    decreases ps.len(),
{
    if ps.len() == 0 {
        seq![]
    } else if ps.len() == 1 {
        profile_json(ps[0].1)
    } else {
        profiles_json_items(ps.drop_last()) + seq![','] + profile_json(ps.last().1)
    }
}

/// The profiles of `ps` as a JSON array (what `serde_json::to_vec` writes
/// for the list of profiles).
pub open spec fn profiles_json(ps: Seq<(u64, Profile)>) -> Seq<char> {
    seq!['['] + profiles_json_items(ps) + seq![']']
}

/// The answer to a request for `namespace:path` with `body`, given the
/// Minecraft port and the profiles before the request.
pub open spec fn response_of(
    namespace: Seq<char>,
    path: Seq<char>,
    body: Seq<u8>,
    mc_port: u16,
    ps: Seq<(u64, Profile)>,
) -> (u8, Seq<u8>) {
    if namespace == "c"@ && path == "ping"@ {
        (0, body)
    } else if namespace == "c"@ && path == "protocols"@ {
        (0, encode_utf8(protocols_text()))
    } else if namespace == "c"@ && path == "server_port"@ {
        (0, seq![(mc_port / 256) as u8, (mc_port % 256) as u8])
    } else if namespace == "c"@ && path == "player_ping"@ {
        ping_response(body)
    } else if namespace == "c"@ && path == "player_profiles_list"@ {
        (0, encode_utf8(profiles_json(ps)))
    } else {
        (255, encode_utf8("Requested protocol hasn't been implemented."@))
    }
}

/// The answer to a ping: success, or failure with the message of what is
/// wrong with the body.
pub open spec fn ping_response(body: Seq<u8>) -> (u8, Seq<u8>) {
    match ping_fields(body) {
        Err(msg) => (255, encode_utf8(msg)),
        Ok(_) => (0, seq![]),
    }
}

/// Whether `i` is the first profile with machine id `machine_id`.
pub open spec fn first_with_id(ps: Seq<(u64, Profile)>, machine_id: Seq<char>, i: int) -> bool {
    &&& 0 <= i < ps.len()
    &&& ps[i].1.machine_id@ == machine_id
    &&& forall|j: int| 0 <= j < i ==> #[trigger] ps[j].1.machine_id@ != machine_id
}

/// The profiles after a ping announcing `name`, `machine_id` and `vendor`
/// at `now`: a new machine id is added as a guest at the end; the first
/// profile with a known machine id is marked seen at `now` and renamed,
/// unless it is the host's own (index 0), which is left as it is.
pub open spec fn pinged(
    old: Seq<(u64, Profile)>,
    new: Seq<(u64, Profile)>,
    name: Seq<char>,
    machine_id: Seq<char>,
    vendor: Seq<char>,
    now: u64,
) -> bool {
    &&& (forall|j: int| 0 <= j < old.len() ==> #[trigger] old[j].1.machine_id@ != machine_id) ==> {
        &&& new.len() == old.len() + 1
        &&& new.take(old.len() as int) == old
        &&& new.last().0 == now
        &&& new.last().1.machine_id@ == machine_id
        &&& new.last().1.name@ == name
        &&& new.last().1.vendor@ == vendor
        &&& new.last().1.kind == ProfileKind::GUEST
    }
    &&& forall|i: int| #[trigger] first_with_id(old, machine_id, i) ==> {
        &&& i == 0 ==> new == old
        &&& i > 0 ==> {
            &&& new.len() == old.len()
            &&& forall|j: int| 0 <= j < old.len() && j != i ==> #[trigger] new[j] == old[j]
            &&& new[i].0 == now
            &&& new[i].1.name@ == name
            &&& new[i].1.machine_id == old[i].1.machine_id
            &&& new[i].1.vendor == old[i].1.vendor
            &&& new[i].1.kind == old[i].1.kind
        }
    }
}

/// The bytes of a string.
fn bytes_of(s: &str) -> (r: Vec<u8>)
    ensures
        r@ == encode_utf8(s@),
{
    s.as_bytes_vec()
}

/// Appends `s` as a JSON string literal.
fn push_json_string(out: &mut String, s: &str)
    ensures
        final(out)@ == old(out)@ + json_quoted(s@),
{
    let q = json_quote(s);
    out.append(q.as_str());
}

/// Appends a profile as a JSON object.
fn push_profile_json(out: &mut String, p: &Profile)
    ensures
        final(out)@ == old(out)@ + profile_json(*p),
{
    out.append("{\"machine_id\":");
    push_json_string(out, p.machine_id.as_str());
    out.append(",\"name\":");
    push_json_string(out, p.name.as_str());
    out.append(",\"vendor\":");
    push_json_string(out, p.vendor.as_str());
    out.append(",\"kind\":");
    match p.kind {
        ProfileKind::HOST => out.append("\"HOST\""),
        ProfileKind::LOCAL => out.append("\"LOCAL\""),
        ProfileKind::GUEST => out.append("\"GUEST\""),
    }
    out.append("}");
    assert(out@ =~= old(out)@ + profile_json(*p));
}

/// The list of profiles as JSON.
fn profiles_json_text(ps: &Vec<(u64, Profile)>) -> (r: String)
    ensures
        r@ == profiles_json(ps@),
{
    let mut out = String::new();
    out.append("[");
    proof {
        reveal_strlit("[");
    }
    let ghost start = out@;
    assert(start =~= seq!['[']);
    for i in 0..ps.len()
        invariant
            start == seq!['['],
            out@ == start + profiles_json_items(ps@.take(i as int)),
    {
        assert(ps@.take(i + 1).drop_last() =~= ps@.take(i as int));
        if i > 0 {
            out.append(",");
            proof {
                reveal_strlit(",");
            }
        }
        push_profile_json(&mut out, &ps[i].1);
        proof {
            if i == 0 {
                assert(ps@.take(1)[0] == ps@[0]);
            }
            assert(out@ =~= start + profiles_json_items(ps@.take(i + 1)));
        }
    }
    assert(ps@.take(ps@.len() as int) =~= ps@);
    out.append("]");
    proof {
        reveal_strlit("]");
    }
    assert(out@ =~= profiles_json(ps@));
    out
}


/// Registers or refreshes the player a ping announces.
fn apply_ping(
    profiles: &mut Vec<(u64, Profile)>,
    name: &str,
    machine_id: &str,
    vendor: &str,
    now: u64,
    Ghost(host_id): Ghost<Seq<char>>,
)
    ensures
        pinged(old(profiles)@, final(profiles)@, name@, machine_id@, vendor@, now),
        profiles_wf(old(profiles)@, host_id) ==> profiles_wf(final(profiles)@, host_id),
{
    let ghost ps = profiles@;
    let n = profiles.len();
    let mut i: usize = 0;
    while i < n
        invariant
            n == profiles@.len(),
            ps == profiles@,
            ps == old(profiles)@,
            i <= n,
            forall|j: int| 0 <= j < i ==> #[trigger] ps[j].1.machine_id@ != machine_id@,
        decreases n - i,
    {
        if text_eq(profiles[i].1.machine_id.as_str(), machine_id) {
            assert(first_with_id(ps, machine_id@, i as int));
            assert forall|k: int| #[trigger] first_with_id(ps, machine_id@, k) implies k == i by {
                if k < i {
                    assert(ps[k].1.machine_id@ != machine_id@);
                } else if k > i {
                    assert(ps[i as int].1.machine_id@ != machine_id@);
                }
            }
            if i == 0 {
                return;
            }
            let (_, p) = profiles.remove(i);
            let updated = Profile { machine_id: p.machine_id, name: String::from_str(name), vendor: p.vendor, kind: p.kind };
            profiles.insert(i, (now, updated));
            proof {
                let qs = profiles@;
                assert(qs.len() == ps.len());
                assert forall|j: int| 0 <= j < ps.len() && j != i implies #[trigger] qs[j] == ps[j] by {
                    if j < i {
                        assert(qs[j] == ps[j]);
                    } else {
                        assert(qs[j] == ps.remove(i as int)[j - 1]);
                    }
                }
                if profiles_wf(ps, host_id) {
                    assert forall|a: int, b: int| 0 <= a < b < qs.len() implies #[trigger] qs[a].1.machine_id@
                        != #[trigger] qs[b].1.machine_id@ by {
                        assert(qs[a].1.machine_id == ps[a].1.machine_id);
                        assert(qs[b].1.machine_id == ps[b].1.machine_id);
                    }
                    assert forall|a: int| 1 <= a < qs.len() implies #[trigger] qs[a].1.kind == ProfileKind::GUEST by {
                        assert(qs[a].1.kind == ps[a].1.kind);
                    }
                    assert(qs[0] == ps[0]);
                }
            }
            return;
        }
        i = i + 1;
    }
    let guest = Profile {
        machine_id: String::from_str(machine_id),
        name: String::from_str(name),
        vendor: String::from_str(vendor),
        kind: ProfileKind::GUEST,
    };
    profiles.push((now, guest));
    proof {
        let qs = profiles@;
        assert(qs.take(ps.len() as int) =~= ps);
        assert forall|k: int| !#[trigger] first_with_id(ps, machine_id@, k) by {
            if 0 <= k < ps.len() {
                assert(ps[k].1.machine_id@ != machine_id@);
            }
        }
        if profiles_wf(ps, host_id) {
            assert forall|a: int, b: int| 0 <= a < b < qs.len() implies #[trigger] qs[a].1.machine_id@
                != #[trigger] qs[b].1.machine_id@ by {
                if b == ps.len() {
                    assert(qs[a] == ps[a]);
                } else {
                    assert(qs[a] == ps[a]);
                    assert(qs[b] == ps[b]);
                }
            }
            assert forall|a: int| 1 <= a < qs.len() implies #[trigger] qs[a].1.kind == ProfileKind::GUEST by {
                if a < ps.len() {
                    assert(qs[a] == ps[a]);
                }
            }
            assert(qs[0] == ps[0]);
        }
    }
}

/// The view of an object's members, if the value was an object.
pub open spec fn opt_members_view(m: Option<Vec<Member>>) -> Option<Seq<Option<Option<Seq<char>>>>> {
    match m {
        Some(ms) => Some(members_view(ms@)),
        None => None,
    }
}

/// Reads a ping body and registers the player it announces.
fn player_ping(body: &[u8], state: &mut ScaffoldingState, now: u64) -> (r: (u8, Vec<u8>))
    ensures
        (r.0, r.1@) == ping_response(body@),
        final(state).mc_port == old(state).mc_port,
        final(state).machine_id == old(state).machine_id,
        match ping_fields(body@) {
            Ok((name, machine_id, vendor)) => pinged(old(state).profiles@, final(state).profiles@, name, machine_id, vendor, now),
            Err(_) => final(state).profiles == old(state).profiles,
        },
        old(state).wf() ==> final(state).wf(),
{
    let keys: [&str; 3] = ["name", "machine_id", "vendor"];
    let key_slice = keys.as_slice();
    assert(keys_view(key_slice@) =~= ping_keys());
    let members = match decode_json_object(body, key_slice) {
        Err(e) => {
            let mut msg = String::from_str("Invalid JSON: ");
            msg.append(e.as_str());
            return (255, bytes_of(msg.as_str()));
        },
        Ok(m) => m,
    };
    let ghost mv = opt_members_view(members);
    assert(json_bytes_members(body@, ping_keys()) == Ok::<Option<Seq<Option<Option<Seq<char>>>>>, Seq<char>>(mv));
    let ms = match members {
        Some(ms) => ms,
        None => return (255, bytes_of("Missing 'name'")),
    };
    if ms.len() != 3 {
        return (255, bytes_of("Missing 'name'"));
    }
    assert(members_view(ms@)[0] == crate::codec::member_view(ms@[0]));
    assert(members_view(ms@)[1] == crate::codec::member_view(ms@[1]));
    assert(members_view(ms@)[2] == crate::codec::member_view(ms@[2]));
    let name = match &ms[0] {
        Some(Some(s)) => s,
        _ => return (255, bytes_of("Missing 'name'")),
    };
    let machine_id = match &ms[1] {
        Some(Some(s)) => s,
        _ => return (255, bytes_of("Missing 'machine_id'")),
    };
    let vendor = match &ms[2] {
        Some(Some(s)) => s,
        _ => return (255, bytes_of("Missing 'vendor'")),
    };
    apply_ping(&mut state.profiles, name.as_str(), machine_id.as_str(), vendor.as_str(), now, Ghost(state.machine_id@));
    (0, Vec::new())
}

/// Answers one scaffolding request for `namespace:path` with `body` at
/// time `now`. Only `c:player_ping` changes the state.
pub fn process_request(
    namespace: &str,
    path: &str,
    body: &[u8],
    state: &mut ScaffoldingState,
    now: u64,
) -> (r: (u8, Vec<u8>))
    ensures
        (r.0, r.1@) == response_of(namespace@, path@, body@, old(state).mc_port, old(state).profiles@),
        final(state).mc_port == old(state).mc_port,
        final(state).machine_id == old(state).machine_id,
        namespace@ == "c"@ && path@ == "player_ping"@ ==> match ping_fields(body@) {
            Ok((name, machine_id, vendor)) => pinged(old(state).profiles@, final(state).profiles@, name, machine_id, vendor, now),
            Err(_) => final(state).profiles == old(state).profiles,
        },
        !(namespace@ == "c"@ && path@ == "player_ping"@) ==> final(state).profiles == old(state).profiles,
        old(state).wf() ==> final(state).wf(),
{
    proof {
        reveal_strlit("ping");
        reveal_strlit("protocols");
        reveal_strlit("server_port");
        reveal_strlit("player_ping");
        reveal_strlit("player_profiles_list");
        assert("ping"@.len() == 4);
        assert("protocols"@.len() == 9);
        assert("server_port"@.len() == 11);
        assert("player_ping"@.len() == 11);
        assert("server_port"@[0] != "player_ping"@[0]);
        assert("player_profiles_list"@.len() == 20);
    }
    let c = text_eq(namespace, "c");
    if c && text_eq(path, "ping") {
        (0, vstd::slice::slice_to_vec(body))
    } else if c && text_eq(path, "protocols") {
        (0, bytes_of("c:ping\0c:protocols\0c:server_port\0c:player_ping\0c:player_profiles_list"))
    } else if c && text_eq(path, "server_port") {
        let port = state.mc_port;
        let mut v: Vec<u8> = Vec::new();
        v.push((port / 256) as u8);
        v.push((port % 256) as u8);
        assert(v@ =~= seq![(port / 256) as u8, (port % 256) as u8]);
        (0, v)
    } else if c && text_eq(path, "player_ping") {
        player_ping(body, state, now)
    } else if c && text_eq(path, "player_profiles_list") {
        let text = profiles_json_text(&state.profiles);
        (0, bytes_of(text.as_str()))
    } else {
        (255, bytes_of("Requested protocol hasn't been implemented."))
    }
}


/// Why the kind of a request is refused.
#[derive(Debug, PartialEq, Eq, Structural)]
pub enum KindError {
    /// The kind is not UTF-8.
    NotUtf8,
    /// The kind is not `namespace:path` with exactly one colon.
    Malformed,
}

/// The namespace and path that the kind bytes of a request name: UTF-8 text
/// holding exactly one `:`.
pub open spec fn kind_parts(b: Seq<u8>) -> Result<(Seq<char>, Seq<char>), KindError> {
    if !valid_utf8(b) {
        Err(KindError::NotUtf8)
    } else {
        let parts = split_on(decode_utf8(b), ':');
        if parts.len() == 2 {
            Ok((parts[0], parts[1]))
        } else {
            Err(KindError::Malformed)
        }
    }
}

/// Reads the kind of a request: its namespace and path.
pub fn parse_request_kind(kind: &[u8]) -> (r: Result<(String, String), KindError>)
    ensures
        match kind_parts(kind@) {
            Ok((ns, path)) => r matches Ok((a, b)) && a@ == ns && b@ == path,
            Err(e) => r == Err::<(String, String), KindError>(e),
        },
{
    let text = match crate::codec::utf8_text(kind) {
        Some(t) => t,
        None => return Err(KindError::NotUtf8),
    };
    let cs = chars_of(text.as_str());
    let parts = split_chars(&cs, ':');
    if parts.len() != 2 {
        return Err(KindError::Malformed);
    }
    assert(pieces(parts@)[0] == parts@[0]@);
    assert(pieces(parts@)[1] == parts@[1]@);
    Ok((string_of(&parts[0]), string_of(&parts[1])))
}

/// `x` as four big-endian bytes.
pub open spec fn be32(x: u32) -> Seq<u8> {
    seq![(x / 0x100_0000) as u8, ((x / 0x1_0000) % 256) as u8, ((x / 0x100) % 256) as u8, (x % 256) as u8]
}

/// The big-endian value of four bytes.
pub open spec fn be32_value(b: Seq<u8>) -> nat {
    (b[0] * 0x100_0000 + b[1] * 0x1_0000 + b[2] * 0x100 + b[3]) as nat
}

/// The length that the four header bytes before a request body give.
pub fn body_length(header: [u8; 4]) -> (r: u32)
    ensures
        r == be32_value(header@),
{
    (header[0] as u32) * 0x100_0000 + (header[1] as u32) * 0x1_0000 + (header[2] as u32) * 0x100
        + header[3] as u32
}

/// A response on the wire: the status byte, the body length as four
/// big-endian bytes (the length cast to `u32`), then the body.
pub fn encode_response(status: u8, body: &Vec<u8>) -> (r: Vec<u8>)
    ensures
        r@ == seq![status] + be32(body@.len() as u32) + body@,
{
    #[verifier::truncate]
    let len: u32 = body.len() as u32;
    let mut out: Vec<u8> = Vec::new();
    out.push(status);
    out.push((len / 0x100_0000) as u8);
    out.push(((len / 0x1_0000) % 256) as u8);
    out.push(((len / 0x100) % 256) as u8);
    out.push((len % 256) as u8);
    let ghost head = out@;
    assert(head =~= seq![status] + be32(body@.len() as u32));
    for i in 0..body.len()
        invariant
            out@ == head + body@.take(i as int),
    {
        out.push(body[i]);
        assert(out@ =~= head + body@.take(i + 1));
    }
    assert(body@.take(body@.len() as int) =~= body@);
    out
}

/// The length a response header carries is read back by `body_length`.
pub proof fn lemma_length_roundtrip(x: u32)
    ensures
        be32_value(be32(x)) == x,
{
    assert(be32_value(be32(x)) == x) by (nonlinear_arith);
}


/// The kind bytes that name `namespace:path`.
pub open spec fn kind_bytes(namespace: Seq<char>, path: Seq<char>) -> Seq<u8> {
    encode_utf8(namespace + seq![':'] + path)
}

/// A namespace and path without colons, written as `namespace:path`, are
/// read back as that namespace and path.
pub proof fn lemma_kind_roundtrip(namespace: Seq<char>, path: Seq<char>)
    requires
        !namespace.contains(':'),
        !path.contains(':'),
    ensures
        kind_parts(kind_bytes(namespace, path)) == Ok::<(Seq<char>, Seq<char>), KindError>((namespace, path)),
{
    let t = namespace + seq![':'] + path;
    vstd::utf8::encode_utf8_valid_utf8(t);
    vstd::utf8::encode_utf8_decode_utf8(t);
    crate::text::lemma_split_on_pair(namespace, path, ':');
}

/// A guest stays listed while it was seen less than 15 seconds before `now`
/// and is dropped from then on; the host's profile is always listed.
pub proof fn lemma_guest_timeout(e: (u64, Profile), now: u64)
    requires
        e.0 <= now,
    ensures
        e.1.kind == ProfileKind::HOST ==> still_listed(e, now),
        e.1.kind == ProfileKind::GUEST ==> (still_listed(e, now) <==> now - e.0 < 15 * 1_000_000_000),
{
}

/// The profiles list is the profiles' JSON objects joined by commas: no
/// profile gives `[]`, a single profile is its own object, and the list of
/// two nonempty tables
/// one after the other is the first list, a comma, and the second list.
pub proof fn lemma_profiles_json_join(a: Seq<(u64, Profile)>, b: Seq<(u64, Profile)>)
    requires
        a.len() >= 1,
        b.len() >= 1,
    ensures
        profiles_json(Seq::<(u64, Profile)>::empty()) == seq!['[', ']'],
        profiles_json_items(seq![a[0]]) == profile_json(a[0].1),
        profiles_json_items(a + b) == profiles_json_items(a) + seq![','] + profiles_json_items(b),
        profiles_json(a + b) == seq!['['] + profiles_json_items(a) + seq![','] + profiles_json_items(b)
            + seq![']'],
    decreases b.len(),
{
    assert(profiles_json(Seq::<(u64, Profile)>::empty()) =~= seq!['[', ']']);
    if b.len() == 1 {
        assert((a + b).drop_last() =~= a);
        assert((a + b).last() == b[0]);
    } else {
        lemma_profiles_json_join(a, b.drop_last());
        assert((a + b).drop_last() =~= a + b.drop_last());
        assert((a + b).last() == b.last());
        assert(profiles_json_items(a + b) =~= profiles_json_items(a) + seq![','] + profiles_json_items(b));
    }
}

/// Lengths travel most significant byte first: the four header bytes of `x`
/// weigh `2^24`, `2^16`, `2^8` and 1.
pub proof fn lemma_be32_big_endian(x: u32)
    ensures
        be32(x).len() == 4,
        x == be32(x)[0] * 0x100_0000 + be32(x)[1] * 0x1_0000 + be32(x)[2] * 0x100 + be32(x)[3],
{
    lemma_length_roundtrip(x);
}

/// `c:server_port` is answered with success and the Minecraft port as two
/// bytes, high byte first.
pub proof fn lemma_server_port_answer(body: Seq<u8>, mc_port: u16, ps: Seq<(u64, Profile)>)
    ensures
        ({
            let r = response_of("c"@, "server_port"@, body, mc_port, ps);
            &&& r.0 == 0
            &&& r.1.len() == 2
            &&& r.1[0] * 256 + r.1[1] == mc_port
        }),
{
    reveal_strlit("ping");
    reveal_strlit("protocols");
    reveal_strlit("server_port");
    assert("server_port"@.len() == 11);
    assert("ping"@.len() == 4);
    assert("protocols"@.len() == 9);
}

/// The protocol list names the five protocols this server answers, in
/// order, separated by NUL characters.
pub proof fn lemma_protocols_listed()
    ensures
        split_on(protocols_text(), '\0') == seq![
            "c:ping"@,
            "c:protocols"@,
            "c:server_port"@,
            "c:player_ping"@,
            "c:player_profiles_list"@,
        ],
{
    reveal_strlit("c:ping\0c:protocols\0c:server_port\0c:player_ping\0c:player_profiles_list");
    reveal_strlit("c:ping");
    reveal_strlit("c:protocols");
    reveal_strlit("c:server_port");
    reveal_strlit("c:player_ping");
    reveal_strlit("c:player_profiles_list");
    let p1 = "c:ping"@;
    let p2 = "c:protocols"@;
    let p3 = "c:server_port"@;
    let p4 = "c:player_ping"@;
    let p5 = "c:player_profiles_list"@;
    assert(!p1.contains('\0'));
    assert(!p2.contains('\0'));
    assert(!p3.contains('\0'));
    assert(!p4.contains('\0'));
    assert(!p5.contains('\0'));
    let x2 = p1 + seq!['\0'] + p2;
    let x3 = x2 + seq!['\0'] + p3;
    let x4 = x3 + seq!['\0'] + p4;
    let x5 = x4 + seq!['\0'] + p5;
    assert(protocols_text() =~= x5);
    crate::text::lemma_split_on_pair(p1, p2, '\0');
    crate::text::lemma_split_on_push(x2, p3, '\0');
    crate::text::lemma_split_on_push(x3, p4, '\0');
    crate::text::lemma_split_on_push(x4, p5, '\0');
    assert(split_on(x5, '\0') =~= seq![p1, p2, p3, p4, p5]);
}

/// A ping is registered: afterwards the table lists a guest with the
/// pinging machine id, the announced name and the time of the ping, and at
/// most one profile was added. (The host's own machine id is left alone.)
pub proof fn lemma_ping_registers(
    old: Seq<(u64, Profile)>,
    new: Seq<(u64, Profile)>,
    host_id: Seq<char>,
    name: Seq<char>,
    machine_id: Seq<char>,
    vendor: Seq<char>,
    now: u64,
)
    requires
        profiles_wf(old, host_id),
        pinged(old, new, name, machine_id, vendor, now),
        machine_id != host_id,
    ensures
        exists|i: int| 1 <= i < new.len() && #[trigger] new[i].1.machine_id@ == machine_id && new[i].1.name@ == name
            && new[i].0 == now && new[i].1.kind == ProfileKind::GUEST,
        old.len() <= new.len() <= old.len() + 1,
        new[0] == old[0],
{
    if forall|j: int| 0 <= j < old.len() ==> #[trigger] old[j].1.machine_id@ != machine_id {
        let i = old.len() as int;
        assert(new[i] == new.last());
        assert(new[0] == new.take(old.len() as int)[0]);
        assert(new[i].1.machine_id@ == machine_id);
    } else {
        let j = choose|j: int| 0 <= j < old.len() && #[trigger] old[j].1.machine_id@ == machine_id;
        assert(first_with_id(old, machine_id, j)) by {
            assert forall|k: int| 0 <= k < j implies #[trigger] old[k].1.machine_id@ != machine_id by {
                assert(old[k].1.machine_id@ != old[j].1.machine_id@);
            }
        }
        assert(j != 0);
        assert(new[j].1.machine_id@ == machine_id);
        assert(new[0] == old[0]);
    }
}

} // verus!
