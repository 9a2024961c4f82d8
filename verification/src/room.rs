//! Connection codes (`U/XXXX-XXXX-XXXX-XXXX`) and the EasyTier network
//! identity derived from them.
//!
//! A code is the base-34 representation of a value below `34^16`, least
//! significant digit first, written with the alphabet `0-9A-Z` without `I`
//! and `O`. Only multiples of 7 are accepted as codes.

use vstd::prelude::*;
use vstd::arithmetic::div_mod::{lemma_div_denominator, lemma_basic_div, lemma_fundamental_div_mod};
use crate::text::{push_char, chars_of};
use rand::Rng;

verus! {

/// Room information derived from a connection code.
#[derive(Debug, Clone)]
pub struct Room {
    /// The human-readable connection code (e.g. `U/ABCD-1234-EFGH-5678`).
    pub code: String,
    /// The EasyTier network name derived from the code.
    pub network_name: String,
    /// The EasyTier network secret derived from the code.
    pub network_secret: String,
}

/// `34^k`.
pub open spec fn pow34(k: nat) -> nat
    decreases k,
{
    if k == 0 {
        1
    } else {
        34 * pow34((k - 1) as nat)
    }
}

/// Number of distinct values a code can carry: `34^16`.
pub open spec fn code_space() -> nat {
    pow34(16)
}

/// The character for base-34 digit `d < 34`: `0-9`, then `A-Z` without `I`
/// and `O`.
pub open spec fn alphabet_char(d: nat) -> char {
    if d < 10 {
        ((48 + d) as u8) as char
    } else if d < 18 {
        ((55 + d) as u8) as char
    } else if d < 23 {
        ((56 + d) as u8) as char
    } else {
        ((57 + d) as u8) as char
    }
}

/// The digit value of a code character, where `I` reads as `1` and `O` as
/// `0`; `None` for anything else outside the alphabet.
pub open spec fn char_value(c: char) -> Option<nat> {
    let x = c as u32;
    if 48 <= x <= 57 {
        Some((x - 48) as nat)
    } else if 65 <= x <= 72 {
        Some((x - 55) as nat)
    } else if x == 73 {
        Some(1)
    } else if 74 <= x <= 78 {
        Some((x - 56) as nat)
    } else if x == 79 {
        Some(0)
    } else if 80 <= x <= 90 {
        Some((x - 57) as nat)
    } else {
        None
    }
}

/// The `k`-th base-34 digit of `v` (least significant first), as a character.
pub open spec fn digit_char(v: nat, k: nat) -> char {
    alphabet_char((v / pow34(k)) % 34)
}

/// The 16 digit characters of `v`, least significant first.
pub open spec fn digits(v: nat) -> Seq<char> {
    Seq::new(16, |k: int| digit_char(v, k as nat))
}

/// Four consecutive digit characters of `v`, starting at digit `k`.
pub open spec fn group(v: nat, k: int) -> Seq<char> {
    digits(v).subrange(k, k + 4)
}

/// The connection code of `v`: `U/` and the four digit groups joined by `-`.
pub open spec fn code_of(v: nat) -> Seq<char> {
    seq!['U', '/'] + group(v, 0) + seq!['-'] + group(v, 4) + seq!['-'] + group(v, 8) + seq!['-']
        + group(v, 12)
}

/// The EasyTier network name of `v`: `scaffolding-mc-` and the first two groups.
pub open spec fn network_name_of(v: nat) -> Seq<char> {
    "scaffolding-mc-"@ + group(v, 0) + seq!['-'] + group(v, 4)
}

/// The EasyTier network secret of `v`: the last two groups.
pub open spec fn network_secret_of(v: nat) -> Seq<char> {
    group(v, 8) + seq!['-'] + group(v, 12)
}

/// The room that the value `v` stands for.
pub open spec fn room_is(r: Room, v: nat) -> bool {
    &&& r.code@ == code_of(v)
    &&& r.network_name@ == network_name_of(v)
    &&& r.network_secret@ == network_secret_of(v)
}

pub proof fn lemma_pow34_positive(k: nat)
    ensures
        pow34(k) > 0,
    decreases k,
{
    if k > 0 {
        lemma_pow34_positive((k - 1) as nat);
    }
}

/// The character of digit `d`.
fn alphabet_char_exec(d: u8) -> (c: char)
    requires
        d < 34,
    ensures
        c == alphabet_char(d as nat),
{
    if d < 10 {
        (48u8 + d) as char
    } else if d < 18 {
        (55u8 + d) as char
    } else if d < 23 {
        (56u8 + d) as char
    } else {
        (57u8 + d) as char
    }
}

/// The 16 digit characters of `v`.
fn digit_chars(v: u128) -> (d: Vec<char>)
    requires
        v < code_space(),
    ensures
        d@ == digits(v as nat),
{
    let mut value: u128 = v;
    let mut d: Vec<char> = Vec::new();
    let mut i: usize = 0;
    proof {
        assert(pow34(0) == 1);
    }
    while i < 16
        invariant
            i <= 16,
            value == v as nat / pow34(i as nat),
            d@ == digits(v as nat).take(i as int),
        decreases 16 - i,
    {
        proof {
            lemma_pow34_positive(i as nat);
        }
        let x: u8 = (value % 34) as u8;
        d.push(alphabet_char_exec(x));
        proof {
            lemma_div_denominator(v as int, pow34(i as nat) as int, 34);
            assert(pow34((i + 1) as nat) == 34 * pow34(i as nat));
            assert(pow34(i as nat) * 34 == 34 * pow34(i as nat));
            assert(d@ =~= digits(v as nat).take(i + 1));
        }
        value = value / 34;
        i = i + 1;
    }
    assert(d@ =~= digits(v as nat));
    d
}

/// Appends four digit characters, starting at index `k` of `d`.
fn push_group(s: &mut String, d: &Vec<char>, k: usize)
    requires
        k + 4 <= d.len(),
    ensures
        final(s)@ == old(s)@ + d@.subrange(k as int, k + 4),
{
    push_char(s, d[k]);
    push_char(s, d[k + 1]);
    push_char(s, d[k + 2]);
    push_char(s, d[k + 3]);
    assert(s@ =~= old(s)@ + d@.subrange(k as int, k + 4));
}

/// The room (code, network name and secret) of a value below `34^16`.
pub fn from_value(value: u128) -> (r: Room)
    requires
        value < code_space(),
    ensures
        room_is(r, value as nat),
{
    let d = digit_chars(value);
    let mut code = String::new();
    push_char(&mut code, 'U');
    push_char(&mut code, '/');
    push_group(&mut code, &d, 0);
    push_char(&mut code, '-');
    push_group(&mut code, &d, 4);
    push_char(&mut code, '-');
    push_group(&mut code, &d, 8);
    push_char(&mut code, '-');
    push_group(&mut code, &d, 12);

    let mut network_name = String::from_str("scaffolding-mc-");
    push_group(&mut network_name, &d, 0);
    push_char(&mut network_name, '-');
    push_group(&mut network_name, &d, 4);

    let mut network_secret = String::new();
    push_group(&mut network_secret, &d, 8);
    push_char(&mut network_secret, '-');
    push_group(&mut network_secret, &d, 12);

    proof {
        assert(code@ =~= code_of(value as nat));
        assert(network_name@ =~= network_name_of(value as nat));
        assert(network_secret@ =~= network_secret_of(value as nat));
    }
    Room { code, network_name, network_secret }
}


/// `34^16`, written out.
pub proof fn lemma_code_space_value()
    ensures
        code_space() == 3189059870763703892770816,
{
    reveal_with_fuel(pow34, 17);
}

/// ASCII lowercase letters become uppercase; every other character is kept.
pub open spec fn ascii_upper(c: char) -> char {
    if 97 <= (c as u32) <= 122 {
        (((c as u32) - 32) as u8) as char
    } else {
        c
    }
}

/// `s` with ASCII letters uppercased.
pub open spec fn upper(s: Seq<char>) -> Seq<char> {
    s.map_values(|c: char| ascii_upper(c))
}

/// Offset of digit `k` inside the 19 characters after `U/` (dashes at 4, 9, 14).
pub open spec fn digit_pos(k: nat) -> int {
    (k + k / 4) as int
}

/// The value of digits `k..16` of the candidate code starting at `p` in `u`
/// (digit `k` least significant), or `None` if one of them is not a code
/// character.
pub open spec fn window_digits(u: Seq<char>, p: int, k: nat) -> Option<nat>
    decreases 16 - k,
{
    if k >= 16 {
        Some(0)
    } else {
        match (char_value(u[p + 2 + digit_pos(k)]), window_digits(u, p, k + 1)) {
            (Some(d), Some(h)) => Some(h * 34 + d),
            _ => None,
        }
    }
}

/// The value of the 21 characters of `u` starting at `p`, if they form a
/// code (`U/`, dashes in place, code characters elsewhere) whose value is a
/// multiple of 7.
pub open spec fn window_value(u: Seq<char>, p: int) -> Option<nat> {
    if u[p] == 'U' && u[p + 1] == '/' && u[p + 6] == '-' && u[p + 11] == '-' && u[p + 16] == '-' {
        match window_digits(u, p, 0) {
            Some(v) => if v % 7 == 0 {
                Some(v)
            } else {
                None
            },
            None => None,
        }
    } else {
        None
    }
}

/// The value of the leftmost code in `u` that starts at or after `p`.
pub open spec fn first_code_value(u: Seq<char>, p: nat) -> Option<nat>
    decreases u.len() - p,
{
    if p + 21 > u.len() {
        None
    } else {
        match window_value(u, p as int) {
            Some(v) => Some(v),
            None => first_code_value(u, p + 1),
        }
    }
}

/// The value that `parse_code` reads from `s`: the leftmost code found in
/// `s` after uppercasing its ASCII letters.
pub open spec fn parsed_value(s: Seq<char>) -> Option<nat> {
    first_code_value(upper(s), 0)
}

/// Uppercases an ASCII letter.
fn ascii_upper_exec(c: char) -> (r: char)
    ensures
        r == ascii_upper(c),
{
    let x = c as u32;
    if x >= 97 && x <= 122 {
        ((x - 32) as u8) as char
    } else {
        c
    }
}

/// Looks up a character among the code characters, reading `I` as `1` and
/// `O` as `0`.
fn lookup_char(ch: char) -> (r: Option<u8>)
    ensures
        r matches Some(d) ==> char_value(ch) == Some(d as nat) && d < 34,
        r is None ==> char_value(ch) is None,
{
    let x = ch as u32;
    if x >= 48 && x <= 57 {
        Some((x - 48) as u8)
    } else if x >= 65 && x <= 72 {
        Some((x - 55) as u8)
    } else if x == 73 {
        Some(1)
    } else if x >= 74 && x <= 78 {
        Some((x - 56) as u8)
    } else if x == 79 {
        Some(0)
    } else if x >= 80 && x <= 90 {
        Some((x - 57) as u8)
    } else {
        None
    }
}

/// Digit values read from a window stay below `34^(16-k)`.
proof fn lemma_window_digits_bound(u: Seq<char>, p: int, k: nat)
    requires
        k <= 16,
    ensures
        window_digits(u, p, k) matches Some(h) ==> h < pow34((16 - k) as nat),
    decreases 16 - k,
{
    if k < 16 {
        lemma_window_digits_bound(u, p, k + 1);
        assert(pow34((16 - k) as nat) == 34 * pow34((16 - (k + 1)) as nat));
    }
}

/// The value of the candidate code at `p`, checked as `window_value` says.
fn window_value_exec(u: &Vec<char>, p: usize) -> (r: Option<u128>)
    requires
        p + 21 <= u.len(),
    ensures
        r matches Some(v) ==> window_value(u@, p as int) == Some(v as nat),
        r is None ==> window_value(u@, p as int) is None,
{
    if u[p] != 'U' || u[p + 1] != '/' || u[p + 6] != '-' || u[p + 11] != '-' || u[p + 16] != '-' {
        return None;
    }
    let mut value: u128 = 0;
    let mut k: usize = 16;
    proof {
        lemma_code_space_value();
        reveal_with_fuel(pow34, 1);
    }
    while k > 0
        invariant
            k <= 16,
            p + 21 <= u.len(),
            window_digits(u@, p as int, k as nat) == Some(value as nat),
            value < pow34((16 - k) as nat),
            code_space() == 3189059870763703892770816,
        decreases k,
    {
        k = k - 1;
        let pos = p + 2 + k + k / 4;
        match lookup_char(u[pos]) {
            Some(d) => {
                proof {
                    lemma_window_digits_bound(u@, p as int, 0);
                    assert(pow34((16 - k) as nat) == 34 * pow34((16 - (k + 1)) as nat));
                    lemma_pow34_monotone((16 - k) as nat, 16);
                }
                value = value * 34 + d as u128;
            },
            None => {
                proof {
                    lemma_window_digits_none(u@, p as int, k as nat);
                }
                return None;
            },
        }
    }
    if value % 7 == 0 {
        Some(value)
    } else {
        None
    }
}

/// A window with an invalid digit at `k` has no value.
proof fn lemma_window_digits_none(u: Seq<char>, p: int, k: nat)
    requires
        k < 16,
        char_value(u[p + 2 + digit_pos(k)]) is None,
    ensures
        forall|j: nat| j <= k ==> #[trigger] window_digits(u, p, j) is None,
    decreases k,
{
    assert forall|j: nat| j <= k implies #[trigger] window_digits(u, p, j) is None by {
        lemma_window_digits_none_down(u, p, k, j);
    }
}

proof fn lemma_window_digits_none_down(u: Seq<char>, p: int, k: nat, j: nat)
    requires
        j <= k < 16,
        window_digits(u, p, k) is None,
    ensures
        window_digits(u, p, j) is None,
    decreases k - j,
{
    if j < k {
        lemma_window_digits_none_down(u, p, k, j + 1);
    }
}

/// `34^i <= 34^j` for `i <= j`.
proof fn lemma_pow34_monotone(i: nat, j: nat)
    requires
        i <= j,
    ensures
        pow34(i) <= pow34(j),
    decreases j - i,
{
    if i < j {
        lemma_pow34_monotone(i, (j - 1) as nat);
        lemma_pow34_positive((j - 1) as nat);
    }
}

/// Parses a connection code: the leftmost `U/XXXX-XXXX-XXXX-XXXX` in `input`
/// (ASCII case ignored, `I` read as `1`, `O` as `0`) whose value is a
/// multiple of 7. The room returned is the canonical form of that code.
pub fn parse_code(input: &str) -> (r: Option<Room>)
    ensures
        match parsed_value(input@) {
            Some(v) => r matches Some(room) && room_is(room, v),
            None => r is None,
        },
{
    let raw = chars_of(input);
    let mut u: Vec<char> = Vec::new();
    for i in 0..raw.len()
        invariant
            raw@ == input@,
            u@ == upper(raw@).take(i as int),
    {
        u.push(ascii_upper_exec(raw[i]));
        assert(u@ =~= upper(raw@).take(i + 1));
    }
    assert(u@ =~= upper(input@));
    if u.len() < 21 {
        return None;
    }
    let mut p: usize = 0;
    while p <= u.len() - 21
        invariant
            u.len() >= 21,
            u@ == upper(input@),
            first_code_value(u@, p as nat) == parsed_value(input@),
        decreases u.len() - p,
    {
        match window_value_exec(&u, p) {
            Some(v) => {
                proof {
                    lemma_window_value_bound(u@, p as int);
                }
                return Some(from_value(v));
            },
            None => {
                p = p + 1;
            },
        }
    }
    None
}

/// A window's value is a code value: below `34^16` and a multiple of 7.
proof fn lemma_window_value_bound(u: Seq<char>, p: int)
    ensures
        window_value(u, p) matches Some(v) ==> v < code_space() && v % 7 == 0,
{
    lemma_window_digits_bound(u, p, 0);
}


/// Each digit character reads back as its digit and is already uppercase.
pub proof fn lemma_alphabet_char_value(d: nat)
    requires
        d < 34,
    ensures
        char_value(alphabet_char(d)) == Some(d),
        ascii_upper(alphabet_char(d)) == alphabet_char(d),
{
}

/// Every code has the form `U/XXXX-XXXX-XXXX-XXXX`: 21 characters, `U/` in
/// front, dashes between the groups, code characters (none of them `I`,
/// `O` or lowercase) everywhere else.
pub proof fn lemma_code_shape(v: nat)
    ensures
        code_of(v).len() == 21,
        code_of(v)[0] == 'U' && code_of(v)[1] == '/',
        code_of(v)[6] == '-' && code_of(v)[11] == '-' && code_of(v)[16] == '-',
        forall|k: nat| k < 16 ==> #[trigger] char_value(code_of(v)[2 + digit_pos(k)]) is Some,
        forall|k: nat| k < 16 ==> code_of(v)[2 + digit_pos(k)] != 'I' && code_of(v)[2 + digit_pos(k)] != 'O',
        upper(code_of(v)) == code_of(v),
{
    let c = code_of(v);
    assert forall|k: int| 0 <= k < 16 implies ascii_upper(#[trigger] digits(v)[k]) == digits(v)[k] by {
        lemma_alphabet_char_value((v / pow34(k as nat)) % 34);
    }
    assert forall|k: nat| k < 16 implies #[trigger] char_value(c[2 + digit_pos(k)]) is Some && c[2 + digit_pos(k)] != 'I'
        && c[2 + digit_pos(k)] != 'O' by {
        assert(c[2 + digit_pos(k)] == digits(v)[k as int]);
        lemma_alphabet_char_value((v / pow34(k)) % 34);
    }
    assert(upper(c) =~= c);
}

/// The digits of a code read back as the value it was written from.
proof fn lemma_code_digits(v: nat, k: nat)
    requires
        v < code_space(),
        k <= 16,
    ensures
        window_digits(code_of(v), 0, k) == Some(v / pow34(k)),
    decreases 16 - k,
{
    lemma_pow34_positive(k);
    if k == 16 {
        lemma_basic_div(v as int, pow34(16) as int);
    } else {
        lemma_code_digits(v, k + 1);
        let x = v / pow34(k);
        lemma_div_denominator(v as int, pow34(k) as int, 34);
        assert(pow34(k + 1) == 34 * pow34(k));
        assert(pow34(k) * 34 == 34 * pow34(k));
        lemma_alphabet_char_value(x % 34);
        assert(code_of(v)[2 + digit_pos(k)] == digits(v)[k as int]);
        lemma_fundamental_div_mod(x as int, 34);
    }
}

/// Every code that `from_value` writes is read back by `parse_code` as the
/// value it was written from.
pub proof fn lemma_code_roundtrip(v: nat)
    requires
        v < code_space(),
        v % 7 == 0,
    ensures
        parsed_value(code_of(v)) == Some(v),
{
    lemma_code_shape(v);
    lemma_code_digits(v, 0);
    assert(pow34(0) == 1);
    let c = code_of(v);
    assert(c[0] == 'U' && c[1] == '/' && c[6] == '-' && c[11] == '-' && c[16] == '-');
    assert(window_value(c, 0) == Some(v));
}

/// The leftmost code found is the value of some window.
proof fn lemma_first_code_value_bound(u: Seq<char>, p: nat)
    ensures
        first_code_value(u, p) matches Some(v) ==> v < code_space() && v % 7 == 0,
    decreases u.len() - p,
{
    if p + 21 <= u.len() {
        lemma_window_value_bound(u, p as int);
        lemma_first_code_value_bound(u, p + 1);
    }
}

/// Parsing is canonical: the code of the room that `parse_code` returns
/// parses again to the same value, hence to the same room.
pub proof fn lemma_parse_canonical(s: Seq<char>)
    ensures
        parsed_value(s) matches Some(v) ==> {
            &&& v < code_space()
            &&& v % 7 == 0
            &&& parsed_value(code_of(v)) == Some(v)
        },
{
    lemma_first_code_value_bound(upper(s), 0);
    if let Some(v) = parsed_value(s) {
        lemma_code_roundtrip(v);
    }
}


/// `256^k`.
pub open spec fn pow256(k: nat) -> nat
    decreases k,
{
    if k == 0 {
        1
    } else {
        256 * pow256((k - 1) as nat)
    }
}

/// The big-endian unsigned value of `b`.
pub open spec fn be_value(b: Seq<u8>) -> nat
    decreases b.len(),
{
    if b.len() == 0 {
        0
    } else {
        be_value(b.drop_last()) * 256 + b.last() as nat
    }
}

/// The value of a room drawn from 16 random bytes: the big-endian value of
/// the bytes reduced below `34^16`, rounded down to a multiple of 7.
pub open spec fn seed_value(b: Seq<u8>) -> nat {
    let x = be_value(b) % code_space();
    (x - x % 7) as nat
}

proof fn lemma_be_value_bound(b: Seq<u8>)
    ensures
        be_value(b) < pow256(b.len()),
    decreases b.len(),
{
    if b.len() > 0 {
        lemma_be_value_bound(b.drop_last());
    }
}

/// 16 bytes from rand's thread-local generator (`rand::thread_rng().gen()`).
/// Nothing is stated of them: they are random.
#[verifier::external_body]
pub(crate) fn random_bytes() -> [u8; 16] {
    rand::thread_rng().gen()
}

/// The room whose value is drawn from the 16 bytes `seed` as Terracotta
/// draws it.
pub fn room_from_seed(seed: [u8; 16]) -> (r: Room)
    ensures
        room_is(r, seed_value(seed@)),
        seed_value(seed@) < code_space(),
        seed_value(seed@) % 7 == 0,
{
    let mut acc: u128 = 0;
    let mut i: usize = 0;
    proof {
        reveal_with_fuel(pow256, 17);
        assert(pow256(16) == 0x1_0000_0000_0000_0000_0000_0000_0000_0000);
        lemma_code_space_value();
    }
    while i < 16
        invariant
            i <= 16,
            acc == be_value(seed@.take(i as int)),
            pow256(16) == 0x1_0000_0000_0000_0000_0000_0000_0000_0000,
        decreases 16 - i,
    {
        proof {
            lemma_be_value_bound(seed@.take(i as int));
            lemma_pow256_monotone(i as nat, 15);
            assert(seed@.take(i + 1).drop_last() =~= seed@.take(i as int));
        }
        acc = acc * 256 + seed[i] as u128;
        i = i + 1;
    }
    assert(seed@.take(16) =~= seed@);
    let x: u128 = acc % 3189059870763703892770816u128;
    let value: u128 = x - x % 7;
    from_value(value)
}

proof fn lemma_pow256_monotone(i: nat, j: nat)
    requires
        i <= j,
    ensures
        pow256(i) <= pow256(j),
    decreases j - i,
{
    if i < j {
        lemma_pow256_monotone(i, (j - 1) as nat);
    }
}

/// Creates a room with a random connection code. Whatever the random bytes,
/// the room is that of a value below `34^16` that is a multiple of 7, so its
/// code parses back to it (`lemma_code_roundtrip`).
pub fn create_room() -> (r: Room)
    ensures
        exists|v: nat| v < code_space() && v % 7 == 0 && #[trigger] room_is(r, v),
{
    let seed = random_bytes();
    room_from_seed(seed)
}


/// Two characters read the same inside a code: equal up to ASCII case, or
/// code characters of the same digit value (`O` and `0`, `I` and `1`).
pub open spec fn same_code_char(a: char, b: char) -> bool {
    ||| ascii_upper(a) == ascii_upper(b)
    ||| (char_value(ascii_upper(a)) is Some && char_value(ascii_upper(a)) == char_value(ascii_upper(b)))
}

/// Uppercased characters that read the same.
spec fn same_upper(u1: Seq<char>, u2: Seq<char>) -> bool {
    &&& u1.len() == u2.len()
    &&& forall|i: int|
        0 <= i < u1.len() ==> (#[trigger] u1[i] == u2[i] || (char_value(u1[i]) is Some && char_value(u1[i]) == char_value(u2[i])))
}

proof fn lemma_same_digits(u1: Seq<char>, u2: Seq<char>, p: int, k: nat)
    requires
        same_upper(u1, u2),
        0 <= p,
        p + 21 <= u1.len(),
        k <= 16,
    ensures
        window_digits(u1, p, k) == window_digits(u2, p, k),
    decreases 16 - k,
{
    if k < 16 {
        lemma_same_digits(u1, u2, p, k + 1);
        let x = p + 2 + digit_pos(k);
        assert(u1[x] == u2[x] || char_value(u1[x]) == char_value(u2[x]));
    }
}

/// The only character of digit value 28 is `U`.
proof fn lemma_only_u_is_28(c: char)
    requires
        char_value(c) == Some(28nat),
    ensures
        c == 'U',
{
    vstd::utf8::char_u32_cast(c, c as u32);
    vstd::utf8::char_u32_cast('U', 85);
}

proof fn lemma_same_window(u1: Seq<char>, u2: Seq<char>, p: int)
    requires
        same_upper(u1, u2),
        0 <= p,
        p + 21 <= u1.len(),
    ensures
        window_value(u1, p) == window_value(u2, p),
{
    lemma_same_digits(u1, u2, p, 0);
    assert(u1[p] == u2[p] || char_value(u1[p]) == char_value(u2[p]));
    if u1[p] != u2[p] && char_value(u1[p]) == Some(28nat) {
        lemma_only_u_is_28(u1[p]);
        lemma_only_u_is_28(u2[p]);
    }
    if u1[p] == 'U' {
        assert(char_value(u1[p]) == Some(28nat));
        if u1[p] != u2[p] {
            lemma_only_u_is_28(u2[p]);
        }
    }
    if u2[p] == 'U' {
        assert(char_value(u2[p]) == Some(28nat));
        if u1[p] != u2[p] {
            lemma_only_u_is_28(u1[p]);
        }
    }
    assert(u1[p + 1] == u2[p + 1] || char_value(u1[p + 1]) == char_value(u2[p + 1]));
    assert(u1[p + 6] == u2[p + 6] || char_value(u1[p + 6]) == char_value(u2[p + 6]));
    assert(u1[p + 11] == u2[p + 11] || char_value(u1[p + 11]) == char_value(u2[p + 11]));
    assert(u1[p + 16] == u2[p + 16] || char_value(u1[p + 16]) == char_value(u2[p + 16]));
}

proof fn lemma_same_first_code(u1: Seq<char>, u2: Seq<char>, p: nat)
    requires
        same_upper(u1, u2),
    ensures
        first_code_value(u1, p) == first_code_value(u2, p),
    decreases u1.len() - p,
{
    if p + 21 <= u1.len() {
        lemma_same_window(u1, u2, p as int);
        lemma_same_first_code(u1, u2, p + 1);
    }
}

/// Parsing ignores ASCII case and reads `O` as `0` and `I` as `1`: texts
/// that read the same character by character give the same room.
pub proof fn lemma_parse_ignores_case_and_lookalikes(s1: Seq<char>, s2: Seq<char>)
    requires
        s1.len() == s2.len(),
        forall|i: int| 0 <= i < s1.len() ==> #[trigger] same_code_char(s1[i], s2[i]),
    ensures
        parsed_value(s1) == parsed_value(s2),
{
    let u1 = upper(s1);
    let u2 = upper(s2);
    assert forall|i: int| 0 <= i < u1.len() implies (#[trigger] u1[i] == u2[i] || (char_value(u1[i]) is Some
        && char_value(u1[i]) == char_value(u2[i]))) by {
        assert(same_code_char(s1[i], s2[i]));
    }
    lemma_same_first_code(u1, u2, 0);
}


/// The code alphabet is `0123456789ABCDEFGHJKLMNPQRSTUVWXYZ`: digit `d` is
/// written as its `d`-th character and read back as `d`; `I` reads as 1,
/// `O` as 0, and no other character reads as a digit.
pub proof fn lemma_code_alphabet()
    ensures
        forall|d: nat| d < 34 ==> #[trigger] alphabet_char(d) == "0123456789ABCDEFGHJKLMNPQRSTUVWXYZ"@[d as int],
        forall|d: nat| d < 34 ==> char_value(#[trigger] "0123456789ABCDEFGHJKLMNPQRSTUVWXYZ"@[d as int]) == Some(d),
        char_value('I') == Some(1nat),
        char_value('O') == Some(0nat),
        forall|c: char| #[trigger] char_value(c) is Some ==> char_value(c)->0 < 34 && (c
            == "0123456789ABCDEFGHJKLMNPQRSTUVWXYZ"@[char_value(c)->0 as int] || c == 'I' || c == 'O'),
{
    reveal_strlit("0123456789ABCDEFGHJKLMNPQRSTUVWXYZ");
    let a = "0123456789ABCDEFGHJKLMNPQRSTUVWXYZ"@;
    assert(a =~= seq!['0', '1', '2', '3', '4', '5', '6', '7', '8', '9', 'A', 'B', 'C', 'D', 'E', 'F', 'G',
        'H', 'J', 'K', 'L', 'M', 'N', 'P', 'Q', 'R', 'S', 'T', 'U', 'V', 'W', 'X', 'Y', 'Z']);
    assert forall|d: nat| d < 34 implies #[trigger] alphabet_char(d) == a[d as int] && char_value(a[d as int]) == Some(d) by {
        assert(a[d as int] as u32 == (if d < 10 { 48 + d } else if d < 18 { 55 + d } else if d < 23 { 56 + d } else { 57 + d }));
        vstd::utf8::char_u32_cast(a[d as int], a[d as int] as u32);
    }
    assert forall|c: char| #[trigger] char_value(c) is Some implies char_value(c)->0 < 34 && (c == a[char_value(c)->0 as int] || c == 'I' || c == 'O') by {
        let d = char_value(c)->0;
        vstd::utf8::char_u32_cast(c, c as u32);
        if c != 'I' && c != 'O' {
            assert(a[d as int] as u32 == c as u32);
            vstd::utf8::char_u32_cast(a[d as int], a[d as int] as u32);
        }
    }
}

/// `pow34` is the power of 34.
proof fn lemma_pow34_is_pow(k: nat)
    ensures
        pow34(k) == vstd::arithmetic::power::pow(34, k),
    decreases k,
{
    reveal(vstd::arithmetic::power::pow);
    if k > 0 {
        lemma_pow34_is_pow((k - 1) as nat);
    }
}

/// How a code is laid out: after `U/`, digit `k` of the value in base 34,
/// least significant first, stands at offset `k + k / 4` (a dash after every
/// four digits); the network name is `scaffolding-mc-` and the first two
/// groups, the network secret the last two groups.
pub proof fn lemma_code_layout(v: nat)
    ensures
        forall|k: nat| k < 16 ==> code_of(v)[(2 + k + k / 4) as int] == #[trigger] alphabet_char(
            ((v as int / vstd::arithmetic::power::pow(34, k)) % 34) as nat,
        ),
        network_name_of(v) == "scaffolding-mc-"@ + code_of(v).subrange(2, 11),
        network_secret_of(v) == code_of(v).subrange(12, 21),
{
    let c = code_of(v);
    assert forall|k: nat| k < 16 implies c[(2 + k + k / 4) as int] == #[trigger] alphabet_char(
        ((v as int / vstd::arithmetic::power::pow(34, k)) % 34) as nat,
    ) by {
        lemma_pow34_is_pow(k);
        assert(c[2 + digit_pos(k)] == digits(v)[k as int]);
    }
    assert(network_name_of(v) =~= "scaffolding-mc-"@ + c.subrange(2, 11));
    assert(network_secret_of(v) =~= c.subrange(12, 21));
}

/// Bytes are read most significant first: the first of `n` bytes weighs
/// `256^(n-1)`.
pub proof fn lemma_be_value_first(b: Seq<u8>)
    requires
        b.len() >= 1,
    ensures
        be_value(b) == b[0] * vstd::arithmetic::power::pow(256, (b.len() - 1) as nat) + be_value(b.drop_first()),
    decreases b.len(),
{
    reveal(vstd::arithmetic::power::pow);
    let n = b.len();
    if n == 1 {
        assert(b.drop_last() =~= Seq::<u8>::empty());
        assert(b.drop_first() =~= Seq::<u8>::empty());
        assert(be_value(Seq::<u8>::empty()) == 0);
        assert(vstd::arithmetic::power::pow(256, 0) == 1);
        assert(be_value(b) == b[0] as nat);
    } else {
        let dl = b.drop_last();
        lemma_be_value_first(dl);
        assert(dl[0] == b[0]);
        assert(b.drop_first().drop_last() =~= dl.drop_first());
        assert(b.drop_first().last() == b.last());
        let p = vstd::arithmetic::power::pow(256, (n - 2) as nat);
        assert(vstd::arithmetic::power::pow(256, (n - 1) as nat) == 256 * p);
        let r = be_value(dl.drop_first());
        assert(be_value(b) == (b[0] * p + r) * 256 + b.last());
        assert(be_value(b.drop_first()) == r * 256 + b.last());
        assert((b[0] * p + r) * 256 == b[0] * (256 * p) + r * 256) by (nonlinear_arith);
    }
}

/// The value a room is drawn with is the largest multiple of 7 not above the
/// seed's big-endian value reduced below `34^16`.
pub proof fn lemma_seed_value(b: Seq<u8>)
    ensures
        ({
            let x = be_value(b) % vstd::arithmetic::power::pow(34, 16) as nat;
            &&& seed_value(b) % 7 == 0
            &&& seed_value(b) <= x < seed_value(b) + 7
        }),
{
    lemma_pow34_is_pow(16);
    lemma_pow34_positive(16);
}

/// The first code found at or after `p` is the leftmost window there that
/// holds a code.
proof fn lemma_first_code_leftmost(u: Seq<char>, p: nat)
    ensures
        first_code_value(u, p) matches Some(v) ==> exists|q: int| p <= q && q + 21 <= u.len()
            && #[trigger] window_value(u, q) == Some(v) && forall|r: int| p <= r < q ==> #[trigger] window_value(u, r) is None,
        first_code_value(u, p) is None ==> forall|q: int| p <= q && q + 21 <= u.len() ==> #[trigger] window_value(u, q) is None,
    decreases u.len() - p,
{
    if p + 21 <= u.len() {
        lemma_first_code_leftmost(u, p + 1);
        if window_value(u, p as int) is None {
            if let Some(v) = first_code_value(u, p + 1) {
                let q = choose|q: int| p + 1 <= q && q + 21 <= u.len()
                    && #[trigger] window_value(u, q) == Some(v) && forall|r: int| p + 1 <= r < q ==> #[trigger] window_value(u, r) is None;
                assert forall|r: int| p <= r < q implies #[trigger] window_value(u, r) is None by {
                    if r > p {
                        assert(p + 1 <= r < q);
                    }
                }
            }
        } else {
            assert(forall|r: int| p <= r < p ==> #[trigger] window_value(u, r) is None);
        }
    }
}

/// `parse_code` reads the leftmost code in the text: the value it finds is
/// that of a window holding a code with no such window before it, and when
/// it finds none, no window of the text holds a code.
pub proof fn lemma_parse_leftmost(s: Seq<char>)
    ensures
        parsed_value(s) matches Some(v) ==> exists|p: int| 0 <= p && p + 21 <= s.len()
            && #[trigger] window_value(upper(s), p) == Some(v) && forall|q: int| 0 <= q < p ==> #[trigger] window_value(upper(s), q) is None,
        parsed_value(s) is None ==> forall|p: int| 0 <= p && p + 21 <= s.len() ==> #[trigger] window_value(upper(s), p) is None,
{
    lemma_first_code_leftmost(upper(s), 0);
}

} // verus!
