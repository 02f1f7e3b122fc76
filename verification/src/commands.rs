//! The command codec: the closed set of control messages exchanged between
//! master and agents, and their self-delimiting wire encoding.
//!
//! Every message is length-prefixed, so a receiver can always tell a
//! complete encoding from a truncated one. The payload is one tag byte,
//! followed for the string-carrying variants by a character count and the
//! characters, each written as its Unicode scalar value in four
//! little-endian bytes.
use vstd::arithmetic::div_mod::lemma_fundamental_div_mod;
use vstd::arithmetic::power::lemma_pow0;
use vstd::arithmetic::power::lemma_pow_increases;
use vstd::arithmetic::power::pow;
use vstd::prelude::*;
use vstd::utf8::char_is_scalar;
use vstd::utf8::char_u32_cast;
use vstd::utf8::is_scalar;

verus! {

/// A control message, immutable once built. `Update` announces "a change
/// occurred", `Ping` probes liveness, `Identify` binds an agent's
/// self-reported hostname to its connection, and `Custom` carries a
/// generic payload (today: the literal heartbeat acknowledgment "PONG",
/// and operator-supplied unicast payloads).
#[derive(Debug, Clone, PartialEq, Eq)]
pub enum Command {
    Update,
    Ping,
    Identify { hostname: String },
    Custom { data: String },
}

/// The mathematical value of a [`Command`]: the same variants with every
/// string taken as its character sequence.
pub enum CommandView {
    Update,
    Ping,
    Identify { hostname: Seq<char> },
    Custom { data: Seq<char> },
}

impl View for Command {
    type V = CommandView;

    open spec fn view(&self) -> CommandView {
        match self {
            Command::Update => CommandView::Update,
            Command::Ping => CommandView::Ping,
            Command::Identify { hostname } => CommandView::Identify { hostname: hostname@ },
            Command::Custom { data } => CommandView::Custom { data: data@ },
        }
    }
}

/// Execution context handed to an agent when it reacts to a command:
/// where the master it is talking to lives.
#[derive(Debug, Clone, PartialEq, Eq)]
pub struct ClientContext {
    pub ip: String,
    pub port: u16,
}

/// `n` written as `k` little-endian base-256 digits (the low digit first;
/// digits beyond the `k`-th are dropped).
pub open spec fn le_bytes(n: nat, k: nat) -> Seq<u8>
    decreases k,
{
    if k == 0 {
        Seq::empty()
    } else {
        seq![(n % 256) as u8] + le_bytes(n / 256, (k - 1) as nat)
    }
}

/// The number a little-endian base-256 digit sequence denotes.
pub open spec fn from_le(s: Seq<u8>) -> nat
    decreases s.len(),
{
    if s.len() == 0 {
        0
    } else {
        (s[0] + 256 * from_le(s.drop_first())) as nat
    }
}

pub proof fn lemma_le_bytes_len(n: nat, k: nat)
    ensures
        le_bytes(n, k).len() == k,
    decreases k,
{
    if k > 0 {
        lemma_le_bytes_len(n / 256, (k - 1) as nat);
    }
}

pub proof fn lemma_from_le_bound(s: Seq<u8>)
    ensures
        from_le(s) < pow(256, s.len() as nat),
    decreases s.len(),
{
    if s.len() == 0 {
        lemma_pow0(256);
    } else {
        lemma_from_le_bound(s.drop_first());
        assert(pow(256, s.len() as nat) == 256 * pow(256, (s.len() - 1) as nat)) by {
            reveal(pow);
        }
        assert(s[0] + 256 * from_le(s.drop_first()) < 256 * pow(256, (s.len() - 1) as nat))
            by (nonlinear_arith)
            requires
                s[0] < 256,
                from_le(s.drop_first()) < pow(256, (s.len() - 1) as nat),
        ;
    }
}

/// Writing a number small enough for `k` digits and reading it back is the
/// identity.
pub proof fn lemma_le_roundtrip(n: nat, k: nat)
    requires
        n < pow(256, k),
    ensures
        from_le(le_bytes(n, k)) == n,
    decreases k,
{
    if k == 0 {
        lemma_pow0(256);
    } else {
        assert(pow(256, k) == 256 * pow(256, (k - 1) as nat)) by {
            reveal(pow);
        }
        assert(n / 256 < pow(256, (k - 1) as nat)) by (nonlinear_arith)
            requires
                n < 256 * pow(256, (k - 1) as nat),
        ;
        lemma_le_roundtrip(n / 256, (k - 1) as nat);
        let s = le_bytes(n, k);
        lemma_le_bytes_len(n / 256, (k - 1) as nat);
        assert(s.drop_first() =~= le_bytes(n / 256, (k - 1) as nat));
        lemma_fundamental_div_mod(n as int, 256);
    }
}

proof fn lemma_pow256_vals()
    ensures
        pow(256, 4) == 0x1_0000_0000,
        pow(256, 8) == 0x1_0000_0000_0000_0000,
{
    reveal(pow);
    assert(pow(256, 0) == 1);
    assert(pow(256, 1) == 256 * pow(256, 0));
    assert(pow(256, 2) == 256 * pow(256, 1));
    assert(pow(256, 3) == 256 * pow(256, 2));
    assert(pow(256, 4) == 256 * pow(256, 3));
    assert(pow(256, 5) == 256 * pow(256, 4));
    assert(pow(256, 6) == 256 * pow(256, 5));
    assert(pow(256, 7) == 256 * pow(256, 6));
    assert(pow(256, 8) == 256 * pow(256, 7));
}

proof fn lemma_from_le_cons(s: Seq<u8>)
    requires
        s.len() > 0,
    ensures
        from_le(s) == s[0] + 256 * from_le(s.drop_first()),
{
}

/// Every character written as its scalar value in four little-endian
/// bytes, in sequence order.
pub open spec fn encode_chars(s: Seq<char>) -> Seq<u8>
    decreases s.len(),
{
    if s.len() == 0 {
        Seq::empty()
    } else {
        le_bytes(s[0] as u32 as nat, 4) + encode_chars(s.drop_first())
    }
}

/// A string field on the wire: the character count in eight bytes, then
/// the characters.
pub open spec fn encode_str_field(s: Seq<char>) -> Seq<u8> {
    le_bytes(s.len(), 8) + encode_chars(s)
}

/// The payload of a command: one tag byte, then the variant's fields.
pub open spec fn payload_of(c: CommandView) -> Seq<u8> {
    match c {
        CommandView::Update => seq![0u8],
        CommandView::Ping => seq![1u8],
        CommandView::Identify { hostname } => seq![2u8] + encode_str_field(hostname),
        CommandView::Custom { data } => seq![3u8] + encode_str_field(data),
    }
}

/// The full wire form of a command: the payload length in eight bytes,
/// then the payload.
pub open spec fn spec_serialize(c: CommandView) -> Seq<u8> {
    le_bytes(payload_of(c).len(), 8) + payload_of(c)
}

/// Whether a command is small enough for its encoding's length fields;
/// every command a running process can build satisfies this.
pub open spec fn fits_on_wire(c: CommandView) -> bool {
    match c {
        CommandView::Update => true,
        CommandView::Ping => true,
        CommandView::Identify { hostname } => hostname.len() < 0x2000_0000_0000_0000,
        CommandView::Custom { data } => data.len() < 0x2000_0000_0000_0000,
    }
}

/// Reads characters written by [`encode_chars`]; fails on a trailing
/// fragment or a value that is no Unicode scalar.
pub open spec fn decode_chars(b: Seq<u8>) -> Option<Seq<char>>
    decreases b.len(),
{
    if b.len() == 0 {
        Some(Seq::empty())
    } else if b.len() < 4 {
        None
    } else {
        let v = from_le(b.take(4));
        if is_scalar(v as u32) {
            match decode_chars(b.skip(4)) {
                Some(rest) => Some(seq![(v as u32) as char] + rest),
                None => None,
            }
        } else {
            None
        }
    }
}

/// Reads a string field; fails unless the byte count agrees exactly with
/// the announced character count.
pub open spec fn decode_str_field(b: Seq<u8>) -> Option<Seq<char>> {
    if b.len() < 8 {
        None
    } else {
        let n = from_le(b.take(8));
        if b.len() - 8 == 4 * n {
            decode_chars(b.skip(8))
        } else {
            None
        }
    }
}

/// Reads a payload; fails on an unknown tag or malformed fields.
pub open spec fn decode_payload(p: Seq<u8>) -> Option<CommandView> {
    if p.len() == 0 {
        None
    } else if p[0] == 0 {
        if p.len() == 1 {
            Some(CommandView::Update)
        } else {
            None
        }
    } else if p[0] == 1 {
        if p.len() == 1 {
            Some(CommandView::Ping)
        } else {
            None
        }
    } else if p[0] == 2 {
        match decode_str_field(p.drop_first()) {
            Some(h) => Some(CommandView::Identify { hostname: h }),
            None => None,
        }
    } else if p[0] == 3 {
        match decode_str_field(p.drop_first()) {
            Some(d) => Some(CommandView::Custom { data: d }),
            None => None,
        }
    } else {
        None
    }
}

/// The decoded value of a byte sequence that must hold exactly one
/// complete encoded command; anything else decodes to nothing.
pub open spec fn spec_deserialize(data: Seq<u8>) -> Option<CommandView> {
    if data.len() < 8 {
        None
    } else {
        let n = from_le(data.take(8));
        if data.len() - 8 == n {
            decode_payload(data.skip(8))
        } else {
            None
        }
    }
}

pub proof fn lemma_encode_chars_len(s: Seq<char>)
    ensures
        encode_chars(s).len() == 4 * s.len(),
    decreases s.len(),
{
    if s.len() > 0 {
        lemma_le_bytes_len(s[0] as u32 as nat, 4);
        lemma_encode_chars_len(s.drop_first());
    }
}

/// Character sequences survive the wire: decoding what was encoded gives
/// the sequence back.
pub proof fn lemma_decode_encode_chars(s: Seq<char>)
    ensures
        decode_chars(encode_chars(s)) == Some(s),
    decreases s.len(),
{
    if s.len() > 0 {
        let c0 = s[0];
        let v0: nat = c0 as u32 as nat;
        let e = encode_chars(s);
        lemma_le_bytes_len(v0, 4);
        lemma_encode_chars_len(s.drop_first());
        assert(e.take(4) =~= le_bytes(v0, 4));
        assert(e.skip(4) =~= encode_chars(s.drop_first()));
        char_is_scalar(c0);
        lemma_pow256_vals();
        lemma_le_roundtrip(v0, 4);
        char_u32_cast(c0, c0 as u32);
        lemma_decode_encode_chars(s.drop_first());
        assert(seq![c0] + s.drop_first() =~= s);
    }
}

/// Round-trip law: decoding the encoding of any command yields that very
/// command, variant and field values alike.
pub proof fn lemma_round_trip(c: CommandView)
    requires
        fits_on_wire(c),
    ensures
        spec_deserialize(spec_serialize(c)) == Some(c),
{
    let p = payload_of(c);
    let ser = spec_serialize(c);
    lemma_pow256_vals();
    match c {
        CommandView::Update => {
            lemma_le_bytes_len(1, 8);
            lemma_le_roundtrip(1, 8);
            assert(ser.take(8) =~= le_bytes(1, 8));
            assert(ser.skip(8) =~= p);
        },
        CommandView::Ping => {
            lemma_le_bytes_len(1, 8);
            lemma_le_roundtrip(1, 8);
            assert(ser.take(8) =~= le_bytes(1, 8));
            assert(ser.skip(8) =~= p);
        },
        CommandView::Identify { hostname } => {
            lemma_str_field_round_trip(hostname);
            lemma_le_bytes_len(hostname.len(), 8);
            lemma_encode_chars_len(hostname);
            let plen = p.len();
            lemma_le_bytes_len(plen, 8);
            lemma_le_roundtrip(plen, 8);
            assert(ser.take(8) =~= le_bytes(plen, 8));
            assert(ser.skip(8) =~= p);
            assert(p.drop_first() =~= encode_str_field(hostname));
        },
        CommandView::Custom { data } => {
            lemma_str_field_round_trip(data);
            lemma_le_bytes_len(data.len(), 8);
            lemma_encode_chars_len(data);
            let plen = p.len();
            lemma_le_bytes_len(plen, 8);
            lemma_le_roundtrip(plen, 8);
            assert(ser.take(8) =~= le_bytes(plen, 8));
            assert(ser.skip(8) =~= p);
            assert(p.drop_first() =~= encode_str_field(data));
        },
    }
}

proof fn lemma_str_field_round_trip(s: Seq<char>)
    requires
        s.len() < 0x2000_0000_0000_0000,
    ensures
        encode_str_field(s).len() == 8 + 4 * s.len(),
        decode_str_field(encode_str_field(s)) == Some(s),
{
    let b = encode_str_field(s);
    lemma_le_bytes_len(s.len(), 8);
    lemma_encode_chars_len(s);
    lemma_pow256_vals();
    lemma_le_roundtrip(s.len(), 8);
    assert(b.take(8) =~= le_bytes(s.len(), 8));
    assert(b.skip(8) =~= encode_chars(s));
    lemma_decode_encode_chars(s);
}

/// Returned by [`serialize_command`] when a command cannot be encoded;
/// this happens only for string fields too long for any real process.
#[derive(Debug, Clone, PartialEq, Eq)]
pub struct EncodingError;

/// Returned by [`deserialize_command`] when the bytes are not exactly one
/// well-formed encoded command.
#[derive(Debug, Clone, PartialEq, Eq)]
pub struct DecodingError;

/// Relies on char::from_u32: it converts exactly the Unicode scalar
/// values (no surrogates, nothing above the maximum code point), and the
/// resulting character has the given value.
#[verifier::external_body]
fn char_from_u32(v: u32) -> (r: Option<char>)
    ensures
        r is Some <==> is_scalar(v),
        r matches Some(c) ==> c as u32 == v,
{
    char::from_u32(v)
}

/// Relies on String::push: it appends exactly the one character.
#[verifier::external_body]
pub(crate) fn push_char(s: &mut String, c: char)
    ensures
        final(s)@ == old(s)@.push(c),
{
    s.push(c);
}

/// Appends `n` as eight little-endian bytes.
fn write_le64(out: &mut Vec<u8>, n: u64)
    ensures
        final(out)@ == old(out)@ + le_bytes(n as nat, 8),
{
    let n0: u64 = n;
    out.push((n0 % 256) as u8);
    let n1: u64 = n0 / 256;
    out.push((n1 % 256) as u8);
    let n2: u64 = n1 / 256;
    out.push((n2 % 256) as u8);
    let n3: u64 = n2 / 256;
    out.push((n3 % 256) as u8);
    let n4: u64 = n3 / 256;
    out.push((n4 % 256) as u8);
    let n5: u64 = n4 / 256;
    out.push((n5 % 256) as u8);
    let n6: u64 = n5 / 256;
    out.push((n6 % 256) as u8);
    let n7: u64 = n6 / 256;
    out.push((n7 % 256) as u8);
    proof {
        reveal_with_fuel(le_bytes, 9);
        assert(out@ =~= old(out)@ + le_bytes(n as nat, 8));
    }
}

/// Appends `v` as four little-endian bytes.
fn write_le32(out: &mut Vec<u8>, v: u32)
    ensures
        final(out)@ == old(out)@ + le_bytes(v as nat, 4),
{
    let n0: u32 = v;
    out.push((n0 % 256) as u8);
    let n1: u32 = n0 / 256;
    out.push((n1 % 256) as u8);
    let n2: u32 = n1 / 256;
    out.push((n2 % 256) as u8);
    let n3: u32 = n2 / 256;
    out.push((n3 % 256) as u8);
    proof {
        reveal_with_fuel(le_bytes, 5);
        assert(out@ =~= old(out)@ + le_bytes(v as nat, 4));
    }
}

/// Reads `k` little-endian bytes at `off` as a number.
fn read_le(data: &[u8], off: usize, k: usize) -> (r: u64)
    requires
        k <= 8,
        off + k <= data@.len(),
        off + k <= usize::MAX,
    ensures
        r as nat == from_le(data@.subrange(off as int, off + k)),
{
    proof {
        lemma_pow0(256);
        assert(data@.subrange(off + k, off + k) =~= Seq::<u8>::empty());
    }
    let mut acc: u64 = 0;
    let mut j: usize = k;
    while j > 0
        invariant
            j <= k,
            k <= 8,
            off + k <= data@.len(),
            off + k <= usize::MAX,
            acc as nat == from_le(data@.subrange(off + j, off + k)),
            acc < pow(256, (k - j) as nat),
        decreases j,
    {
        let b = data[off + (j - 1)];
        proof {
            let sub = data@.subrange(off + j - 1, off + k);
            assert(sub.drop_first() =~= data@.subrange(off + j, off + k));
            lemma_from_le_cons(sub);
            assert(pow(256, (k - j + 1) as nat) == 256 * pow(256, (k - j) as nat)) by {
                reveal(pow);
            }
            lemma_pow256_vals();
            lemma_pow_increases(256, (k - j + 1) as nat, 8);
        }
        acc = acc * 256 + (b as u64);
        j = j - 1;
    }
    acc
}

/// Prefixes a payload with its length and returns the whole message.
fn finish_message(payload: Vec<u8>) -> (r: Vec<u8>)
    ensures
        r@ == le_bytes(payload@.len(), 8) + payload@,
{
    let mut msg: Vec<u8> = Vec::new();
    write_le64(&mut msg, payload.len() as u64);
    let mut tail = payload;
    msg.append(&mut tail);
    msg
}

proof fn lemma_encode_chars_snoc(s: Seq<char>, i: int)
    requires
        0 <= i < s.len(),
    ensures
        encode_chars(s.take(i + 1)) =~= encode_chars(s.take(i)) + le_bytes(s[i] as u32 as nat, 4),
    decreases i,
{
    if i == 0 {
        assert(s.take(1).drop_first() =~= Seq::<char>::empty());
        assert(s.take(0) =~= Seq::<char>::empty());
    } else {
        lemma_encode_chars_snoc(s.drop_first(), i - 1);
        assert(s.take(i + 1).drop_first() =~= s.drop_first().take(i));
        assert(s.take(i).drop_first() =~= s.drop_first().take(i - 1));
        assert(s.drop_first()[i - 1] == s[i]);
        assert(encode_chars(s.take(i + 1)) =~= encode_chars(s.take(i)) + le_bytes(
            s[i] as u32 as nat,
            4,
        ));
    }
}

/// Appends a string field (count, then characters) if the string is small
/// enough for the count field; reports whether it did.
fn write_str_field(out: &mut Vec<u8>, s: &String) -> (ok: bool)
    ensures
        ok <==> s@.len() < 0x2000_0000_0000_0000,
        ok ==> final(out)@ == old(out)@ + encode_str_field(s@),
        !ok ==> final(out)@ == old(out)@,
{
    let n = s.as_str().unicode_len();
    if (n as u64) >= 0x2000_0000_0000_0000u64 {
        return false;
    }
    write_le64(out, n as u64);
    let mut i: usize = 0;
    proof {
        assert(encode_chars(s@.take(0)) =~= Seq::<u8>::empty());
        assert(out@ =~= old(out)@ + le_bytes(n as nat, 8) + encode_chars(s@.take(0)));
    }
    while i < n
        invariant
            i <= n,
            n as nat == s@.len(),
            out@ == old(out)@ + le_bytes(n as nat, 8) + encode_chars(s@.take(i as int)),
        decreases n - i,
    {
        let c = s.as_str().get_char(i);
        write_le32(out, c as u32);
        proof {
            lemma_encode_chars_snoc(s@, i as int);
            assert(out@ =~= old(out)@ + le_bytes(n as nat, 8) + encode_chars(
                s@.take(i + 1),
            ));
        }
        i = i + 1;
    }
    proof {
        assert(s@.take(n as int) =~= s@);
    }
    true
}

/// Encodes a command into one self-delimiting byte message. Fails only
/// when a string field is too long for its count field, which cannot
/// happen for strings a process can hold.
pub fn serialize_command(cmd: &Command) -> (r: Result<Vec<u8>, EncodingError>)
    ensures
        r is Ok <==> fits_on_wire(cmd@),
        r matches Ok(v) ==> v@ == spec_serialize(cmd@),
{
    let mut payload: Vec<u8> = Vec::new();
    match cmd {
        Command::Update => {
            payload.push(0u8);
            proof {
                assert(payload@ =~= payload_of(cmd@));
            }
            Ok(finish_message(payload))
        },
        Command::Ping => {
            payload.push(1u8);
            proof {
                assert(payload@ =~= payload_of(cmd@));
            }
            Ok(finish_message(payload))
        },
        Command::Identify { hostname } => {
            payload.push(2u8);
            if write_str_field(&mut payload, hostname) {
                proof {
                    assert(payload@ =~= payload_of(cmd@));
                }
                Ok(finish_message(payload))
            } else {
                Err(EncodingError)
            }
        },
        Command::Custom { data } => {
            payload.push(3u8);
            if write_str_field(&mut payload, data) {
                proof {
                    assert(payload@ =~= payload_of(cmd@));
                }
                Ok(finish_message(payload))
            } else {
                Err(EncodingError)
            }
        },
    }
}

/// Reads the characters of a string field from `start` to the end of
/// `data`, which the caller has checked to be a whole number of
/// four-byte groups.
fn decode_string_chars(data: &[u8], start: usize, cnt: usize) -> (r: Result<
    String,
    DecodingError,
>)
    requires
        start + 4 * cnt == data@.len(),
        data@.len() <= usize::MAX,
    ensures
        r matches Ok(s) ==> decode_chars(data@.skip(start as int)) == Some(s@),
        r is Err <==> decode_chars(data@.skip(start as int)) is None,
{
    let ghost cb = data@.skip(start as int);
    let mut s = String::new();
    let mut i: usize = 0;
    proof {
        assert(cb.skip(0) =~= cb);
        assert(Seq::<char>::empty() + decode_chars(cb)->Some_0 =~= decode_chars(cb)->Some_0);
    }
    while i < cnt
        invariant
            i <= cnt,
            start + 4 * cnt == data@.len(),
            data@.len() <= usize::MAX,
            cb == data@.skip(start as int),
            decode_chars(cb) == (match decode_chars(cb.skip(4 * i)) {
                Some(rest) => Some(s@ + rest),
                None => None::<Seq<char>>,
            }),
        decreases cnt - i,
    {
        let off = start + 4 * i;
        let v = read_le(data, off, 4);
        let ghost cbi = cb.skip(4 * i);
        proof {
            assert(cbi.take(4) =~= data@.subrange(off as int, off + 4));
            lemma_from_le_bound(data@.subrange(off as int, off + 4));
            lemma_pow256_vals();
        }
        match char_from_u32(v as u32) {
            Some(c) => {
                proof {
                    char_u32_cast(c, v as u32);
                    assert(cbi.skip(4) =~= cb.skip(4 * (i + 1)));
                    assert(decode_chars(cbi) == (match decode_chars(cbi.skip(4)) {
                        Some(rest) => Some(seq![c] + rest),
                        None => None::<Seq<char>>,
                    }));
                    if decode_chars(cbi.skip(4)) is Some {
                        let rest = decode_chars(cbi.skip(4))->Some_0;
                        assert(s@ + (seq![c] + rest) =~= s@.push(c) + rest);
                    }
                }
                push_char(&mut s, c);
            },
            None => {
                proof {
                    assert(decode_chars(cbi) is None);
                }
                return Err(DecodingError);
            },
        }
        i = i + 1;
    }
    proof {
        assert(cb.skip(4 * cnt as int) =~= Seq::<u8>::empty());
        assert(s@ + Seq::<char>::empty() =~= s@);
    }
    Ok(s)
}

/// Decodes a byte sequence that should hold exactly one encoded command.
/// Fails on anything else: a short or overlong buffer, a length prefix
/// that does not match, an unknown tag, or a malformed string field.
pub fn deserialize_command(data: &[u8]) -> (r: Result<Command, DecodingError>)
    ensures
        r matches Ok(c) ==> spec_deserialize(data@) == Some(c@),
        r is Err <==> spec_deserialize(data@) is None,
{
    let n = data.len();
    if n < 8 {
        return Err(DecodingError);
    }
    let total = read_le(data, 0, 8);
    proof {
        assert(data@.subrange(0, 8) =~= data@.take(8));
    }
    if ((n - 8) as u64) != total {
        return Err(DecodingError);
    }
    let ghost p = data@.skip(8);
    if n == 8 {
        proof {
            assert(p.len() == 0);
        }
        return Err(DecodingError);
    }
    let tag = data[8];
    proof {
        assert(p[0] == tag);
    }
    if tag == 0 {
        if n == 9 {
            Ok(Command::Update)
        } else {
            Err(DecodingError)
        }
    } else if tag == 1 {
        if n == 9 {
            Ok(Command::Ping)
        } else {
            Err(DecodingError)
        }
    } else if tag == 2 || tag == 3 {
        let ghost b = data@.skip(9);
        proof {
            assert(p.drop_first() =~= b);
        }
        if n < 17 {
            return Err(DecodingError);
        }
        let m = read_le(data, 9, 8);
        proof {
            assert(data@.subrange(9, 17) =~= b.take(8));
        }
        let rem = n - 17;
        proof {
            lemma_fundamental_div_mod(rem as int, 4);
        }
        if rem % 4 != 0 || ((rem / 4) as u64) != m {
            return Err(DecodingError);
        }
        let cnt = rem / 4;
        proof {
            assert(b.skip(8) =~= data@.skip(17));
            assert(b.len() - 8 == 4 * (m as nat));
        }
        match decode_string_chars(data, 17, cnt) {
            Ok(s) => {
                if tag == 2 {
                    Ok(Command::Identify { hostname: s })
                } else {
                    Ok(Command::Custom { data: s })
                }
            },
            Err(e) => Err(e),
        }
    } else {
        Err(DecodingError)
    }
}

/// A truncated encoding never decodes: the length prefix no longer
/// matches, or is itself incomplete.
pub proof fn lemma_truncated_fails(c: CommandView, k: int)
    requires
        fits_on_wire(c),
        0 <= k < spec_serialize(c).len(),
    ensures
        spec_deserialize(spec_serialize(c).take(k)) is None,
{
    let ser = spec_serialize(c);
    let p = payload_of(c);
    let t = ser.take(k);
    match c {
        CommandView::Identify { hostname } => {
            lemma_le_bytes_len(hostname.len(), 8);
            lemma_encode_chars_len(hostname);
        },
        CommandView::Custom { data } => {
            lemma_le_bytes_len(data.len(), 8);
            lemma_encode_chars_len(data);
        },
        _ => {},
    }
    if k >= 8 {
        lemma_le_bytes_len(p.len(), 8);
        lemma_pow256_vals();
        lemma_le_roundtrip(p.len(), 8);
        assert(t.take(8) =~= le_bytes(p.len(), 8));
        assert(t.len() - 8 < p.len());
    }
}

} // verus!
