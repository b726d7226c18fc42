//! The typed model of Mainline DHT messages and the wire codec.
//!
//! Identifiers are 20-byte values, addresses 6-byte packed
//! IPv4/port pairs, and compact node lists concatenations of 26-byte
//! blobs.  Every port on the wire is big-endian.  Encoding emits the
//! canonical bencode form with dictionary keys in ascending order;
//! decoding accepts keys in any order and ignores unknown keys.

use vstd::prelude::*;
use vstd::utf8::valid_utf8;
use vstd::utf8::decode_utf8;
use vstd::utf8::encode_utf8;
use vstd::utf8::partial_valid_utf8_extend_ascii_block;
use vstd::string::StringSliceAdditionalSpecFns;
use crate::bencode::spec_parse_bstr;
use crate::bencode::spec_parse_uint;
use crate::bencode::spec_skip_value;
use crate::bencode::spec_skip_dict_items;
use crate::bencode::spec_skip_list_items;
use crate::bencode::spec_find_key;
use crate::bencode::spec_enc_bstr;
use crate::bencode::spec_enc_uint;
use crate::bencode::dec_digits;
use crate::bencode::is_digit;
use crate::bencode::DIGIT_VALUE_CAP;
use crate::bencode::parse_bstr;
use crate::bencode::parse_uint;
use crate::bencode::skip_dict_items;
use crate::bencode::find_key;
use crate::bencode::range_eq;
use crate::bencode::push_bstr;
use crate::bencode::push_uint;
use crate::bencode::lemma_parse_bstr_enc;
use crate::bencode::lemma_parse_uint_enc;
use crate::bencode::lemma_skip_bstr;
use crate::bencode::lemma_skip_uint;
use crate::bencode::lemma_skip_dict_step;
use crate::bencode::lemma_skip_dict_end;
use crate::bencode::lemma_skip_list_step;
use crate::bencode::lemma_skip_list_end;
use crate::bencode::lemma_find_key_hit;
use crate::bencode::lemma_find_key_miss;
use crate::bencode::lemma_find_key_end;

verus! {

/// Why a buffer failed to decode.
#[derive(Clone, Copy, Debug, PartialEq, Eq, Structural)]
pub enum CodecError {
    /// A fixed-width field had the wrong size.
    BadLength,
    /// The envelope discriminator `y` was not `q`, `r` or `e`.
    UnknownKind,
    /// The query name under `q` named no known query.
    UnknownQuery,
    /// The buffer was not the expected bencode shape.
    Malformed,
}

/// Why a textual identifier failed to parse.
#[derive(Clone, Copy, Debug, PartialEq, Eq, Structural)]
pub enum IdentityError {
    Malformed,
}

/// Why a request/reply exchange failed; produced by the I/O layer
/// driving the query queue.
#[derive(Clone, Copy, Debug, PartialEq, Eq, Structural)]
pub enum QueryError {
    Timeout,
    Io,
}

/// A 20-byte node or torrent identifier.
#[derive(Clone, Debug, PartialEq, Eq)]
pub struct DhtId(pub [u8; 20]);

pub open spec fn is_hex_digit(b: u8) -> bool {
    (48 <= b <= 57) || (97 <= b <= 102) || (65 <= b <= 70)
}

/// Numeric value of a hex digit byte, either case.
pub open spec fn hex_digit_val(b: u8) -> nat
    recommends
        is_hex_digit(b),
{
    if 48 <= b <= 57 {
        (b - 48) as nat
    } else if 97 <= b <= 102 {
        (b - 87) as nat
    } else {
        (b - 55) as nat
    }
}

/// Lowercase hex digit byte for a value below 16.
pub open spec fn hex_char_lower(n: nat) -> u8
    recommends
        n < 16,
{
    if n < 10 {
        (48 + n) as u8
    } else {
        (87 + n) as u8
    }
}

/// Lowercase hex rendering of a byte sequence, two digits per byte.
pub open spec fn spec_to_hex_bytes(b: Seq<u8>) -> Seq<u8> {
    Seq::new(
        b.len() * 2,
        |i: int|
            if i % 2 == 0 {
                hex_char_lower((b[i / 2] as nat) / 16)
            } else {
                hex_char_lower((b[i / 2] as nat) % 16)
            },
    )
}

/// The 20 bytes a 40-digit hex string denotes, or nothing when the
/// length differs or a byte is not a hex digit.  Either case is read.
pub open spec fn spec_from_hex_bytes(h: Seq<u8>) -> Option<Seq<u8>> {
    if h.len() == 40 && (forall|i: int| 0 <= i < h.len() ==> is_hex_digit(#[trigger] h[i])) {
        Some(
            Seq::new(
                20,
                |i: int| (hex_digit_val(h[2 * i]) * 16 + hex_digit_val(h[2 * i + 1])) as u8,
            ),
        )
    } else {
        None
    }
}

/// Every sequence of bytes below 128 is valid UTF-8.
pub proof fn lemma_ascii_valid_utf8(b: Seq<u8>)
    requires
        forall|i: int| 0 <= i < b.len() ==> #[trigger] b[i] < 128,
    ensures
        valid_utf8(b),
{
    assert(b.subrange(0, 0) =~= Seq::<u8>::empty());
    assert(valid_utf8(b.subrange(0, 0)));
    partial_valid_utf8_extend_ascii_block(b, 0, b.len() as int);
    assert(b.subrange(0, b.len() as int) =~= b);
}

/// Relies on `String::from_utf8`: it succeeds exactly on valid UTF-8
/// input and returns the string those bytes spell.
#[verifier::external_body]
pub(crate) fn bytes_to_string(v: Vec<u8>) -> (r: Option<String>)
    ensures
        r is Some <==> valid_utf8(v@),
        r matches Some(s) ==> s@ == decode_utf8(v@),
{
    String::from_utf8(v).ok()
}

/// Value of a hex digit byte; `None` when the byte is no hex digit.
fn hex_val(b: u8) -> (r: Option<u8>)
    ensures
        match r {
            Some(v) => is_hex_digit(b) && v == hex_digit_val(b) && v < 16,
            None => !is_hex_digit(b),
        },
{
    if 48 <= b && b <= 57 {
        Some(b - 48)
    } else if 97 <= b && b <= 102 {
        Some(b - 87)
    } else if 65 <= b && b <= 70 {
        Some(b - 55)
    } else {
        None
    }
}

/// Lowercase hex digit byte of a value below 16.
fn hex_char(n: u8) -> (r: u8)
    requires
        n < 16,
    ensures
        r == hex_char_lower(n as nat),
        r < 128,
{
    if n < 10 {
        48 + n
    } else {
        87 + n
    }
}

/// Hex digits of either case carry the value their lowercase twin
/// does.
pub open spec fn ascii_upper(b: u8) -> u8 {
    if 97 <= b <= 122 {
        (b - 32) as u8
    } else {
        b
    }
}

/// Rendering an identifier as hex and parsing the digits back yields
/// the identifier, byte for byte.
pub proof fn lemma_hex_round_trip(b: Seq<u8>)
    requires
        b.len() == 20,
    ensures
        spec_from_hex_bytes(spec_to_hex_bytes(b)) == Some(b),
{
    let h = spec_to_hex_bytes(b);
    assert(h.len() == 40);
    assert forall|i: int| 0 <= i < h.len() implies is_hex_digit(#[trigger] h[i]) by {
        let n = if i % 2 == 0 {
            (b[i / 2] as nat) / 16
        } else {
            (b[i / 2] as nat) % 16
        };
        assert(n < 16);
        assert(h[i] == hex_char_lower(n));
    }
    let parsed = Seq::new(
        20,
        |i: int| (hex_digit_val(h[2 * i]) * 16 + hex_digit_val(h[2 * i + 1])) as u8,
    );
    assert forall|i: int| 0 <= i < 20 implies parsed[i] == b[i] by {
        let hi = (b[i] as nat) / 16;
        let lo = (b[i] as nat) % 16;
        assert(hi < 16 && lo < 16);
        assert((2 * i) % 2 == 0 && (2 * i) / 2 == i);
        assert((2 * i + 1) % 2 == 1 && (2 * i + 1) / 2 == i);
        assert(h[2 * i] == hex_char_lower(hi));
        assert(h[2 * i + 1] == hex_char_lower(lo));
        assert(hex_digit_val(hex_char_lower(hi)) == hi);
        assert(hex_digit_val(hex_char_lower(lo)) == lo);
        assert(hi * 16 + lo == b[i]) by {
            vstd::arithmetic::div_mod::lemma_fundamental_div_mod(b[i] as int, 16);
        }
    }
    assert(parsed =~= b);
}

/// Hex parsing reads uppercase input exactly as it reads lowercase:
/// folding the input to uppercase changes nothing.
pub proof fn lemma_from_hex_case_insensitive(h: Seq<u8>)
    ensures
        spec_from_hex_bytes(h.map_values(|b: u8| ascii_upper(b))) == spec_from_hex_bytes(h),
{
    let up = h.map_values(|b: u8| ascii_upper(b));
    assert(up.len() == h.len());
    assert forall|i: int| 0 <= i < h.len() implies #[trigger] is_hex_digit(up[i]) == is_hex_digit(
        h[i],
    ) && (is_hex_digit(h[i]) ==> hex_digit_val(up[i]) == hex_digit_val(h[i])) by {
        assert(up[i] == ascii_upper(h[i]));
    }
    if h.len() == 40 && (forall|i: int| 0 <= i < h.len() ==> is_hex_digit(#[trigger] h[i])) {
        assert(forall|i: int| 0 <= i < up.len() ==> is_hex_digit(#[trigger] up[i]));
        let a = Seq::new(
            20,
            |i: int| (hex_digit_val(up[2 * i]) * 16 + hex_digit_val(up[2 * i + 1])) as u8,
        );
        let c = Seq::new(
            20,
            |i: int| (hex_digit_val(h[2 * i]) * 16 + hex_digit_val(h[2 * i + 1])) as u8,
        );
        assert forall|i: int| 0 <= i < 20 implies a[i] == c[i] by {
            assert(up[2 * i] == ascii_upper(h[2 * i]));
            assert(up[2 * i + 1] == ascii_upper(h[2 * i + 1]));
        }
        assert(a =~= c);
    } else {
        if h.len() == 40 {
            let j = choose|j: int| 0 <= j < h.len() && !is_hex_digit(#[trigger] h[j]);
            assert(!is_hex_digit(up[j]));
        }
    }
}

/// Relies on `rand::random`: 20 bytes from the thread-local
/// cryptographic generator.  Nothing is promised of their values.
#[verifier::external_body]
fn random_id_bytes() -> [u8; 20] {
    rand::random::<[u8; 20]>()
}

impl DhtId {
    /// A fresh identifier drawn from cryptographic randomness.
    pub fn new() -> DhtId {
        DhtId(random_id_bytes())
    }

    /// Parses a 40-digit hex string, either case; anything else is
    /// `Malformed`.
    pub fn from_str(s: &str) -> (r: Result<DhtId, IdentityError>)
        ensures
            match r {
                Ok(id) => spec_from_hex_bytes(s.spec_bytes()) == Some(id.0@),
                Err(e) => e == IdentityError::Malformed && spec_from_hex_bytes(s.spec_bytes())
                    is None,
            },
    {
        let b = s.as_bytes();
        let ghost h = s.spec_bytes();
        if b.len() != 40 {
            return Err(IdentityError::Malformed);
        }
        let mut buf: [u8; 20] = [0u8; 20];
        let mut i: usize = 0;
        while i < 20
            invariant
                0 <= i <= 20,
                b@ == h,
                h == s.spec_bytes(),
                h.len() == 40,
                forall|j: int| 0 <= j < 2 * i ==> is_hex_digit(#[trigger] h[j]),
                forall|j: int|
                    0 <= j < i ==> buf@[j] == (hex_digit_val(h[2 * j]) * 16 + hex_digit_val(
                        h[2 * j + 1],
                    )) as u8,
            decreases 20 - i,
        {
            let hi = match hex_val(b[2 * i]) {
                Some(v) => v,
                None => {
                    proof {
                        assert(!is_hex_digit(h[2 * (i as int)]));
                        assert(spec_from_hex_bytes(h) is None);
                    }
                    return Err(IdentityError::Malformed);
                },
            };
            let lo = match hex_val(b[2 * i + 1]) {
                Some(v) => v,
                None => {
                    proof {
                        assert(!is_hex_digit(h[2 * (i as int) + 1]));
                        assert(spec_from_hex_bytes(h) is None);
                    }
                    return Err(IdentityError::Malformed);
                },
            };
            buf[i] = hi * 16 + lo;
            i = i + 1;
        }
        let id = DhtId(buf);
        proof {
            let expected = Seq::new(
                20,
                |j: int| (hex_digit_val(h[2 * j]) * 16 + hex_digit_val(h[2 * j + 1])) as u8,
            );
            assert(buf@ =~= expected);
            assert forall|j: int| 0 <= j < h.len() implies is_hex_digit(#[trigger] h[j]) by {
                if j % 2 == 0 {
                    assert(h[2 * (j / 2)] == h[j]);
                } else {
                    assert(h[2 * (j / 2) + 1] == h[j]);
                }
            }
        }
        Ok(id)
    }

    /// Lowercase hex rendering, two digits per byte.
    pub fn to_hex(&self) -> (r: String)
        ensures
            encode_utf8(r@) == spec_to_hex_bytes(self.0@),
    {
        let mut v: Vec<u8> = Vec::new();
        let ghost b = self.0@;
        let mut i: usize = 0;
        while i < 20
            invariant
                0 <= i <= 20,
                self.0@ == b,
                b.len() == 20,
                v@.len() == 2 * i,
                forall|j: int| 0 <= j < 2 * i ==> v@[j] == spec_to_hex_bytes(b)[j],
                forall|j: int| 0 <= j < 2 * i ==> #[trigger] v@[j] < 128,
            decreases 20 - i,
        {
            let byte = self.0[i];
            let hi = hex_char(byte / 16);
            let lo = hex_char(byte % 16);
            v.push(hi);
            v.push(lo);
            proof {
                assert(spec_to_hex_bytes(b)[2 * i] == hex_char_lower((b[i as int] as nat) / 16));
                assert(spec_to_hex_bytes(b)[2 * i + 1] == hex_char_lower(
                    (b[i as int] as nat) % 16,
                ));
            }
            i = i + 1;
        }
        proof {
            assert(v@ =~= spec_to_hex_bytes(b));
            lemma_ascii_valid_utf8(v@);
        }
        let r = bytes_to_string(v);
        match r {
            Some(s) => {
                proof {
                    vstd::utf8::decode_utf8_encode_utf8(spec_to_hex_bytes(b));
                }
                s
            },
            None => {
                proof {
                    assert(false);
                }
                String::new()
            },
        }
    }
}

/// Big-endian 16-bit value of two bytes.
pub open spec fn be16(hi: u8, lo: u8) -> u16 {
    (hi * 256 + lo) as u16
}

/// A packed IPv4 address and big-endian port, 6 bytes.
#[derive(Clone, Debug, PartialEq, Eq)]
pub struct NodeAddr(pub [u8; 6]);

impl NodeAddr {
    /// Packs an address from its IPv4 octets and port.
    pub fn new(ip: [u8; 4], port: u16) -> (r: NodeAddr)
        ensures
            r.0@ == ip@ + seq![(port / 256) as u8, (port % 256) as u8],
    {
        let r = NodeAddr(
            [ip[0], ip[1], ip[2], ip[3], (port / 256) as u8, (port % 256) as u8],
        );
        proof {
            assert(r.0@ =~= ip@ + seq![(port / 256) as u8, (port % 256) as u8]);
        }
        r
    }

    /// The IPv4 octets.
    pub fn ip(&self) -> (r: [u8; 4])
        ensures
            r@ == self.0@.subrange(0, 4),
    {
        let r = [self.0[0], self.0[1], self.0[2], self.0[3]];
        proof {
            assert(r@ =~= self.0@.subrange(0, 4));
        }
        r
    }

    /// The port, read big-endian.
    pub fn port(&self) -> (r: u16)
        ensures
            r == be16(self.0@[4], self.0@[5]),
    {
        (self.0[4] as u16) * 256 + (self.0[5] as u16)
    }
}

/// One entry of a compact node list: identifier, IPv4 octets, port.
#[derive(Clone, Debug, PartialEq, Eq)]
pub struct CompactNode {
    pub id: DhtId,
    pub ip: [u8; 4],
    pub port: u16,
}

impl CompactNode {
    /// Reads one 26-byte blob: 20 id bytes, 4 IPv4 octets, then the
    /// port in big-endian, as the wire format prescribes for every
    /// port.
    pub fn unpack(buf: &[u8]) -> (r: CompactNode)
        requires
            buf@.len() == 26,
        ensures
            r.id.0@ == buf@.subrange(0, 20),
            r.ip@ == buf@.subrange(20, 24),
            r.port == be16(buf@[24], buf@[25]),
    {
        let mut id: [u8; 20] = [0u8; 20];
        let mut i: usize = 0;
        while i < 20
            invariant
                0 <= i <= 20,
                buf@.len() == 26,
                forall|j: int| 0 <= j < i ==> id@[j] == buf@[j],
            decreases 20 - i,
        {
            id[i] = buf[i];
            i = i + 1;
        }
        let ip = [buf[20], buf[21], buf[22], buf[23]];
        let port = (buf[24] as u16) * 256 + (buf[25] as u16);
        let r = CompactNode { id: DhtId(id), ip, port };
        proof {
            assert(r.id.0@ =~= buf@.subrange(0, 20));
            assert(r.ip@ =~= buf@.subrange(20, 24));
        }
        r
    }
}

/// An identifier and socket address packed together: the 26-byte
/// form a node takes inside a compact node list.
#[derive(Clone, Debug, PartialEq, Eq)]
pub struct DhtContactId(pub [u8; 26]);

impl DhtContactId {
    /// Packs the 20 identifier bytes, the 4 IPv4 octets, and the
    /// port in big-endian.
    pub fn new(dht_id: &DhtId, ip: [u8; 4], port: u16) -> (r: DhtContactId)
        ensures
            r.0@ == dht_id.0@ + ip@ + seq![(port / 256) as u8, (port % 256) as u8],
    {
        let mut buf: [u8; 26] = [0u8; 26];
        let mut i: usize = 0;
        while i < 20
            invariant
                0 <= i <= 20,
                forall|j: int| 0 <= j < i ==> buf@[j] == dht_id.0@[j],
            decreases 20 - i,
        {
            buf[i] = dht_id.0[i];
            i = i + 1;
        }
        buf[20] = ip[0];
        buf[21] = ip[1];
        buf[22] = ip[2];
        buf[23] = ip[3];
        buf[24] = (port / 256) as u8;
        buf[25] = (port % 256) as u8;
        let r = DhtContactId(buf);
        proof {
            assert(r.0@ =~= dht_id.0@ + ip@ + seq![(port / 256) as u8, (port % 256) as u8]);
        }
        r
    }
}

/// A concatenation of 26-byte compact node blobs.
#[derive(Clone, Debug, PartialEq, Eq)]
pub struct CompactNodesList(pub Vec<u8>);

impl CompactNodesList {
    /// The stored bytes are whole 26-byte blobs.
    pub open spec fn wf(&self) -> bool {
        self.0@.len() % 26 == 0
    }

    /// Accepts a buffer exactly when its length is a multiple of 26.
    pub fn from_bytes(v: Vec<u8>) -> (r: Result<CompactNodesList, CodecError>)
        ensures
            match r {
                Ok(l) => v@.len() % 26 == 0 && l.0@ == v@ && l.wf(),
                Err(e) => e == CodecError::BadLength && v@.len() % 26 != 0,
            },
    {
        if v.len() % 26 == 0 {
            Ok(CompactNodesList(v))
        } else {
            Err(CodecError::BadLength)
        }
    }

    /// How many nodes the list packs.
    pub fn node_count(&self) -> (r: usize)
        requires
            self.wf(),
        ensures
            r == self.0@.len() / 26,
    {
        self.0.len() / 26
    }

    /// Unpacks every node.  On a well-formed list this cannot fail.
    pub fn nodes(&self) -> (r: Vec<CompactNode>)
        requires
            self.wf(),
        ensures
            r@.len() == self.0@.len() / 26,
            forall|j: int|
                0 <= j < r@.len() ==> {
                    &&& (#[trigger] r@[j]).id.0@ == self.0@.subrange(26 * j, 26 * j + 20)
                    &&& r@[j].ip@ == self.0@.subrange(26 * j + 20, 26 * j + 24)
                    &&& r@[j].port == be16(self.0@[26 * j + 24], self.0@[26 * j + 25])
                },
    {
        let mut r: Vec<CompactNode> = Vec::new();
        let n = self.0.len();
        let total = n / 26;
        proof {
            vstd::arithmetic::div_mod::lemma_fundamental_div_mod(self.0@.len() as int, 26);
        }
        let mut i: usize = 0;
        while i < total
            invariant
                0 <= i <= total,
                self.wf(),
                n == self.0@.len(),
                total == self.0@.len() / 26,
                26 * total <= self.0@.len(),
                r@.len() == i,
                forall|j: int|
                    0 <= j < i ==> {
                        &&& (#[trigger] r@[j]).id.0@ == self.0@.subrange(26 * j, 26 * j + 20)
                        &&& r@[j].ip@ == self.0@.subrange(26 * j + 20, 26 * j + 24)
                        &&& r@[j].port == be16(self.0@[26 * j + 24], self.0@[26 * j + 25])
                    },
            decreases total - i,
        {
            proof {
                assert(26 * i + 26 <= 26 * total) by (nonlinear_arith)
                    requires
                        i < total,
                ;
            }
            let chunk = slice_range(self.0.as_slice(), 26 * i, 26 * i + 26);
            let node = CompactNode::unpack(chunk.as_slice());
            proof {
                assert(chunk@.subrange(0, 20) =~= self.0@.subrange(26 * i, 26 * i + 20));
                assert(chunk@.subrange(20, 24) =~= self.0@.subrange(26 * i + 20, 26 * i + 24));
            }
            r.push(node);
            i = i + 1;
        }
        r
    }
}

/// Copies `s[a..b]` into a fresh vector.
pub fn slice_range(s: &[u8], a: usize, b: usize) -> (r: Vec<u8>)
    requires
        a <= b <= s@.len(),
    ensures
        r@ == s@.subrange(a as int, b as int),
{
    let mut r: Vec<u8> = Vec::new();
    let mut i: usize = a;
    while i < b
        invariant
            a <= i <= b <= s@.len(),
            r@ =~= s@.subrange(a as int, i as int),
        decreases b - i,
    {
        r.push(s[i]);
        proof {
            assert(r@ =~= s@.subrange(a as int, i + 1));
        }
        i = i + 1;
    }
    r
}


// ---------------------------------------------------------------------------
// Message model
// ---------------------------------------------------------------------------

/// Abstract value of a ping query.
pub struct PingQueryV {
    pub id: Seq<u8>,
}

/// Abstract value of a find-node query.
pub struct FindNodeQueryV {
    pub id: Seq<u8>,
    pub target: Seq<u8>,
}

/// Abstract value of a get-peers query.
pub struct GetPeersQueryV {
    pub id: Seq<u8>,
    pub info_hash: Seq<u8>,
}

/// Abstract value of an announce-peer query.
pub struct AnnouncePeerQueryV {
    pub id: Seq<u8>,
    pub info_hash: Seq<u8>,
    pub token: Seq<u8>,
    pub port: u16,
    pub implied_port: u8,
}

/// Abstract value of a query.
pub enum QueryV {
    Ping(PingQueryV),
    FindNode(FindNodeQueryV),
    GetPeers(GetPeersQueryV),
    AnnouncePeer(AnnouncePeerQueryV),
}

/// Abstract value of a whole message: a query, a response payload,
/// or an error with its code and UTF-8 text bytes.
pub enum MessageV<RV> {
    Q(QueryV),
    R(RV),
    E(u32, Seq<u8>),
}

/// A ping query carries only the sender's identifier.
#[derive(Clone, Debug, PartialEq, Eq)]
pub struct PingQuery {
    pub id: DhtId,
}

/// Asks for nodes close to `target`.
#[derive(Clone, Debug, PartialEq, Eq)]
pub struct FindNodeQuery {
    pub id: DhtId,
    pub target: DhtId,
}

/// Asks for peers of a torrent, or nodes close to its hash.
#[derive(Clone, Debug, PartialEq, Eq)]
pub struct GetPeersQuery {
    pub id: DhtId,
    pub info_hash: DhtId,
}

/// Announces the sender as a peer of a torrent, echoing the token a
/// prior get-peers response issued.
#[derive(Clone, Debug, PartialEq, Eq)]
pub struct AnnouncePeerQuery {
    pub id: DhtId,
    pub info_hash: DhtId,
    pub token: Vec<u8>,
    pub port: u16,
    pub implied_port: u8,
}

/// One of the four standard queries.
#[derive(Clone, Debug, PartialEq, Eq)]
pub enum Query {
    Ping(PingQuery),
    FindNode(FindNodeQuery),
    GetPeers(GetPeersQuery),
    AnnouncePeer(AnnouncePeerQuery),
}

/// Response to a ping.
#[derive(Clone, Debug, PartialEq, Eq)]
pub struct PingResponse {
    pub id: DhtId,
}

/// Response to a find-node: the closest nodes known.
#[derive(Clone, Debug, PartialEq, Eq)]
pub struct FindNodeResponse {
    pub id: DhtId,
    pub nodes: CompactNodesList,
}

/// Response to a get-peers: a token for a later announce, and peers
/// (`values`), closest nodes (`nodes`), either, both or neither.
#[derive(Clone, Debug, PartialEq, Eq)]
pub struct GetPeersResponse {
    pub id: DhtId,
    pub token: Vec<u8>,
    pub values: Option<Vec<NodeAddr>>,
    pub nodes: Option<CompactNodesList>,
}

/// Response to an announce-peer.
#[derive(Clone, Debug, PartialEq, Eq)]
pub struct AnnouncePeerResponse {
    pub id: DhtId,
}

/// A whole message of either direction.  `R` is the response payload
/// the caller expects; the untagged `r` dictionary can only be
/// parsed once that expectation is known.
#[derive(Debug, PartialEq, Eq)]
pub enum Message<R> {
    Q(Query),
    R { r: R },
    E { e: (u32, String) },
}

/// The shallow view of an inbound datagram: just enough to route it.
/// `y` is the discriminator byte (`q`, `r` or `e`) and `t` the
/// sender's transaction token, byte for byte.
#[derive(Clone, Debug, PartialEq, Eq)]
pub struct IncomingMessage {
    pub y: u8,
    pub t: Vec<u8>,
}

impl View for DhtId {
    type V = Seq<u8>;

    open spec fn view(&self) -> Seq<u8> {
        self.0@
    }
}

impl View for NodeAddr {
    type V = Seq<u8>;

    open spec fn view(&self) -> Seq<u8> {
        self.0@
    }
}

impl View for CompactNodesList {
    type V = Seq<u8>;

    open spec fn view(&self) -> Seq<u8> {
        self.0@
    }
}

impl View for PingQuery {
    type V = PingQueryV;

    open spec fn view(&self) -> PingQueryV {
        PingQueryV { id: self.id@ }
    }
}

impl View for FindNodeQuery {
    type V = FindNodeQueryV;

    open spec fn view(&self) -> FindNodeQueryV {
        FindNodeQueryV { id: self.id@, target: self.target@ }
    }
}

impl View for GetPeersQuery {
    type V = GetPeersQueryV;

    open spec fn view(&self) -> GetPeersQueryV {
        GetPeersQueryV { id: self.id@, info_hash: self.info_hash@ }
    }
}

impl View for AnnouncePeerQuery {
    type V = AnnouncePeerQueryV;

    open spec fn view(&self) -> AnnouncePeerQueryV {
        AnnouncePeerQueryV {
            id: self.id@,
            info_hash: self.info_hash@,
            token: self.token@,
            port: self.port,
            implied_port: self.implied_port,
        }
    }
}

impl View for Query {
    type V = QueryV;

    open spec fn view(&self) -> QueryV {
        match self {
            Query::Ping(q) => QueryV::Ping(q@),
            Query::FindNode(q) => QueryV::FindNode(q@),
            Query::GetPeers(q) => QueryV::GetPeers(q@),
            Query::AnnouncePeer(q) => QueryV::AnnouncePeer(q@),
        }
    }
}

impl<R: View> View for Message<R> {
    type V = MessageV<R::V>;

    open spec fn view(&self) -> MessageV<R::V> {
        match self {
            Message::Q(q) => MessageV::Q(q@),
            Message::R { r } => MessageV::R(r@),
            Message::E { e } => MessageV::E(e.0, encode_utf8(e.1@)),
        }
    }
}

// ---------------------------------------------------------------------------
// Dictionary keys and query names
// ---------------------------------------------------------------------------

pub open spec fn key_a() -> Seq<u8> {
    seq![97u8]
}

pub open spec fn key_e() -> Seq<u8> {
    seq![101u8]
}

pub open spec fn key_q() -> Seq<u8> {
    seq![113u8]
}

pub open spec fn key_r() -> Seq<u8> {
    seq![114u8]
}

pub open spec fn key_t() -> Seq<u8> {
    seq![116u8]
}

pub open spec fn key_y() -> Seq<u8> {
    seq![121u8]
}

pub open spec fn key_id() -> Seq<u8> {
    seq![105u8, 100]
}

pub open spec fn key_target() -> Seq<u8> {
    seq![116u8, 97, 114, 103, 101, 116]
}

pub open spec fn key_info_hash() -> Seq<u8> {
    seq![105u8, 110, 102, 111, 95, 104, 97, 115, 104]
}

pub open spec fn key_token() -> Seq<u8> {
    seq![116u8, 111, 107, 101, 110]
}

pub open spec fn key_port() -> Seq<u8> {
    seq![112u8, 111, 114, 116]
}

pub open spec fn key_implied_port() -> Seq<u8> {
    seq![105u8, 109, 112, 108, 105, 101, 100, 95, 112, 111, 114, 116]
}

pub open spec fn key_nodes() -> Seq<u8> {
    seq![110u8, 111, 100, 101, 115]
}

pub open spec fn key_values() -> Seq<u8> {
    seq![118u8, 97, 108, 117, 101, 115]
}

pub open spec fn qname_ping() -> Seq<u8> {
    seq![112u8, 105, 110, 103]
}

pub open spec fn qname_find_node() -> Seq<u8> {
    seq![102u8, 105, 110, 100, 95, 110, 111, 100, 101]
}

pub open spec fn qname_get_peers() -> Seq<u8> {
    seq![103u8, 101, 116, 95, 112, 101, 101, 114, 115]
}

pub open spec fn qname_announce_peer() -> Seq<u8> {
    seq![97u8, 110, 110, 111, 117, 110, 99, 101, 95, 112, 101, 101, 114]
}

/// Lengths a length header can denote; every machine-sized buffer
/// stays below it.
pub open spec fn len_cap() -> nat {
    DIGIT_VALUE_CAP as nat
}

// ---------------------------------------------------------------------------
// Canonical encodings (specification)
// ---------------------------------------------------------------------------

pub open spec fn spec_enc_ping_args(q: PingQueryV) -> Seq<u8> {
    seq![100u8] + spec_enc_bstr(key_id()) + spec_enc_bstr(q.id) + seq![101u8]
}

pub open spec fn spec_enc_find_node_args(q: FindNodeQueryV) -> Seq<u8> {
    seq![100u8] + spec_enc_bstr(key_id()) + spec_enc_bstr(q.id) + spec_enc_bstr(key_target())
        + spec_enc_bstr(q.target) + seq![101u8]
}

pub open spec fn spec_enc_get_peers_args(q: GetPeersQueryV) -> Seq<u8> {
    seq![100u8] + spec_enc_bstr(key_id()) + spec_enc_bstr(q.id) + spec_enc_bstr(key_info_hash())
        + spec_enc_bstr(q.info_hash) + seq![101u8]
}

pub open spec fn spec_enc_announce_args(q: AnnouncePeerQueryV) -> Seq<u8> {
    seq![100u8] + spec_enc_bstr(key_id()) + spec_enc_bstr(q.id) + spec_enc_bstr(key_implied_port())
        + spec_enc_uint(q.implied_port as nat) + spec_enc_bstr(key_info_hash()) + spec_enc_bstr(
        q.info_hash,
    ) + spec_enc_bstr(key_port()) + spec_enc_uint(q.port as nat) + spec_enc_bstr(key_token())
        + spec_enc_bstr(q.token) + seq![101u8]
}

/// The envelope of a query: keys `a`, `q`, `t`, `y` in order.
pub open spec fn spec_enc_query_message(args: Seq<u8>, name: Seq<u8>, t: Seq<u8>) -> Seq<u8> {
    seq![100u8] + spec_enc_bstr(key_a()) + args + spec_enc_bstr(key_q()) + spec_enc_bstr(name)
        + spec_enc_bstr(key_t()) + spec_enc_bstr(t) + spec_enc_bstr(key_y()) + spec_enc_bstr(
        seq![113u8],
    ) + seq![101u8]
}

pub open spec fn spec_enc_query(q: QueryV, t: Seq<u8>) -> Seq<u8> {
    match q {
        QueryV::Ping(p) => spec_enc_query_message(spec_enc_ping_args(p), qname_ping(), t),
        QueryV::FindNode(f) => spec_enc_query_message(
            spec_enc_find_node_args(f),
            qname_find_node(),
            t,
        ),
        QueryV::GetPeers(g) => spec_enc_query_message(
            spec_enc_get_peers_args(g),
            qname_get_peers(),
            t,
        ),
        QueryV::AnnouncePeer(a) => spec_enc_query_message(
            spec_enc_announce_args(a),
            qname_announce_peer(),
            t,
        ),
    }
}

/// The envelope of a response: keys `r`, `t`, `y` in order.
pub open spec fn spec_enc_response_message(payload: Seq<u8>, t: Seq<u8>) -> Seq<u8> {
    seq![100u8] + spec_enc_bstr(key_r()) + payload + spec_enc_bstr(key_t()) + spec_enc_bstr(t)
        + spec_enc_bstr(key_y()) + spec_enc_bstr(seq![114u8]) + seq![101u8]
}

/// The envelope of an error: keys `e`, `t`, `y` in order, the error
/// being the two-element list `[code, text]`.
pub open spec fn spec_enc_error_message(code: u32, msg: Seq<u8>, t: Seq<u8>) -> Seq<u8> {
    seq![100u8] + spec_enc_bstr(key_e()) + (seq![108u8] + spec_enc_uint(code as nat)
        + spec_enc_bstr(msg) + seq![101u8]) + spec_enc_bstr(key_t()) + spec_enc_bstr(t)
        + spec_enc_bstr(key_y()) + spec_enc_bstr(seq![101u8]) + seq![101u8]
}

// ---------------------------------------------------------------------------
// Decoding (specification)
// ---------------------------------------------------------------------------

/// The whole buffer is one dictionary.
pub open spec fn spec_envelope_frame_ok(s: Seq<u8>) -> bool {
    s.len() > 0 && s[0] == 100 && spec_skip_dict_items(s.skip(1)) == Some(Seq::<u8>::empty())
}

/// Shallow decode: the transaction token `t` and the discriminator
/// byte `y`, which must be one of `q`, `r`, `e`.
pub open spec fn spec_dec_envelope(s: Seq<u8>) -> Result<(Seq<u8>, u8), CodecError> {
    if !spec_envelope_frame_ok(s) {
        Err(CodecError::Malformed)
    } else {
        let items = s.skip(1);
        match spec_find_key(items, key_t()) {
            Some(tv) => match spec_parse_bstr(tv) {
                Some((t, _)) => match spec_find_key(items, key_y()) {
                    Some(yv) => match spec_parse_bstr(yv) {
                        Some((y, _)) => if y.len() == 1 && (y[0] == 113 || y[0] == 114 || y[0]
                            == 101) {
                            Ok((t, y[0]))
                        } else {
                            Err(CodecError::UnknownKind)
                        },
                        None => Err(CodecError::Malformed),
                    },
                    None => Err(CodecError::Malformed),
                },
                None => Err(CodecError::Malformed),
            },
            None => Err(CodecError::Malformed),
        }
    }
}

/// A required byte-string entry that must hold an identifier.
pub open spec fn spec_dec_id_field(items: Seq<u8>, key: Seq<u8>) -> Result<Seq<u8>, CodecError> {
    match spec_find_key(items, key) {
        Some(v) => match spec_parse_bstr(v) {
            Some((b, _)) => if b.len() == 20 {
                Ok(b)
            } else {
                Err(CodecError::BadLength)
            },
            None => Err(CodecError::Malformed),
        },
        None => Err(CodecError::Malformed),
    }
}

/// A required byte-string entry of any length.
pub open spec fn spec_dec_bstr_field(items: Seq<u8>, key: Seq<u8>) -> Result<Seq<u8>, CodecError> {
    match spec_find_key(items, key) {
        Some(v) => match spec_parse_bstr(v) {
            Some((b, _)) => Ok(b),
            None => Err(CodecError::Malformed),
        },
        None => Err(CodecError::Malformed),
    }
}

/// A required unsigned-integer entry.
pub open spec fn spec_dec_uint_field(items: Seq<u8>, key: Seq<u8>) -> Result<nat, CodecError> {
    match spec_find_key(items, key) {
        Some(v) => match spec_parse_uint(v) {
            Some((n, _)) => Ok(n),
            None => Err(CodecError::Malformed),
        },
        None => Err(CodecError::Malformed),
    }
}

pub open spec fn spec_dec_ping_args(v: Seq<u8>) -> Result<PingQueryV, CodecError> {
    if !(v.len() > 0 && v[0] == 100) {
        Err(CodecError::Malformed)
    } else {
        match spec_dec_id_field(v.skip(1), key_id()) {
            Ok(id) => Ok(PingQueryV { id }),
            Err(e) => Err(e),
        }
    }
}

pub open spec fn spec_dec_find_node_args(v: Seq<u8>) -> Result<FindNodeQueryV, CodecError> {
    if !(v.len() > 0 && v[0] == 100) {
        Err(CodecError::Malformed)
    } else {
        match spec_dec_id_field(v.skip(1), key_id()) {
            Ok(id) => match spec_dec_id_field(v.skip(1), key_target()) {
                Ok(target) => Ok(FindNodeQueryV { id, target }),
                Err(e) => Err(e),
            },
            Err(e) => Err(e),
        }
    }
}

pub open spec fn spec_dec_get_peers_args(v: Seq<u8>) -> Result<GetPeersQueryV, CodecError> {
    if !(v.len() > 0 && v[0] == 100) {
        Err(CodecError::Malformed)
    } else {
        match spec_dec_id_field(v.skip(1), key_id()) {
            Ok(id) => match spec_dec_id_field(v.skip(1), key_info_hash()) {
                Ok(info_hash) => Ok(GetPeersQueryV { id, info_hash }),
                Err(e) => Err(e),
            },
            Err(e) => Err(e),
        }
    }
}

pub open spec fn spec_dec_announce_args(v: Seq<u8>) -> Result<AnnouncePeerQueryV, CodecError> {
    if !(v.len() > 0 && v[0] == 100) {
        Err(CodecError::Malformed)
    } else {
        let items = v.skip(1);
        match spec_dec_id_field(items, key_id()) {
            Err(e) => Err(e),
            Ok(id) => match spec_dec_id_field(items, key_info_hash()) {
                Err(e) => Err(e),
                Ok(info_hash) => match spec_dec_bstr_field(items, key_token()) {
                    Err(e) => Err(e),
                    Ok(token) => match spec_dec_uint_field(items, key_port()) {
                        Err(e) => Err(e),
                        Ok(port) => if port < 0x10000 {
                            match spec_dec_uint_field(items, key_implied_port()) {
                                Err(e) => Err(e),
                                Ok(ip) => if ip < 0x100 {
                                    Ok(
                                        AnnouncePeerQueryV {
                                            id,
                                            info_hash,
                                            token,
                                            port: port as u16,
                                            implied_port: ip as u8,
                                        },
                                    )
                                } else {
                                    Err(CodecError::Malformed)
                                },
                            }
                        } else {
                            Err(CodecError::Malformed)
                        },
                    },
                },
            },
        }
    }
}

/// The items of a `values` list: 6-byte address strings up to the
/// closing `e`.
pub open spec fn spec_dec_addr_items(s: Seq<u8>) -> Result<Seq<Seq<u8>>, CodecError>
    decreases s.len(),
{
    if s.len() == 0 {
        Err(CodecError::Malformed)
    } else if s[0] == 101 {
        Ok(Seq::<Seq<u8>>::empty())
    } else if is_digit(s[0]) {
        match spec_parse_bstr(s) {
            Some((b, r)) => if b.len() == 6 {
                if r.len() < s.len() {
                    match spec_dec_addr_items(r) {
                        Ok(rest) => Ok(seq![b] + rest),
                        Err(e) => Err(e),
                    }
                } else {
                    Err(CodecError::Malformed)
                }
            } else {
                Err(CodecError::BadLength)
            },
            None => Err(CodecError::Malformed),
        }
    } else {
        Err(CodecError::Malformed)
    }
}

pub open spec fn spec_dec_values(v: Seq<u8>) -> Result<Seq<Seq<u8>>, CodecError> {
    if v.len() > 0 && v[0] == 108 {
        spec_dec_addr_items(v.skip(1))
    } else {
        Err(CodecError::Malformed)
    }
}

/// A `nodes` entry: a byte string of whole 26-byte blobs.
pub open spec fn spec_dec_nodes_field(items: Seq<u8>) -> Result<Seq<u8>, CodecError> {
    match spec_find_key(items, key_nodes()) {
        Some(v) => match spec_parse_bstr(v) {
            Some((b, _)) => if b.len() % 26 == 0 {
                Ok(b)
            } else {
                Err(CodecError::BadLength)
            },
            None => Err(CodecError::Malformed),
        },
        None => Err(CodecError::Malformed),
    }
}

/// The error value: the list `[code, text]`, the code below 2^32 and
/// the text valid UTF-8.
pub open spec fn spec_dec_error(v: Seq<u8>) -> Result<(u32, Seq<u8>), CodecError> {
    if !(v.len() > 0 && v[0] == 108) {
        Err(CodecError::Malformed)
    } else {
        match spec_parse_uint(v.skip(1)) {
            None => Err(CodecError::Malformed),
            Some((code, r)) => if code < 0x100000000 {
                match spec_parse_bstr(r) {
                    None => Err(CodecError::Malformed),
                    Some((msg, r2)) => if r2.len() > 0 && r2[0] == 101 && valid_utf8(msg) {
                        Ok((code as u32, msg))
                    } else {
                        Err(CodecError::Malformed)
                    },
                }
            } else {
                Err(CodecError::Malformed)
            },
        }
    }
}

// ---------------------------------------------------------------------------
// Response payloads
// ---------------------------------------------------------------------------

/// Abstract value of a ping or announce-peer response.
pub struct PingResponseV {
    pub id: Seq<u8>,
}

pub struct AnnouncePeerResponseV {
    pub id: Seq<u8>,
}

/// Abstract value of a find-node response.
pub struct FindNodeResponseV {
    pub id: Seq<u8>,
    pub nodes: Seq<u8>,
}

/// Abstract value of a get-peers response.
pub struct GetPeersResponseV {
    pub id: Seq<u8>,
    pub token: Seq<u8>,
    pub values: Option<Seq<Seq<u8>>>,
    pub nodes: Option<Seq<u8>>,
}

impl View for PingResponse {
    type V = PingResponseV;

    open spec fn view(&self) -> PingResponseV {
        PingResponseV { id: self.id@ }
    }
}

impl View for AnnouncePeerResponse {
    type V = AnnouncePeerResponseV;

    open spec fn view(&self) -> AnnouncePeerResponseV {
        AnnouncePeerResponseV { id: self.id@ }
    }
}

impl View for FindNodeResponse {
    type V = FindNodeResponseV;

    open spec fn view(&self) -> FindNodeResponseV {
        FindNodeResponseV { id: self.id@, nodes: self.nodes@ }
    }
}

impl View for GetPeersResponse {
    type V = GetPeersResponseV;

    open spec fn view(&self) -> GetPeersResponseV {
        GetPeersResponseV {
            id: self.id@,
            token: self.token@,
            values: match self.values {
                Some(ref v) => Some(v@.map_values(|a: NodeAddr| a@)),
                None => None,
            },
            nodes: match self.nodes {
                Some(ref n) => Some(n@),
                None => None,
            },
        }
    }
}

/// The concatenated encodings of a `values` list's items.
pub open spec fn spec_enc_values(vals: Seq<Seq<u8>>) -> Seq<u8>
    decreases vals.len(),
{
    if vals.len() == 0 {
        Seq::<u8>::empty()
    } else {
        spec_enc_bstr(vals[0]) + spec_enc_values(vals.drop_first())
    }
}

/// A response dictionary holding only an `id` entry.
pub open spec fn spec_enc_sole_id(id: Seq<u8>) -> Seq<u8> {
    seq![100u8] + spec_enc_bstr(key_id()) + spec_enc_bstr(id) + seq![101u8]
}

/// Parses a response dictionary of which only the `id` entry is
/// read.
pub open spec fn spec_dec_sole_id(v: Seq<u8>) -> Result<Seq<u8>, CodecError> {
    if !(v.len() > 0 && v[0] == 100) {
        Err(CodecError::Malformed)
    } else {
        spec_dec_id_field(v.skip(1), key_id())
    }
}

/// Appends a response dictionary holding only an `id` entry.
fn enc_sole_id(id: &DhtId, out: &mut Vec<u8>)
    ensures
        final(out)@ == old(out)@ + spec_enc_sole_id(id.0@),
{
    out.push(100);
    let kid = [105u8, 100];
    proof {
        assert(kid@ =~= key_id());
    }
    push_bstr(out, kid.as_slice());
    push_bstr(out, id.0.as_slice());
    out.push(101);
    proof {
        assert(final(out)@ =~= old(out)@ + spec_enc_sole_id(id.0@));
    }
}

/// Appends the encodings of the `values` items from index `i` on.
fn enc_values_from(out: &mut Vec<u8>, vals: &Vec<NodeAddr>, i: usize)
    requires
        i <= vals@.len(),
    ensures
        final(out)@ == old(out)@ + spec_enc_values(
            vals@.map_values(|a: NodeAddr| a@).skip(i as int),
        ),
    decreases vals@.len() - i,
{
    let ghost m = vals@.map_values(|a: NodeAddr| a@);
    if i < vals.len() {
        push_bstr(out, vals[i].0.as_slice());
        enc_values_from(out, vals, i + 1);
        proof {
            assert(m.skip(i as int).drop_first() =~= m.skip(i as int + 1));
            assert(m.skip(i as int)[0] == m[i as int]);
            assert(final(out)@ =~= old(out)@ + spec_enc_values(m.skip(i as int)));
        }
    } else {
        proof {
            assert(m.skip(i as int) =~= Seq::<Seq<u8>>::empty());
            assert(final(out)@ =~= old(out)@ + spec_enc_values(m.skip(i as int)));
        }
    }
}

/// Reads a response dictionary of which only the `id` entry is kept.
fn dec_sole_id(buf: &[u8], pos: usize) -> (r: Result<DhtId, CodecError>)
    requires
        pos <= buf@.len(),
    ensures
        match r {
            Ok(id) => spec_dec_sole_id(buf@.skip(pos as int)) == Ok::<Seq<u8>, CodecError>(id.0@),
            Err(e) => spec_dec_sole_id(buf@.skip(pos as int)) == Err::<Seq<u8>, CodecError>(e),
        },
{
    if pos >= buf.len() || buf[pos] != 100 {
        return Err(CodecError::Malformed);
    }
    proof {
        assert(buf@.skip(pos as int).skip(1) =~= buf@.skip(pos as int + 1));
    }
    let kid = [105u8, 100];
    proof {
        assert(kid@ =~= key_id());
    }
    dec_id_field(buf, pos + 1, kid.as_slice())
}

/// A response payload: its well-formed values, its canonical
/// encoding, and the exact result of parsing one.  The four response
/// types and `()` implement it; the codec's entry points are generic
/// over it.
pub trait Payload: View + Sized {
    /// Well-formedness of the abstract value.
    spec fn wf_v(v: Self::V) -> bool;

    /// The canonical encoding, one bencode value.
    spec fn spec_enc(v: Self::V) -> Seq<u8>;

    /// The exact result of reading this payload at the head of `s`.
    spec fn spec_dec(s: Seq<u8>) -> Result<Self::V, CodecError>;

    /// Appends the canonical encoding of this payload.
    fn enc_into(&self, out: &mut Vec<u8>)
        ensures
            final(out)@ == old(out)@ + Self::spec_enc(self@),
    ;

    /// Parses this payload at `pos`, exactly as `spec_dec` reads the
    /// suffix there.
    fn dec(buf: &[u8], pos: usize) -> (r: Result<Self, CodecError>)
        requires
            pos <= buf@.len(),
        ensures
            match r {
                Ok(v) => Self::spec_dec(buf@.skip(pos as int)) == Ok::<Self::V, CodecError>(v@),
                Err(e) => Self::spec_dec(buf@.skip(pos as int)) == Err::<Self::V, CodecError>(e),
            },
    ;

    /// Round trip: parsing the canonical encoding of a well-formed
    /// value, whatever follows it, yields the value back; and the
    /// encoding is one whole bencode value, so a reader can step
    /// over it.
    proof fn lemma_round_trip(v: Self::V, rest: Seq<u8>)
        requires
            Self::wf_v(v),
        ensures
            Self::spec_dec(Self::spec_enc(v) + rest) == Ok::<Self::V, CodecError>(v),
            spec_skip_value(Self::spec_enc(v) + rest) == Some(rest),
    ;
}

/// Reads the `nodes` entry: a byte string of whole 26-byte blobs.
fn dec_nodes_field(buf: &[u8], items_pos: usize) -> (r: Result<CompactNodesList, CodecError>)
    requires
        items_pos <= buf@.len(),
    ensures
        match r {
            Ok(l) => spec_dec_nodes_field(buf@.skip(items_pos as int)) == Ok::<
                Seq<u8>,
                CodecError,
            >(l@) && l.wf(),
            Err(e) => spec_dec_nodes_field(buf@.skip(items_pos as int)) == Err::<
                Seq<u8>,
                CodecError,
            >(e),
        },
{
    let kn = [110u8, 111, 100, 101, 115];
    proof {
        assert(kn@ =~= key_nodes());
    }
    match find_key(buf, items_pos, kn.as_slice()) {
        None => Err(CodecError::Malformed),
        Some(p) => match parse_bstr(buf, p) {
            None => Err(CodecError::Malformed),
            Some((cs, ce)) => {
                if (ce - cs) % 26 == 0 {
                    Ok(CompactNodesList(slice_range(buf, cs, ce)))
                } else {
                    Err(CodecError::BadLength)
                }
            },
        },
    }
}

impl Payload for PingResponse {
    open spec fn wf_v(v: PingResponseV) -> bool {
        v.id.len() == 20
    }

    open spec fn spec_enc(v: PingResponseV) -> Seq<u8> {
        spec_enc_sole_id(v.id)
    }

    open spec fn spec_dec(s: Seq<u8>) -> Result<PingResponseV, CodecError> {
        match spec_dec_sole_id(s) {
            Ok(id) => Ok(PingResponseV { id }),
            Err(e) => Err(e),
        }
    }

    fn enc_into(&self, out: &mut Vec<u8>) {
        enc_sole_id(&self.id, out);
    }

    fn dec(buf: &[u8], pos: usize) -> (r: Result<PingResponse, CodecError>) {
        match dec_sole_id(buf, pos) {
            Ok(id) => Ok(PingResponse { id }),
            Err(e) => Err(e),
        }
    }

    proof fn lemma_round_trip(v: PingResponseV, rest: Seq<u8>) {
        lemma_sole_id_facts(v.id, rest);
    }
}

impl Payload for AnnouncePeerResponse {
    open spec fn wf_v(v: AnnouncePeerResponseV) -> bool {
        v.id.len() == 20
    }

    open spec fn spec_enc(v: AnnouncePeerResponseV) -> Seq<u8> {
        spec_enc_sole_id(v.id)
    }

    open spec fn spec_dec(s: Seq<u8>) -> Result<AnnouncePeerResponseV, CodecError> {
        match spec_dec_sole_id(s) {
            Ok(id) => Ok(AnnouncePeerResponseV { id }),
            Err(e) => Err(e),
        }
    }

    fn enc_into(&self, out: &mut Vec<u8>) {
        enc_sole_id(&self.id, out);
    }

    fn dec(buf: &[u8], pos: usize) -> (r: Result<AnnouncePeerResponse, CodecError>) {
        match dec_sole_id(buf, pos) {
            Ok(id) => Ok(AnnouncePeerResponse { id }),
            Err(e) => Err(e),
        }
    }

    proof fn lemma_round_trip(v: AnnouncePeerResponseV, rest: Seq<u8>) {
        lemma_sole_id_facts(v.id, rest);
    }
}

impl Payload for FindNodeResponse {
    open spec fn wf_v(v: FindNodeResponseV) -> bool {
        v.id.len() == 20 && v.nodes.len() % 26 == 0 && v.nodes.len() < len_cap()
    }

    open spec fn spec_enc(v: FindNodeResponseV) -> Seq<u8> {
        seq![100u8] + spec_enc_bstr(key_id()) + spec_enc_bstr(v.id) + spec_enc_bstr(key_nodes())
            + spec_enc_bstr(v.nodes) + seq![101u8]
    }

    open spec fn spec_dec(s: Seq<u8>) -> Result<FindNodeResponseV, CodecError> {
        if !(s.len() > 0 && s[0] == 100) {
            Err(CodecError::Malformed)
        } else {
            match spec_dec_id_field(s.skip(1), key_id()) {
                Err(e) => Err(e),
                Ok(id) => match spec_dec_nodes_field(s.skip(1)) {
                    Err(e) => Err(e),
                    Ok(nodes) => Ok(FindNodeResponseV { id, nodes }),
                },
            }
        }
    }

    fn enc_into(&self, out: &mut Vec<u8>) {
        out.push(100);
        let kid = [105u8, 100];
        proof {
            assert(kid@ =~= key_id());
        }
        push_bstr(out, kid.as_slice());
        push_bstr(out, self.id.0.as_slice());
        let kn = [110u8, 111, 100, 101, 115];
        proof {
            assert(kn@ =~= key_nodes());
        }
        push_bstr(out, kn.as_slice());
        push_bstr(out, self.nodes.0.as_slice());
        out.push(101);
        proof {
            assert(final(out)@ =~= old(out)@ + Self::spec_enc(self@));
        }
    }

    fn dec(buf: &[u8], pos: usize) -> (r: Result<FindNodeResponse, CodecError>) {
        if pos >= buf.len() || buf[pos] != 100 {
            return Err(CodecError::Malformed);
        }
        proof {
            assert(buf@.skip(pos as int).skip(1) =~= buf@.skip(pos as int + 1));
        }
        let kid = [105u8, 100];
        proof {
            assert(kid@ =~= key_id());
        }
        let id = match dec_id_field(buf, pos + 1, kid.as_slice()) {
            Ok(id) => id,
            Err(e) => {
                return Err(e);
            },
        };
        match dec_nodes_field(buf, pos + 1) {
            Ok(nodes) => Ok(FindNodeResponse { id, nodes }),
            Err(e) => Err(e),
        }
    }

    proof fn lemma_round_trip(v: FindNodeResponseV, rest: Seq<u8>) {
        lemma_find_node_resp_facts(v, rest);
    }
}

impl Payload for GetPeersResponse {
    open spec fn wf_v(v: GetPeersResponseV) -> bool {
        &&& v.id.len() == 20
        &&& v.token.len() < len_cap()
        &&& match v.values {
            Some(vals) => forall|i: int| 0 <= i < vals.len() ==> (#[trigger] vals[i]).len() == 6,
            None => true,
        }
        &&& match v.nodes {
            Some(n) => n.len() % 26 == 0 && n.len() < len_cap(),
            None => true,
        }
    }

    open spec fn spec_enc(v: GetPeersResponseV) -> Seq<u8> {
        seq![100u8] + spec_enc_bstr(key_id()) + spec_enc_bstr(v.id) + (match v.nodes {
            Some(n) => spec_enc_bstr(key_nodes()) + spec_enc_bstr(n),
            None => Seq::<u8>::empty(),
        }) + spec_enc_bstr(key_token()) + spec_enc_bstr(v.token) + (match v.values {
            Some(vals) => spec_enc_bstr(key_values()) + (seq![108u8] + spec_enc_values(vals)
                + seq![101u8]),
            None => Seq::<u8>::empty(),
        }) + seq![101u8]
    }

    open spec fn spec_dec(s: Seq<u8>) -> Result<GetPeersResponseV, CodecError> {
        if !(s.len() > 0 && s[0] == 100) {
            Err(CodecError::Malformed)
        } else {
            let items = s.skip(1);
            match spec_dec_id_field(items, key_id()) {
                Err(e) => Err(e),
                Ok(id) => match spec_dec_bstr_field(items, key_token()) {
                    Err(e) => Err(e),
                    Ok(token) => {
                        let values = match spec_find_key(items, key_values()) {
                            None => Ok(None),
                            Some(vv) => match spec_dec_values(vv) {
                                Ok(list) => Ok(Some(list)),
                                Err(e) => Err(e),
                            },
                        };
                        match values {
                            Err(e) => Err(e),
                            Ok(values) => {
                                let nodes = match spec_find_key(items, key_nodes()) {
                                    None => Ok(None),
                                    Some(nv) => match spec_parse_bstr(nv) {
                                        Some((b, rest)) => if b.len() % 26 == 0 {
                                            Ok(Some(b))
                                        } else {
                                            Err(CodecError::BadLength)
                                        },
                                        None => Err(CodecError::Malformed),
                                    },
                                };
                                match nodes {
                                    Err(e) => Err(e),
                                    Ok(nodes) => Ok(
                                        GetPeersResponseV { id, token, values, nodes },
                                    ),
                                }
                            },
                        }
                    },
                },
            }
        }
    }

    #[verifier::rlimit(80)]
    fn enc_into(&self, out: &mut Vec<u8>) {
        out.push(100);
        let kid = [105u8, 100];
        proof {
            assert(kid@ =~= key_id());
        }
        push_bstr(out, kid.as_slice());
        push_bstr(out, self.id.0.as_slice());
        match &self.nodes {
            Some(n) => {
                let kn = [110u8, 111, 100, 101, 115];
                proof {
                    assert(kn@ =~= key_nodes());
                }
                push_bstr(out, kn.as_slice());
                push_bstr(out, n.0.as_slice());
            },
            None => {},
        }
        let ktok = [116u8, 111, 107, 101, 110];
        proof {
            assert(ktok@ =~= key_token());
        }
        push_bstr(out, ktok.as_slice());
        push_bstr(out, self.token.as_slice());
        match &self.values {
            Some(vals) => {
                let kv = [118u8, 97, 108, 117, 101, 115];
                proof {
                    assert(kv@ =~= key_values());
                }
                push_bstr(out, kv.as_slice());
                out.push(108);
                enc_values_from(out, vals, 0);
                out.push(101);
                proof {
                    assert(vals@.map_values(|a: NodeAddr| a@).skip(0) =~= vals@.map_values(
                        |a: NodeAddr| a@,
                    ));
                }
            },
            None => {},
        }
        out.push(101);
        proof {
            assert(final(out)@ =~= old(out)@ + Self::spec_enc(self@));
        }
    }

    fn dec(buf: &[u8], pos: usize) -> (r: Result<GetPeersResponse, CodecError>) {
        if pos >= buf.len() || buf[pos] != 100 {
            return Err(CodecError::Malformed);
        }
        proof {
            assert(buf@.skip(pos as int).skip(1) =~= buf@.skip(pos as int + 1));
        }
        let kid = [105u8, 100];
        proof {
            assert(kid@ =~= key_id());
        }
        let id = match dec_id_field(buf, pos + 1, kid.as_slice()) {
            Ok(id) => id,
            Err(e) => {
                return Err(e);
            },
        };
        let ktok = [116u8, 111, 107, 101, 110];
        proof {
            assert(ktok@ =~= key_token());
        }
        let token = match dec_bstr_field(buf, pos + 1, ktok.as_slice()) {
            Ok(v) => v,
            Err(e) => {
                return Err(e);
            },
        };
        let kv = [118u8, 97, 108, 117, 101, 115];
        proof {
            assert(kv@ =~= key_values());
        }
        let values: Option<Vec<NodeAddr>> = match find_key(buf, pos + 1, kv.as_slice()) {
            None => None,
            Some(vp) => {
                if vp >= buf.len() || buf[vp] != 108 {
                    return Err(CodecError::Malformed);
                }
                proof {
                    assert(buf@.skip(vp as int).skip(1) =~= buf@.skip(vp as int + 1));
                }
                match dec_addr_items(buf, vp + 1) {
                    Ok(list) => Some(list),
                    Err(e) => {
                        return Err(e);
                    },
                }
            },
        };
        let kn = [110u8, 111, 100, 101, 115];
        proof {
            assert(kn@ =~= key_nodes());
        }
        let nodes: Option<CompactNodesList> = match find_key(buf, pos + 1, kn.as_slice()) {
            None => None,
            Some(np) => match parse_bstr(buf, np) {
                None => {
                    return Err(CodecError::Malformed);
                },
                Some((cs, ce)) => {
                    if (ce - cs) % 26 == 0 {
                        Some(CompactNodesList(slice_range(buf, cs, ce)))
                    } else {
                        return Err(CodecError::BadLength);
                    }
                },
            },
        };
        Ok(GetPeersResponse { id, token, values, nodes })
    }

    proof fn lemma_round_trip(v: GetPeersResponseV, rest: Seq<u8>) {
        lemma_get_peers_resp_facts(v, rest);
    }
}

impl Payload for () {
    open spec fn wf_v(v: ()) -> bool {
        true
    }

    open spec fn spec_enc(v: ()) -> Seq<u8> {
        seq![100u8, 101u8]
    }

    open spec fn spec_dec(s: Seq<u8>) -> Result<(), CodecError> {
        if s.len() > 0 && s[0] == 100 && spec_skip_dict_items(s.skip(1)) is Some {
            Ok(())
        } else {
            Err(CodecError::Malformed)
        }
    }

    fn enc_into(&self, out: &mut Vec<u8>) {
        out.push(100);
        out.push(101);
        proof {
            assert(final(out)@ =~= old(out)@ + Self::spec_enc(self@));
        }
    }

    fn dec(buf: &[u8], pos: usize) -> (r: Result<(), CodecError>) {
        if pos >= buf.len() || buf[pos] != 100 {
            return Err(CodecError::Malformed);
        }
        proof {
            assert(buf@.skip(pos as int).skip(1) =~= buf@.skip(pos as int + 1));
        }
        match skip_dict_items(buf, pos + 1) {
            Some(_) => Ok(()),
            None => Err(CodecError::Malformed),
        }
    }

    proof fn lemma_round_trip(v: (), rest: Seq<u8>) {
        assert(<() as Payload>::spec_enc(v) =~= seq![100u8, 101u8]);
        lemma_unit_facts(rest);
    }
}

/// Canonical encoding of a whole message with its transaction token.
pub open spec fn spec_enc_message<R: Payload>(m: MessageV<R::V>, t: Seq<u8>) -> Seq<u8> {
    match m {
        MessageV::Q(q) => spec_enc_query(q, t),
        MessageV::R(rv) => spec_enc_response_message(R::spec_enc(rv), t),
        MessageV::E(code, msg) => spec_enc_error_message(code, msg, t),
    }
}

/// A message value the codec can write and read back unchanged.
pub open spec fn wf_message_v<R: Payload>(m: MessageV<R::V>) -> bool {
    match m {
        MessageV::Q(q) => match q {
            QueryV::Ping(p) => p.id.len() == 20,
            QueryV::FindNode(f) => f.id.len() == 20 && f.target.len() == 20,
            QueryV::GetPeers(g) => g.id.len() == 20 && g.info_hash.len() == 20,
            QueryV::AnnouncePeer(a) => a.id.len() == 20 && a.info_hash.len() == 20
                && a.token.len() < len_cap(),
        },
        MessageV::R(rv) => R::wf_v(rv),
        MessageV::E(code, msg) => valid_utf8(msg) && msg.len() < len_cap(),
    }
}

/// The exact result of a full decode: the typed message and the
/// sender's transaction token.
pub open spec fn spec_dec_message<R: Payload>(s: Seq<u8>) -> Result<
    (MessageV<R::V>, Seq<u8>),
    CodecError,
> {
    match spec_dec_envelope(s) {
        Err(e) => Err(e),
        Ok((t, y)) => {
            let items = s.skip(1);
            if y == 113 {
                match spec_find_key(items, key_q()) {
                    None => Err(CodecError::Malformed),
                    Some(qv) => match spec_parse_bstr(qv) {
                        None => Err(CodecError::Malformed),
                        Some((qn, qrest)) => match spec_find_key(items, key_a()) {
                            None => if qn == qname_ping() || qn == qname_find_node() || qn
                                == qname_get_peers() || qn == qname_announce_peer() {
                                Err(CodecError::Malformed)
                            } else {
                                Err(CodecError::UnknownQuery)
                            },
                            Some(av) => if qn == qname_ping() {
                                match spec_dec_ping_args(av) {
                                    Ok(p) => Ok((MessageV::Q(QueryV::Ping(p)), t)),
                                    Err(e) => Err(e),
                                }
                            } else if qn == qname_find_node() {
                                match spec_dec_find_node_args(av) {
                                    Ok(p) => Ok((MessageV::Q(QueryV::FindNode(p)), t)),
                                    Err(e) => Err(e),
                                }
                            } else if qn == qname_get_peers() {
                                match spec_dec_get_peers_args(av) {
                                    Ok(p) => Ok((MessageV::Q(QueryV::GetPeers(p)), t)),
                                    Err(e) => Err(e),
                                }
                            } else if qn == qname_announce_peer() {
                                match spec_dec_announce_args(av) {
                                    Ok(p) => Ok((MessageV::Q(QueryV::AnnouncePeer(p)), t)),
                                    Err(e) => Err(e),
                                }
                            } else {
                                Err(CodecError::UnknownQuery)
                            },
                        },
                    },
                }
            } else if y == 114 {
                match spec_find_key(items, key_r()) {
                    None => Err(CodecError::Malformed),
                    Some(rv) => match R::spec_dec(rv) {
                        Ok(p) => Ok((MessageV::R(p), t)),
                        Err(e) => Err(e),
                    },
                }
            } else {
                match spec_find_key(items, key_e()) {
                    None => Err(CodecError::Malformed),
                    Some(ev) => match spec_dec_error(ev) {
                        Ok((c, m)) => Ok((MessageV::E(c, m), t)),
                        Err(e) => Err(e),
                    },
                }
            }
        },
    }
}

// ---------------------------------------------------------------------------
// Decoding (executable)
// ---------------------------------------------------------------------------

/// Copies the 20 identifier bytes starting at `cs`.
fn id_from_range(buf: &[u8], cs: usize) -> (r: DhtId)
    requires
        cs + 20 <= buf@.len(),
    ensures
        r.0@ == buf@.subrange(cs as int, cs as int + 20),
{
    let n = buf.len();
    let mut id: [u8; 20] = [0u8; 20];
    let mut i: usize = 0;
    while i < 20
        invariant
            0 <= i <= 20,
            n == buf@.len(),
            cs + 20 <= buf@.len(),
            forall|j: int| 0 <= j < i ==> id@[j] == buf@[cs + j],
        decreases 20 - i,
    {
        id[i] = buf[cs + i];
        i = i + 1;
    }
    proof {
        assert(id@ =~= buf@.subrange(cs as int, cs as int + 20));
    }
    DhtId(id)
}

/// Reads the required identifier entry under `key`.
fn dec_id_field(buf: &[u8], items_pos: usize, key: &[u8]) -> (r: Result<DhtId, CodecError>)
    requires
        items_pos <= buf@.len(),
    ensures
        match r {
            Ok(id) => spec_dec_id_field(buf@.skip(items_pos as int), key@) == Ok::<
                Seq<u8>,
                CodecError,
            >(id.0@),
            Err(e) => spec_dec_id_field(buf@.skip(items_pos as int), key@) == Err::<
                Seq<u8>,
                CodecError,
            >(e),
        },
{
    match find_key(buf, items_pos, key) {
        None => Err(CodecError::Malformed),
        Some(p) => match parse_bstr(buf, p) {
            None => Err(CodecError::Malformed),
            Some((cs, ce)) => {
                if ce - cs == 20 {
                    Ok(id_from_range(buf, cs))
                } else {
                    Err(CodecError::BadLength)
                }
            },
        },
    }
}

/// Reads the required byte-string entry under `key`.
fn dec_bstr_field(buf: &[u8], items_pos: usize, key: &[u8]) -> (r: Result<Vec<u8>, CodecError>)
    requires
        items_pos <= buf@.len(),
    ensures
        match r {
            Ok(v) => spec_dec_bstr_field(buf@.skip(items_pos as int), key@) == Ok::<
                Seq<u8>,
                CodecError,
            >(v@),
            Err(e) => spec_dec_bstr_field(buf@.skip(items_pos as int), key@) == Err::<
                Seq<u8>,
                CodecError,
            >(e),
        },
{
    match find_key(buf, items_pos, key) {
        None => Err(CodecError::Malformed),
        Some(p) => match parse_bstr(buf, p) {
            None => Err(CodecError::Malformed),
            Some((cs, ce)) => Ok(slice_range(buf, cs, ce)),
        },
    }
}

/// Reads the required unsigned-integer entry under `key`.
fn dec_uint_field(buf: &[u8], items_pos: usize, key: &[u8]) -> (r: Result<u128, CodecError>)
    requires
        items_pos <= buf@.len(),
    ensures
        match r {
            Ok(n) => spec_dec_uint_field(buf@.skip(items_pos as int), key@) == Ok::<
                nat,
                CodecError,
            >(n as nat),
            Err(e) => spec_dec_uint_field(buf@.skip(items_pos as int), key@) == Err::<
                nat,
                CodecError,
            >(e),
        },
{
    match find_key(buf, items_pos, key) {
        None => Err(CodecError::Malformed),
        Some(p) => match parse_uint(buf, p) {
            None => Err(CodecError::Malformed),
            Some((n, _)) => Ok(n),
        },
    }
}

/// Shallow decode of an inbound datagram: the whole buffer must be
/// one dictionary; yields its transaction token and the
/// discriminator byte `y`, which must name a query, a response or an
/// error.
pub fn decode_envelope(buf: &[u8]) -> (r: Result<IncomingMessage, CodecError>)
    ensures
        match r {
            Ok(m) => spec_dec_envelope(buf@) == Ok::<(Seq<u8>, u8), CodecError>((m.t@, m.y)) && (
            m.y == 113 || m.y == 114 || m.y == 101),
            Err(e) => spec_dec_envelope(buf@) == Err::<(Seq<u8>, u8), CodecError>(e),
        },
{
    if buf.len() == 0 || buf[0] != 100 {
        return Err(CodecError::Malformed);
    }
    match skip_dict_items(buf, 1) {
        None => {
            return Err(CodecError::Malformed);
        },
        Some(p) => {
            if p != buf.len() {
                proof {
                    assert(buf@.skip(p as int).len() > 0);
                    assert(!spec_envelope_frame_ok(buf@));
                }
                return Err(CodecError::Malformed);
            }
            proof {
                assert(buf@.skip(p as int) =~= Seq::<u8>::empty());
            }
        },
    }
    let kt = [116u8];
    proof {
        assert(kt@ =~= key_t());
    }
    let tv = match find_key(buf, 1, kt.as_slice()) {
        None => {
            return Err(CodecError::Malformed);
        },
        Some(p) => p,
    };
    let (tcs, tce) = match parse_bstr(buf, tv) {
        None => {
            return Err(CodecError::Malformed);
        },
        Some(c) => c,
    };
    let ky = [121u8];
    proof {
        assert(ky@ =~= key_y());
    }
    let yv = match find_key(buf, 1, ky.as_slice()) {
        None => {
            return Err(CodecError::Malformed);
        },
        Some(p) => p,
    };
    let (ycs, yce) = match parse_bstr(buf, yv) {
        None => {
            return Err(CodecError::Malformed);
        },
        Some(c) => c,
    };
    if yce - ycs == 1 {
        let y = buf[ycs];
        proof {
            assert(buf@.subrange(ycs as int, yce as int)[0] == buf@[ycs as int]);
        }
        if y == 113 || y == 114 || y == 101 {
            let t = slice_range(buf, tcs, tce);
            Ok(IncomingMessage { y, t })
        } else {
            Err(CodecError::UnknownKind)
        }
    } else {
        Err(CodecError::UnknownKind)
    }
}

fn dec_ping_args(buf: &[u8], pos: usize) -> (r: Result<PingQuery, CodecError>)
    requires
        pos <= buf@.len(),
    ensures
        match r {
            Ok(q) => spec_dec_ping_args(buf@.skip(pos as int)) == Ok::<PingQueryV, CodecError>(q@),
            Err(e) => spec_dec_ping_args(buf@.skip(pos as int)) == Err::<PingQueryV, CodecError>(e),
        },
{
    if pos >= buf.len() || buf[pos] != 100 {
        return Err(CodecError::Malformed);
    }
    proof {
        assert(buf@.skip(pos as int).skip(1) =~= buf@.skip(pos as int + 1));
    }
    let kid = [105u8, 100];
    proof {
        assert(kid@ =~= key_id());
    }
    match dec_id_field(buf, pos + 1, kid.as_slice()) {
        Ok(id) => Ok(PingQuery { id }),
        Err(e) => Err(e),
    }
}

fn dec_find_node_args(buf: &[u8], pos: usize) -> (r: Result<FindNodeQuery, CodecError>)
    requires
        pos <= buf@.len(),
    ensures
        match r {
            Ok(q) => spec_dec_find_node_args(buf@.skip(pos as int)) == Ok::<
                FindNodeQueryV,
                CodecError,
            >(q@),
            Err(e) => spec_dec_find_node_args(buf@.skip(pos as int)) == Err::<
                FindNodeQueryV,
                CodecError,
            >(e),
        },
{
    if pos >= buf.len() || buf[pos] != 100 {
        return Err(CodecError::Malformed);
    }
    proof {
        assert(buf@.skip(pos as int).skip(1) =~= buf@.skip(pos as int + 1));
    }
    let kid = [105u8, 100];
    proof {
        assert(kid@ =~= key_id());
    }
    let id = match dec_id_field(buf, pos + 1, kid.as_slice()) {
        Ok(id) => id,
        Err(e) => {
            return Err(e);
        },
    };
    let ktarget = [116u8, 97, 114, 103, 101, 116];
    proof {
        assert(ktarget@ =~= key_target());
    }
    match dec_id_field(buf, pos + 1, ktarget.as_slice()) {
        Ok(target) => Ok(FindNodeQuery { id, target }),
        Err(e) => Err(e),
    }
}

fn dec_get_peers_args(buf: &[u8], pos: usize) -> (r: Result<GetPeersQuery, CodecError>)
    requires
        pos <= buf@.len(),
    ensures
        match r {
            Ok(q) => spec_dec_get_peers_args(buf@.skip(pos as int)) == Ok::<
                GetPeersQueryV,
                CodecError,
            >(q@),
            Err(e) => spec_dec_get_peers_args(buf@.skip(pos as int)) == Err::<
                GetPeersQueryV,
                CodecError,
            >(e),
        },
{
    if pos >= buf.len() || buf[pos] != 100 {
        return Err(CodecError::Malformed);
    }
    proof {
        assert(buf@.skip(pos as int).skip(1) =~= buf@.skip(pos as int + 1));
    }
    let kid = [105u8, 100];
    proof {
        assert(kid@ =~= key_id());
    }
    let id = match dec_id_field(buf, pos + 1, kid.as_slice()) {
        Ok(id) => id,
        Err(e) => {
            return Err(e);
        },
    };
    let kih = [105u8, 110, 102, 111, 95, 104, 97, 115, 104];
    proof {
        assert(kih@ =~= key_info_hash());
    }
    match dec_id_field(buf, pos + 1, kih.as_slice()) {
        Ok(info_hash) => Ok(GetPeersQuery { id, info_hash }),
        Err(e) => Err(e),
    }
}

fn dec_announce_args(buf: &[u8], pos: usize) -> (r: Result<AnnouncePeerQuery, CodecError>)
    requires
        pos <= buf@.len(),
    ensures
        match r {
            Ok(q) => spec_dec_announce_args(buf@.skip(pos as int)) == Ok::<
                AnnouncePeerQueryV,
                CodecError,
            >(q@),
            Err(e) => spec_dec_announce_args(buf@.skip(pos as int)) == Err::<
                AnnouncePeerQueryV,
                CodecError,
            >(e),
        },
{
    if pos >= buf.len() || buf[pos] != 100 {
        return Err(CodecError::Malformed);
    }
    proof {
        assert(buf@.skip(pos as int).skip(1) =~= buf@.skip(pos as int + 1));
    }
    let kid = [105u8, 100];
    proof {
        assert(kid@ =~= key_id());
    }
    let id = match dec_id_field(buf, pos + 1, kid.as_slice()) {
        Ok(id) => id,
        Err(e) => {
            return Err(e);
        },
    };
    let kih = [105u8, 110, 102, 111, 95, 104, 97, 115, 104];
    proof {
        assert(kih@ =~= key_info_hash());
    }
    let info_hash = match dec_id_field(buf, pos + 1, kih.as_slice()) {
        Ok(v) => v,
        Err(e) => {
            return Err(e);
        },
    };
    let ktok = [116u8, 111, 107, 101, 110];
    proof {
        assert(ktok@ =~= key_token());
    }
    let token = match dec_bstr_field(buf, pos + 1, ktok.as_slice()) {
        Ok(v) => v,
        Err(e) => {
            return Err(e);
        },
    };
    let kport = [112u8, 111, 114, 116];
    proof {
        assert(kport@ =~= key_port());
    }
    let port_n = match dec_uint_field(buf, pos + 1, kport.as_slice()) {
        Ok(v) => v,
        Err(e) => {
            return Err(e);
        },
    };
    if port_n >= 0x10000 {
        return Err(CodecError::Malformed);
    }
    let kip = [105u8, 109, 112, 108, 105, 101, 100, 95, 112, 111, 114, 116];
    proof {
        assert(kip@ =~= key_implied_port());
    }
    let ip_n = match dec_uint_field(buf, pos + 1, kip.as_slice()) {
        Ok(v) => v,
        Err(e) => {
            return Err(e);
        },
    };
    if ip_n >= 0x100 {
        return Err(CodecError::Malformed);
    }
    Ok(
        AnnouncePeerQuery {
            id,
            info_hash,
            token,
            port: port_n as u16,
            implied_port: ip_n as u8,
        },
    )
}

/// Reads the items of a `values` list: 6-byte address strings up to
/// the closing `e`.
fn dec_addr_items(buf: &[u8], pos: usize) -> (r: Result<Vec<NodeAddr>, CodecError>)
    requires
        pos <= buf@.len(),
    ensures
        match r {
            Ok(v) => spec_dec_addr_items(buf@.skip(pos as int)) == Ok::<
                Seq<Seq<u8>>,
                CodecError,
            >(v@.map_values(|a: NodeAddr| a@)),
            Err(e) => spec_dec_addr_items(buf@.skip(pos as int)) == Err::<
                Seq<Seq<u8>>,
                CodecError,
            >(e),
        },
    decreases buf@.len() - pos,
{
    if pos >= buf.len() {
        return Err(CodecError::Malformed);
    }
    let b = buf[pos];
    if b == 101 {
        let v: Vec<NodeAddr> = Vec::new();
        proof {
            assert(v@.map_values(|a: NodeAddr| a@) =~= Seq::<Seq<u8>>::empty());
        }
        return Ok(v);
    }
    if !(48 <= b && b <= 57) {
        return Err(CodecError::Malformed);
    }
    match parse_bstr(buf, pos) {
        None => Err(CodecError::Malformed),
        Some((cs, ce)) => {
            if ce - cs != 6 {
                return Err(CodecError::BadLength);
            }
            let addr = NodeAddr(
                [buf[cs], buf[cs + 1], buf[cs + 2], buf[cs + 3], buf[cs + 4], buf[cs + 5]],
            );
            proof {
                assert(addr.0@ =~= buf@.subrange(cs as int, ce as int));
            }
            match dec_addr_items(buf, ce) {
                Err(e) => Err(e),
                Ok(mut rest) => {
                    let ghost tailv = rest@;
                    rest.insert(0, addr);
                    proof {
                        assert(rest@.map_values(|a: NodeAddr| a@) =~= seq![
                            buf@.subrange(cs as int, ce as int),
                        ] + tailv.map_values(|a: NodeAddr| a@));
                    }
                    Ok(rest)
                },
            }
        },
    }
}

/// Reads one error value `l<code><text>e` with its UTF-8 text.
fn dec_error(buf: &[u8], pos: usize) -> (r: Result<(u32, String), CodecError>)
    requires
        pos <= buf@.len(),
    ensures
        match r {
            Ok(cm) => spec_dec_error(buf@.skip(pos as int)) == Ok::<(u32, Seq<u8>), CodecError>(
                (cm.0, encode_utf8(cm.1@)),
            ),
            Err(e) => spec_dec_error(buf@.skip(pos as int)) == Err::<(u32, Seq<u8>), CodecError>(e),
        },
{
    if pos >= buf.len() || buf[pos] != 108 {
        return Err(CodecError::Malformed);
    }
    proof {
        assert(buf@.skip(pos as int).skip(1) =~= buf@.skip(pos as int + 1));
    }
    let (code, p) = match parse_uint(buf, pos + 1) {
        None => {
            return Err(CodecError::Malformed);
        },
        Some(c) => c,
    };
    if code >= 0x100000000 {
        return Err(CodecError::Malformed);
    }
    let (cs, ce) = match parse_bstr(buf, p) {
        None => {
            return Err(CodecError::Malformed);
        },
        Some(c) => c,
    };
    if ce >= buf.len() || buf[ce] != 101 {
        return Err(CodecError::Malformed);
    }
    let bytes = slice_range(buf, cs, ce);
    match bytes_to_string(bytes) {
        None => Err(CodecError::Malformed),
        Some(s) => {
            proof {
                vstd::utf8::decode_utf8_encode_utf8(buf@.subrange(cs as int, ce as int));
            }
            Ok(((code as u32), s))
        },
    }
}

/// Full decode: the typed message (with `R` as the expected response
/// payload) and the sender's transaction token, exactly as
/// `spec_dec_message` reads them.
pub fn decode_message<R: Payload>(buf: &[u8]) -> (r: Result<(Message<R>, Vec<u8>), CodecError>)
    ensures
        match r {
            Ok(mt) => spec_dec_message::<R>(buf@) == Ok::<
                (MessageV<R::V>, Seq<u8>),
                CodecError,
            >((mt.0@, mt.1@)),
            Err(e) => spec_dec_message::<R>(buf@) == Err::<(MessageV<R::V>, Seq<u8>), CodecError>(
                e,
            ),
        },
{
    let env = match decode_envelope(buf) {
        Err(e) => {
            return Err(e);
        },
        Ok(env) => env,
    };
    let t = env.t;
    if env.y == 113 {
        let kq = [113u8];
        proof {
            assert(kq@ =~= key_q());
        }
        let qv = match find_key(buf, 1, kq.as_slice()) {
            None => {
                return Err(CodecError::Malformed);
            },
            Some(p) => p,
        };
        let (qcs, qce) = match parse_bstr(buf, qv) {
            None => {
                return Err(CodecError::Malformed);
            },
            Some(c) => c,
        };
        let nm_ping = [112u8, 105, 110, 103];
        let nm_find_node = [102u8, 105, 110, 100, 95, 110, 111, 100, 101];
        let nm_get_peers = [103u8, 101, 116, 95, 112, 101, 101, 114, 115];
        let nm_announce = [97u8, 110, 110, 111, 117, 110, 99, 101, 95, 112, 101, 101, 114];
        proof {
            assert(nm_ping@ =~= qname_ping());
            assert(nm_find_node@ =~= qname_find_node());
            assert(nm_get_peers@ =~= qname_get_peers());
            assert(nm_announce@ =~= qname_announce_peer());
        }
        let is_ping = range_eq(buf, qcs, qce, nm_ping.as_slice());
        let is_find_node = range_eq(buf, qcs, qce, nm_find_node.as_slice());
        let is_get_peers = range_eq(buf, qcs, qce, nm_get_peers.as_slice());
        let is_announce = range_eq(buf, qcs, qce, nm_announce.as_slice());
        let ka = [97u8];
        proof {
            assert(ka@ =~= key_a());
        }
        let av = match find_key(buf, 1, ka.as_slice()) {
            None => {
                if is_ping || is_find_node || is_get_peers || is_announce {
                    return Err(CodecError::Malformed);
                } else {
                    return Err(CodecError::UnknownQuery);
                }
            },
            Some(p) => p,
        };
        if is_ping {
            match dec_ping_args(buf, av) {
                Ok(q) => Ok((Message::Q(Query::Ping(q)), t)),
                Err(e) => Err(e),
            }
        } else if is_find_node {
            match dec_find_node_args(buf, av) {
                Ok(q) => Ok((Message::Q(Query::FindNode(q)), t)),
                Err(e) => Err(e),
            }
        } else if is_get_peers {
            match dec_get_peers_args(buf, av) {
                Ok(q) => Ok((Message::Q(Query::GetPeers(q)), t)),
                Err(e) => Err(e),
            }
        } else if is_announce {
            match dec_announce_args(buf, av) {
                Ok(q) => Ok((Message::Q(Query::AnnouncePeer(q)), t)),
                Err(e) => Err(e),
            }
        } else {
            Err(CodecError::UnknownQuery)
        }
    } else if env.y == 114 {
        let kr = [114u8];
        proof {
            assert(kr@ =~= key_r());
        }
        let rv = match find_key(buf, 1, kr.as_slice()) {
            None => {
                return Err(CodecError::Malformed);
            },
            Some(p) => p,
        };
        match R::dec(buf, rv) {
            Ok(p) => Ok((Message::R { r: p }, t)),
            Err(e) => Err(e),
        }
    } else {
        let ke = [101u8];
        proof {
            assert(ke@ =~= key_e());
        }
        let ev = match find_key(buf, 1, ke.as_slice()) {
            None => {
                return Err(CodecError::Malformed);
            },
            Some(p) => p,
        };
        match dec_error(buf, ev) {
            Ok(cm) => Ok((Message::E { e: cm }, t)),
            Err(e) => Err(e),
        }
    }
}

// ---------------------------------------------------------------------------
// Encoding (executable)
// ---------------------------------------------------------------------------

fn enc_ping_args(q: &PingQuery, out: &mut Vec<u8>)
    ensures
        final(out)@ == old(out)@ + spec_enc_ping_args(q@),
{
    out.push(100);
    let kid = [105u8, 100];
    proof {
        assert(kid@ =~= key_id());
    }
    push_bstr(out, kid.as_slice());
    push_bstr(out, q.id.0.as_slice());
    out.push(101);
    proof {
        assert(final(out)@ =~= old(out)@ + spec_enc_ping_args(q@));
    }
}

fn enc_find_node_args(q: &FindNodeQuery, out: &mut Vec<u8>)
    ensures
        final(out)@ == old(out)@ + spec_enc_find_node_args(q@),
{
    out.push(100);
    let kid = [105u8, 100];
    proof {
        assert(kid@ =~= key_id());
    }
    push_bstr(out, kid.as_slice());
    push_bstr(out, q.id.0.as_slice());
    let ktarget = [116u8, 97, 114, 103, 101, 116];
    proof {
        assert(ktarget@ =~= key_target());
    }
    push_bstr(out, ktarget.as_slice());
    push_bstr(out, q.target.0.as_slice());
    out.push(101);
    proof {
        assert(final(out)@ =~= old(out)@ + spec_enc_find_node_args(q@));
    }
}

fn enc_get_peers_args(q: &GetPeersQuery, out: &mut Vec<u8>)
    ensures
        final(out)@ == old(out)@ + spec_enc_get_peers_args(q@),
{
    out.push(100);
    let kid = [105u8, 100];
    proof {
        assert(kid@ =~= key_id());
    }
    push_bstr(out, kid.as_slice());
    push_bstr(out, q.id.0.as_slice());
    let kih = [105u8, 110, 102, 111, 95, 104, 97, 115, 104];
    proof {
        assert(kih@ =~= key_info_hash());
    }
    push_bstr(out, kih.as_slice());
    push_bstr(out, q.info_hash.0.as_slice());
    out.push(101);
    proof {
        assert(final(out)@ =~= old(out)@ + spec_enc_get_peers_args(q@));
    }
}

#[verifier::rlimit(80)]
fn enc_announce_args(q: &AnnouncePeerQuery, out: &mut Vec<u8>)
    ensures
        final(out)@ == old(out)@ + spec_enc_announce_args(q@),
{
    out.push(100);
    let kid = [105u8, 100];
    proof {
        assert(kid@ =~= key_id());
    }
    push_bstr(out, kid.as_slice());
    push_bstr(out, q.id.0.as_slice());
    let kip = [105u8, 109, 112, 108, 105, 101, 100, 95, 112, 111, 114, 116];
    proof {
        assert(kip@ =~= key_implied_port());
    }
    push_bstr(out, kip.as_slice());
    push_uint(out, q.implied_port as u64);
    let kih = [105u8, 110, 102, 111, 95, 104, 97, 115, 104];
    proof {
        assert(kih@ =~= key_info_hash());
    }
    push_bstr(out, kih.as_slice());
    push_bstr(out, q.info_hash.0.as_slice());
    let kport = [112u8, 111, 114, 116];
    proof {
        assert(kport@ =~= key_port());
    }
    push_bstr(out, kport.as_slice());
    push_uint(out, q.port as u64);
    let ktok = [116u8, 111, 107, 101, 110];
    proof {
        assert(ktok@ =~= key_token());
    }
    push_bstr(out, ktok.as_slice());
    push_bstr(out, q.token.as_slice());
    out.push(101);
    proof {
        assert(final(out)@ =~= old(out)@ + spec_enc_announce_args(q@));
    }
}

/// Appends the three envelope entries `q`, `t`, `y` of a query and
/// the closing `e`; the `a` entry must already stand in `out`.
#[verifier::rlimit(80)]
fn enc_query_tail(name: &[u8], t: &[u8], out: &mut Vec<u8>)
    ensures
        final(out)@ == old(out)@ + (spec_enc_bstr(key_q()) + spec_enc_bstr(name@) + spec_enc_bstr(
            key_t(),
        ) + spec_enc_bstr(t@) + spec_enc_bstr(key_y()) + spec_enc_bstr(seq![113u8])
            + seq![101u8]),
{
    let kq = [113u8];
    proof {
        assert(kq@ =~= key_q());
    }
    push_bstr(out, kq.as_slice());
    push_bstr(out, name);
    let kt = [116u8];
    proof {
        assert(kt@ =~= key_t());
    }
    push_bstr(out, kt.as_slice());
    push_bstr(out, t);
    let ky = [121u8];
    proof {
        assert(ky@ =~= key_y());
    }
    push_bstr(out, ky.as_slice());
    let vq = [113u8];
    push_bstr(out, vq.as_slice());
    out.push(101);
    proof {
        assert(vq@ =~= seq![113u8]);
        assert(final(out)@ =~= old(out)@ + (spec_enc_bstr(key_q()) + spec_enc_bstr(name@)
            + spec_enc_bstr(key_t()) + spec_enc_bstr(t@) + spec_enc_bstr(key_y()) + spec_enc_bstr(
            seq![113u8],
        ) + seq![101u8]));
    }
}

/// Writes the canonical bencoded bytes of a message with its
/// transaction token: each dictionary's keys in ascending order, every
/// port big-endian.  Encoding never fails.
#[verifier::rlimit(80)]
pub fn encode_message<R: Payload>(m: &Message<R>, t: &[u8]) -> (r: Vec<u8>)
    ensures
        r@ == spec_enc_message::<R>(m@, t@),
{
    let mut out: Vec<u8> = Vec::new();
    match m {
        Message::Q(q) => {
            out.push(100);
            let ka = [97u8];
            proof {
                assert(ka@ =~= key_a());
            }
            push_bstr(&mut out, ka.as_slice());
            match q {
                Query::Ping(p) => {
                    enc_ping_args(p, &mut out);
                    let name = [112u8, 105, 110, 103];
                    proof {
                        assert(name@ =~= qname_ping());
                    }
                    enc_query_tail(name.as_slice(), t, &mut out);
                },
                Query::FindNode(p) => {
                    enc_find_node_args(p, &mut out);
                    let name = [102u8, 105, 110, 100, 95, 110, 111, 100, 101];
                    proof {
                        assert(name@ =~= qname_find_node());
                    }
                    enc_query_tail(name.as_slice(), t, &mut out);
                },
                Query::GetPeers(p) => {
                    enc_get_peers_args(p, &mut out);
                    let name = [103u8, 101, 116, 95, 112, 101, 101, 114, 115];
                    proof {
                        assert(name@ =~= qname_get_peers());
                    }
                    enc_query_tail(name.as_slice(), t, &mut out);
                },
                Query::AnnouncePeer(p) => {
                    enc_announce_args(p, &mut out);
                    let name = [97u8, 110, 110, 111, 117, 110, 99, 101, 95, 112, 101, 101, 114];
                    proof {
                        assert(name@ =~= qname_announce_peer());
                    }
                    enc_query_tail(name.as_slice(), t, &mut out);
                },
            }
            proof {
                assert(out@ =~= spec_enc_message::<R>(m@, t@));
            }
        },
        Message::R { r } => {
            out.push(100);
            let kr = [114u8];
            proof {
                assert(kr@ =~= key_r());
            }
            push_bstr(&mut out, kr.as_slice());
            r.enc_into(&mut out);
            let kt = [116u8];
            proof {
                assert(kt@ =~= key_t());
            }
            push_bstr(&mut out, kt.as_slice());
            push_bstr(&mut out, t);
            let ky = [121u8];
            proof {
                assert(ky@ =~= key_y());
            }
            push_bstr(&mut out, ky.as_slice());
            let vr = [114u8];
            push_bstr(&mut out, vr.as_slice());
            out.push(101);
            proof {
                assert(vr@ =~= seq![114u8]);
                assert(out@ =~= spec_enc_message::<R>(m@, t@));
            }
        },
        Message::E { e } => {
            out.push(100);
            let ke = [101u8];
            proof {
                assert(ke@ =~= key_e());
            }
            push_bstr(&mut out, ke.as_slice());
            out.push(108);
            push_uint(&mut out, e.0 as u64);
            push_bstr(&mut out, e.1.as_str().as_bytes());
            out.push(101);
            let kt = [116u8];
            proof {
                assert(kt@ =~= key_t());
            }
            push_bstr(&mut out, kt.as_slice());
            push_bstr(&mut out, t);
            let ky = [121u8];
            proof {
                assert(ky@ =~= key_y());
            }
            push_bstr(&mut out, ky.as_slice());
            let ve = [101u8];
            push_bstr(&mut out, ve.as_slice());
            out.push(101);
            proof {
                assert(ve@ =~= seq![101u8]);
                assert(out@ =~= spec_enc_message::<R>(m@, t@));
            }
        },
    }
    out
}

// ---------------------------------------------------------------------------
// Decoding inverts encoding: payload dictionaries
// ---------------------------------------------------------------------------

/// A ping or get-peers-style argument dictionary holding only `id`
/// skips cleanly and reads back.
proof fn lemma_sole_id_facts(id: Seq<u8>, rest: Seq<u8>)
    requires
        id.len() == 20,
    ensures
        spec_skip_value(spec_enc_sole_id(id) + rest) == Some(rest),
        spec_dec_sole_id(spec_enc_sole_id(id) + rest) == Ok::<Seq<u8>, CodecError>(id),
{
    let s = spec_enc_sole_id(id) + rest;
    let v1 = spec_enc_bstr(id);
    let tail0 = seq![101u8] + rest;
    assert(s[0] == 100);
    assert(s.skip(1) =~= spec_enc_bstr(key_id()) + (v1 + tail0));
    lemma_skip_bstr(id, tail0);
    lemma_skip_dict_step(key_id(), v1 + tail0, tail0);
    lemma_skip_dict_end(rest);
    assert(spec_skip_dict_items(s.skip(1)) == Some(rest));
    lemma_find_key_hit(key_id(), v1 + tail0);
    lemma_parse_bstr_enc(id, tail0);
}

proof fn lemma_ping_args_facts(p: PingQueryV, rest: Seq<u8>)
    requires
        p.id.len() == 20,
    ensures
        spec_skip_value(spec_enc_ping_args(p) + rest) == Some(rest),
        spec_dec_ping_args(spec_enc_ping_args(p) + rest) == Ok::<PingQueryV, CodecError>(p),
{
    assert(spec_enc_ping_args(p) == spec_enc_sole_id(p.id));
    lemma_sole_id_facts(p.id, rest);
}

proof fn lemma_find_node_args_facts(f: FindNodeQueryV, rest: Seq<u8>)
    requires
        f.id.len() == 20,
        f.target.len() == 20,
    ensures
        spec_skip_value(spec_enc_find_node_args(f) + rest) == Some(rest),
        spec_dec_find_node_args(spec_enc_find_node_args(f) + rest) == Ok::<
            FindNodeQueryV,
            CodecError,
        >(f),
{
    let s = spec_enc_find_node_args(f) + rest;
    let v1 = spec_enc_bstr(f.id);
    let v2 = spec_enc_bstr(f.target);
    let tail0 = seq![101u8] + rest;
    let tail1 = spec_enc_bstr(key_target()) + (v2 + tail0);
    assert(s[0] == 100);
    assert(s.skip(1) =~= spec_enc_bstr(key_id()) + (v1 + tail1));
    lemma_skip_bstr(f.id, tail1);
    lemma_skip_bstr(f.target, tail0);
    lemma_skip_dict_step(key_id(), v1 + tail1, tail1);
    lemma_skip_dict_step(key_target(), v2 + tail0, tail0);
    lemma_skip_dict_end(rest);
    assert(spec_skip_dict_items(s.skip(1)) == Some(rest));
    lemma_find_key_hit(key_id(), v1 + tail1);
    lemma_parse_bstr_enc(f.id, tail1);
    assert(key_id() != key_target()) by {
        assert(key_id().len() != key_target().len());
    }
    lemma_find_key_miss(key_id(), key_target(), v1 + tail1, tail1);
    lemma_find_key_hit(key_target(), v2 + tail0);
    lemma_parse_bstr_enc(f.target, tail0);
}

proof fn lemma_get_peers_args_facts(g: GetPeersQueryV, rest: Seq<u8>)
    requires
        g.id.len() == 20,
        g.info_hash.len() == 20,
    ensures
        spec_skip_value(spec_enc_get_peers_args(g) + rest) == Some(rest),
        spec_dec_get_peers_args(spec_enc_get_peers_args(g) + rest) == Ok::<
            GetPeersQueryV,
            CodecError,
        >(g),
{
    let s = spec_enc_get_peers_args(g) + rest;
    let v1 = spec_enc_bstr(g.id);
    let v2 = spec_enc_bstr(g.info_hash);
    let tail0 = seq![101u8] + rest;
    let tail1 = spec_enc_bstr(key_info_hash()) + (v2 + tail0);
    assert(s[0] == 100);
    assert(s.skip(1) =~= spec_enc_bstr(key_id()) + (v1 + tail1));
    lemma_skip_bstr(g.id, tail1);
    lemma_skip_bstr(g.info_hash, tail0);
    lemma_skip_dict_step(key_id(), v1 + tail1, tail1);
    lemma_skip_dict_step(key_info_hash(), v2 + tail0, tail0);
    lemma_skip_dict_end(rest);
    assert(spec_skip_dict_items(s.skip(1)) == Some(rest));
    lemma_find_key_hit(key_id(), v1 + tail1);
    lemma_parse_bstr_enc(g.id, tail1);
    assert(key_id() != key_info_hash()) by {
        assert(key_id().len() != key_info_hash().len());
    }
    lemma_find_key_miss(key_id(), key_info_hash(), v1 + tail1, tail1);
    lemma_find_key_hit(key_info_hash(), v2 + tail0);
    lemma_parse_bstr_enc(g.info_hash, tail0);
}

#[verifier::rlimit(80)]
proof fn lemma_announce_args_facts(a: AnnouncePeerQueryV, rest: Seq<u8>)
    requires
        a.id.len() == 20,
        a.info_hash.len() == 20,
        a.token.len() < len_cap(),
    ensures
        spec_skip_value(spec_enc_announce_args(a) + rest) == Some(rest),
        spec_dec_announce_args(spec_enc_announce_args(a) + rest) == Ok::<
            AnnouncePeerQueryV,
            CodecError,
        >(a),
{
    let s = spec_enc_announce_args(a) + rest;
    let v1 = spec_enc_bstr(a.id);
    let v2 = spec_enc_uint(a.implied_port as nat);
    let v3 = spec_enc_bstr(a.info_hash);
    let v4 = spec_enc_uint(a.port as nat);
    let v5 = spec_enc_bstr(a.token);
    let tail5 = seq![101u8] + rest;
    let tail4 = spec_enc_bstr(key_token()) + (v5 + tail5);
    let tail3 = spec_enc_bstr(key_port()) + (v4 + tail4);
    let tail2 = spec_enc_bstr(key_info_hash()) + (v3 + tail3);
    let tail1 = spec_enc_bstr(key_implied_port()) + (v2 + tail2);
    assert(s[0] == 100);
    assert(s.skip(1) =~= spec_enc_bstr(key_id()) + (v1 + tail1));
    lemma_skip_bstr(a.id, tail1);
    lemma_skip_uint(a.implied_port as nat, tail2);
    lemma_skip_bstr(a.info_hash, tail3);
    lemma_skip_uint(a.port as nat, tail4);
    lemma_skip_bstr(a.token, tail5);
    lemma_skip_dict_step(key_id(), v1 + tail1, tail1);
    lemma_skip_dict_step(key_implied_port(), v2 + tail2, tail2);
    lemma_skip_dict_step(key_info_hash(), v3 + tail3, tail3);
    lemma_skip_dict_step(key_port(), v4 + tail4, tail4);
    lemma_skip_dict_step(key_token(), v5 + tail5, tail5);
    lemma_skip_dict_end(rest);
    assert(spec_skip_dict_items(s.skip(1)) == Some(rest));
    // pairwise distinct keys, seen from their lengths
    assert(key_id() != key_implied_port()) by {
        assert(key_id().len() != key_implied_port().len());
    }
    assert(key_id() != key_info_hash()) by {
        assert(key_id().len() != key_info_hash().len());
    }
    assert(key_id() != key_port()) by {
        assert(key_id().len() != key_port().len());
    }
    assert(key_id() != key_token()) by {
        assert(key_id().len() != key_token().len());
    }
    assert(key_implied_port() != key_info_hash()) by {
        assert(key_implied_port().len() != key_info_hash().len());
    }
    assert(key_implied_port() != key_port()) by {
        assert(key_implied_port().len() != key_port().len());
    }
    assert(key_implied_port() != key_token()) by {
        assert(key_implied_port().len() != key_token().len());
    }
    assert(key_info_hash() != key_port()) by {
        assert(key_info_hash().len() != key_port().len());
    }
    assert(key_info_hash() != key_token()) by {
        assert(key_info_hash().len() != key_token().len());
    }
    assert(key_port() != key_token()) by {
        assert(key_port().len() != key_token().len());
    }
    // the field reads
    lemma_find_key_hit(key_id(), v1 + tail1);
    lemma_parse_bstr_enc(a.id, tail1);
    lemma_find_key_miss(key_id(), key_implied_port(), v1 + tail1, tail1);
    lemma_find_key_hit(key_implied_port(), v2 + tail2);
    lemma_parse_uint_enc(a.implied_port as nat, tail2);
    lemma_find_key_miss(key_id(), key_info_hash(), v1 + tail1, tail1);
    lemma_find_key_miss(key_implied_port(), key_info_hash(), v2 + tail2, tail2);
    lemma_find_key_hit(key_info_hash(), v3 + tail3);
    lemma_parse_bstr_enc(a.info_hash, tail3);
    lemma_find_key_miss(key_id(), key_port(), v1 + tail1, tail1);
    lemma_find_key_miss(key_implied_port(), key_port(), v2 + tail2, tail2);
    lemma_find_key_miss(key_info_hash(), key_port(), v3 + tail3, tail3);
    lemma_find_key_hit(key_port(), v4 + tail4);
    lemma_parse_uint_enc(a.port as nat, tail4);
    lemma_find_key_miss(key_id(), key_token(), v1 + tail1, tail1);
    lemma_find_key_miss(key_implied_port(), key_token(), v2 + tail2, tail2);
    lemma_find_key_miss(key_info_hash(), key_token(), v3 + tail3, tail3);
    lemma_find_key_miss(key_port(), key_token(), v4 + tail4, tail4);
    lemma_find_key_hit(key_token(), v5 + tail5);
    lemma_parse_bstr_enc(a.token, tail5);
    assert(((a.port as nat) as u16) == a.port);
    assert(((a.implied_port as nat) as u8) == a.implied_port);
}

/// The items of an encoded `values` list skip and read back.
proof fn lemma_values_items_facts(vals: Seq<Seq<u8>>, rest: Seq<u8>)
    requires
        forall|i: int| 0 <= i < vals.len() ==> (#[trigger] vals[i]).len() == 6,
    ensures
        spec_skip_list_items(spec_enc_values(vals) + (seq![101u8] + rest)) == Some(rest),
        spec_dec_addr_items(spec_enc_values(vals) + (seq![101u8] + rest)) == Ok::<
            Seq<Seq<u8>>,
            CodecError,
        >(vals),
    decreases vals.len(),
{
    let endrest = seq![101u8] + rest;
    if vals.len() == 0 {
        assert(spec_enc_values(vals) + endrest =~= endrest);
        lemma_skip_list_end(rest);
        assert(endrest[0] == 101);
        assert(spec_dec_addr_items(endrest) == Ok::<Seq<Seq<u8>>, CodecError>(
            Seq::<Seq<u8>>::empty(),
        ));
        assert(vals =~= Seq::<Seq<u8>>::empty());
    } else {
        let head = vals[0];
        let tailv = vals.drop_first();
        let inner = spec_enc_values(tailv) + endrest;
        let s = spec_enc_values(vals) + endrest;
        assert(s =~= spec_enc_bstr(head) + inner);
        lemma_values_items_facts(tailv, rest);
        lemma_skip_bstr(head, inner);
        lemma_skip_list_step(spec_enc_bstr(head) + inner, inner);
        lemma_parse_bstr_enc(head, inner);
        crate::bencode::lemma_dec_digits_are_digits(head.len());
        assert(s[0] == dec_digits(head.len())[0]);
        assert(is_digit(s[0]));
        assert(s[0] != 101);
        assert(inner.len() < s.len()) by {
            assert(spec_enc_bstr(head).len() > 0);
        }
        assert(spec_dec_addr_items(s) == Ok::<Seq<Seq<u8>>, CodecError>(seq![head] + tailv));
        assert(seq![head] + tailv =~= vals);
    }
}

/// An encoded `values` list skips cleanly as one value.
proof fn lemma_values_list_skips(vals: Seq<Seq<u8>>, rest: Seq<u8>)
    requires
        forall|i: int| 0 <= i < vals.len() ==> (#[trigger] vals[i]).len() == 6,
    ensures
        spec_skip_value((seq![108u8] + spec_enc_values(vals) + seq![101u8]) + rest) == Some(rest),
{
    let s = (seq![108u8] + spec_enc_values(vals) + seq![101u8]) + rest;
    assert(s[0] == 108);
    assert(s.skip(1) =~= spec_enc_values(vals) + (seq![101u8] + rest));
    lemma_values_items_facts(vals, rest);
}

/// A find-node response dictionary skips cleanly and reads back.
proof fn lemma_find_node_resp_facts(v: FindNodeResponseV, rest: Seq<u8>)
    requires
        v.id.len() == 20,
        v.nodes.len() % 26 == 0,
        v.nodes.len() < len_cap(),
    ensures
        spec_skip_value(FindNodeResponse::spec_enc(v) + rest) == Some(rest),
        FindNodeResponse::spec_dec(FindNodeResponse::spec_enc(v) + rest) == Ok::<
            FindNodeResponseV,
            CodecError,
        >(v),
{
    let s = FindNodeResponse::spec_enc(v) + rest;
    let v1 = spec_enc_bstr(v.id);
    let v2 = spec_enc_bstr(v.nodes);
    let tail0 = seq![101u8] + rest;
    let tail1 = spec_enc_bstr(key_nodes()) + (v2 + tail0);
    assert(s[0] == 100);
    assert(s.skip(1) =~= spec_enc_bstr(key_id()) + (v1 + tail1));
    lemma_skip_bstr(v.id, tail1);
    lemma_skip_bstr(v.nodes, tail0);
    lemma_skip_dict_step(key_id(), v1 + tail1, tail1);
    lemma_skip_dict_step(key_nodes(), v2 + tail0, tail0);
    lemma_skip_dict_end(rest);
    assert(spec_skip_dict_items(s.skip(1)) == Some(rest));
    lemma_find_key_hit(key_id(), v1 + tail1);
    lemma_parse_bstr_enc(v.id, tail1);
    assert(key_id() != key_nodes()) by {
        assert(key_id().len() != key_nodes().len());
    }
    lemma_find_key_miss(key_id(), key_nodes(), v1 + tail1, tail1);
    lemma_find_key_hit(key_nodes(), v2 + tail0);
    lemma_parse_bstr_enc(v.nodes, tail0);
}

/// A get-peers response dictionary, with or without its optional
/// entries, skips cleanly and reads back.
#[verifier::rlimit(100)]
proof fn lemma_get_peers_resp_facts(v: GetPeersResponseV, rest: Seq<u8>)
    requires
        v.id.len() == 20,
        v.token.len() < len_cap(),
        match v.values {
            Some(vals) => forall|i: int| 0 <= i < vals.len() ==> (#[trigger] vals[i]).len() == 6,
            None => true,
        },
        match v.nodes {
            Some(n) => n.len() % 26 == 0 && n.len() < len_cap(),
            None => true,
        },
    ensures
        spec_skip_value(GetPeersResponse::spec_enc(v) + rest) == Some(rest),
        GetPeersResponse::spec_dec(GetPeersResponse::spec_enc(v) + rest) == Ok::<
            GetPeersResponseV,
            CodecError,
        >(v),
{
    let s = GetPeersResponse::spec_enc(v) + rest;
    let v1 = spec_enc_bstr(v.id);
    let vtok = spec_enc_bstr(v.token);
    let tail_end = seq![101u8] + rest;
    // the optional values entry and what follows the token entry
    let tail_after_tok: Seq<u8> = match v.values {
        Some(vals) => spec_enc_bstr(key_values()) + ((seq![108u8] + spec_enc_values(vals)
            + seq![101u8]) + tail_end),
        None => tail_end,
    };
    let tail_tok = spec_enc_bstr(key_token()) + (vtok + tail_after_tok);
    // the optional nodes entry and what follows the id entry
    let tail_after_id: Seq<u8> = match v.nodes {
        Some(n) => spec_enc_bstr(key_nodes()) + (spec_enc_bstr(n) + tail_tok),
        None => tail_tok,
    };
    assert(s[0] == 100);
    assert(s.skip(1) =~= spec_enc_bstr(key_id()) + (v1 + tail_after_id));
    // key distinctions
    assert(key_id() != key_nodes()) by {
        assert(key_id().len() != key_nodes().len());
    }
    assert(key_id() != key_token()) by {
        assert(key_id().len() != key_token().len());
    }
    assert(key_id() != key_values()) by {
        assert(key_id().len() != key_values().len());
    }
    assert(key_nodes() != key_token()) by {
        assert(key_nodes()[0] != key_token()[0]);
    }
    assert(key_nodes() != key_values()) by {
        assert(key_nodes().len() != key_values().len());
    }
    assert(key_token() != key_values()) by {
        assert(key_token().len() != key_values().len());
    }
    // skipping from the back forwards
    match v.values {
        Some(vals) => {
            lemma_values_list_skips(vals, tail_end);
            lemma_skip_dict_step(
                key_values(),
                (seq![108u8] + spec_enc_values(vals) + seq![101u8]) + tail_end,
                tail_end,
            );
        },
        None => {},
    }
    lemma_skip_dict_end(rest);
    assert(spec_skip_dict_items(tail_after_tok) == Some(rest));
    lemma_skip_bstr(v.token, tail_after_tok);
    lemma_skip_dict_step(key_token(), vtok + tail_after_tok, tail_after_tok);
    assert(spec_skip_dict_items(tail_tok) == Some(rest));
    match v.nodes {
        Some(n) => {
            lemma_skip_bstr(n, tail_tok);
            lemma_skip_dict_step(key_nodes(), spec_enc_bstr(n) + tail_tok, tail_tok);
        },
        None => {},
    }
    assert(spec_skip_dict_items(tail_after_id) == Some(rest));
    lemma_skip_bstr(v.id, tail_after_id);
    lemma_skip_dict_step(key_id(), v1 + tail_after_id, tail_after_id);
    assert(spec_skip_dict_items(s.skip(1)) == Some(rest));
    // reading the fields
    let items = s.skip(1);
    lemma_find_key_hit(key_id(), v1 + tail_after_id);
    lemma_parse_bstr_enc(v.id, tail_after_id);
    assert(spec_dec_id_field(items, key_id()) == Ok::<Seq<u8>, CodecError>(v.id));
    // token
    lemma_find_key_miss(key_id(), key_token(), v1 + tail_after_id, tail_after_id);
    match v.nodes {
        Some(n) => {
            lemma_find_key_miss(key_nodes(), key_token(), spec_enc_bstr(n) + tail_tok, tail_tok);
        },
        None => {},
    }
    lemma_find_key_hit(key_token(), vtok + tail_after_tok);
    lemma_parse_bstr_enc(v.token, tail_after_tok);
    assert(spec_dec_bstr_field(items, key_token()) == Ok::<Seq<u8>, CodecError>(v.token));
    // values
    lemma_find_key_miss(key_id(), key_values(), v1 + tail_after_id, tail_after_id);
    match v.nodes {
        Some(n) => {
            lemma_find_key_miss(key_nodes(), key_values(), spec_enc_bstr(n) + tail_tok, tail_tok);
        },
        None => {},
    }
    lemma_find_key_miss(key_token(), key_values(), vtok + tail_after_tok, tail_after_tok);
    match v.values {
        Some(vals) => {
            lemma_find_key_hit(key_values(), (seq![108u8] + spec_enc_values(vals) + seq![101u8])
                + tail_end);
            let vv = (seq![108u8] + spec_enc_values(vals) + seq![101u8]) + tail_end;
            assert(vv[0] == 108);
            assert(vv.skip(1) =~= spec_enc_values(vals) + (seq![101u8] + tail_end));
            lemma_values_items_facts(vals, tail_end);
            assert(spec_dec_values(vv) == Ok::<Seq<Seq<u8>>, CodecError>(vals));
        },
        None => {
            lemma_find_key_end(key_values(), rest);
            assert(spec_find_key(items, key_values()) is None);
        },
    }
    // nodes
    lemma_find_key_miss(key_id(), key_nodes(), v1 + tail_after_id, tail_after_id);
    match v.nodes {
        Some(n) => {
            lemma_find_key_hit(key_nodes(), spec_enc_bstr(n) + tail_tok);
            lemma_parse_bstr_enc(n, tail_tok);
        },
        None => {
            lemma_find_key_miss(key_token(), key_nodes(), vtok + tail_after_tok, tail_after_tok);
            match v.values {
                Some(vals) => {
                    lemma_find_key_miss(
                        key_values(),
                        key_nodes(),
                        (seq![108u8] + spec_enc_values(vals) + seq![101u8]) + tail_end,
                        tail_end,
                    );
                },
                None => {},
            }
            lemma_find_key_end(key_nodes(), rest);
            assert(spec_find_key(items, key_nodes()) is None);
        },
    }
}

/// The empty payload dictionary `de` skips cleanly and reads back.
proof fn lemma_unit_facts(rest: Seq<u8>)
    ensures
        spec_skip_value(seq![100u8, 101u8] + rest) == Some(rest),
        <() as Payload>::spec_dec(seq![100u8, 101u8] + rest) == Ok::<(), CodecError>(()),
{
    let s = seq![100u8, 101u8] + rest;
    assert(s[0] == 100);
    assert(s.skip(1) =~= seq![101u8] + rest);
    lemma_skip_dict_end(rest);
}

/// An encoded error list skips cleanly and reads back.
proof fn lemma_error_facts(code: u32, msg: Seq<u8>, rest: Seq<u8>)
    requires
        msg.len() < len_cap(),
        valid_utf8(msg),
    ensures
        spec_skip_value((seq![108u8] + spec_enc_uint(code as nat) + spec_enc_bstr(msg)
            + seq![101u8]) + rest) == Some(rest),
        spec_dec_error((seq![108u8] + spec_enc_uint(code as nat) + spec_enc_bstr(msg)
            + seq![101u8]) + rest) == Ok::<(u32, Seq<u8>), CodecError>((code, msg)),
{
    let s = (seq![108u8] + spec_enc_uint(code as nat) + spec_enc_bstr(msg) + seq![101u8]) + rest;
    assert(s[0] == 108);
    let after_code = spec_enc_bstr(msg) + (seq![101u8] + rest);
    assert(s.skip(1) =~= spec_enc_uint(code as nat) + after_code);
    assert((code as nat) < len_cap());
    lemma_parse_uint_enc(code as nat, after_code);
    lemma_parse_bstr_enc(msg, seq![101u8] + rest);
    assert((seq![101u8] + rest)[0] == 101);
    assert((seq![101u8] + rest).skip(1) =~= rest);
    // the skip walk over the list items
    lemma_skip_uint(code as nat, after_code);
    lemma_skip_list_step(spec_enc_uint(code as nat) + after_code, after_code);
    lemma_skip_bstr(msg, seq![101u8] + rest);
    lemma_skip_list_step(after_code, seq![101u8] + rest);
    lemma_skip_list_end(rest);
    assert(spec_skip_list_items(s.skip(1)) == Some(rest));
    assert(((code as nat) as u32) == code);
}

// ---------------------------------------------------------------------------
// Decoding inverts encoding: whole messages
// ---------------------------------------------------------------------------

/// The trailing `y` entry and closing `e` of an envelope.
pub open spec fn y_tail(yb: u8) -> Seq<u8> {
    spec_enc_bstr(key_y()) + (spec_enc_bstr(seq![yb]) + seq![101u8])
}

/// The trailing `t` and `y` entries of an envelope.
pub open spec fn t_tail(t: Seq<u8>, yb: u8) -> Seq<u8> {
    spec_enc_bstr(key_t()) + (spec_enc_bstr(t) + y_tail(yb))
}

/// The trailing `q`, `t` and `y` entries of a query envelope.
pub open spec fn q_tail(name: Seq<u8>, t: Seq<u8>) -> Seq<u8> {
    spec_enc_bstr(key_q()) + (spec_enc_bstr(name) + t_tail(t, 113))
}

/// The discriminator byte a message is sent under.
pub open spec fn y_of<RV>(m: MessageV<RV>) -> u8 {
    match m {
        MessageV::Q(_) => 113,
        MessageV::R(_) => 114,
        MessageV::E(_, _) => 101,
    }
}

/// Walks the trailing `t` and `y` entries: the dictionary closes
/// behind them, and both read back.
proof fn lemma_t_y_tail(t: Seq<u8>, yb: u8)
    requires
        t.len() < len_cap(),
    ensures
        spec_skip_dict_items(t_tail(t, yb)) == Some(Seq::<u8>::empty()),
        spec_find_key(t_tail(t, yb), key_t()) == Some(spec_enc_bstr(t) + y_tail(yb)),
        spec_find_key(y_tail(yb), key_y()) == Some(spec_enc_bstr(seq![yb]) + seq![101u8]),
        spec_find_key(t_tail(t, yb), key_y()) == Some(spec_enc_bstr(seq![yb]) + seq![101u8]),
        spec_find_key(t_tail(t, yb), key_q()) is None,
        spec_parse_bstr(spec_enc_bstr(t) + y_tail(yb)) == Some((t, y_tail(yb))),
        spec_parse_bstr(spec_enc_bstr(seq![yb]) + seq![101u8]) == Some((seq![yb], seq![101u8])),
    decreases 0int,
{
    assert(key_t() != key_y()) by {
        assert(key_t()[0] != key_y()[0]);
    }
    assert(key_q() != key_t()) by {
        assert(key_q()[0] != key_t()[0]);
    }
    assert(key_q() != key_y()) by {
        assert(key_q()[0] != key_y()[0]);
    }
    assert(seq![yb].len() < len_cap());
    // the y entry
    lemma_skip_bstr(seq![yb], seq![101u8]);
    lemma_skip_dict_step(key_y(), spec_enc_bstr(seq![yb]) + seq![101u8], seq![101u8]);
    lemma_skip_dict_end(Seq::<u8>::empty());
    assert(seq![101u8] + Seq::<u8>::empty() =~= seq![101u8]);
    assert(y_tail(yb) == spec_enc_bstr(key_y()) + (spec_enc_bstr(seq![yb]) + seq![101u8]));
    assert(spec_skip_dict_items(y_tail(yb)) == Some(Seq::<u8>::empty()));
    lemma_find_key_hit(key_y(), spec_enc_bstr(seq![yb]) + seq![101u8]);
    lemma_parse_bstr_enc(seq![yb], seq![101u8]);
    // the t entry
    lemma_skip_bstr(t, y_tail(yb));
    lemma_skip_dict_step(key_t(), spec_enc_bstr(t) + y_tail(yb), y_tail(yb));
    assert(spec_skip_dict_items(t_tail(t, yb)) == Some(Seq::<u8>::empty()));
    lemma_find_key_hit(key_t(), spec_enc_bstr(t) + y_tail(yb));
    lemma_parse_bstr_enc(t, y_tail(yb));
    lemma_find_key_miss(key_t(), key_y(), spec_enc_bstr(t) + y_tail(yb), y_tail(yb));
    // no q entry back here
    lemma_find_key_miss(key_t(), key_q(), spec_enc_bstr(t) + y_tail(yb), y_tail(yb));
    lemma_find_key_miss(key_y(), key_q(), spec_enc_bstr(seq![yb]) + seq![101u8], seq![101u8]);
    lemma_find_key_end(key_q(), Seq::<u8>::empty());
    assert(spec_find_key(y_tail(yb), key_q()) is None);
}

/// The envelope of a query reads back: the frame is sound, each of
/// its four entries is found, and the shallow decode yields the
/// token and `q`.
proof fn lemma_query_env(args: Seq<u8>, name: Seq<u8>, t: Seq<u8>)
    requires
        name.len() < len_cap(),
        t.len() < len_cap(),
        spec_skip_value(args + q_tail(name, t)) == Some(q_tail(name, t)),
    ensures
        spec_envelope_frame_ok(spec_enc_query_message(args, name, t)),
        spec_find_key(spec_enc_query_message(args, name, t).skip(1), key_a()) == Some(
            args + q_tail(name, t),
        ),
        spec_find_key(spec_enc_query_message(args, name, t).skip(1), key_q()) == Some(
            spec_enc_bstr(name) + t_tail(t, 113),
        ),
        spec_dec_envelope(spec_enc_query_message(args, name, t)) == Ok::<
            (Seq<u8>, u8),
            CodecError,
        >((t, 113)),
{
    let s = spec_enc_query_message(args, name, t);
    let qt = q_tail(name, t);
    let tt = t_tail(t, 113);
    assert(s[0] == 100);
    assert(s.skip(1) =~= spec_enc_bstr(key_a()) + (args + qt));
    assert(qt == spec_enc_bstr(key_q()) + (spec_enc_bstr(name) + tt));
    lemma_t_y_tail(t, 113);
    assert(key_a() != key_q()) by {
        assert(key_a()[0] != key_q()[0]);
    }
    assert(key_a() != key_t()) by {
        assert(key_a()[0] != key_t()[0]);
    }
    assert(key_a() != key_y()) by {
        assert(key_a()[0] != key_y()[0]);
    }
    assert(key_q() != key_t()) by {
        assert(key_q()[0] != key_t()[0]);
    }
    assert(key_q() != key_y()) by {
        assert(key_q()[0] != key_y()[0]);
    }
    // frame
    lemma_skip_bstr(name, tt);
    lemma_skip_dict_step(key_q(), spec_enc_bstr(name) + tt, tt);
    lemma_skip_dict_step(key_a(), args + qt, qt);
    assert(spec_skip_dict_items(s.skip(1)) == Some(Seq::<u8>::empty()));
    // finds
    lemma_find_key_hit(key_a(), args + qt);
    lemma_find_key_miss(key_a(), key_q(), args + qt, qt);
    lemma_find_key_hit(key_q(), spec_enc_bstr(name) + tt);
    lemma_find_key_miss(key_a(), key_t(), args + qt, qt);
    lemma_find_key_miss(key_q(), key_t(), spec_enc_bstr(name) + tt, tt);
    lemma_find_key_miss(key_a(), key_y(), args + qt, qt);
    lemma_find_key_miss(key_q(), key_y(), spec_enc_bstr(name) + tt, tt);
    lemma_parse_bstr_enc(name, tt);
    assert(seq![113u8].len() == 1 && seq![113u8][0] == 113);
}

/// The envelope of a response or error message reads back: the frame
/// is sound, the payload entry is found under `k`, and the shallow
/// decode yields the token and `yb`.
proof fn lemma_re_env(k: Seq<u8>, payload: Seq<u8>, t: Seq<u8>, yb: u8)
    requires
        k.len() < len_cap(),
        t.len() < len_cap(),
        k != key_t(),
        k != key_y(),
        yb == 114 || yb == 101,
        spec_skip_value(payload + t_tail(t, yb)) == Some(t_tail(t, yb)),
    ensures
        ({
            let s = seq![100u8] + spec_enc_bstr(k) + payload + t_tail(t, yb);
            &&& spec_envelope_frame_ok(s)
            &&& spec_find_key(s.skip(1), k) == Some(payload + t_tail(t, yb))
            &&& spec_dec_envelope(s) == Ok::<(Seq<u8>, u8), CodecError>((t, yb))
        }),
{
    let s = seq![100u8] + spec_enc_bstr(k) + payload + t_tail(t, yb);
    let tt = t_tail(t, yb);
    assert(s[0] == 100);
    assert(s.skip(1) =~= spec_enc_bstr(k) + (payload + tt));
    lemma_t_y_tail(t, yb);
    lemma_skip_dict_step(k, payload + tt, tt);
    assert(spec_skip_dict_items(s.skip(1)) == Some(Seq::<u8>::empty()));
    lemma_find_key_hit(k, payload + tt);
    lemma_find_key_miss(k, key_t(), payload + tt, tt);
    lemma_find_key_miss(k, key_y(), payload + tt, tt);
    assert(seq![yb].len() == 1 && seq![yb][0] == yb);
}

/// The query names are pairwise distinct.
proof fn lemma_qnames_distinct()
    ensures
        qname_ping() != qname_find_node(),
        qname_ping() != qname_get_peers(),
        qname_ping() != qname_announce_peer(),
        qname_find_node() != qname_get_peers(),
        qname_find_node() != qname_announce_peer(),
        qname_get_peers() != qname_announce_peer(),
{
    assert(qname_ping().len() != qname_find_node().len());
    assert(qname_ping().len() != qname_get_peers().len());
    assert(qname_ping().len() != qname_announce_peer().len());
    assert(qname_find_node()[0] != qname_get_peers()[0]);
    assert(qname_find_node().len() != qname_announce_peer().len());
    assert(qname_get_peers().len() != qname_announce_peer().len());
}

/// Round trip, full and shallow, for every well-formed message and
/// token: decoding the canonical encoding yields the message and the
/// token unchanged, and the shallow decode yields the token and the
/// message's discriminator.
#[verifier::rlimit(100)]
proof fn lemma_message_facts<R: Payload>(m: MessageV<R::V>, t: Seq<u8>)
    requires
        wf_message_v::<R>(m),
        t.len() < len_cap(),
    ensures
        spec_dec_message::<R>(spec_enc_message::<R>(m, t)) == Ok::<
            (MessageV<R::V>, Seq<u8>),
            CodecError,
        >((m, t)),
        spec_dec_envelope(spec_enc_message::<R>(m, t)) == Ok::<(Seq<u8>, u8), CodecError>(
            (t, y_of(m)),
        ),
{
    let s = spec_enc_message::<R>(m, t);
    match m {
        MessageV::Q(q) => {
            lemma_qnames_distinct();
            let name: Seq<u8> = match q {
                QueryV::Ping(_) => qname_ping(),
                QueryV::FindNode(_) => qname_find_node(),
                QueryV::GetPeers(_) => qname_get_peers(),
                QueryV::AnnouncePeer(_) => qname_announce_peer(),
            };
            let args: Seq<u8> = match q {
                QueryV::Ping(p) => spec_enc_ping_args(p),
                QueryV::FindNode(f) => spec_enc_find_node_args(f),
                QueryV::GetPeers(g) => spec_enc_get_peers_args(g),
                QueryV::AnnouncePeer(a) => spec_enc_announce_args(a),
            };
            let qt = q_tail(name, t);
            match q {
                QueryV::Ping(p) => {
                    lemma_ping_args_facts(p, qt);
                },
                QueryV::FindNode(f) => {
                    lemma_find_node_args_facts(f, qt);
                },
                QueryV::GetPeers(g) => {
                    lemma_get_peers_args_facts(g, qt);
                },
                QueryV::AnnouncePeer(a) => {
                    lemma_announce_args_facts(a, qt);
                },
            }
            assert(name.len() < len_cap());
            lemma_query_env(args, name, t);
            assert(s == spec_enc_query_message(args, name, t));
            lemma_parse_bstr_enc(name, t_tail(t, 113));
        },
        MessageV::R(rv) => {
            let payload = R::spec_enc(rv);
            let tt = t_tail(t, 114);
            R::lemma_round_trip(rv, tt);
            assert(key_r() != key_t()) by {
                assert(key_r()[0] != key_t()[0]);
            }
            assert(key_r() != key_y()) by {
                assert(key_r()[0] != key_y()[0]);
            }
            lemma_re_env(key_r(), payload, t, 114);
            assert(s =~= seq![100u8] + spec_enc_bstr(key_r()) + payload + tt);
        },
        MessageV::E(code, msg) => {
            let payload = seq![108u8] + spec_enc_uint(code as nat) + spec_enc_bstr(msg)
                + seq![101u8];
            let tt = t_tail(t, 101);
            lemma_error_facts(code, msg, tt);
            assert(key_e() != key_t()) by {
                assert(key_e()[0] != key_t()[0]);
            }
            assert(key_e() != key_y()) by {
                assert(key_e()[0] != key_y()[0]);
            }
            lemma_re_env(key_e(), payload, t, 101);
            assert(s =~= seq![100u8] + spec_enc_bstr(key_e()) + payload + tt);
        },
    }
}

/// Encoding, then fully decoding, returns every well-formed message
/// and its transaction token unchanged.
pub proof fn lemma_message_round_trip<R: Payload>(m: MessageV<R::V>, t: Seq<u8>)
    requires
        wf_message_v::<R>(m),
        t.len() < len_cap(),
    ensures
        spec_dec_message::<R>(spec_enc_message::<R>(m, t)) == Ok::<
            (MessageV<R::V>, Seq<u8>),
            CodecError,
        >((m, t)),
{
    lemma_message_facts::<R>(m, t);
}

/// Encoding, then shallow-decoding, returns every well-formed
/// message's token and discriminator unchanged.
pub proof fn lemma_envelope_round_trip<R: Payload>(m: MessageV<R::V>, t: Seq<u8>)
    requires
        wf_message_v::<R>(m),
        t.len() < len_cap(),
    ensures
        spec_dec_envelope(spec_enc_message::<R>(m, t)) == Ok::<(Seq<u8>, u8), CodecError>(
            (t, y_of(m)),
        ),
{
    lemma_message_facts::<R>(m, t);
}

// ---------------------------------------------------------------------------
// Persistent state
// ---------------------------------------------------------------------------

pub open spec fn key_dht_id() -> Seq<u8> {
    seq![100u8, 104, 116, 95, 105, 100]
}

pub open spec fn key_peers() -> Seq<u8> {
    seq![112u8, 101, 101, 114, 115]
}

/// Abstract value of the stored node state.
pub struct ConfigV {
    pub dht_id: Seq<u8>,
    pub peers: Seq<Seq<u8>>,
}

/// The node state a host persists between runs: its identity and a
/// list of peer names.  The host reads and writes the file; the
/// codec here turns the state into canonical bytes and back.
#[derive(Debug, PartialEq, Eq)]
pub struct Config {
    pub dht_id: DhtId,
    pub peers: Vec<String>,
}

impl View for Config {
    type V = ConfigV;

    open spec fn view(&self) -> ConfigV {
        ConfigV {
            dht_id: self.dht_id@,
            peers: self.peers@.map_values(|s: String| encode_utf8(s@)),
        }
    }
}

impl Config {
    /// A fresh state: a random identity and no peers.
    pub fn new() -> (r: Config)
        ensures
            r.peers@.len() == 0,
    {
        Config { dht_id: DhtId::new(), peers: Vec::new() }
    }
}

/// Canonical encoding of the stored state: a dictionary with the
/// identity under `dht_id` and the peer names under `peers`.
pub open spec fn spec_enc_config(c: ConfigV) -> Seq<u8> {
    seq![100u8] + spec_enc_bstr(key_dht_id()) + spec_enc_bstr(c.dht_id) + spec_enc_bstr(key_peers())
        + (seq![108u8] + spec_enc_values(c.peers) + seq![101u8]) + seq![101u8]
}

/// The items of the `peers` list: byte strings of UTF-8 text.
pub open spec fn spec_dec_str_items(s: Seq<u8>) -> Result<Seq<Seq<u8>>, CodecError>
    decreases s.len(),
{
    if s.len() == 0 {
        Err(CodecError::Malformed)
    } else if s[0] == 101 {
        Ok(Seq::<Seq<u8>>::empty())
    } else if is_digit(s[0]) {
        match spec_parse_bstr(s) {
            Some((b, r)) => if valid_utf8(b) {
                if r.len() < s.len() {
                    match spec_dec_str_items(r) {
                        Ok(rest) => Ok(seq![b] + rest),
                        Err(e) => Err(e),
                    }
                } else {
                    Err(CodecError::Malformed)
                }
            } else {
                Err(CodecError::Malformed)
            },
            None => Err(CodecError::Malformed),
        }
    } else {
        Err(CodecError::Malformed)
    }
}

/// The exact result of reading a stored state: the whole buffer must
/// be one dictionary with a 20-byte `dht_id` and a `peers` list of
/// UTF-8 names.
pub open spec fn spec_dec_config(s: Seq<u8>) -> Result<ConfigV, CodecError> {
    if !spec_envelope_frame_ok(s) {
        Err(CodecError::Malformed)
    } else {
        let items = s.skip(1);
        match spec_dec_id_field(items, key_dht_id()) {
            Err(e) => Err(e),
            Ok(dht_id) => match spec_find_key(items, key_peers()) {
                None => Err(CodecError::Malformed),
                Some(pv) => if pv.len() > 0 && pv[0] == 108 {
                    match spec_dec_str_items(pv.skip(1)) {
                        Ok(peers) => Ok(ConfigV { dht_id, peers }),
                        Err(e) => Err(e),
                    }
                } else {
                    Err(CodecError::Malformed)
                },
            },
        }
    }
}

/// Appends the encodings of the peer names from index `i` on.
fn enc_peers_from(out: &mut Vec<u8>, peers: &Vec<String>, i: usize)
    requires
        i <= peers@.len(),
    ensures
        final(out)@ == old(out)@ + spec_enc_values(
            peers@.map_values(|s: String| encode_utf8(s@)).skip(i as int),
        ),
    decreases peers@.len() - i,
{
    let ghost m = peers@.map_values(|s: String| encode_utf8(s@));
    if i < peers.len() {
        push_bstr(out, peers[i].as_str().as_bytes());
        enc_peers_from(out, peers, i + 1);
        proof {
            assert(m.skip(i as int).drop_first() =~= m.skip(i as int + 1));
            assert(m.skip(i as int)[0] == m[i as int]);
            assert(final(out)@ =~= old(out)@ + spec_enc_values(m.skip(i as int)));
        }
    } else {
        proof {
            assert(m.skip(i as int) =~= Seq::<Seq<u8>>::empty());
            assert(final(out)@ =~= old(out)@ + spec_enc_values(m.skip(i as int)));
        }
    }
}

/// Writes the canonical bytes of a stored state.
#[verifier::rlimit(80)]
pub fn encode_config(c: &Config) -> (r: Vec<u8>)
    ensures
        r@ == spec_enc_config(c@),
{
    let mut out: Vec<u8> = Vec::new();
    out.push(100);
    let kd = [100u8, 104, 116, 95, 105, 100];
    proof {
        assert(kd@ =~= key_dht_id());
    }
    push_bstr(&mut out, kd.as_slice());
    push_bstr(&mut out, c.dht_id.0.as_slice());
    let kp = [112u8, 101, 101, 114, 115];
    proof {
        assert(kp@ =~= key_peers());
    }
    push_bstr(&mut out, kp.as_slice());
    out.push(108);
    enc_peers_from(&mut out, &c.peers, 0);
    out.push(101);
    out.push(101);
    proof {
        assert(c.peers@.map_values(|s: String| encode_utf8(s@)).skip(0) =~= c.peers@.map_values(
            |s: String| encode_utf8(s@),
        ));
        assert(out@ =~= spec_enc_config(c@));
    }
    out
}

/// Reads the items of the `peers` list.
fn dec_str_items(buf: &[u8], pos: usize) -> (r: Result<Vec<String>, CodecError>)
    requires
        pos <= buf@.len(),
    ensures
        match r {
            Ok(v) => spec_dec_str_items(buf@.skip(pos as int)) == Ok::<Seq<Seq<u8>>, CodecError>(
                v@.map_values(|s: String| encode_utf8(s@)),
            ),
            Err(e) => spec_dec_str_items(buf@.skip(pos as int)) == Err::<
                Seq<Seq<u8>>,
                CodecError,
            >(e),
        },
    decreases buf@.len() - pos,
{
    if pos >= buf.len() {
        return Err(CodecError::Malformed);
    }
    let b = buf[pos];
    if b == 101 {
        let v: Vec<String> = Vec::new();
        proof {
            assert(v@.map_values(|s: String| encode_utf8(s@)) =~= Seq::<Seq<u8>>::empty());
        }
        return Ok(v);
    }
    if !(48 <= b && b <= 57) {
        return Err(CodecError::Malformed);
    }
    match parse_bstr(buf, pos) {
        None => Err(CodecError::Malformed),
        Some((cs, ce)) => {
            let bytes = slice_range(buf, cs, ce);
            match bytes_to_string(bytes) {
                None => Err(CodecError::Malformed),
                Some(s) => {
                    proof {
                        vstd::utf8::decode_utf8_encode_utf8(buf@.subrange(cs as int, ce as int));
                    }
                    match dec_str_items(buf, ce) {
                        Err(e) => Err(e),
                        Ok(mut rest) => {
                            let ghost tailv = rest@;
                            rest.insert(0, s);
                            proof {
                                assert(rest@.map_values(|x: String| encode_utf8(x@)) =~= seq![
                                    buf@.subrange(cs as int, ce as int),
                                ] + tailv.map_values(|x: String| encode_utf8(x@)));
                            }
                            Ok(rest)
                        },
                    }
                },
            }
        },
    }
}

/// Reads a stored state back, exactly as `spec_dec_config` does.
pub fn decode_config(buf: &[u8]) -> (r: Result<Config, CodecError>)
    ensures
        match r {
            Ok(c) => spec_dec_config(buf@) == Ok::<ConfigV, CodecError>(c@),
            Err(e) => spec_dec_config(buf@) == Err::<ConfigV, CodecError>(e),
        },
{
    if buf.len() == 0 || buf[0] != 100 {
        return Err(CodecError::Malformed);
    }
    match skip_dict_items(buf, 1) {
        None => {
            return Err(CodecError::Malformed);
        },
        Some(p) => {
            if p != buf.len() {
                proof {
                    assert(buf@.skip(p as int).len() > 0);
                    assert(!spec_envelope_frame_ok(buf@));
                }
                return Err(CodecError::Malformed);
            }
            proof {
                assert(buf@.skip(p as int) =~= Seq::<u8>::empty());
            }
        },
    }
    let kd = [100u8, 104, 116, 95, 105, 100];
    proof {
        assert(kd@ =~= key_dht_id());
    }
    let dht_id = match dec_id_field(buf, 1, kd.as_slice()) {
        Ok(id) => id,
        Err(e) => {
            return Err(e);
        },
    };
    let kp = [112u8, 101, 101, 114, 115];
    proof {
        assert(kp@ =~= key_peers());
    }
    let pv = match find_key(buf, 1, kp.as_slice()) {
        None => {
            return Err(CodecError::Malformed);
        },
        Some(p) => p,
    };
    if pv >= buf.len() || buf[pv] != 108 {
        return Err(CodecError::Malformed);
    }
    proof {
        assert(buf@.skip(pv as int).skip(1) =~= buf@.skip(pv as int + 1));
    }
    match dec_str_items(buf, pv + 1) {
        Ok(peers) => Ok(Config { dht_id, peers }),
        Err(e) => Err(e),
    }
}
} // verus!
