//! IP-bound node identities.
//!
//! A node may not pick its 160-bit identifier freely: the first 21
//! bits must equal the top bits of a CRC32C over its masked external
//! IP address, salted with the low three bits of the identifier's
//! last byte.  That ties identities to addresses and blunts attacks
//! that park chosen identifiers next to a target.

use vstd::prelude::*;
use crate::dht::DhtId;

verus! {

/// An IP address as plain octets.
#[derive(Clone, Copy, Debug, PartialEq, Eq)]
pub enum NodeIp {
    V4([u8; 4]),
    V6([u8; 16]),
}

/// Names the CRC32C (Castagnoli) checksum of a byte sequence, the
/// function `crc32c_hw::compute` computes.
pub uninterp spec fn crc32c_of(data: Seq<u8>) -> u32;

/// Relies on `crc32c_hw::compute`: the CRC32C of the bytes, a
/// function of the data alone.
#[verifier::external_body]
fn crc32c(data: &Vec<u8>) -> (r: u32)
    ensures
        r == crc32c_of(data@),
{
    crc32c_hw::compute(data.as_slice())
}

/// The per-version octet masks.
pub open spec fn v4_mask() -> Seq<u8> {
    seq![0x03u8, 0x0f, 0x3f, 0xff]
}

pub open spec fn v6_mask() -> Seq<u8> {
    seq![0x01u8, 0x03, 0x07, 0x0f, 0x1f, 0x3f, 0x7f, 0xff]
}

/// Masks the leading octets against `mask` and folds the salt's low
/// three bits into the high bits of the first byte.
pub open spec fn spec_masked(octets: Seq<u8>, mask: Seq<u8>, r: u8) -> Seq<u8>
    recommends
        mask.len() <= octets.len(),
{
    Seq::new(
        mask.len(),
        |i: int|
            if i == 0 {
                (octets[0] & mask[0]) | (r << 5)
            } else {
                octets[i] & mask[i]
            },
    )
}

/// The CRC input for an address: its masked leading octets.
pub open spec fn spec_masked_ip(ip: NodeIp, r: u8) -> Seq<u8> {
    match ip {
        NodeIp::V4(o) => spec_masked(o@, v4_mask(), r),
        NodeIp::V6(o) => spec_masked(o@, v6_mask(), r),
    }
}

/// The identity layout the CRC dictates: the first two bytes carry
/// the CRC's top 16 bits and the third byte's top 5 bits carry the
/// next 5, so 21 bits in all are pinned.
pub open spec fn id_matches_crc(id: Seq<u8>, crc: u32) -> bool {
    &&& id.len() == 20
    &&& id[0] == ((crc >> 24) & 0xff) as u8
    &&& id[1] == ((crc >> 16) & 0xff) as u8
    &&& id[2] & 0xf8 == (((crc >> 8) & 0xff) as u8) & 0xf8
}

/// Computes the checksum an identity for `ip` must embed, salted
/// with `r` (only its low three bits matter, shifted into the first
/// masked byte).
pub fn get_crc(ip: &NodeIp, r: u8) -> (c: u32)
    ensures
        c == crc32c_of(spec_masked_ip(*ip, r)),
{
    let mut masked: Vec<u8> = Vec::new();
    match ip {
        NodeIp::V4(o) => {
            masked.push((o[0] & 0x03) | (r << 5));
            masked.push(o[1] & 0x0f);
            masked.push(o[2] & 0x3f);
            masked.push(o[3] & 0xff);
            proof {
                assert(masked@ =~= spec_masked(o@, v4_mask(), r));
            }
        },
        NodeIp::V6(o) => {
            masked.push((o[0] & 0x01) | (r << 5));
            masked.push(o[1] & 0x03);
            masked.push(o[2] & 0x07);
            masked.push(o[3] & 0x0f);
            masked.push(o[4] & 0x1f);
            masked.push(o[5] & 0x3f);
            masked.push(o[6] & 0x7f);
            masked.push(o[7] & 0xff);
            proof {
                assert(masked@ =~= spec_masked(o@, v6_mask(), r));
            }
        },
    }
    crc32c(&masked)
}

/// Draws a fresh identity for a node at `self_ip`: a random
/// candidate whose first 21 bits are then replaced by the checksum
/// of the masked address, salted with the candidate's (kept) last
/// byte.  Whatever the randomness returned, the result embeds the
/// checksum that belongs to this address and to the result's own
/// last byte.
pub fn gen_self_id(self_ip: &NodeIp) -> (id: DhtId)
    ensures
        id_matches_crc(id.0@, crc32c_of(spec_masked_ip(*self_ip, id.0@[19] as u8))),
{
    let mut id = DhtId::new();
    let crc = get_crc(self_ip, id.0[19]);
    let b0 = ((crc >> 24) & 0xff) as u8;
    let b1 = ((crc >> 16) & 0xff) as u8;
    let b2 = (((crc >> 8) & 0xff) as u8) & 0xf8;
    let orig2 = id.0[2];
    id.0[0] = b0;
    id.0[1] = b1;
    id.0[2] = b2 | (orig2 & 0x07);
    proof {
        assert((b2 | (orig2 & 0x07)) & 0xf8 == b2) by (bit_vector)
            requires
                b2 == (((crc >> 8) & 0xff) as u8) & 0xf8,
        ;
    }
    id
}

/// The 21 identity bits pinned by `id_matches_crc` spell exactly the
/// checksum's top 21 bits.
pub proof fn lemma_id_prefix_is_crc(id0: u8, id1: u8, id2: u8, crc: u32)
    requires
        id0 == ((crc >> 24) & 0xff) as u8,
        id1 == ((crc >> 16) & 0xff) as u8,
        id2 & 0xf8 == (((crc >> 8) & 0xff) as u8) & 0xf8,
    ensures
        ((id0 as u32) << 13) | ((id1 as u32) << 5) | ((id2 as u32) >> 3) == crc >> 11,
{
    assert(((id0 as u32) << 13) | ((id1 as u32) << 5) | ((id2 as u32) >> 3) == crc >> 11)
        by (bit_vector)
        requires
            id0 == ((crc >> 24) & 0xff) as u8,
            id1 == ((crc >> 16) & 0xff) as u8,
            id2 & 0xf8 == (((crc >> 8) & 0xff) as u8) & 0xf8,
    ;
}

} // verus!
