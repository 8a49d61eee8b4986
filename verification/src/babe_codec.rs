//! Encoding and decoding of BABE epoch information blobs.
//!
//! The wire format, little-endian throughout: the epoch index (8 bytes), an
//! optional start slot (presence byte, then 8 bytes), the authority count
//! as a SCALE compact integer, then for each authority a 32-byte public key
//! and an 8-byte weight, then 32 bytes of randomness, the two 8-byte halves
//! of the slot-probability fraction, and one byte for the allowed-slots
//! category.
//!
//! Decoding is canonical: a compact integer must use its shortest form, the
//! whole input must be consumed, and the decoded value must satisfy the
//! epoch validity rules, else decoding fails.

use vstd::prelude::*;

use vstd::slice::{slice_subrange, slice_to_vec};

use crate::consensus::{BabeAllowedSlots, BabeAuthority, BabeEpochInformation};
use crate::errors::CorruptedError;

verus! {

// --- little-endian numbers as byte sequences ---

/// 256 to the power `k`.
pub open spec fn pow256(k: nat) -> int
    decreases k,
{
    if k == 0 {
        1
    } else {
        256 * pow256((k - 1) as nat)
    }
}

/// The number a byte sequence denotes in little-endian order.
pub open spec fn le_val(s: Seq<u8>) -> int
    decreases s.len(),
{
    if s.len() == 0 {
        0
    } else {
        s[0] + 256 * le_val(s.skip(1))
    }
}

/// The `k`-byte little-endian encoding of `v`.
pub open spec fn le_bytes(v: int, k: nat) -> Seq<u8>
    decreases k,
{
    if k == 0 {
        Seq::empty()
    } else {
        seq![(v % 256) as u8] + le_bytes(v / 256, (k - 1) as nat)
    }
}

pub proof fn lemma_le_bytes_len(v: int, k: nat)
    ensures
        le_bytes(v, k).len() == k,
    decreases k,
{
    if k > 0 {
        lemma_le_bytes_len(v / 256, (k - 1) as nat);
    }
}

pub proof fn lemma_le_val_bound(s: Seq<u8>)
    ensures
        0 <= le_val(s) < pow256(s.len()),
    decreases s.len(),
{
    if s.len() > 0 {
        lemma_le_val_bound(s.skip(1));
        assert(256 * le_val(s.skip(1)) <= 256 * (pow256(s.skip(1).len()) - 1)) by (
        nonlinear_arith)
            requires
                le_val(s.skip(1)) <= pow256(s.skip(1).len()) - 1,
        ;
    }
}

pub proof fn lemma_le_roundtrip(v: int, k: nat)
    requires
        0 <= v < pow256(k),
    ensures
        le_val(le_bytes(v, k)) == v,
    decreases k,
{
    if k > 0 {
        lemma_le_bytes_len(v, k);
        assert(v / 256 < pow256((k - 1) as nat)) by (nonlinear_arith)
            requires
                0 <= v < 256 * pow256((k - 1) as nat),
        ;
        lemma_le_roundtrip(v / 256, (k - 1) as nat);
        assert(le_bytes(v, k).skip(1) =~= le_bytes(v / 256, (k - 1) as nat));
    }
}

/// Trailing zero bytes do not change the denoted value.
pub proof fn lemma_le_val_pad(s: Seq<u8>, m: nat)
    ensures
        le_val(s + Seq::new(m, |_j: int| 0u8)) == le_val(s),
    decreases s.len(), m,
{
    if s.len() == 0 {
        if m == 0 {
            assert(s + Seq::new(0, |_j: int| 0u8) =~= s);
        } else {
            let z = Seq::new(m, |_j: int| 0u8);
            assert((s + z).skip(1) =~= Seq::<u8>::empty() + Seq::new(
                (m - 1) as nat,
                |_j: int| 0u8,
            ));
            lemma_le_val_pad(Seq::empty(), (m - 1) as nat);
            assert((s + z)[0] == 0);
            assert(le_val(Seq::<u8>::empty()) == 0);
        }
    } else {
        assert((s + Seq::new(m, |_j: int| 0u8)).skip(1) =~= s.skip(1) + Seq::new(
            m,
            |_j: int| 0u8,
        ));
        lemma_le_val_pad(s.skip(1), m);
    }
}

/// The most significant byte of a `k`-byte encoding.
pub proof fn lemma_le_bytes_last(v: int, k: nat)
    requires
        k >= 1,
        0 <= v,
    ensures
        le_bytes(v, k).len() == k,
        le_bytes(v, k)[k - 1] == ((v / pow256((k - 1) as nat)) % 256) as u8,
    decreases k,
{
    lemma_le_bytes_len(v, k);
    if k == 1 {
    } else {
        lemma_le_bytes_last(v / 256, (k - 1) as nat);
        lemma_pow256_pos((k - 2) as nat);
        assert(le_bytes(v, k)[k - 1] == le_bytes(v / 256, (k - 1) as nat)[k - 2]);
        assert(v / 256 / pow256((k - 2) as nat) == v / pow256((k - 1) as nat)) by (
        nonlinear_arith)
            requires
                v >= 0,
                pow256((k - 2) as nat) > 0,
                pow256((k - 1) as nat) == 256 * pow256((k - 2) as nat),
        ;
    }
}

pub proof fn lemma_pow256_pos(k: nat)
    ensures
        pow256(k) >= 1,
    decreases k,
{
    if k > 0 {
        lemma_pow256_pos((k - 1) as nat);
    }
}

// --- views ---

/// Mathematical view of one BABE authority.
pub ghost struct BabeAuthorityView {
    pub public_key: Seq<u8>,
    pub weight: u64,
}

/// Mathematical view of a BABE epoch information value.
pub ghost struct BabeEpochInfoView {
    pub epoch_index: u64,
    pub start_slot_number: Option<u64>,
    pub authorities: Seq<BabeAuthorityView>,
    pub randomness: Seq<u8>,
    pub c_num: u64,
    pub c_den: u64,
    pub allowed_slots: BabeAllowedSlots,
}

pub open spec fn authority_view(a: BabeAuthority) -> BabeAuthorityView {
    BabeAuthorityView { public_key: a.public_key@, weight: a.weight }
}

pub open spec fn epoch_info_view(e: BabeEpochInformation) -> BabeEpochInfoView {
    BabeEpochInfoView {
        epoch_index: e.epoch_index,
        start_slot_number: e.start_slot_number,
        authorities: e.authorities@.map_values(|a: BabeAuthority| authority_view(a)),
        randomness: e.randomness@,
        c_num: e.c_num,
        c_den: e.c_den,
        allowed_slots: e.allowed_slots,
    }
}

/// Validity of an epoch view: what the engine accepts when decoding and
/// what the round trip preserves.
pub open spec fn epoch_view_wf(v: BabeEpochInfoView) -> bool {
    &&& forall|i: int|
        0 <= i < v.authorities.len() ==> (#[trigger] v.authorities[i]).public_key.len() == 32
    &&& v.randomness.len() == 32
    &&& v.c_num <= v.c_den
    &&& v.c_den != 0
    &&& (v.epoch_index != 0 ==> v.start_slot_number.is_some())
}

pub open spec fn allowed_slots_byte(a: BabeAllowedSlots) -> u8 {
    match a {
        BabeAllowedSlots::PrimarySlots => 0,
        BabeAllowedSlots::PrimaryAndSecondaryPlainSlots => 1,
        BabeAllowedSlots::PrimaryAndSecondaryVrfSlots => 2,
    }
}

// --- SCALE compact integers ---

/// How many bytes the big-integer form of a compact integer needs.
pub open spec fn compact_big_len(n: u64) -> nat {
    if n < 0x1_0000_0000 {
        4
    } else if n < 0x100_0000_0000 {
        5
    } else if n < 0x1_0000_0000_0000 {
        6
    } else if n < 0x100_0000_0000_0000 {
        7
    } else {
        8
    }
}

/// Shortest SCALE compact encoding of `n`.
pub open spec fn spec_compact_encode(n: u64) -> Seq<u8> {
    if n < 64 {
        seq![(n * 4) as u8]
    } else if n < 16384 {
        le_bytes(n * 4 + 1, 2)
    } else if n < 0x4000_0000 {
        le_bytes(n * 4 + 2, 4)
    } else {
        let l = compact_big_len(n);
        seq![(((l - 4) * 4 + 3) as u8)] + le_bytes(n as int, l)
    }
}

/// Parses a canonical SCALE compact integer at offset `i`; yields the value
/// and the offset after it.
pub open spec fn spec_compact_parse(s: Seq<u8>, i: int) -> Option<(u64, int)> {
    if !(0 <= i < s.len()) {
        None
    } else {
        let b = s[i];
        if b % 4 == 0 {
            Some(((b / 4) as u64, i + 1))
        } else if b % 4 == 1 {
            if i + 2 <= s.len() {
                let v = le_val(s.subrange(i, i + 2)) / 4;
                if v >= 64 {
                    Some((v as u64, i + 2))
                } else {
                    None
                }
            } else {
                None
            }
        } else if b % 4 == 2 {
            if i + 4 <= s.len() {
                let v = le_val(s.subrange(i, i + 4)) / 4;
                if v >= 16384 {
                    Some((v as u64, i + 4))
                } else {
                    None
                }
            } else {
                None
            }
        } else {
            let l = (b / 4) + 4;
            if l <= 8 && i + 1 + l <= s.len() {
                let v = le_val(s.subrange(i + 1, i + 1 + l));
                if (if l == 4 {
                    v >= 0x4000_0000
                } else {
                    s[i + l] != 0
                }) {
                    Some((v as u64, i + 1 + l))
                } else {
                    None
                }
            } else {
                None
            }
        }
    }
}

// --- parsing pieces ---

pub open spec fn spec_parse_u64(s: Seq<u8>, i: int) -> Option<(u64, int)> {
    if 0 <= i && i + 8 <= s.len() {
        Some((le_val(s.subrange(i, i + 8)) as u64, i + 8))
    } else {
        None
    }
}

pub open spec fn spec_parse_authorities(s: Seq<u8>, i: int, n: nat) -> Option<
    (Seq<BabeAuthorityView>, int),
>
    decreases n,
{
    if n == 0 {
        Some((Seq::empty(), i))
    } else if 0 <= i && i + 40 <= s.len() {
        let pk = s.subrange(i, i + 32);
        let w = le_val(s.subrange(i + 32, i + 40)) as u64;
        match spec_parse_authorities(s, i + 40, (n - 1) as nat) {
            Some((rest, j)) => Some(
                (seq![BabeAuthorityView { public_key: pk, weight: w }] + rest, j),
            ),
            None => None,
        }
    } else {
        None
    }
}

/// Full decoding of a BABE epoch blob; `None` when the blob is not a
/// canonical encoding of a valid epoch.
pub open spec fn spec_decode_babe_epoch(s: Seq<u8>) -> Option<BabeEpochInfoView> {
    match spec_parse_u64(s, 0) {
        None => None,
        Some((epoch_index, i1)) => {
            if !(i1 < s.len() && (s[i1] == 0 || s[i1] == 1)) {
                None
            } else {
                let start = if s[i1] == 1 {
                    match spec_parse_u64(s, i1 + 1) {
                        None => None,
                        Some((v, j)) => Some((Some(v), j)),
                    }
                } else {
                    Some((None::<u64>, i1 + 1))
                };
                match start {
                    None => None,
                    Some((start_slot_number, i2)) => match spec_compact_parse(s, i2) {
                        None => None,
                        Some((n, i3)) => match spec_parse_authorities(s, i3, n as nat) {
                            None => None,
                            Some((authorities, i4)) => {
                                if !(i4 + 32 + 8 + 8 + 1 == s.len()) {
                                    None
                                } else {
                                    let randomness = s.subrange(i4, i4 + 32);
                                    let c_num = le_val(s.subrange(i4 + 32, i4 + 40)) as u64;
                                    let c_den = le_val(s.subrange(i4 + 40, i4 + 48)) as u64;
                                    let ab = s[i4 + 48];
                                    if !(ab == 0 || ab == 1 || ab == 2) {
                                        None
                                    } else {
                                        let v = BabeEpochInfoView {
                                            epoch_index,
                                            start_slot_number,
                                            authorities,
                                            randomness,
                                            c_num,
                                            c_den,
                                            allowed_slots: if ab == 0 {
                                                BabeAllowedSlots::PrimarySlots
                                            } else if ab == 1 {
                                                BabeAllowedSlots::PrimaryAndSecondaryPlainSlots
                                            } else {
                                                BabeAllowedSlots::PrimaryAndSecondaryVrfSlots
                                            },
                                        };
                                        if epoch_view_wf(v) {
                                            Some(v)
                                        } else {
                                            None
                                        }
                                    }
                                }
                            },
                        },
                    },
                }
            }
        },
    }
}

pub open spec fn spec_encode_authorities(a: Seq<BabeAuthorityView>) -> Seq<u8>
    decreases a.len(),
{
    if a.len() == 0 {
        Seq::empty()
    } else {
        a[0].public_key + le_bytes(a[0].weight as int, 8) + spec_encode_authorities(a.skip(1))
    }
}

/// Full encoding of a BABE epoch value.
pub open spec fn spec_encode_babe_epoch(v: BabeEpochInfoView) -> Seq<u8> {
    le_bytes(v.epoch_index as int, 8) + (match v.start_slot_number {
        Some(x) => seq![1u8] + le_bytes(x as int, 8),
        None => seq![0u8],
    }) + spec_compact_encode(v.authorities.len() as u64) + spec_encode_authorities(v.authorities)
        + v.randomness + le_bytes(v.c_num as int, 8) + le_bytes(v.c_den as int, 8) + seq![
        allowed_slots_byte(v.allowed_slots),
    ]
}

// --- exec helpers ---

/// Appends a slice to a byte vector.
fn push_bytes(out: &mut Vec<u8>, s: &[u8])
    ensures
        final(out)@ == old(out)@ + s@,
{
    let mut i: usize = 0;
    while i < s.len()
        invariant
            i <= s@.len(),
            out@ == old(out)@ + s@.take(i as int),
        decreases s@.len() - i,
    {
        out.push(s[i]);
        proof {
            assert(out@ =~= old(out)@ + s@.take(i as int + 1));
        }
        i += 1;
    }
    proof {
        assert(old(out)@ + s@.take(s@.len() as int) =~= old(out)@ + s@);
    }
}

/// Appends the `k`-byte little-endian encoding of `v`.
fn push_le(out: &mut Vec<u8>, v: u64, k: usize)
    requires
        k <= 8,
    ensures
        final(out)@ == old(out)@ + le_bytes(v as int, k as nat),
{
    let mut cur: u64 = v;
    let mut j: usize = 0;
    while j < k
        invariant
            j <= k,
            le_bytes(v as int, k as nat) == out@.skip(old(out)@.len() as int) + le_bytes(
                cur as int,
                (k - j) as nat,
            ),
            out@.len() == old(out)@.len() + j,
            out@.take(old(out)@.len() as int) == old(out)@,
        decreases k - j,
    {
        let ghost pre = out@;
        out.push((cur % 256) as u8);
        proof {
            assert(out@.skip(old(out)@.len() as int) =~= pre.skip(old(out)@.len() as int) + seq![
                (((cur as int) % 256) as u8),
            ]);
            assert(le_bytes(cur as int, (k - j) as nat) == seq![(((cur as int) % 256) as u8)]
                + le_bytes((cur as int) / 256, (k - j - 1) as nat));
            assert(pre.skip(old(out)@.len() as int) + le_bytes(cur as int, (k - j) as nat)
                =~= out@.skip(old(out)@.len() as int) + le_bytes(
                (cur as int) / 256,
                (k - j - 1) as nat,
            ));
            assert(out@.take(old(out)@.len() as int) =~= old(out)@);
        }
        cur = cur / 256;
        j += 1;
    }
    proof {
        assert(le_bytes(cur as int, 0) =~= Seq::<u8>::empty());
        assert(out@.skip(old(out)@.len() as int) + Seq::<u8>::empty() =~= out@.skip(
            old(out)@.len() as int,
        ));
        assert(out@ =~= out@.take(old(out)@.len() as int) + out@.skip(old(out)@.len() as int));
    }
}

/// Reads the number denoted by an 8-byte buffer.
fn read_le8(p: &[u8]) -> (v: u64)
    requires
        p@.len() == 8,
    ensures
        v == le_val(p@),
{
    let v7: u64 = p[7] as u64;
    let v6: u64 = p[6] as u64 + 256 * v7;
    let v5: u64 = p[5] as u64 + 256 * v6;
    let v4: u64 = p[4] as u64 + 256 * v5;
    let v3: u64 = p[3] as u64 + 256 * v4;
    let v2: u64 = p[2] as u64 + 256 * v3;
    let v1: u64 = p[1] as u64 + 256 * v2;
    let v0: u64 = p[0] as u64 + 256 * v1;
    proof {
        reveal_with_fuel(le_val, 9);
        assert(p@.skip(1).skip(1) =~= p@.skip(2));
        assert(p@.skip(2).skip(1) =~= p@.skip(3));
        assert(p@.skip(3).skip(1) =~= p@.skip(4));
        assert(p@.skip(4).skip(1) =~= p@.skip(5));
        assert(p@.skip(5).skip(1) =~= p@.skip(6));
        assert(p@.skip(6).skip(1) =~= p@.skip(7));
        assert(p@.skip(7).skip(1) =~= p@.skip(8));
        assert(p@.skip(8).len() == 0);
    }
    v0
}

/// Reads the `l` bytes at `s[i..i+l]` as a little-endian number.
fn read_le(s: &[u8], i: usize, l: usize) -> (v: u64)
    requires
        l <= 8,
        i + l <= s@.len(),
    ensures
        v == le_val(s@.subrange(i as int, i as int + l as int)),
{
    let slen: usize = s.len();
    let mut padded = slice_to_vec(slice_subrange(s, i, i + l));
    while padded.len() < 8
        invariant
            l <= padded@.len() <= 8,
            padded@.take(l as int) == s@.subrange(i as int, i as int + l as int),
            forall|k: int| l <= k < padded@.len() ==> padded@[k] == 0u8,
        decreases 8 - padded@.len(),
    {
        padded.push(0u8);
        proof {
            assert(padded@.take(l as int) =~= s@.subrange(i as int, i as int + l as int));
        }
    }
    let v = read_le8(padded.as_slice());
    proof {
        assert(padded@ =~= s@.subrange(i as int, i as int + l as int) + Seq::new(
            (8 - l) as nat,
            |_j: int| 0u8,
        ));
        lemma_le_val_pad(s@.subrange(i as int, i as int + l as int), (8 - l) as nat);
    }
    v
}

/// Appends the shortest compact encoding of `n`.
fn push_compact(out: &mut Vec<u8>, n: u64)
    ensures
        final(out)@ == old(out)@ + spec_compact_encode(n),
{
    if n < 64 {
        out.push((n as u8) * 4);
        proof {
            assert(out@ =~= old(out)@ + seq![((n * 4) as u8)]);
        }
    } else if n < 16384 {
        push_le(out, n * 4 + 1, 2);
    } else if n < 0x4000_0000 {
        push_le(out, n * 4 + 2, 4);
    } else {
        let l: usize = if n < 0x1_0000_0000 {
            4
        } else if n < 0x100_0000_0000 {
            5
        } else if n < 0x1_0000_0000_0000 {
            6
        } else if n < 0x100_0000_0000_0000 {
            7
        } else {
            8
        };
        let tag: u8 = ((l as u8) - 4) * 4 + 3;
        out.push(tag);
        let ghost mid = out@;
        push_le(out, n, l);
        proof {
            assert(mid =~= old(out)@ + seq![((((l - 4) * 4 + 3)) as u8)]);
            assert(out@ =~= old(out)@ + spec_compact_encode(n));
        }
    }
}

// --- public codec functions ---

/// Encodes a BABE epoch information value into its storage blob.
pub fn encode_babe_epoch_information(info: &BabeEpochInformation) -> (r: Vec<u8>)
    ensures
        r@ == spec_encode_babe_epoch(epoch_info_view(*info)),
{
    let ghost v = epoch_info_view(*info);
    let mut out: Vec<u8> = Vec::new();
    push_le(&mut out, info.epoch_index, 8);
    proof {
        assert(out@ =~= le_bytes(v.epoch_index as int, 8));
    }
    match info.start_slot_number {
        Some(x) => {
            out.push(1u8);
            let ghost mid = out@;
            push_le(&mut out, x, 8);
            proof {
                assert(mid =~= le_bytes(v.epoch_index as int, 8) + seq![1u8]);
                assert(out@ =~= le_bytes(v.epoch_index as int, 8) + (seq![1u8] + le_bytes(
                    x as int,
                    8,
                )));
            }
        },
        None => {
            out.push(0u8);
            proof {
                assert(out@ =~= le_bytes(v.epoch_index as int, 8) + seq![0u8]);
            }
        },
    }
    let ghost head = out@;
    push_compact(&mut out, info.authorities.len() as u64);
    let ghost pre_auths = out@;
    let mut i: usize = 0;
    while i < info.authorities.len()
        invariant
            i <= info.authorities@.len(),
            v.authorities == info.authorities@.map_values(|a: BabeAuthority| authority_view(a)),
            out@ == pre_auths + spec_encode_authorities(v.authorities.take(i as int)),
        decreases info.authorities@.len() - i,
    {
        push_bytes(&mut out, info.authorities[i].public_key.as_slice());
        push_le(&mut out, info.authorities[i].weight, 8);
        proof {
            lemma_encode_authorities_snoc(v.authorities, i as int);
            assert(out@ =~= pre_auths + spec_encode_authorities(
                v.authorities.take(i as int + 1),
            ));
        }
        i += 1;
    }
    proof {
        assert(v.authorities.take(v.authorities.len() as int) =~= v.authorities);
    }
    push_bytes(&mut out, info.randomness.as_slice());
    push_le(&mut out, info.c_num, 8);
    push_le(&mut out, info.c_den, 8);
    let ab: u8 = match info.allowed_slots {
        BabeAllowedSlots::PrimarySlots => 0,
        BabeAllowedSlots::PrimaryAndSecondaryPlainSlots => 1,
        BabeAllowedSlots::PrimaryAndSecondaryVrfSlots => 2,
    };
    out.push(ab);
    proof {
        assert(out@ =~= spec_encode_babe_epoch(v));
    }
    out
}

/// Appending one authority extends the encoding by that authority.
proof fn lemma_encode_authorities_snoc(a: Seq<BabeAuthorityView>, i: int)
    requires
        0 <= i < a.len(),
    ensures
        spec_encode_authorities(a.take(i + 1)) == spec_encode_authorities(a.take(i))
            + a[i].public_key + le_bytes(a[i].weight as int, 8),
    decreases i,
{
    lemma_le_bytes_len(a[i].weight as int, 8);
    lemma_le_bytes_len(a[0].weight as int, 8);
    reveal_with_fuel(spec_encode_authorities, 3);
    if i == 0 {
        assert(a.take(1).skip(1) =~= Seq::<BabeAuthorityView>::empty());
        assert(a.take(1)[0] == a[0]);
        assert(spec_encode_authorities(a.take(1)) =~= a[0].public_key + le_bytes(
            a[0].weight as int,
            8,
        ));
        assert(spec_encode_authorities(a.take(0)) =~= Seq::<u8>::empty());
        assert(spec_encode_authorities(a.take(0)) + a[0].public_key + le_bytes(
            a[0].weight as int,
            8,
        ) =~= a[0].public_key + le_bytes(a[0].weight as int, 8));
    } else {
        lemma_encode_authorities_snoc(a.skip(1), i - 1);
        assert(a.take(i + 1).skip(1) =~= a.skip(1).take(i));
        assert(a.take(i).skip(1) =~= a.skip(1).take(i - 1));
        assert(a.take(i + 1)[0] == a[0]);
        assert(a.take(i)[0] == a[0]);
        assert(a.skip(1)[i - 1] == a[i]);
        assert(spec_encode_authorities(a.take(i + 1)) == a[0].public_key + le_bytes(
            a[0].weight as int,
            8,
        ) + spec_encode_authorities(a.skip(1).take(i)));
        assert(spec_encode_authorities(a.take(i)) == a[0].public_key + le_bytes(
            a[0].weight as int,
            8,
        ) + spec_encode_authorities(a.skip(1).take(i - 1)));
        assert(spec_encode_authorities(a.take(i + 1)) =~= spec_encode_authorities(a.take(i))
            + a[i].public_key + le_bytes(a[i].weight as int, 8));
    }
}

/// Parses a canonical compact integer at offset `i` of `s`.
fn compact_parse(s: &[u8], i: usize) -> (r: Option<(u64, usize)>)
    requires
        i <= s@.len(),
    ensures
        match r {
            Some((v, j)) => spec_compact_parse(s@, i as int) == Some((v, j as int)) && i < j
                <= s@.len(),
            None => spec_compact_parse(s@, i as int) is None,
        },
{
    if i >= s.len() {
        return None;
    }
    let slen: usize = s.len();
    let b = s[i];
    if b % 4 == 0 {
        Some(((b / 4) as u64, i + 1))
    } else if b % 4 == 1 {
        if slen - i >= 2 {
            let raw = read_le(s, i, 2);
            proof {
                lemma_le_val_bound(s@.subrange(i as int, i as int + 2));
            }
            let v = raw / 4;
            if v >= 64 {
                Some((v, i + 2))
            } else {
                None
            }
        } else {
            None
        }
    } else if b % 4 == 2 {
        if slen - i >= 4 {
            let raw = read_le(s, i, 4);
            proof {
                lemma_le_val_bound(s@.subrange(i as int, i as int + 4));
            }
            let v = raw / 4;
            if v >= 16384 {
                Some((v, i + 4))
            } else {
                None
            }
        } else {
            None
        }
    } else {
        let l: usize = ((b / 4) as usize) + 4;
        if l <= 8 && slen - i > l {
            let v = read_le(s, i + 1, l);
            let ok = if l == 4 {
                v >= 0x4000_0000
            } else {
                s[i + l] != 0
            };
            if ok {
                Some((v, i + 1 + l))
            } else {
                None
            }
        } else {
            None
        }
    }
}

/// Decodes a BABE epoch information blob.
pub fn decode_babe_epoch_information(value: &[u8]) -> (r: Result<
    BabeEpochInformation,
    CorruptedError,
>)
    ensures
        match r {
            Ok(e) => spec_decode_babe_epoch(value@) == Some(epoch_info_view(e)) && e.wf(),
            Err(err) => err == CorruptedError::InvalidBabeEpochInformation
                && spec_decode_babe_epoch(value@) is None,
        },
{
    let s = value;
    let slen: usize = s.len();
    if slen < 8 {
        return Err(CorruptedError::InvalidBabeEpochInformation);
    }
    let epoch_index = read_le(s, 0, 8);
    let i1: usize = 8;
    if i1 >= slen || (s[i1] != 0 && s[i1] != 1) {
        return Err(CorruptedError::InvalidBabeEpochInformation);
    }
    let (start_slot_number, i2): (Option<u64>, usize) = if s[i1] == 1 {
        if i1 + 9 > slen {
            return Err(CorruptedError::InvalidBabeEpochInformation);
        }
        (Some(read_le(s, i1 + 1, 8)), i1 + 9)
    } else {
        (None, i1 + 1)
    };
    let (n, i3): (u64, usize) = match compact_parse(s, i2) {
        Some(p) => p,
        None => {
            return Err(CorruptedError::InvalidBabeEpochInformation);
        },
    };
    // Each authority record takes 40 bytes; an impossible count fails fast.
    if n > ((slen - i3) / 40) as u64 {
        proof {
            lemma_parse_authorities_bound(s@, i3 as int, n as nat);
        }
        return Err(CorruptedError::InvalidBabeEpochInformation);
    }
    let n_us: usize = n as usize;
    let mut authorities: Vec<BabeAuthority> = Vec::new();
    let mut j: usize = 0;
    let mut pos: usize = i3;
    proof {
        lemma_parse_authorities_shape(s@, i3 as int, n as nat);
    }
    while j < n_us
        invariant
            j <= n_us,
            n_us == n,
            i2 <= i3 <= s@.len(),
            s@.len() <= usize::MAX,
            pos == i3 + 40 * j,
            i3 + 40 * (n as int) <= s@.len(),
            (spec_parse_authorities(s@, i3 as int, n as nat) is Some),
            authorities@.len() == j,
            authorities@.map_values(|a: BabeAuthority| authority_view(a))
                =~= spec_parse_authorities(s@, i3 as int, n as nat).unwrap().0.take(j as int),
            forall|k: int| 0 <= k < authorities@.len() ==> (#[trigger] authorities@[k]).wf(),
        decreases n_us - j,
    {
        let ghost pre = authorities@;
        let pk = slice_to_vec(slice_subrange(s, pos, pos + 32));
        let w = read_le(s, pos + 32, 8);
        authorities.push(BabeAuthority { public_key: pk, weight: w });
        proof {
            lemma_parse_authorities_shape(s@, i3 as int, n as nat);
            let full = spec_parse_authorities(s@, i3 as int, n as nat).unwrap().0;
            assert(s@.subrange(pos as int + 32, pos as int + 32 + 8) =~= s@.subrange(
                pos as int + 32,
                pos as int + 40,
            ));
            assert(full[j as int] == (BabeAuthorityView {
                public_key: s@.subrange(i3 + 40 * (j as int), i3 + 40 * (j as int) + 32),
                weight: le_val(
                    s@.subrange(i3 + 40 * (j as int) + 32, i3 + 40 * (j as int) + 40),
                ) as u64,
            }));
            let mapped = authorities@.map_values(|a: BabeAuthority| authority_view(a));
            let prev_mapped = pre.map_values(|a: BabeAuthority| authority_view(a));
            assert(mapped.len() == j + 1);
            assert forall|k: int| 0 <= k < j + 1 implies mapped[k] == full.take(j as int + 1)[k]
                by {
                if k < j {
                    assert(authorities@[k] == pre[k]);
                    assert(mapped[k] == authority_view(pre[k]));
                    assert(prev_mapped[k] == authority_view(pre[k]));
                    assert(prev_mapped[k] == full.take(j as int)[k]);
                } else {
                    assert(authorities@[k] == (BabeAuthority { public_key: pk, weight: w }));
                    assert(mapped[k] == authority_view(authorities@[k]));
                }
            }
            assert(mapped =~= full.take(j as int + 1));
        }
        j += 1;
        pos += 40;
    }
    let i4 = pos;
    if slen - i4 != 49 {
        return Err(CorruptedError::InvalidBabeEpochInformation);
    }
    let randomness = slice_to_vec(slice_subrange(s, i4, i4 + 32));
    let c_num = read_le(s, i4 + 32, 8);
    let c_den = read_le(s, i4 + 40, 8);
    let ab = s[i4 + 48];
    if ab != 0 && ab != 1 && ab != 2 {
        return Err(CorruptedError::InvalidBabeEpochInformation);
    }
    let allowed_slots = if ab == 0 {
        BabeAllowedSlots::PrimarySlots
    } else if ab == 1 {
        BabeAllowedSlots::PrimaryAndSecondaryPlainSlots
    } else {
        BabeAllowedSlots::PrimaryAndSecondaryVrfSlots
    };
    // The decoded value must satisfy the epoch validity rules.
    if c_num > c_den || c_den == 0 || (epoch_index != 0 && start_slot_number.is_none()) {
        return Err(CorruptedError::InvalidBabeEpochInformation);
    }
    let e = BabeEpochInformation {
        epoch_index,
        start_slot_number,
        authorities,
        randomness,
        c_num,
        c_den,
        allowed_slots,
    };
    proof {
        let full = spec_parse_authorities(s@, i3 as int, n as nat).unwrap();
        assert(full.0.take(full.0.len() as int) =~= full.0);
        assert(s@.subrange(i4 as int + 32, i4 as int + 32 + 8) =~= s@.subrange(
            i4 as int + 32,
            i4 as int + 40,
        ));
        assert(s@.subrange(i4 as int + 40, i4 as int + 40 + 8) =~= s@.subrange(
            i4 as int + 40,
            i4 as int + 48,
        ));
        assert(spec_decode_babe_epoch(s@) == Some(epoch_info_view(e)));
    }
    Ok(e)
}

/// The authority list parses exactly when all `n` records fit.
proof fn lemma_parse_authorities_bound(s: Seq<u8>, i: int, n: nat)
    requires
        0 <= i <= s.len(),
    ensures
        (spec_parse_authorities(s, i, n) is Some) <==> i + 40 * n <= s.len(),
    decreases n,
{
    if n > 0 {
        if i + 40 <= s.len() {
            lemma_parse_authorities_bound(s, i + 40, (n - 1) as nat);
        }
    }
}

/// Shape of a successful authority-list parse: `n` records of 40 bytes
/// each, read in order.
proof fn lemma_parse_authorities_shape(s: Seq<u8>, i: int, n: nat)
    requires
        0 <= i,
        i + 40 * n <= s.len(),
    ensures
        (spec_parse_authorities(s, i, n) is Some),
        spec_parse_authorities(s, i, n).unwrap().1 == i + 40 * n,
        spec_parse_authorities(s, i, n).unwrap().0.len() == n,
        forall|k: int|
            0 <= k < n ==> (#[trigger] spec_parse_authorities(s, i, n).unwrap().0[k]) == (
            BabeAuthorityView {
                public_key: s.subrange(i + 40 * k, i + 40 * k + 32),
                weight: le_val(s.subrange(i + 40 * k + 32, i + 40 * k + 40)) as u64,
            }),
    decreases n,
{
    if n > 0 {
        lemma_parse_authorities_shape(s, i + 40, (n - 1) as nat);
        let rest = spec_parse_authorities(s, i + 40, (n - 1) as nat).unwrap().0;
        let full = spec_parse_authorities(s, i, n).unwrap().0;
        assert forall|k: int| 0 <= k < n implies (#[trigger] full[k]) == (BabeAuthorityView {
            public_key: s.subrange(i + 40 * k, i + 40 * k + 32),
            weight: le_val(s.subrange(i + 40 * k + 32, i + 40 * k + 40)) as u64,
        }) by {
            if k > 0 {
                assert(full[k] == rest[k - 1]);
                assert(i + 40 + 40 * (k - 1) == i + 40 * k);
            }
        }
    }
}

} // verus!

// --- the round trip ---

verus! {

/// Length of the shortest compact encoding of `n`.
pub open spec fn compact_len(n: u64) -> int {
    if n < 64 {
        1
    } else if n < 16384 {
        2
    } else if n < 0x4000_0000 {
        4
    } else {
        1 + compact_big_len(n) as int
    }
}

pub proof fn lemma_compact_encode_len(n: u64)
    ensures
        spec_compact_encode(n).len() == compact_len(n),
{
    if n < 64 {
    } else if n < 16384 {
        lemma_le_bytes_len(n * 4 + 1, 2);
    } else if n < 0x4000_0000 {
        lemma_le_bytes_len(n * 4 + 2, 4);
    } else {
        lemma_le_bytes_len(n as int, compact_big_len(n));
    }
}

/// The encoded authority list takes 40 bytes per authority.
pub proof fn lemma_encode_authorities_len(a: Seq<BabeAuthorityView>)
    requires
        forall|i: int| 0 <= i < a.len() ==> (#[trigger] a[i]).public_key.len() == 32,
    ensures
        spec_encode_authorities(a).len() == 40 * a.len(),
    decreases a.len(),
{
    if a.len() > 0 {
        assert(forall|i: int|
            0 <= i < a.skip(1).len() ==> (#[trigger] a.skip(1)[i]).public_key.len() == 32);
        lemma_encode_authorities_len(a.skip(1));
        lemma_le_bytes_len(a[0].weight as int, 8);
    }
}

proof fn lemma_pow256_values()
    ensures
        pow256(1) == 0x100,
        pow256(2) == 0x1_0000,
        pow256(3) == 0x100_0000,
        pow256(4) == 0x1_0000_0000,
        pow256(5) == 0x100_0000_0000,
        pow256(6) == 0x1_0000_0000_0000,
        pow256(7) == 0x100_0000_0000_0000,
        pow256(8) == 0x1_0000_0000_0000_0000,
{
    reveal_with_fuel(pow256, 9);
}

proof fn lemma_mod256_mod4(x: int)
    requires
        x >= 0,
    ensures
        (x % 256) % 4 == x % 4,
{
    let q = x / 256;
    let r = x % 256;
    assert(x == 256 * q + r);
    assert((256 * q + r) % 4 == r % 4) by (nonlinear_arith)
        requires
            r >= 0,
            q >= 0,
    ;
}

/// A window into a sequence that equals `e` from offset `i` on can be cut
/// into the corresponding windows of `e`.
proof fn lemma_subrange_of_eq(s: Seq<u8>, i: int, e: Seq<u8>, a: int, b: int)
    requires
        0 <= i,
        i + e.len() <= s.len(),
        s.subrange(i, i + e.len()) == e,
        0 <= a <= b <= e.len(),
    ensures
        s.subrange(i + a, i + b) == e.subrange(a, b),
{
    assert forall|k: int| 0 <= k < b - a implies s.subrange(i + a, i + b)[k] == e.subrange(
        a,
        b,
    )[k] by {
        assert(s.subrange(i, i + e.len())[a + k] == e[a + k]);
    }
    assert(s.subrange(i + a, i + b) =~= e.subrange(a, b));
}

/// Parsing the encoding of a compact integer yields the integer back.
proof fn lemma_compact_roundtrip(s: Seq<u8>, i: int, n: u64)
    requires
        0 <= i,
        i + compact_len(n) <= s.len(),
        s.subrange(i, i + compact_len(n)) == spec_compact_encode(n),
    ensures
        spec_compact_parse(s, i) == Some((n, i + compact_len(n))),
{
    lemma_compact_encode_len(n);
    lemma_pow256_values();
    if n < 64 {
        assert(s[i] == spec_compact_encode(n)[0]);
        assert(s[i] == (n * 4) as u8);
        assert(s[i] % 4 == 0 && s[i] / 4 == n);
    } else if n < 16384 {
        let e = spec_compact_encode(n);
        let v: int = n * 4 + 1;
        lemma_le_roundtrip(v, 2);
        assert(s.subrange(i, i + 2) =~= e);
        assert(le_val(s.subrange(i, i + 2)) == v);
        assert(s[i] == e[0]);
        assert(e[0] == (v % 256) as u8);
        lemma_mod256_mod4(v);
        assert(v % 4 == 1) by (nonlinear_arith)
            requires
                v == n * 4 + 1,
                n >= 0,
        ;
        assert(s[i] % 4 == 1);
        assert(v / 4 == n) by (nonlinear_arith)
            requires
                v == n * 4 + 1,
                n >= 0,
        ;
    } else if n < 0x4000_0000 {
        let e = spec_compact_encode(n);
        let v: int = n * 4 + 2;
        lemma_le_roundtrip(v, 4);
        assert(s.subrange(i, i + 4) =~= e);
        assert(le_val(s.subrange(i, i + 4)) == v);
        assert(s[i] == e[0]);
        assert(e[0] == (v % 256) as u8);
        lemma_mod256_mod4(v);
        assert(v % 4 == 2) by (nonlinear_arith)
            requires
                v == n * 4 + 2,
                n >= 0,
        ;
        assert(s[i] % 4 == 2);
        assert(v / 4 == n) by (nonlinear_arith)
            requires
                v == n * 4 + 2,
                n >= 0,
        ;
    } else {
        let l = compact_big_len(n);
        let e = spec_compact_encode(n);
        lemma_le_bytes_len(n as int, l);
        assert(s[i] == e[0]);
        assert(e[0] == (((l - 4) * 4 + 3) as u8));
        assert(s[i] % 4 == 3 && s[i] / 4 == l - 4);
        lemma_subrange_of_eq(s, i, e, 1, 1 + l as int);
        assert(e.subrange(1, 1 + l as int) =~= le_bytes(n as int, l));
        assert(n < pow256(l));
        lemma_le_roundtrip(n as int, l);
        assert(le_val(s.subrange(i + 1, i + 1 + l)) == n);
        if l == 4 {
            assert(n >= 0x4000_0000);
        } else {
            lemma_le_bytes_last(n as int, l);
            assert(s[i + l] == le_bytes(n as int, l)[l - 1]);
            let p = pow256((l - 1) as nat);
            assert(n >= p);
            assert(n as int / p >= 1) by (nonlinear_arith)
                requires
                    n as int >= p,
                    p > 0,
            ;
            assert(n as int / p < 256) by (nonlinear_arith)
                requires
                    n as int >= 0,
                    p > 0,
                    (n as int) < 256 * p,
            ;
            assert((n as int / p) % 256 == n as int / p);
            assert(s[i + l] != 0);
        }
    }
}

/// Parsing an encoded authority list yields the list back.
proof fn lemma_authorities_roundtrip(s: Seq<u8>, i: int, a: Seq<BabeAuthorityView>)
    requires
        0 <= i,
        forall|k: int| 0 <= k < a.len() ==> (#[trigger] a[k]).public_key.len() == 32,
        i + 40 * a.len() <= s.len(),
        s.subrange(i, i + 40 * a.len()) == spec_encode_authorities(a),
    ensures
        spec_parse_authorities(s, i, a.len() as nat) == Some((a, i + 40 * a.len())),
    decreases a.len(),
{
    lemma_encode_authorities_len(a);
    if a.len() == 0 {
        assert(spec_parse_authorities(s, i, 0) == Some((Seq::<BabeAuthorityView>::empty(), i)));
        assert(a =~= Seq::<BabeAuthorityView>::empty());
    } else {
        lemma_le_bytes_len(a[0].weight as int, 8);
        lemma_pow256_values();
        assert(forall|k: int|
            0 <= k < a.skip(1).len() ==> (#[trigger] a.skip(1)[k]).public_key.len() == 32);
        lemma_encode_authorities_len(a.skip(1));
        let e = spec_encode_authorities(a);
        lemma_subrange_of_eq(s, i, e, 0, 32);
        assert(e.subrange(0, 32) =~= a[0].public_key);
        lemma_subrange_of_eq(s, i, e, 32, 40);
        assert(e.subrange(32, 40) =~= le_bytes(a[0].weight as int, 8));
        lemma_le_roundtrip(a[0].weight as int, 8);
        assert(le_val(s.subrange(i + 32, i + 40)) == a[0].weight);
        lemma_subrange_of_eq(s, i, e, 40, 40 * a.len() as int);
        assert(e.subrange(40, 40 * a.len() as int) =~= spec_encode_authorities(a.skip(1)));
        assert(s.subrange(i + 40, i + 40 + 40 * a.skip(1).len()) =~= spec_encode_authorities(
            a.skip(1),
        ));
        lemma_authorities_roundtrip(s, i + 40, a.skip(1));
        let parsed = spec_parse_authorities(s, i, a.len() as nat);
        assert(parsed is Some);
        assert(parsed.unwrap().0 =~= a);
    }
}

/// Decoding an encoded valid epoch yields the epoch back.
pub proof fn lemma_babe_epoch_roundtrip(v: BabeEpochInfoView)
    requires
        epoch_view_wf(v),
        v.authorities.len() <= 0xffff_ffff_ffff_ffff,
    ensures
        spec_decode_babe_epoch(spec_encode_babe_epoch(v)) == Some(v),
{
    let s = spec_encode_babe_epoch(v);
    let n: u64 = v.authorities.len() as u64;
    lemma_pow256_values();
    lemma_le_bytes_len(v.epoch_index as int, 8);
    lemma_le_bytes_len(v.c_num as int, 8);
    lemma_le_bytes_len(v.c_den as int, 8);
    lemma_compact_encode_len(n);
    lemma_encode_authorities_len(v.authorities);
    let blen: int = match v.start_slot_number {
        Some(_) => 9,
        None => 1,
    };
    if v.start_slot_number is Some {
        lemma_le_bytes_len(v.start_slot_number.unwrap() as int, 8);
    }
    let i1: int = 8;
    let i2: int = i1 + blen;
    let i3: int = i2 + compact_len(n);
    let i4: int = i3 + 40 * v.authorities.len();
    assert(s.len() == i4 + 49);

    // epoch index
    assert(s.subrange(0, 8) =~= le_bytes(v.epoch_index as int, 8));
    lemma_le_roundtrip(v.epoch_index as int, 8);
    assert(spec_parse_u64(s, 0) == Some((v.epoch_index, 8int)));

    // start slot
    match v.start_slot_number {
        Some(x) => {
            assert(s[i1] == 1);
            assert(s.subrange(9, 17) =~= le_bytes(x as int, 8));
            lemma_le_roundtrip(x as int, 8);
            assert(spec_parse_u64(s, 9) == Some((x, 17int)));
        },
        None => {
            assert(s[i1] == 0);
        },
    }

    // authority count
    assert(s.subrange(i2, i2 + compact_len(n)) =~= spec_compact_encode(n));
    lemma_compact_roundtrip(s, i2, n);

    // authorities
    assert(s.subrange(i3, i3 + 40 * v.authorities.len()) =~= spec_encode_authorities(
        v.authorities,
    ));
    lemma_authorities_roundtrip(s, i3, v.authorities);

    // tail
    assert(s.subrange(i4, i4 + 32) =~= v.randomness);
    assert(s.subrange(i4 + 32, i4 + 40) =~= le_bytes(v.c_num as int, 8));
    assert(s.subrange(i4 + 40, i4 + 48) =~= le_bytes(v.c_den as int, 8));
    lemma_le_roundtrip(v.c_num as int, 8);
    lemma_le_roundtrip(v.c_den as int, 8);
    assert(s[i4 + 48] == allowed_slots_byte(v.allowed_slots));
    let parsed = spec_decode_babe_epoch(s);
    assert(parsed is Some);
    assert(parsed.unwrap() == v);
}

} // verus!
