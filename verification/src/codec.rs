//! Binary cache encoding of snapshots.
//!
//! Little-endian layout: a 64-bit capture timestamp in seconds, then exactly
//! [`ENTRY_COUNT`] entries. Each entry is its rank (16 bits), one length byte
//! and that many UTF-8 name bytes, then user id, run id and the score's bit
//! pattern (32 bits each). No checksum and no version field.

use vstd::prelude::*;
use vstd::utf8::{length_of_first_scalar, pop_first_scalar, valid_first_scalar, valid_utf8};

use crate::lb::{entry_views, Entry, EntryV, Leaderboard, LeaderboardV};

verus! {

/// Number of entries in the persisted form of a snapshot: a fixed protocol
/// constant, shared by the encoder and the decoder.
pub const ENTRY_COUNT: usize = 1000;

/// Why a cache image was rejected.
#[derive(Debug)]
pub enum DecodeError {
    /// The bytes end before the timestamp and [`ENTRY_COUNT`] entries do.
    Truncated,
    /// A name field is not valid UTF-8.
    InvalidText,
}

/// The 16-bit value stored little-endian in two bytes.
pub open spec fn le16(b0: u8, b1: u8) -> u16 {
    (b0 as u16) | ((b1 as u16) << 8)
}

/// The 32-bit value stored little-endian in four bytes.
pub open spec fn le32(b0: u8, b1: u8, b2: u8, b3: u8) -> u32 {
    (b0 as u32) | ((b1 as u32) << 8) | ((b2 as u32) << 16) | ((b3 as u32) << 24)
}

/// The 64-bit value stored little-endian in eight bytes.
pub open spec fn le64(b0: u8, b1: u8, b2: u8, b3: u8, b4: u8, b5: u8, b6: u8, b7: u8) -> u64 {
    (b0 as u64) | ((b1 as u64) << 8) | ((b2 as u64) << 16) | ((b3 as u64) << 24) | ((b4 as u64)
        << 32) | ((b5 as u64) << 40) | ((b6 as u64) << 48) | ((b7 as u64) << 56)
}

/// The two little-endian bytes of a 16-bit value.
pub open spec fn u16_bytes(x: u16) -> Seq<u8> {
    seq![(x & 0xff) as u8, ((x >> 8) & 0xff) as u8]
}

/// The four little-endian bytes of a 32-bit value.
pub open spec fn u32_bytes(x: u32) -> Seq<u8> {
    seq![
        (x & 0xff) as u8,
        ((x >> 8) & 0xff) as u8,
        ((x >> 16) & 0xff) as u8,
        ((x >> 24) & 0xff) as u8,
    ]
}

/// The eight little-endian bytes of a 64-bit value.
pub open spec fn u64_bytes(x: u64) -> Seq<u8> {
    seq![
        (x & 0xff) as u8,
        ((x >> 8) & 0xff) as u8,
        ((x >> 16) & 0xff) as u8,
        ((x >> 24) & 0xff) as u8,
        ((x >> 32) & 0xff) as u8,
        ((x >> 40) & 0xff) as u8,
        ((x >> 48) & 0xff) as u8,
        ((x >> 56) & 0xff) as u8,
    ]
}

/// Appends the two little-endian bytes of a 16-bit value.
fn push_u16(out: &mut Vec<u8>, x: u16)
    ensures
        final(out)@ == old(out)@ + u16_bytes(x),
{
    out.push((x & 0xff) as u8);
    out.push(((x >> 8) & 0xff) as u8);
    assert(out@ =~= old(out)@ + u16_bytes(x));
}

/// Appends the four little-endian bytes of a 32-bit value.
fn push_u32(out: &mut Vec<u8>, x: u32)
    ensures
        final(out)@ == old(out)@ + u32_bytes(x),
{
    out.push((x & 0xff) as u8);
    out.push(((x >> 8) & 0xff) as u8);
    out.push(((x >> 16) & 0xff) as u8);
    out.push(((x >> 24) & 0xff) as u8);
    assert(out@ =~= old(out)@ + u32_bytes(x));
}

/// Appends the eight little-endian bytes of a 64-bit value.
fn push_u64(out: &mut Vec<u8>, x: u64)
    ensures
        final(out)@ == old(out)@ + u64_bytes(x),
{
    out.push((x & 0xff) as u8);
    out.push(((x >> 8) & 0xff) as u8);
    out.push(((x >> 16) & 0xff) as u8);
    out.push(((x >> 24) & 0xff) as u8);
    out.push(((x >> 32) & 0xff) as u8);
    out.push(((x >> 40) & 0xff) as u8);
    out.push(((x >> 48) & 0xff) as u8);
    out.push(((x >> 56) & 0xff) as u8);
    assert(out@ =~= old(out)@ + u64_bytes(x));
}

/// Recomposing the little-endian bytes of a 16-bit value gives it back.
proof fn lemma_le16_roundtrip(x: u16)
    ensures
        le16((x & 0xff) as u8, ((x >> 8) & 0xff) as u8) == x,
{
    assert((((x & 0xff) as u8 as u16) | ((((x >> 8) & 0xff) as u8 as u16) << 8)) == x)
        by (bit_vector);
}

/// Recomposing the little-endian bytes of a 32-bit value gives it back.
proof fn lemma_le32_roundtrip(x: u32)
    ensures
        le32(
            (x & 0xff) as u8,
            ((x >> 8) & 0xff) as u8,
            ((x >> 16) & 0xff) as u8,
            ((x >> 24) & 0xff) as u8,
        ) == x,
{
    assert((((x & 0xff) as u8 as u32) | ((((x >> 8) & 0xff) as u8 as u32) << 8) | ((((x >> 16)
        & 0xff) as u8 as u32) << 16) | ((((x >> 24) & 0xff) as u8 as u32) << 24)) == x)
        by (bit_vector);
}

/// Recomposing the little-endian bytes of a 64-bit value gives it back.
proof fn lemma_le64_roundtrip(x: u64)
    ensures
        le64(
            (x & 0xff) as u8,
            ((x >> 8) & 0xff) as u8,
            ((x >> 16) & 0xff) as u8,
            ((x >> 24) & 0xff) as u8,
            ((x >> 32) & 0xff) as u8,
            ((x >> 40) & 0xff) as u8,
            ((x >> 48) & 0xff) as u8,
            ((x >> 56) & 0xff) as u8,
        ) == x,
{
    assert((((x & 0xff) as u8 as u64) | ((((x >> 8) & 0xff) as u8 as u64) << 8) | ((((x >> 16)
        & 0xff) as u8 as u64) << 16) | ((((x >> 24) & 0xff) as u8 as u64) << 24) | ((((x >> 32)
        & 0xff) as u8 as u64) << 32) | ((((x >> 40) & 0xff) as u8 as u64) << 40) | ((((x >> 48)
        & 0xff) as u8 as u64) << 48) | ((((x >> 56) & 0xff) as u8 as u64) << 56)) == x)
        by (bit_vector);
}

/// True when an entry fits the cache encoding: the name is at most 255 bytes
/// (it is length-prefixed by a single byte) and is valid UTF-8.
pub open spec fn wf_entry(e: EntryV) -> bool {
    e.name.len() <= 255 && valid_utf8(e.name)
}

/// True when a snapshot has a persisted form: exactly [`ENTRY_COUNT`] entries,
/// each fitting the encoding.
pub open spec fn cacheable(lb: LeaderboardV) -> bool {
    &&& lb.entries.len() == ENTRY_COUNT
    &&& forall|i: int| 0 <= i < lb.entries.len() ==> wf_entry(#[trigger] lb.entries[i])
}

/// The encoded bytes of one entry: rank, name length, name bytes, user id,
/// run id, score bit pattern.
pub open spec fn spec_encode_entry(e: EntryV) -> Seq<u8> {
    u16_bytes(e.rank) + seq![e.name.len() as u8] + e.name + u32_bytes(e.user_id) + u32_bytes(
        e.run_id,
    ) + u32_bytes(e.score_bits)
}

/// The encoded bytes of a list of entries, in order.
pub open spec fn spec_encode_entries(s: Seq<EntryV>) -> Seq<u8>
    decreases s.len(),
{
    if s.len() == 0 {
        Seq::empty()
    } else {
        spec_encode_entry(s[0]) + spec_encode_entries(s.drop_first())
    }
}

/// The encoded bytes of a whole snapshot: the timestamp, then the entries.
pub open spec fn spec_encode(lb: LeaderboardV) -> Seq<u8> {
    u64_bytes(lb.timestamp_secs) + spec_encode_entries(lb.entries)
}

/// Parses one entry at the given position. On success the second component is
/// the position just past the entry. The checks run in the decoder's order:
/// header bytes, name bytes, name validity, trailer bytes.
pub open spec fn parse_entry(b: Seq<u8>, pos: int) -> Result<(EntryV, int), DecodeError>
    recommends
        0 <= pos <= b.len(),
{
    if pos + 3 > b.len() {
        Err(DecodeError::Truncated)
    } else {
        let rank = le16(b[pos], b[pos + 1]);
        let nlen = b[pos + 2] as int;
        if pos + 3 + nlen > b.len() {
            Err(DecodeError::Truncated)
        } else {
            let name = b.subrange(pos + 3, pos + 3 + nlen);
            if !valid_utf8(name) {
                Err(DecodeError::InvalidText)
            } else if pos + 3 + nlen + 12 > b.len() {
                Err(DecodeError::Truncated)
            } else {
                let q = pos + 3 + nlen;
                Ok(
                    (
                        EntryV {
                            rank,
                            name,
                            user_id: le32(b[q], b[q + 1], b[q + 2], b[q + 3]),
                            run_id: le32(b[q + 4], b[q + 5], b[q + 6], b[q + 7]),
                            score_bits: le32(b[q + 8], b[q + 9], b[q + 10], b[q + 11]),
                        },
                        q + 12,
                    ),
                )
            }
        }
    }
}

/// Parses `n` consecutive entries starting at the given position.
pub open spec fn parse_entries(b: Seq<u8>, pos: int, n: nat) -> Result<
    (Seq<EntryV>, int),
    DecodeError,
>
    decreases n,
{
    if n == 0 {
        Ok((Seq::empty(), pos))
    } else {
        match parse_entry(b, pos) {
            Err(e) => Err(e),
            Ok((ev, p2)) => match parse_entries(b, p2, (n - 1) as nat) {
                Err(e) => Err(e),
                Ok((rest, p3)) => Ok((seq![ev] + rest, p3)),
            },
        }
    }
}

/// Parses a whole cache image: the timestamp, then exactly [`ENTRY_COUNT`]
/// entries. Bytes past the last entry are ignored.
pub open spec fn parse_snapshot(b: Seq<u8>) -> Result<LeaderboardV, DecodeError> {
    if b.len() < 8 {
        Err(DecodeError::Truncated)
    } else {
        let ts = le64(b[0], b[1], b[2], b[3], b[4], b[5], b[6], b[7]);
        match parse_entries(b, 8, ENTRY_COUNT as nat) {
            Err(e) => Err(e),
            Ok((es, _)) => Ok(LeaderboardV { timestamp_secs: ts, entries: es }),
        }
    }
}

/// Decides whether the bytes are a valid UTF-8 encoding, as vstd's
/// `valid_utf8` defines it: each scalar's leading byte announces its width,
/// its continuation bytes follow the continuation bit pattern, and the
/// decoded codepoint is neither an overlong encoding nor a surrogate.
fn utf8_valid(bytes: &[u8]) -> (r: bool)
    ensures
        r == valid_utf8(bytes@),
{
    let n = bytes.len();
    let mut pos: usize = 0;
    assert(bytes@.skip(0) =~= bytes@);
    while pos < n
        invariant
            pos <= n,
            n == bytes@.len(),
            valid_utf8(bytes@) == valid_utf8(bytes@.skip(pos as int)),
        decreases n - pos,
    {
        let ghost suf = bytes@.skip(pos as int);
        assert(suf.len() == n - pos);
        assert(suf[0] == bytes@[pos as int]);
        let b0 = bytes[pos];
        if b0 <= 0x7f {
            proof {
                assert((b0 & 0x7f) == b0 && (b0 & 0x7f) < 0xd8) by (bit_vector)
                    requires
                        b0 <= 0x7f,
                ;
                assert(vstd::utf8::is_leading_byte_width_1(suf[0]));
                assert(valid_first_scalar(suf));
                assert(length_of_first_scalar(suf) == 1);
                assert(pop_first_scalar(suf) =~= bytes@.skip(pos as int + 1));
            }
            pos = pos + 1;
        } else if 0xc0 <= b0 && b0 <= 0xdf {
            if n - pos < 2 {
                assert(!valid_first_scalar(suf));
                return false;
            }
            assert(suf[1] == bytes@[pos as int + 1]);
            let b1 = bytes[pos + 1];
            if !(0x80 <= b1 && b1 <= 0xbf) {
                assert(!valid_first_scalar(suf));
                return false;
            }
            let cp = (((b0 & 0x1f) as u32) << 6) | ((b1 & 0x3f) as u32);
            proof {
                assert(vstd::utf8::codepoint_width_2(b0, b1) == cp);
                assert(cp <= 0x7ff) by (bit_vector)
                    requires
                        cp == (((b0 & 0x1f) as u32) << 6) | ((b1 & 0x3f) as u32),
                ;
            }
            if cp < 0x80 {
                assert(!valid_first_scalar(suf));
                return false;
            }
            proof {
                assert(valid_first_scalar(suf));
                assert(length_of_first_scalar(suf) == 2);
                assert(pop_first_scalar(suf) =~= bytes@.skip(pos as int + 2));
            }
            pos = pos + 2;
        } else if 0xe0 <= b0 && b0 <= 0xef {
            if n - pos < 3 {
                assert(!valid_first_scalar(suf));
                return false;
            }
            assert(suf[1] == bytes@[pos as int + 1]);
            assert(suf[2] == bytes@[pos as int + 2]);
            let b1 = bytes[pos + 1];
            let b2 = bytes[pos + 2];
            if !(0x80 <= b1 && b1 <= 0xbf) || !(0x80 <= b2 && b2 <= 0xbf) {
                assert(!valid_first_scalar(suf));
                return false;
            }
            let cp = (((b0 & 0x0f) as u32) << 12) | (((b1 & 0x3f) as u32) << 6) | ((b2
                & 0x3f) as u32);
            proof {
                assert(vstd::utf8::codepoint_width_3(b0, b1, b2) == cp);
            }
            if cp < 0x800 || (0xd800 <= cp && cp <= 0xdfff) {
                assert(!valid_first_scalar(suf));
                return false;
            }
            proof {
                assert(valid_first_scalar(suf));
                assert(length_of_first_scalar(suf) == 3);
                assert(pop_first_scalar(suf) =~= bytes@.skip(pos as int + 3));
            }
            pos = pos + 3;
        } else if 0xf0 <= b0 && b0 <= 0xf7 {
            if n - pos < 4 {
                assert(!valid_first_scalar(suf));
                return false;
            }
            assert(suf[1] == bytes@[pos as int + 1]);
            assert(suf[2] == bytes@[pos as int + 2]);
            assert(suf[3] == bytes@[pos as int + 3]);
            let b1 = bytes[pos + 1];
            let b2 = bytes[pos + 2];
            let b3 = bytes[pos + 3];
            if !(0x80 <= b1 && b1 <= 0xbf) || !(0x80 <= b2 && b2 <= 0xbf) || !(0x80 <= b3 && b3
                <= 0xbf) {
                assert(!valid_first_scalar(suf));
                return false;
            }
            let cp = (((b0 & 0x07) as u32) << 18) | (((b1 & 0x3f) as u32) << 12) | (((b2
                & 0x3f) as u32) << 6) | ((b3 & 0x3f) as u32);
            proof {
                assert(vstd::utf8::codepoint_width_4(b0, b1, b2, b3) == cp);
            }
            if cp < 0x10000 || cp > 0x10ffff {
                assert(!valid_first_scalar(suf));
                return false;
            }
            proof {
                assert(valid_first_scalar(suf));
                assert(length_of_first_scalar(suf) == 4);
                assert(pop_first_scalar(suf) =~= bytes@.skip(pos as int + 4));
            }
            pos = pos + 4;
        } else {
            // A continuation byte (0x80..0xbf) or an out-of-range byte
            // (0xf8..0xff) can lead no scalar.
            assert(!valid_first_scalar(suf));
            return false;
        }
    }
    assert(bytes@.skip(n as int) =~= Seq::<u8>::empty());
    true
}

/// Reads the little-endian 32-bit value at the given position.
fn read_u32(b: &Vec<u8>, pos: usize) -> (r: u32)
    requires
        pos + 4 <= b@.len(),
    ensures
        r == le32(b@[pos as int], b@[pos as int + 1], b@[pos as int + 2], b@[pos as int + 3]),
{
    assert(b.len() <= usize::MAX);
    (b[pos] as u32) | ((b[pos + 1] as u32) << 8) | ((b[pos + 2] as u32) << 16) | ((b[pos + 3]
        as u32) << 24)
}

/// Reads the little-endian 64-bit value at the given position.
fn read_u64(b: &Vec<u8>, pos: usize) -> (r: u64)
    requires
        pos + 8 <= b@.len(),
    ensures
        r == le64(
            b@[pos as int],
            b@[pos as int + 1],
            b@[pos as int + 2],
            b@[pos as int + 3],
            b@[pos as int + 4],
            b@[pos as int + 5],
            b@[pos as int + 6],
            b@[pos as int + 7],
        ),
{
    assert(b.len() <= usize::MAX);
    (b[pos] as u64) | ((b[pos + 1] as u64) << 8) | ((b[pos + 2] as u64) << 16) | ((b[pos + 3]
        as u64) << 24) | ((b[pos + 4] as u64) << 32) | ((b[pos + 5] as u64) << 40) | ((b[pos + 6]
        as u64) << 48) | ((b[pos + 7] as u64) << 56)
}

/// Decodes one entry at the given position, exactly as [`parse_entry`] says.
fn read_entry(b: &Vec<u8>, pos: usize) -> (r: Result<(Entry, usize), DecodeError>)
    requires
        pos <= b@.len(),
    ensures
        match r {
            Ok((e, end)) => parse_entry(b@, pos as int) == Ok::<(EntryV, int), DecodeError>(
                (e@, end as int),
            ) && pos < end <= b@.len(),
            Err(err) => parse_entry(b@, pos as int) == Err::<(EntryV, int), DecodeError>(err),
        },
{
    if b.len() - pos < 3 {
        return Err(DecodeError::Truncated);
    }
    let rank = (b[pos] as u16) | ((b[pos + 1] as u16) << 8);
    let nlen = b[pos + 2] as usize;
    if b.len() - (pos + 3) < nlen {
        return Err(DecodeError::Truncated);
    }
    assert(b.len() <= usize::MAX);
    let mut name: Vec<u8> = Vec::new();
    let mut i: usize = 0;
    while i < nlen
        invariant
            i <= nlen,
            pos + 3 + nlen <= b@.len(),
            b@.len() <= usize::MAX,
            name@ == b@.subrange(pos + 3, pos + 3 + i),
        decreases nlen - i,
    {
        name.push(b[pos + 3 + i]);
        assert(name@ =~= b@.subrange(pos + 3, pos + 3 + i + 1));
        i = i + 1;
    }
    if !utf8_valid(name.as_slice()) {
        return Err(DecodeError::InvalidText);
    }
    if b.len() - (pos + 3 + nlen) < 12 {
        return Err(DecodeError::Truncated);
    }
    let q = pos + 3 + nlen;
    let e = Entry {
        rank,
        name,
        user_id: read_u32(b, q),
        run_id: read_u32(b, q + 4),
        score_bits: read_u32(b, q + 8),
    };
    proof {
        let parsed = parse_entry(b@, pos as int)->Ok_0.0;
        assert(e@ =~= parsed);
    }
    Ok((e, q + 12))
}

/// Appends the encoded bytes of one entry.
fn push_entry(out: &mut Vec<u8>, e: &Entry)
    requires
        e@.name.len() <= 255,
    ensures
        final(out)@ == old(out)@ + spec_encode_entry(e@),
{
    push_u16(out, e.rank);
    out.push(e.name.len() as u8);
    let ghost mid = old(out)@ + u16_bytes(e@.rank) + seq![e@.name.len() as u8];
    assert(out@ =~= mid);
    let mut i: usize = 0;
    while i < e.name.len()
        invariant
            i <= e@.name.len(),
            out@ == mid + e@.name.take(i as int),
        decreases e@.name.len() - i,
    {
        out.push(e.name[i]);
        assert(out@ =~= mid + e@.name.take(i as int + 1));
        i = i + 1;
    }
    assert(e@.name.take(e@.name.len() as int) =~= e@.name);
    push_u32(out, e.user_id);
    push_u32(out, e.run_id);
    push_u32(out, e.score_bits);
    assert(out@ =~= old(out)@ + spec_encode_entry(e@));
}

/// Appending one entry to a list appends its encoding.
proof fn lemma_encode_entries_push(s: Seq<EntryV>, e: EntryV)
    ensures
        spec_encode_entries(s.push(e)) == spec_encode_entries(s) + spec_encode_entry(e),
    decreases s.len(),
{
    if s.len() == 0 {
        assert(s.push(e)[0] == e);
        assert(s.push(e).drop_first() =~= Seq::<EntryV>::empty());
        assert(spec_encode_entries(s.push(e).drop_first()) == Seq::<u8>::empty());
        assert(spec_encode_entries(s.push(e)) =~= spec_encode_entries(s) + spec_encode_entry(e));
    } else {
        assert(s.push(e)[0] == s[0]);
        assert(s.push(e).drop_first() =~= s.drop_first().push(e));
        lemma_encode_entries_push(s.drop_first(), e);
        assert(spec_encode_entries(s.push(e)) == spec_encode_entry(s[0]) + (spec_encode_entries(
            s.drop_first(),
        ) + spec_encode_entry(e)));
        assert(spec_encode_entry(s[0]) + (spec_encode_entries(s.drop_first()) + spec_encode_entry(
            e,
        )) =~= (spec_encode_entry(s[0]) + spec_encode_entries(s.drop_first())) + spec_encode_entry(
            e,
        ));
    }
}

/// Parsing at the start of an entry's full encoding yields that entry.
proof fn lemma_parse_entry_of_encode(b: Seq<u8>, pos: int, e: EntryV)
    requires
        wf_entry(e),
        0 <= pos,
        pos + spec_encode_entry(e).len() <= b.len(),
        b.subrange(pos, pos + spec_encode_entry(e).len() as int) == spec_encode_entry(e),
    ensures
        parse_entry(b, pos) == Ok::<(EntryV, int), DecodeError>(
            (e, pos + spec_encode_entry(e).len()),
        ),
{
    let enc = spec_encode_entry(e);
    let n = e.name.len() as int;
    let a = u16_bytes(e.rank);
    let lenb = seq![e.name.len() as u8];
    let d = u32_bytes(e.user_id);
    let g = u32_bytes(e.run_id);
    let h = u32_bytes(e.score_bits);
    assert(enc == a + lenb + e.name + d + g + h);
    assert(enc.len() == 15 + n);
    assert forall|k: int| 0 <= k < enc.len() implies b[pos + k] == enc[k] by {
        assert(b.subrange(pos, pos + enc.len() as int)[k] == b[pos + k]);
    }
    assert(enc[0] == a[0] && enc[1] == a[1]);
    lemma_le16_roundtrip(e.rank);
    assert(le16(b[pos], b[pos + 1]) == e.rank);
    assert(enc[2] == e.name.len() as u8);
    assert(b[pos + 2] as int == n);
    assert(forall|i: int| 0 <= i < n ==> enc[3 + i] == e.name[i]);
    assert(b.subrange(pos + 3, pos + 3 + n) =~= e.name);
    assert(valid_utf8(b.subrange(pos + 3, pos + 3 + n)));
    let q = pos + 3 + n;
    assert(forall|i: int| 0 <= i < 4 ==> enc[3 + n + i] == d[i]);
    assert(forall|i: int| 0 <= i < 4 ==> enc[7 + n + i] == g[i]);
    assert(forall|i: int| 0 <= i < 4 ==> enc[11 + n + i] == h[i]);
    lemma_le32_roundtrip(e.user_id);
    lemma_le32_roundtrip(e.run_id);
    lemma_le32_roundtrip(e.score_bits);
    assert(le32(b[q], b[q + 1], b[q + 2], b[q + 3]) == e.user_id);
    assert(le32(b[q + 4], b[q + 5], b[q + 6], b[q + 7]) == e.run_id);
    assert(le32(b[q + 8], b[q + 9], b[q + 10], b[q + 11]) == e.score_bits);
    let parsed = parse_entry(b, pos)->Ok_0.0;
    assert(parsed =~= e);
}

/// Parsing at the start of a list's full encoding yields that list.
proof fn lemma_parse_entries_of_encode(b: Seq<u8>, pos: int, s: Seq<EntryV>)
    requires
        forall|i: int| 0 <= i < s.len() ==> wf_entry(#[trigger] s[i]),
        0 <= pos,
        pos + spec_encode_entries(s).len() <= b.len(),
        b.subrange(pos, pos + spec_encode_entries(s).len() as int) == spec_encode_entries(s),
    ensures
        parse_entries(b, pos, s.len() as nat) == Ok::<(Seq<EntryV>, int), DecodeError>(
            (s, pos + spec_encode_entries(s).len()),
        ),
    decreases s.len(),
{
    if s.len() == 0 {
        assert(parse_entries(b, pos, 0) == Ok::<(Seq<EntryV>, int), DecodeError>(
            (Seq::empty(), pos),
        ));
        assert(s =~= Seq::<EntryV>::empty());
    } else {
        let e0 = s[0];
        let rest = s.drop_first();
        let enc0 = spec_encode_entry(e0);
        let encr = spec_encode_entries(rest);
        let total = spec_encode_entries(s);
        assert(total == enc0 + encr);
        assert forall|k: int| 0 <= k < total.len() implies b[pos + k] == total[k] by {
            assert(b.subrange(pos, pos + total.len() as int)[k] == b[pos + k]);
        }
        assert(b.subrange(pos, pos + enc0.len() as int) =~= enc0);
        let p2 = pos + enc0.len() as int;
        assert forall|k: int| 0 <= k < encr.len() implies b.subrange(p2, p2 + encr.len() as int)[k]
            == encr[k] by {
            assert(b.subrange(p2, p2 + encr.len() as int)[k] == b[p2 + k]);
            assert(b[pos + (enc0.len() + k)] == total[enc0.len() + k]);
            assert(total[enc0.len() + k] == encr[k]);
        }
        assert(b.subrange(p2, p2 + encr.len() as int) =~= encr);
        lemma_parse_entry_of_encode(b, pos, e0);
        assert(forall|i: int| 0 <= i < rest.len() ==> wf_entry(#[trigger] rest[i]));
        lemma_parse_entries_of_encode(b, pos + enc0.len() as int, rest);
        assert(seq![e0] + rest =~= s);
    }
}

/// Law: decoding an encoded snapshot gives the snapshot back unchanged,
/// field for field.
pub proof fn lemma_cache_round_trip(lb: LeaderboardV)
    requires
        cacheable(lb),
    ensures
        parse_snapshot(spec_encode(lb)) == Ok::<LeaderboardV, DecodeError>(lb),
{
    let b = spec_encode(lb);
    let ts = u64_bytes(lb.timestamp_secs);
    let ents = spec_encode_entries(lb.entries);
    assert(b == ts + ents);
    assert(forall|k: int| 0 <= k < 8 ==> b[k] == ts[k]);
    lemma_le64_roundtrip(lb.timestamp_secs);
    assert(le64(b[0], b[1], b[2], b[3], b[4], b[5], b[6], b[7]) == lb.timestamp_secs);
    assert(b.subrange(8, 8 + ents.len() as int) =~= ents);
    lemma_parse_entries_of_encode(b, 8, lb.entries);
    let parsed = parse_snapshot(b)->Ok_0;
    assert(parsed =~= lb);
}

/// Parsing a strict prefix of an entry's encoding reports truncation.
proof fn lemma_parse_entry_truncated(b: Seq<u8>, pos: int, e: EntryV, m: int)
    requires
        wf_entry(e),
        0 <= pos,
        0 <= m < spec_encode_entry(e).len(),
        b.len() == pos + m,
        b.subrange(pos, pos + m) == spec_encode_entry(e).take(m),
    ensures
        parse_entry(b, pos) == Err::<(EntryV, int), DecodeError>(DecodeError::Truncated),
{
    let enc = spec_encode_entry(e);
    let n = e.name.len() as int;
    let a = u16_bytes(e.rank);
    let lenb = seq![e.name.len() as u8];
    let d = u32_bytes(e.user_id);
    let g = u32_bytes(e.run_id);
    let h = u32_bytes(e.score_bits);
    assert(enc == a + lenb + e.name + d + g + h);
    assert(enc.len() == 15 + n);
    assert forall|k: int| 0 <= k < m implies b[pos + k] == enc[k] by {
        assert(b.subrange(pos, pos + m)[k] == b[pos + k]);
        assert(enc.take(m)[k] == enc[k]);
    }
    if m < 3 {
        assert(pos + 3 > b.len());
    } else {
        assert(enc[2] == e.name.len() as u8);
        assert(b[pos + 2] as int == n);
        if m < 3 + n {
            assert(pos + 3 + n > b.len());
        } else {
            assert(forall|i: int| 0 <= i < n ==> enc[3 + i] == e.name[i]);
            assert(b.subrange(pos + 3, pos + 3 + n) =~= e.name);
            assert(valid_utf8(b.subrange(pos + 3, pos + 3 + n)));
            assert(pos + 3 + n + 12 > b.len());
        }
    }
}

/// Parsing a strict prefix of a non-empty list's encoding reports truncation.
proof fn lemma_parse_entries_truncated(b: Seq<u8>, pos: int, s: Seq<EntryV>, m: int)
    requires
        forall|i: int| 0 <= i < s.len() ==> wf_entry(#[trigger] s[i]),
        s.len() > 0,
        0 <= pos,
        0 <= m < spec_encode_entries(s).len(),
        b.len() == pos + m,
        b.subrange(pos, pos + m) == spec_encode_entries(s).take(m),
    ensures
        parse_entries(b, pos, s.len() as nat) == Err::<(Seq<EntryV>, int), DecodeError>(
            DecodeError::Truncated,
        ),
    decreases s.len(),
{
    let e0 = s[0];
    let rest = s.drop_first();
    let enc0 = spec_encode_entry(e0);
    let encr = spec_encode_entries(rest);
    let total = spec_encode_entries(s);
    assert(total == enc0 + encr);
    assert forall|k: int| 0 <= k < m implies b[pos + k] == total[k] by {
        assert(b.subrange(pos, pos + m)[k] == b[pos + k]);
        assert(total.take(m)[k] == total[k]);
    }
    if m < enc0.len() {
        assert(b.subrange(pos, pos + m) =~= enc0.take(m));
        lemma_parse_entry_truncated(b, pos, e0, m);
    } else {
        assert(b.subrange(pos, pos + enc0.len() as int) =~= enc0);
        lemma_parse_entry_of_encode(b, pos, e0);
        assert(rest.len() > 0);
        assert(forall|i: int| 0 <= i < rest.len() ==> wf_entry(#[trigger] rest[i]));
        let p2 = pos + enc0.len() as int;
        let mr = m - enc0.len() as int;
        assert forall|k: int| 0 <= k < mr implies b.subrange(p2, pos + m)[k] == encr.take(mr)[k] by {
            assert(b.subrange(p2, pos + m)[k] == b[p2 + k]);
            assert(b[pos + (enc0.len() + k)] == total[enc0.len() + k]);
            assert(total[enc0.len() + k] == encr[k]);
            assert(encr.take(mr)[k] == encr[k]);
        }
        assert(b.subrange(p2, pos + m) =~= encr.take(mr));
        lemma_parse_entries_truncated(b, p2, rest, mr);
    }
}

/// Law: a cache image cut short anywhere — before the timestamp ends, between
/// entries, or in the middle of one — is rejected as truncated; no prefix
/// decodes to a partial snapshot.
pub proof fn lemma_truncated_cache_rejected(lb: LeaderboardV, m: int)
    requires
        cacheable(lb),
        0 <= m < spec_encode(lb).len(),
    ensures
        parse_snapshot(spec_encode(lb).take(m)) == Err::<LeaderboardV, DecodeError>(
            DecodeError::Truncated,
        ),
{
    let b = spec_encode(lb);
    let t = b.take(m);
    let ents = spec_encode_entries(lb.entries);
    assert(b == u64_bytes(lb.timestamp_secs) + ents);
    if m < 8 {
        assert(t.len() < 8);
    } else {
        assert(lb.entries.len() > 0);
        assert(t.subrange(8, m) =~= ents.take(m - 8));
        lemma_parse_entries_truncated(t, 8, lb.entries, m - 8);
    }
}

impl Leaderboard {
    /// Decodes a cache image, exactly as [`parse_snapshot`] says: the result
    /// is the parsed snapshot, or the parse's own error. A decoded snapshot
    /// always holds exactly [`ENTRY_COUNT`] entries.
    pub fn from_cache_bytes(bytes: &Vec<u8>) -> (r: Result<Leaderboard, DecodeError>)
        ensures
            match r {
                Ok(lb) => parse_snapshot(bytes@) == Ok::<LeaderboardV, DecodeError>(lb@)
                    && lb@.entries.len() == ENTRY_COUNT,
                Err(e) => parse_snapshot(bytes@) == Err::<LeaderboardV, DecodeError>(e),
            },
    {
        if bytes.len() < 8 {
            return Err(DecodeError::Truncated);
        }
        let ts = read_u64(bytes, 0);
        let mut entries: Vec<Entry> = Vec::new();
        let mut pos: usize = 8;
        let mut i: usize = 0;
        while i < ENTRY_COUNT
            invariant
                i <= ENTRY_COUNT,
                entries@.len() == i,
                8 <= pos <= bytes@.len(),
                match parse_entries(bytes@, pos as int, (ENTRY_COUNT - i) as nat) {
                    Ok((rest, end)) => parse_entries(bytes@, 8, ENTRY_COUNT as nat) == Ok::<
                        (Seq<EntryV>, int),
                        DecodeError,
                    >((entry_views(entries@) + rest, end)),
                    Err(er) => parse_entries(bytes@, 8, ENTRY_COUNT as nat) == Err::<
                        (Seq<EntryV>, int),
                        DecodeError,
                    >(er),
                },
            decreases ENTRY_COUNT - i,
        {
            let ghost n_left = (ENTRY_COUNT - i) as nat;
            match read_entry(bytes, pos) {
                Ok((e, end)) => {
                    proof {
                        let ghost acc = entry_views(entries@);
                        match parse_entries(bytes@, end as int, (n_left - 1) as nat) {
                            Ok((rest2, end2)) => {
                                assert(parse_entries(bytes@, pos as int, n_left) == Ok::<
                                    (Seq<EntryV>, int),
                                    DecodeError,
                                >((seq![e@] + rest2, end2)));
                                assert(acc + (seq![e@] + rest2) =~= acc.push(e@) + rest2);
                                assert(entry_views(entries@.push(e)) =~= acc.push(e@));
                            },
                            Err(_) => {
                                assert(entry_views(entries@.push(e)) =~= acc.push(e@));
                            },
                        }
                    }
                    entries.push(e);
                    pos = end;
                },
                Err(er) => {
                    return Err(er);
                },
            }
            i = i + 1;
        }
        let lb = Leaderboard { timestamp_secs: ts, entries };
        proof {
            assert(entry_views(lb.entries@) + Seq::<EntryV>::empty() =~= entry_views(lb.entries@));
            let parsed = parse_snapshot(bytes@)->Ok_0;
            assert(lb@ =~= parsed);
        }
        Ok(lb)
    }

    /// Encodes this snapshot for the cache, or `None` when it has no
    /// persisted form: a wrong entry count, a name over 255 bytes, or a name
    /// that is not valid UTF-8.
    pub fn cache_bytes(&self) -> (r: Option<Vec<u8>>)
        ensures
            match r {
                Some(bytes) => cacheable(self@) && bytes@ == spec_encode(self@),
                None => !cacheable(self@),
            },
    {
        if self.entries.len() != ENTRY_COUNT {
            return None;
        }
        let mut out: Vec<u8> = Vec::new();
        push_u64(&mut out, self.timestamp_secs);
        let mut i: usize = 0;
        while i < self.entries.len()
            invariant
                i <= self.entries@.len(),
                self.entries@.len() == ENTRY_COUNT,
                out@ == u64_bytes(self@.timestamp_secs) + spec_encode_entries(
                    self@.entries.take(i as int),
                ),
                forall|k: int| 0 <= k < i ==> wf_entry(#[trigger] self@.entries[k]),
            decreases self.entries@.len() - i,
        {
            let e = &self.entries[i];
            assert(self@.entries[i as int] == e@);
            if e.name.len() > 255 {
                assert(!wf_entry(self@.entries[i as int]));
                return None;
            }
            if !utf8_valid(e.name.as_slice()) {
                assert(!wf_entry(self@.entries[i as int]));
                return None;
            }
            push_entry(&mut out, e);
            proof {
                lemma_encode_entries_push(self@.entries.take(i as int), self@.entries[i as int]);
                assert(self@.entries.take(i as int).push(self@.entries[i as int])
                    =~= self@.entries.take(i as int + 1));
            }
            i = i + 1;
        }
        proof {
            assert(self@.entries.take(self@.entries.len() as int) =~= self@.entries);
            assert(cacheable(self@));
        }
        Some(out)
    }
}

} // verus!
