//! Inventory items for the Bitcoin-style protocol: a typed hash identifying
//! advertised or requested data, with its fixed 36-byte wire encoding — a
//! 4-byte little-endian type code followed by 32 hash bytes.

use vstd::prelude::*;
use byteorder::{ByteOrder, LittleEndian, WriteBytesExt};

verus! {

broadcast use vstd::array::group_array_axioms;

/// A transaction hash.
#[derive(Copy, Clone, Debug, Eq, PartialEq)]
pub struct TxHash(pub [u8; 32]);

/// A block hash.
#[derive(Copy, Clone, Debug, Eq, PartialEq)]
pub struct BlockHash(pub [u8; 32]);

/// An inventory hash which refers to some advertised or requested data.
///
/// The protocol calls this an "inventory vector" but it is just a typed hash,
/// not a container.
#[derive(Copy, Clone, Debug, Eq, PartialEq)]
pub enum InventoryHash {
    /// An error; data carrying this code has no typed hash and may be ignored.
    Error,
    /// A hash of a transaction.
    Tx(TxHash),
    /// A hash of a block.
    Block(BlockHash),
    /// A hash of a block header, to be answered with a filtered block rather
    /// than a full block.
    FilteredBlock(BlockHash),
}

/// An error from decoding a wire record.
#[derive(Copy, Clone, Debug, Eq, PartialEq, Structural)]
pub enum SerializationError {
    /// The input ended before a full record was read.
    UnexpectedEof,
    /// The input held a full record with an unrecognized type code.
    ParseError,
}

/// The type code a hash is encoded under.
pub open spec fn spec_code_of(h: InventoryHash) -> u32 {
    match h {
        InventoryHash::Error => 0,
        InventoryHash::Tx(_) => 1,
        InventoryHash::Block(_) => 2,
        InventoryHash::FilteredBlock(_) => 3,
    }
}

/// The 32 hash bytes a hash is encoded with; all zero for `Error`.
pub open spec fn spec_hash_bytes_of(h: InventoryHash) -> Seq<u8> {
    match h {
        InventoryHash::Error => Seq::new(32, |_i: int| 0u8),
        InventoryHash::Tx(t) => t.0@,
        InventoryHash::Block(b) => b.0@,
        InventoryHash::FilteredBlock(b) => b.0@,
    }
}

/// The unsigned 32-bit integer held little-endian in the bytes `b0..b3`.
pub open spec fn spec_u32_from_le(b0: u8, b1: u8, b2: u8, b3: u8) -> u32 {
    (b0 as u32) | ((b1 as u32) << 8) | ((b2 as u32) << 16) | ((b3 as u32) << 24)
}

/// The four little-endian bytes of `n`.
pub open spec fn spec_u32_le_bytes(n: u32) -> Seq<u8> {
    seq![
        (n & 0xff) as u8,
        ((n >> 8) & 0xff) as u8,
        ((n >> 16) & 0xff) as u8,
        ((n >> 24) & 0xff) as u8,
    ]
}

/// The full 36-byte wire encoding of `h`.
pub open spec fn spec_serialize(h: InventoryHash) -> Seq<u8> {
    spec_u32_le_bytes(spec_code_of(h)) + spec_hash_bytes_of(h)
}

/// Decoding the wire bytes `b` gives exactly the result `r`: too little input
/// is an `UnexpectedEof`, a type code above 3 is a `ParseError`, and a valid
/// record gives the hash whose code and bytes stand in the input. A code-0
/// record decodes to `Error` whatever its 32 hash bytes hold, as the wire
/// format prescribes. Bytes past the first 36 are ignored.
pub open spec fn decodes_to(b: Seq<u8>, r: Result<InventoryHash, SerializationError>) -> bool {
    if b.len() < 36 {
        r == Err::<InventoryHash, SerializationError>(SerializationError::UnexpectedEof)
    } else {
        let code: u32 = spec_u32_from_le(b[0], b[1], b[2], b[3]);
        match r {
            Ok(h) => {
                &&& code == spec_code_of(h)
                &&& code <= 3
                &&& code != 0 ==> spec_hash_bytes_of(h) == b.subrange(4, 36)
            },
            Err(e) => e == SerializationError::ParseError && code > 3,
        }
    }
}

/// Relies on `byteorder::LittleEndian::read_u32` (through the
/// `byteorder::ByteOrder` trait): it returns the unsigned 32-bit integer held
/// little-endian in the first four bytes of the given range, and panics only
/// when fewer than four bytes are available, which the precondition rules out.
#[verifier::external_body]
fn read_u32_le(bytes: &Vec<u8>, pos: usize) -> (r: u32)
    requires
        pos + 4 <= bytes@.len(),
    ensures
        r == spec_u32_from_le(
            bytes@[pos as int],
            bytes@[pos as int + 1],
            bytes@[pos as int + 2],
            bytes@[pos as int + 3],
        ),
{
    LittleEndian::read_u32(&bytes[pos..pos + 4])
}

/// Relies on `byteorder::WriteBytesExt::write_u32` with
/// `byteorder::LittleEndian`: it appends the four little-endian bytes of `n`
/// to the writer. Writing into a `Vec<u8>` cannot fail.
#[verifier::external_body]
fn write_u32_le(out: &mut Vec<u8>, n: u32)
    ensures
        final(out)@ == old(out)@ + spec_u32_le_bytes(n),
{
    out.write_u32::<LittleEndian>(n).expect("appending to a Vec cannot fail");
}

/// Reading the little-endian bytes of `n` back gives `n`.
pub proof fn lemma_u32_le_round_trip(n: u32)
    ensures
        spec_u32_from_le(
            spec_u32_le_bytes(n)[0],
            spec_u32_le_bytes(n)[1],
            spec_u32_le_bytes(n)[2],
            spec_u32_le_bytes(n)[3],
        ) == n,
{
    let b0: u8 = (n & 0xff) as u8;
    let b1: u8 = ((n >> 8) & 0xff) as u8;
    let b2: u8 = ((n >> 16) & 0xff) as u8;
    let b3: u8 = ((n >> 24) & 0xff) as u8;
    assert((b0 as u32) | ((b1 as u32) << 8) | ((b2 as u32) << 16) | ((b3 as u32) << 24) == n)
        by (bit_vector)
        requires
            b0 == (n & 0xff) as u8,
            b1 == ((n >> 8) & 0xff) as u8,
            b2 == ((n >> 16) & 0xff) as u8,
            b3 == ((n >> 24) & 0xff) as u8,
    ;
}

/// The bytes whose little-endian reading is `n` are the little-endian bytes
/// of `n`: the two conversions are mutually inverse.
pub proof fn lemma_u32_le_inverse(b0: u8, b1: u8, b2: u8, b3: u8)
    ensures
        spec_u32_le_bytes(spec_u32_from_le(b0, b1, b2, b3)) == seq![b0, b1, b2, b3],
{
    let n: u32 = spec_u32_from_le(b0, b1, b2, b3);
    assert((n & 0xff) as u8 == b0 && ((n >> 8) & 0xff) as u8 == b1
        && ((n >> 16) & 0xff) as u8 == b2 && ((n >> 24) & 0xff) as u8 == b3)
        by (bit_vector)
        requires
            n == (b0 as u32) | ((b1 as u32) << 8) | ((b2 as u32) << 16) | ((b3 as u32) << 24),
    ;
    assert(spec_u32_le_bytes(n) =~= seq![b0, b1, b2, b3]);
}

/// Copies the 32 hash bytes of a wire record out of `bytes`.
fn read_hash_bytes(bytes: &Vec<u8>) -> (h: [u8; 32])
    requires
        bytes@.len() >= 36,
    ensures
        h@ == bytes@.subrange(4, 36),
{
    let mut h = [0u8; 32];
    let mut i: usize = 0;
    while i < 32
        invariant
            bytes@.len() >= 36,
            i <= 32,
            forall|j: int| 0 <= j < i ==> h@[j] == bytes@[4 + j],
        decreases 32 - i,
    {
        h[i] = bytes[4 + i];
        i += 1;
    }
    proof {
        assert(h@ =~= bytes@.subrange(4, 36));
    }
    h
}

impl InventoryHash {
    /// Appends the 36-byte wire encoding of `self` to `out`.
    pub fn zcash_serialize(&self, out: &mut Vec<u8>)
        ensures
            final(out)@ == old(out)@ + spec_serialize(*self),
    {
        let (code, bytes): (u32, [u8; 32]) = match *self {
            InventoryHash::Error => (0, [0u8; 32]),
            InventoryHash::Tx(hash) => (1, hash.0),
            InventoryHash::Block(hash) => (2, hash.0),
            InventoryHash::FilteredBlock(hash) => (3, hash.0),
        };
        write_u32_le(out, code);
        let ghost mid = out@;
        let mut i: usize = 0;
        while i < 32
            invariant
                i <= 32,
                out@ == mid + bytes@.subrange(0, i as int),
            decreases 32 - i,
        {
            out.push(bytes[i]);
            proof {
                assert(out@ =~= mid + bytes@.subrange(0, i + 1));
            }
            i += 1;
        }
        proof {
            assert(bytes@.subrange(0, 32) =~= bytes@);
            assert(bytes@ =~= spec_hash_bytes_of(*self));
            assert(out@ =~= old(out)@ + spec_serialize(*self));
        }
    }

    /// Decodes the leading 36-byte wire record of `bytes`: the exact result,
    /// success and both error kinds included, is pinned by [`decodes_to`].
    pub fn zcash_deserialize(bytes: &Vec<u8>) -> (r: Result<Self, SerializationError>)
        ensures
            decodes_to(bytes@, r),
    {
        if bytes.len() < 36 {
            return Err(SerializationError::UnexpectedEof);
        }
        let code: u32 = read_u32_le(bytes, 0);
        match code {
            0 => Ok(InventoryHash::Error),
            1 => Ok(InventoryHash::Tx(TxHash(read_hash_bytes(bytes)))),
            2 => Ok(InventoryHash::Block(BlockHash(read_hash_bytes(bytes)))),
            3 => Ok(InventoryHash::FilteredBlock(BlockHash(read_hash_bytes(bytes)))),
            _ => Err(SerializationError::ParseError),
        }
    }
}

/// Round trip: decoding any encoded inventory hash gives back exactly that
/// hash, for every variant and every 32-byte payload.
pub proof fn lemma_codec_round_trip(h: InventoryHash, r: Result<InventoryHash, SerializationError>)
    requires
        decodes_to(spec_serialize(h), r),
    ensures
        r == Ok::<InventoryHash, SerializationError>(h),
{
    let b = spec_serialize(h);
    lemma_u32_le_round_trip(spec_code_of(h));
    assert(b[0] == spec_u32_le_bytes(spec_code_of(h))[0]);
    assert(b[1] == spec_u32_le_bytes(spec_code_of(h))[1]);
    assert(b[2] == spec_u32_le_bytes(spec_code_of(h))[2]);
    assert(b[3] == spec_u32_le_bytes(spec_code_of(h))[3]);
    assert(spec_u32_from_le(b[0], b[1], b[2], b[3]) == spec_code_of(h));
    assert(b.subrange(4, 36) =~= spec_hash_bytes_of(h));
    match r {
        Ok(g) => {
            assert(spec_code_of(g) == spec_code_of(h));
            match (g, h) {
                (InventoryHash::Tx(tg), InventoryHash::Tx(th)) => {
                    assert(tg.0@ =~= th.0@);
                    assert(tg.0 =~= th.0);
                },
                (InventoryHash::Block(bg), InventoryHash::Block(bh)) => {
                    assert(bg.0@ =~= bh.0@);
                    assert(bg.0 =~= bh.0);
                },
                (InventoryHash::FilteredBlock(bg), InventoryHash::FilteredBlock(bh)) => {
                    assert(bg.0@ =~= bh.0@);
                    assert(bg.0 =~= bh.0);
                },
                _ => {},
            }
        },
        Err(_) => {},
    }
}

/// Inverse round trip: a record that decodes to a typed hash is, up to the
/// ignored trailing bytes, the encoding of that hash. A code-0 record is left
/// out: it decodes to `Error` whatever its 32 hash bytes hold, so its bytes
/// need not equal the all-zero encoding of `Error`.
pub proof fn lemma_codec_inverse(b: Seq<u8>, h: InventoryHash)
    requires
        decodes_to(b, Ok(h)),
        !(h is Error),
    ensures
        spec_serialize(h) == b.subrange(0, 36),
{
    let code: u32 = spec_u32_from_le(b[0], b[1], b[2], b[3]);
    lemma_u32_le_inverse(b[0], b[1], b[2], b[3]);
    assert(spec_u32_le_bytes(code) == seq![b[0], b[1], b[2], b[3]]);
    assert(spec_serialize(h) =~= b.subrange(0, 36));
}

} // verus!
