//! The block: an immutable, binary-encoded sorted sequence of key/value
//! entries plus an offset table, with its wire format.
//!
//! Wire layout, little-endian throughout:
//! `entry_0 .. entry_{n-1} | offset_0:u16 .. offset_{n-1}:u16 | n:u16`,
//! where `entry_i = key_len:u16 | key_bytes | value_len:u16 | value_bytes`.
//!
//! `decode` rejects malformed input (a buffer shorter than the two-byte
//! footer, or a footer claiming more offsets than the buffer holds) with
//! `Error::MalformedBlock`; it never panics and never silently succeeds on
//! truncated input.

use vstd::prelude::*;

use crate::errors::Error;
use crate::order::lex_lt;

verus! {

/// The value a pair of little-endian bytes denotes.
pub open spec fn u16_from_le(b0: u8, b1: u8) -> int {
    b0 + 256 * b1
}

/// The two little-endian bytes of a 16-bit value.
pub open spec fn u16_le_bytes(x: u16) -> Seq<u8> {
    seq![(x % 256) as u8, (x / 256) as u8]
}

/// The offset table as it appears on the wire: each offset as two
/// little-endian bytes, in order.
pub open spec fn offsets_to_bytes(offs: Seq<u16>) -> Seq<u8>
    decreases offs.len(),
{
    if offs.len() == 0 {
        Seq::empty()
    } else {
        u16_le_bytes(offs[0]) + offsets_to_bytes(offs.drop_first())
    }
}

/// The encoded form of a block with the given data region and offset table.
pub open spec fn spec_encode(data: Seq<u8>, offsets: Seq<u16>) -> Seq<u8> {
    data + offsets_to_bytes(offsets) + u16_le_bytes(offsets.len() as u16)
}

/// What decoding a buffer yields: the data region and offset table, or
/// nothing when the buffer does not obey the layout. The footer is the
/// single source of truth for how many trailing 16-bit words are offsets.
pub open spec fn spec_decode(s: Seq<u8>) -> Option<(Seq<u8>, Seq<u16>)> {
    if s.len() < 2 {
        None
    } else {
        let n = u16_from_le(s[s.len() - 2], s[s.len() - 1]);
        if 2 * n + 2 > s.len() {
            None
        } else {
            let off_pos = s.len() - 2 - 2 * n;
            Some(
                (
                    s.subrange(0, off_pos),
                    Seq::new(
                        n as nat,
                        |i: int| u16_from_le(s[off_pos + 2 * i], s[off_pos + 2 * i + 1]) as u16,
                    ),
                ),
            )
        }
    }
}

/// The key length an entry starting at `off` declares.
pub open spec fn key_len_at(data: Seq<u8>, off: int) -> int {
    u16_from_le(data[off], data[off + 1])
}

/// The value length an entry starting at `off` declares.
pub open spec fn val_len_at(data: Seq<u8>, off: int) -> int {
    u16_from_le(data[off + 2 + key_len_at(data, off)], data[off + 3 + key_len_at(data, off)])
}

/// Where the value bytes of the entry at `off` begin.
pub open spec fn val_start_at(data: Seq<u8>, off: int) -> int {
    off + 4 + key_len_at(data, off)
}

/// The entry starting at `off` lies entirely within `data`.
pub open spec fn valid_entry(data: Seq<u8>, off: int) -> bool {
    &&& 0 <= off
    &&& off + 2 <= data.len()
    &&& off + 4 + key_len_at(data, off) <= data.len()
    &&& val_start_at(data, off) + val_len_at(data, off) <= data.len()
}

/// The key bytes of the entry starting at `off`.
pub open spec fn entry_key(data: Seq<u8>, off: int) -> Seq<u8> {
    data.subrange(off + 2, off + 2 + key_len_at(data, off))
}

/// The value bytes of the entry starting at `off`.
pub open spec fn entry_val(data: Seq<u8>, off: int) -> Seq<u8> {
    data.subrange(val_start_at(data, off), val_start_at(data, off) + val_len_at(data, off))
}

/// A block: back-to-back encoded entries and the table of their byte
/// offsets, in ascending-key order. Built once, immutable thereafter; read
/// by any number of iterators.
#[derive(Debug)]
pub struct Block {
    /// The data region: back-to-back encoded entries.
    pub data: Vec<u8>,
    /// One byte offset into `data` per entry, in entry order.
    pub offsets: Vec<u16>,
}

impl Block {
    /// The number of entries.
    pub open spec fn num_entries(&self) -> nat {
        self.offsets@.len()
    }

    /// The key and value of the entry at position `i`.
    pub open spec fn entry_at(&self, i: int) -> (Seq<u8>, Seq<u8>) {
        (
            entry_key(self.data@, self.offsets@[i] as int),
            entry_val(self.data@, self.offsets@[i] as int),
        )
    }

    /// The entries, in stored order.
    pub open spec fn entries(&self) -> Seq<(Seq<u8>, Seq<u8>)> {
        Seq::new(self.num_entries(), |i: int| self.entry_at(i))
    }

    /// The block invariant: every offset points at a valid entry, and the
    /// entries are strictly sorted by key. The builder (out of scope here)
    /// establishes it; readers trust it and do not re-validate.
    pub open spec fn wf(&self) -> bool {
        &&& forall|i: int|
            0 <= i < self.offsets@.len() ==> valid_entry(
                self.data@,
                #[trigger] self.offsets@[i] as int,
            )
        &&& forall|i: int, j: int|
            0 <= i < j < self.offsets@.len() ==> lex_lt(
                entry_key(self.data@, #[trigger] self.offsets@[i] as int),
                entry_key(self.data@, #[trigger] self.offsets@[j] as int),
            )
    }

    /// Encode the block to its wire form: data, then the offset table, then
    /// the entry count as the two-byte footer. Deterministic and lossless.
    pub fn encode(&self) -> (r: bytes::Bytes)
        requires
            self.offsets@.len() <= 0xFFFF,
            self.data@.len() + 2 * self.offsets@.len() + 2 <= usize::MAX,
        ensures
            bytes_content(r) == spec_encode(self.data@, self.offsets@),
    {
        let mut buf: Vec<u8> = Vec::new();
        let mut i: usize = 0;
        while i < self.data.len()
            invariant
                i <= self.data@.len(),
                buf@ == self.data@.take(i as int),
                self.data@.len() + 2 * self.offsets@.len() + 2 <= usize::MAX,
            decreases self.data@.len() - i,
        {
            buf.push(self.data[i]);
            proof {
                assert(buf@ =~= self.data@.take(i + 1));
            }
            i = i + 1;
        }
        proof {
            assert(buf@ =~= self.data@);
            assert(self.offsets@.take(0) =~= Seq::<u16>::empty());
        }
        let mut j: usize = 0;
        while j < self.offsets.len()
            invariant
                j <= self.offsets@.len(),
                self.offsets@.len() <= 0xFFFF,
                self.data@.len() + 2 * self.offsets@.len() + 2 <= usize::MAX,
                buf@ == self.data@ + offsets_to_bytes(self.offsets@.take(j as int)),
            decreases self.offsets@.len() - j,
        {
            let x = self.offsets[j];
            buf.push((x % 256) as u8);
            buf.push((x / 256) as u8);
            proof {
                lemma_offsets_to_bytes_push(self.offsets@.take(j as int), self.offsets@[j as int]);
                assert(self.offsets@.take(j as int).push(self.offsets@[j as int]) =~= self.offsets@
                    .take(j + 1));
                assert(buf@ =~= self.data@ + offsets_to_bytes(self.offsets@.take(j + 1)));
            }
            j = j + 1;
        }
        let n = self.offsets.len() as u16;
        buf.push((n % 256) as u8);
        buf.push((n / 256) as u8);
        proof {
            assert(self.offsets@.take(self.offsets@.len() as int) =~= self.offsets@);
            assert(buf@ =~= spec_encode(self.data@, self.offsets@));
        }
        bytes_from_vec(buf)
    }

    /// Decode a buffer in the wire layout back into a block: read the entry
    /// count from the footer, split off the offset table immediately before
    /// it, and take everything earlier as the data region. Malformed input
    /// is rejected with `Error::MalformedBlock`.
    pub fn decode(buf: &[u8]) -> (r: Result<Block, Error>)
        ensures
            match r {
                Ok(b) => spec_decode(buf@) == Some((b.data@, b.offsets@)),
                Err(e) => e is MalformedBlock && spec_decode(buf@) is None,
            },
    {
        if buf.len() < 2 {
            return Err(Error::MalformedBlock);
        }
        let footer_pos = buf.len() - 2;
        let b0 = *vstd::slice::slice_index_get(buf, footer_pos);
        let b1 = *vstd::slice::slice_index_get(buf, footer_pos + 1);
        let n: usize = (b0 as usize) + 256 * (b1 as usize);
        if n > (buf.len() - 2) / 2 {
            return Err(Error::MalformedBlock);
        }
        let off_pos = footer_pos - 2 * n;
        let mut offsets: Vec<u16> = Vec::new();
        let mut i: usize = 0;
        while i < n
            invariant
                i <= n,
                buf@.len() <= usize::MAX,
                2 * n + 2 <= buf@.len(),
                off_pos == buf@.len() - 2 - 2 * n,
                offsets@.len() == i,
                forall|k: int|
                    0 <= k < i ==> #[trigger] offsets@[k] == u16_from_le(
                        buf@[off_pos + 2 * k],
                        buf@[off_pos + 2 * k + 1],
                    ) as u16,
            decreases n - i,
        {
            let lo = *vstd::slice::slice_index_get(buf, off_pos + 2 * i);
            let hi = *vstd::slice::slice_index_get(buf, off_pos + 2 * i + 1);
            offsets.push((lo as u16) + 256 * (hi as u16));
            i = i + 1;
        }
        let data = vstd::slice::slice_to_vec(vstd::slice::slice_subrange(buf, 0, off_pos));
        let b = Block { data, offsets };
        proof {
            let dec = spec_decode(buf@);
            assert(dec is Some);
            assert(dec->Some_0.0 =~= b.data@);
            assert(dec->Some_0.1 =~= b.offsets@);
        }
        Ok(b)
    }
}

/// The wire form of an offset table is two bytes per offset.
pub proof fn lemma_offsets_to_bytes_len(offs: Seq<u16>)
    ensures
        offsets_to_bytes(offs).len() == 2 * offs.len(),
    decreases offs.len(),
{
    if offs.len() > 0 {
        lemma_offsets_to_bytes_len(offs.drop_first());
    }
}

/// Appending an offset appends its two little-endian bytes.
pub proof fn lemma_offsets_to_bytes_push(offs: Seq<u16>, x: u16)
    ensures
        offsets_to_bytes(offs.push(x)) == offsets_to_bytes(offs) + u16_le_bytes(x),
    decreases offs.len(),
{
    if offs.len() == 0 {
        assert(offs.push(x)[0] == x);
        assert(offs.push(x).drop_first() =~= Seq::<u16>::empty());
        assert(offsets_to_bytes(offs.push(x)) == u16_le_bytes(x) + offsets_to_bytes(
            offs.push(x).drop_first(),
        ));
        assert(offsets_to_bytes(offs.push(x)) =~= offsets_to_bytes(offs) + u16_le_bytes(x));
    } else {
        lemma_offsets_to_bytes_push(offs.drop_first(), x);
        assert(offs.push(x)[0] == offs[0]);
        assert(offs.push(x).drop_first() =~= offs.drop_first().push(x));
        assert(offsets_to_bytes(offs.push(x)) == u16_le_bytes(offs[0]) + (offsets_to_bytes(
            offs.drop_first(),
        ) + u16_le_bytes(x)));
        assert(offsets_to_bytes(offs.push(x)) =~= offsets_to_bytes(offs) + u16_le_bytes(x));
    }
}

/// Each offset can be read back from its position in the wire form.
pub proof fn lemma_offsets_to_bytes_index(offs: Seq<u16>)
    ensures
        offsets_to_bytes(offs).len() == 2 * offs.len(),
        forall|i: int|
            0 <= i < offs.len() ==> u16_from_le(
                offsets_to_bytes(offs)[2 * i],
                offsets_to_bytes(offs)[2 * i + 1],
            ) == #[trigger] offs[i],
    decreases offs.len(),
{
    lemma_offsets_to_bytes_len(offs);
    if offs.len() > 0 {
        lemma_offsets_to_bytes_index(offs.drop_first());
        vstd::arithmetic::div_mod::lemma_fundamental_div_mod(offs[0] as int, 256);
        assert forall|i: int| 0 <= i < offs.len() implies u16_from_le(
            offsets_to_bytes(offs)[2 * i],
            offsets_to_bytes(offs)[2 * i + 1],
        ) == #[trigger] offs[i] by {
            if i > 0 {
                assert(offsets_to_bytes(offs)[2 * i] == offsets_to_bytes(offs.drop_first())[2 * (i
                    - 1)]);
                assert(offsets_to_bytes(offs)[2 * i + 1] == offsets_to_bytes(offs.drop_first())[2
                    * (i - 1) + 1]);
                assert(offs.drop_first()[i - 1] == offs[i]);
            }
        }
    }
}

/// Round trip: decoding an encoded block yields exactly the data region and
/// offset table it was built from, for any block whose entries satisfy the
/// sort invariant and whose entry count fits the two-byte footer.
pub proof fn lemma_encode_decode_roundtrip(b: Block)
    requires
        b.wf(),
        b.offsets@.len() <= 0xFFFF,
    ensures
        spec_decode(spec_encode(b.data@, b.offsets@)) == Some((b.data@, b.offsets@)),
{
    let data = b.data@;
    let offsets = b.offsets@;
    let s = spec_encode(data, offsets);
    let n = offsets.len() as int;
    lemma_offsets_to_bytes_index(offsets);
    vstd::arithmetic::div_mod::lemma_fundamental_div_mod(n, 256);
    assert(s.len() == data.len() + 2 * n + 2);
    assert(s[s.len() - 2] == ((offsets.len() as u16) % 256) as u8);
    assert(s[s.len() - 1] == ((offsets.len() as u16) / 256) as u8);
    assert(u16_from_le(s[s.len() - 2], s[s.len() - 1]) == n);
    let off_pos = s.len() - 2 - 2 * n;
    assert(off_pos == data.len());
    let dec = spec_decode(s);
    assert(dec is Some);
    assert(dec->Some_0.0 =~= data);
    assert forall|i: int| 0 <= i < n implies dec->Some_0.1[i] == offsets[i] by {
        assert(s[off_pos + 2 * i] == offsets_to_bytes(offsets)[2 * i]);
        assert(s[off_pos + 2 * i + 1] == offsets_to_bytes(offsets)[2 * i + 1]);
    }
    assert(dec->Some_0.1 =~= offsets);
}

/// The bytes a `bytes::Bytes` buffer holds.
pub uninterp spec fn bytes_content(b: bytes::Bytes) -> Seq<u8>;

#[verifier::external_type_specification]
#[verifier::external_body]
pub struct ExBytes(bytes::Bytes);

/// Relies on `<bytes::Bytes as From<Vec<u8>>>::from`: the buffer holds
/// exactly the vector's bytes.
#[verifier::external_body]
fn bytes_from_vec(v: Vec<u8>) -> (r: bytes::Bytes)
    ensures
        bytes_content(r) == v@,
{
    bytes::Bytes::from(v)
}

} // verus!
