//! One log record and its on-disk encoding.
//!
//! An entry is laid out as `crc | tstamp | ksz | vsz | key bytes | value
//! bytes` with all header fields little-endian: `crc` four bytes, `tstamp`
//! eight, and the two sizes eight each. The CRC covers the value bytes
//! only. A tombstone is an entry whose value is empty.

use vstd::prelude::*;
use vstd::string::StrSliceExecFns;
use vstd::utf8::decode_utf8;
use vstd::utf8::encode_scalar;
use vstd::utf8::encode_utf8;
use vstd::utf8::valid_utf8;
use crate::error::E;
use crate::error::R;
use crate::wire::le_bytes_to_u32;
use crate::wire::le_bytes_to_u64;
use crate::wire::lemma_u32_le_round_trip;
use crate::wire::lemma_u64_le_round_trip;
use crate::wire::read_u32_le;
use crate::wire::read_u64_le;
use crate::wire::sub_vec;
use crate::wire::u32_le_bytes;
use crate::wire::u32_to_le_vec;
use crate::wire::u64_le_bytes;
use crate::wire::u64_to_le_vec;

verus! {

broadcast use vstd::utf8::encode_utf8_valid_utf8, vstd::utf8::encode_utf8_decode_utf8, vstd::utf8::decode_utf8_encode_utf8;

/// Bytes taken by the fixed header of every entry: the CRC (4), the
/// timestamp (8), and the two sizes (8 each).
pub const ENTRY_HEADER_SIZE: usize = 28;

/// The checksum that the `crc` crate computes with the 32-bit ISO-HDLC
/// algorithm; it depends on the bytes alone.
pub uninterp spec fn crc32_of(v: Seq<u8>) -> u32;

/// The mathematical model of one entry.
#[verifier::ext_equal]
pub ghost struct EntryV {
    pub crc: u32,
    pub tstamp: u64,
    pub k: Seq<char>,
    pub v: Seq<u8>,
}

/// The UTF-8 bytes under which a key is stored on disk.
pub open spec fn key_bytes(k: Seq<char>) -> Seq<u8> {
    encode_utf8(k)
}

/// Full encoded size of an entry in bytes.
pub open spec fn spec_entry_size(e: EntryV) -> int {
    ENTRY_HEADER_SIZE + key_bytes(e.k).len() + e.v.len()
}

/// A storable entry: its key is non-empty and its encoding fits in memory.
pub open spec fn entry_wf(e: EntryV) -> bool {
    &&& key_bytes(e.k).len() > 0
    &&& spec_entry_size(e) <= usize::MAX as int
}

/// A tombstone records a deletion: it carries no value bytes.
pub open spec fn spec_is_tombstone(e: EntryV) -> bool {
    e.v.len() == 0
}

/// The on-disk encoding of an entry.
pub open spec fn spec_encode(e: EntryV) -> Seq<u8> {
    u32_le_bytes(e.crc) + u64_le_bytes(e.tstamp) + u64_le_bytes(key_bytes(e.k).len() as u64)
        + u64_le_bytes(e.v.len() as u64) + key_bytes(e.k) + e.v
}

/// Parse one entry from the front of `b`; bytes past the entry are
/// ignored. `None` when `b` is too short, declares an empty key, or holds
/// a key that is not valid UTF-8.
pub open spec fn spec_decode(b: Seq<u8>) -> Option<EntryV> {
    if b.len() < ENTRY_HEADER_SIZE {
        None
    } else {
        let ksz = le_bytes_to_u64(b.subrange(12, 20)) as int;
        let vsz = le_bytes_to_u64(b.subrange(20, 28)) as int;
        if ksz == 0 || ENTRY_HEADER_SIZE + ksz + vsz > b.len() {
            None
        } else {
            let kb = b.subrange(28, 28 + ksz);
            if !valid_utf8(kb) {
                None
            } else {
                Some(
                    EntryV {
                        crc: le_bytes_to_u32(b.subrange(0, 4)),
                        tstamp: le_bytes_to_u64(b.subrange(4, 12)),
                        k: decode_utf8(kb),
                        v: b.subrange(28 + ksz, 28 + ksz + vsz),
                    },
                )
            }
        }
    }
}

/// Keys with the same byte encoding are the same key.
pub proof fn lemma_key_bytes_injective(a: Seq<char>, b: Seq<char>)
    requires
        key_bytes(a) == key_bytes(b),
    ensures
        a == b,
{
    assert(decode_utf8(encode_utf8(a)) == a);
    assert(decode_utf8(encode_utf8(b)) == b);
}

/// A key's byte encoding is empty exactly when the key has no characters.
pub proof fn lemma_key_bytes_empty_iff(k: Seq<char>)
    ensures
        (key_bytes(k).len() == 0) <==> (k.len() == 0),
{
    if k.len() > 0 {
        assert(encode_utf8(k) == encode_scalar(k[0] as u32) + encode_utf8(k.drop_first()));
        assert(encode_scalar(k[0] as u32).len() >= 1);
    }
}

/// What a successful parse pins down: the entry is within `b`, its key
/// bytes sit right after the header, and its sizes match the header.
pub proof fn lemma_decode_size(b: Seq<u8>)
    requires
        spec_decode(b) is Some,
    ensures
        ({
            let e = spec_decode(b)->Some_0;
            &&& ENTRY_HEADER_SIZE < spec_entry_size(e) <= b.len()
            &&& key_bytes(e.k) == b.subrange(28, 28 + key_bytes(e.k).len() as int)
            &&& key_bytes(e.k).len() == le_bytes_to_u64(b.subrange(12, 20)) as int
            &&& e.v.len() == le_bytes_to_u64(b.subrange(20, 28)) as int
            &&& b.len() <= usize::MAX as int ==> entry_wf(e)
        }),
{
    let e = spec_decode(b)->Some_0;
    let ksz = le_bytes_to_u64(b.subrange(12, 20)) as int;
    let kb = b.subrange(28, 28 + ksz);
    assert(encode_utf8(decode_utf8(kb)) == kb);
}

/// Parsing an encoding followed by anything recovers the entry.
pub proof fn lemma_decode_encode_prefix(e: EntryV, rest: Seq<u8>)
    requires
        entry_wf(e),
    ensures
        spec_decode(spec_encode(e) + rest) == Some(e),
{
    let kb = key_bytes(e.k);
    let ksz = kb.len() as int;
    let vsz = e.v.len() as int;
    let b = spec_encode(e) + rest;
    assert(usize::MAX as int <= u64::MAX as int);
    assert(b.subrange(0, 4) =~= u32_le_bytes(e.crc));
    assert(b.subrange(4, 12) =~= u64_le_bytes(e.tstamp));
    assert(b.subrange(12, 20) =~= u64_le_bytes(ksz as u64));
    assert(b.subrange(20, 28) =~= u64_le_bytes(vsz as u64));
    lemma_u32_le_round_trip(e.crc);
    lemma_u64_le_round_trip(e.tstamp);
    lemma_u64_le_round_trip(ksz as u64);
    lemma_u64_le_round_trip(vsz as u64);
    assert(b.subrange(28, 28 + ksz) =~= kb);
    assert(b.subrange(28 + ksz, 28 + ksz + vsz) =~= e.v);
    assert(spec_decode(b)->Some_0 =~= e);
}

/// Law: encode and decode are inverses. For every well-formed entry,
/// decoding its encoding gives the entry back.
pub proof fn lemma_encode_decode_round_trip(e: EntryV)
    requires
        entry_wf(e),
    ensures
        spec_decode(spec_encode(e)) == Some(e),
{
    lemma_decode_encode_prefix(e, Seq::<u8>::empty());
    assert(spec_encode(e) + Seq::<u8>::empty() =~= spec_encode(e));
}

/// A successful parse only looks at the entry's own bytes: growing the
/// buffer to the right does not change it.
pub proof fn lemma_decode_extend(b: Seq<u8>, ext: Seq<u8>)
    requires
        spec_decode(b) is Some,
    ensures
        spec_decode(b + ext) == spec_decode(b),
{
    let c = b + ext;
    let ksz = le_bytes_to_u64(b.subrange(12, 20)) as int;
    let vsz = le_bytes_to_u64(b.subrange(20, 28)) as int;
    assert(c.subrange(0, 4) =~= b.subrange(0, 4));
    assert(c.subrange(4, 12) =~= b.subrange(4, 12));
    assert(c.subrange(12, 20) =~= b.subrange(12, 20));
    assert(c.subrange(20, 28) =~= b.subrange(20, 28));
    assert(c.subrange(28, 28 + ksz) =~= b.subrange(28, 28 + ksz));
    assert(c.subrange(28 + ksz, 28 + ksz + vsz) =~= b.subrange(28 + ksz, 28 + ksz + vsz));
    assert(spec_decode(c)->Some_0 =~= spec_decode(b)->Some_0);
}

/// A successful parse still succeeds, unchanged, on any truncation of the
/// buffer that keeps the whole entry.
pub proof fn lemma_decode_truncate(b: Seq<u8>, n: int)
    requires
        spec_decode(b) is Some,
        spec_entry_size(spec_decode(b)->Some_0) <= n <= b.len(),
    ensures
        spec_decode(b.take(n)) == spec_decode(b),
{
    let c = b.take(n);
    let ksz = le_bytes_to_u64(b.subrange(12, 20)) as int;
    let vsz = le_bytes_to_u64(b.subrange(20, 28)) as int;
    lemma_decode_size(b);
    assert(c.subrange(0, 4) =~= b.subrange(0, 4));
    assert(c.subrange(4, 12) =~= b.subrange(4, 12));
    assert(c.subrange(12, 20) =~= b.subrange(12, 20));
    assert(c.subrange(20, 28) =~= b.subrange(20, 28));
    assert(c.subrange(28, 28 + ksz) =~= b.subrange(28, 28 + ksz));
    assert(c.subrange(28 + ksz, 28 + ksz + vsz) =~= b.subrange(28 + ksz, 28 + ksz + vsz));
    assert(spec_decode(c)->Some_0 =~= spec_decode(b)->Some_0);
}

/// One log record: a key, its value bytes, a timestamp, and the CRC of
/// the value bytes.
#[derive(Debug)]
pub struct Entry {
    crc: u32,
    tstamp: u64,
    ksz: usize,
    value_sz: usize,
    k: String,
    v: Vec<u8>,
}

impl View for Entry {
    type V = EntryV;

    closed spec fn view(&self) -> EntryV {
        EntryV { crc: self.crc, tstamp: self.tstamp, k: self.k@, v: self.v@ }
    }
}

impl Entry {
    /// The cached sizes of two entries agree.
    pub closed spec fn sizes_eq(&self, other: &Entry) -> bool {
        &&& self.ksz == other.ksz
        &&& self.value_sz == other.value_sz
    }

    /// The cached sizes agree with the key and value they describe.
    pub closed spec fn sizes_ok(&self) -> bool {
        &&& self.ksz == key_bytes(self.k@).len()
        &&& self.value_sz == self.v@.len()
    }

    /// A well-formed entry: consistent sizes, non-empty key, encoding that
    /// fits in memory.
    pub open spec fn wf(&self) -> bool {
        &&& self.sizes_ok()
        &&& entry_wf(self@)
    }

    /// Relies on the `crc` crate: `Crc::<u32>::checksum` with
    /// `CRC_32_ISO_HDLC` computes a checksum that is a deterministic
    /// function of the bytes alone.
    #[verifier::external_body]
    pub fn calculate_crc_by_vec(v: &Vec<u8>) -> (r: u32)
        ensures
            r == crc32_of(v@),
    {
        crc::Crc::<u32>::new(&crc::CRC_32_ISO_HDLC).checksum(v.as_slice())
    }

    /// Relies on std's `SystemTime`: milliseconds elapsed since the Unix
    /// epoch, or zero if the clock reads earlier than the epoch.
    #[verifier::external_body]
    pub fn get_tstamp() -> u64 {
        match std::time::SystemTime::now().duration_since(std::time::UNIX_EPOCH) {
            Ok(d) => d.as_millis() as u64,
            Err(_) => 0,
        }
    }

    /// A deletion record for `k`: empty value, CRC of the empty byte
    /// sequence. Rejects an empty key.
    pub fn get_tombstone_with_given_key(k: String) -> (r: R<Self>)
        requires
            ENTRY_HEADER_SIZE + key_bytes(k@).len() <= usize::MAX,
        ensures
            match r {
                Ok(e) => {
                    &&& k@.len() > 0
                    &&& e.wf()
                    &&& spec_is_tombstone(e@)
                    &&& e@.k == k@
                    &&& e@.v == Seq::<u8>::empty()
                    &&& e@.crc == crc32_of(Seq::<u8>::empty())
                },
                Err(err) => err == E::EmptyKey && k@.len() == 0,
            },
    {
        if k.as_str().is_empty() {
            return Err(E::EmptyKey);
        }
        let v: Vec<u8> = Vec::with_capacity(0);
        proof {
            lemma_key_bytes_empty_iff(k@);
        }
        Ok(Self::get_entry(k, v))
    }

    /// A normal record mapping `k` to `v`. Rejects an empty key, then an
    /// empty value.
    pub fn new(k: String, v: Vec<u8>) -> (r: R<Self>)
        requires
            ENTRY_HEADER_SIZE + key_bytes(k@).len() + v@.len() <= usize::MAX,
        ensures
            match r {
                Ok(e) => {
                    &&& k@.len() > 0
                    &&& v@.len() > 0
                    &&& e.wf()
                    &&& !spec_is_tombstone(e@)
                    &&& e@.k == k@
                    &&& e@.v == v@
                    &&& e@.crc == crc32_of(v@)
                },
                Err(err) => {
                    &&& (err == E::EmptyKey || err == E::EmptyValue)
                    &&& (err == E::EmptyKey <==> k@.len() == 0)
                    &&& (err == E::EmptyValue <==> (k@.len() > 0 && v@.len() == 0))
                },
            },
    {
        if k.as_str().is_empty() {
            return Err(E::EmptyKey);
        }
        if v.len() == 0 {
            return Err(E::EmptyValue);
        }
        proof {
            lemma_key_bytes_empty_iff(k@);
        }
        Ok(Self::get_entry(k, v))
    }

    /// Builds the record around the given key and value, stamping it with
    /// the current time and the CRC of the value bytes.
    fn get_entry(k: String, v: Vec<u8>) -> (r: Self)
        requires
            k@.len() > 0,
            ENTRY_HEADER_SIZE + key_bytes(k@).len() + v@.len() <= usize::MAX,
        ensures
            r.wf(),
            r@.k == k@,
            r@.v == v@,
            r@.crc == crc32_of(v@),
    {
        let crc = Self::calculate_crc_by_vec(&v);
        let tstamp = Self::get_tstamp();
        let value_sz = v.len();
        let ksz = k.as_str().len();
        proof {
            lemma_key_bytes_empty_iff(k@);
        }
        Self { crc, tstamp, ksz, value_sz, k, v }
    }

    /// Serialize this entry in the on-disk layout.
    pub fn encode(&self) -> (r: Vec<u8>)
        requires
            self.wf(),
        ensures
            r@ == spec_encode(self@),
            r@.len() == spec_entry_size(self@),
    {
        let mut ans: Vec<u8> = u32_to_le_vec(self.crc);
        let mut tail = u64_to_le_vec(self.tstamp);
        ans.append(&mut tail);
        let mut tail = u64_to_le_vec(self.ksz as u64);
        ans.append(&mut tail);
        let mut tail = u64_to_le_vec(self.value_sz as u64);
        ans.append(&mut tail);
        let mut tail = self.k.as_str().as_bytes_vec();
        ans.append(&mut tail);
        let mut tail = self.v.clone();
        ans.append(&mut tail);
        proof {
            assert(ans@ =~= spec_encode(self@));
        }
        ans
    }

    /// Parse an entry from the front of `bytes`, mirroring `spec_decode`.
    pub fn decode(bytes: &Vec<u8>) -> (r: Option<Self>)
        ensures
            match r {
                Some(e) => spec_decode(bytes@) == Some(e@) && e.wf(),
                None => spec_decode(bytes@) is None,
            },
    {
        let n: usize = bytes.len();
        if n < ENTRY_HEADER_SIZE {
            return None;
        }
        let crc = read_u32_le(bytes, 0);
        let tstamp = read_u64_le(bytes, 4);
        let ksz64 = read_u64_le(bytes, 12);
        let vsz64 = read_u64_le(bytes, 20);
        let avail: u64 = (n - ENTRY_HEADER_SIZE) as u64;
        if ksz64 == 0 || ksz64 > avail || vsz64 > avail - ksz64 {
            return None;
        }
        let ksz = ksz64 as usize;
        let vsz = vsz64 as usize;
        let k_bytes = sub_vec(bytes, ENTRY_HEADER_SIZE, ENTRY_HEADER_SIZE + ksz);
        let k = match string_from_utf8(k_bytes) {
            Some(s) => s,
            None => {
                return None;
            },
        };
        let v = sub_vec(bytes, ENTRY_HEADER_SIZE + ksz, ENTRY_HEADER_SIZE + ksz + vsz);
        let e = Self { crc, tstamp, ksz, value_sz: vsz, k, v };
        proof {
            assert(spec_decode(bytes@)->Some_0 =~= e@);
        }
        Some(e)
    }

    /// Whether this entry records a deletion.
    pub fn is_tombstone(&self) -> (r: bool)
        requires
            self.wf(),
        ensures
            r == spec_is_tombstone(self@),
    {
        self.value_sz == 0 && self.v.len() == 0
    }

    pub fn crc(&self) -> (r: u32)
        ensures
            r == self@.crc,
    {
        self.crc
    }

    pub fn tstamp(&self) -> (r: u64)
        ensures
            r == self@.tstamp,
    {
        self.tstamp
    }

    /// Byte length of the key.
    pub fn ksz(&self) -> (r: usize)
        requires
            self.wf(),
        ensures
            r == key_bytes(self@.k).len(),
    {
        self.ksz
    }

    /// Byte length of the value.
    pub fn value_sz(&self) -> (r: usize)
        requires
            self.wf(),
        ensures
            r == self@.v.len(),
    {
        self.value_sz
    }

    pub fn k(&self) -> (r: &str)
        ensures
            r@ == self@.k,
    {
        self.k.as_str()
    }

    pub fn v(&self) -> (r: &Vec<u8>)
        ensures
            r@ == self@.v,
    {
        &self.v
    }

    /// Consume the entry, returning its value bytes.
    pub fn into_v(self) -> (r: Vec<u8>)
        ensures
            r@ == self@.v,
    {
        self.v
    }

    /// Full encoded size of this entry, header included.
    pub fn get_self_size(&self) -> (r: usize)
        requires
            self.wf(),
        ensures
            r == spec_entry_size(self@),
    {
        let mut size: usize = 0;
        size += 4;
        size += 8;
        size += 8;
        size += 8;
        size += self.ksz;
        size += self.value_sz;
        size
    }
}

/// Relies on std's `String::from_utf8`: succeeds exactly on valid UTF-8
/// and returns the string of those very bytes.
#[verifier::external_body]
fn string_from_utf8(bytes: Vec<u8>) -> (r: Option<String>)
    ensures
        match r {
            Some(s) => valid_utf8(bytes@) && s@ == decode_utf8(bytes@),
            None => !valid_utf8(bytes@),
        },
{
    String::from_utf8(bytes).ok()
}

impl PartialEq for Entry {
    fn eq(&self, other: &Self) -> (r: bool) {
        let r = self.crc == other.crc && self.tstamp == other.tstamp && self.ksz == other.ksz
            && self.value_sz == other.value_sz && self.k == other.k && self.v == other.v;
        proof {
            if r {
                assert(self.v@ =~= other.v@);
            } else {
                if self.v@ == other.v@ {
                    assert(forall|i: int| 0 <= i < self.v@.len() ==> self.v@[i] == other.v@[i]);
                }
            }
        }
        r
    }
}

impl Eq for Entry {

}

impl vstd::std_specs::cmp::PartialEqSpecImpl for Entry {
    open spec fn obeys_eq_spec() -> bool {
        true
    }

    open spec fn eq_spec(&self, other: &Entry) -> bool {
        &&& self@.crc == other@.crc
        &&& self@.tstamp == other@.tstamp
        &&& self.sizes_eq(other)
        &&& self@.k == other@.k
        &&& self@.v == other@.v
    }
}

} // verus!
