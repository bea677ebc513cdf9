//! One segment of the log: a single append-only file, its id, the offset
//! at which the next append begins, and its role.
//!
//! A segment's contents are a concatenation of encoded entries, possibly
//! followed by one truncated record if a crash cut an append short. The
//! `scan` specification below parses entries from a given position until
//! a parse fails, recording for each the location it occupies; it is the
//! reference for recovery and for every location the index stores.

use vstd::prelude::*;
use crate::entry::Entry;
use crate::entry::EntryV;
use crate::entry::entry_wf;
use crate::entry::lemma_decode_encode_prefix;
use crate::entry::lemma_decode_extend;
use crate::entry::lemma_decode_size;
use crate::entry::lemma_decode_truncate;
use crate::entry::spec_decode;
use crate::entry::spec_encode;
use crate::entry::spec_entry_size;
use crate::entry::ENTRY_HEADER_SIZE;
use crate::entry_with_meta_data::EntryWithMetaData;
use crate::error::E;
use crate::error::R;
use crate::fio::IOManager;
use crate::meta_data::MetaData;
use crate::wire::read_u64_le;

verus! {

/// The file-name suffix of every data file.
pub const DATA_FILE_SUFFIX: &'static str = ".bck";

/// The role of a segment: sealed segments only serve reads, the one
/// active segment also takes appends.
#[derive(Debug, Clone, Copy, PartialEq, Eq, Structural)]
pub enum DataFileType {
    /// A sealed segment; appending is forbidden.
    OLD,
    /// The active segment; exactly one per engine.
    ACTIVE,
}

/// What scanning a segment from some position yields: the entries in
/// on-disk order, each with its location, and the position where the scan
/// stopped.
#[verifier::ext_equal]
pub ghost struct ScanResult {
    pub locs: Seq<(EntryV, MetaData)>,
    pub end: int,
}

/// Parse entries from `b` starting at `pos` until a parse fails, pairing
/// each with the location it occupies in the segment `file_id`.
pub open spec fn scan(b: Seq<u8>, file_id: u32, pos: int) -> ScanResult
    decreases b.len() - pos
        when 0 <= pos <= b.len()
        via scan_decreases
{
    match spec_decode(b.skip(pos)) {
        None => ScanResult { locs: Seq::empty(), end: pos },
        Some(e) => {
            let sz = spec_entry_size(e);
            let md = MetaData {
                file_id,
                entry_sz: sz as usize,
                entry_start_pos: pos as usize,
                tstamp: e.tstamp,
            };
            let rest = scan(b, file_id, pos + sz);
            ScanResult { locs: seq![(e, md)] + rest.locs, end: rest.end }
        },
    }
}

#[via_fn]
proof fn scan_decreases(b: Seq<u8>, file_id: u32, pos: int) {
    if spec_decode(b.skip(pos)) is Some {
        lemma_decode_size(b.skip(pos));
    }
}

/// Scanning consumed the whole range: nothing after the last entry.
pub open spec fn scan_clean(b: Seq<u8>, file_id: u32) -> bool {
    scan(b, file_id, 0).end == b.len()
}

/// Basic shape of a scan: it never stops before `pos`, never runs past
/// the buffer, and every location it reports is a well-formed, in-bounds
/// entry of the segment.
pub proof fn lemma_scan_valid(b: Seq<u8>, file_id: u32, pos: int)
    requires
        0 <= pos <= b.len(),
        b.len() <= usize::MAX as int,
    ensures
        ({
            let r = scan(b, file_id, pos);
            &&& pos <= r.end <= b.len()
            &&& forall|i: int|
                0 <= i < r.locs.len() ==> {
                    let (e, md) = #[trigger] r.locs[i];
                    &&& md.file_id == file_id
                    &&& pos <= md.entry_start_pos
                    &&& md.entry_start_pos + md.entry_sz <= b.len()
                    &&& md.entry_sz == spec_entry_size(e)
                    &&& md.tstamp == e.tstamp
                    &&& entry_wf(e)
                    &&& spec_decode(
                        b.subrange(
                            md.entry_start_pos as int,
                            md.entry_start_pos + md.entry_sz,
                        ),
                    ) == Some(e)
                }
        }),
    decreases b.len() - pos,
{
    let r = scan(b, file_id, pos);
    match spec_decode(b.skip(pos)) {
        None => {},
        Some(e) => {
            let sz = spec_entry_size(e);
            lemma_decode_size(b.skip(pos));
            lemma_decode_truncate(b.skip(pos), sz);
            assert(b.skip(pos).take(sz) =~= b.subrange(pos, pos + sz));
            lemma_scan_valid(b, file_id, pos + sz);
        },
    }
}

/// Appending one encoded entry to a cleanly scanned segment extends the
/// scan by exactly that entry, located at the old end of the segment, and
/// the segment stays clean.
pub proof fn lemma_scan_append(b: Seq<u8>, file_id: u32, pos: int, e: EntryV)
    requires
        0 <= pos <= b.len(),
        b.len() + spec_entry_size(e) <= usize::MAX as int,
        scan(b, file_id, pos).end == b.len(),
        entry_wf(e),
    ensures
        ({
            let c = b + spec_encode(e);
            let md = MetaData {
                file_id,
                entry_sz: spec_entry_size(e) as usize,
                entry_start_pos: b.len() as usize,
                tstamp: e.tstamp,
            };
            &&& scan(c, file_id, pos).locs == scan(b, file_id, pos).locs.push((e, md))
            &&& scan(c, file_id, pos).end == c.len()
        }),
    decreases b.len() - pos,
{
    let c = b + spec_encode(e);
    let md = MetaData {
        file_id,
        entry_sz: spec_entry_size(e) as usize,
        entry_start_pos: b.len() as usize,
        tstamp: e.tstamp,
    };
    if pos == b.len() {
        assert(b.skip(pos) =~= Seq::<u8>::empty());
        assert(spec_decode(b.skip(pos)) is None);
        assert(scan(b, file_id, pos).locs =~= Seq::<(EntryV, MetaData)>::empty());
        assert(c.skip(pos) =~= spec_encode(e));
        lemma_decode_encode_prefix(e, Seq::<u8>::empty());
        assert(spec_encode(e) + Seq::<u8>::empty() =~= spec_encode(e));
        assert(spec_decode(c.skip(pos)) == Some(e));
        let pos2 = pos + spec_entry_size(e);
        assert(c.skip(pos2) =~= Seq::<u8>::empty());
        assert(spec_decode(c.skip(pos2)) is None);
        assert(scan(c, file_id, pos2).locs == Seq::<(EntryV, MetaData)>::empty());
        assert(scan(c, file_id, pos2).end == pos2);
        assert(scan(c, file_id, pos).locs =~= seq![(e, md)]);
        assert(scan(b, file_id, pos).locs.push((e, md)) =~= seq![(e, md)]);
    } else {
        let e1 = spec_decode(b.skip(pos))->Some_0;
        assert(spec_decode(b.skip(pos)) is Some) by {
            if spec_decode(b.skip(pos)) is None {
                assert(scan(b, file_id, pos).end == pos);
            }
        }
        lemma_decode_size(b.skip(pos));
        let sz1 = spec_entry_size(e1);
        assert(c.skip(pos) =~= b.skip(pos) + spec_encode(e));
        lemma_decode_extend(b.skip(pos), spec_encode(e));
        lemma_scan_append(b, file_id, pos + sz1, e);
        assert(seq![(e1, scan_head_md(b, file_id, pos))] + scan(b, file_id, pos + sz1).locs.push(
            (e, md),
        ) =~= (seq![(e1, scan_head_md(b, file_id, pos))] + scan(b, file_id, pos + sz1).locs).push(
            (e, md),
        ));
    }
}

/// The location that the head of a scan at `pos` occupies.
pub open spec fn scan_head_md(b: Seq<u8>, file_id: u32, pos: int) -> MetaData {
    let e = spec_decode(b.skip(pos))->Some_0;
    MetaData {
        file_id,
        entry_sz: spec_entry_size(e) as usize,
        entry_start_pos: pos as usize,
        tstamp: e.tstamp,
    }
}

/// A decimal digit.
pub open spec fn is_digit(c: char) -> bool {
    48 <= c as u32 <= 57
}

/// The value of a decimal digit.
pub open spec fn digit_val(c: char) -> int {
    c as u32 as int - 48
}

/// The number that a sequence of decimal digits denotes.
pub open spec fn decimal_value(s: Seq<char>) -> int
    decreases s.len(),
{
    if s.len() == 0 {
        0
    } else {
        decimal_value(s.drop_last()) * 10 + digit_val(s.last())
    }
}

/// The value of a run of digits is never negative.
pub proof fn lemma_decimal_nonneg(s: Seq<char>)
    requires
        forall|i: int| 0 <= i < s.len() ==> is_digit(#[trigger] s[i]),
    ensures
        decimal_value(s) >= 0,
    decreases s.len(),
{
    if s.len() > 0 {
        assert forall|i: int| 0 <= i < s.drop_last().len() implies is_digit(
            #[trigger] s.drop_last()[i],
        ) by {
            assert(s.drop_last()[i] == s[i]);
        }
        lemma_decimal_nonneg(s.drop_last());
    }
}

/// Reading more digits never shrinks the value.
pub proof fn lemma_decimal_grows(s: Seq<char>, j: int)
    requires
        forall|i: int| 0 <= i < s.len() ==> is_digit(#[trigger] s[i]),
        0 <= j <= s.len(),
    ensures
        decimal_value(s.take(j)) <= decimal_value(s),
    decreases s.len() - j,
{
    if j < s.len() {
        assert(s.take(j + 1).drop_last() =~= s.take(j));
        assert(s.take(j + 1).last() == s[j]);
        assert forall|i: int| 0 <= i < s.take(j).len() implies is_digit(
            #[trigger] s.take(j)[i],
        ) by {
            assert(s.take(j)[i] == s[i]);
        }
        lemma_decimal_nonneg(s.take(j));
        assert(decimal_value(s.take(j)) <= decimal_value(s.take(j + 1)));
        lemma_decimal_grows(s, j + 1);
    } else {
        assert(s.take(j) =~= s);
    }
}

/// Whether a file name names a data file: one or more decimal digits
/// followed by the data-file suffix, denoting an id that fits in 32 bits.
pub open spec fn spec_data_file_name(name: Seq<char>) -> bool {
    &&& name.len() > 4
    &&& name.subrange(name.len() - 4, name.len() as int) == seq!['.', 'b', 'c', 'k']
    &&& (forall|i: int| 0 <= i < name.len() - 4 ==> is_digit(#[trigger] name[i]))
    &&& decimal_value(name.subrange(0, name.len() - 4)) <= u32::MAX as int
}

/// Parse the numeric stem of a data-file name, as segment discovery does:
/// `<decimal digits>.bck` gives the digits' value, anything else nothing.
pub fn parse_data_file_name(name: &str) -> (r: Option<u32>)
    ensures
        match r {
            Some(id) => spec_data_file_name(name@) && id as int == decimal_value(
                name@.subrange(0, name@.len() - 4),
            ),
            None => !spec_data_file_name(name@),
        },
{
    let l: usize = name.unicode_len();
    if l <= 4 {
        return None;
    }
    let ghost stem = name@.subrange(0, name@.len() - 4);
    if name.get_char(l - 4) != '.' || name.get_char(l - 3) != 'b' || name.get_char(l - 2) != 'c'
        || name.get_char(l - 1) != 'k' {
        proof {
            if name@.subrange(name@.len() - 4, name@.len() as int) == seq!['.', 'b', 'c', 'k'] {
                assert(name@[name@.len() - 4] == '.' && name@[name@.len() - 3] == 'b' && name@[
                name@.len() - 2] == 'c' && name@[name@.len() - 1] == 'k') by {
                    let suffix = name@.subrange(name@.len() - 4, name@.len() as int);
                    assert(suffix[0] == '.' && suffix[1] == 'b' && suffix[2] == 'c' && suffix[3]
                        == 'k');
                }
            }
        }
        return None;
    }
    proof {
        assert(name@.subrange(name@.len() - 4, name@.len() as int) =~= seq!['.', 'b', 'c', 'k']);
    }
    let mut val: u32 = 0;
    let mut i: usize = 0;
    let n = l - 4;
    proof {
        assert(stem.take(0) =~= Seq::<char>::empty());
    }
    while i < n
        invariant
            l == name@.len(),
            n == l - 4,
            4 < l,
            stem == name@.subrange(0, name@.len() - 4),
            name@.subrange(name@.len() - 4, name@.len() as int) == seq!['.', 'b', 'c', 'k'],
            0 <= i <= n,
            forall|j: int| 0 <= j < i ==> is_digit(#[trigger] stem[j]),
            val as int == decimal_value(stem.take(i as int)),
        decreases n - i,
    {
        let c = name.get_char(i);
        let cv = c as u32;
        proof {
            assert(stem[i as int] == name@[i as int]);
        }
        if cv < 48 || cv > 57 {
            proof {
                assert(!is_digit(name@[i as int]));
            }
            return None;
        }
        let d = cv - 48;
        proof {
            assert(stem.take(i as int + 1).drop_last() =~= stem.take(i as int));
            assert(stem.take(i as int + 1).last() == stem[i as int]);
        }
        if val > (u32::MAX - d) / 10 {
            proof {
                assert(decimal_value(stem.take(i as int + 1)) > u32::MAX as int) by (nonlinear_arith)
                    requires
                        decimal_value(stem.take(i as int + 1)) == decimal_value(
                            stem.take(i as int),
                        ) * 10 + d,
                        decimal_value(stem.take(i as int)) == val as int,
                        val > (u32::MAX - d) / 10,
                        0 <= d <= 9,
                ;
                if spec_data_file_name(name@) {
                    lemma_decimal_grows(stem, i as int + 1);
                }
            }
            return None;
        }
        val = val * 10 + d;
        i = i + 1;
    }
    proof {
        assert(stem.take(n as int) =~= stem);
        assert forall|j: int| 0 <= j < name@.len() - 4 implies is_digit(#[trigger] name@[j]) by {
            assert(stem[j] == name@[j]);
        }
    }
    Some(val)
}

/// One segment: an I/O handle, the segment id, the offset where the next
/// append begins, and the segment's role.
pub struct DataFile<IO: IOManager> {
    io: IO,
    file_id: u32,
    next_write_begin_pos: usize,
    file_type: DataFileType,
}

impl<IO: IOManager> DataFile<IO> {
    /// The bytes of the backing file.
    pub closed spec fn contents(&self) -> Seq<u8> {
        self.io.contents()
    }

    pub closed spec fn spec_file_id(&self) -> u32 {
        self.file_id
    }

    pub closed spec fn spec_file_type(&self) -> DataFileType {
        self.file_type
    }

    pub open spec fn is_active(&self) -> bool {
        self.spec_file_type() == DataFileType::ACTIVE
    }

    /// The published append offset always equals the file's length.
    pub closed spec fn pos_ok(&self) -> bool {
        self.next_write_begin_pos == self.contents().len()
    }

    pub open spec fn wf(&self) -> bool {
        &&& self.pos_ok()
        &&& self.contents().len() <= usize::MAX
    }

    /// A fresh segment over a newly created, empty file.
    pub fn new(io: IO, file_id: u32) -> (r: Self)
        requires
            io.contents().len() == 0,
        ensures
            r.wf(),
            r.is_active(),
            r.contents() == Seq::<u8>::empty(),
            r.spec_file_id() == file_id,
    {
        proof {
            assert(io.contents() =~= Seq::<u8>::empty());
        }
        DataFile { io, file_id, next_write_begin_pos: 0, file_type: DataFileType::ACTIVE }
    }

    /// A segment over a file that already exists on disk; the next append
    /// begins at the current end of the file.
    pub fn from_existing(io: IO, file_id: u32, file_type: DataFileType) -> (r: Self)
        ensures
            r.wf(),
            r.contents() == io.contents(),
            r.spec_file_id() == file_id,
            r.spec_file_type() == file_type,
    {
        let next_write_begin_pos = io.content_length();
        DataFile { io, file_id, next_write_begin_pos, file_type }
    }

    /// Append `buf` at the end of this segment. Fails on a sealed
    /// segment; on success the published offset moves to the new end.
    pub fn append(&mut self, buf: &Vec<u8>) -> (r: R<usize>)
        requires
            old(self).wf(),
            old(self).contents().len() + buf@.len() <= usize::MAX,
        ensures
            final(self).wf(),
            final(self).spec_file_id() == old(self).spec_file_id(),
            final(self).spec_file_type() == old(self).spec_file_type(),
            match r {
                Ok(end) => {
                    &&& old(self).is_active()
                    &&& final(self).contents() == old(self).contents() + buf@
                    &&& end == old(self).contents().len() + buf@.len()
                },
                Err(e) => {
                    &&& final(self).contents() == old(self).contents()
                    &&& (e == E::CanNotWriteOldFile || e == E::Failed2Write2DataFile)
                    &&& (e == E::CanNotWriteOldFile <==> !old(self).is_active())
                },
            },
    {
        match self.file_type {
            DataFileType::OLD => Err(E::CanNotWriteOldFile),
            DataFileType::ACTIVE => {
                let write_end_pos = self.next_write_begin_pos + buf.len();
                match self.io.write(buf) {
                    Ok(_) => {
                        self.next_write_begin_pos = write_end_pos;
                        Ok(write_end_pos)
                    },
                    Err(_) => Err(E::Failed2Write2DataFile),
                }
            },
        }
    }

    /// The byte offset at which the next append will begin.
    pub fn next_write_begin_pos(&self) -> (r: usize)
        ensures
            self.wf() ==> r == self.contents().len(),
    {
        self.next_write_begin_pos
    }

    /// Flush this segment to durable storage.
    pub fn sync(&self) -> (r: R<()>)
        ensures
            r is Err ==> r->Err_0 == E::Failed2SyncDataFile,
    {
        self.io.sync()
    }

    pub fn file_id(&self) -> (r: u32)
        ensures
            r == self.spec_file_id(),
    {
        self.file_id
    }

    /// This segment's current role.
    pub fn file_type(&self) -> (r: DataFileType)
        ensures
            r == self.spec_file_type(),
    {
        self.file_type
    }

    /// Read exactly the bytes stored at `[pos, pos + len)`.
    pub fn read_with_given_pos(&self, pos: usize, len: usize) -> (r: R<Vec<u8>>)
        ensures
            match r {
                Ok(bytes) => {
                    &&& pos + len <= self.contents().len()
                    &&& bytes@ == self.contents().subrange(pos as int, pos as int + len as int)
                },
                Err(e) => e == E::Failed2ReadFromDataFile,
            },
    {
        self.io.read(pos as u64, len)
    }

    /// Seal this segment; only the active segment can be sealed, never
    /// the other way round.
    pub fn set_filetype(&mut self, t: DataFileType)
        requires
            old(self).is_active(),
            t == DataFileType::OLD,
        ensures
            final(self).spec_file_type() == t,
            final(self).contents() == old(self).contents(),
            final(self).spec_file_id() == old(self).spec_file_id(),
            final(self).wf() == old(self).wf(),
    {
        self.file_type = t;
    }

    /// Derive a fresh, empty segment with the given id from this
    /// segment's I/O capability.
    pub fn open_sibling(&self, file_id: u32) -> (r: R<Self>)
        ensures
            match r {
                Ok(f) => {
                    &&& f.wf()
                    &&& f.is_active()
                    &&& f.contents() == Seq::<u8>::empty()
                    &&& f.spec_file_id() == file_id
                },
                Err(e) => e == E::CanNotOpenOrCreateDateFile,
            },
    {
        match self.io.open_new(file_id) {
            Ok(io) => Ok(Self::new(io, file_id)),
            Err(e) => Err(e),
        }
    }

    /// Scan the whole segment in on-disk order, returning every entry
    /// with its location, and the offset where the scan stopped. The scan
    /// stops cleanly at a trailing truncated record.
    #[verifier::rlimit(60)]
    pub fn get_all_entries_with_metadata(&self) -> (r: R<(Vec<EntryWithMetaData>, usize)>)
        requires
            self.wf(),
        ensures
            match r {
                Ok((list, end)) => {
                    let sr = scan(self.contents(), self.spec_file_id(), 0);
                    &&& end == sr.end
                    &&& list@.len() == sr.locs.len()
                    &&& forall|i: int|
                        0 <= i < list@.len() ==> {
                            &&& (#[trigger] list@[i]).entry@ == sr.locs[i].0
                            &&& list@[i].meta_data == sr.locs[i].1
                            &&& list@[i].entry.wf()
                        }
                },
                Err(e) => e == E::Failed2ReadFromDataFile,
            },
    {
        let ghost c = self.contents();
        let ghost fid = self.spec_file_id();
        let n: usize = self.next_write_begin_pos;
        let mut out: Vec<EntryWithMetaData> = Vec::new();
        let mut pos: usize = 0;
        loop
            invariant
                self.wf(),
                c == self.contents(),
                fid == self.spec_file_id(),
                n == c.len(),
                0 <= pos <= n,
                scan(c, fid, 0).locs =~= Seq::new(
                    out@.len() as nat,
                    |i: int| (out@[i].entry@, out@[i].meta_data),
                ) + scan(c, fid, pos as int).locs,
                scan(c, fid, 0).end == scan(c, fid, pos as int).end,
                forall|i: int| 0 <= i < out@.len() ==> (#[trigger] out@[i]).entry.wf(),
            ensures
                0 <= pos <= n,
                spec_decode(c.skip(pos as int)) is None,
                scan(c, fid, 0).locs =~= Seq::new(
                    out@.len() as nat,
                    |i: int| (out@[i].entry@, out@[i].meta_data),
                ) + scan(c, fid, pos as int).locs,
                scan(c, fid, 0).end == scan(c, fid, pos as int).end,
                forall|i: int| 0 <= i < out@.len() ==> (#[trigger] out@[i]).entry.wf(),
            decreases n - pos,
        {
            if n - pos < ENTRY_HEADER_SIZE {
                proof {
                    assert(c.skip(pos as int).len() < ENTRY_HEADER_SIZE);
                    assert(spec_decode(c.skip(pos as int)) is None);
                }
                break;
            }
            let header = match self.io.read(pos as u64, ENTRY_HEADER_SIZE) {
                Ok(h) => h,
                Err(_) => {
                    return Err(E::Failed2ReadFromDataFile);
                },
            };
            let ksz64 = read_u64_le(&header, 12);
            let vsz64 = read_u64_le(&header, 20);
            let avail: u64 = (n - pos - ENTRY_HEADER_SIZE) as u64;
            proof {
                let rest = c.skip(pos as int);
                assert(rest.subrange(12, 20) =~= header@.subrange(12, 20));
                assert(rest.subrange(20, 28) =~= header@.subrange(20, 28));
            }
            if ksz64 == 0 || ksz64 > avail || vsz64 > avail - ksz64 {
                proof {
                    assert(spec_decode(c.skip(pos as int)) is None);
                }
                break;
            }
            let sz: usize = ENTRY_HEADER_SIZE + ksz64 as usize + vsz64 as usize;
            let record = match self.io.read(pos as u64, sz) {
                Ok(b) => b,
                Err(_) => {
                    return Err(E::Failed2ReadFromDataFile);
                },
            };
            proof {
                let rest = c.skip(pos as int);
                assert(record@ =~= rest.take(sz as int));
                assert(rest.take(sz as int).subrange(12, 20) =~= rest.subrange(12, 20));
                assert(rest.take(sz as int).subrange(20, 28) =~= rest.subrange(20, 28));
            }
            let entry = match Entry::decode(&record) {
                Some(e) => e,
                None => {
                    proof {
                        let rest = c.skip(pos as int);
                        let ksz = ksz64 as int;
                        assert(rest.take(sz as int).subrange(28, 28 + ksz) =~= rest.subrange(
                            28,
                            28 + ksz,
                        ));
                        assert(spec_decode(c.skip(pos as int)) is None);
                    }
                    break;
                },
            };
            proof {
                lemma_decode_extend(record@, c.skip(pos as int).skip(sz as int));
                assert(record@ + c.skip(pos as int).skip(sz as int) =~= c.skip(pos as int));
                assert(spec_decode(c.skip(pos as int)) == Some(entry@));
                lemma_decode_size(c.skip(pos as int));
            }
            let md = MetaData { file_id: self.file_id, entry_sz: sz, entry_start_pos: pos, tstamp: entry.tstamp() };
            let ghost old_out = out@;
            out.push(EntryWithMetaData { entry, meta_data: md });
            proof {
                let prev = Seq::new(old_out.len() as nat, |i: int| (old_out[i].entry@, old_out[i].meta_data));
                let now = Seq::new(out@.len() as nat, |i: int| (out@[i].entry@, out@[i].meta_data));
                assert(now =~= prev.push((entry@, md)));
                assert(prev.push((entry@, md)) + scan(c, fid, pos + sz) .locs =~= prev + (seq![(entry@, md)] + scan(c, fid, pos + sz).locs));
            }
            pos = pos + sz;
        }
        proof {
            assert(scan(c, fid, pos as int).locs =~= Seq::<(EntryV, MetaData)>::empty());
            assert(scan(c, fid, 0).locs =~= Seq::new(
                out@.len() as nat,
                |i: int| (out@[i].entry@, out@[i].meta_data),
            ));
        }
        Ok((out, pos))
    }
}

} // verus!
