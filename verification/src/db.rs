//! The engine: the segmented append-only log, the in-memory key
//! directory, and the write/read/delete/update protocol that ties them
//! together.
//!
//! The engine's state is pinned to the log itself: the invariant says the
//! key directory equals the deterministic replay of every segment, in
//! ascending id order — tombstones remove a key, other entries bind it to
//! their location. Recovery is that replay run from an empty directory,
//! so reopening the same segments rebuilds exactly the directory that was
//! live before.

use vstd::prelude::*;
use vstd::map::*;
use crate::datafile::scan;
use crate::datafile::DataFile;
use crate::datafile::DataFileType;
use crate::entry::entry_wf;
use crate::entry::crc32_of;
use crate::entry::key_bytes;
use crate::entry::lemma_decode_encode_prefix;
use crate::entry::lemma_key_bytes_empty_iff;
use crate::entry::spec_decode;
use crate::entry::spec_encode;
use crate::entry::spec_entry_size;
use crate::entry::spec_is_tombstone;
use crate::entry::Entry;
use crate::entry::EntryV;
use crate::entry::ENTRY_HEADER_SIZE;
use crate::entry_with_meta_data::EntryWithMetaData;
use crate::error::E;
use crate::error::R;
use crate::fio::IOManager;
use crate::index::Indexer;
use crate::meta_data::MetaData;
use crate::options::Options;
use crate::options::DEFAULT_FILE_THRESHOLD;

verus! {

/// Fold one scanned entry into a key directory: a tombstone removes its
/// key, any other entry binds its key to the entry's location.
pub open spec fn apply_one(
    m: Map<Seq<char>, MetaData>,
    p: (EntryV, MetaData),
) -> Map<Seq<char>, MetaData> {
    if spec_is_tombstone(p.0) {
        m.remove(p.0.k)
    } else {
        m.insert(p.0.k, p.1)
    }
}

/// Fold a scanned segment into a key directory, first entry first.
pub open spec fn apply_locs(
    m: Map<Seq<char>, MetaData>,
    l: Seq<(EntryV, MetaData)>,
) -> Map<Seq<char>, MetaData>
    decreases l.len(),
{
    if l.len() == 0 {
        m
    } else {
        apply_locs(apply_one(m, l[0]), l.drop_first())
    }
}

/// Folding a list with one more entry at its end applies that entry to
/// the fold of the list.
pub proof fn lemma_apply_locs_push(
    m: Map<Seq<char>, MetaData>,
    l: Seq<(EntryV, MetaData)>,
    p: (EntryV, MetaData),
)
    ensures
        apply_locs(m, l.push(p)) == apply_one(apply_locs(m, l), p),
    decreases l.len(),
{
    if l.len() == 0 {
        assert(l.push(p)[0] == p);
        assert(l.push(p).drop_first() =~= Seq::<(EntryV, MetaData)>::empty());
        assert(apply_locs(apply_one(m, p), Seq::<(EntryV, MetaData)>::empty()) == apply_one(m, p));
        assert(apply_locs(m, l) == m);
    } else {
        assert(l.push(p)[0] == l[0]);
        assert(l.push(p).drop_first() =~= l.drop_first().push(p));
        lemma_apply_locs_push(apply_one(m, l[0]), l.drop_first(), p);
    }
}

/// Law: the last write wins. Folding a run of log entries that all bind
/// the same key, none a tombstone, leaves the key bound to the location
/// of the last of them, whatever directory they fold into.
pub proof fn lemma_last_write_wins(
    m: Map<Seq<char>, MetaData>,
    l: Seq<(EntryV, MetaData)>,
    k: Seq<char>,
)
    requires
        l.len() > 0,
        forall|i: int|
            0 <= i < l.len() ==> (#[trigger] l[i]).0.k == k && !spec_is_tombstone(l[i].0),
    ensures
        apply_locs(m, l).contains_key(k),
        apply_locs(m, l)[k] == l.last().1,
    decreases l.len(),
{
    let m1 = apply_one(m, l[0]);
    if l.len() == 1 {
        assert(l.drop_first() =~= Seq::<(EntryV, MetaData)>::empty());
        assert(apply_locs(m1, Seq::<(EntryV, MetaData)>::empty()) == m1);
    } else {
        assert forall|i: int| 0 <= i < l.drop_first().len() implies (#[trigger] l.drop_first()[i]).0.k
            == k && !spec_is_tombstone(l.drop_first()[i].0) by {
            assert(l.drop_first()[i] == l[i + 1]);
        }
        lemma_last_write_wins(m1, l.drop_first(), k);
        assert(l.drop_first().last() == l.last());
    }
}

/// Law: delete semantics. A tombstone for a key removes it from the
/// directory, and a subsequent write of the same key binds it again, to
/// the new entry's location.
pub proof fn lemma_delete_then_put(
    m: Map<Seq<char>, MetaData>,
    t: EntryV,
    e: EntryV,
    mdt: MetaData,
    mde: MetaData,
)
    requires
        spec_is_tombstone(t),
        !spec_is_tombstone(e),
        e.k == t.k,
    ensures
        !apply_locs(m, seq![(t, mdt)]).contains_key(t.k),
        apply_locs(m, seq![(t, mdt), (e, mde)]).contains_key(t.k),
        apply_locs(m, seq![(t, mdt), (e, mde)])[t.k] == mde,
{
    let l1 = seq![(t, mdt)];
    let l2 = seq![(t, mdt), (e, mde)];
    assert(l1[0] == (t, mdt) && l2[0] == (t, mdt));
    assert(apply_one(m, (t, mdt)) == m.remove(t.k));
    assert(l1.drop_first() =~= Seq::<(EntryV, MetaData)>::empty());
    assert(apply_locs(m.remove(t.k), Seq::<(EntryV, MetaData)>::empty()) == m.remove(t.k));
    assert(l2.drop_first() =~= seq![(e, mde)]);
    assert(apply_locs(m, l2) == apply_locs(m.remove(t.k), seq![(e, mde)]));
    assert(seq![(e, mde)][0] == (e, mde));
    assert(apply_one(m.remove(t.k), (e, mde)) == m.remove(t.k).insert(e.k, mde));
    assert(seq![(e, mde)].drop_first() =~= Seq::<(EntryV, MetaData)>::empty());
    assert(apply_locs(m.remove(t.k).insert(e.k, mde), Seq::<(EntryV, MetaData)>::empty())
        == m.remove(t.k).insert(e.k, mde));
}

/// Replay whole segments into a key directory, in the order given.
pub open spec fn replay_files<IO: IOManager>(
    m: Map<Seq<char>, MetaData>,
    files: Seq<DataFile<IO>>,
) -> Map<Seq<char>, MetaData>
    decreases files.len(),
{
    if files.len() == 0 {
        m
    } else {
        apply_locs(
            replay_files(m, files.drop_last()),
            scan(files.last().contents(), files.last().spec_file_id(), 0).locs,
        )
    }
}

/// The position of the last segment with the given id, or -1.
pub open spec fn find_file_idx<IO: IOManager>(files: Seq<DataFile<IO>>, id: u32) -> int
    decreases files.len(),
{
    if files.len() == 0 {
        -1
    } else if files.last().spec_file_id() == id {
        files.len() - 1
    } else {
        find_file_idx(files.drop_last(), id)
    }
}

/// `find_file_idx` finds a segment with the id exactly when one exists.
pub proof fn lemma_find_file_idx<IO: IOManager>(files: Seq<DataFile<IO>>, id: u32)
    ensures
        find_file_idx(files, id) == -1 || 0 <= find_file_idx(files, id) < files.len(),
        find_file_idx(files, id) == -1 ==> forall|i: int|
            0 <= i < files.len() ==> (#[trigger] files[i]).spec_file_id() != id,
        find_file_idx(files, id) >= 0 ==> files[find_file_idx(files, id)].spec_file_id() == id,
    decreases files.len(),
{
    if files.len() > 0 {
        let d = files.drop_last();
        lemma_find_file_idx(d, id);
        if files.last().spec_file_id() != id {
            if find_file_idx(d, id) == -1 {
                assert forall|i: int| 0 <= i < files.len() implies (#[trigger] files[i]).spec_file_id()
                    != id by {
                    if i < files.len() - 1 {
                        assert(files[i] == d[i]);
                    } else {
                        assert(files[i] == files.last());
                    }
                }
            } else {
                let f = find_file_idx(d, id);
                assert(files[f] == d[f]);
            }
        }
    }
}

/// A location is valid against segment contents `c` for key `k`: it spans
/// bytes of `c` that decode to a well-formed, non-tombstone entry of key
/// `k` with the location's size and timestamp.
pub open spec fn loc_valid(c: Seq<u8>, k: Seq<char>, md: MetaData) -> bool {
    &&& md.entry_start_pos + md.entry_sz <= c.len()
    &&& {
        let sub = c.subrange(
            md.entry_start_pos as int,
            md.entry_start_pos as int + md.entry_sz as int,
        );
        &&& spec_decode(sub) is Some
        &&& {
            let e = spec_decode(sub)->Some_0;
            &&& e.k == k
            &&& spec_entry_size(e) == md.entry_sz
            &&& e.tstamp == md.tstamp
            &&& !spec_is_tombstone(e)
            &&& entry_wf(e)
        }
    }
}

/// The key-value engine over an I/O capability `IO` and a key directory
/// `X`.
pub struct Engine<IO: IOManager, X: Indexer> {
    options: Options,
    mem_index: X,
    active_file: DataFile<IO>,
    older_files: Vec<DataFile<IO>>,
}

impl<IO: IOManager, X: Indexer> Engine<IO, X> {
    /// The per-segment size threshold this engine rotates at.
    pub closed spec fn threshold(&self) -> usize {
        self.options.file_threshold
    }

    /// Whether every write is followed by a sync.
    pub closed spec fn sync_each_write(&self) -> bool {
        self.options.syn_after_each_write
    }

    /// Id of the active segment.
    pub closed spec fn active_file_id(&self) -> u32 {
        self.active_file.spec_file_id()
    }

    /// How many segments the engine holds, the active one included.
    pub closed spec fn segment_count(&self) -> int {
        self.older_files@.len() as int + 1
    }

    /// The key directory's current mapping.
    pub closed spec fn index(&self) -> Map<Seq<char>, MetaData> {
        self.mem_index.index()
    }

    /// The contents of the segment with the given id.
    pub closed spec fn seg_contents(&self, id: u32) -> Seq<u8> {
        if id == self.active_file.spec_file_id() {
            self.active_file.contents()
        } else {
            self.older_files@[find_file_idx(self.older_files@, id)].contents()
        }
    }

    /// The entry stored at a location.
    pub closed spec fn located_at(&self, md: MetaData) -> EntryV {
        let c = self.seg_contents(md.file_id);
        spec_decode(
            c.subrange(md.entry_start_pos as int, md.entry_start_pos as int + md.entry_sz as int),
        )->Some_0
    }

    /// A location of the key directory is backed by one of the engine's
    /// segments.
    pub closed spec fn loc_ok(&self, k: Seq<char>, md: MetaData) -> bool {
        &&& (md.file_id == self.active_file.spec_file_id() || 0 <= find_file_idx(
            self.older_files@,
            md.file_id,
        ) < self.older_files@.len())
        &&& loc_valid(self.seg_contents(md.file_id), k, md)
    }

    /// The key directory that replaying every segment, in id order, from
    /// an empty directory produces.
    pub closed spec fn replayed_index(&self) -> Map<Seq<char>, MetaData> {
        apply_locs(
            replay_files(Map::empty(), self.older_files@),
            scan(self.active_file.contents(), self.active_file.spec_file_id(), 0).locs,
        )
    }

    /// The structural half of the invariant: well-formed segments with
    /// ascending ids below the active segment's id, and an active segment
    /// whose scan consumes it whole.
    pub closed spec fn files_inv(&self) -> bool {
        &&& self.active_file.wf()
        &&& self.active_file.is_active()
        &&& (forall|i: int|
            0 <= i < self.older_files@.len() ==> (#[trigger] self.older_files@[i]).wf()
                && !self.older_files@[i].is_active())
        &&& (forall|i: int, j: int|
            0 <= i < j < self.older_files@.len() ==> (#[trigger] self.older_files@[i]).spec_file_id()
                < (#[trigger] self.older_files@[j]).spec_file_id())
        &&& (forall|i: int|
            0 <= i < self.older_files@.len() ==> (#[trigger] self.older_files@[i]).spec_file_id()
                < self.active_file.spec_file_id())
        &&& scan(self.active_file.contents(), self.active_file.spec_file_id(), 0).end
            == self.active_file.contents().len()
    }

    /// The engine invariant: well-formed segments, and a key directory
    /// that equals the replay of the log and whose every location is
    /// backed by a segment.
    pub closed spec fn inv(&self) -> bool {
        &&& self.files_inv()
        &&& self.mem_index.inv()
        &&& self.mem_index.index() == self.replayed_index()
        &&& (forall|k: Seq<char>|
            #[trigger] self.mem_index.index().contains_key(k) ==> self.loc_ok(
                k,
                self.mem_index.index()[k],
            ))
    }

    /// Current size of the active segment in bytes.
    pub closed spec fn active_size(&self) -> int {
        self.active_file.contents().len() as int
    }

    /// The entries the store currently holds, keyed by key.
    pub closed spec fn entries(&self) -> Map<Seq<char>, EntryV> {
        Map::new(
            |k: Seq<char>| self.mem_index.index().contains_key(k),
            |k: Seq<char>| self.located_at(self.mem_index.index()[k]),
        )
    }

    /// The store's key-value mapping: each live key and its value bytes.
    pub open spec fn kv(&self) -> Map<Seq<char>, Seq<u8>> {
        self.entries().map_values(|e: EntryV| e.v)
    }

    /// Assemble an engine over a fresh, empty active segment.
    pub fn new(
        options: Options,
        mem_index: X,
        active_file: DataFile<IO>,
        older_files: Vec<DataFile<IO>>,
    ) -> (r: Self)
        requires
            mem_index.inv(),
            mem_index.index() == Map::<Seq<char>, MetaData>::empty(),
            active_file.wf(),
            active_file.is_active(),
            active_file.contents() == Seq::<u8>::empty(),
            older_files@.len() == 0,
        ensures
            r.inv(),
            r.entries() == Map::<Seq<char>, EntryV>::empty(),
            r.kv() == Map::<Seq<char>, Seq<u8>>::empty(),
            r.threshold() == options.file_threshold,
            r.sync_each_write() == options.syn_after_each_write,
            r.active_file_id() == active_file.spec_file_id(),
            r.segment_count() == 1,
    {
        let r = Engine { options, mem_index, active_file, older_files };
        proof {
            assert(r.active_file.contents().skip(0) =~= Seq::<u8>::empty());
            assert(spec_decode(r.active_file.contents().skip(0)) is None);
            assert(r.older_files@ =~= Seq::<DataFile<IO>>::empty());
            assert(r.replayed_index() =~= Map::<Seq<char>, MetaData>::empty());
            assert(r.entries() =~= Map::<Seq<char>, EntryV>::empty());
            assert(r.kv() =~= Map::<Seq<char>, Seq<u8>>::empty());
        }
        r
    }
}

impl<IO: IOManager, X: Indexer> Engine<IO, X> {
    /// Sync the finished active segment, seal it, move it into the sealed
    /// set, and install a fresh segment with the next id. The log, the key
    /// directory, and every stored entry are unchanged.
    fn rotate(&mut self) -> (r: R<()>)
        requires
            old(self).inv(),
        ensures
            match r {
                Ok(()) => {
                    &&& final(self).inv()
                    &&& final(self).entries() == old(self).entries()
                    &&& final(self).kv() == old(self).kv()
                    &&& final(self).mem_index == old(self).mem_index
                    &&& final(self).options == old(self).options
                    &&& final(self).active_file_id() == old(self).active_file_id() + 1
                    &&& final(self).segment_count() == old(self).segment_count() + 1
                    &&& final(self).active_file.contents() == Seq::<u8>::empty()
                    &&& (forall|k: Seq<char>, md0: MetaData|
                        #[trigger] old(self).loc_ok(k, md0) ==> final(self).loc_ok(k, md0)
                            && final(self).located_at(md0) == old(self).located_at(md0))
                },
                Err(e) => {
                    &&& *final(self) == *old(self)
                    &&& (e == E::Failed2SyncDataFile || e == E::CanNotOpenOrCreateDateFile)
                },
            },
    {
        match self.active_file.sync() {
            Ok(_) => {},
            Err(e) => {
                return Err(e);
            },
        }
        if self.active_file.file_id() == u32::MAX {
            return Err(E::CanNotOpenOrCreateDateFile);
        }
        let new_id = self.active_file.file_id() + 1;
        let mut fresh = match self.active_file.open_sibling(new_id) {
            Ok(f) => f,
            Err(e) => {
                return Err(e);
            },
        };
        core::mem::swap(&mut self.active_file, &mut fresh);
        fresh.set_filetype(DataFileType::OLD);
        let ghost sealed = fresh;
        let ghost pre = *old(self);
        self.older_files.push(fresh);
        proof {
            let post = *self;
            let older1 = post.older_files@;
            assert(older1.drop_last() =~= pre.older_files@);
            assert(older1.last() == sealed);
            assert(sealed.contents() == pre.active_file.contents());
            assert(sealed.spec_file_id() == pre.active_file.spec_file_id());
            // the fresh active segment scans to nothing
            assert(post.active_file.contents().skip(0) =~= Seq::<u8>::empty());
            assert(spec_decode(post.active_file.contents().skip(0)) is None);
            // the replayed directory is unchanged
            assert(scan(post.active_file.contents(), post.active_file.spec_file_id(), 0).locs
                =~= Seq::<(EntryV, MetaData)>::empty());
            assert(post.replayed_index() == replay_files(
                Map::<Seq<char>, MetaData>::empty(),
                older1,
            ));
            assert(replay_files(Map::<Seq<char>, MetaData>::empty(), older1)
                == pre.replayed_index());
            // every old location is still backed, by the same bytes
            assert forall|k: Seq<char>, md0: MetaData| #[trigger] pre.loc_ok(k, md0) implies post.loc_ok(
                k,
                md0,
            ) && post.located_at(md0) == pre.located_at(md0) by {
                lemma_loc_preserved_by_rotation(pre, post, sealed, k, md0);
            }
            assert forall|k: Seq<char>| #[trigger] post.mem_index.index().contains_key(k) implies post.loc_ok(
                k,
                post.mem_index.index()[k],
            ) by {
                assert(pre.loc_ok(k, pre.mem_index.index()[k]));
            }
            assert(post.entries() =~= pre.entries());
        }
        Ok(())
    }

    /// Rotation-aware append: if the encoded entry would push the active
    /// segment past the threshold, rotate first; then append the entry at
    /// the end of the active segment and report the location it occupies.
    /// The caller still owes the matching key-directory update.
    #[verifier::rlimit(60)]
    fn append_entry_to_active_file(&mut self, entry: &Entry) -> (r: R<MetaData>)
        requires
            old(self).inv(),
            entry.wf(),
        ensures
            match r {
                Ok(md) => {
                    &&& final(self).files_inv()
                    &&& final(self).mem_index == old(self).mem_index
                    &&& final(self).options == old(self).options
                    &&& md.file_id == final(self).active_file.spec_file_id()
                    &&& md.entry_sz == spec_entry_size(entry@)
                    &&& md.tstamp == entry@.tstamp
                    &&& final(self).replayed_index() == apply_one(
                        old(self).replayed_index(),
                        (entry@, md),
                    )
                    &&& ({
                        let c = final(self).seg_contents(md.file_id);
                        &&& md.entry_start_pos + md.entry_sz <= c.len()
                        &&& spec_decode(
                            c.subrange(
                                md.entry_start_pos as int,
                                md.entry_start_pos as int + md.entry_sz as int,
                            ),
                        ) == Some(entry@)
                    })
                    &&& (forall|k: Seq<char>, md0: MetaData|
                        #[trigger] old(self).loc_ok(k, md0) ==> final(self).loc_ok(k, md0)
                            && final(self).located_at(md0) == old(self).located_at(md0))
                    &&& (if spec_entry_size(entry@) + old(self).active_size() > old(self).threshold() {
                        &&& final(self).active_file_id() == old(self).active_file_id() + 1
                        &&& final(self).segment_count() == old(self).segment_count() + 1
                        &&& md.entry_start_pos == 0
                    } else {
                        &&& final(self).active_file_id() == old(self).active_file_id()
                        &&& final(self).segment_count() == old(self).segment_count()
                        &&& md.entry_start_pos == old(self).active_size()
                    })
                },
                Err(e) => {
                    &&& final(self).inv()
                    &&& final(self).entries() == old(self).entries()
                    &&& final(self).kv() == old(self).kv()
                    &&& final(self).mem_index == old(self).mem_index
                    &&& final(self).options == old(self).options
                    &&& (e == E::Failed2SyncDataFile || e == E::CanNotOpenOrCreateDateFile || e
                        == E::Failed2Write2DataFile)
                },
            },
    {
        let data = entry.encode();
        let entry_sz = data.len();
        let next_write_pos = self.active_file.next_write_begin_pos();
        if next_write_pos as u128 + entry_sz as u128 > self.options.file_threshold as u128 {
            match self.rotate() {
                Ok(_) => {},
                Err(e) => {
                    return Err(e);
                },
            }
        }
        let ghost mid = *self;
        let write_begin_pos = self.active_file.next_write_begin_pos();
        proof {
            assert(mid.active_file.contents().len() + data@.len() <= usize::MAX);
        }
        match self.active_file.append(&data) {
            Ok(_) => {},
            Err(e) => {
                proof {
                    let post = *self;
                    assert(post.active_file.contents().subrange(
                        0,
                        mid.active_file.contents().len() as int,
                    ) =~= mid.active_file.contents());
                    assert(post.replayed_index() == mid.replayed_index());
                    assert forall|k: Seq<char>, md0: MetaData| #[trigger] mid.loc_ok(
                        k,
                        md0,
                    ) implies post.loc_ok(k, md0) && post.located_at(md0) == mid.located_at(
                        md0,
                    ) by {
                        lemma_loc_preserved_by_append(mid, post, k, md0);
                    }
                    assert forall|k: Seq<char>| #[trigger] post.mem_index.index().contains_key(
                        k,
                    ) implies post.loc_ok(k, post.mem_index.index()[k]) by {
                        assert(mid.loc_ok(k, mid.mem_index.index()[k]));
                    }
                    assert(post.inv());
                    assert(post.entries() =~= mid.entries());
                    assert(post.entries() == old(self).entries());
                }
                return Err(e);
            },
        }
        let md = MetaData::new(
            self.active_file.file_id(),
            entry.get_self_size(),
            write_begin_pos,
            entry.tstamp(),
        );
        proof {
            let post = *self;
            let c0 = mid.active_file.contents();
            let fid = mid.active_file.spec_file_id();
            crate::datafile::lemma_scan_append(c0, fid, 0, entry@);
            assert(scan(post.active_file.contents(), fid, 0).locs == scan(c0, fid, 0).locs.push(
                (entry@, md),
            ));
            lemma_apply_locs_push(
                replay_files(Map::<Seq<char>, MetaData>::empty(), post.older_files@),
                scan(c0, fid, 0).locs,
                (entry@, md),
            );
            // the appended bytes decode back to the entry
            lemma_decode_encode_prefix(entry@, Seq::<u8>::empty());
            assert(spec_encode(entry@) + Seq::<u8>::empty() =~= spec_encode(entry@));
            assert(post.active_file.contents().subrange(
                md.entry_start_pos as int,
                md.entry_start_pos as int + md.entry_sz as int,
            ) =~= spec_encode(entry@));
            // older locations read the same bytes as before
            assert(post.active_file.contents().subrange(0, c0.len() as int) =~= c0);
            assert forall|k: Seq<char>, md0: MetaData| #[trigger] mid.loc_ok(k, md0) implies post.loc_ok(
                k,
                md0,
            ) && post.located_at(md0) == mid.located_at(md0) by {
                lemma_loc_preserved_by_append(mid, post, k, md0);
            }
        }
        Ok(md)
    }

    /// Store `value` under `key`. Rejects an empty key, then an empty
    /// value; otherwise appends one entry to the log, rotating the active
    /// segment first if the entry would push it past the threshold, and
    /// points the key directory at the new entry.
    ///
    /// A sync failure after a successful append (with sync-each-write
    /// selected) reports `Failed2SyncDataFile` with the write applied.
    pub fn put(&mut self, key: String, value: Vec<u8>) -> (r: R<()>)
        requires
            old(self).inv(),
            ENTRY_HEADER_SIZE + key_bytes(key@).len() + value@.len() <= usize::MAX,
        ensures
            final(self).inv(),
            final(self).threshold() == old(self).threshold(),
            final(self).sync_each_write() == old(self).sync_each_write(),
            match r {
                Ok(()) => {
                    &&& key@.len() > 0
                    &&& value@.len() > 0
                    &&& final(self).entries().contains_key(key@)
                    &&& final(self).entries()[key@].k == key@
                    &&& final(self).entries()[key@].v == value@
                    &&& final(self).entries()[key@].crc == crc32_of(value@)
                    &&& final(self).entries().dom() == old(self).entries().dom().insert(key@)
                    &&& (forall|k: Seq<char>|
                        k != key@ && #[trigger] old(self).entries().contains_key(k) ==> final(self).entries()[k] == old(self).entries()[k])
                    &&& final(self).kv() == old(self).kv().insert(key@, value@)
                    &&& (if ENTRY_HEADER_SIZE + key_bytes(key@).len() + value@.len() + old(self).active_size() > old(self).threshold() {
                        &&& final(self).active_file_id() == old(self).active_file_id() + 1
                        &&& final(self).segment_count() == old(self).segment_count() + 1
                    } else {
                        &&& final(self).active_file_id() == old(self).active_file_id()
                        &&& final(self).segment_count() == old(self).segment_count()
                    })
                },
                Err(e) => {
                    &&& (e == E::EmptyKey <==> key@.len() == 0)
                    &&& (e == E::EmptyValue <==> (key@.len() > 0 && value@.len() == 0))
                    &&& (e == E::EmptyKey || e == E::EmptyValue || e == E::Failed2SyncDataFile
                        || e == E::CanNotOpenOrCreateDateFile || e == E::Failed2Write2DataFile)
                    &&& (e != E::Failed2SyncDataFile ==> final(self).entries() == old(self).entries() && final(self).kv() == old(self).kv())
                },
            },
    {
        if key.as_str().is_empty() {
            return Err(E::EmptyKey);
        }
        if value.len() == 0 {
            return Err(E::EmptyValue);
        }
        let ghost value_view = value@;
        let entry = match Entry::new(key.clone(), value) {
            Ok(e) => e,
            Err(_) => {
                proof {
                    assert(false);
                }
                return Err(E::EmptyKey);
            },
        };
        let ghost pre = *old(self);
        let md = match self.append_entry_to_active_file(&entry) {
            Ok(md) => md,
            Err(e) => {
                return Err(e);
            },
        };
        let ghost mid = *self;
        self.mem_index.put(key, md);
        proof {
            let post = *self;
            assert(post.mem_index.index() == mid.replayed_index().insert(entry@.k, md));
            assert(post.replayed_index() == mid.replayed_index());
            assert(post.mem_index.index() == post.replayed_index());
            assert forall|k: Seq<char>| #[trigger] post.mem_index.index().contains_key(
                k,
            ) implies post.loc_ok(k, post.mem_index.index()[k]) by {
                if k == entry@.k {
                    assert(post.seg_contents(md.file_id) == mid.seg_contents(md.file_id));
                    assert(loc_valid(post.seg_contents(md.file_id), k, md));
                } else {
                    assert(pre.loc_ok(k, pre.mem_index.index()[k]));
                    assert(post.loc_ok(k, mid.mem_index.index()[k]));
                }
            }
            assert(post.inv());
            assert(post.entries() =~= pre.entries().insert(entry@.k, entry@));
            assert(post.kv() =~= pre.kv().insert(key@, value_view));
            assert(post.entries().dom() =~= pre.entries().dom().insert(key@));
        }
        if self.options.syn_after_each_write {
            match self.active_file.sync() {
                Ok(_) => {},
                Err(e) => {
                    return Err(e);
                },
            }
        }
        Ok(())
    }

    /// Fold one scanned segment into the key directory, as recovery does:
    /// a tombstone removes its key, any other entry binds its key to the
    /// entry's location.
    fn apply_file_entries(index: &mut X, list: &Vec<EntryWithMetaData>)
        requires
            old(index).inv(),
            forall|i: int| 0 <= i < list@.len() ==> (#[trigger] list@[i]).entry.wf(),
        ensures
            final(index).inv(),
            final(index).index() == apply_locs(old(index).index(), locs_of(list@)),
    {
        let n: usize = list.len();
        let mut j: usize = 0;
        while j < n
            invariant
                index.inv(),
                0 <= j <= n == list@.len(),
                forall|i: int| 0 <= i < list@.len() ==> (#[trigger] list@[i]).entry.wf(),
                index.index() == apply_locs(old(index).index(), locs_of(list@).take(j as int)),
            decreases n - j,
        {
            proof {
                assert(locs_of(list@).take(j as int + 1) =~= locs_of(list@).take(j as int).push(
                    locs_of(list@)[j as int],
                ));
                lemma_apply_locs_push(
                    old(index).index(),
                    locs_of(list@).take(j as int),
                    locs_of(list@)[j as int],
                );
            }
            let key = String::from_str(list[j].entry.k());
            if list[j].entry.is_tombstone() {
                index.delete(&key);
            } else {
                index.put(key, list[j].meta_data);
            }
            j = j + 1;
        }
        proof {
            assert(locs_of(list@).take(n as int) =~= locs_of(list@));
        }
    }

    /// Open an engine over data files that the caller has opened in
    /// ascending id order: validate the options, scan every segment in
    /// that order to rebuild the key directory, seal all but the last
    /// segment, and keep the last one active. If the last segment ends in
    /// a truncated record — a crash cut an append short — it is sealed as
    /// well and a fresh active segment with the next id follows it.
    #[verifier::loop_isolation(false)]
    pub fn open(opts: Options, data_files: Vec<DataFile<IO>>, index: X) -> (r: R<Self>)
        requires
            index.inv(),
            index.index() == Map::<Seq<char>, MetaData>::empty(),
            data_files@.len() > 0,
            forall|i: int| 0 <= i < data_files@.len() ==> (#[trigger] data_files@[i]).wf(),
            data_files@[data_files@.len() - 1].is_active(),
            forall|i: int, j: int|
                0 <= i < j < data_files@.len() ==> (#[trigger] data_files@[i]).spec_file_id() < (
                #[trigger] data_files@[j]).spec_file_id(),
        ensures
            match r {
                Ok(engine) => {
                    &&& engine.inv()
                    &&& opts.dir_path@.len() > 0
                    &&& engine.index() == replay_files(
                        Map::<Seq<char>, MetaData>::empty(),
                        data_files@,
                    )
                    &&& engine.threshold() == (if opts.file_threshold == 0 {
                        DEFAULT_FILE_THRESHOLD as usize
                    } else {
                        opts.file_threshold
                    })
                    &&& engine.sync_each_write() == opts.syn_after_each_write
                },
                Err(e) => {
                    &&& (e == E::DirPathIsEmpty <==> opts.dir_path@.len() == 0)
                    &&& (e == E::DirPathIsEmpty || e == E::Failed2ReadFromDataFile || e
                        == E::CanNotOpenOrCreateDateFile)
                },
            },
    {
        let mut opts = opts;
        match check_options(&mut opts) {
            Some(e) => {
                return Err(e);
            },
            None => {},
        }
        let ghost all = data_files@;
        let mut files = data_files;
        let mut index = index;
        let mut last = match files.pop() {
            Some(f) => f,
            None => {
                proof {
                    assert(false);
                }
                return Err(E::DirPathIsEmpty);
            },
        };
        let ghost sealed_src = all.drop_last();
        let mut older: Vec<DataFile<IO>> = Vec::new();
        proof {
            assert(index.index() == replay_files(
                Map::<Seq<char>, MetaData>::empty(),
                sealed_src.take(0),
            ));
        }
        while files.len() > 0
            invariant
                index.inv(),
                older@.len() + files@.len() == sealed_src.len(),
                files@ == sealed_src.skip(older@.len() as int),
                sealed_src == all.drop_last(),
                all.len() > 0,
                forall|i: int| 0 <= i < all.len() ==> (#[trigger] all[i]).wf(),
                all[all.len() - 1].is_active(),
                forall|i: int, j: int|
                    0 <= i < j < all.len() ==> (#[trigger] all[i]).spec_file_id() < (
                    #[trigger] all[j]).spec_file_id(),
                forall|m: int|
                    0 <= m < older@.len() ==> {
                        let o = #[trigger] older@[m];
                        &&& o.contents() == sealed_src[m].contents()
                        &&& o.spec_file_id() == sealed_src[m].spec_file_id()
                        &&& o.wf()
                        &&& !o.is_active()
                    },
                index.index() == replay_files(
                    Map::<Seq<char>, MetaData>::empty(),
                    sealed_src.take(older@.len() as int),
                ),
            decreases files@.len(),
        {
            let ghost i = older@.len() as int;
            let mut f = files.remove(0);
            proof {
                assert(f == sealed_src.skip(i)[0]);
                assert(f == sealed_src[i]);
                assert(sealed_src[i] == all[i]);
                assert(files@ =~= sealed_src.skip(i + 1));
            }
            let scanned = match f.get_all_entries_with_metadata() {
                Ok(x) => x,
                Err(e) => {
                    return Err(e);
                },
            };
            let list = scanned.0;
            proof {
                assert(locs_of(list@) =~= scan(f.contents(), f.spec_file_id(), 0).locs);
            }
            Self::apply_file_entries(&mut index, &list);
            match f.file_type() {
                DataFileType::ACTIVE => f.set_filetype(DataFileType::OLD),
                DataFileType::OLD => {},
            }
            older.push(f);
            proof {
                assert(sealed_src.take(i + 1).drop_last() =~= sealed_src.take(i));
                assert(sealed_src.take(i + 1).last() == sealed_src[i]);
            }
        }
        proof {
            assert(sealed_src.take(older@.len() as int) =~= sealed_src);
        }
        let scanned = match last.get_all_entries_with_metadata() {
            Ok(x) => x,
            Err(e) => {
                return Err(e);
            },
        };
        let list = scanned.0;
        let end = scanned.1;
        proof {
            assert(last == all.last());
            assert(locs_of(list@) =~= scan(last.contents(), last.spec_file_id(), 0).locs);
        }
        Self::apply_file_entries(&mut index, &list);
        proof {
            assert(index.index() == replay_files(Map::<Seq<char>, MetaData>::empty(), all)) by {
                assert(all.drop_last() == sealed_src);
                lemma_replay_deterministic(
                    Map::<Seq<char>, MetaData>::empty(),
                    sealed_src,
                    older@,
                );
                lemma_replay_deterministic(Map::<Seq<char>, MetaData>::empty(), older@, sealed_src);
            }
        }
        let len = last.next_write_begin_pos();
        if end == len {
            let engine = Engine { options: opts, mem_index: index, active_file: last, older_files: older };
            proof {
                lemma_open_clean_inv(engine, sealed_src, all);
            }
            Ok(engine)
        } else {
            if last.file_id() == u32::MAX {
                return Err(E::CanNotOpenOrCreateDateFile);
            }
            let fresh = match last.open_sibling(last.file_id() + 1) {
                Ok(f) => f,
                Err(e) => {
                    return Err(e);
                },
            };
            last.set_filetype(DataFileType::OLD);
            let ghost sealed_last = last;
            older.push(last);
            let engine = Engine { options: opts, mem_index: index, active_file: fresh, older_files: older };
            proof {
                lemma_open_dirty_inv(engine, sealed_src, all, sealed_last);
            }
            Ok(engine)
        }
    }

    /// How many sealed segments the engine currently holds; the total
    /// segment count is one more, for the active segment. Rotation grows
    /// this by one.
    pub fn num_sealed_segments(&self) -> (r: usize)
        requires
            self.inv(),
        ensures
            r + 1 == self.segment_count(),
    {
        self.older_files.len()
    }

    /// Close the engine, handing back its segments in ascending id order,
    /// the active one last. Opening these very segments again rebuilds
    /// exactly the key directory that was live here.
    pub fn close(self) -> (r: Vec<DataFile<IO>>)
        requires
            self.inv(),
        ensures
            r@.len() > 0,
            forall|i: int| 0 <= i < r@.len() ==> (#[trigger] r@[i]).wf(),
            r@[r@.len() - 1].is_active(),
            forall|i: int| 0 <= i < r@.len() - 1 ==> !(#[trigger] r@[i]).is_active(),
            forall|i: int, j: int|
                0 <= i < j < r@.len() ==> (#[trigger] r@[i]).spec_file_id() < (
                #[trigger] r@[j]).spec_file_id(),
            replay_files(Map::<Seq<char>, MetaData>::empty(), r@) == self.index(),
    {
        let ghost pre = self;
        let mut files = self.older_files;
        files.push(self.active_file);
        proof {
            assert(files@.drop_last() =~= pre.older_files@);
            assert(files@.last() == pre.active_file);
            assert forall|i: int, j: int| 0 <= i < j < files@.len() implies (
            #[trigger] files@[i]).spec_file_id() < (#[trigger] files@[j]).spec_file_id() by {
                if j < files@.len() - 1 {
                    assert(files@[i] == pre.older_files@[i] && files@[j] == pre.older_files@[j]);
                } else {
                    if i < files@.len() - 1 {
                        assert(files@[i] == pre.older_files@[i]);
                    }
                }
            }
            assert(replay_files(Map::<Seq<char>, MetaData>::empty(), files@) == pre.replayed_index());
        }
        files
    }

    /// The position of the sealed segment with the given id.
    fn find_older(&self, id: u32) -> (r: usize)
        requires
            self.inv(),
            find_file_idx(self.older_files@, id) >= 0,
        ensures
            r as int == find_file_idx(self.older_files@, id),
    {
        let n: usize = self.older_files.len();
        let mut i: usize = 0;
        proof {
            lemma_find_file_idx(self.older_files@, id);
        }
        while i < n
            invariant
                self.inv(),
                0 <= i <= n == self.older_files@.len(),
                find_file_idx(self.older_files@, id) >= 0,
                find_file_idx(self.older_files@, id) < self.older_files@.len(),
                self.older_files@[find_file_idx(self.older_files@, id)].spec_file_id() == id,
                forall|j: int| 0 <= j < i ==> (#[trigger] self.older_files@[j]).spec_file_id() != id,
            decreases n - i,
        {
            if self.older_files[i].file_id() == id {
                proof {
                    let f = find_file_idx(self.older_files@, id);
                    if f != i as int {
                        assert(self.older_files@[f].spec_file_id() == self.older_files@[
                        i as int].spec_file_id());
                        assert(false);
                    }
                }
                return i;
            }
            i = i + 1;
        }
        proof {
            assert(false);
        }
        0
    }

    /// Read the value stored under `key`: look the key up in the
    /// directory, read the located entry from its segment, decode it, and
    /// verify the checksum over the value bytes.
    pub fn read(&self, key: String) -> (r: R<Vec<u8>>)
        requires
            self.inv(),
        ensures
            match r {
                Ok(v) => {
                    &&& key@.len() > 0
                    &&& self.entries().contains_key(key@)
                    &&& v@ == self.entries()[key@].v
                    &&& v@ == self.kv()[key@]
                    &&& self.entries()[key@].crc == crc32_of(v@)
                },
                Err(e) => {
                    &&& (e == E::EmptyKey <==> key@.len() == 0)
                    &&& (e == E::Nil <==> (key@.len() > 0 && !self.entries().contains_key(key@)))
                    &&& (e == E::DataCorrupted ==> self.entries().contains_key(key@)
                        && self.entries()[key@].crc != crc32_of(self.entries()[key@].v))
                    &&& (e == E::Failed2ReadFromDataFile ==> key@.len() > 0
                        && self.entries().contains_key(key@))
                    &&& (e == E::EmptyKey || e == E::Nil || e == E::DataCorrupted || e
                        == E::Failed2ReadFromDataFile)
                },
            },
    {
        if key.as_str().is_empty() {
            return Err(E::EmptyKey);
        }
        let meta_data = match self.mem_index.get(&key) {
            Some(md) => md,
            None => {
                return Err(E::Nil);
            },
        };
        proof {
            assert(self.loc_ok(key@, meta_data));
        }
        let buf = if self.active_file.file_id() == meta_data.file_id {
            match self.active_file.read_with_given_pos(meta_data.entry_start_pos, meta_data.entry_sz) {
                Ok(b) => b,
                Err(e) => {
                    return Err(e);
                },
            }
        } else {
            let idx = self.find_older(meta_data.file_id);
            match self.older_files[idx].read_with_given_pos(
                meta_data.entry_start_pos,
                meta_data.entry_sz,
            ) {
                Ok(b) => b,
                Err(e) => {
                    return Err(e);
                },
            }
        };
        proof {
            assert(buf@ == self.seg_contents(meta_data.file_id).subrange(
                meta_data.entry_start_pos as int,
                meta_data.entry_start_pos as int + meta_data.entry_sz as int,
            ));
        }
        let entry = match Entry::decode(&buf) {
            Some(e) => e,
            None => {
                proof {
                    assert(false);
                }
                return Err(E::DataCorrupted);
            },
        };
        proof {
            assert(entry@ == self.located_at(meta_data));
            assert(entry@ == self.entries()[key@]);
        }
        let disk_checksum = entry.crc();
        let calculated_checksum = Entry::calculate_crc_by_vec(entry.v());
        if disk_checksum != calculated_checksum {
            return Err(E::DataCorrupted);
        }
        proof {
            assert(self.kv()[key@] == self.entries()[key@].v);
        }
        Ok(entry.into_v())
    }

    /// Remove `key` from the store: read its current value, append a
    /// tombstone to the log, and drop the key from the directory. The
    /// returned bytes are the pre-deletion value.
    #[verifier::rlimit(60)]
    pub fn delete(&mut self, key: String) -> (r: R<Vec<u8>>)
        requires
            old(self).inv(),
        ensures
            final(self).inv(),
            final(self).threshold() == old(self).threshold(),
            final(self).sync_each_write() == old(self).sync_each_write(),
            match r {
                Ok(v) => {
                    &&& old(self).entries().contains_key(key@)
                    &&& v@ == old(self).entries()[key@].v
                    &&& v@ == old(self).kv()[key@]
                    &&& final(self).entries() == old(self).entries().remove(key@)
                    &&& final(self).kv() == old(self).kv().remove(key@)
                },
                Err(e) => {
                    &&& (e == E::KeyNotExist <==> !old(self).entries().contains_key(key@))
                    &&& (e == E::DataCorrupted ==> old(self).entries().contains_key(key@) && old(
                        self,
                    ).entries()[key@].crc != crc32_of(old(self).entries()[key@].v))
                    &&& (e == E::KeyNotExist || e == E::DataCorrupted || e
                        == E::Failed2ReadFromDataFile || e == E::Failed2Write2DataFile || e
                        == E::Failed2SyncDataFile || e == E::CanNotOpenOrCreateDateFile)
                    &&& (e != E::Failed2SyncDataFile ==> final(self).entries() == old(
                        self,
                    ).entries() && final(self).kv() == old(self).kv())
                    &&& (e == E::Failed2SyncDataFile ==> final(self).entries() == old(
                        self,
                    ).entries() || final(self).entries() == old(self).entries().remove(key@))
                },
            },
    {
        match self.mem_index.get(&key) {
            Some(_) => {},
            None => {
                return Err(E::KeyNotExist);
            },
        }
        proof {
            let md0 = self.mem_index.index()[key@];
            assert(self.loc_ok(key@, md0));
            lemma_key_bytes_empty_iff(key@);
        }
        let tombstone = match Entry::get_tombstone_with_given_key(key.clone()) {
            Ok(t) => t,
            Err(_) => {
                proof {
                    assert(false);
                }
                return Err(E::EmptyKey);
            },
        };
        let res = match self.read(key.clone()) {
            Ok(v) => v,
            Err(e) => {
                return Err(e);
            },
        };
        let ghost pre = *old(self);
        let md = match self.append_entry_to_active_file(&tombstone) {
            Ok(md) => md,
            Err(e) => {
                return Err(e);
            },
        };
        let ghost mid = *self;
        self.mem_index.delete(&key);
        proof {
            let post = *self;
            assert(post.mem_index.index() == mid.replayed_index().remove(key@));
            assert(post.replayed_index() == mid.replayed_index());
            assert forall|k: Seq<char>| #[trigger] post.mem_index.index().contains_key(
                k,
            ) implies post.loc_ok(k, post.mem_index.index()[k]) by {
                assert(pre.loc_ok(k, pre.mem_index.index()[k]));
                assert(post.loc_ok(k, mid.mem_index.index()[k]));
            }
            assert(post.inv());
            assert(post.entries() =~= pre.entries().remove(key@));
            assert(post.kv() =~= pre.kv().remove(key@));
        }
        if self.options.syn_after_each_write {
            match self.active_file.sync() {
                Ok(_) => {},
                Err(e) => {
                    return Err(e);
                },
            }
        }
        Ok(res)
    }

    /// Replace the value of `key`, returning the prior value: a `delete`
    /// followed by a `put` of the new value. Fails with `KeyNotExist`,
    /// and writes nothing, when the key is absent.
    pub fn update(&mut self, key: String, new_value: Vec<u8>) -> (r: R<Vec<u8>>)
        requires
            old(self).inv(),
            ENTRY_HEADER_SIZE + key_bytes(key@).len() + new_value@.len() <= usize::MAX,
        ensures
            final(self).inv(),
            final(self).threshold() == old(self).threshold(),
            final(self).sync_each_write() == old(self).sync_each_write(),
            match r {
                Ok(v) => {
                    &&& old(self).entries().contains_key(key@)
                    &&& v@ == old(self).entries()[key@].v
                    &&& v@ == old(self).kv()[key@]
                    &&& new_value@.len() > 0
                    &&& final(self).kv() == old(self).kv().insert(key@, new_value@)
                    &&& final(self).entries().contains_key(key@)
                    &&& final(self).entries()[key@].v == new_value@
                    &&& final(self).entries()[key@].crc == crc32_of(new_value@)
                },
                Err(e) => {
                    &&& (e == E::KeyNotExist <==> !old(self).entries().contains_key(key@))
                    &&& (e == E::EmptyValue ==> old(self).entries().contains_key(key@)
                        && new_value@.len() == 0 && final(self).kv() == old(self).kv().remove(
                        key@,
                    ))
                    &&& e != E::EmptyKey
                },
            },
    {
        let old_val = match self.delete(key.clone()) {
            Ok(v) => v,
            Err(e) => {
                return Err(e);
            },
        };
        proof {
            let pre = *old(self);
            assert(pre.mem_index.index().contains_key(key@));
            assert(pre.loc_ok(key@, pre.mem_index.index()[key@]));
            lemma_key_bytes_empty_iff(key@);
        }
        let ghost deleted = *self;
        let ghost kk = key@;
        let ghost nv = new_value@;
        match self.put(key, new_value) {
            Ok(_) => {
                proof {
                    assert(self.kv() == deleted.kv().insert(kk, nv));
                    assert(self.kv() =~= old(self).kv().insert(kk, nv));
                }
                Ok(old_val)
            },
            Err(e) => Err(e),
        }
    }
}

/// The scan list that a vector of scanned entries denotes.
pub open spec fn locs_of(list: Seq<EntryWithMetaData>) -> Seq<(EntryV, MetaData)> {
    Seq::new(list.len(), |i: int| (list[i].entry@, list[i].meta_data))
}

/// Every location of `m` is backed by a segment of `files`: the segment
/// with the location's id exists and the location is valid against it.
pub open spec fn locs_backed<IO: IOManager>(
    m: Map<Seq<char>, MetaData>,
    files: Seq<DataFile<IO>>,
) -> bool {
    forall|k: Seq<char>| #[trigger] m.contains_key(k) ==> {
        let md = m[k];
        let f = find_file_idx(files, md.file_id);
        &&& 0 <= f < files.len()
        &&& loc_valid(files[f].contents(), k, md)
    }
}

/// Law: recovery is deterministic in the log. Replaying segments that
/// hold the same bytes under the same ids builds the same directory, so
/// an engine reopened against an unchanged directory of data files
/// rebuilds exactly the key directory that was live before.
pub proof fn lemma_replay_deterministic<IO: IOManager>(
    m: Map<Seq<char>, MetaData>,
    a: Seq<DataFile<IO>>,
    b: Seq<DataFile<IO>>,
)
    requires
        a.len() == b.len(),
        forall|i: int|
            0 <= i < a.len() ==> (#[trigger] a[i]).contents() == b[i].contents()
                && a[i].spec_file_id() == b[i].spec_file_id(),
    ensures
        replay_files(m, a) == replay_files(m, b),
    decreases a.len(),
{
    if a.len() > 0 {
        assert(a.drop_last().len() == b.drop_last().len());
        assert forall|i: int| 0 <= i < a.drop_last().len() implies (#[trigger] a.drop_last()[i]).contents()
            == b.drop_last()[i].contents() && a.drop_last()[i].spec_file_id()
            == b.drop_last()[i].spec_file_id() by {
            assert(a.drop_last()[i] == a[i]);
            assert(b.drop_last()[i] == b[i]);
        }
        lemma_replay_deterministic(m, a.drop_last(), b.drop_last());
        assert(a.last().contents() == b.last().contents());
        assert(a.last().spec_file_id() == b.last().spec_file_id());
    }
}

/// Backing survives adding a segment with a fresh id.
proof fn lemma_backed_extend<IO: IOManager>(
    m: Map<Seq<char>, MetaData>,
    files: Seq<DataFile<IO>>,
    f: DataFile<IO>,
)
    requires
        locs_backed(m, files),
        forall|i: int| 0 <= i < files.len() ==> (#[trigger] files[i]).spec_file_id()
            != f.spec_file_id(),
    ensures
        locs_backed(m, files.push(f)),
{
    let files1 = files.push(f);
    assert forall|k: Seq<char>| #[trigger] m.contains_key(k) implies {
        let md = m[k];
        let g = find_file_idx(files1, md.file_id);
        &&& 0 <= g < files1.len()
        &&& loc_valid(files1[g].contents(), k, md)
    } by {
        let md = m[k];
        let g0 = find_file_idx(files, md.file_id);
        assert(0 <= g0 < files.len());
        lemma_find_file_idx(files, md.file_id);
        assert(files[g0].spec_file_id() == md.file_id);
        assert(f.spec_file_id() != md.file_id);
        assert(files1.drop_last() =~= files);
        assert(find_file_idx(files1, md.file_id) == g0);
        assert(files1[g0] == files[g0]);
    }
}

/// Folding a list of locations that all point, validly, into one segment
/// of `files` keeps every location of the directory backed.
proof fn lemma_apply_locs_backed<IO: IOManager>(
    m: Map<Seq<char>, MetaData>,
    l: Seq<(EntryV, MetaData)>,
    files: Seq<DataFile<IO>>,
    fi: int,
)
    requires
        locs_backed(m, files),
        0 <= fi < files.len(),
        find_file_idx(files, files[fi].spec_file_id()) == fi,
        forall|i: int|
            0 <= i < l.len() ==> {
                let p = #[trigger] l[i];
                &&& p.1.file_id == files[fi].spec_file_id()
                &&& p.1.entry_start_pos + p.1.entry_sz <= files[fi].contents().len()
                &&& p.1.entry_sz == spec_entry_size(p.0)
                &&& p.1.tstamp == p.0.tstamp
                &&& entry_wf(p.0)
                &&& spec_decode(
                    files[fi].contents().subrange(
                        p.1.entry_start_pos as int,
                        p.1.entry_start_pos as int + p.1.entry_sz as int,
                    ),
                ) == Some(p.0)
            },
    ensures
        locs_backed(apply_locs(m, l), files),
    decreases l.len(),
{
    if l.len() > 0 {
        let p = l[0];
        let m1 = apply_one(m, p);
        assert(locs_backed(m1, files)) by {
            assert forall|k: Seq<char>| #[trigger] m1.contains_key(k) implies {
                let md = m1[k];
                let g = find_file_idx(files, md.file_id);
                &&& 0 <= g < files.len()
                &&& loc_valid(files[g].contents(), k, md)
            } by {
                if !spec_is_tombstone(p.0) && k == p.0.k {
                    assert(m1[k] == p.1);
                    assert(loc_valid(files[fi].contents(), k, p.1));
                } else {
                    assert(m.contains_key(k) && m1[k] == m[k]);
                }
            }
        }
        assert forall|i: int| 0 <= i < l.drop_first().len() implies {
            let p2 = #[trigger] l.drop_first()[i];
            &&& p2.1.file_id == files[fi].spec_file_id()
            &&& p2.1.entry_start_pos + p2.1.entry_sz <= files[fi].contents().len()
            &&& p2.1.entry_sz == spec_entry_size(p2.0)
            &&& p2.1.tstamp == p2.0.tstamp
            &&& entry_wf(p2.0)
            &&& spec_decode(
                files[fi].contents().subrange(
                    p2.1.entry_start_pos as int,
                    p2.1.entry_start_pos as int + p2.1.entry_sz as int,
                ),
            ) == Some(p2.0)
        } by {
            assert(l.drop_first()[i] == l[i + 1]);
        }
        lemma_apply_locs_backed(m1, l.drop_first(), files, fi);
    }
}

/// Replaying segments with strictly ascending ids, in order, leaves every
/// location of the resulting directory backed by one of them.
proof fn lemma_replay_files_backed<IO: IOManager>(files: Seq<DataFile<IO>>)
    requires
        forall|i: int| 0 <= i < files.len() ==> (#[trigger] files[i]).wf(),
        forall|i: int, j: int|
            0 <= i < j < files.len() ==> (#[trigger] files[i]).spec_file_id() < (
            #[trigger] files[j]).spec_file_id(),
    ensures
        locs_backed(replay_files(Map::<Seq<char>, MetaData>::empty(), files), files),
    decreases files.len(),
{
    if files.len() == 0 {
        assert(locs_backed(Map::<Seq<char>, MetaData>::empty(), files));
    } else {
        let d = files.drop_last();
        let f = files.last();
        assert forall|i: int, j: int| 0 <= i < j < d.len() implies (#[trigger] d[i]).spec_file_id()
            < (#[trigger] d[j]).spec_file_id() by {
            assert(d[i] == files[i] && d[j] == files[j]);
        }
        assert forall|i: int| 0 <= i < d.len() implies (#[trigger] d[i]).wf() by {
            assert(d[i] == files[i]);
        }
        lemma_replay_files_backed(d);
        let m0 = replay_files(Map::<Seq<char>, MetaData>::empty(), d);
        assert forall|i: int| 0 <= i < d.len() implies (#[trigger] d[i]).spec_file_id()
            != f.spec_file_id() by {
            assert(d[i] == files[i] && f == files[files.len() - 1]);
        }
        lemma_backed_extend(m0, d, f);
        assert(d.push(f) =~= files);
        crate::datafile::lemma_scan_valid(f.contents(), f.spec_file_id(), 0);
        lemma_find_file_idx(d, f.spec_file_id());
        assert(find_file_idx(files, f.spec_file_id()) == files.len() - 1);
        let l = scan(f.contents(), f.spec_file_id(), 0).locs;
        assert forall|i: int| 0 <= i < l.len() implies {
            let p = #[trigger] l[i];
            &&& p.1.file_id == files[files.len() - 1].spec_file_id()
            &&& p.1.entry_start_pos + p.1.entry_sz <= files[files.len() - 1].contents().len()
            &&& p.1.entry_sz == spec_entry_size(p.0)
            &&& p.1.tstamp == p.0.tstamp
            &&& entry_wf(p.0)
            &&& spec_decode(
                files[files.len() - 1].contents().subrange(
                    p.1.entry_start_pos as int,
                    p.1.entry_start_pos as int + p.1.entry_sz as int,
                ),
            ) == Some(p.0)
        } by {
            assert(files[files.len() - 1] == f);
        }
        lemma_apply_locs_backed(m0, l, files, files.len() - 1);
    }
}

/// A freshly opened engine whose last given segment scanned cleanly, and
/// stayed active, satisfies the engine invariant.
proof fn lemma_open_clean_inv<IO: IOManager, X: Indexer>(
    engine: Engine<IO, X>,
    sealed_src: Seq<DataFile<IO>>,
    all: Seq<DataFile<IO>>,
)
    requires
        all.len() > 0,
        sealed_src == all.drop_last(),
        forall|i: int| 0 <= i < all.len() ==> (#[trigger] all[i]).wf(),
        forall|i: int, j: int|
            0 <= i < j < all.len() ==> (#[trigger] all[i]).spec_file_id() < (
            #[trigger] all[j]).spec_file_id(),
        engine.mem_index.inv(),
        engine.mem_index.index() == replay_files(Map::<Seq<char>, MetaData>::empty(), all),
        engine.active_file == all.last(),
        engine.active_file.is_active(),
        engine.older_files@.len() == sealed_src.len(),
        forall|m: int|
            0 <= m < sealed_src.len() ==> {
                let o = #[trigger] engine.older_files@[m];
                &&& o.contents() == sealed_src[m].contents()
                &&& o.spec_file_id() == sealed_src[m].spec_file_id()
                &&& o.wf()
                &&& !o.is_active()
            },
        scan(engine.active_file.contents(), engine.active_file.spec_file_id(), 0).end
            == engine.active_file.contents().len(),
    ensures
        engine.inv(),
{
    let older = engine.older_files@;
    let active = engine.active_file;
    assert forall|i: int, j: int| 0 <= i < j < older.len() implies (#[trigger] older[i]).spec_file_id()
        < (#[trigger] older[j]).spec_file_id() by {
        assert(sealed_src[i] == all[i] && sealed_src[j] == all[j]);
    }
    assert forall|i: int| 0 <= i < older.len() implies (#[trigger] older[i]).spec_file_id()
        < active.spec_file_id() by {
        assert(sealed_src[i] == all[i]);
        assert(all[i].spec_file_id() < all[all.len() - 1].spec_file_id());
    }
    // the key directory equals the replay of the engine's own segments
    lemma_replay_deterministic(Map::<Seq<char>, MetaData>::empty(), older, sealed_src);
    assert(engine.replayed_index() == replay_files(Map::<Seq<char>, MetaData>::empty(), all)) by {
        assert(all.drop_last() == sealed_src);
    }
    // every location of the directory is backed by a segment
    let final_seq = older.push(active);
    assert forall|i: int| 0 <= i < final_seq.len() implies (#[trigger] final_seq[i]).wf() by {
        if i < older.len() {
            assert(final_seq[i] == older[i]);
        } else {
            assert(final_seq[i] == active);
        }
    }
    assert forall|i: int, j: int| 0 <= i < j < final_seq.len() implies (
    #[trigger] final_seq[i]).spec_file_id() < (#[trigger] final_seq[j]).spec_file_id() by {
        if j < older.len() {
            assert(final_seq[i] == older[i] && final_seq[j] == older[j]);
        } else {
            assert(final_seq[j] == active);
            if i < older.len() {
                assert(final_seq[i] == older[i]);
            }
        }
    }
    lemma_replay_files_backed(final_seq);
    assert(final_seq.drop_last() =~= older);
    assert(replay_files(Map::<Seq<char>, MetaData>::empty(), final_seq)
        == engine.mem_index.index());
    assert forall|k: Seq<char>| #[trigger] engine.mem_index.index().contains_key(
        k,
    ) implies engine.loc_ok(k, engine.mem_index.index()[k]) by {
        let md = engine.mem_index.index()[k];
        let g = find_file_idx(final_seq, md.file_id);
        assert(0 <= g < final_seq.len());
        assert(loc_valid(final_seq[g].contents(), k, md));
        lemma_find_file_idx(final_seq, md.file_id);
        if md.file_id == active.spec_file_id() {
            assert(g == final_seq.len() - 1);
            assert(final_seq[g] == active);
        } else {
            assert(g < older.len());
            assert(final_seq[g] == older[g]);
            assert(find_file_idx(older, md.file_id) == g);
        }
    }
}

/// A freshly opened engine whose last given segment had a truncated tail
/// and was sealed behind a fresh active segment satisfies the invariant.
proof fn lemma_open_dirty_inv<IO: IOManager, X: Indexer>(
    engine: Engine<IO, X>,
    sealed_src: Seq<DataFile<IO>>,
    all: Seq<DataFile<IO>>,
    sealed_last: DataFile<IO>,
)
    requires
        all.len() > 0,
        sealed_src == all.drop_last(),
        forall|i: int| 0 <= i < all.len() ==> (#[trigger] all[i]).wf(),
        forall|i: int, j: int|
            0 <= i < j < all.len() ==> (#[trigger] all[i]).spec_file_id() < (
            #[trigger] all[j]).spec_file_id(),
        engine.mem_index.inv(),
        engine.mem_index.index() == replay_files(Map::<Seq<char>, MetaData>::empty(), all),
        sealed_last.contents() == all.last().contents(),
        sealed_last.spec_file_id() == all.last().spec_file_id(),
        sealed_last.wf(),
        !sealed_last.is_active(),
        all.last().spec_file_id() < u32::MAX,
        engine.active_file.wf(),
        engine.active_file.is_active(),
        engine.active_file.contents() == Seq::<u8>::empty(),
        engine.active_file.spec_file_id() == all.last().spec_file_id() + 1,
        engine.older_files@.len() == sealed_src.len() + 1,
        engine.older_files@.last() == sealed_last,
        forall|m: int|
            0 <= m < sealed_src.len() ==> {
                let o = #[trigger] engine.older_files@[m];
                &&& o.contents() == sealed_src[m].contents()
                &&& o.spec_file_id() == sealed_src[m].spec_file_id()
                &&& o.wf()
                &&& !o.is_active()
            },
    ensures
        engine.inv(),
{
    let older = engine.older_files@;
    let active = engine.active_file;
    assert forall|i: int| 0 <= i < older.len() implies (#[trigger] older[i]).wf()
        && !older[i].is_active() by {
        if i < older.len() - 1 {
            assert(sealed_src[i] == all[i]);
        } else {
            assert(older[i] == sealed_last);
        }
    }
    assert forall|i: int, j: int| 0 <= i < j < older.len() implies (#[trigger] older[i]).spec_file_id()
        < (#[trigger] older[j]).spec_file_id() by {
        if j < older.len() - 1 {
            assert(sealed_src[i] == all[i] && sealed_src[j] == all[j]);
        } else {
            assert(older[j] == sealed_last);
            assert(sealed_src[i] == all[i]);
            assert(all[i].spec_file_id() < all[all.len() - 1].spec_file_id());
        }
    }
    assert forall|i: int| 0 <= i < older.len() implies (#[trigger] older[i]).spec_file_id()
        < active.spec_file_id() by {
        if i < older.len() - 1 {
            assert(sealed_src[i] == all[i]);
            assert(all[i].spec_file_id() < all[all.len() - 1].spec_file_id());
        } else {
            assert(older[i] == sealed_last);
        }
    }
    // the empty active segment scans to nothing
    assert(active.contents().skip(0) =~= Seq::<u8>::empty());
    assert(spec_decode(active.contents().skip(0)) is None);
    assert(scan(active.contents(), active.spec_file_id(), 0).locs =~= Seq::<(
        EntryV,
        MetaData,
    )>::empty());
    // the directory equals the replay of the engine's own segments
    assert(older.len() == all.len());
    assert forall|i: int| 0 <= i < older.len() implies (#[trigger] older[i]).contents()
        == all[i].contents() && older[i].spec_file_id() == all[i].spec_file_id() by {
        if i < older.len() - 1 {
            assert(sealed_src[i] == all[i]);
        } else {
            assert(older[i] == sealed_last && all[i] == all.last());
        }
    }
    lemma_replay_deterministic(Map::<Seq<char>, MetaData>::empty(), older, all);
    assert(engine.replayed_index() == replay_files(Map::<Seq<char>, MetaData>::empty(), older));
    // every location of the directory is backed by a sealed segment
    lemma_replay_files_backed(older);
    assert forall|k: Seq<char>| #[trigger] engine.mem_index.index().contains_key(
        k,
    ) implies engine.loc_ok(k, engine.mem_index.index()[k]) by {
        let md = engine.mem_index.index()[k];
        let g = find_file_idx(older, md.file_id);
        assert(0 <= g < older.len());
        assert(loc_valid(older[g].contents(), k, md));
        lemma_find_file_idx(older, md.file_id);
        assert(older[g].spec_file_id() == md.file_id);
        assert(md.file_id != active.spec_file_id());
    }
}

/// Extending the active segment preserves every valid location and the
/// entry it holds: sealed segments are untouched, and bytes below the old
/// end of the active segment do not move.
proof fn lemma_loc_preserved_by_append<IO: IOManager, X: Indexer>(
    pre: Engine<IO, X>,
    post: Engine<IO, X>,
    k: Seq<char>,
    md: MetaData,
)
    requires
        pre.loc_ok(k, md),
        post.older_files@ == pre.older_files@,
        post.active_file.spec_file_id() == pre.active_file.spec_file_id(),
        post.active_file.contents().len() >= pre.active_file.contents().len(),
        post.active_file.contents().subrange(0, pre.active_file.contents().len() as int)
            == pre.active_file.contents(),
    ensures
        post.loc_ok(k, md),
        post.located_at(md) == pre.located_at(md),
{
    if md.file_id == pre.active_file.spec_file_id() {
        let a = md.entry_start_pos as int;
        let b = md.entry_start_pos as int + md.entry_sz as int;
        assert(post.active_file.contents().subrange(a, b) =~= pre.active_file.contents().subrange(
            a,
            b,
        ));
    } else {
        assert(post.seg_contents(md.file_id) == pre.seg_contents(md.file_id));
    }
}

/// After a rotation, every location that was valid before is still valid
/// and holds the same entry: locations in sealed segments are untouched,
/// and the previous active segment is now the last sealed one.
proof fn lemma_loc_preserved_by_rotation<IO: IOManager, X: Indexer>(
    pre: Engine<IO, X>,
    post: Engine<IO, X>,
    sealed: DataFile<IO>,
    k: Seq<char>,
    md: MetaData,
)
    requires
        pre.files_inv(),
        pre.loc_ok(k, md),
        post.older_files@ == pre.older_files@.push(sealed),
        sealed.contents() == pre.active_file.contents(),
        sealed.spec_file_id() == pre.active_file.spec_file_id(),
        post.active_file.spec_file_id() == pre.active_file.spec_file_id() + 1,
        post.active_file.contents() == Seq::<u8>::empty(),
    ensures
        post.loc_ok(k, md),
        post.located_at(md) == pre.located_at(md),
{
    let older0 = pre.older_files@;
    let older1 = post.older_files@;
    assert(older1.drop_last() =~= older0);
    if md.file_id == pre.active_file.spec_file_id() {
        assert(find_file_idx(older1, md.file_id) == older1.len() - 1);
        assert(post.seg_contents(md.file_id) == pre.seg_contents(md.file_id));
    } else {
        let f = find_file_idx(older0, md.file_id);
        lemma_find_file_idx(older0, md.file_id);
        assert(0 <= f < older0.len());
        assert(older0[f].spec_file_id() == md.file_id);
        assert(older0[f].spec_file_id() < pre.active_file.spec_file_id());
        assert(sealed.spec_file_id() != md.file_id);
        assert(find_file_idx(older1, md.file_id) == f);
        assert(older1[f] == older0[f]);
        assert(post.seg_contents(md.file_id) == pre.seg_contents(md.file_id));
        assert(md.file_id != post.active_file.spec_file_id());
    }
}

/// Validate the configuration: the directory path must be non-empty, and
/// a zero size threshold selects the default.
pub fn check_options(opts: &mut Options) -> (r: Option<E>)
    ensures
        match r {
            Some(e) => e == E::DirPathIsEmpty && old(opts).dir_path@.len() == 0 && *final(opts)
                == *old(opts),
            None => {
                &&& old(opts).dir_path@.len() > 0
                &&& final(opts).dir_path == old(opts).dir_path
                &&& final(opts).syn_after_each_write == old(opts).syn_after_each_write
                &&& final(opts).file_threshold == if old(opts).file_threshold == 0 {
                    DEFAULT_FILE_THRESHOLD as usize
                } else {
                    old(opts).file_threshold
                }
            },
        },
{
    if opts.dir_path.as_str().is_empty() {
        return Some(E::DirPathIsEmpty);
    }
    if opts.file_threshold == 0 {
        opts.file_threshold = DEFAULT_FILE_THRESHOLD;
    }
    None
}

} // verus!
