//! The store controller: open, get, set, remove, and compaction over an
//! in-memory image of the log file.
//!
//! The store's mathematical content is the key-value map that replaying its
//! records yields; every operation's contract is stated over that map, and
//! the mutating operations additionally pin the log bytes they append, the
//! index locations they write, and the operation counter's movement.

use vstd::bytes::lemma_auto_spec_u32_to_from_le_bytes;
use vstd::bytes::spec_u32_from_le_bytes;
use vstd::bytes::u32_from_le_bytes;
use vstd::prelude::*;
use vstd::slice::slice_subrange;

use crate::codec::decodable;
use crate::codec::decode;
use crate::codec::encode;
use crate::codec::encoded;
use crate::codec::fits;
use crate::codec::len_bytes;
use crate::codec::lemma_encoded_injective;
use crate::codec::lemma_fits_bounds;
use crate::codec::KvPair;
use crate::codec::PairView;
use crate::error::KvsError;
use crate::index::Index;
use crate::index::Location;
use crate::log::append_frame;
use crate::log::frame;
use crate::log::frames;
use crate::log::lemma_frames_complete;
use crate::log::lemma_frames_concat;
use crate::log::lemma_frames_first;
use crate::log::lemma_frames_nonempty;
use crate::log::lemma_subrange_extend;
use crate::log::read_range;
use crate::log::scan_outcome;
use crate::log::wf_records;
use crate::log::ScanOutcome;

verus! {

/// How many mutating operations may pass before the store compacts its
/// log. The exact figure is a policy choice; it only trades write cost
/// against log growth.
pub const COMPACTION_THRESHOLD: u32 = 1000;

/// The key-value map that replaying records in log order yields: a live
/// record inserts or overwrites its key, a tombstone removes it.
pub open spec fn replay_map(rs: Seq<PairView>) -> Map<Seq<char>, Seq<char>>
    decreases rs.len(),
{
    if rs.len() == 0 {
        Map::empty()
    } else {
        apply_record(replay_map(rs.drop_last()), rs.last())
    }
}

/// One record applied to a map.
pub open spec fn apply_record(
    m: Map<Seq<char>, Seq<char>>,
    p: PairView,
) -> Map<Seq<char>, Seq<char>> {
    match p.value {
        Option::Some(v) => m.insert(p.key, v),
        Option::None => m.remove(p.key),
    }
}

/// The index that replaying records in log order yields: each live key
/// maps to the payload position of its most recent live frame, counted
/// from the start of the byte image the records lay down.
pub open spec fn replay_locs(rs: Seq<PairView>) -> Map<Seq<char>, Location>
    decreases rs.len(),
{
    if rs.len() == 0 {
        Map::empty()
    } else {
        let m = replay_locs(rs.drop_last());
        let p = rs.last();
        match p.value {
            Option::Some(_) => m.insert(
                p.key,
                Location {
                    start: (frames(rs.drop_last()).len() + 4) as usize,
                    len: encoded(p).len() as usize,
                },
            ),
            Option::None => m.remove(p.key),
        }
    }
}

/// The one live record per index entry, in entry order, carrying the
/// value the store's map holds for that entry's key.
pub open spec fn live_records(
    entries: Seq<crate::index::IndexEntry>,
    m: Map<Seq<char>, Seq<char>>,
) -> Seq<PairView> {
    entries.map(|i: int, e: crate::index::IndexEntry| PairView {
        key: e.key@,
        value: Option::Some(m[e.key@]),
    })
}

/// An index location is good for key `k` with value `v`: the log holds, at
/// exactly that place, the payload of the live record `(k, v)`.
pub open spec fn loc_ok(log: Seq<u8>, k: Seq<char>, v: Seq<char>, loc: Location) -> bool {
    let p = PairView { key: k, value: Option::Some(v) };
    &&& loc.start + loc.len <= log.len()
    &&& fits(p)
    &&& log.subrange(loc.start as int, loc.start + loc.len) == encoded(p)
}

/// A database of key-value pairs, kept as an append-only log of records
/// plus an index from each live key to its record's place in the log.
pub struct KvStore {
    /// The in-memory image of the log file.
    pub log: Vec<u8>,
    /// Maps each live key to the location of its most recent live record.
    pub index: Index,
    /// Mutating operations since the last compaction.
    pub operations: u32,
    /// The records the log holds, in order.
    pub records: Ghost<Seq<PairView>>,
}

impl View for KvStore {
    type V = Map<Seq<char>, Seq<char>>;

    open spec fn view(&self) -> Map<Seq<char>, Seq<char>> {
        replay_map(self.records@)
    }
}

impl KvStore {
    /// The store's invariant: the log is the byte image of its records,
    /// the index holds exactly the live keys with good locations, the
    /// indexed frames do not outweigh the log, and the operation counter
    /// stays under its threshold.
    pub open spec fn wf(&self) -> bool {
        &&& self.log@ == frames(self.records@)
        &&& wf_records(self.records@)
        &&& self.index.wf()
        &&& self.index@ == replay_locs(self.records@)
        &&& self.index@.dom() == self@.dom()
        &&& forall|k: Seq<char>| #[trigger]
            self@.contains_key(k) ==> loc_ok(self.log@, k, self@[k], self.index@[k])
        &&& self.index.size() <= self.log@.len()
        &&& self.operations <= COMPACTION_THRESHOLD
    }

    /// The log holds exactly one live frame per index entry, in entry
    /// order: the shape compaction leaves behind.
    pub open spec fn compacted(&self) -> bool {
        self.records@ == live_records(self.index.entries@, self@)
    }

    /// Open a store over the byte image of a log file, replaying every
    /// frame in order to rebuild the index. An empty image yields an empty
    /// store. The scan fails with `UnexpectedEOF` on a truncated final
    /// frame and with `SerdeError` on a payload no record encodes to; it
    /// succeeds exactly when the image is a clean concatenation of frames,
    /// and then the store's map is the replay of whatever records wrote
    /// the image.
    pub fn open(log: Vec<u8>) -> (r: Result<KvStore, KvsError>)
        ensures
            r is Ok <==> scan_outcome(log@) == ScanOutcome::Complete,
            r == Err::<KvStore, KvsError>(KvsError::UnexpectedEOF) <==> scan_outcome(log@)
                == ScanOutcome::Truncated,
            r == Err::<KvStore, KvsError>(KvsError::SerdeError) <==> scan_outcome(log@)
                == ScanOutcome::Undecodable,
            r matches Ok(s) ==> {
                &&& s.wf()
                &&& s.log@ == log@
                &&& s.operations == 0
                &&& forall|rs: Seq<PairView>|
                    wf_records(rs) && frames(rs) == log@ ==> s@ == replay_map(rs) && s.index@
                        == replay_locs(rs)
            },
    {
        proof {
            lemma_auto_spec_u32_to_from_le_bytes();
            assert(log@.skip(0) =~= log@);
            assert(log@.take(0) =~= Seq::<u8>::empty());
            assert forall|rs: Seq<PairView>|
                wf_records(rs) && #[trigger] frames(rs) == log@ implies rs.len() >= 0 && rs.take(0)
                == Seq::<PairView>::empty() by {
                assert(rs.take(0) =~= Seq::<PairView>::empty());
            }
        }
        let n = log.len();
        let mut index = Index::new();
        let ghost mut done: Seq<PairView> = Seq::empty();
        let mut offset: usize = 0;
        while offset < n
            invariant
                n == log@.len(),
                offset <= n,
                frames(done) == log@.take(offset as int),
                wf_records(done),
                index.wf(),
                index@ == replay_locs(done),
                index@.dom() == replay_map(done).dom(),
                forall|k: Seq<char>| #[trigger]
                    replay_map(done).contains_key(k) ==> loc_ok(
                        log@,
                        k,
                        replay_map(done)[k],
                        index@[k],
                    ),
                index.size() <= offset,
                scan_outcome(log@) == scan_outcome(log@.skip(offset as int)),
                forall|rs: Seq<PairView>|
                    wf_records(rs) && #[trigger] frames(rs) == log@ ==> rs.len() >= done.len()
                        && rs.take(done.len() as int) == done,
            decreases n - offset,
        {
            proof {
                lemma_auto_spec_u32_to_from_le_bytes();
            }
            let ghost tail = log@.skip(offset as int);
            if n - offset < 4 {
                assert(scan_outcome(tail) == ScanOutcome::Truncated);
                return Err(KvsError::UnexpectedEOF);
            }
            let l32 = u32_from_le_bytes(slice_subrange(log.as_slice(), offset, offset + 4));
            let l = l32 as usize;
            proof {
                assert(tail.subrange(0, 4) =~= log@.subrange(offset as int, offset as int + 4));
            }
            if n - offset - 4 < l {
                assert(scan_outcome(tail) == ScanOutcome::Truncated);
                return Err(KvsError::UnexpectedEOF);
            }
            let payload = read_range(&log, offset + 4, l);
            proof {
                assert(tail.subrange(4, 4 + l as int) =~= payload@);
            }
            match decode(&payload) {
                Err(_) => {
                    assert(!decodable(tail.subrange(4, 4 + l as int)));
                    assert(scan_outcome(tail) == ScanOutcome::Undecodable);
                    return Err(KvsError::SerdeError);
                },
                Ok(pair) => {
                    let ghost pv = pair@;
                    let ghost old_done = done;
                    let ghost old_map = replay_map(done);
                    let loc = Location { start: offset + 4, len: l };
                    proof {
                        done = done.push(pv);
                        assert(old_done.push(pv).drop_last() =~= old_done);
                        assert(replay_map(done) == apply_record(old_map, pv));
                        assert(encoded(pv).len() == l);
                        assert(log@.subrange(offset as int, offset as int + 4) == len_bytes(
                            encoded(pv).len(),
                        )) by {
                            assert(spec_u32_from_le_bytes(
                                log@.subrange(offset as int, offset as int + 4),
                            ) == l32);
                        }
                        lemma_replay_step(log@, offset as int, pv, old_done);
                        assert forall|rs: Seq<PairView>|
                            wf_records(rs) && #[trigger] frames(rs) == log@ implies rs.len()
                            >= done.len() && rs.take(done.len() as int) == done by {
                            assert(rs.take(old_done.len() as int) == old_done);
                            lemma_replay_uniq(log@, offset as int, pv, old_done, rs);
                        }
                    }
                    if pair.value.is_some() {
                        index.insert(pair.key, loc);
                    } else {
                        index.remove(&pair.key);
                    }
                    proof {
                        assert(replay_locs(done) == match pv.value {
                            Option::Some(_) => replay_locs(old_done).insert(pv.key, loc),
                            Option::None => replay_locs(old_done).remove(pv.key),
                        });
                        assert(index@ =~= replay_locs(done));
                        assert(index@.dom() =~= replay_map(done).dom());
                        assert forall|k: Seq<char>| #[trigger]
                            replay_map(done).contains_key(k) implies loc_ok(
                            log@,
                            k,
                            replay_map(done)[k],
                            index@[k],
                        ) by {
                            if !(pv.value is Some && k == pv.key) {
                                assert(old_map.contains_key(k) && replay_map(done)[k]
                                    == old_map[k]);
                            }
                        }
                    }
                    offset = offset + 4 + l;
                },
            }
        }
        let ghost gl = log@;
        let store = KvStore { log, index, operations: 0, records: Ghost(done) };
        proof {
            assert(gl.take(n as int) =~= gl);
            assert(gl.skip(n as int) =~= Seq::<u8>::empty());
            assert(scan_outcome(gl) == ScanOutcome::Complete);
            assert forall|rs: Seq<PairView>|
                wf_records(rs) && frames(rs) == gl implies store@ == replay_map(rs) && store.index@
                == replay_locs(rs) by {
                let k = done.len() as int;
                assert(rs.take(k) == done);
                assert(rs =~= rs.take(k) + rs.skip(k));
                lemma_frames_concat(rs.take(k), rs.skip(k));
                if rs.skip(k).len() > 0 {
                    lemma_frames_nonempty(rs.skip(k));
                    assert(frames(rs).len() > gl.len());
                    assert(false);
                }
                assert(rs =~= done);
            }
        }
        Ok(store)
    }

    /// Retrieve the value of a key. A missing key is a normal outcome,
    /// reported as `None`, never as an error.
    pub fn get(&self, key: String) -> (r: Result<Option<String>, KvsError>)
        requires
            self.wf(),
        ensures
            r is Ok,
            r matches Ok(o) ==> {
                &&& o matches Some(v) ==> self@.contains_key(key@) && v@ == self@[key@]
                &&& o is None ==> !self@.contains_key(key@)
            },
    {
        match self.index.get(&key) {
            None => Ok(None),
            Some(loc) => {
                let ghost p0 = PairView { key: key@, value: Option::Some(self@[key@]) };
                let payload = read_range(&self.log, loc.start, loc.len);
                match decode(&payload) {
                    Ok(pair) => {
                        proof {
                            lemma_encoded_injective(pair@, p0);
                        }
                        Ok(pair.value)
                    },
                    Err(_) => {
                        proof {
                            assert(fits(p0) && encoded(p0) == payload@);
                            assert(false);
                        }
                        Err(KvsError::SerdeError)
                    },
                }
            },
        }
    }

    /// Set a key to a value by appending a live record: the log grows by
    /// exactly that record's frame, the key's index entry points at the
    /// new frame's payload, no other entry moves, and the operation
    /// counter advances (resetting when its threshold triggers a
    /// compaction). Fails only when the record is too large for the frame
    /// format, and then changes nothing.
    pub fn set(&mut self, key: String, value: String) -> (r: Result<(), KvsError>)
        requires
            old(self).wf(),
        ensures
            final(self).wf(),
            r is Ok <==> fits(PairView { key: key@, value: Option::Some(value@) }),
            r is Ok ==> final(self)@ == old(self)@.insert(key@, value@),
            r is Ok && old(self).operations < COMPACTION_THRESHOLD ==> {
                &&& final(self).operations == old(self).operations + 1
                &&& final(self).log@ == old(self).log@ + frame(
                    (PairView { key: key@, value: Option::Some(value@) }),
                )
                &&& final(self).records@ == old(self).records@.push(
                    (PairView { key: key@, value: Option::Some(value@) }),
                )
                &&& final(self).index@.contains_key(key@)
                &&& final(self).index@[key@].start == old(self).log@.len() + 4
                &&& final(self).index@[key@].len == encoded(
                    PairView { key: key@, value: Option::Some(value@) },
                ).len()
                &&& final(self).index@.remove(key@) == old(self).index@.remove(key@)
            },
            r is Ok && old(self).operations == COMPACTION_THRESHOLD ==> {
                &&& final(self).operations == 0
                &&& final(self).compacted()
                &&& final(self).log@.len() == final(self).index.size()
            },
            r is Err ==> r == Err::<(), KvsError>(KvsError::SerdeError) && final(self)@ == old(
                self,
            )@ && final(self).log@ == old(self).log@ && final(self).index.entries@ == old(
                self,
            ).index.entries@ && final(self).records@ == old(self).records@ && final(self).operations == old(self).operations,
    {
        self.append(KvPair { key, value: Some(value) })
    }

    /// Remove a key by appending a tombstone record: the log grows by
    /// exactly the tombstone's frame, the key leaves the index, no other
    /// entry moves, and the operation counter advances (resetting when
    /// its threshold triggers a compaction). Removing an absent key is an
    /// error, unlike reading one, and then changes nothing.
    pub fn remove(&mut self, key: String) -> (r: Result<(), KvsError>)
        requires
            old(self).wf(),
        ensures
            final(self).wf(),
            old(self)@.contains_key(key@) ==> r is Ok && final(self)@ == old(self)@.remove(key@),
            old(self)@.contains_key(key@) && old(self).operations < COMPACTION_THRESHOLD ==> {
                &&& final(self).operations == old(self).operations + 1
                &&& final(self).log@ == old(self).log@ + frame(
                    (PairView { key: key@, value: Option::None }),
                )
                &&& final(self).records@ == old(self).records@.push(
                    (PairView { key: key@, value: Option::None }),
                )
                &&& final(self).index@ == old(self).index@.remove(key@)
            },
            old(self)@.contains_key(key@) && old(self).operations == COMPACTION_THRESHOLD ==> {
                &&& final(self).operations == 0
                &&& final(self).compacted()
                &&& final(self).log@.len() == final(self).index.size()
            },
            !old(self)@.contains_key(key@) ==> r == Err::<(), KvsError>(KvsError::KeyNotFound)
                && final(self)@ == old(self)@ && final(self).log@ == old(self).log@
                && final(self).index.entries@ == old(self).index.entries@
                && final(self).records@ == old(self).records@
                && final(self).operations == old(self).operations,
    {
        match self.index.get(&key) {
            Some(_) => {
                proof {
                    lemma_auto_spec_u32_to_from_le_bytes();
                    let live = PairView { key: key@, value: Option::Some(self@[key@]) };
                    assert(fits(live));
                    assert(fits(PairView { key: key@, value: Option::None::<Seq<char>> }));
                }
                self.append(KvPair { key, value: None })
            },
            None => Err(KvsError::KeyNotFound),
        }
    }

    /// Append one record to the log, update the index and the operation
    /// counter, and compact when the counter crosses the threshold.
    fn append(&mut self, pair: KvPair) -> (r: Result<(), KvsError>)
        requires
            old(self).wf(),
        ensures
            final(self).wf(),
            r is Ok <==> fits(pair@),
            r is Ok ==> final(self)@ == apply_record(old(self)@, pair@),
            r is Ok && old(self).operations < COMPACTION_THRESHOLD ==> {
                &&& final(self).operations == old(self).operations + 1
                &&& final(self).log@ == old(self).log@ + frame(pair@)
                &&& final(self).records@ == old(self).records@.push(pair@)
                &&& pair@.value is Some ==> final(self).index@.contains_key(pair@.key)
                    && final(self).index@[pair@.key].start == old(self).log@.len() + 4
                    && final(self).index@[pair@.key].len == encoded(pair@).len()
                    && final(self).index@.remove(pair@.key) == old(self).index@.remove(pair@.key)
                &&& pair@.value is None ==> final(self).index@ == old(self).index@.remove(
                    pair@.key,
                )
            },
            r is Ok && old(self).operations == COMPACTION_THRESHOLD ==> {
                &&& final(self).operations == 0
                &&& final(self).compacted()
                &&& final(self).log@.len() == final(self).index.size()
            },
            r is Err ==> r == Err::<(), KvsError>(KvsError::SerdeError) && final(self)@ == old(
                self,
            )@ && final(self).log@ == old(self).log@ && final(self).index.entries@ == old(
                self,
            ).index.entries@ && final(self).records@ == old(self).records@ && final(self).operations == old(self).operations,
    {
        proof {
            lemma_auto_spec_u32_to_from_le_bytes();
        }
        let ghost pv = pair@;
        let mut payload = match encode(&pair) {
            Ok(b) => b,
            Err(e) => {
                return Err(e);
            },
        };
        let ghost old_log = self.log@;
        let ghost old_records = self.records@;
        let ghost old_map = self@;
        let ghost old_index = self.index@;
        let loc = append_frame(&mut self.log, &mut payload);
        self.records = Ghost(old_records.push(pv));
        proof {
            assert(old_records.push(pv).drop_last() =~= old_records);
            assert(self.log@ == frames(self.records@));
            assert(self@ == apply_record(old_map, pv));
            assert forall|k: Seq<char>, v: Seq<char>, l: Location|
                loc_ok(old_log, k, v, l) implies loc_ok(self.log@, k, v, l) by {
                lemma_subrange_extend(
                    old_log,
                    frame(pv),
                    l.start as int,
                    l.start + l.len,
                );
                assert(old_log + frame(pv) =~= self.log@);
            }
            assert(self.log@.subrange(loc.start as int, loc.start + loc.len) =~= encoded(pv));
        }
        if pair.value.is_some() {
            self.index.insert(pair.key, loc);
        } else {
            self.index.remove(&pair.key);
        }
        proof {
            assert(pv.value is Some ==> self.index@.remove(pv.key) =~= old_index.remove(pv.key));
            assert(self.index@.dom() =~= self@.dom());
            assert forall|k: Seq<char>| #[trigger]
                self@.contains_key(k) implies loc_ok(self.log@, k, self@[k], self.index@[k]) by {
                if pv.value is Some && k == pv.key {
                    assert(self.index@[k] == loc);
                    assert(self@[k] == pv.value->0);
                } else {
                    assert(old_map.contains_key(k) && self@[k] == old_map[k]);
                    assert(loc_ok(old_log, k, old_map[k], self.index@[k]));
                }
            }
        }
        self.operations = self.operations + 1;
        if self.operations > COMPACTION_THRESHOLD {
            self.operations = 0;
            assert(self.wf());
            let ghost mid_entries = self.index.entries@;
            let ghost mid_map = self@;
            let _ = self.compaction();
            proof {
                assert(self.records@ =~= live_records(self.index.entries@, self@));
            }
        }
        Ok(())
    }

    /// Rewrite the log to hold exactly one live frame per index entry, in
    /// entry order, and repoint the index into the new layout. The store's
    /// map, the entry order and the operation counter are unchanged; the
    /// new log is exactly the live frames' bytes, so it never grows, and
    /// shrinks whenever the old log held a shadowed write or a tombstone.
    pub fn compaction(&mut self) -> (r: Result<(), KvsError>)
        requires
            old(self).wf(),
        ensures
            final(self).wf(),
            r is Ok,
            final(self)@ == old(self)@,
            final(self).records@ == live_records(old(self).index.entries@, old(self)@),
            final(self).log@ == frames(final(self).records@),
            final(self).log@.len() == old(self).index.size(),
            final(self).index.size() == final(self).log@.len(),
            final(self).compacted(),
            old(self).compacted() ==> final(self).log@ == old(self).log@ && final(self).index@
                == old(self).index@ && final(self).records@ == old(self).records@,
            final(self).log@.len() <= old(self).log@.len(),
            final(self).index.entries@.len() == old(self).index.entries@.len(),
            forall|j: int|
                0 <= j < old(self).index.entries@.len() ==> final(self).index.entries@[j].key@
                    == #[trigger] old(self).index.entries@[j].key@,
            final(self).operations == old(self).operations,
    {
        let n = self.index.len();
        let mut new_log: Vec<u8> = Vec::new();
        let mut new_index = Index::new();
        let ghost mut new_records: Seq<PairView> = Seq::empty();
        let mut i: usize = 0;
        while i < n
            invariant
                self.wf(),
                n == self.index.entries@.len(),
                i <= n,
                new_log@ == frames(new_records),
                wf_records(new_records),
                new_index.wf(),
                new_index@ == replay_locs(new_records),
                new_index.size() == new_log@.len(),
                new_index.entries@.len() == i,
                forall|j: int|
                    0 <= j < i ==> new_index.entries@[j].key@ == #[trigger] self.index.entries@[
                        j
                    ].key@,
                new_records == live_records(self.index.entries@.take(i as int), self@),
                new_log@.len() == crate::index::entries_size(self.index.entries@.take(i as int)),
                forall|k: Seq<char>| #[trigger]
                    replay_map(new_records).contains_key(k) <==> exists|j: int|
                        0 <= j < i && self.index.entries@[j].key@ == k,
                forall|k: Seq<char>| #[trigger]
                    replay_map(new_records).contains_key(k) ==> self@.contains_key(k)
                        && replay_map(new_records)[k] == self@[k],
                new_index@.dom() == replay_map(new_records).dom(),
                forall|k: Seq<char>| #[trigger]
                    replay_map(new_records).contains_key(k) ==> loc_ok(
                        new_log@,
                        k,
                        replay_map(new_records)[k],
                        new_index@[k],
                    ),
            decreases n - i,
        {
            proof {
                crate::index::lemma_entries_map(self.index.entries@);
            }
            let loc = self.index.loc_at(i);
            let key = self.index.key_at(i).clone();
            let ghost k = key@;
            let ghost v = self@[k];
            let ghost pv = PairView { key: k, value: Option::Some(v) };
            assert(self@.contains_key(k));
            assert(loc_ok(self.log@, k, v, loc));
            let mut payload = read_range(&self.log, loc.start, loc.len);
            let ghost prev_log = new_log@;
            let ghost prev_records = new_records;
            let new_loc = append_frame(&mut new_log, &mut payload);
            proof {
                new_records = new_records.push(pv);
            }
            new_index.insert(key, new_loc);
            proof {
                lemma_auto_spec_u32_to_from_le_bytes();
                assert(prev_records.push(pv).drop_last() =~= prev_records);
                assert(new_log@ == frames(new_records));
                assert((frames(prev_records).len() + 4) as usize == new_loc.start);
                assert(encoded(pv).len() as usize == new_loc.len);
                assert(replay_locs(new_records) == replay_locs(prev_records).insert(k, new_loc));
                assert(new_index@ =~= replay_locs(new_records));
                assert(new_records =~= live_records(
                    self.index.entries@.take(i as int + 1),
                    self@,
                ));
                assert(replay_map(new_records) == replay_map(prev_records).insert(k, v));
                assert(!replay_map(prev_records).contains_key(k));
                assert(self.index.entries@.take(i + 1).drop_last() =~= self.index.entries@.take(
                    i as int,
                ));
                assert forall|q: Seq<char>| #[trigger]
                    replay_map(new_records).contains_key(q) implies loc_ok(
                    new_log@,
                    q,
                    replay_map(new_records)[q],
                    new_index@[q],
                ) by {
                    if q == k {
                        assert(new_log@.subrange(
                            new_loc.start as int,
                            new_loc.start + new_loc.len,
                        ) =~= encoded(pv));
                    } else {
                        lemma_subrange_extend(
                            prev_log,
                            frame(pv),
                            new_index@[q].start as int,
                            new_index@[q].start + new_index@[q].len,
                        );
                        assert(prev_log + frame(pv) =~= new_log@);
                    }
                }
            }
            i = i + 1;
        }
        proof {
            crate::index::lemma_entries_map(self.index.entries@);
            assert(self.index.entries@.take(n as int) =~= self.index.entries@);
            assert(new_records == live_records(self.index.entries@, self@));
            assert(replay_map(new_records) =~= self@);
            assert(new_records =~= live_records(new_index.entries@, replay_map(new_records)));
        }
        self.log = new_log;
        self.index = new_index;
        self.records = Ghost(new_records);
        Ok(())
    }
}

/// One step of a replay scan: when the bytes at `offset` frame exactly the
/// record `pv`, the scan moves past that frame, the records seen so far
/// extend by `pv`, and any record list that explains the whole image must
/// also continue with `pv`.
proof fn lemma_replay_step(gl: Seq<u8>, offset: int, pv: PairView, old_done: Seq<PairView>)
    requires
        0 <= offset,
        fits(pv),
        offset + 4 + encoded(pv).len() <= gl.len(),
        frames(old_done) == gl.take(offset),
        gl.subrange(offset, offset + 4) == len_bytes(encoded(pv).len()),
        gl.subrange(offset + 4, offset + 4 + encoded(pv).len()) == encoded(pv),
    ensures
        frames(old_done.push(pv)) == gl.take(offset + 4 + encoded(pv).len()),
        scan_outcome(gl.skip(offset)) == scan_outcome(gl.skip(offset + 4 + encoded(pv).len())),
{
    lemma_auto_spec_u32_to_from_le_bytes();
    lemma_fits_bounds(pv);
    let l = encoded(pv).len() as int;
    let tail = gl.skip(offset);
    assert(old_done.push(pv).drop_last() =~= old_done);
    assert(frames(old_done.push(pv)) =~= gl.take(offset + 4 + l));
    assert(tail.subrange(0, 4) =~= gl.subrange(offset, offset + 4));
    assert(spec_u32_from_le_bytes(tail.subrange(0, 4)) == l);
    assert(tail.subrange(4, 4 + l) =~= encoded(pv));
    assert(decodable(tail.subrange(4, 4 + l)));
    assert(tail.subrange(4 + l, tail.len() as int) =~= gl.skip(offset + 4 + l));
    assert(scan_outcome(tail) == scan_outcome(gl.skip(offset + 4 + l)));
}

/// Any record list that explains the whole image, and agrees with the
/// records seen so far, must continue with exactly the record whose frame
/// sits at `offset`.
proof fn lemma_replay_uniq(
    gl: Seq<u8>,
    offset: int,
    pv: PairView,
    old_done: Seq<PairView>,
    rs: Seq<PairView>,
)
    requires
        0 <= offset,
        fits(pv),
        offset + 4 + encoded(pv).len() <= gl.len(),
        frames(old_done) == gl.take(offset),
        gl.subrange(offset, offset + 4) == len_bytes(encoded(pv).len()),
        gl.subrange(offset + 4, offset + 4 + encoded(pv).len()) == encoded(pv),
        wf_records(rs),
        frames(rs) == gl,
        rs.len() >= old_done.len(),
        rs.take(old_done.len() as int) == old_done,
    ensures
        rs.len() > old_done.len(),
        rs.take(old_done.len() as int + 1) == old_done.push(pv),
{
    lemma_auto_spec_u32_to_from_le_bytes();
    lemma_fits_bounds(pv);
    let l = encoded(pv).len() as int;
    let tail = gl.skip(offset);
    assert(tail.subrange(0, 4) =~= gl.subrange(offset, offset + 4));
    assert(tail.subrange(4, 4 + l) =~= gl.subrange(offset + 4, offset + 4 + l));
    {
        let k = old_done.len() as int;
        assert(rs =~= rs.take(k) + rs.skip(k));
        lemma_frames_concat(rs.take(k), rs.skip(k));
        assert(frames(rs.skip(k)) =~= tail);
        if rs.skip(k).len() == 0 {
            assert(frames(rs.skip(k)).len() == 0);
            assert(tail.len() > 0);
            assert(false);
        }
        lemma_frames_first(rs.skip(k));
        let r0 = rs.skip(k)[0];
        assert(r0 == rs[k]);
        assert(fits(r0));
        lemma_fits_bounds(r0);
        assert(frame(r0) =~= tail.subrange(0, frame(r0).len() as int));
        assert(len_bytes(encoded(r0).len()) =~= tail.subrange(0, 4)) by {
            assert(frame(r0).subrange(0, 4) =~= len_bytes(encoded(r0).len()));
        }
        assert(encoded(r0).len() == l) by {
            assert(spec_u32_from_le_bytes(len_bytes(encoded(r0).len())) == encoded(
                r0,
            ).len() as u32);
        }
        assert(encoded(r0) =~= tail.subrange(4, 4 + l)) by {
            assert(frame(r0).subrange(4, 4 + l) =~= encoded(r0));
        }
        lemma_encoded_injective(r0, pv);
        assert(rs.take(k + 1) =~= old_done.push(pv));
        assert(rs.skip(k).len() > 0);
        assert(rs.len() > old_done.len());
    }
}

/// A write is visible until overwritten or removed: after `set(k, v)` the
/// store's map gives `v` at `k`, and neither a set of another key nor a
/// remove of another key disturbs that. Stated over the maps that the
/// contracts of `set`, `remove` and `get` use.
pub proof fn lemma_set_then_get(
    m: Map<Seq<char>, Seq<char>>,
    k: Seq<char>,
    v: Seq<char>,
    k2: Seq<char>,
    v2: Seq<char>,
)
    ensures
        m.insert(k, v).contains_key(k) && m.insert(k, v)[k] == v,
        k2 != k ==> m.insert(k, v).insert(k2, v2)[k] == v && m.insert(k, v).insert(
            k2,
            v2,
        ).contains_key(k),
        k2 != k ==> m.insert(k, v).remove(k2)[k] == v && m.insert(k, v).remove(k2).contains_key(k),
{
}

/// Last writer wins: two sets of the same key leave the later value.
pub proof fn lemma_last_writer_wins(
    m: Map<Seq<char>, Seq<char>>,
    k: Seq<char>,
    v1: Seq<char>,
    v2: Seq<char>,
)
    ensures
        m.insert(k, v1).insert(k, v2).contains_key(k),
        m.insert(k, v1).insert(k, v2)[k] == v2,
{
}

/// Durability: the log image of a well-formed store scans cleanly, and
/// some well-formed record list both explains the image and replays to the
/// store's current map. Together with the contract of `open`, this says
/// that reopening a store against the bytes it has written reproduces
/// exactly its key-value map.
pub proof fn lemma_durability(s: KvStore)
    requires
        s.wf(),
    ensures
        scan_outcome(s.log@) == ScanOutcome::Complete,
        exists|rs: Seq<PairView>|
            wf_records(rs) && #[trigger] frames(rs) == s.log@ && replay_map(rs) == s@,
{
    lemma_frames_complete(s.records@);
    assert(wf_records(s.records@) && frames(s.records@) == s.log@ && replay_map(s.records@)
        == s@);
}

} // verus!
