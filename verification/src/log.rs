//! The log: a concatenation of frames, each a 4-byte little-endian length
//! prefix followed by one record payload, and the positional reads and tail
//! appends that the store performs on its in-memory image of the log file.

use vstd::bytes::lemma_auto_spec_u32_to_from_le_bytes;
use vstd::bytes::spec_u32_from_le_bytes;
use vstd::bytes::u32_to_le_bytes;
use vstd::prelude::*;
use vstd::slice::slice_subrange;
use vstd::slice::slice_to_vec;

use crate::codec::decodable;
use crate::codec::encoded;
use crate::codec::fits;
use crate::codec::len_bytes;
use crate::codec::lemma_fits_bounds;
use crate::codec::PairView;
use crate::codec::MAX_PAYLOAD;
use crate::index::Location;

verus! {

/// The frame of one record: its payload behind a 4-byte length prefix.
pub open spec fn frame(p: PairView) -> Seq<u8> {
    len_bytes(encoded(p).len()) + encoded(p)
}

/// The byte image of a whole log holding the given records in order.
pub open spec fn frames(rs: Seq<PairView>) -> Seq<u8>
    decreases rs.len(),
{
    if rs.len() == 0 {
        Seq::empty()
    } else {
        frames(rs.drop_last()) + frame(rs.last())
    }
}

/// Every record fits the frame format.
pub open spec fn wf_records(rs: Seq<PairView>) -> bool {
    forall|i: int| 0 <= i < rs.len() ==> fits(#[trigger] rs[i])
}

/// What a full scan of a byte image finds: a clean end exactly at a frame
/// boundary, a truncated final frame, or a payload no record encodes to.
pub ghost enum ScanOutcome {
    Complete,
    Truncated,
    Undecodable,
}

/// The outcome of scanning a byte image from its start.
pub open spec fn scan_outcome(bytes: Seq<u8>) -> ScanOutcome
    decreases bytes.len(),
{
    if bytes.len() == 0 {
        ScanOutcome::Complete
    } else if bytes.len() < 4 {
        ScanOutcome::Truncated
    } else {
        let l = spec_u32_from_le_bytes(bytes.subrange(0, 4)) as int;
        if bytes.len() < 4 + l {
            ScanOutcome::Truncated
        } else if !decodable(bytes.subrange(4, 4 + l)) {
            ScanOutcome::Undecodable
        } else {
            scan_outcome(bytes.subrange(4 + l, bytes.len() as int))
        }
    }
}

/// Concatenating record lists concatenates their byte images.
pub proof fn lemma_frames_concat(a: Seq<PairView>, b: Seq<PairView>)
    ensures
        frames(a + b) == frames(a) + frames(b),
    decreases b.len(),
{
    if b.len() == 0 {
        assert(a + b =~= a);
        assert(frames(a) + frames(b) =~= frames(a));
    } else {
        assert((a + b).drop_last() =~= a + b.drop_last());
        assert((a + b).last() == b.last());
        lemma_frames_concat(a, b.drop_last());
        assert(frames(a + b) =~= frames(a) + frames(b));
    }
}

/// A nonempty record list opens with the frame of its first record.
pub proof fn lemma_frames_first(rs: Seq<PairView>)
    requires
        rs.len() > 0,
    ensures
        frames(rs) == frame(rs[0]) + frames(rs.drop_first()),
{
    let s1 = seq![rs[0]];
    assert(rs =~= s1 + rs.drop_first());
    lemma_frames_concat(s1, rs.drop_first());
    assert(s1.drop_last() =~= Seq::<PairView>::empty());
    assert(frames(s1.drop_last()) == Seq::<u8>::empty());
    assert(s1.last() == rs[0]);
    assert(frames(s1) =~= frame(rs[0]));
}

/// The byte image of a nonempty record list is nonempty.
pub proof fn lemma_frames_nonempty(rs: Seq<PairView>)
    requires
        rs.len() > 0,
    ensures
        frames(rs).len() > 0,
{
    lemma_auto_spec_u32_to_from_le_bytes();
}

/// A scan of the byte image of fitting records always completes cleanly.
pub proof fn lemma_frames_complete(rs: Seq<PairView>)
    requires
        wf_records(rs),
    ensures
        scan_outcome(frames(rs)) == ScanOutcome::Complete,
    decreases rs.len(),
{
    lemma_auto_spec_u32_to_from_le_bytes();
    if rs.len() > 0 {
        lemma_frames_first(rs);
        let b = frames(rs);
        let p = rs[0];
        assert(fits(p));
        lemma_fits_bounds(p);
        let l = encoded(p).len() as int;
        assert(b.subrange(0, 4) =~= len_bytes(encoded(p).len()));
        assert(spec_u32_from_le_bytes(b.subrange(0, 4)) == l);
        assert(b.subrange(4, 4 + l) =~= encoded(p));
        assert(decodable(b.subrange(4, 4 + l)));
        assert(b.subrange(4 + l, b.len() as int) =~= frames(rs.drop_first()));
        assert(wf_records(rs.drop_first()));
        lemma_frames_complete(rs.drop_first());
    }
}

/// A subrange of a byte image is untouched by appending to its end.
pub proof fn lemma_subrange_extend(a: Seq<u8>, b: Seq<u8>, i: int, j: int)
    requires
        0 <= i <= j <= a.len(),
    ensures
        (a + b).subrange(i, j) == a.subrange(i, j),
{
    assert((a + b).subrange(i, j) =~= a.subrange(i, j));
}

/// Read exactly one payload's bytes out of the log image.
pub fn read_range(log: &Vec<u8>, start: usize, len: usize) -> (r: Vec<u8>)
    requires
        start + len <= log@.len(),
    ensures
        r@ == log@.subrange(start as int, start as int + len as int),
{
    let n = log.len();
    assert(start + len <= n);
    slice_to_vec(slice_subrange(log.as_slice(), start, start + len))
}

/// Append one length-prefixed frame to the tail of the log image and
/// return where its payload landed. The payload vector is drained into
/// the log.
pub fn append_frame(log: &mut Vec<u8>, payload: &mut Vec<u8>) -> (r: Location)
    requires
        old(payload)@.len() <= MAX_PAYLOAD,
    ensures
        final(log)@ == old(log)@ + len_bytes(old(payload)@.len()) + old(payload)@,
        r.start == old(log)@.len() + 4,
        r.len == old(payload)@.len(),
{
    proof {
        lemma_auto_spec_u32_to_from_le_bytes();
    }
    let plen = payload.len();
    let mut lenb = u32_to_le_bytes(plen as u32);
    log.append(&mut lenb);
    log.append(payload);
    let start = log.len() - plen;
    assert(log@ =~= old(log)@ + len_bytes(old(payload)@.len()) + old(payload)@);
    Location { start, len: plen }
}

} // verus!
