//! From decoded point records to a file's point collection: the flat layout,
//! the hierarchical layout's independent entries, and the rule that falls back
//! from the second to the first.
use vstd::prelude::*;
use crate::geometry::{BoundingBox, LidarPoint, points_in, points_in_opt, filter_points_linear,
    lemma_points_in_len};
use crate::filter::filter_points_with_spatial_index;

verus! {

/// What reading one hierarchical entry gave.
pub enum EntryOutcome {
    /// The entry declares no points and is not read.
    Empty,
    /// The entry's point block could not be decoded.
    Failed,
    /// The entry's points, in block order.
    Decoded(Vec<LidarPoint>),
}

/// The points gathered from a file's hierarchical entries, with counts of the
/// entries read.
pub struct CopcReadResult {
    pub points: Vec<LidarPoint>,
    pub entries_processed: usize,
    pub entries_success: usize,
    pub entries_failed: usize,
}

/// The points of a flat read, with the number of records that failed.
pub struct FlatDecode {
    pub points: Vec<LidarPoint>,
    pub errors: usize,
}

/// Which layout a file's points were finally taken from.
#[derive(Clone, Copy, Debug, PartialEq, Eq, Structural)]
pub enum DecodeMode {
    Hierarchical,
    Flat,
}

/// The records of `s` that decoded, in order.
pub open spec fn successes(s: Seq<Option<LidarPoint>>) -> Seq<LidarPoint>
    decreases s.len(),
{
    if s.len() == 0 {
        Seq::empty()
    } else {
        match s.last() {
            Some(p) => successes(s.drop_last()).push(p),
            None => successes(s.drop_last()),
        }
    }
}

pub open spec fn failures(s: Seq<Option<LidarPoint>>) -> nat
    decreases s.len(),
{
    if s.len() == 0 {
        0
    } else {
        failures(s.drop_last()) + if s.last() is None { 1nat } else { 0nat }
    }
}

/// What a flat read of the records `s` keeps.
pub open spec fn flat_points(s: Seq<Option<LidarPoint>>, filter: Option<BoundingBox>) -> Seq<LidarPoint> {
    points_in_opt(successes(s), filter)
}

pub open spec fn entry_points(e: EntryOutcome) -> Seq<LidarPoint> {
    match e {
        EntryOutcome::Decoded(v) => v@,
        _ => Seq::empty(),
    }
}

/// The points kept from the entries `s`, entry after entry.
pub open spec fn copc_points(s: Seq<EntryOutcome>, filter: Option<BoundingBox>) -> Seq<LidarPoint>
    decreases s.len(),
{
    if s.len() == 0 {
        Seq::empty()
    } else {
        copc_points(s.drop_last(), filter) + points_in_opt(entry_points(s.last()), filter)
    }
}

pub open spec fn count_processed(s: Seq<EntryOutcome>) -> nat
    decreases s.len(),
{
    if s.len() == 0 {
        0
    } else {
        count_processed(s.drop_last()) + if s.last() is Empty { 0nat } else { 1nat }
    }
}

pub open spec fn count_failed(s: Seq<EntryOutcome>) -> nat
    decreases s.len(),
{
    if s.len() == 0 {
        0
    } else {
        count_failed(s.drop_last()) + if s.last() is Failed { 1nat } else { 0nat }
    }
}

pub open spec fn count_decoded(s: Seq<EntryOutcome>) -> nat
    decreases s.len(),
{
    if s.len() == 0 {
        0
    } else {
        count_decoded(s.drop_last()) + if s.last() is Decoded { 1nat } else { 0nat }
    }
}

/// More than half of the entries read failed.
pub open spec fn too_many_failures(processed: int, failed: int) -> bool {
    2 * failed > processed
}

/// The points a file yields: from its hierarchy when it has one and no more
/// than half of the entries read failed, from the flat records otherwise.
pub open spec fn file_points(
    entries: Option<Seq<EntryOutcome>>,
    records: Seq<Option<LidarPoint>>,
    filter: Option<BoundingBox>,
) -> Seq<LidarPoint> {
    match entries {
        Some(e) => if too_many_failures(count_processed(e) as int, count_failed(e) as int) {
            flat_points(records, filter)
        } else {
            copc_points(e, filter)
        },
        None => flat_points(records, filter),
    }
}

proof fn lemma_counts_bounded(s: Seq<EntryOutcome>)
    ensures
        count_processed(s) <= s.len(),
        count_failed(s) + count_decoded(s) == count_processed(s),
    decreases s.len(),
{
    if s.len() > 0 {
        lemma_counts_bounded(s.drop_last());
    }
}

/// Keeps the decoded records, in order, and when a box is given only those
/// inside it; counts the records that failed.
pub fn read_as_standard_laz(records: &[Option<LidarPoint>], filter_bbox: Option<BoundingBox>) -> (r:
    FlatDecode)
    ensures
        r.points@ == flat_points(records@, filter_bbox),
        r.errors == failures(records@),
{
    let mut all: Vec<LidarPoint> = Vec::new();
    let mut errors: usize = 0;
    let mut i: usize = 0;
    while i < records.len()
        invariant
            i <= records@.len(),
            all@ == successes(records@.take(i as int)),
            errors == failures(records@.take(i as int)),
            errors <= i,
        decreases records@.len() - i,
    {
        assert(records@.take(i + 1).drop_last() =~= records@.take(i as int));
        match records[i] {
            Some(p) => all.push(p),
            None => errors += 1,
        }
        i += 1;
    }
    assert(records@.take(records@.len() as int) =~= records@);
    let points = match filter_bbox {
        Some(b) => filter_points_with_spatial_index(all.as_slice(), b.min_x, b.min_y, b.max_x, b.max_y),
        None => all,
    };
    FlatDecode { points, errors }
}

/// Reads the hierarchical entries in order: empty entries are skipped, the
/// others counted as read, and the points of each decoded entry kept, when a
/// box is given only those inside it.
pub fn read_copc_entries(entries: &[EntryOutcome], filter_bbox: Option<BoundingBox>) -> (r: CopcReadResult)
    ensures
        r.points@ == copc_points(entries@, filter_bbox),
        r.entries_processed == count_processed(entries@),
        r.entries_failed == count_failed(entries@),
        r.entries_success == count_decoded(entries@),
{
    let mut points: Vec<LidarPoint> = Vec::new();
    let mut processed: usize = 0;
    let mut success: usize = 0;
    let mut failed: usize = 0;
    let mut i: usize = 0;
    while i < entries.len()
        invariant
            i <= entries@.len(),
            points@ == copc_points(entries@.take(i as int), filter_bbox),
            processed == count_processed(entries@.take(i as int)),
            failed == count_failed(entries@.take(i as int)),
            success == count_decoded(entries@.take(i as int)),
            processed <= i,
            failed + success == processed,
        decreases entries@.len() - i,
    {
        let ghost prefix = entries@.take(i + 1);
        assert(prefix.drop_last() =~= entries@.take(i as int));
        proof {
            lemma_counts_bounded(prefix);
        }
        match &entries[i] {
            EntryOutcome::Empty => {
                assert(points_in_opt(entry_points(prefix.last()), filter_bbox) =~= Seq::<LidarPoint>::empty());
                assert(points@ + Seq::<LidarPoint>::empty() =~= points@);
            },
            EntryOutcome::Failed => {
                processed += 1;
                failed += 1;
                assert(points_in_opt(entry_points(prefix.last()), filter_bbox) =~= Seq::<LidarPoint>::empty());
                assert(points@ + Seq::<LidarPoint>::empty() =~= points@);
            },
            EntryOutcome::Decoded(chunk) => {
                processed += 1;
                success += 1;
                let kept = match filter_bbox {
                    Some(b) => filter_points_linear(chunk.as_slice(), &b),
                    None => chunk.clone(),
                };
                let mut kept = kept;
                points.append(&mut kept);
            },
        }
        i += 1;
    }
    assert(entries@.take(entries@.len() as int) =~= entries@);
    CopcReadResult { points, entries_processed: processed, entries_success: success, entries_failed: failed }
}

/// Where a file's points come from once its hierarchy has been read: the flat
/// layout when more than half of the entries read failed.
pub fn choose_decode_mode(result: &CopcReadResult) -> (r: DecodeMode)
    ensures
        r == (if too_many_failures(result.entries_processed as int, result.entries_failed as int) {
            DecodeMode::Flat
        } else {
            DecodeMode::Hierarchical
        }),
{
    if result.entries_failed as u128 * 2 > result.entries_processed as u128 {
        DecodeMode::Flat
    } else {
        DecodeMode::Hierarchical
    }
}

/// The points of a file: `hierarchy` is what reading its entries gave, when it
/// has a readable hierarchy, and `records` what a flat read gives.
pub fn decode_file_points(
    hierarchy: Option<&[EntryOutcome]>,
    records: &[Option<LidarPoint>],
    filter_bbox: Option<BoundingBox>,
) -> (r: (Vec<LidarPoint>, DecodeMode))
    ensures
        r.0@ == file_points(
            match hierarchy {
                Some(e) => Some(e@),
                None => None,
            },
            records@,
            filter_bbox,
        ),
        r.1 == DecodeMode::Flat <==> match hierarchy {
            Some(e) => too_many_failures(count_processed(e@) as int, count_failed(e@) as int),
            None => true,
        },
{
    match hierarchy {
        Some(entries) => {
            let result = read_copc_entries(entries, filter_bbox);
            match choose_decode_mode(&result) {
                DecodeMode::Hierarchical => (result.points, DecodeMode::Hierarchical),
                DecodeMode::Flat => (read_as_standard_laz(records, filter_bbox).points, DecodeMode::Flat),
            }
        },
        None => (read_as_standard_laz(records, filter_bbox).points, DecodeMode::Flat),
    }
}

/// A flat read of `n` declared records returns at most `n` points, and
/// exactly `n` when every record decodes and no box is given.
pub proof fn lemma_flat_decode_count(records: Seq<Option<LidarPoint>>, n: nat, filter: Option<BoundingBox>)
    requires
        records.len() == n,
    ensures
        flat_points(records, filter).len() <= n,
        (forall|i: int| 0 <= i < n ==> #[trigger] records[i] is Some) ==> flat_points(records, None).len()
            == n,
    decreases records.len(),
{
    lemma_successes_len(records);
    match filter {
        Some(b) => lemma_points_in_len(successes(records), b),
        None => {},
    }
}

proof fn lemma_successes_len(s: Seq<Option<LidarPoint>>)
    ensures
        successes(s).len() + failures(s) == s.len(),
        failures(s) == 0 <==> forall|i: int| 0 <= i < s.len() ==> #[trigger] s[i] is Some,
    decreases s.len(),
{
    if s.len() > 0 {
        lemma_successes_len(s.drop_last());
        if failures(s) == 0 {
            assert forall|i: int| 0 <= i < s.len() implies #[trigger] s[i] is Some by {
                if i < s.len() - 1 {
                    assert(s.drop_last()[i] == s[i]);
                }
            }
        } else {
            if s.last() is Some {
                let j = choose|j: int| 0 <= j < s.drop_last().len() && !(#[trigger] s.drop_last()[j] is Some);
                assert(s[j] == s.drop_last()[j]);
            }
        }
    }
}

/// When more than half of the hierarchical entries read fail, a file yields
/// exactly what the flat read of the same file yields.
pub proof fn lemma_fallback_matches_flat(
    entries: Seq<EntryOutcome>,
    records: Seq<Option<LidarPoint>>,
    filter: Option<BoundingBox>,
)
    requires
        too_many_failures(count_processed(entries) as int, count_failed(entries) as int),
    ensures
        file_points(Some(entries), records, filter) == file_points(None, records, filter),
{
}

} // verus!
