//! The background merger's decision core. The real task loops forever, racing
//! a periodic timer against an explicit flush notification; either event
//! triggers exactly one flush round, and only the timer path then runs
//! compaction. The waiting, the files and the clock are outside work: the
//! caller hands in the event and a millisecond timestamp and carries the
//! returned bytes to disk.

use vstd::prelude::*;
use vstd::string::{StringExecFns, StrSliceExecFns};
use crate::manifest::{names_utf8_fit, spec_encode_manifest, SegmentMapData};
use crate::merge::{merge_segments, merged_map, total_size};
use crate::segment::Segment;
use crate::snapshot::{encode_segment, spec_encode_segment, entries_frames_fit};

verus! {

/// Compaction timer period, in milliseconds, with skip-missed-ticks
/// semantics.
pub const MERGE_INTERVAL_MS: u64 = 200;

/// What woke the merger for a round.
#[derive(Clone, Copy, Debug, PartialEq, Eq)]
pub enum MergerEvent {
    /// The periodic compaction timer fired.
    TimerTick,
    /// The engine signalled that the live segment crossed the size threshold.
    FlushNotice,
}

/// Compaction runs on the periodic timer path only, never on an explicit
/// flush notification.
pub fn compaction_follows(event: &MergerEvent) -> (r: bool)
    ensures
        r == (event is TimerTick),
{
    match event {
        MergerEvent::TimerTick => true,
        MergerEvent::FlushNotice => false,
    }
}

pub open spec fn spec_digit_char(d: int) -> char {
    if d == 0 {
        '0'
    } else if d == 1 {
        '1'
    } else if d == 2 {
        '2'
    } else if d == 3 {
        '3'
    } else if d == 4 {
        '4'
    } else if d == 5 {
        '5'
    } else if d == 6 {
        '6'
    } else if d == 7 {
        '7'
    } else if d == 8 {
        '8'
    } else {
        '9'
    }
}

/// The decimal digits of `n`, most significant first, no leading zeros
/// (except for `n == 0` itself).
pub open spec fn spec_dec_chars(n: nat) -> Seq<char>
    decreases n,
{
    if n < 10 {
        seq![spec_digit_char(n as int)]
    } else {
        spec_dec_chars(n / 10).push(spec_digit_char((n % 10) as int))
    }
}

/// A segment file's name: derived deterministically from the
/// milliseconds-since-epoch timestamp of its creation, so names are unique
/// and order meaningfully.
pub open spec fn spec_segment_file_name(timestamp_ms: u64) -> Seq<char> {
    "segment-"@ + spec_dec_chars(timestamp_ms as nat)
}

fn digit_str(d: u64) -> (r: &'static str)
    requires
        d < 10,
    ensures
        r@ == seq![spec_digit_char(d as int)],
{
    proof {
        reveal_strlit("0");
        reveal_strlit("1");
        reveal_strlit("2");
        reveal_strlit("3");
        reveal_strlit("4");
        reveal_strlit("5");
        reveal_strlit("6");
        reveal_strlit("7");
        reveal_strlit("8");
        reveal_strlit("9");
    }
    let r = if d == 0 {
        "0"
    } else if d == 1 {
        "1"
    } else if d == 2 {
        "2"
    } else if d == 3 {
        "3"
    } else if d == 4 {
        "4"
    } else if d == 5 {
        "5"
    } else if d == 6 {
        "6"
    } else if d == 7 {
        "7"
    } else if d == 8 {
        "8"
    } else {
        "9"
    };
    proof {
        assert(r@ =~= seq![spec_digit_char(d as int)]);
    }
    r
}

/// The digits of `ds`, last first, as characters.
spec fn rev_digit_chars(ds: Seq<u64>) -> Seq<char> {
    Seq::new(ds.len(), |i: int| spec_digit_char(ds[ds.len() - 1 - i] as int))
}

/// Renders `n` in decimal.
pub fn u64_to_dec_string(n: u64) -> (r: String)
    ensures
        r@ == spec_dec_chars(n as nat),
{
    let mut ds: Vec<u64> = Vec::new();
    ds.push(n % 10);
    let mut m = n / 10;
    proof {
        assert(rev_digit_chars(ds@) =~= seq![spec_digit_char((n % 10) as int)]);
        if m > 0 {
            assert(spec_dec_chars(n as nat) == spec_dec_chars((n as nat) / 10).push(
                spec_digit_char((n % 10) as int),
            ));
            assert(spec_dec_chars((m as nat)) + rev_digit_chars(ds@) =~= spec_dec_chars(
                (n as nat) / 10,
            ).push(spec_digit_char((n % 10) as int)));
        }
    }
    while m > 0
        invariant
            forall|i: int| 0 <= i < ds@.len() ==> ds@[i] < 10,
            ds@.len() >= 1,
            if m == 0 {
                spec_dec_chars(n as nat) == rev_digit_chars(ds@)
            } else {
                spec_dec_chars(n as nat) == spec_dec_chars(m as nat) + rev_digit_chars(ds@)
            },
        decreases m,
    {
        let ghost ds0 = ds@;
        let ghost m0 = m;
        ds.push(m % 10);
        m = m / 10;
        proof {
            assert(rev_digit_chars(ds@) =~= seq![spec_digit_char((m0 % 10) as int)]
                + rev_digit_chars(ds0));
            if m == 0 {
                assert(spec_dec_chars(m0 as nat) == seq![spec_digit_char(m0 as int)]);
                assert(spec_dec_chars(n as nat) =~= rev_digit_chars(ds@));
            } else {
                assert(spec_dec_chars(m0 as nat) == spec_dec_chars((m0 as nat) / 10).push(
                    spec_digit_char((m0 % 10) as int),
                ));
                assert(spec_dec_chars(m as nat) + rev_digit_chars(ds@) =~= spec_dec_chars(
                    m0 as nat,
                ) + rev_digit_chars(ds0));
            }
        }
    }
    let mut s = String::new();
    let k = ds.len();
    let mut i: usize = k;
    proof {
        assert(s@ =~= rev_digit_chars(ds@).take(0));
    }
    while i > 0
        invariant
            i <= k,
            k == ds@.len(),
            forall|j: int| 0 <= j < ds@.len() ==> ds@[j] < 10,
            spec_dec_chars(n as nat) == rev_digit_chars(ds@),
            s@ == rev_digit_chars(ds@).take(k - i),
        decreases i,
    {
        i = i - 1;
        let d = ds[i];
        s.append(digit_str(d));
        proof {
            assert(rev_digit_chars(ds@)[k - i - 1] == spec_digit_char(ds@[i as int] as int));
            assert(s@ =~= rev_digit_chars(ds@).take(k - i));
        }
    }
    proof {
        assert(rev_digit_chars(ds@).take(k as int) =~= rev_digit_chars(ds@));
    }
    s
}

/// The deterministic name of the segment file created at `timestamp_ms`.
pub fn segment_file_name(timestamp_ms: u64) -> (r: String)
    ensures
        r@ == spec_segment_file_name(timestamp_ms),
{
    let mut s = String::from_str("segment-");
    let digits = u64_to_dec_string(timestamp_ms);
    s.append(digits.as_str());
    s
}

/// Everything a flush round asks the caller to carry to disk: the new
/// segment file's name and contents, and the full rewritten manifest record.
pub struct FlushPlan {
    pub file_name: String,
    pub segment_bytes: Vec<u8>,
    pub manifest_bytes: Vec<u8>,
}

/// One flush round: atomically takes the live segment's contents, leaving a
/// fresh empty one; serializes the taken snapshot under a timestamp-derived
/// file name; and appends that name to the manifest, whose full rewritten
/// record is returned alongside.
pub fn write_new_segment_file(
    live: &mut Segment,
    manifest: &mut SegmentMapData,
    timestamp_ms: u64,
) -> (plan: FlushPlan)
    requires
        old(live).wf(),
    ensures
        final(live).wf(),
        final(live)@ == Map::<Seq<char>, Seq<u8>>::empty(),
        final(live).segment_size == 0,
        plan.file_name@ == spec_segment_file_name(timestamp_ms),
        final(manifest)@ == old(manifest)@.push(plan.file_name@),
        plan.segment_bytes@ == spec_encode_segment(
            old(live).segment_size as u64,
            old(live).entry_views(),
        ),
        plan.manifest_bytes@ == spec_encode_manifest(final(manifest)@),
        final(manifest)@.len() <= u64::MAX,
        names_utf8_fit(final(manifest)@),
        old(live).entry_views().len() <= u64::MAX,
        entries_frames_fit(old(live).entry_views()),
{
    let name = segment_file_name(timestamp_ms);
    let taken = live.split_segment();
    let segment_bytes = encode_segment(&taken);
    let manifest_bytes = manifest.append_and_persist(name.clone());
    FlushPlan { file_name: name, segment_bytes, manifest_bytes }
}

/// What one compaction round asks the caller to do, beyond the reads it
/// already did: write the merged segment under its new name and rewrite the
/// manifest.
pub struct MergePlan {
    pub file_name: String,
    pub merged: Segment,
    pub segment_bytes: Vec<u8>,
    pub manifest_bytes: Vec<u8>,
}

/// One compaction round over the already-reloaded segments named by the
/// manifest, oldest first: unions them (newest value wins), names the merged
/// segment from the timestamp, and registers that name in the manifest. The
/// merged-away names stay listed; the flat manifest only ever grows, and the
/// merged segment, listed last, wins any key conflict with them. Fails,
/// leaving the manifest untouched, exactly when the inputs' combined value
/// bytes overflow a segment's size counter.
pub fn compact_segments(
    manifest: &mut SegmentMapData,
    segments: &Vec<Segment>,
    timestamp_ms: u64,
) -> (r: Option<MergePlan>)
    requires
        forall|i: int| 0 <= i < segments@.len() ==> (#[trigger] segments@[i]).wf(),
    ensures
        r matches Some(plan) ==> {
            &&& plan.merged.wf()
            &&& plan.merged@ == merged_map(segments@.map_values(|s: Segment| s@))
            &&& plan.file_name@ == spec_segment_file_name(timestamp_ms)
            &&& final(manifest)@ == old(manifest)@.push(plan.file_name@)
            &&& plan.segment_bytes@ == spec_encode_segment(
                plan.merged.segment_size as u64,
                plan.merged.entry_views(),
            )
            &&& plan.manifest_bytes@ == spec_encode_manifest(final(manifest)@)
        },
        r is None ==> total_size(segments@) > usize::MAX && *final(manifest) == *old(manifest),
{
    let merged = match merge_segments(segments) {
        Some(m) => m,
        None => {
            return None;
        },
    };
    let name = segment_file_name(timestamp_ms);
    let segment_bytes = encode_segment(&merged);
    let manifest_bytes = manifest.append_and_persist(name.clone());
    Some(MergePlan { file_name: name, merged, segment_bytes, manifest_bytes })
}

} // verus!
