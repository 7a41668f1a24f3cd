//! Compaction: several on-disk segments are unioned into one, the key
//! conflicts resolved in favour of the most recently created (later-listed)
//! segment.

use vstd::prelude::*;
use crate::segment::{entries_map, sum_len, Segment};
use crate::snapshot::lemma_sum_len_concat;

verus! {

/// The mapping several segments denote together, in creation order: on a key
/// conflict the later (newer) segment wins.
pub open spec fn merged_map(ms: Seq<Map<Seq<char>, Seq<u8>>>) -> Map<Seq<char>, Seq<u8>>
    decreases ms.len(),
{
    if ms.len() == 0 {
        Map::empty()
    } else {
        merged_map(ms.drop_last()).union_prefer_right(ms.last())
    }
}

/// The combined value-byte total of several segments.
pub open spec fn total_size(ss: Seq<Segment>) -> int
    decreases ss.len(),
{
    if ss.len() == 0 {
        0
    } else {
        total_size(ss.drop_last()) + ss.last().segment_size
    }
}

/// A key is in the merged mapping exactly when some input segment holds it.
pub proof fn lemma_merged_map_contains(ms: Seq<Map<Seq<char>, Seq<u8>>>, k: Seq<char>)
    ensures
        merged_map(ms).contains_key(k) <==> exists|i: int|
            0 <= i < ms.len() && (#[trigger] ms[i]).contains_key(k),
    decreases ms.len(),
{
    if ms.len() > 0 {
        lemma_merged_map_contains(ms.drop_last(), k);
        if ms.last().contains_key(k) {
            assert(ms[ms.len() - 1].contains_key(k));
        } else {
            if exists|i: int| 0 <= i < ms.len() && (#[trigger] ms[i]).contains_key(k) {
                let i = choose|i: int| 0 <= i < ms.len() && (#[trigger] ms[i]).contains_key(k);
                assert(ms.drop_last()[i] == ms[i]);
            }
            if merged_map(ms.drop_last()).contains_key(k) {
                let i = choose|i: int|
                    0 <= i < ms.drop_last().len() && (#[trigger] ms.drop_last()[i]).contains_key(
                        k,
                    );
                assert(ms[i].contains_key(k));
            }
        }
    }
}

/// The newest segment holding a key determines its merged value.
pub proof fn lemma_merged_map_newest_wins(ms: Seq<Map<Seq<char>, Seq<u8>>>, i: int, k: Seq<char>)
    requires
        0 <= i < ms.len(),
        ms[i].contains_key(k),
        forall|j: int| i < j < ms.len() ==> !(#[trigger] ms[j]).contains_key(k),
    ensures
        merged_map(ms).contains_key(k),
        merged_map(ms)[k] == ms[i][k],
    decreases ms.len(),
{
    if i == ms.len() - 1 {
    } else {
        assert(!ms[ms.len() - 1].contains_key(k));
        assert(ms.drop_last()[i] == ms[i]);
        assert(forall|j: int|
            i < j < ms.drop_last().len() ==> !(#[trigger] ms.drop_last()[j]).contains_key(k));
        lemma_merged_map_newest_wins(ms.drop_last(), i, k);
    }
}

/// Merge correctness for two on-disk segments: wherever the newer one holds a
/// key it decides the merged value, and a key only the older one holds keeps
/// the older value.
pub proof fn lemma_merge_two_newer_wins(
    older: Map<Seq<char>, Seq<u8>>,
    newer: Map<Seq<char>, Seq<u8>>,
    k: Seq<char>,
)
    ensures
        newer.contains_key(k) ==> merged_map(seq![older, newer]).contains_key(k) && merged_map(
            seq![older, newer],
        )[k] == newer[k],
        !newer.contains_key(k) && older.contains_key(k) ==> merged_map(
            seq![older, newer],
        ).contains_key(k) && merged_map(seq![older, newer])[k] == older[k],
{
    let ms = seq![older, newer];
    if newer.contains_key(k) {
        lemma_merged_map_newest_wins(ms, 1, k);
    } else if older.contains_key(k) {
        lemma_merged_map_newest_wins(ms, 0, k);
    }
}

proof fn lemma_total_size_take_step(ss: Seq<Segment>, i: int)
    requires
        0 <= i < ss.len(),
    ensures
        total_size(ss.take(i + 1)) == total_size(ss.take(i)) + ss[i].segment_size,
{
    assert(ss.take(i + 1).drop_last() =~= ss.take(i));
}

proof fn lemma_total_size_nonneg(ss: Seq<Segment>)
    ensures
        total_size(ss) >= 0,
    decreases ss.len(),
{
    if ss.len() > 0 {
        lemma_total_size_nonneg(ss.drop_last());
    }
}

/// A prefix never outweighs the whole.
proof fn lemma_total_size_take_bound(ss: Seq<Segment>, i: int)
    requires
        0 <= i <= ss.len(),
    ensures
        total_size(ss.take(i)) <= total_size(ss),
    decreases ss.len() - i,
{
    if i == ss.len() {
        assert(ss.take(i) =~= ss);
    } else {
        lemma_total_size_take_step(ss, i);
        lemma_total_size_take_bound(ss, i + 1);
    }
}

/// Unions the given segments' entries into one fresh segment, later segments
/// winning key conflicts. Succeeds exactly when the inputs' combined value
/// bytes fit one segment's size counter.
pub fn merge_segments(segments: &Vec<Segment>) -> (r: Option<Segment>)
    requires
        forall|i: int| 0 <= i < segments@.len() ==> (#[trigger] segments@[i]).wf(),
    ensures
        r matches Some(m) ==> {
            &&& m.wf()
            &&& m@ == merged_map(segments@.map_values(|s: Segment| s@))
            &&& total_size(segments@) <= usize::MAX
        },
        r is None ==> total_size(segments@) > usize::MAX,
{
    let ghost maps = segments@.map_values(|s: Segment| s@);
    let n = segments.len();

    // First make sure one size counter can account for everything.
    let mut total: usize = 0;
    let mut i: usize = 0;
    proof {
        assert(segments@.take(0) =~= Seq::<Segment>::empty());
    }
    while i < n
        invariant
            i <= n,
            n == segments@.len(),
            total == total_size(segments@.take(i as int)),
        decreases n - i,
    {
        proof {
            lemma_total_size_take_step(segments@, i as int);
        }
        total = match total.checked_add(segments[i].size()) {
            Some(t) => t,
            None => {
                proof {
                    lemma_total_size_take_bound(segments@, i as int + 1);
                }
                return None;
            },
        };
        i = i + 1;
    }
    proof {
        assert(segments@.take(n as int) =~= segments@);
    }

    let mut acc = Segment::new();
    let mut i: usize = 0;
    proof {
        assert(maps.take(0) =~= Seq::<Map<Seq<char>, Seq<u8>>>::empty());
    }
    while i < n
        invariant
            i <= n,
            n == segments@.len(),
            forall|j: int| 0 <= j < segments@.len() ==> (#[trigger] segments@[j]).wf(),
            maps == segments@.map_values(|s: Segment| s@),
            total == total_size(segments@),
            total_size(segments@.take(i as int)) <= total,
            acc.wf(),
            acc@ == merged_map(maps.take(i as int)),
            acc.segment_size <= total_size(segments@.take(i as int)),
        decreases n - i,
    {
        let ghost before = acc@;
        let ghost views = segments@[i as int].entry_views();
        let m = segments[i].entries.len();
        let mut j: usize = 0;
        proof {
            assert(views.take(0) =~= Seq::<(Seq<char>, Seq<u8>)>::empty());
            assert(before.union_prefer_right(entries_map(views.take(0))) =~= before);
            lemma_total_size_take_step(segments@, i as int);
            lemma_total_size_take_bound(segments@, i as int + 1);
        }
        while j < m
            invariant
                j <= m,
                i < segments@.len(),
                m == segments@[i as int].entries@.len(),
                forall|k: int| 0 <= k < segments@.len() ==> (#[trigger] segments@[k]).wf(),
                views == segments@[i as int].entry_views(),
                views.len() == m,
                total_size(segments@.take(i as int)) + segments@[i as int].segment_size
                    <= total_size(segments@),
                total == total_size(segments@),
                acc.wf(),
                acc@ == before.union_prefer_right(entries_map(views.take(j as int))),
                acc.segment_size <= total_size(segments@.take(i as int)) + sum_len(
                    views.take(j as int),
                ),
            decreases m - j,
        {
            let ghost entry = views[j as int];
            proof {
                // The next write stays within the checked total.
                assert(views.take(j as int + 1).drop_last() =~= views.take(j as int));
                assert(views =~= views.take(j as int + 1) + views.skip(j as int + 1));
                lemma_sum_len_concat(views.take(j as int + 1), views.skip(j as int + 1));
                crate::segment::lemma_sum_len_nonneg(views.skip(j as int + 1));
                assert(sum_len(views) == segments@[i as int].segment_size);
                assert(acc.spec_size_after(entry.0, entry.1) <= usize::MAX);
            }
            let key = segments[i].entries[j].key.clone();
            let value = segments[i].entries[j].value.clone();
            acc.write_segment(key, value);
            proof {
                assert(entries_map(views.take(j as int + 1)) == entries_map(
                    views.take(j as int),
                ).insert(entry.0, entry.1));
                assert(acc@ =~= before.union_prefer_right(entries_map(views.take(j as int + 1))));
            }
            j = j + 1;
        }
        proof {
            assert(views.take(m as int) =~= views);
            assert(maps.take(i as int + 1).drop_last() =~= maps.take(i as int));
            assert(maps.take(i as int + 1).last() == segments@[i as int]@);
            lemma_total_size_take_step(segments@, i as int);
            lemma_total_size_take_bound(segments@, i as int + 1);
        }
        i = i + 1;
    }
    proof {
        assert(maps.take(n as int) =~= maps);
    }
    Some(acc)
}

} // verus!
