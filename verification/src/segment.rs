//! The in-memory write buffer: a mapping from string keys to byte values with
//! a running byte-size counter, the unit of buffering and of on-disk
//! persistence.

use vstd::prelude::*;
use vstd::utf8::encode_utf8;
use crate::order::{
    bytes_lt, lemma_encode_utf8_injective, lemma_lex_lt_irreflexive, lemma_lex_lt_transitive,
    lemma_lex_lt_trichotomy, lex_lt,
};

verus! {

/// One key/value pair held by a segment.
pub struct SegmentEntry {
    pub key: String,
    pub value: Vec<u8>,
}

impl View for SegmentEntry {
    type V = (Seq<char>, Seq<u8>);

    open spec fn view(&self) -> (Seq<char>, Seq<u8>) {
        (self.key@, self.value@)
    }
}

/// The total byte length of the values of `s`, the quantity the segment's
/// size counter tracks.
pub open spec fn sum_len(s: Seq<(Seq<char>, Seq<u8>)>) -> int
    decreases s.len(),
{
    if s.len() == 0 {
        0
    } else {
        sum_len(s.drop_last()) + s.last().1.len()
    }
}

/// The mapping an entry sequence denotes; on duplicate keys the later entry
/// would win, though well-formed segments never hold duplicates.
pub open spec fn entries_map(s: Seq<(Seq<char>, Seq<u8>)>) -> Map<Seq<char>, Seq<u8>>
    decreases s.len(),
{
    if s.len() == 0 {
        Map::empty()
    } else {
        entries_map(s.drop_last()).insert(s.last().0, s.last().1)
    }
}

/// No two entries share a key.
pub open spec fn unique_keys(s: Seq<(Seq<char>, Seq<u8>)>) -> bool {
    forall|i: int, j: int| 0 <= i < j < s.len() ==> s[i].0 != s[j].0
}

/// The entries iterate in ascending key order (keys compared by their UTF-8
/// encodings), which makes a segment's serialization a function of the
/// mapping it holds.
pub open spec fn sorted_keys(s: Seq<(Seq<char>, Seq<u8>)>) -> bool {
    forall|i: int, j: int|
        0 <= i < j < s.len() ==> lex_lt(encode_utf8(s[i].0), encode_utf8(s[j].0))
}

/// Strictly ascending keys are in particular distinct.
pub proof fn lemma_sorted_implies_unique(s: Seq<(Seq<char>, Seq<u8>)>)
    requires
        sorted_keys(s),
    ensures
        unique_keys(s),
{
    assert forall|i: int, j: int| 0 <= i < j < s.len() implies s[i].0 != s[j].0 by {
        if s[i].0 == s[j].0 {
            assert(lex_lt(encode_utf8(s[i].0), encode_utf8(s[j].0)));
            lemma_lex_lt_irreflexive(encode_utf8(s[i].0));
        }
    }
}

pub proof fn lemma_sum_len_nonneg(s: Seq<(Seq<char>, Seq<u8>)>)
    ensures
        sum_len(s) >= 0,
    decreases s.len(),
{
    if s.len() > 0 {
        lemma_sum_len_nonneg(s.drop_last());
    }
}

/// Each single value's length is bounded by the total.
pub proof fn lemma_sum_len_entry_bound(s: Seq<(Seq<char>, Seq<u8>)>, i: int)
    requires
        0 <= i < s.len(),
    ensures
        s[i].1.len() <= sum_len(s),
    decreases s.len(),
{
    lemma_sum_len_nonneg(s.drop_last());
    if i < s.len() - 1 {
        lemma_sum_len_entry_bound(s.drop_last(), i);
    }
}

pub proof fn lemma_sum_len_push(s: Seq<(Seq<char>, Seq<u8>)>, e: (Seq<char>, Seq<u8>))
    ensures
        sum_len(s.push(e)) == sum_len(s) + e.1.len(),
{
    assert(s.push(e).drop_last() =~= s);
}

pub proof fn lemma_sum_len_update(s: Seq<(Seq<char>, Seq<u8>)>, i: int, e: (Seq<char>, Seq<u8>))
    requires
        0 <= i < s.len(),
    ensures
        sum_len(s.update(i, e)) == sum_len(s) - s[i].1.len() + e.1.len(),
    decreases s.len(),
{
    let t = s.update(i, e);
    if i == s.len() - 1 {
        assert(t.drop_last() =~= s.drop_last());
    } else {
        assert(t.drop_last() =~= s.drop_last().update(i, e));
        lemma_sum_len_update(s.drop_last(), i, e);
    }
}

pub proof fn lemma_entries_map_push(s: Seq<(Seq<char>, Seq<u8>)>, e: (Seq<char>, Seq<u8>))
    ensures
        entries_map(s.push(e)) == entries_map(s).insert(e.0, e.1),
{
    assert(s.push(e).drop_last() =~= s);
}

/// A key is in the denoted map exactly when some entry carries it.
pub proof fn lemma_entries_map_contains(s: Seq<(Seq<char>, Seq<u8>)>, k: Seq<char>)
    ensures
        entries_map(s).contains_key(k) <==> exists|i: int| 0 <= i < s.len() && s[i].0 == k,
    decreases s.len(),
{
    if s.len() > 0 {
        lemma_entries_map_contains(s.drop_last(), k);
        if s.last().0 == k {
            assert(s[s.len() - 1].0 == k);
        } else {
            if exists|i: int| 0 <= i < s.len() && s[i].0 == k {
                let i = choose|i: int| 0 <= i < s.len() && s[i].0 == k;
                assert(s.drop_last()[i] == s[i]);
            }
            if entries_map(s.drop_last()).contains_key(k) {
                let i = choose|i: int| 0 <= i < s.drop_last().len() && s.drop_last()[i].0 == k;
                assert(s[i].0 == k);
            }
        }
    }
}

/// With unique keys, the entry holding a key determines its value in the map.
pub proof fn lemma_entries_map_index(s: Seq<(Seq<char>, Seq<u8>)>, i: int)
    requires
        unique_keys(s),
        0 <= i < s.len(),
    ensures
        entries_map(s).contains_key(s[i].0),
        entries_map(s)[s[i].0] == s[i].1,
    decreases s.len(),
{
    if i < s.len() - 1 {
        assert(unique_keys(s.drop_last()));
        assert(s.drop_last()[i] == s[i]);
        lemma_entries_map_index(s.drop_last(), i);
        assert(s[i].0 != s.last().0);
    }
}

/// Replacing the value of the entry that holds a key updates the map at
/// exactly that key.
pub proof fn lemma_entries_map_update(s: Seq<(Seq<char>, Seq<u8>)>, i: int, v: Seq<u8>)
    requires
        unique_keys(s),
        0 <= i < s.len(),
    ensures
        entries_map(s.update(i, (s[i].0, v))) == entries_map(s).insert(s[i].0, v),
    decreases s.len(),
{
    let k = s[i].0;
    let t = s.update(i, (k, v));
    if i == s.len() - 1 {
        assert(t.drop_last() =~= s.drop_last());
        assert(entries_map(t) =~= entries_map(s).insert(k, v));
    } else {
        assert(unique_keys(s.drop_last()));
        assert(s.drop_last()[i] == s[i]);
        lemma_entries_map_update(s.drop_last(), i, v);
        assert(t.drop_last() =~= s.drop_last().update(i, (k, v)));
        assert(t.last() == s.last());
        assert(k != s.last().0);
        assert(entries_map(t) =~= entries_map(s).insert(k, v));
    }
}

/// Inserting an entry with a fresh key anywhere updates the map at exactly
/// that key.
pub proof fn lemma_entries_map_insert_at(
    s: Seq<(Seq<char>, Seq<u8>)>,
    p: int,
    e: (Seq<char>, Seq<u8>),
)
    requires
        0 <= p <= s.len(),
        forall|j: int| 0 <= j < s.len() ==> s[j].0 != e.0,
    ensures
        entries_map(s.insert(p, e)) == entries_map(s).insert(e.0, e.1),
    decreases s.len(),
{
    if p == s.len() {
        assert(s.insert(p, e) =~= s.push(e));
        lemma_entries_map_push(s, e);
    } else {
        let t = s.insert(p, e);
        s.insert_ensures(p, e);
        assert(t.last() == s.last());
        assert(t.drop_last() =~= s.drop_last().insert(p, e));
        assert(forall|j: int| 0 <= j < s.drop_last().len() ==> s.drop_last()[j] == s[j]);
        lemma_entries_map_insert_at(s.drop_last(), p, e);
        assert(e.0 != s.last().0);
        assert(entries_map(t) =~= entries_map(s).insert(e.0, e.1));
    }
}

/// Inserting an entry anywhere adds its value's length to the total.
pub proof fn lemma_sum_len_insert_at(s: Seq<(Seq<char>, Seq<u8>)>, p: int, e: (Seq<char>, Seq<u8>))
    requires
        0 <= p <= s.len(),
    ensures
        sum_len(s.insert(p, e)) == sum_len(s) + e.1.len(),
    decreases s.len(),
{
    if p == s.len() {
        assert(s.insert(p, e) =~= s.push(e));
        lemma_sum_len_push(s, e);
    } else {
        let t = s.insert(p, e);
        s.insert_ensures(p, e);
        assert(t.last() == s.last());
        assert(t.drop_last() =~= s.drop_last().insert(p, e));
        lemma_sum_len_insert_at(s.drop_last(), p, e);
    }
}

/// Dropping the last entry drops exactly its key from the map.
proof fn lemma_entries_map_remove_last(s: Seq<(Seq<char>, Seq<u8>)>)
    requires
        unique_keys(s),
        s.len() > 0,
    ensures
        entries_map(s.drop_last()) == entries_map(s).remove(s.last().0),
{
    lemma_entries_map_contains(s.drop_last(), s.last().0);
    assert forall|i: int| 0 <= i < s.drop_last().len() implies s.drop_last()[i].0 != s.last().0 by {
        assert(s.drop_last()[i] == s[i]);
    }
    assert(!entries_map(s.drop_last()).contains_key(s.last().0));
    assert(entries_map(s).remove(s.last().0) =~= entries_map(s.drop_last()));
}

/// Ascending entry sequences are canonical: two of them denoting the same
/// mapping are the same sequence. This is what makes a segment's on-disk
/// serialization a function of the mapping it holds.
pub proof fn lemma_sorted_entries_canonical(
    s1: Seq<(Seq<char>, Seq<u8>)>,
    s2: Seq<(Seq<char>, Seq<u8>)>,
)
    requires
        sorted_keys(s1),
        sorted_keys(s2),
        entries_map(s1) == entries_map(s2),
    ensures
        s1 == s2,
    decreases s1.len(),
{
    lemma_sorted_implies_unique(s1);
    lemma_sorted_implies_unique(s2);
    if s1.len() == 0 {
        if s2.len() > 0 {
            assert(entries_map(s2).contains_key(s2.last().0));
            lemma_entries_map_contains(s1, s2.last().0);
        }
        assert(s1 =~= s2);
    } else if s2.len() == 0 {
        assert(entries_map(s1).contains_key(s1.last().0));
        lemma_entries_map_contains(s2, s1.last().0);
        assert(s1 =~= s2);
    } else {
        let k1 = s1.last().0;
        let k2 = s2.last().0;
        lemma_entries_map_index(s1, s1.len() - 1);
        lemma_entries_map_index(s2, s2.len() - 1);
        lemma_entries_map_contains(s2, k1);
        let i = choose|i: int| 0 <= i < s2.len() && s2[i].0 == k1;
        lemma_entries_map_contains(s1, k2);
        let j = choose|j: int| 0 <= j < s1.len() && s1[j].0 == k2;
        if k1 != k2 {
            // Each sequence's last key is its greatest, so two different
            // greatest keys would each precede the other.
            if encode_utf8(k1) == encode_utf8(k2) {
                lemma_encode_utf8_injective(k1, k2);
            }
            assert(i < s2.len() - 1);
            assert(lex_lt(encode_utf8(s2[i].0), encode_utf8(k2)));
            assert(j < s1.len() - 1);
            assert(lex_lt(encode_utf8(s1[j].0), encode_utf8(k1)));
            lemma_lex_lt_transitive(encode_utf8(k1), encode_utf8(k2), encode_utf8(k1));
            lemma_lex_lt_irreflexive(encode_utf8(k1));
        }
        assert(s1.last() == s2.last());
        lemma_entries_map_remove_last(s1);
        lemma_entries_map_remove_last(s2);
        assert(unique_keys(s1.drop_last())) by {
            assert(forall|x: int|
                0 <= x < s1.drop_last().len() ==> s1.drop_last()[x] == s1[x]);
        }
        assert(sorted_keys(s1.drop_last())) by {
            assert(forall|x: int|
                0 <= x < s1.drop_last().len() ==> s1.drop_last()[x] == s1[x]);
        }
        assert(sorted_keys(s2.drop_last())) by {
            assert(forall|x: int|
                0 <= x < s2.drop_last().len() ==> s2.drop_last()[x] == s2[x]);
        }
        lemma_sorted_entries_canonical(s1.drop_last(), s2.drop_last());
        assert(s1.len() == s2.len());
        assert forall|x: int| 0 <= x < s1.len() implies s1[x] == s2[x] by {
            if x < s1.len() - 1 {
                assert(s1.drop_last()[x] == s2.drop_last()[x]);
            }
        }
        assert(s1 =~= s2);
    }
}

/// A write is visible immediately: after a write of `v` under `k`, and as
/// long as no flush swapped the live segment out in between, a read of `k`
/// finds exactly `v`. `write_segment` ensures the new mapping is the old one
/// with `(k, v)` inserted, and `read_segment` answers from that mapping.
pub proof fn lemma_write_then_read(m: Map<Seq<char>, Seq<u8>>, k: Seq<char>, v: Seq<u8>)
    ensures
        m.insert(k, v).contains_key(k),
        m.insert(k, v)[k] == v,
{
}

/// Overwriting: writing `v2` for a key previously holding `v1` makes a read
/// return `v2`, and the size counter moves by exactly `- v1.len() + v2.len()`
/// (the amount `write_segment` ensures it lands on).
pub proof fn lemma_overwrite_value_and_size(seg: Segment, k: Seq<char>, v1: Seq<u8>, v2: Seq<u8>)
    requires
        seg.wf(),
        seg@.contains_key(k),
        seg@[k] == v1,
    ensures
        seg@.insert(k, v2)[k] == v2,
        seg.spec_size_after(k, v2) == seg.segment_size - v1.len() + v2.len(),
{
}

/// Writes of fresh keys accumulate: each grows the size counter by exactly
/// its value's length, so values whose cumulative length reaches the flush
/// threshold drive the counter there, and `SegmentManager::put` signals the
/// flush on exactly the write that does so.
pub proof fn lemma_fresh_write_accumulates(seg: Segment, k: Seq<char>, v: Seq<u8>)
    requires
        seg.wf(),
        !seg@.contains_key(k),
    ensures
        seg.spec_size_after(k, v) == seg.segment_size + v.len(),
{
}

/// A key never written is absent, not an error: a fresh segment's mapping
/// holds nothing, and `read_segment` answers absent for whatever the mapping
/// does not hold.
pub proof fn lemma_fresh_segment_all_absent(k: Seq<char>)
    ensures
        !Map::<Seq<char>, Seq<u8>>::empty().contains_key(k),
{
}

/// An in-memory key/value buffer: unique string keys, opaque byte values,
/// and a running total of the value lengths.
pub struct Segment {
    pub entries: Vec<SegmentEntry>,
    pub segment_size: usize,
}

impl View for Segment {
    type V = Map<Seq<char>, Seq<u8>>;

    open spec fn view(&self) -> Map<Seq<char>, Seq<u8>> {
        entries_map(self.entry_views())
    }
}

impl Segment {
    /// The entries as a sequence of (key, value) views, in iteration order.
    pub open spec fn entry_views(&self) -> Seq<(Seq<char>, Seq<u8>)> {
        self.entries@.map_values(|e: SegmentEntry| e@)
    }

    /// Well-formedness: keys ascend (so no two entries share one), and the
    /// size counter equals the total byte length of the values.
    pub open spec fn wf(&self) -> bool {
        &&& sorted_keys(self.entry_views())
        &&& unique_keys(self.entry_views())
        &&& self.segment_size == sum_len(self.entry_views())
    }

    /// The size the counter will hold after a write of `v` to `k`: the old
    /// value's length leaves the total, the new one enters it.
    pub open spec fn spec_size_after(&self, k: Seq<char>, v: Seq<u8>) -> int {
        self.segment_size - (if self@.contains_key(k) {
            self@[k].len() as int
        } else {
            0
        }) + v.len()
    }

    /// A fresh, empty segment.
    pub fn new() -> (r: Segment)
        ensures
            r.wf(),
            r@ == Map::<Seq<char>, Seq<u8>>::empty(),
            r.segment_size == 0,
            r.entry_views() == Seq::<(Seq<char>, Seq<u8>)>::empty(),
    {
        let r = Segment { entries: Vec::new(), segment_size: 0 };
        proof {
            assert(r.entry_views() =~= Seq::<(Seq<char>, Seq<u8>)>::empty());
        }
        r
    }

    /// Current byte total of the values held (keys not counted).
    pub fn size(&self) -> (r: usize)
        ensures
            r == self.segment_size,
    {
        self.segment_size
    }

    /// The index of the entry holding `key`, if any.
    fn find(&self, key: &String) -> (r: Option<usize>)
        ensures
            match r {
                Some(i) => i < self.entries@.len() && self.entries@[i as int].key@ == key@,
                None => forall|i: int|
                    0 <= i < self.entries@.len() ==> self.entries@[i].key@ != key@,
            },
    {
        let n = self.entries.len();
        let mut i: usize = 0;
        while i < n
            invariant
                i <= n,
                n == self.entries@.len(),
                forall|j: int| 0 <= j < i ==> self.entries@[j].key@ != key@,
            decreases n - i,
        {
            if self.entries[i].key == *key {
                return Some(i);
            }
            i = i + 1;
        }
        None
    }

    /// Where `key` belongs in the ascending key order: the first index whose
    /// key does not precede it.
    fn insert_position(&self, key: &String) -> (r: usize)
        ensures
            r <= self.entries@.len(),
            forall|j: int|
                0 <= j < r ==> lex_lt(
                    encode_utf8((#[trigger] self.entry_views()[j]).0),
                    encode_utf8(key@),
                ),
            r < self.entries@.len() ==> !lex_lt(
                encode_utf8(self.entry_views()[r as int].0),
                encode_utf8(key@),
            ),
    {
        let n = self.entries.len();
        let mut p: usize = 0;
        while p < n
            invariant
                p <= n,
                n == self.entries@.len(),
                forall|j: int|
                    0 <= j < p ==> lex_lt(
                        encode_utf8((#[trigger] self.entry_views()[j]).0),
                        encode_utf8(key@),
                    ),
            decreases n - p,
        {
            if !bytes_lt(self.entries[p].key.as_str().as_bytes(), key.as_str().as_bytes()) {
                return p;
            }
            p = p + 1;
        }
        n
    }

    /// Inserts or replaces the value for `key` and adjusts the size counter:
    /// the new value's length is added and, if the key pre-existed, the old
    /// value's length is subtracted. The entry lands at its place in the key
    /// order. Pure in-memory work; never fails.
    pub fn write_segment(&mut self, key: String, data: Vec<u8>)
        requires
            old(self).wf(),
            old(self).spec_size_after(key@, data@) <= usize::MAX,
        ensures
            final(self).wf(),
            final(self)@ == old(self)@.insert(key@, data@),
            final(self).segment_size == old(self).spec_size_after(key@, data@),
    {
        let ghost old_views = self.entry_views();
        let ghost k = key@;
        let ghost uk = encode_utf8(key@);
        let ghost v = data@;
        let new_len = data.len();
        let n = self.entries.len();
        let p = self.insert_position(&key);
        if p < n && self.entries[p].key == key {
            proof {
                assert(old_views[p as int].0 == k);
                lemma_entries_map_contains(old_views, k);
                lemma_entries_map_index(old_views, p as int);
                lemma_sum_len_entry_bound(old_views, p as int);
                lemma_sum_len_nonneg(old_views);
                lemma_entries_map_update(old_views, p as int, v);
                lemma_sum_len_update(old_views, p as int, (k, v));
            }
            let old_len = self.entries[p].value.len();
            self.entries[p] = SegmentEntry { key, value: data };
            self.segment_size = self.segment_size - old_len + new_len;
            proof {
                assert(self.entry_views() =~= old_views.update(p as int, (k, v)));
                let new_views = self.entry_views();
                assert forall|x: int, y: int| 0 <= x < y < new_views.len() implies lex_lt(
                    encode_utf8((#[trigger] new_views[x]).0),
                    encode_utf8((#[trigger] new_views[y]).0),
                ) by {
                    assert(new_views[x].0 == old_views[x].0);
                    assert(new_views[y].0 == old_views[y].0);
                    assert(lex_lt(encode_utf8(old_views[x].0), encode_utf8(old_views[y].0)));
                }
            }
        } else {
            proof {
                // The key is nowhere in the segment: every entry before `p`
                // precedes it strictly, the entry at `p` (when there is one)
                // differs from it by the comparison just made, and every
                // entry past `p` follows that one.
                assert forall|j: int| 0 <= j < old_views.len() implies old_views[j].0 != k by {
                    if old_views[j].0 == k {
                        let uj = encode_utf8(old_views[j].0);
                        assert(uj == uk);
                        if j < p {
                            assert(lex_lt(uj, uk));
                            lemma_lex_lt_irreflexive(uk);
                        } else if j > p {
                            assert(lex_lt(encode_utf8(old_views[p as int].0), uj));
                        }
                    }
                }
                lemma_entries_map_contains(old_views, k);
                lemma_sum_len_nonneg(old_views);
                lemma_entries_map_insert_at(old_views, p as int, (k, v));
                lemma_sum_len_insert_at(old_views, p as int, (k, v));
            }
            self.entries.insert(p, SegmentEntry { key, value: data });
            self.segment_size = self.segment_size + new_len;
            proof {
                assert(self.entry_views() =~= old_views.insert(p as int, (k, v)));
                old_views.insert_ensures(p as int, (k, v));
                let new_views = self.entry_views();
                assert forall|x: int, y: int| 0 <= x < y < new_views.len() implies lex_lt(
                    encode_utf8((#[trigger] new_views[x]).0),
                    encode_utf8((#[trigger] new_views[y]).0),
                ) by {
                    if y < p {
                        assert(new_views[x] == old_views[x]);
                        assert(new_views[y] == old_views[y]);
                        assert(lex_lt(encode_utf8(old_views[x].0), encode_utf8(old_views[y].0)));
                    } else if x < p && y == p {
                        assert(new_views[x] == old_views[x]);
                        assert(lex_lt(encode_utf8(old_views[x].0), uk));
                    } else if x < p && y > p {
                        assert(new_views[x] == old_views[x]);
                        assert(new_views[y] == old_views[y - 1]);
                        assert(lex_lt(encode_utf8(old_views[x].0), encode_utf8(
                            old_views[y - 1].0,
                        )));
                    } else if x == p {
                        // y > p, so the old entry at p exists and follows the
                        // new key.
                        let up = encode_utf8(old_views[p as int].0);
                        assert(new_views[y] == old_views[y - 1]);
                        if up == uk {
                            lemma_encode_utf8_injective(old_views[p as int].0, k);
                        }
                        lemma_lex_lt_trichotomy(up, uk);
                        assert(lex_lt(uk, up));
                        if y - 1 > p {
                            assert(lex_lt(up, encode_utf8(old_views[y - 1].0)));
                            lemma_lex_lt_transitive(uk, up, encode_utf8(old_views[y - 1].0));
                        }
                    } else {
                        assert(new_views[x] == old_views[x - 1]);
                        assert(new_views[y] == old_views[y - 1]);
                        assert(lex_lt(encode_utf8(old_views[x - 1].0), encode_utf8(
                            old_views[y - 1].0,
                        )));
                    }
                }
                lemma_sorted_implies_unique(new_views);
            }
        }
    }

    /// A copy of the value stored for `key`, or absent when the segment does
    /// not hold the key. Never fails.
    pub fn read_segment(&self, key: String) -> (r: Option<Vec<u8>>)
        requires
            self.wf(),
        ensures
            match r {
                Some(v) => self@.contains_key(key@) && v@ == self@[key@],
                None => !self@.contains_key(key@),
            },
    {
        proof {
            lemma_entries_map_contains(self.entry_views(), key@);
        }
        match self.find(&key) {
            Some(i) => {
                proof {
                    lemma_entries_map_index(self.entry_views(), i as int);
                }
                Some(self.entries[i].value.clone())
            },
            None => None,
        }
    }

    /// Removes all entries, resets the size counter to zero, and returns a
    /// segment holding exactly what was removed: the swap at the heart of a
    /// flush.
    pub fn split_segment(&mut self) -> (r: Segment)
        requires
            old(self).wf(),
        ensures
            final(self).wf(),
            final(self)@ == Map::<Seq<char>, Seq<u8>>::empty(),
            final(self).segment_size == 0,
            r == *old(self),
    {
        let mut taken = Segment::new();
        core::mem::swap(self, &mut taken);
        taken
    }
}

} // verus!
