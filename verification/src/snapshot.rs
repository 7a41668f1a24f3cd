//! Serialized segment snapshots: the on-disk form of one segment at flush
//! time, immutable once written. The encoding frames each key (as UTF-8) and
//! each value; decoding re-checks what a well-formed segment guarantees, so a
//! reloaded snapshot is again a well-formed segment.

use vstd::prelude::*;
use vstd::bytes::{lemma_auto_spec_u64_to_from_le_bytes, spec_u64_to_le_bytes};
use vstd::utf8::{decode_utf8, encode_utf8, encode_utf8_decode_utf8, encode_utf8_valid_utf8, valid_utf8};
use vstd::string::StrSliceExecFns;
use crate::codec::{
    bytes_to_string, put_frame, put_u64, read_frame, read_u64, spec_frame, spec_frame_str,
    spec_read_frame, spec_read_u64, lemma_read_frame_of_frame,
};
use crate::order::{bytes_lt, lemma_lex_lt_transitive, lex_lt};
use crate::segment::{
    lemma_sorted_implies_unique, lemma_sum_len_nonneg, lemma_sum_len_push, sorted_keys, sum_len,
    Segment, SegmentEntry,
};

verus! {

/// One entry's serialized form: the framed UTF-8 key, then the framed value.
pub open spec fn spec_encode_entry(e: (Seq<char>, Seq<u8>)) -> Seq<u8> {
    spec_frame_str(e.0) + spec_frame(e.1)
}

/// The concatenated serialized entries.
pub open spec fn spec_encode_entries(es: Seq<(Seq<char>, Seq<u8>)>) -> Seq<u8>
    decreases es.len(),
{
    if es.len() == 0 {
        Seq::empty()
    } else {
        spec_encode_entry(es.first()) + spec_encode_entries(es.drop_first())
    }
}

/// A snapshot's serialized form: the segment's size counter, the entry
/// count, then each entry.
pub open spec fn spec_encode_segment(size: u64, es: Seq<(Seq<char>, Seq<u8>)>) -> Seq<u8> {
    spec_u64_to_le_bytes(size) + spec_u64_to_le_bytes(es.len() as u64) + spec_encode_entries(es)
}

/// What reading `n` serialized entries at `pos` yields.
pub open spec fn spec_decode_entries(b: Seq<u8>, pos: int, n: nat) -> Option<
    (Seq<(Seq<char>, Seq<u8>)>, int),
>
    decreases n,
{
    if n == 0 {
        Some((Seq::empty(), pos))
    } else {
        match spec_read_frame(b, pos) {
            Some((kf, mid)) => if valid_utf8(kf) {
                match spec_read_frame(b, mid) {
                    Some((vf, end)) => match spec_decode_entries(b, end, (n - 1) as nat) {
                        Some((rest, fin)) => Some((seq![(decode_utf8(kf), vf)] + rest, fin)),
                        None => None,
                    },
                    None => None,
                }
            } else {
                None
            },
            None => None,
        }
    }
}

/// What reloading a snapshot yields as an entry sequence: the whole input
/// must be consumed, and the stored size counter must account for exactly the
/// value bytes the entries hold.
pub open spec fn spec_decode_segment(b: Seq<u8>) -> Option<Seq<(Seq<char>, Seq<u8>)>> {
    match spec_read_u64(b, 0) {
        Some(size) => match spec_read_u64(b, 8) {
            Some(n) => match spec_decode_entries(b, 16, n as nat) {
                Some((es, end)) => if end == b.len() && size == sum_len(es) {
                    Some(es)
                } else {
                    None
                },
                None => None,
            },
            None => None,
        },
        None => None,
    }
}

/// Prepends already-decoded entries to the result of decoding the remainder.
pub open spec fn opt_entries_concat(
    prefix: Seq<(Seq<char>, Seq<u8>)>,
    r: Option<(Seq<(Seq<char>, Seq<u8>)>, int)>,
) -> Option<(Seq<(Seq<char>, Seq<u8>)>, int)> {
    match r {
        Some((s, e)) => Some((prefix + s, e)),
        None => None,
    }
}

/// Every frame an entry sequence produces fits its 64-bit length field.
pub open spec fn entries_frames_fit(es: Seq<(Seq<char>, Seq<u8>)>) -> bool {
    forall|i: int|
        0 <= i < es.len() ==> (#[trigger] encode_utf8(es[i].0)).len() <= u64::MAX && es[i].1.len()
            <= u64::MAX
}

/// Encoding one more entry appends one more pair of frames.
pub proof fn lemma_encode_entries_take_step(es: Seq<(Seq<char>, Seq<u8>)>, i: int)
    requires
        0 <= i < es.len(),
    ensures
        spec_encode_entries(es.take(i + 1)) == spec_encode_entries(es.take(i)) + spec_encode_entry(
            es[i],
        ),
    decreases i,
{
    if i == 0 {
        let t1 = es.take(1);
        assert(t1.first() == es[0]);
        assert(t1.drop_first() =~= Seq::<(Seq<char>, Seq<u8>)>::empty());
        assert(es.take(0) =~= Seq::<(Seq<char>, Seq<u8>)>::empty());
        assert(spec_encode_entries(t1) == spec_encode_entry(es[0]) + spec_encode_entries(
            Seq::<(Seq<char>, Seq<u8>)>::empty(),
        ));
        assert(spec_encode_entries(t1) =~= spec_encode_entries(es.take(0)) + spec_encode_entry(
            es[0],
        ));
    } else {
        let rest = es.drop_first();
        assert(es.take(i + 1).drop_first() =~= rest.take(i));
        assert(es.take(i).drop_first() =~= rest.take(i - 1));
        assert(es.take(i + 1).first() == es[0]);
        assert(es.take(i).first() == es[0]);
        lemma_encode_entries_take_step(rest, i - 1);
        assert(rest[i - 1] == es[i]);
        assert(spec_encode_entry(es[0]) + (spec_encode_entries(rest.take(i - 1))
            + spec_encode_entry(es[i])) =~= (spec_encode_entry(es[0]) + spec_encode_entries(
            rest.take(i - 1),
        )) + spec_encode_entry(es[i]));
    }
}

/// Decoding starts over an embedded encoding of `es` yields `es`.
pub proof fn lemma_decode_entries_of_encode(b: Seq<u8>, pos: int, es: Seq<(Seq<char>, Seq<u8>)>)
    requires
        0 <= pos,
        pos + spec_encode_entries(es).len() <= b.len(),
        b.subrange(pos, pos + spec_encode_entries(es).len()) == spec_encode_entries(es),
        entries_frames_fit(es),
    ensures
        spec_decode_entries(b, pos, es.len()) == Some(
            (es, pos + spec_encode_entries(es).len()),
        ),
    decreases es.len(),
{
    if es.len() == 0 {
        assert(es =~= Seq::<(Seq<char>, Seq<u8>)>::empty());
    } else {
        let e = es.first();
        let kbytes = encode_utf8(e.0);
        let kf = spec_frame(kbytes);
        let vf = spec_frame(e.1);
        let enc = spec_encode_entries(es);
        let rest_enc = spec_encode_entries(es.drop_first());
        assert(enc == (kf + vf) + rest_enc);
        assert(b.subrange(pos, pos + kf.len()) =~= kf) by {
            assert(forall|i: int|
                0 <= i < kf.len() ==> #[trigger] b.subrange(pos, pos + kf.len())[i] == b.subrange(
                    pos,
                    pos + enc.len(),
                )[i]);
        }
        lemma_read_frame_of_frame(b, pos, kbytes);
        encode_utf8_valid_utf8(e.0);
        encode_utf8_decode_utf8(e.0);
        let mid = pos + kf.len();
        assert(b.subrange(mid, mid + vf.len()) =~= vf) by {
            assert(forall|i: int|
                0 <= i < vf.len() ==> #[trigger] b.subrange(mid, mid + vf.len())[i] == b.subrange(
                    pos,
                    pos + enc.len(),
                )[kf.len() + i]);
        }
        lemma_read_frame_of_frame(b, mid, e.1);
        let end = mid + vf.len();
        assert(b.subrange(end, end + rest_enc.len()) =~= rest_enc) by {
            assert(forall|i: int|
                0 <= i < rest_enc.len() ==> #[trigger] b.subrange(end, end + rest_enc.len())[i]
                    == b.subrange(pos, pos + enc.len())[kf.len() + vf.len() + i]);
        }
        assert(entries_frames_fit(es.drop_first())) by {
            assert(forall|i: int|
                0 <= i < es.drop_first().len() ==> #[trigger] es.drop_first()[i] == es[i + 1]);
        }
        lemma_decode_entries_of_encode(b, end, es.drop_first());
        assert(seq![(e.0, e.1)] + es.drop_first() =~= es);
    }
}

/// Reloading the encoding of an entry sequence under its true size counter
/// yields exactly that sequence.
pub proof fn lemma_decode_segment_of_encode(size: u64, es: Seq<(Seq<char>, Seq<u8>)>)
    requires
        es.len() <= u64::MAX,
        entries_frames_fit(es),
        size == sum_len(es),
    ensures
        spec_decode_segment(spec_encode_segment(size, es)) == Some(es),
{
    lemma_auto_spec_u64_to_from_le_bytes();
    let b = spec_encode_segment(size, es);
    assert(b.subrange(0, 8) =~= spec_u64_to_le_bytes(size));
    assert(spec_read_u64(b, 0) == Some(size));
    assert(b.subrange(8, 16) =~= spec_u64_to_le_bytes(es.len() as u64));
    assert(spec_read_u64(b, 8) == Some(es.len() as u64));
    assert(b.subrange(16, 16 + spec_encode_entries(es).len() as int) =~= spec_encode_entries(es));
    lemma_decode_entries_of_encode(b, 16, es);
}

/// Serialization is deterministic: two well-formed segments holding the same
/// mapping serialize to identical snapshot bytes.
pub proof fn lemma_snapshot_deterministic(a: Segment, b: Segment)
    requires
        a.wf(),
        b.wf(),
        a@ == b@,
    ensures
        spec_encode_segment(a.segment_size as u64, a.entry_views()) == spec_encode_segment(
            b.segment_size as u64,
            b.entry_views(),
        ),
{
    crate::segment::lemma_sorted_entries_canonical(a.entry_views(), b.entry_views());
}

/// Serializes a segment, its size counter included, for its on-disk snapshot
/// file.
pub fn encode_segment(seg: &Segment) -> (r: Vec<u8>)
    ensures
        r@ == spec_encode_segment(seg.segment_size as u64, seg.entry_views()),
        seg.entry_views().len() <= u64::MAX,
        entries_frames_fit(seg.entry_views()),
{
    let mut out: Vec<u8> = Vec::new();
    let n = seg.entries.len();
    put_u64(&mut out, seg.size() as u64);
    put_u64(&mut out, n as u64);
    let ghost header = spec_u64_to_le_bytes(seg.segment_size as u64) + spec_u64_to_le_bytes(
        n as u64,
    );
    let mut i: usize = 0;
    proof {
        assert(seg.entry_views().take(0) =~= Seq::<(Seq<char>, Seq<u8>)>::empty());
        assert(out@ =~= header + spec_encode_entries(seg.entry_views().take(0)));
    }
    while i < n
        invariant
            i <= n,
            n == seg.entries@.len(),
            seg.entry_views().len() == n,
            header == spec_u64_to_le_bytes(seg.segment_size as u64) + spec_u64_to_le_bytes(
                n as u64,
            ),
            out@ == header + spec_encode_entries(seg.entry_views().take(i as int)),
            entries_frames_fit(seg.entry_views().take(i as int)),
        decreases n - i,
    {
        let ghost views = seg.entry_views();
        let ghost before = out@;
        let key_bytes = seg.entries[i].key.as_str().as_bytes_vec();
        let key_len = key_bytes.len();
        let value_len = seg.entries[i].value.len();
        put_frame(&mut out, key_bytes.as_slice());
        put_frame(&mut out, seg.entries[i].value.as_slice());
        proof {
            assert(encode_utf8(views[i as int].0).len() == key_len);
            assert(views[i as int].1.len() == value_len);
            lemma_encode_entries_take_step(views, i as int);
            assert(views[i as int] == (seg.entries@[i as int].key@, seg.entries@[i as int].value@));
            assert((before + spec_frame_str(views[i as int].0)) + spec_frame(views[i as int].1)
                =~= before + spec_encode_entry(views[i as int]));
            assert(encode_utf8(views[i as int].0).len() == key_bytes@.len());
            assert forall|j: int| 0 <= j < views.take(i as int + 1).len() implies (#[trigger]
            encode_utf8(views.take(i as int + 1)[j].0)).len() <= u64::MAX && views.take(
                i as int + 1,
            )[j].1.len() <= u64::MAX by {
                assert(views.take(i as int + 1)[j] == views[j]);
                if j < i as int {
                    assert(views.take(i as int)[j] == views[j]);
                    assert(encode_utf8(views.take(i as int)[j].0).len() <= u64::MAX);
                } else {
                    assert(views[j] == (seg.entries@[j].key@, seg.entries@[j].value@));
                }
            }
        }
        i = i + 1;
    }
    proof {
        assert(seg.entry_views().take(n as int) =~= seg.entry_views());
        assert(out@ =~= spec_encode_segment(seg.segment_size as u64, seg.entry_views()));
    }
    out
}

/// Rebuilds a segment from the bytes of a snapshot file. Yields absent when
/// the record is corrupt: truncated, holding trailing bytes, a key that is
/// not UTF-8 or out of order (the engine writes keys strictly ascending), or
/// values whose total length no segment can account for.
pub fn decode_segment(b: &Vec<u8>) -> (r: Option<Segment>)
    ensures
        r matches Some(seg) ==> {
            &&& seg.wf()
            &&& spec_decode_segment(b@) == Some(seg.entry_views())
        },
        r is None ==> match spec_decode_segment(b@) {
            Some(es) => !sorted_keys(es) || sum_len(es) > usize::MAX,
            None => true,
        },
{
    let (stored_size, _) = match read_u64(b, 0) {
        Some(p) => p,
        None => {
            return None;
        },
    };
    let (count, start) = match read_u64(b, 8) {
        Some(p) => p,
        None => {
            return None;
        },
    };
    let mut entries: Vec<SegmentEntry> = Vec::new();
    let mut size: usize = 0;
    let mut pos: usize = start;
    let mut i: u64 = 0;
    proof {
        assert(entries@.map_values(|e: SegmentEntry| e@) =~= Seq::<(Seq<char>, Seq<u8>)>::empty());
        match spec_decode_entries(b@, 16, count as nat) {
            Some(p) => {
                assert(Seq::<(Seq<char>, Seq<u8>)>::empty() + p.0 =~= p.0);
            },
            None => {},
        }
    }
    while i < count
        invariant
            i <= count,
            spec_read_u64(b@, 0) == Some(stored_size),
            spec_read_u64(b@, 8) == Some(count),
            spec_decode_entries(b@, 16, count as nat) == opt_entries_concat(
                entries@.map_values(|e: SegmentEntry| e@),
                spec_decode_entries(b@, pos as int, (count - i) as nat),
            ),
            entries@.len() == i,
            sorted_keys(entries@.map_values(|e: SegmentEntry| e@)),
            size == sum_len(entries@.map_values(|e: SegmentEntry| e@)),
        decreases count - i,
    {
        let ghost prefix = entries@.map_values(|e: SegmentEntry| e@);
        let (key_frame, mid) = match read_frame(b, pos) {
            Some(p) => p,
            None => {
                return None;
            },
        };
        let key = match bytes_to_string(key_frame) {
            Some(s) => s,
            None => {
                return None;
            },
        };
        let (value, end) = match read_frame(b, mid) {
            Some(p) => p,
            None => {
                return None;
            },
        };
        let ghost entry_view = (key@, value@);
        let ghost rest = spec_decode_entries(b@, end as int, (count - i - 1) as nat);
        proof {
            match rest {
                Some(p) => {
                    assert(prefix + (seq![entry_view] + p.0) =~= prefix.push(entry_view) + p.0);
                },
                None => {},
            }
        }
        if entries.len() > 0 {
            let last = entries.len() - 1;
            if !bytes_lt(entries[last].key.as_str().as_bytes(), key.as_str().as_bytes()) {
                proof {
                    assert(prefix[last as int].0 == entries@[last as int].key@);
                    lemma_none_or_unsorted(b@, prefix, entry_view, rest, count as nat);
                }
                return None;
            }
        }
        let new_size = match size.checked_add(value.len()) {
            Some(s) => s,
            None => {
                proof {
                    lemma_none_or_oversize(b@, prefix, entry_view, rest, count as nat, size as int);
                }
                return None;
            },
        };
        entries.push(SegmentEntry { key, value });
        size = new_size;
        proof {
            let pushed = prefix.push(entry_view);
            assert(entries@.map_values(|e: SegmentEntry| e@) =~= pushed);
            lemma_sum_len_push(prefix, entry_view);
            assert forall|x: int, y: int| 0 <= x < y < pushed.len() implies lex_lt(
                encode_utf8((#[trigger] pushed[x]).0),
                encode_utf8((#[trigger] pushed[y]).0),
            ) by {
                if y < prefix.len() {
                    assert(pushed[x] == prefix[x]);
                    assert(pushed[y] == prefix[y]);
                    assert(lex_lt(encode_utf8(prefix[x].0), encode_utf8(prefix[y].0)));
                } else {
                    assert(pushed[x] == prefix[x]);
                    let last = prefix.len() - 1;
                    assert(lex_lt(encode_utf8(prefix[last].0), encode_utf8(entry_view.0)));
                    if x < last {
                        assert(lex_lt(encode_utf8(prefix[x].0), encode_utf8(prefix[last].0)));
                        lemma_lex_lt_transitive(
                            encode_utf8(prefix[x].0),
                            encode_utf8(prefix[last].0),
                            encode_utf8(entry_view.0),
                        );
                    }
                }
            }
        }
        pos = end;
        i = i + 1;
    }
    proof {
        let prefix = entries@.map_values(|e: SegmentEntry| e@);
        assert(prefix + Seq::<(Seq<char>, Seq<u8>)>::empty() =~= prefix);
        lemma_sorted_implies_unique(prefix);
    }
    if pos == b.len() && stored_size == size as u64 {
        let seg = Segment { entries, segment_size: size };
        Some(seg)
    } else {
        None
    }
}

/// When a key does not strictly follow the one before it, whatever the whole
/// record decodes to cannot be in ascending key order.
proof fn lemma_none_or_unsorted(
    b: Seq<u8>,
    prefix: Seq<(Seq<char>, Seq<u8>)>,
    entry: (Seq<char>, Seq<u8>),
    rest: Option<(Seq<(Seq<char>, Seq<u8>)>, int)>,
    count: nat,
)
    requires
        spec_decode_entries(b, 16, count) == opt_entries_concat(
            prefix,
            opt_entries_concat(seq![entry], rest),
        ),
        prefix.len() > 0,
        !lex_lt(encode_utf8(prefix.last().0), encode_utf8(entry.0)),
    ensures
        match spec_decode_entries(b, 16, count) {
            Some(p) => !sorted_keys(p.0),
            None => true,
        },
{
    match rest {
        Some(p) => {
            let es = prefix + (seq![entry] + p.0);
            let last = prefix.len() - 1;
            assert(es[last] == prefix[last]);
            assert(es[prefix.len() as int] == entry);
            assert(!sorted_keys(es));
        },
        None => {},
    }
}

/// When the running size total cannot grow further, whatever the whole record
/// decodes to has more value bytes than any segment's counter can hold.
proof fn lemma_none_or_oversize(
    b: Seq<u8>,
    prefix: Seq<(Seq<char>, Seq<u8>)>,
    entry: (Seq<char>, Seq<u8>),
    rest: Option<(Seq<(Seq<char>, Seq<u8>)>, int)>,
    count: nat,
    size: int,
)
    requires
        spec_decode_entries(b, 16, count) == opt_entries_concat(
            prefix,
            opt_entries_concat(seq![entry], rest),
        ),
        size == sum_len(prefix),
        size + entry.1.len() > usize::MAX,
    ensures
        match spec_decode_entries(b, 16, count) {
            Some(p) => sum_len(p.0) > usize::MAX,
            None => true,
        },
{
    match rest {
        Some(p) => {
            let es = prefix + (seq![entry] + p.0);
            assert(es =~= (prefix.push(entry)) + p.0);
            lemma_sum_len_push(prefix, entry);
            lemma_sum_len_concat(prefix.push(entry), p.0);
            lemma_sum_len_nonneg(p.0);
        },
        None => {},
    }
}

/// The size counter of a concatenation is the sum of the parts'.
pub proof fn lemma_sum_len_concat(a: Seq<(Seq<char>, Seq<u8>)>, c: Seq<(Seq<char>, Seq<u8>)>)
    ensures
        sum_len(a + c) == sum_len(a) + sum_len(c),
    decreases c.len(),
{
    if c.len() == 0 {
        assert(a + c =~= a);
    } else {
        assert((a + c).drop_last() =~= a + c.drop_last());
        assert((a + c).last() == c.last());
        lemma_sum_len_concat(a, c.drop_last());
    }
}

} // verus!
