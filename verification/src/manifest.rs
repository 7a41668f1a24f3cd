//! The manifest: the persisted, ordered list of on-disk segment file names,
//! most recently created last. It is serialized as a single record and
//! rewritten in full on every change; reloading what was written yields the
//! same list, which is proved below.

use vstd::prelude::*;
use vstd::bytes::{lemma_auto_spec_u64_to_from_le_bytes, spec_u64_to_le_bytes};
use vstd::utf8::{decode_utf8, encode_utf8, encode_utf8_decode_utf8, encode_utf8_valid_utf8, valid_utf8};
use vstd::string::StrSliceExecFns;
use crate::codec::{
    bytes_to_string, put_frame, put_u64, read_frame, read_u64, spec_frame, spec_frame_str,
    spec_read_frame, spec_read_u64, lemma_read_frame_of_frame,
};

verus! {

/// The concatenated framed UTF-8 encodings of `names`.
pub open spec fn spec_encode_names(names: Seq<Seq<char>>) -> Seq<u8>
    decreases names.len(),
{
    if names.len() == 0 {
        Seq::empty()
    } else {
        spec_frame_str(names.first()) + spec_encode_names(names.drop_first())
    }
}

/// The manifest's serialized form: the number of names, then each name framed.
pub open spec fn spec_encode_manifest(names: Seq<Seq<char>>) -> Seq<u8> {
    spec_u64_to_le_bytes(names.len() as u64) + spec_encode_names(names)
}

/// What reading `n` framed names at `pos` yields.
pub open spec fn spec_decode_names(b: Seq<u8>, pos: int, n: nat) -> Option<(Seq<Seq<char>>, int)>
    decreases n,
{
    if n == 0 {
        Some((Seq::empty(), pos))
    } else {
        match spec_read_frame(b, pos) {
            Some((frame, end)) => if valid_utf8(frame) {
                match spec_decode_names(b, end, (n - 1) as nat) {
                    Some((rest, fin)) => Some((seq![decode_utf8(frame)] + rest, fin)),
                    None => None,
                }
            } else {
                None
            },
            None => None,
        }
    }
}

/// What reloading a manifest record yields: an empty or missing file is a
/// fresh engine's empty list; otherwise the whole input must be consumed.
pub open spec fn spec_decode_manifest(b: Seq<u8>) -> Option<Seq<Seq<char>>> {
    if b.len() == 0 {
        Some(Seq::empty())
    } else {
        match spec_read_u64(b, 0) {
            Some(n) => match spec_decode_names(b, 8, n as nat) {
                Some((names, end)) => if end == b.len() {
                    Some(names)
                } else {
                    None
                },
                None => None,
            },
            None => None,
        }
    }
}

pub open spec fn names_utf8_fit(names: Seq<Seq<char>>) -> bool {
    forall|i: int| 0 <= i < names.len() ==> (#[trigger] encode_utf8(names[i])).len() <= u64::MAX
}

/// Encoding one more name appends one more frame.
pub proof fn lemma_encode_names_take_step(names: Seq<Seq<char>>, i: int)
    requires
        0 <= i < names.len(),
    ensures
        spec_encode_names(names.take(i + 1)) == spec_encode_names(names.take(i)) + spec_frame_str(
            names[i],
        ),
    decreases i,
{
    if i == 0 {
        let t1 = names.take(1);
        assert(t1.first() == names[0]);
        assert(t1.drop_first() =~= Seq::<Seq<char>>::empty());
        assert(names.take(0) =~= Seq::<Seq<char>>::empty());
        assert(spec_encode_names(t1) == spec_frame_str(names[0]) + spec_encode_names(
            Seq::<Seq<char>>::empty(),
        ));
        assert(spec_encode_names(t1) =~= spec_encode_names(names.take(0)) + spec_frame_str(
            names[0],
        ));
    } else {
        let rest = names.drop_first();
        assert(names.take(i + 1).drop_first() =~= rest.take(i));
        assert(names.take(i).drop_first() =~= rest.take(i - 1));
        assert(names.take(i + 1).first() == names[0]);
        assert(names.take(i).first() == names[0]);
        lemma_encode_names_take_step(rest, i - 1);
        assert(rest[i - 1] == names[i]);
        assert(spec_frame_str(names[0]) + (spec_encode_names(rest.take(i - 1)) + spec_frame_str(
            names[i],
        )) =~= (spec_frame_str(names[0]) + spec_encode_names(rest.take(i - 1))) + spec_frame_str(
            names[i],
        ));
    }
}

/// Decoding starts over an embedded encoding of `names` yields `names`.
pub proof fn lemma_decode_names_of_encode(b: Seq<u8>, pos: int, names: Seq<Seq<char>>)
    requires
        0 <= pos,
        pos + spec_encode_names(names).len() <= b.len(),
        b.subrange(pos, pos + spec_encode_names(names).len()) == spec_encode_names(names),
        names_utf8_fit(names),
    ensures
        spec_decode_names(b, pos, names.len()) == Some(
            (names, pos + spec_encode_names(names).len()),
        ),
    decreases names.len(),
{
    if names.len() == 0 {
        assert(names =~= Seq::<Seq<char>>::empty());
    } else {
        let first = names.first();
        let fbytes = encode_utf8(first);
        let f = spec_frame(fbytes);
        let enc = spec_encode_names(names);
        let rest_enc = spec_encode_names(names.drop_first());
        assert(enc == f + rest_enc);
        assert(b.subrange(pos, pos + f.len()) =~= f) by {
            assert(forall|i: int|
                0 <= i < f.len() ==> #[trigger] b.subrange(pos, pos + f.len())[i] == b.subrange(
                    pos,
                    pos + enc.len(),
                )[i]);
        }
        lemma_read_frame_of_frame(b, pos, fbytes);
        encode_utf8_valid_utf8(first);
        encode_utf8_decode_utf8(first);
        let mid = pos + f.len();
        assert(b.subrange(mid, mid + rest_enc.len()) =~= rest_enc) by {
            assert(forall|i: int|
                0 <= i < rest_enc.len() ==> #[trigger] b.subrange(mid, mid + rest_enc.len())[i]
                    == b.subrange(pos, pos + enc.len())[f.len() + i]);
        }
        assert(names_utf8_fit(names.drop_first())) by {
            assert(forall|i: int|
                0 <= i < names.drop_first().len() ==> #[trigger] names.drop_first()[i] == names[i
                    + 1]);
        }
        lemma_decode_names_of_encode(b, mid, names.drop_first());
        assert(seq![first] + names.drop_first() =~= names);
    }
}

/// Reloading the encoding of a manifest yields exactly its list of names.
pub proof fn lemma_decode_manifest_of_encode(names: Seq<Seq<char>>)
    requires
        names.len() <= u64::MAX,
        names_utf8_fit(names),
    ensures
        spec_decode_manifest(spec_encode_manifest(names)) == Some(names),
{
    lemma_auto_spec_u64_to_from_le_bytes();
    let b = spec_encode_manifest(names);
    let count_bytes = spec_u64_to_le_bytes(names.len() as u64);
    assert(b.len() >= 8);
    assert(b.subrange(0, 8) =~= count_bytes);
    assert(spec_read_u64(b, 0) == Some(names.len() as u64));
    assert(b.subrange(8, 8 + spec_encode_names(names).len() as int) =~= spec_encode_names(names));
    lemma_decode_names_of_encode(b, 8, names);
}

/// Manifest durability: after a flush appends the new segment file's name and
/// rewrites the manifest record, reloading that record yields the previously
/// known names with the new one appended last, in creation order.
pub proof fn lemma_manifest_reload_after_flush(names: Seq<Seq<char>>, new_name: Seq<char>)
    requires
        names.push(new_name).len() <= u64::MAX,
        names_utf8_fit(names.push(new_name)),
    ensures
        spec_decode_manifest(spec_encode_manifest(names.push(new_name))) == Some(
            names.push(new_name),
        ),
        names.push(new_name)[names.len() as int] == new_name,
        forall|i: int| 0 <= i < names.len() ==> names.push(new_name)[i] == names[i],
{
    lemma_decode_manifest_of_encode(names.push(new_name));
}

/// The in-memory manifest: segment file names in creation order.
pub struct SegmentMapData {
    pub data: Vec<String>,
}

impl View for SegmentMapData {
    type V = Seq<Seq<char>>;

    open spec fn view(&self) -> Seq<Seq<char>> {
        self.data@.map_values(|s: String| s@)
    }
}

impl SegmentMapData {
    /// A fresh manifest listing no segment files.
    pub fn new() -> (r: SegmentMapData)
        ensures
            r@ == Seq::<Seq<char>>::empty(),
    {
        let r = SegmentMapData { data: Vec::new() };
        proof {
            assert(r@ =~= Seq::<Seq<char>>::empty());
        }
        r
    }

    /// The manifest's serialized form, to be written to the manifest file in
    /// full (the file is rewritten wholesale on every change).
    pub fn encode(&self) -> (r: Vec<u8>)
        ensures
            r@ == spec_encode_manifest(self@),
            self@.len() <= u64::MAX,
            names_utf8_fit(self@),
    {
        let mut out: Vec<u8> = Vec::new();
        put_u64(&mut out, self.data.len() as u64);
        let n = self.data.len();
        let mut i: usize = 0;
        proof {
            assert(self@.take(0) =~= Seq::<Seq<char>>::empty());
        }
        while i < n
            invariant
                i <= n,
                n == self.data@.len(),
                self@.len() == n,
                out@ == spec_u64_to_le_bytes(n as u64) + spec_encode_names(self@.take(i as int)),
                names_utf8_fit(self@.take(i as int)),
            decreases n - i,
        {
            let name_bytes = self.data[i].as_str().as_bytes_vec();
            let name_len = name_bytes.len();
            put_frame(&mut out, name_bytes.as_slice());
            proof {
                lemma_encode_names_take_step(self@, i as int);
                assert(encode_utf8(self@[i as int]).len() == name_len);
                assert forall|j: int| 0 <= j < self@.take(i as int + 1).len() implies (#[trigger]
                encode_utf8(self@.take(i as int + 1)[j])).len() <= u64::MAX by {
                    assert(self@.take(i as int + 1)[j] == self@[j]);
                    if j < i as int {
                        assert(self@.take(i as int)[j] == self@[j]);
                        assert(encode_utf8(self@.take(i as int)[j]).len() <= u64::MAX);
                    }
                }
            }
            i = i + 1;
        }
        proof {
            assert(self@.take(n as int) =~= self@);
        }
        out
    }

    /// Appends `file_name` to the list and returns the full serialized form
    /// of the updated manifest for the caller to persist.
    pub fn append_and_persist(&mut self, file_name: String) -> (r: Vec<u8>)
        ensures
            final(self)@ == old(self)@.push(file_name@),
            r@ == spec_encode_manifest(final(self)@),
            final(self)@.len() <= u64::MAX,
            names_utf8_fit(final(self)@),
    {
        let ghost before = self@;
        self.data.push(file_name);
        proof {
            assert(self@ =~= before.push(file_name@));
        }
        self.encode()
    }

    /// Rebuilds a manifest from the bytes of the manifest file; an empty file
    /// (a fresh engine) yields the empty list, and a corrupt record yields
    /// absent.
    pub fn load(bytes: &Vec<u8>) -> (r: Option<SegmentMapData>)
        ensures
            r matches Some(m) ==> spec_decode_manifest(bytes@) == Some(m@),
            r is None ==> spec_decode_manifest(bytes@) is None,
    {
        if bytes.len() == 0 {
            return Some(SegmentMapData::new());
        }
        let (count, start) = match read_u64(bytes, 0) {
            Some(p) => p,
            None => {
                return None;
            },
        };
        let mut names: Vec<String> = Vec::new();
        let mut pos: usize = start;
        let mut i: u64 = 0;
        proof {
            assert(names@.map_values(|s: String| s@) =~= Seq::<Seq<char>>::empty());
            match spec_decode_names(bytes@, 8, count as nat) {
                Some(p) => {
                    assert(Seq::<Seq<char>>::empty() + p.0 =~= p.0);
                },
                None => {},
            }
        }
        while i < count
            invariant
                i <= count,
                bytes@.len() > 0,
                spec_read_u64(bytes@, 0) == Some(count),
                spec_decode_names(bytes@, 8, count as nat) == opt_names_concat(
                    names@.map_values(|s: String| s@),
                    spec_decode_names(bytes@, pos as int, (count - i) as nat),
                ),
                names@.len() == i,
            decreases count - i,
        {
            let ghost prefix = names@.map_values(|s: String| s@);
            let (frame, end) = match read_frame(bytes, pos) {
                Some(p) => p,
                None => {
                    return None;
                },
            };
            let name = match bytes_to_string(frame) {
                Some(s) => s,
                None => {
                    return None;
                },
            };
            names.push(name);
            proof {
                let rest = spec_decode_names(bytes@, end as int, (count - i - 1) as nat);
                assert(names@.map_values(|s: String| s@) =~= prefix.push(name@));
                match rest {
                    Some(p) => {
                        assert(prefix + (seq![name@] + p.0) =~= prefix.push(name@) + p.0);
                    },
                    None => {},
                }
            }
            pos = end;
            i = i + 1;
        }
        proof {
            let prefix = names@.map_values(|s: String| s@);
            assert(prefix + Seq::<Seq<char>>::empty() =~= prefix);
        }
        if pos == bytes.len() {
            let r = SegmentMapData { data: names };
            Some(r)
        } else {
            None
        }
    }
}

/// Prepends already-decoded names to the result of decoding the remainder.
pub open spec fn opt_names_concat(prefix: Seq<Seq<char>>, r: Option<(Seq<Seq<char>>, int)>) -> Option<
    (Seq<Seq<char>>, int),
> {
    match r {
        Some((s, e)) => Some((prefix + s, e)),
        None => None,
    }
}

} // verus!
