//! The legacy single-file persistence path, superseded by the segment model:
//! one ever-growing append-only log plus an in-memory index from key to the
//! byte offset where that key's record starts. A record begins with its own
//! little-endian 32-bit size; a read seeks to the offset and hands back up to
//! that many bytes of the record, including the size header itself.

use vstd::prelude::*;
use vstd::bytes::{spec_u32_from_le_bytes, u32_from_le_bytes};
use vstd::slice::{slice_subrange, slice_to_vec};
use crate::errors::EngineError;

verus! {

/// One index entry: where a key's record starts in the log.
pub struct RecordIndexEntry {
    pub key: String,
    pub offset: usize,
}

impl View for RecordIndexEntry {
    type V = (Seq<char>, int);

    open spec fn view(&self) -> (Seq<char>, int) {
        (self.key@, self.offset as int)
    }
}

/// The mapping an index sequence denotes, later entries winning.
pub open spec fn index_map(s: Seq<(Seq<char>, int)>) -> Map<Seq<char>, int>
    decreases s.len(),
{
    if s.len() == 0 {
        Map::empty()
    } else {
        index_map(s.drop_last()).insert(s.last().0, s.last().1)
    }
}

pub open spec fn unique_index_keys(s: Seq<(Seq<char>, int)>) -> bool {
    forall|i: int, j: int| 0 <= i < j < s.len() ==> s[i].0 != s[j].0
}

pub proof fn lemma_index_map_contains(s: Seq<(Seq<char>, int)>, k: Seq<char>)
    ensures
        index_map(s).contains_key(k) <==> exists|i: int| 0 <= i < s.len() && s[i].0 == k,
    decreases s.len(),
{
    if s.len() > 0 {
        lemma_index_map_contains(s.drop_last(), k);
        if s.last().0 == k {
            assert(s[s.len() - 1].0 == k);
        } else {
            if exists|i: int| 0 <= i < s.len() && s[i].0 == k {
                let i = choose|i: int| 0 <= i < s.len() && s[i].0 == k;
                assert(s.drop_last()[i] == s[i]);
            }
            if index_map(s.drop_last()).contains_key(k) {
                let i = choose|i: int| 0 <= i < s.drop_last().len() && s.drop_last()[i].0 == k;
                assert(s[i].0 == k);
            }
        }
    }
}

pub proof fn lemma_index_map_index(s: Seq<(Seq<char>, int)>, i: int)
    requires
        unique_index_keys(s),
        0 <= i < s.len(),
    ensures
        index_map(s).contains_key(s[i].0),
        index_map(s)[s[i].0] == s[i].1,
    decreases s.len(),
{
    if i < s.len() - 1 {
        assert(unique_index_keys(s.drop_last()));
        assert(s.drop_last()[i] == s[i]);
        lemma_index_map_index(s.drop_last(), i);
        assert(s[i].0 != s.last().0);
    }
}

pub proof fn lemma_index_map_update(s: Seq<(Seq<char>, int)>, i: int, v: int)
    requires
        unique_index_keys(s),
        0 <= i < s.len(),
    ensures
        index_map(s.update(i, (s[i].0, v))) == index_map(s).insert(s[i].0, v),
    decreases s.len(),
{
    let k = s[i].0;
    let t = s.update(i, (k, v));
    if i == s.len() - 1 {
        assert(t.drop_last() =~= s.drop_last());
        assert(index_map(t) =~= index_map(s).insert(k, v));
    } else {
        assert(unique_index_keys(s.drop_last()));
        assert(s.drop_last()[i] == s[i]);
        lemma_index_map_update(s.drop_last(), i, v);
        assert(t.drop_last() =~= s.drop_last().update(i, (k, v)));
        assert(t.last() == s.last());
        assert(k != s.last().0);
        assert(index_map(t) =~= index_map(s).insert(k, v));
    }
}

pub proof fn lemma_index_map_push(s: Seq<(Seq<char>, int)>, e: (Seq<char>, int))
    ensures
        index_map(s.push(e)) == index_map(s).insert(e.0, e.1),
{
    assert(s.push(e).drop_last() =~= s);
}

/// What a read at `off` yields from the log: the record's own size header
/// bounds the returned bytes (header included), clamped to what the log
/// actually holds past the offset.
pub open spec fn spec_record_slice(log: Seq<u8>, off: int) -> Seq<u8>
    recommends
        0 <= off,
        off + 4 <= log.len(),
{
    let size = spec_u32_from_le_bytes(log.subrange(off, off + 4)) as int;
    if off + size <= log.len() {
        log.subrange(off, off + size)
    } else {
        log.subrange(off, log.len() as int)
    }
}

/// The append-only record log with its key/offset index.
pub struct Record {
    pub log: Vec<u8>,
    pub key_map: Vec<RecordIndexEntry>,
}

impl View for Record {
    type V = Map<Seq<char>, int>;

    open spec fn view(&self) -> Map<Seq<char>, int> {
        index_map(self.index_views())
    }
}

impl Record {
    pub open spec fn index_views(&self) -> Seq<(Seq<char>, int)> {
        self.key_map@.map_values(|e: RecordIndexEntry| e@)
    }

    /// Well-formedness: unique keys, every indexed offset within the log.
    pub open spec fn wf(&self) -> bool {
        &&& unique_index_keys(self.index_views())
        &&& forall|i: int|
            0 <= i < self.index_views().len() ==> 0 <= #[trigger] self.index_views()[i].1
                <= self.log@.len()
    }

    /// A fresh record log holding nothing.
    pub fn new() -> (r: Record)
        ensures
            r.wf(),
            r@ == Map::<Seq<char>, int>::empty(),
            r.log@ == Seq::<u8>::empty(),
    {
        let r = Record { log: Vec::new(), key_map: Vec::new() };
        proof {
            assert(r.index_views() =~= Seq::<(Seq<char>, int)>::empty());
        }
        r
    }

    fn find(&self, key: &String) -> (r: Option<usize>)
        ensures
            match r {
                Some(i) => i < self.key_map@.len() && self.key_map@[i as int].key@ == key@,
                None => forall|i: int|
                    0 <= i < self.key_map@.len() ==> self.key_map@[i].key@ != key@,
            },
    {
        let n = self.key_map.len();
        let mut i: usize = 0;
        while i < n
            invariant
                i <= n,
                n == self.key_map@.len(),
                forall|j: int| 0 <= j < i ==> self.key_map@[j].key@ != key@,
            decreases n - i,
        {
            if self.key_map[i].key == *key {
                return Some(i);
            }
            i = i + 1;
        }
        None
    }

    /// Remembers that `key`'s record starts at the log's current end, then
    /// appends `data` there.
    pub fn write_record(&mut self, key: String, data: Vec<u8>)
        requires
            old(self).wf(),
            old(self).log@.len() + data@.len() <= usize::MAX,
        ensures
            final(self).wf(),
            final(self).log@ == old(self).log@ + data@,
            final(self)@ == old(self)@.insert(key@, old(self).log@.len() as int),
    {
        let ghost old_views = self.index_views();
        let ghost k = key@;
        let offset = self.log.len();
        match self.find(&key) {
            Some(i) => {
                proof {
                    assert(old_views[i as int].0 == k);
                    lemma_index_map_update(old_views, i as int, offset as int);
                }
                self.key_map[i] = RecordIndexEntry { key, offset };
                proof {
                    assert(self.index_views() =~= old_views.update(i as int, (k, offset as int)));
                }
            },
            None => {
                proof {
                    lemma_index_map_push(old_views, (k, offset as int));
                }
                self.key_map.push(RecordIndexEntry { key, offset });
                proof {
                    assert(self.index_views() =~= old_views.push((k, offset as int)));
                }
            },
        }
        let mut data = data;
        self.log.append(&mut data);
    }

    /// Looks `key` up and reads its record back: absent when the key was
    /// never written; an I/O failure when the log ends before the record's
    /// size header does; otherwise the record's bytes, header included, up to
    /// the size the header names.
    pub fn read_record(&self, key: String) -> (r: Result<Option<Vec<u8>>, EngineError>)
        requires
            self.wf(),
        ensures
            !self@.contains_key(key@) ==> r == Ok::<Option<Vec<u8>>, EngineError>(None),
            self@.contains_key(key@) && self@[key@] + 4 > self.log@.len() ==> r == Err::<
                Option<Vec<u8>>,
                EngineError,
            >(EngineError::Io),
            self@.contains_key(key@) && self@[key@] + 4 <= self.log@.len() ==> (r matches Ok(o)
                && o matches Some(v) && v@ == spec_record_slice(self.log@, self@[key@])),
    {
        proof {
            lemma_index_map_contains(self.index_views(), key@);
        }
        let i = match self.find(&key) {
            Some(i) => i,
            None => {
                return Ok(None);
            },
        };
        proof {
            lemma_index_map_index(self.index_views(), i as int);
        }
        let offset = self.key_map[i].offset;
        let n = self.log.len();
        if n - offset < 4 {
            return Err(EngineError::Io);
        }
        let size = u32_from_le_bytes(slice_subrange(self.log.as_slice(), offset, offset + 4));
        let end = if (size as usize) <= n - offset {
            offset + (size as usize)
        } else {
            n
        };
        let data = slice_to_vec(slice_subrange(self.log.as_slice(), offset, end));
        Ok(Some(data))
    }
}

} // verus!
