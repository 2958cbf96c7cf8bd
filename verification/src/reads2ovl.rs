//! Stores of overlaps: for each read, its length and the overlaps reported
//! against it.
use crate::error::{Error, ErrorView};
use crate::interval::{copy_intervals, Interval};
use vstd::hash_map::StringHashMap;
use vstd::prelude::*;

verus! {

/// What a store holds of one read.
pub struct ReadInfo {
    /// The length of the read, once it has been given.
    pub length: Option<u32>,
    /// The overlaps recorded for the read, in the order in which they came.
    pub overlaps: Seq<Interval>,
}

/// The length recorded for read `id`, if the store has one.
pub open spec fn length_of(reads: Map<Seq<char>, ReadInfo>, id: Seq<char>) -> Option<u32> {
    if reads.contains_key(id) {
        reads[id].length
    } else {
        None
    }
}

/// The overlaps recorded for read `id`; none for a read never seen.
pub open spec fn overlaps_of(reads: Map<Seq<char>, ReadInfo>, id: Seq<char>) -> Seq<Interval> {
    if reads.contains_key(id) {
        reads[id].overlaps
    } else {
        Seq::empty()
    }
}

/// The store after the length of read `id` is set.
pub open spec fn with_length(reads: Map<Seq<char>, ReadInfo>, id: Seq<char>, length: u32) -> Map<
    Seq<char>,
    ReadInfo,
> {
    reads.insert(id, ReadInfo { length: Some(length), overlaps: overlaps_of(reads, id) })
}

/// The store after one more overlap is recorded for read `id`.
pub open spec fn with_overlap(reads: Map<Seq<char>, ReadInfo>, id: Seq<char>, ovl: Interval) -> Map<
    Seq<char>,
    ReadInfo,
> {
    reads.insert(
        id,
        ReadInfo { length: length_of(reads, id), overlaps: overlaps_of(reads, id).push(ovl) },
    )
}

/// `ids` names every read of `reads`, each once.
pub open spec fn lists_reads(ids: Seq<String>, reads: Map<Seq<char>, ReadInfo>) -> bool {
    &&& forall|i: int| 0 <= i < ids.len() ==> reads.contains_key(#[trigger] ids[i]@)
    &&& forall|i: int, j: int|
        0 <= i < j < ids.len() ==> (#[trigger] ids[i])@ != (#[trigger] ids[j])@
    &&& forall|k: Seq<char>|
        reads.contains_key(k) ==> exists|i: int| 0 <= i < ids.len() && (#[trigger] ids[i])@ == k
}

/// A place that accumulates lengths and overlaps, and answers what it holds
/// for each read.
pub trait Reads2Ovl {
    /// What the store holds, by read identifier.
    spec fn reads(&self) -> Map<Seq<char>, ReadInfo>;

    /// The size of the buffers with which the files behind this store are read.
    spec fn spec_read_buffer_size(&self) -> usize;

    /// Records the length of read `id`, in place of any length recorded before.
    fn add_length(&mut self, id: String, length: u32)
        ensures
            final(self).reads() == with_length(old(self).reads(), id@, length),
            final(self).spec_read_buffer_size() == old(self).spec_read_buffer_size(),
    ;

    /// Records one more overlap for read `id`, whether or not its length is
    /// known. An overlap that starts beyond its end is refused, and the store
    /// stays as it was.
    fn add_overlap(&mut self, id: String, ovl: Interval) -> (r: Result<(), Error>)
        ensures
            final(self).spec_read_buffer_size() == old(self).spec_read_buffer_size(),
            ovl.0 <= ovl.1 ==> r is Ok && final(self).reads() == with_overlap(
                old(self).reads(),
                id@,
                ovl,
            ),
            ovl.0 > ovl.1 ==> final(self).reads() == old(self).reads() && r is Err && r->Err_0@
                == (ErrorView::InvalidInterval { id: id@, start: ovl.0, end: ovl.1 }),
    ;

    /// The length of read `id`, if one has been recorded.
    fn length(&self, id: &str) -> (r: Option<u32>)
        ensures
            r == length_of(self.reads(), id@),
    ;

    /// The overlaps of read `id`, in the order in which they were recorded.
    fn overlap(&self, id: &str) -> (r: Vec<Interval>)
        ensures
            r@ == overlaps_of(self.reads(), id@),
    ;

    /// The identifiers of all reads that the store has seen.
    fn get_reads(&self) -> (ids: Vec<String>)
        ensures
            lists_reads(ids@, self.reads()),
    ;

    /// The size of the buffers with which the files behind this store are read.
    fn read_buffer_size(&self) -> (size: usize)
        ensures
            size == self.spec_read_buffer_size(),
    ;
}

/// One read of an in-memory store.
struct ReadEntry {
    id: String,
    length: Option<u32>,
    overlaps: Vec<Interval>,
}

/// A store that keeps everything in memory.
pub struct FullMemory {
    entries: Vec<ReadEntry>,
    index: StringHashMap<usize>,
    read_buffer_size: usize,
}

/// Every entry is found under its identifier, and the index names nothing else.
spec fn indexed(entries: Seq<ReadEntry>, index: Map<Seq<char>, usize>) -> bool {
    &&& forall|i: int|
        0 <= i < entries.len() ==> index.contains_key(#[trigger] entries[i].id@)
            && index[entries[i].id@] == i
    &&& forall|k: Seq<char>| #[trigger]
        index.contains_key(k) ==> index[k] < entries.len() && entries[index[k] as int].id@ == k
}

spec fn info(entry: ReadEntry) -> ReadInfo {
    ReadInfo { length: entry.length, overlaps: entry.overlaps@ }
}

spec fn reads_of(entries: Seq<ReadEntry>, index: Map<Seq<char>, usize>) -> Map<Seq<char>, ReadInfo> {
    Map::new(|k: Seq<char>| index.contains_key(k), |k: Seq<char>| info(entries[index[k] as int]))
}

impl FullMemory {
    #[verifier::type_invariant]
    spec fn well_formed(&self) -> bool {
        indexed(self.entries@, self.index@)
    }

    /// An empty store. `read_buffer_size` is kept for the readers that fill it.
    pub fn new(read_buffer_size: usize) -> (store: Self)
        ensures
            store.reads() == Map::<Seq<char>, ReadInfo>::empty(),
            store.spec_read_buffer_size() == read_buffer_size,
    {
        let store = FullMemory {
            entries: Vec::new(),
            index: StringHashMap::new(),
            read_buffer_size,
        };
        assert(store.reads() =~= Map::<Seq<char>, ReadInfo>::empty());
        store
    }
}

impl Reads2Ovl for FullMemory {
    closed spec fn reads(&self) -> Map<Seq<char>, ReadInfo> {
        reads_of(self.entries@, self.index@)
    }

    closed spec fn spec_read_buffer_size(&self) -> usize {
        self.read_buffer_size
    }

    fn add_length(&mut self, id: String, length: u32) {
        let mut taken = FullMemory::new(self.read_buffer_size);
        std::mem::swap(self, &mut taken);
        proof {
            use_type_invariant(&taken);
        }
        let FullMemory { mut entries, mut index, read_buffer_size } = taken;
        let ghost old_entries = entries@;
        let ghost old_index = index@;
        let found = match index.get(id.as_str()) {
            Some(at) => Some(*at),
            None => None,
        };
        match found {
            Some(at) => {
                entries[at].length = Some(length);
                assert(indexed(entries@, index@));
            },
            None => {
                let at = entries.len();
                index.insert(id.clone(), at);
                entries.push(ReadEntry { id, length: Some(length), overlaps: Vec::new() });
                assert(indexed(entries@, index@));
            },
        }
        assert(reads_of(entries@, index@) =~= with_length(
            reads_of(old_entries, old_index),
            id@,
            length,
        ));
        *self = FullMemory { entries, index, read_buffer_size };
    }

    fn add_overlap(&mut self, id: String, ovl: Interval) -> (r: Result<(), Error>) {
        if ovl.0 > ovl.1 {
            return Err(Error::InvalidInterval { id, start: ovl.0, end: ovl.1 });
        }
        let mut taken = FullMemory::new(self.read_buffer_size);
        std::mem::swap(self, &mut taken);
        proof {
            use_type_invariant(&taken);
        }
        let FullMemory { mut entries, mut index, read_buffer_size } = taken;
        let ghost old_entries = entries@;
        let ghost old_index = index@;
        let found = match index.get(id.as_str()) {
            Some(at) => Some(*at),
            None => None,
        };
        match found {
            Some(at) => {
                entries[at].overlaps.push(ovl);
                assert(indexed(entries@, index@));
            },
            None => {
                let at = entries.len();
                index.insert(id.clone(), at);
                let mut overlaps = Vec::new();
                overlaps.push(ovl);
                entries.push(ReadEntry { id, length: None, overlaps });
                assert(indexed(entries@, index@));
            },
        }
        assert(reads_of(entries@, index@) =~= with_overlap(
            reads_of(old_entries, old_index),
            id@,
            ovl,
        ));
        *self = FullMemory { entries, index, read_buffer_size };
        Ok(())
    }

    fn length(&self, id: &str) -> (r: Option<u32>) {
        proof {
            use_type_invariant(self);
        }
        match self.index.get(id) {
            Some(at) => self.entries[*at].length,
            None => None,
        }
    }

    fn overlap(&self, id: &str) -> (r: Vec<Interval>) {
        proof {
            use_type_invariant(self);
        }
        match self.index.get(id) {
            Some(at) => copy_intervals(&self.entries[*at].overlaps),
            None => Vec::new(),
        }
    }

    fn get_reads(&self) -> (ids: Vec<String>) {
        proof {
            use_type_invariant(self);
        }
        let mut ids: Vec<String> = Vec::new();
        let mut i: usize = 0;
        while i < self.entries.len()
            invariant
                0 <= i <= self.entries.len(),
                ids.len() == i,
                indexed(self.entries@, self.index@),
                forall|j: int| 0 <= j < i ==> (#[trigger] ids[j])@ == self.entries[j].id@,
            decreases self.entries.len() - i,
        {
            ids.push(self.entries[i].id.clone());
            i += 1;
        }
        proof {
            assert forall|k: Seq<char>| self.reads().contains_key(k) implies exists|j: int|
                0 <= j < ids.len() && (#[trigger] ids[j])@ == k by {
                let at = self.index@[k] as int;
                assert(ids[at]@ == k);
            }
        }
        ids
    }

    fn read_buffer_size(&self) -> (size: usize) {
        self.read_buffer_size
    }
}

} // verus!
