//! The bad regions of every read of a store, computed in one pass and kept
//! for lookup by read identifier.
use crate::error::{Error, ErrorView};
use crate::interval::{compute_bad_part, is_bad_part, lemma_bad_part_unique, Interval};
use crate::reads2ovl::{lists_reads, ReadInfo, Reads2Ovl};
use vstd::hash_map::StringHashMap;
use vstd::prelude::*;

verus! {

/// The bad regions of reads, each with the length of its read, by read
/// identifier.
pub type BadParts = Map<Seq<char>, (Seq<Interval>, u32)>;

/// The length with which the bad regions of a read are computed: the recorded
/// one, or zero for a read whose length was never given.
pub open spec fn known_length(length: Option<u32>) -> u32 {
    match length {
        Some(l) => l,
        None => 0,
    }
}

/// `parts` holds, for exactly the reads of `reads`, the length of the read and
/// the regions of it that none of its overlaps covers.
pub open spec fn complements(parts: BadParts, reads: Map<Seq<char>, ReadInfo>) -> bool {
    &&& forall|k: Seq<char>| #[trigger] parts.contains_key(k) <==> reads.contains_key(k)
    &&& forall|k: Seq<char>| #[trigger]
        reads.contains_key(k) ==> parts[k].1 == known_length(reads[k].length) && is_bad_part(
            parts[k].0,
            reads[k].overlaps,
            parts[k].1 as int,
        )
}

/// A source of bad regions.
pub trait BadPart {
    /// The bad regions that can be looked up at present.
    spec fn bad_parts(&self) -> BadParts;

    /// Computes the bad regions of every read, for lookup by
    /// [`BadPart::get_bad_part`].
    fn compute_all_bad_part(&mut self)
    ;

    /// The bad regions of read `id`, in ascending order, and the length of the
    /// read. Fails with `UnknownRead` for a read of which nothing was computed.
    fn get_bad_part(&self, id: &str) -> (r: Result<&(Vec<Interval>, u32), Error>)
        ensures
            self.bad_parts().contains_key(id@) ==> r is Ok && r->Ok_0.0@ == self.bad_parts()[id@].0
                && r->Ok_0.1 == self.bad_parts()[id@].1,
            !self.bad_parts().contains_key(id@) ==> r is Err && r->Err_0@ == (ErrorView::UnknownRead {
                id: id@,
            }),
    ;
}

/// Bad regions computed from the overlaps of a store. The store is taken over
/// for good: what it holds when the engine is made is what the bad regions are
/// computed from. Until they have been computed, no read can be looked up.
pub struct FromOverlap<S: Reads2Ovl> {
    ovl: S,
    buffer: StringHashMap<(Vec<Interval>, u32)>,
}

spec fn parts_of(buffer: Map<Seq<char>, (Vec<Interval>, u32)>) -> BadParts {
    Map::new(|k: Seq<char>| buffer.contains_key(k), |k: Seq<char>| (buffer[k].0@, buffer[k].1))
}

impl<S: Reads2Ovl> FromOverlap<S> {
    /// The store that the engine took over.
    pub closed spec fn store(&self) -> S {
        self.ovl
    }

    /// An engine over `ovl`, with nothing computed yet.
    pub fn new(ovl: S) -> (engine: Self)
        ensures
            engine.store() == ovl,
            engine.bad_parts() == BadParts::empty(),
    {
        let engine = FromOverlap { ovl, buffer: StringHashMap::new() };
        assert(engine.bad_parts() =~= BadParts::empty());
        engine
    }
}

impl<S: Reads2Ovl> BadPart for FromOverlap<S> {
    closed spec fn bad_parts(&self) -> BadParts {
        parts_of(self.buffer@)
    }

    /// Computes, for every read of the store, the regions that none of its
    /// overlaps covers. A read whose length was never given counts as a read
    /// of length zero, which has no bad region. Computing again changes
    /// nothing.
    fn compute_all_bad_part(&mut self)
        ensures
            final(self).store() == old(self).store(),
            complements(final(self).bad_parts(), old(self).store().reads()),
            complements(old(self).bad_parts(), old(self).store().reads()) ==> final(self).bad_parts()
                == old(self).bad_parts(),
    {
        let ids = self.ovl.get_reads();
        self.buffer.clear();
        let ghost reads = self.ovl.reads();
        let mut i: usize = 0;
        while i < ids.len()
            invariant
                0 <= i <= ids.len(),
                self.ovl == old(self).ovl,
                reads == self.ovl.reads(),
                lists_reads(ids@, reads),
                forall|k: Seq<char>| #[trigger]
                    self.buffer@.contains_key(k) <==> exists|j: int| 0 <= j < i && (#[trigger] ids[j])@ == k,
                forall|k: Seq<char>| #[trigger]
                    self.buffer@.contains_key(k) ==> self.buffer@[k].1 == known_length(reads[k].length)
                        && is_bad_part(self.buffer@[k].0@, reads[k].overlaps, self.buffer@[k].1 as int),
            decreases ids.len() - i,
        {
            let id = ids[i].clone();
            let overlaps = self.ovl.overlap(id.as_str());
            let length = match self.ovl.length(id.as_str()) {
                Some(l) => l,
                None => 0,
            };
            let gaps = compute_bad_part(&overlaps, length);
            let ghost before = self.buffer@;
            self.buffer.insert(id, (gaps, length));
            proof {
                assert(reads.contains_key(ids[i as int]@));
                assert forall|k: Seq<char>| #[trigger]
                    self.buffer@.contains_key(k) <==> exists|j: int|
                        0 <= j < i + 1 && (#[trigger] ids[j])@ == k by {
                    if before.contains_key(k) {
                        let j = choose|j: int| 0 <= j < i && (#[trigger] ids[j])@ == k;
                        assert(0 <= j < i + 1 && ids[j]@ == k);
                    }
                    if k == ids[i as int]@ {
                        assert(0 <= i < i + 1 && ids[i as int]@ == k);
                    }
                    if exists|j: int| 0 <= j < i + 1 && (#[trigger] ids[j])@ == k {
                        let j = choose|j: int| 0 <= j < i + 1 && (#[trigger] ids[j])@ == k;
                        if j < i {
                            assert(before.contains_key(k));
                        }
                    }
                }
            }
            i += 1;
        }
        proof {
            let parts = self.bad_parts();
            assert forall|k: Seq<char>| #[trigger] parts.contains_key(k) <==> reads.contains_key(k) by {
                if parts.contains_key(k) {
                    let j = choose|j: int| 0 <= j < i && (#[trigger] ids[j])@ == k;
                    assert(reads.contains_key(ids[j]@));
                }
                if reads.contains_key(k) {
                    let j = choose|j: int| 0 <= j < ids.len() && (#[trigger] ids[j])@ == k;
                    assert(self.buffer@.contains_key(k));
                }
            }
            assert forall|k: Seq<char>| #[trigger] reads.contains_key(k) implies parts[k].1
                == known_length(reads[k].length) && is_bad_part(
                parts[k].0,
                reads[k].overlaps,
                parts[k].1 as int,
            ) by {
                assert(parts.contains_key(k));
                assert(self.buffer@.contains_key(k));
            }
            if complements(old(self).bad_parts(), reads) {
                lemma_compute_all_bad_part_idempotent(old(self).bad_parts(), parts, reads);
            }
        }
    }

    fn get_bad_part(&self, id: &str) -> (r: Result<&(Vec<Interval>, u32), Error>) {
        match self.buffer.get(id) {
            Some(part) => Ok(part),
            None => Err(Error::UnknownRead { id: id.to_owned() }),
        }
    }
}

/// Computing the bad regions again from the same store gives the same bad
/// regions.
pub proof fn lemma_compute_all_bad_part_idempotent(
    first: BadParts,
    second: BadParts,
    reads: Map<Seq<char>, ReadInfo>,
)
    requires
        complements(first, reads),
        complements(second, reads),
    ensures
        first == second,
{
    assert forall|k: Seq<char>| first.contains_key(k) implies #[trigger] first[k] == second[k] by {
        assert(reads.contains_key(k));
        lemma_bad_part_unique(first[k].0, second[k].0, reads[k].overlaps, first[k].1 as int);
    }
    assert forall|k: Seq<char>| first.contains_key(k) <==> second.contains_key(k) by {
        assert(first.contains_key(k) <==> reads.contains_key(k));
        assert(second.contains_key(k) <==> reads.contains_key(k));
    }
    assert(first =~= second);
}

} // verus!
