//! Plucking the bad regions out of sequence records: each bad region of a
//! read that is worth keeping becomes a record of its own, named after the
//! read and the region.
use crate::editor::{classify, spec_classify, ReadType, Threshold};
use crate::error::{Error, ErrorView};
use crate::interval::{separated, Interval};
use crate::record::{
    fasta_record_bytes, fasta_records, fastq_record_bytes, fastq_records, read_fasta, read_fastq,
    views, write_fasta_record, write_fastq_record, FastaRecord, FastaRecordView, FastqRecord,
    FastqRecordView,
};
use crate::stack::{BadPart, BadParts};
use crate::util::FileType;
use vstd::prelude::*;
use vstd::slice::{slice_subrange, slice_to_vec};
use vstd::utf8::{decode_utf8, valid_utf8};

verus! {

/// The bad regions shorter than this are not plucked, unless the caller says
/// otherwise.
pub const DEFAULT_MINIMUM_BAD_REGION_LENGTH: u32 = 50;

/// The digits of `n` in base ten, most significant first, as ASCII.
pub open spec fn decimal(n: nat) -> Seq<u8>
    decreases n,
{
    if n < 10 {
        seq![(48 + n) as u8]
    } else {
        decimal(n / 10).push((48 + n % 10) as u8)
    }
}

/// The name of the record plucked from region `region` of read `name`: the
/// name of the read, the start and the end of the region, joined by `_`.
pub open spec fn region_name(name: Seq<u8>, region: Interval) -> Seq<u8> {
    name + seq![95u8] + decimal(region.0 as nat) + seq![95u8] + decimal(region.1 as nat)
}

/// Appends the digits of `n` in base ten to `out`.
pub fn push_decimal(out: &mut Vec<u8>, n: u32)
    ensures
        final(out)@ == old(out)@ + decimal(n as nat),
{
    let mut digits: Vec<u8> = Vec::new();
    let mut rest: u32 = n;
    while rest >= 10
        invariant
            decimal(n as nat) == decimal(rest as nat) + digits@.reverse(),
        decreases rest,
    {
        let digit: u8 = (rest % 10) as u8 + 48;
        proof {
            let shorter = decimal((rest / 10) as nat);
            assert(decimal(rest as nat) == shorter.push(digit));
            assert(digits@.push(digit).reverse() == seq![digit] + digits@.reverse());
            assert(shorter.push(digit) + digits@.reverse() == shorter + (seq![digit]
                + digits@.reverse()));
        }
        digits.push(digit);
        rest = rest / 10;
    }
    let first: u8 = rest as u8 + 48;
    out.push(first);
    let ghost start = out@;
    let mut i: usize = digits.len();
    while i > 0
        invariant
            0 <= i <= digits.len(),
            out@ == start + digits@.reverse().take(digits.len() - i),
        decreases i,
    {
        i -= 1;
        out.push(digits[i]);
        proof {
            let r = digits@.reverse();
            let k = digits.len() - i;
            assert(r.take(k as int) == r.take(k - 1).push(r[k - 1]));
            assert(r[k - 1] == digits@[i as int]);
        }
    }
    proof {
        assert(digits@.reverse().take(digits.len() as int) == digits@.reverse());
        assert(decimal(rest as nat) == seq![first]);
        assert(start == old(out)@ + seq![first]);
        assert(out@ == old(out)@ + (seq![first] + digits@.reverse()));
    }
}

/// The name of the record plucked from region `region` of read `name`.
pub fn make_region_name(name: &[u8], region: Interval) -> (out: Vec<u8>)
    ensures
        out@ == region_name(name@, region),
{
    let mut out: Vec<u8> = slice_to_vec(name);
    out.push(95u8);
    push_decimal(&mut out, region.0);
    out.push(95u8);
    push_decimal(&mut out, region.1);
    proof {
        assert(out@ == region_name(name@, region));
    }
    out
}

/// Whether region `region` lies inside a sequence of `sequence_len` bases.
pub open spec fn in_range(region: Interval, sequence_len: nat) -> bool {
    region.0 <= sequence_len && region.1 <= sequence_len
}

/// Whether region `region` holds at least `minimum` positions.
pub open spec fn long_enough(region: Interval, minimum: u32) -> bool {
    region.0 <= region.1 && region.1 - region.0 >= minimum
}

/// The regions that are plucked from a sequence of `sequence_len` bases, in
/// the order of `regions`: those that hold at least `minimum` positions, up to
/// the first region that does not lie inside the sequence. That region and
/// all that follow it are left out.
pub open spec fn selection(regions: Seq<Interval>, sequence_len: nat, minimum: u32) -> Seq<Interval>
    decreases regions.len(),
{
    if regions.len() == 0 || !in_range(regions[0], sequence_len) {
        Seq::empty()
    } else if long_enough(regions[0], minimum) {
        seq![regions[0]] + selection(regions.drop_first(), sequence_len, minimum)
    } else {
        selection(regions.drop_first(), sequence_len, minimum)
    }
}

/// Whether some region does not lie inside a sequence of `sequence_len` bases,
/// so that the selection stops short of the end of `regions`.
pub open spec fn stops_short(regions: Seq<Interval>, sequence_len: nat) -> bool {
    exists|i: int| 0 <= i < regions.len() && !in_range(#[trigger] regions[i], sequence_len)
}

/// The regions of `s` that hold at least `minimum` positions.
pub open spec fn long_ones(s: Seq<Interval>, minimum: u32) -> Seq<Interval>
    decreases s.len(),
{
    if s.len() == 0 {
        Seq::empty()
    } else if long_enough(s[0], minimum) {
        seq![s[0]] + long_ones(s.drop_first(), minimum)
    } else {
        long_ones(s.drop_first(), minimum)
    }
}

/// Every region of `s` lies inside a sequence of `sequence_len` bases and does
/// not end before it starts.
pub open spec fn sliceable(s: Seq<Interval>, sequence_len: nat) -> bool {
    forall|i: int| 0 <= i < s.len() ==> (#[trigger] s[i]).0 <= s[i].1 <= sequence_len
}

/// Selects the regions to pluck from a sequence of `sequence_len` bases, and
/// tells whether a region was met that does not lie inside the sequence.
pub fn select_regions(regions: &[Interval], sequence_len: usize, minimum: u32) -> (out: (
    Vec<Interval>,
    bool,
))
    ensures
        out.0@ == selection(regions@, sequence_len as nat, minimum),
        out.1 == stops_short(regions@, sequence_len as nat),
        sliceable(out.0@, sequence_len as nat),
{
    let mut selected: Vec<Interval> = Vec::new();
    let mut i: usize = 0;
    proof {
        assert(regions@.skip(0) == regions@);
        assert(selected@ + selection(regions@, sequence_len as nat, minimum) == selection(
            regions@,
            sequence_len as nat,
            minimum,
        ));
    }
    while i < regions.len()
        invariant
            0 <= i <= regions@.len(),
            selection(regions@, sequence_len as nat, minimum) == selected@ + selection(
                regions@.skip(i as int),
                sequence_len as nat,
                minimum,
            ),
            forall|j: int| 0 <= j < i ==> in_range(#[trigger] regions@[j], sequence_len as nat),
            sliceable(selected@, sequence_len as nat),
        decreases regions.len() - i,
    {
        let region = regions[i];
        let ghost rest = regions@.skip(i as int);
        proof {
            assert(rest[0] == region);
            assert(rest.drop_first() == regions@.skip(i + 1));
        }
        if region.0 as usize > sequence_len || region.1 as usize > sequence_len {
            proof {
                assert(!in_range(regions@[i as int], sequence_len as nat));
                assert(selected@ + Seq::<Interval>::empty() == selected@);
            }
            return (selected, true);
        }
        if region.0 <= region.1 && region.1 - region.0 >= minimum {
            proof {
                assert(selected@ + (seq![region] + selection(
                    rest.drop_first(),
                    sequence_len as nat,
                    minimum,
                )) == selected@.push(region) + selection(
                    rest.drop_first(),
                    sequence_len as nat,
                    minimum,
                ));
            }
            selected.push(region);
        }
        i += 1;
    }
    proof {
        assert(regions@.skip(i as int).len() == 0);
        assert(selected@ + Seq::<Interval>::empty() == selected@);
    }
    (selected, false)
}

/// Raising the minimum length only takes regions out of the selection: what is
/// selected with a minimum is what is selected without one, less the regions
/// that are too short.
pub proof fn lemma_selection_filters(regions: Seq<Interval>, sequence_len: nat, minimum: u32)
    ensures
        selection(regions, sequence_len, minimum) == long_ones(
            selection(regions, sequence_len, 0),
            minimum,
        ),
    decreases regions.len(),
{
    if regions.len() == 0 || !in_range(regions[0], sequence_len) {
    } else {
        let rest = regions.drop_first();
        lemma_selection_filters(rest, sequence_len, minimum);
        if long_enough(regions[0], 0) {
            let all = seq![regions[0]] + selection(rest, sequence_len, 0);
            assert(all[0] == regions[0]);
            assert(all.drop_first() == selection(rest, sequence_len, 0));
        }
    }
}

/// The regions to pluck from a record named `name` with a sequence of
/// `sequence_len` bases, and whether a bad region of the read does not lie
/// inside the sequence; or why the record cannot be dealt with.
///
/// The read is looked up under the text that `name` encodes. A read that is
/// fully covered or not covered gives no region; of a read that is partially
/// bad, the selection of its bad regions is plucked.
pub open spec fn regions_to_pluck(
    name: Seq<u8>,
    sequence_len: nat,
    parts: BadParts,
    minimum: u32,
    not_covered: Threshold,
    format: FileType,
) -> Result<(Seq<Interval>, bool), ErrorView> {
    let id = decode_utf8(name);
    if !valid_utf8(name) {
        Err(ErrorView::ReadingError { format })
    } else if !parts.contains_key(id) {
        Err(ErrorView::UnknownRead { id })
    } else if parts[id].1 == 0 {
        Err(ErrorView::InvalidLength { id })
    } else if spec_classify(parts[id].1, parts[id].0, not_covered) != ReadType::PartiallyBad {
        Ok((Seq::empty(), false))
    } else {
        Ok((selection(parts[id].0, sequence_len, minimum), stops_short(parts[id].0, sequence_len)))
    }
}

/// Looks up the bad regions of the read that a record belongs to, classifies
/// the read and selects the regions to pluck from the record.
pub fn find_regions<B: BadPart>(
    name: &[u8],
    sequence_len: usize,
    minimum: u32,
    badregions: &B,
    not_covered: Threshold,
    format: FileType,
) -> (r: Result<(Vec<Interval>, bool), Error>)
    ensures
        match regions_to_pluck(
            name@,
            sequence_len as nat,
            badregions.bad_parts(),
            minimum,
            not_covered,
            format,
        ) {
            Ok(expected) => r is Ok && r->Ok_0.0@ == expected.0 && r->Ok_0.1 == expected.1,
            Err(e) => r is Err && r->Err_0@ == e,
        },
        r is Ok ==> sliceable(r->Ok_0.0@, sequence_len as nat),
{
    let id = match core::str::from_utf8(name) {
        Ok(id) => id,
        Err(_) => {
            return Err(Error::ReadingError { format });
        },
    };
    proof {
        vstd::utf8::encode_utf8_decode_utf8(id@);
    }
    let part = match badregions.get_bad_part(id) {
        Ok(part) => part,
        Err(e) => {
            return Err(e);
        },
    };
    match classify(part.1, part.0.as_slice(), not_covered) {
        Err(_) => Err(Error::InvalidLength { id: id.to_owned() }),
        Ok(ReadType::PartiallyBad) => Ok(select_regions(part.0.as_slice(), sequence_len, minimum)),
        Ok(_) => Ok((Vec::new(), false)),
    }
}

/// Whether a record is dealt with alike whatever the minimum length: the same
/// failure, or else the same warning and, of the regions plucked without a
/// minimum, those that are long enough.
pub open spec fn filtered_alike(
    with_minimum: Result<(Seq<Interval>, bool), ErrorView>,
    without: Result<(Seq<Interval>, bool), ErrorView>,
    minimum: u32,
) -> bool {
    match (with_minimum, without) {
        (Ok(some), Ok(all)) => some.0 == long_ones(all.0, minimum) && some.1 == all.1,
        (Err(e), Err(f)) => e == f,
        _ => false,
    }
}

/// The minimum length of a bad region has no part in how a read is
/// classified, nor in whether a record fails: it only decides which of the
/// selected regions are plucked.
pub proof fn lemma_minimum_length_only_filters(
    name: Seq<u8>,
    sequence_len: nat,
    parts: BadParts,
    minimum: u32,
    not_covered: Threshold,
    format: FileType,
)
    ensures
        filtered_alike(
            regions_to_pluck(name, sequence_len, parts, minimum, not_covered, format),
            regions_to_pluck(name, sequence_len, parts, 0, not_covered, format),
            minimum,
        ),
{
    let id = decode_utf8(name);
    if valid_utf8(name) && parts.contains_key(id) && parts[id].1 != 0 {
        lemma_selection_filters(parts[id].0, sequence_len, minimum);
    }
}


/// From separated regions that all lie inside the sequence, as the bad regions
/// of a read lie inside a record of its length, every region is selected where
/// no minimum is asked for, and the selection does not stop short.
pub proof fn lemma_selection_of_separated(regions: Seq<Interval>, sequence_len: nat)
    requires
        separated(regions, sequence_len as int),
    ensures
        selection(regions, sequence_len, 0) == regions,
        !stops_short(regions, sequence_len),
    decreases regions.len(),
{
    if regions.len() == 0 {
        assert(selection(regions, sequence_len, 0) =~= regions);
    } else {
        let rest = regions.drop_first();
        assert(regions[0].0 < regions[0].1 <= sequence_len);
        assert(separated(rest, sequence_len as int)) by {
            assert forall|i: int| 0 <= i < rest.len() implies (#[trigger] rest[i]).0 < rest[i].1
                <= sequence_len by {
                assert(rest[i] == regions[i + 1]);
            }
            assert forall|i: int, j: int| 0 <= i < j < rest.len() implies (#[trigger] rest[i]).1 < (
            #[trigger] rest[j]).0 by {
                assert(rest[i] == regions[i + 1]);
                assert(rest[j] == regions[j + 1]);
            }
        }
        lemma_selection_of_separated(rest, sequence_len);
        assert(seq![regions[0]] + rest =~= regions);
        if stops_short(regions, sequence_len) {
            let i = choose|i: int|
                0 <= i < regions.len() && !in_range(#[trigger] regions[i], sequence_len);
            assert(regions[i].0 < regions[i].1 <= sequence_len);
        }
    }
}

/// Every region of a selection lies inside the sequence and does not end
/// before it starts.
pub proof fn lemma_selection_sliceable(regions: Seq<Interval>, sequence_len: nat, minimum: u32)
    ensures
        sliceable(selection(regions, sequence_len, minimum), sequence_len),
    decreases regions.len(),
{
    if regions.len() == 0 || !in_range(regions[0], sequence_len) {
    } else {
        lemma_selection_sliceable(regions.drop_first(), sequence_len, minimum);
    }
}

/// A record of a file of sequences, from which the bad regions of its read
/// can be plucked.
pub trait SequenceRecord: View + Sized {
    /// The format of the files that hold such records.
    spec fn format() -> FileType;

    /// The name of the record, which is that of its read.
    spec fn name_of(record: Self::V) -> Seq<u8>;

    /// The bases of the record.
    spec fn sequence_of(record: Self::V) -> Seq<u8>;

    /// Whether the record is one that a file of this format can hold.
    spec fn well_formed(record: Self::V) -> bool;

    /// The record plucked from region `region` of `record`.
    spec fn region_of(record: Self::V, region: Interval) -> Self::V;

    /// The record as text of its format.
    spec fn text_of(record: Self::V) -> Seq<u8>;

    /// The record plucked from a region is named after the read and the
    /// region, and holds the bases of the region.
    proof fn lemma_region_of(record: Self::V, region: Interval)
        requires
            Self::well_formed(record),
            region.0 <= region.1 <= Self::sequence_of(record).len(),
        ensures
            Self::well_formed(Self::region_of(record, region)),
            Self::name_of(Self::region_of(record, region)) == region_name(
                Self::name_of(record),
                region,
            ),
            Self::sequence_of(Self::region_of(record, region)) == Self::sequence_of(
                record,
            ).subrange(region.0 as int, region.1 as int),
    ;

    /// The format of the files that hold such records.
    fn file_type() -> (format: FileType)
        ensures
            format == Self::format(),
    ;

    /// The name of the record.
    fn name(&self) -> (name: &[u8])
        ensures
            name@ == Self::name_of(self@),
    ;

    /// The number of bases of the record.
    fn sequence_len(&self) -> (len: usize)
        ensures
            len == Self::sequence_of(self@).len(),
    ;

    /// Whether the record is one that a file of this format can hold.
    fn is_well_formed(&self) -> (well: bool)
        ensures
            well == Self::well_formed(self@),
    ;

    /// Plucks region `region` out of the record.
    fn cut(&self, region: Interval) -> (plucked: Self)
        requires
            Self::well_formed(self@),
            region.0 <= region.1 <= Self::sequence_of(self@).len(),
        ensures
            plucked@ == Self::region_of(self@, region),
    ;

    /// Appends the record to `output` as text of its format.
    fn write(&self, output: &mut Vec<u8>) -> (r: Result<(), std::io::Error>)
        ensures
            r is Ok,
            final(output)@ == old(output)@ + Self::text_of(self@),
    ;
}

impl SequenceRecord for FastaRecord {
    open spec fn format() -> FileType {
        FileType::Fasta
    }

    open spec fn name_of(record: FastaRecordView) -> Seq<u8> {
        record.name
    }

    open spec fn sequence_of(record: FastaRecordView) -> Seq<u8> {
        record.sequence
    }

    open spec fn well_formed(record: FastaRecordView) -> bool {
        true
    }

    open spec fn region_of(record: FastaRecordView, region: Interval) -> FastaRecordView {
        FastaRecordView {
            name: region_name(record.name, region),
            sequence: record.sequence.subrange(region.0 as int, region.1 as int),
        }
    }

    open spec fn text_of(record: FastaRecordView) -> Seq<u8> {
        fasta_record_bytes(record)
    }

    proof fn lemma_region_of(record: FastaRecordView, region: Interval) {
    }

    fn file_type() -> (format: FileType) {
        FileType::Fasta
    }

    fn name(&self) -> (name: &[u8]) {
        self.name.as_slice()
    }

    fn sequence_len(&self) -> (len: usize) {
        self.sequence.len()
    }

    fn is_well_formed(&self) -> (well: bool) {
        true
    }

    fn cut(&self, region: Interval) -> (plucked: Self) {
        FastaRecord {
            name: make_region_name(self.name.as_slice(), region),
            sequence: slice_to_vec(
                slice_subrange(self.sequence.as_slice(), region.0 as usize, region.1 as usize),
            ),
        }
    }

    fn write(&self, output: &mut Vec<u8>) -> (r: Result<(), std::io::Error>) {
        write_fasta_record(output, self)
    }
}

/// A FASTQ record is well-formed if it has one quality score for each base.
/// The record plucked from a region keeps the description, and its quality
/// scores are cut as its sequence is.
impl SequenceRecord for FastqRecord {
    open spec fn format() -> FileType {
        FileType::Fastq
    }

    open spec fn name_of(record: FastqRecordView) -> Seq<u8> {
        record.name
    }

    open spec fn sequence_of(record: FastqRecordView) -> Seq<u8> {
        record.sequence
    }

    open spec fn well_formed(record: FastqRecordView) -> bool {
        record.quality_scores.len() == record.sequence.len()
    }

    open spec fn region_of(record: FastqRecordView, region: Interval) -> FastqRecordView {
        FastqRecordView {
            name: region_name(record.name, region),
            description: record.description,
            sequence: record.sequence.subrange(region.0 as int, region.1 as int),
            quality_scores: record.quality_scores.subrange(region.0 as int, region.1 as int),
        }
    }

    open spec fn text_of(record: FastqRecordView) -> Seq<u8> {
        fastq_record_bytes(record)
    }

    proof fn lemma_region_of(record: FastqRecordView, region: Interval) {
    }

    fn file_type() -> (format: FileType) {
        FileType::Fastq
    }

    fn name(&self) -> (name: &[u8]) {
        self.name.as_slice()
    }

    fn sequence_len(&self) -> (len: usize) {
        self.sequence.len()
    }

    fn is_well_formed(&self) -> (well: bool) {
        self.quality_scores.len() == self.sequence.len()
    }

    fn cut(&self, region: Interval) -> (plucked: Self) {
        FastqRecord {
            name: make_region_name(self.name.as_slice(), region),
            description: slice_to_vec(self.description.as_slice()),
            sequence: slice_to_vec(
                slice_subrange(self.sequence.as_slice(), region.0 as usize, region.1 as usize),
            ),
            quality_scores: slice_to_vec(
                slice_subrange(
                    self.quality_scores.as_slice(),
                    region.0 as usize,
                    region.1 as usize,
                ),
            ),
        }
    }

    fn write(&self, output: &mut Vec<u8>) -> (r: Result<(), std::io::Error>) {
        write_fastq_record(output, self)
    }
}

/// The records plucked from the given regions of a record.
pub open spec fn regions_of<R: SequenceRecord>(record: R::V, regions: Seq<Interval>) -> Seq<R::V> {
    Seq::new(regions.len(), |i: int| R::region_of(record, regions[i]))
}

/// What is plucked from a record, and whether a bad region of its read does
/// not lie inside its sequence; or why the record cannot be dealt with. A
/// record that is not well-formed counts as one that could not be read.
pub open spec fn plucked<R: SequenceRecord>(
    record: R::V,
    parts: BadParts,
    minimum: u32,
    not_covered: Threshold,
) -> Result<(Seq<R::V>, bool), ErrorView> {
    if !R::well_formed(record) {
        Err(ErrorView::ReadingError { format: R::format() })
    } else {
        match regions_to_pluck(
            R::name_of(record),
            R::sequence_of(record).len(),
            parts,
            minimum,
            not_covered,
            R::format(),
        ) {
            Ok(found) => Ok((regions_of::<R>(record, found.0), found.1)),
            Err(e) => Err(e),
        }
    }
}

/// Plucks the bad regions of a read out of its record. Beside the records
/// plucked, in the order of the regions, the result tells whether a bad
/// region was met that does not lie inside the sequence.
pub fn pluck_record<R: SequenceRecord, B: BadPart>(
    record: &R,
    minimum: u32,
    badregions: &B,
    not_covered: Threshold,
) -> (r: Result<(Vec<R>, bool), Error>)
    ensures
        match plucked::<R>(record@, badregions.bad_parts(), minimum, not_covered) {
            Ok(expected) => r is Ok && views(r->Ok_0.0@) == expected.0 && r->Ok_0.1 == expected.1,
            Err(e) => r is Err && r->Err_0@ == e,
        },
{
    if !record.is_well_formed() {
        return Err(Error::ReadingError { format: R::file_type() });
    }
    let (regions, short) = match find_regions(
        record.name(),
        record.sequence_len(),
        minimum,
        badregions,
        not_covered,
        R::file_type(),
    ) {
        Ok(found) => found,
        Err(e) => {
            return Err(e);
        },
    };
    let mut cut: Vec<R> = Vec::new();
    let mut i: usize = 0;
    proof {
        assert(views(cut@) =~= regions_of::<R>(record@, regions@.take(0)));
    }
    while i < regions.len()
        invariant
            0 <= i <= regions.len(),
            R::well_formed(record@),
            sliceable(regions@, R::sequence_of(record@).len()),
            cut.len() == i,
            views(cut@) == regions_of::<R>(record@, regions@.take(i as int)),
        decreases regions.len() - i,
    {
        let region = regions[i];
        assert(regions@[i as int].0 <= regions@[i as int].1 <= R::sequence_of(record@).len());
        let ghost before = cut@;
        cut.push(record.cut(region));
        proof {
            let expected = regions_of::<R>(record@, regions@.take(i + 1));
            assert forall|k: int| 0 <= k < expected.len() implies views(cut@)[k] == expected[k] by {
                if k < i {
                    assert(views(before)[k] == regions_of::<R>(record@, regions@.take(i as int))[k]);
                    assert(cut@[k] == before[k]);
                }
            }
            assert(views(cut@) =~= expected);
        }
        i += 1;
    }
    proof {
        assert(regions@.take(i as int) == regions@);
    }
    Ok((cut, short))
}

/// What a run over the records of a file comes to.
pub struct Outcome<V> {
    /// The records plucked, in the order of the file and, for one read, of its
    /// bad regions.
    pub emitted: Seq<V>,
    /// The names of the records of which a bad region does not lie inside the
    /// sequence, in the order of the file.
    pub out_of_range: Seq<Seq<u8>>,
    /// The failure that ended the run, if one did.
    pub failure: Option<ErrorView>,
}

/// The views of a list of names.
pub open spec fn name_views(names: Seq<Vec<u8>>) -> Seq<Seq<u8>> {
    names.map_values(|n: Vec<u8>| n@)
}

/// Whether `r` reports how a run ended: its failure, or else the names of the
/// records of which a bad region does not lie inside the sequence.
pub open spec fn reports<V>(r: Result<Vec<Vec<u8>>, Error>, outcome: Outcome<V>) -> bool {
    match outcome.failure {
        Some(e) => r is Err && r->Err_0@ == e,
        None => r is Ok && name_views(r->Ok_0@) == outcome.out_of_range,
    }
}

/// What a run over records comes to: the records are dealt with in order, up
/// to the first that fails. `complete` says whether the records are all that
/// the file held; if not, the run fails after the last of them, as the file
/// could not be read further.
pub open spec fn outcome<R: SequenceRecord>(
    records: Seq<R::V>,
    complete: bool,
    parts: BadParts,
    minimum: u32,
    not_covered: Threshold,
) -> Outcome<R::V>
    decreases records.len(),
{
    if records.len() == 0 {
        Outcome {
            emitted: Seq::empty(),
            out_of_range: Seq::empty(),
            failure: if complete {
                None
            } else {
                Some(ErrorView::ReadingError { format: R::format() })
            },
        }
    } else {
        match plucked::<R>(records[0], parts, minimum, not_covered) {
            Err(e) => Outcome { emitted: Seq::empty(), out_of_range: Seq::empty(), failure: Some(e) },
            Ok(found) => {
                let rest = outcome::<R>(records.drop_first(), complete, parts, minimum, not_covered);
                Outcome {
                    emitted: found.0 + rest.emitted,
                    out_of_range: if found.1 {
                        seq![R::name_of(records[0])] + rest.out_of_range
                    } else {
                        rest.out_of_range
                    },
                    failure: rest.failure,
                }
            },
        }
    }
}

/// Records as text of their format, one after the other.
pub open spec fn text<R: SequenceRecord>(records: Seq<R::V>) -> Seq<u8>
    decreases records.len(),
{
    if records.len() == 0 {
        Seq::empty()
    } else {
        R::text_of(records[0]) + text::<R>(records.drop_first())
    }
}

/// The text of records grows by the text of a record appended.
proof fn lemma_text_push<R: SequenceRecord>(records: Seq<R::V>, record: R::V)
    ensures
        text::<R>(records.push(record)) == text::<R>(records) + R::text_of(record),
    decreases records.len(),
{
    let all = records.push(record);
    if records.len() == 0 {
        assert(all.drop_first() == Seq::<R::V>::empty());
        assert(text::<R>(all.drop_first()) == Seq::<u8>::empty());
        assert(text::<R>(all) == R::text_of(record) + Seq::<u8>::empty());
        assert(text::<R>(records) + R::text_of(record) == R::text_of(record));
    } else {
        lemma_text_push::<R>(records.drop_first(), record);
        assert(all.drop_first() == records.drop_first().push(record));
        assert(R::text_of(all[0]) + (text::<R>(records.drop_first()) + R::text_of(record)) == (
        R::text_of(all[0]) + text::<R>(records.drop_first())) + R::text_of(record));
    }
}

/// Whether a run over `records` took `output` from `before` to `after` and
/// ended with `r`: `output` has grown by the text of the records plucked, and
/// `r` reports how the run ended.
pub open spec fn plucked_from<R: SequenceRecord>(
    records: Seq<R::V>,
    complete: bool,
    before: Seq<u8>,
    after: Seq<u8>,
    r: Result<Vec<Vec<u8>>, Error>,
    parts: BadParts,
    minimum: u32,
    not_covered: Threshold,
) -> bool {
    let outcome = outcome::<R>(records, complete, parts, minimum, not_covered);
    after == before + text::<R>(outcome.emitted) && reports(r, outcome)
}

/// Plucks the bad regions out of records and appends the records plucked to
/// `output` as text of their format. The records are dealt with in order; the
/// first that fails ends the run, and what was plucked before it stays in
/// `output`. The result names the records of which a bad region does not lie
/// inside the sequence: of such a record, the regions before that one are
/// plucked all the same.
pub fn pluck_records<R: SequenceRecord, B: BadPart>(
    records: &Vec<R>,
    complete: bool,
    output: &mut Vec<u8>,
    minimum: u32,
    badregions: &B,
    not_covered: Threshold,
) -> (r: Result<Vec<Vec<u8>>, Error>)
    ensures
        plucked_from::<R>(
            views(records@),
            complete,
            old(output)@,
            final(output)@,
            r,
            badregions.bad_parts(),
            minimum,
            not_covered,
        ),
{
    let ghost start = output@;
    let ghost all = views(records@);
    let ghost parts = badregions.bad_parts();
    let ghost total = outcome::<R>(all, complete, parts, minimum, not_covered);
    let ghost mut done: Seq<R::V> = Seq::empty();
    let mut reported: Vec<Vec<u8>> = Vec::new();
    let mut i: usize = 0;
    proof {
        assert(all.skip(0) == all);
        assert(done + total.emitted == total.emitted);
        assert(name_views(reported@) + total.out_of_range == total.out_of_range);
        assert(start + text::<R>(done) == start);
    }
    while i < records.len()
        invariant
            0 <= i <= records.len(),
            start == old(output)@,
            all == views(records@),
            parts == badregions.bad_parts(),
            total == outcome::<R>(all, complete, parts, minimum, not_covered),
            total.emitted == done + outcome::<R>(
                all.skip(i as int),
                complete,
                parts,
                minimum,
                not_covered,
            ).emitted,
            total.out_of_range == name_views(reported@) + outcome::<R>(
                all.skip(i as int),
                complete,
                parts,
                minimum,
                not_covered,
            ).out_of_range,
            total.failure == outcome::<R>(
                all.skip(i as int),
                complete,
                parts,
                minimum,
                not_covered,
            ).failure,
            output@ == start + text::<R>(done),
        decreases records.len() - i,
    {
        let record = &records[i];
        let ghost here = outcome::<R>(all.skip(i as int), complete, parts, minimum, not_covered);
        let ghost rest = outcome::<R>(all.skip(i + 1), complete, parts, minimum, not_covered);
        proof {
            assert(all.skip(i as int)[0] == record@);
            assert(all.skip(i as int).drop_first() == all.skip(i + 1));
        }
        let (cut, short) = match pluck_record(record, minimum, badregions, not_covered) {
            Ok(found) => found,
            Err(e) => {
                proof {
                    assert(plucked::<R>(record@, parts, minimum, not_covered) == Err::<
                        (Seq<R::V>, bool),
                        ErrorView,
                    >(e@));
                    assert(here.emitted == Seq::<R::V>::empty());
                    assert(here.failure == Some(e@));
                    assert(done + here.emitted == done);
                }
                return Err(e);
            },
        };
        let ghost before = done;
        let mut k: usize = 0;
        proof {
            assert(before + views(cut@).take(0) == before);
        }
        while k < cut.len()
            invariant
                0 <= k <= cut.len(),
                done == before + views(cut@).take(k as int),
                output@ == start + text::<R>(done),
            decreases cut.len() - k,
        {
            match cut[k].write(output) {
                Ok(()) => {},
                // A vector takes whatever is written to it: this is never met.
                Err(_) => {
                    return Err(Error::WritingError { format: R::file_type() });
                },
            }
            proof {
                let subs = views(cut@);
                lemma_text_push::<R>(done, cut@[k as int]@);
                assert(subs.take(k + 1) == subs.take(k as int).push(subs[k as int]));
                assert((before + subs.take(k as int)).push(subs[k as int]) == before + subs.take(
                    k + 1,
                ));
                assert(start + (text::<R>(done) + R::text_of(cut@[k as int]@)) == (start + text::<R>(
                    done,
                )) + R::text_of(cut@[k as int]@));
                done = done.push(cut@[k as int]@);
            }
            k += 1;
        }
        let ghost named = name_views(reported@);
        if short {
            reported.push(slice_to_vec(record.name()));
        }
        proof {
            let subs = views(cut@);
            assert(subs.take(k as int) == subs);
            assert(here.emitted == subs + rest.emitted);
            assert(before + (subs + rest.emitted) == (before + subs) + rest.emitted);
            if short {
                let name = R::name_of(record@);
                assert(name_views(reported@) == named.push(name));
                assert(named + (seq![name] + rest.out_of_range) == named.push(name)
                    + rest.out_of_range);
            }
        }
        i += 1;
    }
    proof {
        assert(all.skip(i as int).len() == 0);
        assert(done + Seq::<R::V>::empty() == done);
        assert(name_views(reported@) + Seq::<Seq<u8>>::empty() == name_views(reported@));
    }
    if complete {
        Ok(reported)
    } else {
        Err(Error::ReadingError { format: R::file_type() })
    }
}

/// The records of `records` whose sequence has at least `minimum` bases.
pub open spec fn long_records<R: SequenceRecord>(records: Seq<R::V>, minimum: u32) -> Seq<R::V>
    decreases records.len(),
{
    if records.len() == 0 {
        Seq::empty()
    } else if R::sequence_of(records[0]).len() >= minimum {
        seq![records[0]] + long_records::<R>(records.drop_first(), minimum)
    } else {
        long_records::<R>(records.drop_first(), minimum)
    }
}

/// The long records of two lists, one after the other, are the long records
/// of the two lists joined.
proof fn lemma_long_records_add<R: SequenceRecord>(a: Seq<R::V>, b: Seq<R::V>, minimum: u32)
    ensures
        long_records::<R>(a + b, minimum) == long_records::<R>(a, minimum) + long_records::<R>(
            b,
            minimum,
        ),
    decreases a.len(),
{
    if a.len() == 0 {
        assert(a + b == b);
        assert(long_records::<R>(a, minimum) + long_records::<R>(b, minimum) == long_records::<R>(
            b,
            minimum,
        ));
    } else {
        lemma_long_records_add::<R>(a.drop_first(), b, minimum);
        assert((a + b).drop_first() == a.drop_first() + b);
        assert((a + b)[0] == a[0]);
        let rest = long_records::<R>(a.drop_first(), minimum);
        let tail = long_records::<R>(b, minimum);
        assert(seq![a[0]] + (rest + tail) == (seq![a[0]] + rest) + tail);
    }
}

/// The records plucked from the long ones of some regions are the long ones
/// of the records plucked from them all.
proof fn lemma_long_regions<R: SequenceRecord>(record: R::V, regions: Seq<Interval>, minimum: u32)
    requires
        R::well_formed(record),
        sliceable(regions, R::sequence_of(record).len()),
    ensures
        regions_of::<R>(record, long_ones(regions, minimum)) == long_records::<R>(
            regions_of::<R>(record, regions),
            minimum,
        ),
    decreases regions.len(),
{
    let all = regions_of::<R>(record, regions);
    if regions.len() == 0 {
        assert(regions_of::<R>(record, long_ones(regions, minimum)) =~= long_records::<R>(
            all,
            minimum,
        ));
    } else {
        let rest = regions.drop_first();
        assert(regions[0].0 <= regions[0].1 <= R::sequence_of(record).len());
        assert(sliceable(rest, R::sequence_of(record).len())) by {
            assert forall|i: int| 0 <= i < rest.len() implies (#[trigger] rest[i]).0 <= rest[i].1
                <= R::sequence_of(record).len() by {
                assert(rest[i] == regions[i + 1]);
            }
        }
        lemma_long_regions::<R>(record, rest, minimum);
        R::lemma_region_of(record, regions[0]);
        assert(all.drop_first() =~= regions_of::<R>(record, rest));
        assert(all[0] == R::region_of(record, regions[0]));
        let kept = long_ones(rest, minimum);
        if long_enough(regions[0], minimum) {
            assert(regions_of::<R>(record, seq![regions[0]] + kept) =~= seq![all[0]]
                + regions_of::<R>(record, kept));
        }
    }
}

/// The minimum length has no part in how a run over records ends: the
/// failure and the records named as reaching beyond their sequence are the
/// same for every minimum, and the records plucked with a minimum are those
/// plucked without one, less the records that are too short.
pub proof fn lemma_minimum_length_only_filters_run<R: SequenceRecord>(
    records: Seq<R::V>,
    complete: bool,
    parts: BadParts,
    minimum: u32,
    not_covered: Threshold,
)
    ensures
        outcome::<R>(records, complete, parts, minimum, not_covered).failure == outcome::<R>(
            records,
            complete,
            parts,
            0,
            not_covered,
        ).failure,
        outcome::<R>(records, complete, parts, minimum, not_covered).out_of_range == outcome::<R>(
            records,
            complete,
            parts,
            0,
            not_covered,
        ).out_of_range,
        outcome::<R>(records, complete, parts, minimum, not_covered).emitted == long_records::<R>(
            outcome::<R>(records, complete, parts, 0, not_covered).emitted,
            minimum,
        ),
    decreases records.len(),
{
    if records.len() > 0 {
        let record = records[0];
        lemma_minimum_length_only_filters_run::<R>(
            records.drop_first(),
            complete,
            parts,
            minimum,
            not_covered,
        );
        if R::well_formed(record) {
            let name = R::name_of(record);
            let len = R::sequence_of(record).len();
            lemma_minimum_length_only_filters(name, len, parts, minimum, not_covered, R::format());
            let without = regions_to_pluck(name, len, parts, 0, not_covered, R::format());
            if without is Ok {
                let all = without->Ok_0.0;
                assert(sliceable(all, len)) by {
                    let id = decode_utf8(name);
                    if spec_classify(parts[id].1, parts[id].0, not_covered)
                        == ReadType::PartiallyBad {
                        lemma_selection_sliceable(parts[id].0, len, 0);
                    }
                }
                lemma_long_regions::<R>(record, all, minimum);
                let rest = outcome::<R>(records.drop_first(), complete, parts, 0, not_covered);
                lemma_long_records_add::<R>(regions_of::<R>(record, all), rest.emitted, minimum);
            }
        }
    }
}

/// Plucks the bad regions out of the reads of FASTA text and appends them to
/// `output` as FASTA text. See [`pluck_records`] for what is plucked and what
/// is reported; the records are those that the FASTA reader finds in `input`.
pub fn fasta<B: BadPart>(
    input: &[u8],
    output: &mut Vec<u8>,
    minimum_bad_region_length: u32,
    badregions: &B,
    not_covered: Threshold,
) -> (r: Result<Vec<Vec<u8>>, Error>)
    ensures
        plucked_from::<FastaRecord>(
            fasta_records(input@).0,
            fasta_records(input@).1,
            old(output)@,
            final(output)@,
            r,
            badregions.bad_parts(),
            minimum_bad_region_length,
            not_covered,
        ),
{
    let (records, failure) = read_fasta(input);
    pluck_records(
        &records,
        failure.is_none(),
        output,
        minimum_bad_region_length,
        badregions,
        not_covered,
    )
}

/// Plucks the bad regions out of the reads of FASTQ text and appends them to
/// `output` as FASTQ text. See [`pluck_records`] for what is plucked and what
/// is reported; the records are those that the FASTQ reader finds in `input`.
pub fn fastq<B: BadPart>(
    input: &[u8],
    output: &mut Vec<u8>,
    minimum_bad_region_length: u32,
    badregions: &B,
    not_covered: Threshold,
) -> (r: Result<Vec<Vec<u8>>, Error>)
    ensures
        plucked_from::<FastqRecord>(
            fastq_records(input@).0,
            fastq_records(input@).1,
            old(output)@,
            final(output)@,
            r,
            badregions.bad_parts(),
            minimum_bad_region_length,
            not_covered,
        ),
{
    let (records, failure) = read_fastq(input);
    pluck_records(
        &records,
        failure.is_none(),
        output,
        minimum_bad_region_length,
        badregions,
        not_covered,
    )
}

/// The minimum length of the bad regions to pluck: the one that the caller
/// gives, or fifty.
pub open spec fn minimum_or_default(minimum_bad_region_length: Option<u32>) -> u32 {
    match minimum_bad_region_length {
        Some(minimum) => minimum,
        None => DEFAULT_MINIMUM_BAD_REGION_LENGTH,
    }
}

/// The minimum length of the bad regions to pluck: the one that the caller
/// gives, or fifty.
pub fn minimum_length(minimum_bad_region_length: Option<u32>) -> (minimum: u32)
    ensures
        minimum == minimum_or_default(minimum_bad_region_length),
{
    match minimum_bad_region_length {
        Some(minimum) => minimum,
        None => DEFAULT_MINIMUM_BAD_REGION_LENGTH,
    }
}

/// The formats of the files from which bad regions can be plucked.
#[derive(Debug, Clone, Copy, PartialEq, Eq, Structural)]
pub enum SequenceFormat {
    Fasta,
    Fastq,
}

/// Whether plucking applies to files of type `input_type`: it does to files
/// of sequences.
pub open spec fn can_be_plucked(input_type: Option<FileType>) -> bool {
    input_type == Some(FileType::Fasta) || input_type == Some(FileType::Fastq)
}

/// Why nothing can be plucked from a file that does not hold sequences: the
/// operation does not apply to a report or to alignments, and the type of any
/// other file is taken as unknown.
pub open spec fn refusal(input_type: Option<FileType>, input_path: Seq<char>) -> ErrorView {
    match input_type {
        Some(FileType::Paf) | Some(FileType::M4) | Some(FileType::Yacrd) => {
            ErrorView::CantRunOperationOnFile {
                operation: "plucking"@,
                filetype: input_type->0,
                filename: input_path,
            }
        },
        _ => ErrorView::UnableToDetectFileFormat { filename: input_path },
    }
}

/// Tells the format in which to pluck from a file of type `input_type`, or
/// refuses the file if it does not hold sequences. `input_path` is the name of
/// the file, which the refusal carries.
pub fn sequence_format(input_type: Option<FileType>, input_path: &str) -> (r: Result<
    SequenceFormat,
    Error,
>)
    ensures
        input_type == Some(FileType::Fasta) ==> r is Ok && r->Ok_0 == SequenceFormat::Fasta,
        input_type == Some(FileType::Fastq) ==> r is Ok && r->Ok_0 == SequenceFormat::Fastq,
        !can_be_plucked(input_type) ==> r is Err && r->Err_0@ == refusal(input_type, input_path@),
{
    match input_type {
        Some(FileType::Fasta) => Ok(SequenceFormat::Fasta),
        Some(FileType::Fastq) => Ok(SequenceFormat::Fastq),
        Some(FileType::Paf) => Err(
            Error::CantRunOperationOnFile {
                operation: "plucking".to_owned(),
                filetype: FileType::Paf,
                filename: input_path.to_owned(),
            },
        ),
        Some(FileType::M4) => Err(
            Error::CantRunOperationOnFile {
                operation: "plucking".to_owned(),
                filetype: FileType::M4,
                filename: input_path.to_owned(),
            },
        ),
        Some(FileType::Yacrd) => Err(
            Error::CantRunOperationOnFile {
                operation: "plucking".to_owned(),
                filetype: FileType::Yacrd,
                filename: input_path.to_owned(),
            },
        ),
        None | Some(FileType::YacrdOverlap) => Err(
            Error::UnableToDetectFileFormat { filename: input_path.to_owned() },
        ),
    }
}

/// Plucks the bad regions out of the reads of a file of sequences and appends
/// them to `output` in the format of the input. `input` is what the file
/// holds, `input_type` the type that was made out for it and `input_path` its
/// name, which the refusal of a file of another type carries. Bad regions
/// shorter than `minimum_bad_region_length`, or than fifty where none is
/// given, are not plucked.
pub fn pluck<B: BadPart>(
    input: &[u8],
    input_type: Option<FileType>,
    input_path: &str,
    output: &mut Vec<u8>,
    minimum_bad_region_length: Option<u32>,
    badregions: &B,
    not_covered: Threshold,
) -> (r: Result<Vec<Vec<u8>>, Error>)
    ensures
        input_type == Some(FileType::Fasta) ==> plucked_from::<FastaRecord>(
            fasta_records(input@).0,
            fasta_records(input@).1,
            old(output)@,
            final(output)@,
            r,
            badregions.bad_parts(),
            minimum_or_default(minimum_bad_region_length),
            not_covered,
        ),
        input_type == Some(FileType::Fastq) ==> plucked_from::<FastqRecord>(
            fastq_records(input@).0,
            fastq_records(input@).1,
            old(output)@,
            final(output)@,
            r,
            badregions.bad_parts(),
            minimum_or_default(minimum_bad_region_length),
            not_covered,
        ),
        !can_be_plucked(input_type) ==> final(output)@ == old(output)@ && r is Err && r->Err_0@
            == refusal(input_type, input_path@),
{
    let minimum = minimum_length(minimum_bad_region_length);
    match sequence_format(input_type, input_path) {
        Ok(SequenceFormat::Fasta) => fasta(input, output, minimum, badregions, not_covered),
        Ok(SequenceFormat::Fastq) => fastq(input, output, minimum, badregions, not_covered),
        Err(e) => Err(e),
    }
}

} // verus!
