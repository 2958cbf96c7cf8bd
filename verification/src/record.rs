//! Sequence records, and the reading and writing of FASTA and FASTQ text,
//! which is left to the `noodles` crate.
use vstd::prelude::*;

verus! {

/// A FASTA record: the name of a sequence and its bases.
#[derive(Debug, PartialEq, Eq)]
pub struct FastaRecord {
    pub name: Vec<u8>,
    pub sequence: Vec<u8>,
}

/// What a [`FastaRecord`] holds.
pub struct FastaRecordView {
    pub name: Seq<u8>,
    pub sequence: Seq<u8>,
}

impl View for FastaRecord {
    type V = FastaRecordView;

    open spec fn view(&self) -> FastaRecordView {
        FastaRecordView { name: self.name@, sequence: self.sequence@ }
    }
}

/// A FASTQ record: the name of a sequence, the free text that follows the name
/// on its line, the bases, and one quality score for each base.
#[derive(Debug, PartialEq, Eq)]
pub struct FastqRecord {
    pub name: Vec<u8>,
    pub description: Vec<u8>,
    pub sequence: Vec<u8>,
    pub quality_scores: Vec<u8>,
}

/// What a [`FastqRecord`] holds.
pub struct FastqRecordView {
    pub name: Seq<u8>,
    pub description: Seq<u8>,
    pub sequence: Seq<u8>,
    pub quality_scores: Seq<u8>,
}

impl View for FastqRecord {
    type V = FastqRecordView;

    open spec fn view(&self) -> FastqRecordView {
        FastqRecordView {
            name: self.name@,
            description: self.description@,
            sequence: self.sequence@,
            quality_scores: self.quality_scores@,
        }
    }
}

/// `std::io::Error`, of which nothing is known here.
#[verifier::external_type_specification]
#[verifier::external_body]
pub struct ExIoError(std::io::Error);

/// What a list of records holds: the view of each.
pub open spec fn views<R: View>(records: Seq<R>) -> Seq<R::V> {
    records.map_values(|r: R| r@)
}

/// What the FASTA reader of `noodles` makes of the text `input`: the records
/// that it reads before the first one that it cannot read, each by its name
/// and its sequence, and whether it read the text to its end.
pub uninterp spec fn fasta_records(input: Seq<u8>) -> (Seq<FastaRecordView>, bool);

/// What the FASTQ reader of `noodles` makes of the text `input`: the records
/// that it reads before the first one that it cannot read, and whether it read
/// the text to its end.
pub uninterp spec fn fastq_records(input: Seq<u8>) -> (Seq<FastqRecordView>, bool);

/// Reads FASTA text with `noodles::fasta::io::Reader::records`, up to the end
/// or to the first record that the reader refuses, whose error is handed
/// back. The name of a record is the first word of its definition line; the
/// rest of that line is dropped.
#[verifier::external_body]
pub(crate) fn read_fasta(input: &[u8]) -> (r: (Vec<FastaRecord>, Option<std::io::Error>))
    ensures
        views(r.0@) == fasta_records(input@).0,
        r.1 is None <==> fasta_records(input@).1,
{
    let mut records = Vec::new();
    for result in noodles::fasta::io::Reader::new(input).records() {
        match result {
            Ok(record) => records.push(
                FastaRecord {
                    name: record.name().to_vec(),
                    sequence: record.sequence().as_ref().to_vec(),
                },
            ),
            Err(e) => return (records, Some(e)),
        }
    }
    (records, None)
}

/// Reads FASTQ text with `noodles::fastq::io::Reader::records`, up to the end
/// or to the first record that the reader refuses, whose error is handed
/// back.
#[verifier::external_body]
pub(crate) fn read_fastq(input: &[u8]) -> (r: (Vec<FastqRecord>, Option<std::io::Error>))
    ensures
        views(r.0@) == fastq_records(input@).0,
        r.1 is None <==> fastq_records(input@).1,
{
    let mut records = Vec::new();
    for result in noodles::fastq::io::Reader::new(input).records() {
        match result {
            Ok(record) => records.push(
                FastqRecord {
                    name: record.name().to_vec(),
                    description: record.description().to_vec(),
                    sequence: record.sequence().to_vec(),
                    quality_scores: record.quality_scores().to_vec(),
                },
            ),
            Err(e) => return (records, Some(e)),
        }
    }
    (records, None)
}

/// The bases of a sequence in lines of eighty, each line ended by a line feed.
pub open spec fn wrapped(sequence: Seq<u8>) -> Seq<u8>
    decreases sequence.len(),
{
    if sequence.len() == 0 {
        Seq::empty()
    } else if sequence.len() <= 80 {
        sequence + seq![10u8]
    } else {
        sequence.take(80) + seq![10u8] + wrapped(sequence.skip(80))
    }
}

/// A FASTA record as text: `>`, the name and a line feed, then the sequence
/// in lines of eighty bases.
pub open spec fn fasta_record_bytes(record: FastaRecordView) -> Seq<u8> {
    seq![62u8] + record.name + seq![10u8] + wrapped(record.sequence)
}

/// A FASTQ record as text, in four lines: `@` and the name, followed by a
/// space and the description if there is one; the sequence; `+`; the quality
/// scores.
pub open spec fn fastq_record_bytes(record: FastqRecordView) -> Seq<u8> {
    let title = if record.description.len() == 0 {
        record.name
    } else {
        record.name + seq![32u8] + record.description
    };
    seq![64u8] + title + seq![10u8] + record.sequence + seq![10u8, 43u8, 10u8] + record.quality_scores
        + seq![10u8]
}

/// Appends a FASTA record to `output` with
/// `noodles::fasta::io::Writer::write_record`. The writer fails only where
/// its sink does, and a vector takes whatever is written to it: so the call
/// succeeds, and `output` has grown by the text of the record.
#[verifier::external_body]
pub(crate) fn write_fasta_record(output: &mut Vec<u8>, record: &FastaRecord) -> (r: Result<
    (),
    std::io::Error,
>)
    ensures
        r is Ok,
        final(output)@ == old(output)@ + fasta_record_bytes(record@),
{
    let definition = noodles::fasta::record::Definition::new(record.name.clone(), None);
    let sequence = noodles::fasta::record::Sequence::from(record.sequence.clone());
    let record = noodles::fasta::Record::new(definition, sequence);
    noodles::fasta::io::Writer::new(output).write_record(&record)
}

/// Appends a FASTQ record to `output` with
/// `noodles::fastq::io::Writer::write_record`. The writer fails only where
/// its sink does, and a vector takes whatever is written to it: so the call
/// succeeds, and `output` has grown by the text of the record.
#[verifier::external_body]
pub(crate) fn write_fastq_record(output: &mut Vec<u8>, record: &FastqRecord) -> (r: Result<
    (),
    std::io::Error,
>)
    ensures
        r is Ok,
        final(output)@ == old(output)@ + fastq_record_bytes(record@),
{
    let definition = noodles::fastq::record::Definition::new(
        record.name.clone(),
        record.description.clone(),
    );
    let record = noodles::fastq::Record::new(
        definition,
        record.sequence.clone(),
        record.quality_scores.clone(),
    );
    noodles::fastq::io::Writer::new(output).write_record(&record)
}

} // verus!
