use yacrd::editor::pluck::{
    fasta, fastq, find_regions, make_region_name, minimum_length, pluck, pluck_record,
    pluck_records, push_decimal, select_regions, sequence_format, SequenceFormat, SequenceRecord,
    DEFAULT_MINIMUM_BAD_REGION_LENGTH,
};
use yacrd::editor::Threshold;
use yacrd::error::Error;
use yacrd::reads2ovl::{FullMemory, Reads2Ovl};
use yacrd::record::{FastaRecord, FastqRecord};
use yacrd::stack::{BadPart, FromOverlap};
use yacrd::util::FileType;

fn share(numerator: u32, denominator: u32) -> Threshold {
    Threshold::new(numerator, denominator).unwrap()
}

/// Read `1` of 22 bases with three bad regions of four, read `short` whose
/// record is shorter than its length says, read `none` covered entirely, read
/// `all` without overlap, and read `empty` of length zero.
fn engine() -> FromOverlap<FullMemory> {
    let mut store = FullMemory::new(8192);
    store.add_length("1".to_string(), 22);
    store.add_overlap("1".to_string(), (4, 9)).unwrap();
    store.add_overlap("1".to_string(), (13, 18)).unwrap();
    store.add_length("short".to_string(), 100);
    store.add_overlap("short".to_string(), (2, 8)).unwrap();
    store.add_overlap("short".to_string(), (10, 96)).unwrap();
    store.add_length("none".to_string(), 4);
    store.add_overlap("none".to_string(), (0, 4)).unwrap();
    store.add_length("all".to_string(), 4);
    store.add_overlap("empty".to_string(), (0, 4)).unwrap();
    let mut engine = FromOverlap::new(store);
    engine.compute_all_bad_part();
    engine
}

fn fasta_record(name: &str, sequence: &str) -> FastaRecord {
    FastaRecord { name: name.as_bytes().to_vec(), sequence: sequence.as_bytes().to_vec() }
}

fn fastq_record(name: &str, description: &str, sequence: &str, quality: &str) -> FastqRecord {
    FastqRecord {
        name: name.as_bytes().to_vec(),
        description: description.as_bytes().to_vec(),
        sequence: sequence.as_bytes().to_vec(),
        quality_scores: quality.as_bytes().to_vec(),
    }
}

#[test]
fn numbers_are_written_in_base_ten() {
    let mut out = b"x".to_vec();
    push_decimal(&mut out, 0);
    assert_eq!(out, b"x0");
    push_decimal(&mut out, 7);
    push_decimal(&mut out, 10);
    push_decimal(&mut out, 4294967295);
    push_decimal(&mut out, 1000);
    assert_eq!(out, b"x071042949672951000");
}

#[test]
fn a_plucked_record_is_named_after_its_read_and_region() {
    assert_eq!(make_region_name(b"1", (0, 4)), b"1_0_4");
    assert_eq!(make_region_name(b"read_7", (18, 22)), b"read_7_18_22");
    assert_eq!(make_region_name(b"", (100, 4294967295)), b"_100_4294967295");
}

#[test]
fn the_default_minimum_is_fifty() {
    assert_eq!(DEFAULT_MINIMUM_BAD_REGION_LENGTH, 50);
    assert_eq!(minimum_length(None), 50);
    assert_eq!(minimum_length(Some(2)), 2);
    assert_eq!(minimum_length(Some(0)), 0);
}

#[test]
fn bad_regions_are_plucked_from_files_of_sequences_only() {
    assert_eq!(sequence_format(Some(FileType::Fasta), "reads"), Ok(SequenceFormat::Fasta));
    assert_eq!(sequence_format(Some(FileType::Fastq), "reads"), Ok(SequenceFormat::Fastq));
    for filetype in [FileType::Paf, FileType::M4, FileType::Yacrd] {
        assert_eq!(
            sequence_format(Some(filetype), "overlaps"),
            Err(Error::CantRunOperationOnFile {
                operation: "plucking".to_string(),
                filetype,
                filename: "overlaps".to_string(),
            })
        );
    }
    for filetype in [None, Some(FileType::YacrdOverlap)] {
        assert_eq!(
            sequence_format(filetype, "reads"),
            Err(Error::UnableToDetectFileFormat { filename: "reads".to_string() })
        );
    }
}

#[test]
fn a_record_tells_its_name_its_length_and_its_format() {
    let record = fasta_record("1", "ACTGGGGGGACTGGGGGGACTG");
    assert_eq!(record.name(), b"1");
    assert_eq!(record.sequence_len(), 22);
    assert!(record.is_well_formed());
    assert_eq!(FastaRecord::file_type(), FileType::Fasta);
    assert_eq!(record.cut((9, 13)), fasta_record("1_9_13", "ACTG"));
    let mut output = b">x\nA\n".to_vec();
    assert!(record.cut((18, 22)).write(&mut output).is_ok());
    assert_eq!(output, b">x\nA\n>1_18_22\nACTG\n");
    let record = fastq_record("1", "first read", "ACTGGGGGGACTGGGGGGACTG", "0123456789abcdefghijkl");
    assert_eq!(record.name(), b"1");
    assert_eq!(record.sequence_len(), 22);
    assert!(record.is_well_formed());
    assert!(!fastq_record("1", "", "ACTG", "???").is_well_formed());
    assert_eq!(FastqRecord::file_type(), FileType::Fastq);
    assert_eq!(record.cut((9, 13)), fastq_record("1_9_13", "first read", "ACTG", "9abc"));
    let mut output = Vec::new();
    assert!(record.cut((0, 0)).write(&mut output).is_ok());
    assert_eq!(output, b"@1_0_0 first read\n\n+\n\n");
}

#[test]
fn a_record_of_no_base_is_written_without_a_line_of_sequence() {
    let mut output = Vec::new();
    assert!(fasta_record("1", "ACTG").cut((2, 2)).write(&mut output).is_ok());
    assert_eq!(output, b">1_2_2\n");
    let mut output = Vec::new();
    assert!(fasta_record("1", &"A".repeat(160)).cut((0, 160)).write(&mut output).is_ok());
    assert_eq!(output, format!(">1_0_160\n{}\n{}\n", "A".repeat(80), "A".repeat(80)).as_bytes());
}

#[test]
fn regions_are_selected_by_length() {
    let regions = [(0, 4), (9, 12), (13, 13), (18, 22)];
    assert_eq!(select_regions(&regions, 22, 0), (vec![(0, 4), (9, 12), (13, 13), (18, 22)], false));
    assert_eq!(select_regions(&regions, 22, 3), (vec![(0, 4), (9, 12), (18, 22)], false));
    assert_eq!(select_regions(&regions, 22, 4), (vec![(0, 4), (18, 22)], false));
    assert_eq!(select_regions(&regions, 22, 5), (vec![], false));
    assert_eq!(select_regions(&[], 22, 0), (vec![], false));
}

#[test]
fn selection_stops_at_the_first_region_outside_the_sequence() {
    let regions = [(0, 4), (9, 13), (18, 22), (30, 31)];
    assert_eq!(select_regions(&regions, 22, 2), (vec![(0, 4), (9, 13), (18, 22)], true));
    assert_eq!(select_regions(&regions, 21, 2), (vec![(0, 4), (9, 13)], true));
    assert_eq!(select_regions(&regions, 12, 2), (vec![(0, 4)], true));
    assert_eq!(select_regions(&regions, 3, 2), (vec![], true));
    assert_eq!(select_regions(&regions, 31, 2), (vec![(0, 4), (9, 13), (18, 22)], false));
    // Regions after the one outside the sequence are left out too.
    assert_eq!(select_regions(&[(0, 4), (50, 60), (9, 13)], 22, 2), (vec![(0, 4)], true));
    // A region that ends with the sequence lies inside it.
    assert_eq!(select_regions(&[(18, 22)], 22, 4), (vec![(18, 22)], false));
    assert_eq!(select_regions(&[(22, 22)], 22, 0), (vec![(22, 22)], false));
    assert_eq!(select_regions(&[(23, 23)], 22, 0), (vec![], true));
}

#[test]
fn a_region_that_ends_before_it_starts_is_never_selected() {
    assert_eq!(select_regions(&[(9, 4), (0, 4)], 22, 0), (vec![(0, 4)], false));
}

#[test]
fn regions_of_a_partially_bad_read() {
    let engine = engine();
    let found = find_regions(b"1", 22, 2, &engine, share(8, 10), FileType::Fasta);
    assert_eq!(found, Ok((vec![(0, 4), (9, 13), (18, 22)], false)));
}

#[test]
fn bad_regions_of_a_fasta_record() {
    let engine = engine();
    let record = fasta_record("1", "ACTGGGGGGACTGGGGGGACTG");
    let plucked = pluck_record(&record, 2, &engine, share(8, 10));
    assert_eq!(
        plucked,
        Ok((
            vec![
                fasta_record("1_0_4", "ACTG"),
                fasta_record("1_9_13", "ACTG"),
                fasta_record("1_18_22", "ACTG"),
            ],
            false
        ))
    );
}

#[test]
fn bad_regions_of_a_fastq_record_keep_description_and_quality() {
    let engine = engine();
    let record = fastq_record("1", "first read", "ACTGGGGGGACTGGGGGGACTG", "0123456789abcdefghijkl");
    let plucked = pluck_record(&record, 2, &engine, share(8, 10));
    assert_eq!(
        plucked,
        Ok((
            vec![
                fastq_record("1_0_4", "first read", "ACTG", "0123"),
                fastq_record("1_9_13", "first read", "ACTG", "9abc"),
                fastq_record("1_18_22", "first read", "ACTG", "ijkl"),
            ],
            false
        ))
    );
}

#[test]
fn the_minimum_length_sorts_regions_out_but_not_reads() {
    let engine = engine();
    let record = fasta_record("1", "ACTGGGGGGACTGGGGGGACTG");
    let all = pluck_record(&record, 0, &engine, share(8, 10)).unwrap();
    for minimum in [1, 2, 4, 5, 50, 4294967295] {
        let some = pluck_record(&record, minimum, &engine, share(8, 10)).unwrap();
        let long: Vec<FastaRecord> = all
            .0
            .iter()
            .filter(|r| r.sequence.len() >= minimum as usize)
            .map(|r| FastaRecord { name: r.name.clone(), sequence: r.sequence.clone() })
            .collect();
        assert_eq!(some.0, long);
        assert_eq!(some.1, all.1);
    }
    assert_eq!(pluck_record(&record, 50, &engine, share(8, 10)), Ok((vec![], false)));
    // A read that is not covered stays so, whatever the minimum.
    for minimum in [0, 2, 50] {
        assert_eq!(pluck_record(&record, minimum, &engine, share(6, 11)), Ok((vec![], false)));
    }
}

#[test]
fn a_read_that_is_not_covered_is_skipped() {
    let engine = engine();
    let record = fasta_record("all", "ACTG");
    assert_eq!(pluck_record(&record, 0, &engine, share(8, 10)), Ok((vec![], false)));
    assert_eq!(pluck_record(&record, 0, &engine, share(1, 1)), Ok((vec![], false)));
    let record = fastq_record("all", "", "ACTG", "????");
    assert_eq!(pluck_record(&record, 0, &engine, share(1, 1)), Ok((vec![], false)));
}

#[test]
fn a_read_that_is_fully_covered_is_skipped() {
    let engine = engine();
    let record = fasta_record("none", "ACTG");
    assert_eq!(pluck_record(&record, 0, &engine, share(8, 10)), Ok((vec![], false)));
    let record = fastq_record("none", "", "ACTG", "????");
    assert_eq!(pluck_record(&record, 0, &engine, share(8, 10)), Ok((vec![], false)));
}

#[test]
fn a_record_shorter_than_its_read_keeps_what_lies_inside_it() {
    let engine = engine();
    // The bad regions of `short` are [0, 2), [8, 10) and [96, 100).
    let record = fasta_record("short", "ACGTACGTACGT");
    assert_eq!(
        pluck_record(&record, 1, &engine, share(8, 10)),
        Ok((vec![fasta_record("short_0_2", "AC"), fasta_record("short_8_10", "AC")], true))
    );
    let record = fasta_record("short", "ACGTACGTA");
    assert_eq!(
        pluck_record(&record, 1, &engine, share(8, 10)),
        Ok((vec![fasta_record("short_0_2", "AC")], true))
    );
    let record = fastq_record("short", "", "ACGTACGTAC", "0123456789");
    assert_eq!(
        pluck_record(&record, 1, &engine, share(8, 10)),
        Ok((vec![fastq_record("short_0_2", "", "AC", "01"), fastq_record("short_8_10", "", "AC", "89")], true))
    );
}

#[test]
fn a_record_of_an_unknown_read_fails() {
    let engine = engine();
    let record = fasta_record("2", "ACTG");
    assert_eq!(
        pluck_record(&record, 2, &engine, share(8, 10)),
        Err(Error::UnknownRead { id: "2".to_string() })
    );
    let record = fastq_record("2", "", "ACTG", "????");
    assert_eq!(
        pluck_record(&record, 2, &engine, share(8, 10)),
        Err(Error::UnknownRead { id: "2".to_string() })
    );
}

#[test]
fn a_record_of_a_read_of_length_zero_fails() {
    let engine = engine();
    let record = fasta_record("empty", "ACTG");
    assert_eq!(
        pluck_record(&record, 2, &engine, share(8, 10)),
        Err(Error::InvalidLength { id: "empty".to_string() })
    );
}

#[test]
fn a_name_that_is_not_text_fails() {
    let engine = engine();
    let record = FastaRecord { name: vec![0xFF, 0x31], sequence: b"ACTG".to_vec() };
    assert_eq!(
        pluck_record(&record, 2, &engine, share(8, 10)),
        Err(Error::ReadingError { format: FileType::Fasta })
    );
    assert_eq!(
        find_regions(&[0xC3], 4, 2, &engine, share(8, 10), FileType::Fastq),
        Err(Error::ReadingError { format: FileType::Fastq })
    );
}

#[test]
fn names_beyond_ascii_are_looked_up_as_text() {
    let mut store = FullMemory::new(8192);
    store.add_length("lecture\u{e9}".to_string(), 8);
    store.add_overlap("lecture\u{e9}".to_string(), (0, 6)).unwrap();
    let mut engine = FromOverlap::new(store);
    engine.compute_all_bad_part();
    let record = fasta_record("lecture\u{e9}", "ACGTACGT");
    assert_eq!(
        pluck_record(&record, 1, &engine, share(8, 10)),
        Ok((vec![fasta_record("lecture\u{e9}_6_8", "GT")], false))
    );
}

#[test]
fn a_fastq_record_needs_a_quality_score_for_each_base() {
    let engine = engine();
    let record = fastq_record("1", "", "ACTGGGGGGACTGGGGGGACTG", "????");
    assert_eq!(
        pluck_record(&record, 2, &engine, share(8, 10)),
        Err(Error::ReadingError { format: FileType::Fastq })
    );
    // The record is refused before its read is looked up.
    let record = fastq_record("2", "", "ACTG", "?????");
    assert_eq!(
        pluck_record(&record, 2, &engine, share(8, 10)),
        Err(Error::ReadingError { format: FileType::Fastq })
    );
}

#[test]
fn records_are_plucked_in_order_and_written_as_fasta() {
    let engine = engine();
    let records = vec![
        fasta_record("none", "ACTG"),
        fasta_record("1", "ACTGGGGGGACTGGGGGGACTG"),
        fasta_record("short", "ACGTACGTACGT"),
        fasta_record("all", "ACTG"),
    ];
    let mut output = b"kept\n".to_vec();
    let reported = pluck_records(&records, true, &mut output, 2, &engine, share(8, 10));
    assert_eq!(reported, Ok(vec![b"short".to_vec()]));
    assert_eq!(
        output,
        b"kept\n>1_0_4\nACTG\n>1_9_13\nACTG\n>1_18_22\nACTG\n>short_0_2\nAC\n>short_8_10\nAC\n"
    );
}

#[test]
fn records_are_plucked_in_order_and_written_as_fastq() {
    let engine = engine();
    let records = vec![
        fastq_record("short", "too short", "ACGTACGTACGT", "0123456789ab"),
        fastq_record("1", "", "ACTGGGGGGACTGGGGGGACTG", "0123456789abcdefghijkl"),
    ];
    let mut output = Vec::new();
    let reported = pluck_records(&records, true, &mut output, 4, &engine, share(8, 10));
    assert_eq!(reported, Ok(vec![b"short".to_vec()]));
    assert_eq!(output, b"@1_0_4\nACTG\n+\n0123\n@1_9_13\nACTG\n+\n9abc\n@1_18_22\nACTG\n+\nijkl\n");
    let mut output = Vec::new();
    let reported = pluck_records(&records, true, &mut output, 2, &engine, share(8, 10));
    assert_eq!(reported, Ok(vec![b"short".to_vec()]));
    assert_eq!(
        output,
        b"@short_0_2 too short\nAC\n+\n01\n@short_8_10 too short\nAC\n+\n89\n@1_0_4\nACTG\n+\n0123\n@1_9_13\nACTG\n+\n9abc\n@1_18_22\nACTG\n+\nijkl\n"
    );
}

#[test]
fn the_first_record_that_fails_ends_the_run() {
    let engine = engine();
    let records = vec![
        fasta_record("1", "ACTGGGGGGACTGGGGGGACTG"),
        fasta_record("2", "ACTG"),
        fasta_record("short", "ACGTACGTACGT"),
    ];
    let mut output = Vec::new();
    let reported = pluck_records(&records, true, &mut output, 2, &engine, share(8, 10));
    assert_eq!(reported, Err(Error::UnknownRead { id: "2".to_string() }));
    assert_eq!(output, b">1_0_4\nACTG\n>1_9_13\nACTG\n>1_18_22\nACTG\n");
}

#[test]
fn records_read_before_the_file_broke_are_plucked_all_the_same() {
    let engine = engine();
    let records = vec![fasta_record("1", "ACTGGGGGGACTGGGGGGACTG")];
    let mut output = Vec::new();
    let reported = pluck_records(&records, false, &mut output, 2, &engine, share(8, 10));
    assert_eq!(reported, Err(Error::ReadingError { format: FileType::Fasta }));
    assert_eq!(output, b">1_0_4\nACTG\n>1_9_13\nACTG\n>1_18_22\nACTG\n");
    let records = vec![fastq_record("1", "", "ACTGGGGGGACTGGGGGGACTG", "0123456789abcdefghijkl")];
    let mut output = Vec::new();
    let reported = pluck_records(&records, false, &mut output, 50, &engine, share(8, 10));
    assert_eq!(reported, Err(Error::ReadingError { format: FileType::Fastq }));
    assert_eq!(output, b"");
    let mut output = Vec::new();
    assert_eq!(pluck_records::<FastaRecord, _>(&vec![], true, &mut output, 2, &engine, share(8, 10)), Ok(vec![]));
    assert_eq!(
        pluck_records::<FastaRecord, _>(&vec![], false, &mut output, 2, &engine, share(8, 10)),
        Err(Error::ReadingError { format: FileType::Fasta })
    );
}

#[test]
fn fasta_text_is_read_record_by_record() {
    let engine = engine();
    // Sequences may span lines; what follows the name on its line is dropped.
    let input = b">none fully covered\nACTG\n>1 the read\nACTGGGGGG\nACTGGGGGGACTG\n\n>all\nAC\nTG\n";
    let mut output = Vec::new();
    let reported = fasta(input, &mut output, 4, &engine, share(8, 10));
    assert_eq!(reported, Ok(vec![]));
    assert_eq!(output, b">1_0_4\nACTG\n>1_9_13\nACTG\n>1_18_22\nACTG\n");
}

#[test]
fn fasta_text_that_cannot_be_read_fails_after_the_records_before() {
    let engine = engine();
    let input = b">1\nACTGGGGGGACTGGGGGGACTG\n>\nACTG\n>all\nACTG\n";
    let mut output = Vec::new();
    let reported = fasta(input, &mut output, 2, &engine, share(8, 10));
    assert_eq!(reported, Err(Error::ReadingError { format: FileType::Fasta }));
    assert_eq!(output, b">1_0_4\nACTG\n>1_9_13\nACTG\n>1_18_22\nACTG\n");
    let mut output = Vec::new();
    let reported = fasta(b"ACTG\n", &mut output, 2, &engine, share(8, 10));
    assert_eq!(reported, Err(Error::ReadingError { format: FileType::Fasta }));
    assert_eq!(output, b"");
}

#[test]
fn empty_text_holds_no_record() {
    let engine = engine();
    let mut output = Vec::new();
    assert_eq!(fasta(b"", &mut output, 2, &engine, share(8, 10)), Ok(vec![]));
    assert_eq!(fastq(b"", &mut output, 2, &engine, share(8, 10)), Ok(vec![]));
    assert_eq!(output, b"");
}

#[test]
fn fastq_text_is_read_record_by_record() {
    let engine = engine();
    let input = b"@none\nACTG\n+\n????\n@1 first\tread\nACTGGGGGGACTGGGGGGACTG\n+1\n0123456789abcdefghijkl\n";
    let mut output = Vec::new();
    let reported = fastq(input, &mut output, 4, &engine, share(8, 10));
    assert_eq!(reported, Ok(vec![]));
    assert_eq!(
        output,
        b"@1_0_4 first\tread\nACTG\n+\n0123\n@1_9_13 first\tread\nACTG\n+\n9abc\n@1_18_22 first\tread\nACTG\n+\nijkl\n"
    );
}

#[test]
fn fastq_text_that_cannot_be_read_fails_after_the_records_before() {
    let engine = engine();
    let input = b"@1\nACTGGGGGGACTGGGGGGACTG\n+\n0123456789abcdefghijkl\n@all\nACTG\n????\n";
    let mut output = Vec::new();
    let reported = fastq(input, &mut output, 4, &engine, share(8, 10));
    assert_eq!(reported, Err(Error::ReadingError { format: FileType::Fastq }));
    assert_eq!(output, b"@1_0_4\nACTG\n+\n0123\n@1_9_13\nACTG\n+\n9abc\n@1_18_22\nACTG\n+\nijkl\n");
    let mut output = Vec::new();
    let reported = fastq(b">1\nACTG\n", &mut output, 2, &engine, share(8, 10));
    assert_eq!(reported, Err(Error::ReadingError { format: FileType::Fastq }));
}

#[test]
fn fastq_text_with_too_few_quality_scores_fails() {
    let engine = engine();
    let input = b"@1\nACTGGGGGGACTGGGGGGACTG\n+\n????\n";
    let mut output = Vec::new();
    let reported = fastq(input, &mut output, 2, &engine, share(8, 10));
    assert_eq!(reported, Err(Error::ReadingError { format: FileType::Fastq }));
    assert_eq!(output, b"");
}

#[test]
fn long_sequences_are_written_in_lines_of_eighty() {
    let mut store = FullMemory::new(8192);
    store.add_length("long".to_string(), 400);
    store.add_overlap("long".to_string(), (0, 10)).unwrap();
    store.add_overlap("long".to_string(), (171, 180)).unwrap();
    store.add_overlap("long".to_string(), (260, 399)).unwrap();
    let mut engine = FromOverlap::new(store);
    engine.compute_all_bad_part();
    let sequence: String = "ACGTTGCAAC".repeat(40);
    let mut input = b">long\n".to_vec();
    input.extend_from_slice(sequence.as_bytes());
    input.extend_from_slice(b"\n");
    let mut output = Vec::new();
    let reported = fasta(&input, &mut output, 1, &engine, share(8, 10));
    assert_eq!(reported, Ok(vec![]));
    // The bad regions are [10, 171) of 161 bases, [180, 260) of 80 and [399, 400) of one.
    let mut expected = b">long_10_171\n".to_vec();
    expected.extend_from_slice(&sequence.as_bytes()[10..90]);
    expected.extend_from_slice(b"\n");
    expected.extend_from_slice(&sequence.as_bytes()[90..170]);
    expected.extend_from_slice(b"\n");
    expected.extend_from_slice(&sequence.as_bytes()[170..171]);
    expected.extend_from_slice(b"\n>long_180_260\n");
    expected.extend_from_slice(&sequence.as_bytes()[180..260]);
    expected.extend_from_slice(b"\n>long_399_400\n");
    expected.extend_from_slice(&sequence.as_bytes()[399..400]);
    expected.extend_from_slice(b"\n");
    assert_eq!(output, expected);
}

#[test]
fn a_region_of_no_width_is_written_without_sequence() {
    let engine = engine();
    // Not a list that the engine would give, but one that a caller may hold.
    let regions = select_regions(&[(2, 2)], 4, 0);
    assert_eq!(regions, (vec![(2, 2)], false));
    let mut store = FullMemory::new(8192);
    store.add_length("1".to_string(), 22);
    let _ = engine;
    let mut engine = FromOverlap::new(store);
    engine.compute_all_bad_part();
    // Without overlap the read is one bad region, and not covered at any threshold.
    let mut output = Vec::new();
    let reported = fasta(b">1\nACTGGGGGGACTGGGGGGACTG\n", &mut output, 0, &engine, share(1, 1));
    assert_eq!(reported, Ok(vec![]));
    assert_eq!(output, b"");
}

#[test]
fn plucking_takes_the_format_of_the_file() {
    let engine = engine();
    let fasta_text = b">1\nACTGGGGGGACTGGGGGGACTG\n";
    let fastq_text = b"@1\nACTGGGGGGACTGGGGGGACTG\n+\n??????????????????????\n";
    let mut output = Vec::new();
    let reported =
        pluck(fasta_text, Some(FileType::Fasta), "reads.fasta", &mut output, Some(2), &engine, share(8, 10));
    assert_eq!(reported, Ok(vec![]));
    assert_eq!(output, b">1_0_4\nACTG\n>1_9_13\nACTG\n>1_18_22\nACTG\n");
    let mut output = Vec::new();
    let reported =
        pluck(fastq_text, Some(FileType::Fastq), "reads.fastq", &mut output, Some(2), &engine, share(8, 10));
    assert_eq!(reported, Ok(vec![]));
    assert_eq!(output, b"@1_0_4\nACTG\n+\n????\n@1_9_13\nACTG\n+\n????\n@1_18_22\nACTG\n+\n????\n");
}

#[test]
fn plucking_without_a_minimum_keeps_regions_of_fifty_and_more() {
    let mut store = FullMemory::new(8192);
    store.add_length("r".to_string(), 200);
    store.add_overlap("r".to_string(), (49, 100)).unwrap();
    store.add_overlap("r".to_string(), (150, 200)).unwrap();
    let mut engine = FromOverlap::new(store);
    engine.compute_all_bad_part();
    let sequence = "A".repeat(200);
    let input = format!(">r\n{}\n", sequence);
    // The bad regions are [0, 49) and [100, 150).
    let mut output = Vec::new();
    let reported =
        pluck(input.as_bytes(), Some(FileType::Fasta), "r.fa", &mut output, None, &engine, share(8, 10));
    assert_eq!(reported, Ok(vec![]));
    assert_eq!(output, format!(">r_100_150\n{}\n", "A".repeat(50)).as_bytes());
    let mut output = Vec::new();
    let reported =
        pluck(input.as_bytes(), Some(FileType::Fasta), "r.fa", &mut output, Some(49), &engine, share(8, 10));
    assert_eq!(reported, Ok(vec![]));
    assert_eq!(
        output,
        format!(">r_0_49\n{}\n>r_100_150\n{}\n", "A".repeat(49), "A".repeat(50)).as_bytes()
    );
}

#[test]
fn plucking_does_not_apply_to_alignments_and_reports() {
    let engine = engine();
    for filetype in [FileType::Paf, FileType::M4, FileType::Yacrd] {
        let mut output = b"kept".to_vec();
        let reported = pluck(b">1\nACTG\n", Some(filetype), "overlaps", &mut output, None, &engine, share(8, 10));
        assert_eq!(
            reported,
            Err(Error::CantRunOperationOnFile {
                operation: "plucking".to_string(),
                filetype,
                filename: "overlaps".to_string(),
            })
        );
        assert_eq!(output, b"kept");
    }
}

#[test]
fn plucking_needs_the_type_of_the_file() {
    let engine = engine();
    for filetype in [None, Some(FileType::YacrdOverlap)] {
        let mut output = Vec::new();
        let reported = pluck(b">1\nACTG\n", filetype, "reads", &mut output, None, &engine, share(8, 10));
        assert_eq!(reported, Err(Error::UnableToDetectFileFormat { filename: "reads".to_string() }));
        assert_eq!(output, b"");
    }
}

/// A sequence of numbers that looks random and is the same at each run.
struct Noise(u64);

impl Noise {
    fn next(&mut self, below: usize) -> usize {
        self.0 = self.0.wrapping_mul(6364136223846793005).wrapping_add(1442695040888963407);
        ((self.0 >> 33) as usize) % below
    }

    fn text(&mut self, alphabet: &[u8]) -> Vec<u8> {
        let len = self.next(40);
        (0..len).map(|_| alphabet[self.next(alphabet.len())]).collect()
    }
}

#[test]
fn any_text_is_read_to_a_result() {
    let engine = engine();
    let alphabet = b">@+\n\n\r \t1_ACGT?allnoe\xC3\xA9\xFF";
    let mut noise = Noise(22);
    for _ in 0..20000 {
        let input = noise.text(alphabet);
        let mut output = Vec::new();
        let ended = fasta(&input, &mut output, 0, &engine, share(8, 10));
        assert!(!matches!(ended, Err(Error::WritingError { .. })));
        let mut output = Vec::new();
        let ended = fastq(&input, &mut output, 0, &engine, share(8, 10));
        assert!(!matches!(ended, Err(Error::WritingError { .. })));
    }
}

#[test]
fn what_is_plucked_can_be_read_back() {
    let engine = engine();
    let mut plucked = Vec::new();
    let input = b">1\nACTGGGGGGACTGGGGGGACTG\n>short\nACGTACGTACGT\n";
    assert_eq!(fasta(input, &mut plucked, 1, &engine, share(8, 10)), Ok(vec![b"short".to_vec()]));
    assert_eq!(plucked, b">1_0_4\nACTG\n>1_9_13\nACTG\n>1_18_22\nACTG\n>short_0_2\nAC\n>short_8_10\nAC\n");
    // The names of the records plucked are those of no read of the store.
    let mut again = Vec::new();
    assert_eq!(
        fasta(&plucked, &mut again, 1, &engine, share(8, 10)),
        Err(Error::UnknownRead { id: "1_0_4".to_string() })
    );
    assert_eq!(again, b"");
}

fn engine_of(id: &str, length: u32, overlaps: &[(u32, u32)]) -> FromOverlap<FullMemory> {
    let mut store = FullMemory::new(8192);
    store.add_length(id.to_string(), length);
    for overlap in overlaps {
        store.add_overlap(id.to_string(), *overlap).unwrap();
    }
    let mut engine = FromOverlap::new(store);
    engine.compute_all_bad_part();
    engine
}

#[test]
fn a_region_too_short_is_skipped_and_the_later_ones_are_plucked() {
    let engine = engine_of("1", 22, &[(1, 9), (13, 18)]);
    let input = b"@1 desc\nACTGGGGGGACTGGGGGGACTG\n+\nABCDEFGHIJKLMNOPQRSTUV\n";
    let mut output = Vec::new();
    assert_eq!(fastq(input, &mut output, 4, &engine, share(8, 10)), Ok(vec![]));
    assert_eq!(output, b"@1_9_13 desc\nACTG\n+\nJKLM\n@1_18_22 desc\nACTG\n+\nSTUV\n");
}

#[test]
fn three_bad_regions_of_one_read_alone_in_its_file() {
    let engine = engine_of("1", 22, &[(4, 9), (13, 18)]);
    let mut output = Vec::new();
    let ended = fasta(b">1\nACTGGGGGGACTGGGGGGACTG\n", &mut output, 2, &engine, share(8, 10));
    assert_eq!(ended, Ok(vec![]));
    assert_eq!(output, b">1_0_4\nACTG\n>1_9_13\nACTG\n>1_18_22\nACTG\n");
    let mut output = Vec::new();
    let ended = fasta(b">1\nACTGGGGGGACTGGGGGGACTG\n", &mut output, 50, &engine, share(8, 10));
    assert_eq!(ended, Ok(vec![]));
    assert_eq!(output, b"");
    let input = b"@1\nACTGGGGGGACTGGGGGGACTG\n+\n??????????????????????\n";
    let mut output = Vec::new();
    assert_eq!(fastq(input, &mut output, 2, &engine, share(8, 10)), Ok(vec![]));
    assert_eq!(output, b"@1_0_4\nACTG\n+\n????\n@1_9_13\nACTG\n+\n????\n@1_18_22\nACTG\n+\n????\n");
}

#[test]
fn one_bad_region_in_the_middle_of_a_read_alone_in_its_file() {
    let engine = engine_of("1", 22, &[(0, 4), (18, 22)]);
    assert_eq!(engine.get_bad_part("1"), Ok(&(vec![(4, 18)], 22)));
    let mut output = Vec::new();
    let ended = fasta(b">1\nACTGGGGGGACTGGGGGGACTG\n", &mut output, 2, &engine, share(8, 10));
    assert_eq!(ended, Ok(vec![]));
    assert_eq!(output, b">1_4_18\nGGGGGACTGGGGGG\n");
    let input = b"@1\nACTGGGGGGACTGGGGGGACTG\n+\n??????????????????????\n";
    let mut output = Vec::new();
    assert_eq!(fastq(input, &mut output, 2, &engine, share(8, 10)), Ok(vec![]));
    assert_eq!(output, b"@1_4_18\nGGGGGACTGGGGGG\n+\n??????????????\n");
    let mut output = Vec::new();
    assert_eq!(fastq(input, &mut output, 50, &engine, share(8, 10)), Ok(vec![]));
    assert_eq!(output, b"");
}

#[test]
fn nothing_is_written_for_a_read_covered_entirely() {
    let engine = engine_of("2", 4, &[(0, 4)]);
    assert_eq!(engine.get_bad_part("2"), Ok(&(vec![], 4)));
    let mut output = Vec::new();
    assert_eq!(fasta(b">2\nACTG\n", &mut output, 0, &engine, share(8, 10)), Ok(vec![]));
    assert_eq!(output, b"");
}

#[test]
fn nothing_is_written_for_a_read_without_overlap() {
    let engine = engine_of("2", 4, &[]);
    assert_eq!(engine.get_bad_part("2"), Ok(&(vec![(0, 4)], 4)));
    for not_covered in [share(1, 1), share(8, 10), share(0, 1)] {
        let mut output = Vec::new();
        assert_eq!(fastq(b"@2\nACTG\n+\n????\n", &mut output, 1, &engine, not_covered), Ok(vec![]));
        assert_eq!(output, b"");
        let mut output = Vec::new();
        assert_eq!(fasta(b">2\nACTG\n", &mut output, 0, &engine, not_covered), Ok(vec![]));
        assert_eq!(output, b"");
    }
}

#[test]
fn a_read_is_plucked_below_the_threshold_only() {
    // Half of the read is bad.
    let engine = engine_of("r", 8, &[(0, 4)]);
    let mut output = Vec::new();
    assert_eq!(fasta(b">r\nACGTTGCA\n", &mut output, 1, &engine, share(1, 2)), Ok(vec![]));
    assert_eq!(output, b"");
    let mut output = Vec::new();
    assert_eq!(fasta(b">r\nACGTTGCA\n", &mut output, 1, &engine, share(3, 4)), Ok(vec![]));
    assert_eq!(output, b">r_4_8\nTGCA\n");
    let mut output = Vec::new();
    assert_eq!(fasta(b">r\nACGTTGCA\n", &mut output, 1, &engine, share(49, 100)), Ok(vec![]));
    assert_eq!(output, b"");
    let mut output = Vec::new();
    assert_eq!(fasta(b">r\nACGTTGCA\n", &mut output, 1, &engine, share(51, 100)), Ok(vec![]));
    assert_eq!(output, b">r_4_8\nTGCA\n");
}

#[test]
fn a_read_is_classified_by_all_its_bad_regions_whatever_the_minimum() {
    // Bad regions [0, 3), [4, 6) and [8, 10): seven positions of ten.
    let engine = engine_of("r", 10, &[(3, 4), (6, 8)]);
    let mut output = Vec::new();
    assert_eq!(fasta(b">r\nACGTACGTAC\n", &mut output, 5, &engine, share(7, 10)), Ok(vec![]));
    assert_eq!(output, b"");
    let mut output = Vec::new();
    assert_eq!(fasta(b">r\nACGTACGTAC\n", &mut output, 3, &engine, share(7, 10)), Ok(vec![]));
    assert_eq!(output, b"");
    let mut output = Vec::new();
    assert_eq!(fasta(b">r\nACGTACGTAC\n", &mut output, 3, &engine, share(8, 10)), Ok(vec![]));
    assert_eq!(output, b">r_0_3\nACG\n");
}

#[test]
fn overlaps_in_disorder_give_the_records_of_their_cover() {
    let engine = engine_of("r", 20, &[(12, 15), (2, 5), (5, 5), (3, 4), (2, 5), (5, 9), (9, 12)]);
    assert_eq!(engine.get_bad_part("r"), Ok(&(vec![(0, 2), (15, 20)], 20)));
    let mut output = Vec::new();
    let ended = fasta(b">r\nACGTACGTACGTACGTACGT\n", &mut output, 1, &engine, share(8, 10));
    assert_eq!(ended, Ok(vec![]));
    assert_eq!(output, b">r_0_2\nAC\n>r_15_20\nTACGT\n");
    let mut engine = engine;
    engine.compute_all_bad_part();
    let mut again = Vec::new();
    let ended = fasta(b">r\nACGTACGTACGTACGTACGT\n", &mut again, 1, &engine, share(8, 10));
    assert_eq!(ended, Ok(vec![]));
    assert_eq!(again, output);
}

#[test]
fn no_minimum_is_the_minimum_fifty() {
    let engine = engine_of("r", 200, &[(49, 100), (150, 200)]);
    let input = format!(">r\n{}\n", "A".repeat(200));
    let mut without = Vec::new();
    let mut with = Vec::new();
    let first = pluck(input.as_bytes(), Some(FileType::Fasta), "r", &mut without, None, &engine, share(8, 10));
    let second =
        pluck(input.as_bytes(), Some(FileType::Fasta), "r", &mut with, Some(50), &engine, share(8, 10));
    assert_eq!(first, second);
    assert_eq!(without, with);
    assert_eq!(with, format!(">r_100_150\n{}\n", "A".repeat(50)).as_bytes());
}

#[test]
fn plucking_from_a_file_is_plucking_from_its_text() {
    let engine = engine();
    let fasta_text = b">1\nACTGGGGGGACTGGGGGGACTG\n>short\nACGTACGTACGT\n>2\nACTG\n";
    let fastq_text = b"@short\nACGTACGTACGT\n+\n0123456789ab\n@1 d\nACTGGGGGGACTGGGGGGACTG\n+\n0123456789abcdefghijkl\n";
    for minimum in [0, 2, 4, 50] {
        let mut direct = Vec::new();
        let mut through = Vec::new();
        let first = fasta(fasta_text, &mut direct, minimum, &engine, share(8, 10));
        let second =
            pluck(fasta_text, Some(FileType::Fasta), "f", &mut through, Some(minimum), &engine, share(8, 10));
        assert_eq!(first, second);
        assert_eq!(direct, through);
        let mut direct = Vec::new();
        let mut through = Vec::new();
        let first = fastq(fastq_text, &mut direct, minimum, &engine, share(8, 10));
        let second =
            pluck(fastq_text, Some(FileType::Fastq), "f", &mut through, Some(minimum), &engine, share(8, 10));
        assert_eq!(first, second);
        assert_eq!(direct, through);
    }
}
