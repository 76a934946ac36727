use std::io::{Read, Write};

use vcf_deannotate::benchmark::{
    awk_command, benchmark, benchmark_awk, benchmark_self, BenchStep, Contender,
};
use vcf_deannotate::codec::{decompress, CodecError, LineSink};
use vcf_deannotate::fields::{join_with_tabs, split_on_tabs};
use vcf_deannotate::lines::LineSource;
use vcf_deannotate::pipeline::{remove_annotations, rewrite_text};
use vcf_deannotate::rewrite::{rewrite_line, Disposition, RunCounters};

fn gzip(text: &[u8]) -> Vec<u8> {
    let mut e = flate2::write::GzEncoder::new(Vec::new(), flate2::Compression::default());
    e.write_all(text).unwrap();
    e.finish().unwrap()
}

fn gunzip(data: &[u8]) -> Vec<u8> {
    let mut out = Vec::new();
    flate2::read::MultiGzDecoder::new(data).read_to_end(&mut out).unwrap();
    out
}

fn line_count(text: &[u8]) -> usize {
    let mut source = LineSource::new(text.to_vec());
    let mut n = 0;
    while source.next_line().is_some() {
        n += 1;
    }
    n
}

const SCENARIO_A_IN: &[u8] = b"##header\nchr1\t100\trs1\tA\tG\t30\tPASS\tAC=1;AN=2\tGT\n";
const SCENARIO_A_OUT: &[u8] = b"##header\nchr1\t100\trs1\tA\tG\t30\tPASS\t.\tGT\n";

#[test]
fn scenario_a_rewrites_annotation_field() {
    let (out, report) = rewrite_text(SCENARIO_A_IN.to_vec());
    assert_eq!(out, SCENARIO_A_OUT.to_vec());
    assert_eq!(
        report.counters,
        RunCounters { lines_read: 2, headers: 1, rewritten: 1, malformed: 0, writes: 2 }
    );
    assert!(report.malformed_lines.is_empty());
}

#[test]
fn scenario_a_through_compression() {
    let (out, report) = remove_annotations(&gzip(SCENARIO_A_IN)).unwrap();
    assert_eq!(gunzip(&out), SCENARIO_A_OUT.to_vec());
    assert_eq!(report.counters.rewritten, 1);
}

#[test]
fn scenario_b_short_line_passes_through() {
    let input = b"##h\nchr1\t100\trs1\tA\tG\n".to_vec();
    let (out, report) = rewrite_text(input.clone());
    assert_eq!(out, input);
    assert_eq!(report.counters.malformed, 1);
    assert_eq!(report.counters.rewritten, 0);
    assert_eq!(report.malformed_lines, vec![2]);
}

#[test]
fn scenario_c_empty_input() {
    let (out, report) = rewrite_text(Vec::new());
    assert!(out.is_empty());
    assert_eq!(
        report.counters,
        RunCounters { lines_read: 0, headers: 0, rewritten: 0, malformed: 0, writes: 0 }
    );
    let (compressed, report) = remove_annotations(&gzip(b"")).unwrap();
    assert!(gunzip(&compressed).is_empty());
    assert_eq!(report.counters.lines_read, 0);
}

#[test]
fn scenario_d_truncated_stream_fails() {
    let good = gzip(SCENARIO_A_IN);
    let cut = &good[..good.len() / 2];
    assert!(matches!(remove_annotations(cut), Err(CodecError::Decompress(_))));
    assert!(matches!(remove_annotations(b"not gzip at all"), Err(CodecError::Decompress(_))));
}

#[test]
fn line_count_is_preserved() {
    let input = b"#a\n#b\nx\t1\t2\t3\t4\t5\t6\tI\t8\t9\nshort\n\n\t\nlast\t1\t2\t3\t4\t5\t6\tI\t8".to_vec();
    let (out, report) = rewrite_text(input.clone());
    assert_eq!(line_count(&out), line_count(&input));
    assert_eq!(line_count(&input), 7);
    assert_eq!(report.counters.lines_read, 7);
    assert_eq!(report.counters.headers, 2);
    assert_eq!(report.counters.rewritten, 2);
    assert_eq!(report.counters.malformed, 3);
    assert_eq!(report.counters.writes, 7);
    assert_eq!(report.malformed_lines, vec![4, 5, 6]);
}

#[test]
fn header_lines_unchanged() {
    let input = b"##fileformat=VCFv4.2\n#CHROM\tPOS\tID\tREF\tALT\tQUAL\tFILTER\tINFO\tFORMAT\n".to_vec();
    let (out, report) = rewrite_text(input.clone());
    assert_eq!(out, input);
    assert_eq!(report.counters.headers, 2);
}

#[test]
fn other_fields_kept_in_order() {
    let input = b"c\tp\ti\tr\ta\tq\tf\tINFO=x;y\tGT\tS1\tS2\n".to_vec();
    let (out, _) = rewrite_text(input);
    let fields: Vec<&[u8]> = out[..out.len() - 1].split(|b| *b == b'\t').collect();
    let expected: Vec<&[u8]> =
        vec![b"c", b"p", b"i", b"r", b"a", b"q", b"f", b".", b"GT", b"S1", b"S2"];
    assert_eq!(fields, expected);
}

#[test]
fn missing_final_newline_gets_one() {
    let (out, _) = rewrite_text(b"1\t2\t3\t4\t5\t6\t7\t8\t9".to_vec());
    assert_eq!(out, b"1\t2\t3\t4\t5\t6\t7\t.\t9\n".to_vec());
}

#[test]
fn short_line_without_newline_kept_as_is() {
    let (out, report) = rewrite_text(b"a\tb".to_vec());
    assert_eq!(out, b"a\tb".to_vec());
    assert_eq!(report.counters.malformed, 1);
}

#[test]
fn blank_lines_are_malformed() {
    let input = b"\n   \n\t\t\t\t\t\t\t\t\n".to_vec();
    let (out, report) = rewrite_text(input.clone());
    assert_eq!(out, input);
    assert_eq!(report.counters.malformed, 3);
    assert_eq!(report.malformed_lines, vec![1, 2, 3]);
}

#[test]
fn exactly_eight_fields_is_malformed() {
    let line = b"1\t2\t3\t4\t5\t6\t7\t8\n";
    let (d, out) = rewrite_line(line);
    assert_eq!(d, Disposition::Malformed);
    assert_eq!(out, line.to_vec());
}

#[test]
fn empty_fields_are_kept() {
    let (d, out) = rewrite_line(b"\t\t\t\t\t\t\tINFO\t\n");
    assert_eq!(d, Disposition::Rewritten);
    assert_eq!(out, b"\t\t\t\t\t\t\t.\t\n".to_vec());
}

#[test]
fn carriage_return_stays_in_last_field() {
    let (d, out) = rewrite_line(b"1\t2\t3\t4\t5\t6\t7\tI\t9\r\n");
    assert_eq!(d, Disposition::Rewritten);
    assert_eq!(out, b"1\t2\t3\t4\t5\t6\t7\t.\t9\r\n".to_vec());
}

#[test]
fn transform_is_idempotent() {
    let input = b"##h\nchr1\t1\t.\tA\tC\t9\tPASS\tDP=4\tGT\t0/1\nbad\tline\nx\t1\t2\t3\t4\t5\t6\tK=V\t8".to_vec();
    let (once, _) = remove_annotations(&gzip(&input)).unwrap();
    let once_text = gunzip(&once);
    let (twice, report) = remove_annotations(&once).unwrap();
    assert_eq!(gunzip(&twice), once_text);
    assert_eq!(report.counters.rewritten, 2);
}

#[test]
fn output_round_trips_through_standard_decoder() {
    let mut input = Vec::new();
    input.extend_from_slice(b"##fileformat=VCFv4.2\n");
    for i in 0..20000 {
        input.extend_from_slice(format!("chr1\t{}\trs{}\tA\tG\t30\tPASS\tAC={};AN=2\tGT\n", i, i, i).as_bytes());
    }
    let (out, report) = remove_annotations(&gzip(&input)).unwrap();
    let (expected, _) = rewrite_text(input);
    assert_eq!(gunzip(&out), expected);
    assert_eq!(report.counters.rewritten, 20000);
    // BGZF ends with its 28-byte end-of-file block.
    assert_eq!(&out[out.len() - 28..out.len() - 24], &[0x1f, 0x8b, 0x08, 0x04]);
}

#[test]
fn multi_member_input_is_read_whole() {
    let mut input = gzip(b"##h\n");
    input.extend_from_slice(&gzip(b"a\tb\tc\td\te\tf\tg\tINFO\ti\n"));
    let text = decompress(&input).unwrap();
    assert_eq!(text, b"##h\na\tb\tc\td\te\tf\tg\tINFO\ti\n".to_vec());
    let (out, _) = remove_annotations(&input).unwrap();
    assert_eq!(gunzip(&out), b"##h\na\tb\tc\td\te\tf\tg\t.\ti\n".to_vec());
}

#[test]
fn sink_finish_compresses() {
    let mut sink = LineSink::new();
    sink.write_line(b"hello\n");
    sink.write_line(b"world\n");
    let out = sink.finish().unwrap();
    assert_ne!(out, b"hello\nworld\n".to_vec());
    assert_eq!(gunzip(&out), b"hello\nworld\n".to_vec());
}

#[test]
fn line_source_hands_out_lines() {
    let mut source = LineSource::new(b"a\n\nb".to_vec());
    assert_eq!(source.next_line(), Some(b"a\n".to_vec()));
    assert_eq!(source.next_line(), Some(b"\n".to_vec()));
    assert_eq!(source.next_line(), Some(b"b".to_vec()));
    assert_eq!(source.next_line(), None);
}

#[test]
fn split_and_join_fields() {
    let fields = split_on_tabs(b"a\t\tb");
    assert_eq!(fields, vec![b"a".to_vec(), Vec::new(), b"b".to_vec()]);
    assert_eq!(join_with_tabs(&fields), b"a\t\tb".to_vec());
    assert_eq!(split_on_tabs(b""), vec![Vec::<u8>::new()]);
}

#[test]
fn counters_record_each_disposition() {
    let mut c = RunCounters::new();
    c.record(Disposition::Header);
    c.record(Disposition::Rewritten);
    c.record(Disposition::Malformed);
    c.record(Disposition::Malformed);
    assert_eq!(c, RunCounters { lines_read: 4, headers: 1, rewritten: 1, malformed: 2, writes: 4 });
}

#[test]
fn benchmark_plan_times_both_and_cleans_up() {
    let steps = benchmark("in.vcf.gz", "out.vcf.gz");
    assert_eq!(steps.len(), 9);
    assert_eq!(steps[0], BenchStep::StartClock);
    assert_eq!(steps[1], BenchStep::Shell(awk_command("in.vcf.gz", "out.vcf.gz")));
    assert_eq!(steps[2], BenchStep::StopClock(Contender::Awk));
    assert_eq!(steps[3], BenchStep::Shell("rm -r out.vcf.gz*".to_string()));
    assert_eq!(steps[4], BenchStep::StartClock);
    assert_eq!(
        steps[5],
        BenchStep::Deannotate { input: "in.vcf.gz".to_string(), output: "out.vcf.gz".to_string() }
    );
    assert_eq!(steps[6], BenchStep::Shell("bcftools index out.vcf.gz".to_string()));
    assert_eq!(steps[7], BenchStep::StopClock(Contender::Native));
    assert_eq!(steps[8], BenchStep::Shell("rm -r out.vcf.gz*".to_string()));
}

#[test]
fn benchmark_parts() {
    assert_eq!(benchmark_awk("i", "o"), vec![BenchStep::Shell(awk_command("i", "o"))]);
    assert_eq!(
        benchmark_self("i", "o"),
        vec![
            BenchStep::Deannotate { input: "i".to_string(), output: "o".to_string() },
            BenchStep::Shell("bcftools index o".to_string()),
        ]
    );
    let cmd = awk_command("i.vcf.gz", "o.vcf.gz");
    assert!(cmd.starts_with("bcftools view \"i.vcf.gz\" | \\\n"));
    assert!(cmd.contains("split($8, info_parts, \"\\\\|\");"));
    assert!(cmd.contains("bgzip -@ 1 > \"o.vcf.gz\""));
    assert!(cmd.ends_with("bcftools index \"o.vcf.gz\""));
}
