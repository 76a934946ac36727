//! The comparison benchmark, as a plan of steps: time the reference shell
//! pipeline, clean up, time this library's run followed by indexing, clean
//! up. Carrying the steps out (processes, clocks, files) is left to the
//! caller.

use vstd::prelude::*;

verus! {

/// Which approach a timing belongs to.
#[derive(Clone, Copy, Debug, PartialEq, Eq, Structural)]
pub enum Contender {
    /// The reference pipeline of bcftools, awk and bgzip.
    Awk,
    /// This library's de-annotation run.
    Native,
}

/// One step of a benchmark.
#[derive(Debug, PartialEq, Eq)]
pub enum BenchStep {
    /// Start the clock.
    StartClock,
    /// Run the command with `bash -c`.
    Shell(String),
    /// De-annotate the file at `input` into the file at `output`.
    Deannotate { input: String, output: String },
    /// Stop the clock and report the time taken by the contender.
    StopClock(Contender),
}

/// The meaning of a step, with its texts as character sequences.
pub enum StepModel {
    StartClock,
    Shell(Seq<char>),
    Deannotate(Seq<char>, Seq<char>),
    StopClock(Contender),
}

impl View for BenchStep {
    type V = StepModel;

    open spec fn view(&self) -> StepModel {
        match self {
            BenchStep::StartClock => StepModel::StartClock,
            BenchStep::Shell(c) => StepModel::Shell(c@),
            BenchStep::Deannotate { input, output } => StepModel::Deannotate(input@, output@),
            BenchStep::StopClock(c) => StepModel::StopClock(*c),
        }
    }
}

/// The meanings of a sequence of steps.
pub open spec fn models(steps: Seq<BenchStep>) -> Seq<StepModel> {
    steps.map_values(|s: BenchStep| s@)
}

/// The reference pipeline: decompress with bcftools, cut the annotation
/// field down with awk, recompress with bgzip, then index the output.
pub open spec fn awk_command_text(input: Seq<char>, output: Seq<char>) -> Seq<char> {
    "bcftools view \""@ + input + "\" | \\\n            awk 'BEGIN { FS=\"\\t\"; OFS=\"\\t\" }\n            /^#/ { print; next }\n            {\n                split($8, info_parts, \"\\\\|\");\n                $8 = info_parts[1];\n                print;\n            }' | \\\n            bgzip -@ 1 > \""@
        + output + "\" && \\\n            bcftools index \""@ + output + "\""@
}

/// Indexes the compressed file at `output`.
pub open spec fn index_command_text(output: Seq<char>) -> Seq<char> {
    "bcftools index "@ + output
}

/// Removes `output` and every file whose name starts with it.
pub open spec fn clean_up_command_text(output: Seq<char>) -> Seq<char> {
    "rm -r "@ + output + "*"@
}

/// The steps of timing this library: de-annotate, then index.
pub open spec fn self_plan(input: Seq<char>, output: Seq<char>) -> Seq<StepModel> {
    seq![StepModel::Deannotate(input, output), StepModel::Shell(index_command_text(output))]
}

/// The whole benchmark, clean-ups included.
pub open spec fn benchmark_plan(input: Seq<char>, output: Seq<char>) -> Seq<StepModel> {
    seq![
        StepModel::StartClock,
        StepModel::Shell(awk_command_text(input, output)),
        StepModel::StopClock(Contender::Awk),
        StepModel::Shell(clean_up_command_text(output)),
        StepModel::StartClock,
    ] + self_plan(input, output) + seq![
        StepModel::StopClock(Contender::Native),
        StepModel::Shell(clean_up_command_text(output)),
    ]
}

/// The shell command of the reference pipeline.
pub fn awk_command(input: &str, output: &str) -> (r: String)
    ensures
        r@ == awk_command_text(input@, output@),
{
    let mut c = String::from_str("bcftools view \"");
    c.append(input);
    c.append(
        "\" | \\\n            awk 'BEGIN { FS=\"\\t\"; OFS=\"\\t\" }\n            /^#/ { print; next }\n            {\n                split($8, info_parts, \"\\\\|\");\n                $8 = info_parts[1];\n                print;\n            }' | \\\n            bgzip -@ 1 > \"",
    );
    c.append(output);
    c.append("\" && \\\n            bcftools index \"");
    c.append(output);
    c.append("\"");
    c
}

/// The step that indexes the output with bcftools.
fn bcftools_index(output: &str) -> (r: BenchStep)
    ensures
        r@ == StepModel::Shell(index_command_text(output@)),
{
    let mut c = String::from_str("bcftools index ");
    c.append(output);
    BenchStep::Shell(c)
}

/// The step that removes what a timed run left behind.
fn clean_up(output: &str) -> (r: BenchStep)
    ensures
        r@ == StepModel::Shell(clean_up_command_text(output@)),
{
    let mut c = String::from_str("rm -r ");
    c.append(output);
    c.append("*");
    BenchStep::Shell(c)
}

/// The steps of the reference run: one shell pipeline.
pub fn benchmark_awk(input: &str, output: &str) -> (r: Vec<BenchStep>)
    ensures
        models(r@) == seq![StepModel::Shell(awk_command_text(input@, output@))],
{
    let mut steps: Vec<BenchStep> = Vec::new();
    steps.push(BenchStep::Shell(awk_command(input, output)));
    assert(models(steps@) =~= seq![StepModel::Shell(awk_command_text(input@, output@))]);
    steps
}

/// The steps of this library's run: de-annotate, then index.
pub fn benchmark_self(input: &str, output: &str) -> (r: Vec<BenchStep>)
    ensures
        models(r@) == self_plan(input@, output@),
{
    let mut steps: Vec<BenchStep> = Vec::new();
    steps.push(
        BenchStep::Deannotate { input: String::from_str(input), output: String::from_str(output) },
    );
    steps.push(bcftools_index(output));
    assert(models(steps@) =~= self_plan(input@, output@));
    steps
}

/// Appends `more` to `steps`.
fn append_steps(steps: &mut Vec<BenchStep>, more: Vec<BenchStep>)
    ensures
        models(final(steps)@) == models(old(steps)@) + models(more@),
{
    let mut more = more;
    let ghost head = steps@;
    let ghost tail = more@;
    steps.append(&mut more);
    assert(models(head + tail) =~= models(head) + models(tail));
}

/// The benchmark: the reference pipeline timed, then cleaned up; this
/// library's run and indexing timed, then cleaned up.
pub fn benchmark(input: &str, output: &str) -> (r: Vec<BenchStep>)
    ensures
        models(r@) == benchmark_plan(input@, output@),
{
    let ghost i = input@;
    let ghost o = output@;
    let mut steps: Vec<BenchStep> = Vec::new();
    steps.push(BenchStep::StartClock);
    assert(models(steps@) =~= seq![StepModel::StartClock]);
    append_steps(&mut steps, benchmark_awk(input, output));
    assert(models(steps@) =~= seq![StepModel::StartClock, StepModel::Shell(awk_command_text(i, o))]);
    let ghost mid = steps@;
    steps.push(BenchStep::StopClock(Contender::Awk));
    assert(steps@ == mid.push(BenchStep::StopClock(Contender::Awk)));
    assert(models(steps@) =~= models(mid).push(StepModel::StopClock(Contender::Awk)));
    assert(models(steps@) =~= seq![
        StepModel::StartClock,
        StepModel::Shell(awk_command_text(i, o)),
        StepModel::StopClock(Contender::Awk),
    ]);
    steps.push(clean_up(output));
    steps.push(BenchStep::StartClock);
    let ghost head = seq![
        StepModel::StartClock,
        StepModel::Shell(awk_command_text(i, o)),
        StepModel::StopClock(Contender::Awk),
        StepModel::Shell(clean_up_command_text(o)),
        StepModel::StartClock,
    ];
    assert(models(steps@) =~= head);
    append_steps(&mut steps, benchmark_self(input, output));
    steps.push(BenchStep::StopClock(Contender::Native));
    assert(models(steps@) =~= (head + self_plan(i, o)).push(StepModel::StopClock(Contender::Native)));
    steps.push(clean_up(output));
    assert(models(steps@) =~= benchmark_plan(input@, output@));
    steps
}

} // verus!
