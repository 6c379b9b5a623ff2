//! The word-count batch job: its task descriptions and its map and reduce
//! functions, on raw bytes.
//!
//! `map` splits an input into words at ASCII whitespace and emits one
//! `(word, "1")` pair per occurrence; `reduce` counts the occurrences of a
//! word by rendering how many values it received in decimal. The surrounding
//! job plumbing — reading inputs, shuffling pairs, writing outputs — is the
//! embedding program's.

use vstd::prelude::*;

verus! {

/// ASCII whitespace: space, tab, line feed, carriage return. Working on
/// raw bytes, the splitter treats only these as separators; multi-byte
/// Unicode whitespace is left inside words.
pub open spec fn is_space(b: u8) -> bool {
    b == 32 || b == 9 || b == 10 || b == 13
}

/// One splitting step: a whitespace byte closes the word in progress, any
/// other byte extends it.
pub open spec fn wc_step(acc: (Seq<Seq<u8>>, Seq<u8>), b: u8) -> (Seq<Seq<u8>>, Seq<u8>) {
    if is_space(b) {
        if acc.1.len() > 0 {
            (acc.0.push(acc.1), Seq::empty())
        } else {
            acc
        }
    } else {
        (acc.0, acc.1.push(b))
    }
}

/// The splitting state after reading a byte string: the words closed so
/// far, and the word still in progress.
pub open spec fn wc_fold(s: Seq<u8>) -> (Seq<Seq<u8>>, Seq<u8>)
    decreases s.len(),
{
    if s.len() == 0 {
        (Seq::<Seq<u8>>::empty(), Seq::<u8>::empty())
    } else {
        wc_step(wc_fold(s.drop_last()), s.last())
    }
}

/// The words of a byte string: maximal runs of non-whitespace bytes, in
/// order.
pub open spec fn spec_words(s: Seq<u8>) -> Seq<Seq<u8>> {
    let acc = wc_fold(s);
    if acc.1.len() > 0 {
        acc.0.push(acc.1)
    } else {
        acc.0
    }
}

/// Splits the input into words and emits a `(word, "1")` pair for each
/// occurrence, in input order.
pub fn map(contents: &Vec<u8>) -> (r: Vec<(Vec<u8>, Vec<u8>)>)
    ensures
        r@.len() == spec_words(contents@).len(),
        forall|i: int|
            0 <= i < r@.len() ==> (#[trigger] r@[i]).0@ == spec_words(contents@)[i]
                && r@[i].1@ == seq![49u8],
{
    let mut out: Vec<(Vec<u8>, Vec<u8>)> = Vec::new();
    let mut cur: Vec<u8> = Vec::new();
    let mut i: usize = 0;
    while i < contents.len()
        invariant
            i <= contents@.len(),
            cur@ == wc_fold(contents@.take(i as int)).1,
            out@.len() == wc_fold(contents@.take(i as int)).0.len(),
            forall|j: int|
                0 <= j < out@.len() ==> (#[trigger] out@[j]).0@ == wc_fold(
                    contents@.take(i as int),
                ).0[j] && out@[j].1@ == seq![49u8],
        decreases contents@.len() - i,
    {
        let ghost accpre = wc_fold(contents@.take(i as int));
        proof {
            assert(contents@.take(i + 1 as int).drop_last() =~= contents@.take(i as int));
            assert(contents@.take(i + 1 as int).last() == contents@[i as int]);
            assert(wc_fold(contents@.take(i + 1 as int)) == wc_step(accpre, contents@[i as int]));
        }
        let b = contents[i];
        if b == 32 || b == 9 || b == 10 || b == 13 {
            if cur.len() > 0 {
                // a one-byte "1", paired with the closed word
                let mut one: Vec<u8> = Vec::new();
                one.push(49u8);
                out.push((cur, one));
                cur = Vec::new();
            }
        } else {
            cur.push(b);
        }
        i = i + 1;
    }
    proof {
        assert(contents@.take(contents@.len() as int) == contents@);
    }
    if cur.len() > 0 {
        let mut one: Vec<u8> = Vec::new();
        one.push(49u8);
        out.push((cur, one));
    }
    out
}

/// The decimal rendering of a number, most significant digit first.
pub open spec fn spec_decimal(n: nat) -> Seq<u8>
    decreases n,
{
    if n < 10 {
        seq![(48 + n) as u8]
    } else {
        spec_decimal(n / 10).push((48 + n % 10) as u8)
    }
}

/// Renders a number in decimal.
pub fn decimal_digits(n: usize) -> (r: Vec<u8>)
    ensures
        r@ == spec_decimal(n as nat),
    decreases n,
{
    if n < 10 {
        let mut r: Vec<u8> = Vec::new();
        r.push(48 + (n as u8));
        r
    } else {
        let mut r = decimal_digits(n / 10);
        r.push(48 + ((n % 10) as u8));
        r
    }
}

/// Counts a word's occurrences: the reduction of `(key, values)` is the
/// number of values, in decimal.
pub fn reduce(key: &Vec<u8>, values: &Vec<Vec<u8>>) -> (r: Vec<u8>)
    ensures
        r@ == spec_decimal(values@.len()),
{
    decimal_digits(values.len())
}

/// What kind of work a task asks for.
#[derive(Debug, Clone, Copy, PartialEq, Eq, Structural)]
pub enum TaskType {
    /// Run the map function over the task's files.
    MapPhase,
    /// Run the reduce function over one partition.
    ReducePhase,
    /// No work is left; the worker may stop.
    Exit,
}

/// One unit of work handed to a worker.
pub struct Task {
    /// What kind of work.
    pub task: TaskType,
    /// When the task was handed out, in milliseconds since the epoch, as the
    /// embedding program's clock reported it.
    pub created_at: u64,
    /// The task's index within its phase.
    pub id: usize,
    /// The input files, as raw path bytes.
    pub files: Vec<Vec<u8>>,
}

/// The answer to a worker's request for work.
pub struct RequestReply {
    /// The task to run, if any is ready.
    pub task: Option<Task>,
    /// How many map tasks the job has.
    pub nmap: usize,
    /// How many reduce partitions the job has.
    pub nreduce: usize,
}

/// The answer to a worker's completion report.
pub struct ReportReply {
    /// Whether the whole job is finished.
    pub done: bool,
}

} // verus!
