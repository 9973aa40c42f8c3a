use crate::vectors::{
    index_get, index_len, index_set, index_zeros, lemma_peak_is_highest, peak, time_get, time_max,
    time_set, time_zeros, IndexVector,
};
use vstd::prelude::*;
use vstd::string::*;

verus! {

/// The job-shop instances that come with the library.
#[derive(Debug, PartialEq, Eq, Clone, Copy, Structural)]
pub enum Instance {
    LA05,
    TEST03,
}

/// Why a text is no instance.
#[derive(Debug, PartialEq, Eq, Clone, Copy, Structural)]
pub enum InstanceError {
    /// A word of the text is no number that a `u32` holds.
    InvalidNumber,
    /// The text has no first line with the number of jobs and of machines.
    MissingHeader,
    /// A line of a job ends on a machine without its time, names a machine
    /// that the job does not have, or lists more operations than a `u32` counts.
    InvalidLine,
}

/// Whether `c` is white space: the characters that Unicode gives the property
/// `White_Space`.
pub open spec fn is_space(c: char) -> bool {
    let u = c as u32;
    ||| 0x09 <= u <= 0x0D
    ||| u == 0x20
    ||| u == 0x85
    ||| u == 0xA0
    ||| u == 0x1680
    ||| 0x2000 <= u <= 0x200A
    ||| u == 0x2028
    ||| u == 0x2029
    ||| u == 0x202F
    ||| u == 0x205F
    ||| u == 0x3000
}

/// Whether `c` is one of the ten digits.
pub open spec fn is_digit(c: char) -> bool {
    '0' as u32 <= c as u32 <= '9' as u32
}

/// The lines of a text: what stands between its line feeds. A line feed at the
/// very end opens no further line.
pub open spec fn rows(text: Seq<char>) -> Seq<Seq<char>>
    decreases text.len(),
{
    if text.len() == 0 {
        Seq::empty()
    } else {
        let before = text.drop_last();
        let opens = before.len() == 0 || before.last() == '\n';
        if text.last() == '\n' {
            if opens {
                rows(before).push(Seq::empty())
            } else {
                rows(before)
            }
        } else if opens {
            rows(before).push(seq![text.last()])
        } else {
            rows(before).drop_last().push(rows(before).last().push(text.last()))
        }
    }
}

/// The words of a line: its longest runs of characters that are no white
/// space, in their order.
pub open spec fn words(line: Seq<char>) -> Seq<Seq<char>>
    decreases line.len(),
{
    if line.len() == 0 {
        Seq::empty()
    } else {
        let before = line.drop_last();
        if is_space(line.last()) {
            words(before)
        } else if before.len() == 0 || is_space(before.last()) {
            words(before).push(seq![line.last()])
        } else {
            words(before).drop_last().push(words(before).last().push(line.last()))
        }
    }
}

/// The number that the digits write in base ten.
pub open spec fn decimal(digits: Seq<char>) -> nat
    decreases digits.len(),
{
    if digits.len() == 0 {
        0
    } else {
        decimal(digits.drop_last()) * 10 + (digits.last() as u32 - '0' as u32) as nat
    }
}

/// The digits of a word: the word without the plus sign it may begin with.
pub open spec fn digits_of(word: Seq<char>) -> Seq<char> {
    if word.len() > 0 && word[0] == '+' {
        word.subrange(1, word.len() as int)
    } else {
        word
    }
}

/// The number that a word writes: one digit or more, after a plus sign or
/// without one, that stay within a `u32`.
pub open spec fn number(word: Seq<char>) -> Option<u32> {
    let digits = digits_of(word);
    if digits.len() > 0 && (forall|i: int| 0 <= i < digits.len() ==> is_digit(#[trigger] digits[i]))
        && decimal(digits) <= u32::MAX {
        Some(decimal(digits) as u32)
    } else {
        None
    }
}

/// The numbers of a line, if each of its words writes one.
pub open spec fn numbers(line: Seq<char>) -> Option<Seq<u32>> {
    let found = words(line);
    if forall|i: int| 0 <= i < found.len() ==> number(#[trigger] found[i]) is Some {
        Some(Seq::new(found.len(), |i: int| number(found[i])->Some_0))
    } else {
        None
    }
}

/// The numbers of a text, line by line, if each word of it writes one.
pub open spec fn table(text: Seq<char>) -> Option<Seq<Seq<u32>>> {
    let found = rows(text);
    if forall|k: int| 0 <= k < found.len() ==> numbers(#[trigger] found[k]) is Some {
        Some(Seq::new(found.len(), |k: int| numbers(found[k])->Some_0))
    } else {
        None
    }
}

/// No line holds a line feed.
pub proof fn lemma_rows_hold_no_line_feed(text: Seq<char>)
    ensures
        forall|k: int, i: int|
            0 <= k < rows(text).len() && 0 <= i < rows(text)[k].len() ==> #[trigger] rows(
                text,
            )[k][i] != '\n',
        text.len() > 0 && text.last() != '\n' ==> rows(text).len() > 0,
    decreases text.len(),
{
    if text.len() > 0 {
        let before = text.drop_last();
        lemma_rows_hold_no_line_feed(before);
        if before.len() > 0 && before.last() != '\n' {
            assert(rows(before).len() > 0);
        }
    }
}

/// Every word holds a character, and none that is white space.
pub proof fn lemma_words_hold_no_space(line: Seq<char>)
    ensures
        forall|k: int| 0 <= k < words(line).len() ==> (#[trigger] words(line)[k]).len() > 0,
        forall|k: int, i: int|
            0 <= k < words(line).len() && 0 <= i < words(line)[k].len() ==> !is_space(
                #[trigger] words(line)[k][i],
            ),
        line.len() > 0 && !is_space(line.last()) ==> words(line).len() > 0,
    decreases line.len(),
{
    if line.len() > 0 {
        let before = line.drop_last();
        lemma_words_hold_no_space(before);
        if before.len() > 0 && !is_space(before.last()) {
            assert(words(before).len() > 0);
        }
    }
}

/// The views of `texts`, in order.
pub open spec fn text_views(texts: Seq<Vec<char>>) -> Seq<Seq<char>> {
    texts.map_values(|t: Vec<char>| t@)
}

/// The views of `lines`, in order.
pub open spec fn line_views(lines: Seq<Vec<u32>>) -> Seq<Seq<u32>> {
    lines.map_values(|l: Vec<u32>| l@)
}

/// Whether `c` is white space.
pub fn is_white_space(c: char) -> (r: bool)
    ensures
        r == is_space(c),
{
    let u: u32 = c as u32;
    (0x09 <= u && u <= 0x0D) || u == 0x20 || u == 0x85 || u == 0xA0 || u == 0x1680 || (0x2000 <= u
        && u <= 0x200A) || u == 0x2028 || u == 0x2029 || u == 0x202F || u == 0x205F || u == 0x3000
}

/// The lines of `text`.
pub fn split_rows(text: &str) -> (found: Vec<Vec<char>>)
    ensures
        text_views(found@) == rows(text@),
{
    let mut found: Vec<Vec<char>> = Vec::new();
    let mut line: Vec<char> = Vec::new();
    let mut open: bool = false;
    for c in it: text.chars()
        invariant
            it.seq() == text@,
            open == (it.index() > 0 && text@[it.index() - 1] != '\n'),
            !open ==> line@.len() == 0,
            rows(text@.take(it.index() as int)) == if open {
                text_views(found@).push(line@)
            } else {
                text_views(found@)
            },
    {
        let ghost read = text@.take(it.index() as int);
        let ghost held = text_views(found@);
        proof {
            assert(text@.take(it.index() + 1).drop_last() == read);
            assert(text@.take(it.index() + 1).last() == c);
            if open {
                assert(held.push(line@).drop_last() == held);
            }
        }
        if c == '\n' {
            if open {
                found.push(line);
                line = Vec::new();
                open = false;
                assert(text_views(found@) == held.push(found@.last()@));
            } else {
                found.push(Vec::new());
                assert(text_views(found@) == held.push(found@.last()@));
                assert(found@.last()@ == Seq::<char>::empty());
            }
        } else {
            line.push(c);
            if !open {
                assert(line@ == seq![c]);
            }
            open = true;
        }
    }
    assert(text@.take(text@.len() as int) == text@);
    if open {
        let ghost held = text_views(found@);
        found.push(line);
        assert(text_views(found@) == held.push(found@.last()@));
    }
    found
}

/// The words of `line`.
pub fn split_words(line: &Vec<char>) -> (found: Vec<Vec<char>>)
    ensures
        text_views(found@) == words(line@),
{
    let mut found: Vec<Vec<char>> = Vec::new();
    let mut word: Vec<char> = Vec::new();
    let mut open: bool = false;
    let mut i: usize = 0;
    while i < line.len()
        invariant
            i <= line.len(),
            open == (i > 0 && !is_space(line@[i - 1])),
            !open ==> word@.len() == 0,
            words(line@.take(i as int)) == if open {
                text_views(found@).push(word@)
            } else {
                text_views(found@)
            },
        decreases line.len() - i,
    {
        let c: char = line[i];
        let ghost read = line@.take(i as int);
        let ghost held = text_views(found@);
        proof {
            assert(line@.take(i + 1).drop_last() == read);
            assert(line@.take(i + 1).last() == c);
            if open {
                assert(held.push(word@).drop_last() == held);
            }
        }
        if is_white_space(c) {
            if open {
                found.push(word);
                word = Vec::new();
                open = false;
                assert(text_views(found@) == held.push(found@.last()@));
            }
        } else {
            word.push(c);
            if !open {
                assert(word@ == seq![c]);
            }
            open = true;
        }
        i += 1;
    }
    assert(line@.take(line@.len() as int) == line@);
    if open {
        let ghost held = text_views(found@);
        found.push(word);
        assert(text_views(found@) == held.push(found@.last()@));
    }
    found
}

/// The number that `word` writes.
pub fn parse_number(word: &Vec<char>) -> (parsed: Option<u32>)
    ensures
        parsed == number(word@),
{
    let start: usize = if word.len() > 0 && word[0] == '+' {
        1
    } else {
        0
    };
    let ghost digits = digits_of(word@);
    assert(digits == word@.subrange(start as int, word@.len() as int));
    if start == word.len() {
        return None;
    }
    let mut value: u64 = 0;
    let mut i: usize = start;
    while i < word.len()
        invariant
            start <= i <= word.len(),
            digits == digits_of(word@),
            digits == word@.subrange(start as int, word@.len() as int),
            forall|k: int| 0 <= k < i - start ==> is_digit(#[trigger] digits[k]),
            value == decimal(digits.take(i - start)),
            value <= u32::MAX,
        decreases word.len() - i,
    {
        let c: char = word[i];
        let u: u32 = c as u32;
        assert(digits[i - start] == c);
        if u < 0x30 || u > 0x39 {
            assert(!is_digit(digits[i - start]));
            return None;
        }
        let ghost read = digits.take(i - start);
        assert(digits.take(i - start + 1).drop_last() == read);
        assert(digits.take(i - start + 1).last() == c);
        let next: u64 = value * 10 + (u - 0x30) as u64;
        if next > 0xFFFF_FFFF {
            proof {
                lemma_decimal_grows(digits, i - start + 1);
            }
            return None;
        }
        value = next;
        i += 1;
    }
    assert(digits.take(digits.len() as int) == digits);
    Some(value as u32)
}

/// Digits that follow never lower the number written so far.
pub proof fn lemma_decimal_grows(digits: Seq<char>, upto: int)
    requires
        0 <= upto <= digits.len(),
        forall|k: int| 0 <= k < upto ==> is_digit(#[trigger] digits[k]),
    ensures
        (forall|k: int| 0 <= k < digits.len() ==> is_digit(#[trigger] digits[k])) ==> decimal(
            digits.take(upto),
        ) <= decimal(digits),
    decreases digits.len() - upto,
{
    if upto == digits.len() {
        assert(digits.take(upto) == digits);
    } else if forall|k: int| 0 <= k < digits.len() ==> is_digit(#[trigger] digits[k]) {
        assert(digits.take(upto + 1).drop_last() == digits.take(upto));
        assert(is_digit(digits[upto]));
        lemma_decimal_grows(digits, upto + 1);
    }
}

/// The views of `sequences`, in order.
pub open spec fn sequence_views(sequences: Seq<Vec<usize>>) -> Seq<Seq<usize>> {
    sequences.map_values(|s: Vec<usize>| s@)
}

/// The machines that the line of a job names, in the order of its operations:
/// the numbers at its even places.
pub open spec fn machines_of(line: Seq<u32>) -> Seq<usize> {
    Seq::new(((line.len() + 1) / 2) as nat, |j: int| line[2 * j] as usize)
}

/// The last of the first `upto` operations of a job that runs on `machine`,
/// or -1 if none of them does.
pub open spec fn last_use(sequence: Seq<usize>, upto: int, machine: int) -> int
    decreases upto,
{
    if upto <= 0 {
        -1
    } else if sequence[upto - 1] == machine {
        upto - 1
    } else {
        last_use(sequence, upto - 1, machine)
    }
}

/// The time that a job takes on `machine`, going by the first `upto` of its
/// operations: the number that follows the machine in the line of the job,
/// taken from the last operation on that machine. A machine with no operation
/// has its own index for a time.
pub open spec fn time_on(line: Seq<u32>, sequence: Seq<usize>, upto: int, machine: int) -> u32 {
    let j = last_use(sequence, upto, machine);
    if j >= 0 {
        line[2 * j + 1]
    } else {
        machine as u32
    }
}

/// The times that a job takes, machine by machine.
pub open spec fn times_of(line: Seq<u32>, sequence: Seq<usize>) -> Seq<u32> {
    Seq::new(sequence.len(), |k: int| time_on(line, sequence, sequence.len() as int, k))
}

/// Whether the line of a job gives a time to each of its operations, and each
/// operation a machine that the job has.
pub open spec fn fits(line: Seq<u32>, sequence: Seq<usize>) -> bool {
    &&& sequence.len() <= u32::MAX
    &&& forall|j: int|
        0 <= j < sequence.len() ==> (#[trigger] sequence[j]) < sequence.len() && 2 * j + 1
            < line.len()
}

/// Whether each line has its sequence and fits it.
pub open spec fn all_fit(lines: Seq<Seq<u32>>, sequences: Seq<Seq<usize>>) -> bool {
    &&& lines.len() <= sequences.len()
    &&& forall|i: int| 0 <= i < lines.len() ==> fits(#[trigger] lines[i], sequences[i])
}

/// What a text describes: the machine sequences, the processing times, the
/// number of jobs and the number of machines.
pub struct Description {
    pub sequences: Seq<Seq<usize>>,
    pub processing_times: Seq<Seq<u32>>,
    pub n: u32,
    pub m: u32,
}

/// The instance that a text describes. Its first line holds the number of jobs
/// and the number of machines; each line after it is a job, a machine and a
/// time for each operation.
pub open spec fn described(text: Seq<char>) -> Result<Description, InstanceError> {
    match table(text) {
        None => Err(InstanceError::InvalidNumber),
        Some(found) => {
            if found.len() == 0 || found[0].len() < 2 {
                Err(InstanceError::MissingHeader)
            } else {
                let jobs = found.subrange(1, found.len() as int);
                let sequences = Seq::new(jobs.len(), |i: int| machines_of(jobs[i]));
                if all_fit(jobs, sequences) {
                    Ok(
                        Description {
                            sequences,
                            processing_times: Seq::new(
                                jobs.len(),
                                |i: int| times_of(jobs[i], sequences[i]),
                            ),
                            n: found[0][0],
                            m: found[0][1],
                        },
                    )
                } else {
                    Err(InstanceError::InvalidLine)
                }
            }
        },
    }
}

/// The numbers of `line`.
pub fn parse_numbers(line: &Vec<char>) -> (parsed: Option<Vec<u32>>)
    ensures
        match numbers(line@) {
            Some(found) => parsed is Some && parsed->Some_0@ == found,
            None => parsed is None,
        },
{
    let found = split_words(line);
    let mut parsed: Vec<u32> = Vec::with_capacity(found.len());
    let mut i: usize = 0;
    while i < found.len()
        invariant
            i <= found.len(),
            text_views(found@) == words(line@),
            parsed@.len() == i,
            forall|j: int|
                0 <= j < i ==> number(#[trigger] words(line@)[j]) == Some(parsed@[j]),
        decreases found.len() - i,
    {
        assert(text_views(found@)[i as int] == found@[i as int]@);
        match parse_number(&found[i]) {
            Some(value) => {
                parsed.push(value);
            },
            None => {
                return None;
            },
        }
        i += 1;
    }
    assert(parsed@ =~= numbers(line@)->Some_0);
    Some(parsed)
}

/// The machines that `line` names.
pub fn read_sequence(line: &Vec<u32>) -> (sequence: Vec<usize>)
    ensures
        sequence@ == machines_of(line@),
{
    let count: usize = line.len() / 2 + line.len() % 2;
    let mut sequence: Vec<usize> = Vec::with_capacity(count);
    let mut j: usize = 0;
    while j < count
        invariant
            j <= count,
            count == (line@.len() + 1) / 2,
            sequence@.len() == j,
            forall|i: int| 0 <= i < j ==> sequence@[i] == line@[2 * i] as usize,
        decreases count - j,
    {
        assert(2 * j + 1 <= line.len());
        sequence.push(line[2 * j] as usize);
        j += 1;
    }
    assert(sequence@ =~= machines_of(line@));
    sequence
}

/// The times that a job with the line `line` takes on its machines.
pub fn read_times(line: &Vec<u32>, sequence: &Vec<usize>) -> (times: Option<Vec<u32>>)
    ensures
        fits(line@, sequence@) ==> times is Some && times->Some_0@ == times_of(
            line@,
            sequence@,
        ),
        !fits(line@, sequence@) ==> times is None,
{
    if sequence.len() > 0xFFFF_FFFF {
        return None;
    }
    let mut times: Vec<u32> = Vec::with_capacity(sequence.len());
    let mut k: usize = 0;
    while k < sequence.len()
        invariant
            k <= sequence.len() <= u32::MAX,
            times@.len() == k,
            forall|i: int| 0 <= i < k ==> times@[i] == i as u32,
        decreases sequence.len() - k,
    {
        times.push(k as u32);
        k += 1;
    }
    let mut j: usize = 0;
    while j < sequence.len()
        invariant
            j <= sequence.len() <= u32::MAX,
            times@.len() == sequence.len(),
            forall|i: int|
                0 <= i < j ==> (#[trigger] sequence@[i]) < sequence@.len() && 2 * i + 1
                    < line@.len(),
            forall|i: int|
                0 <= i < times@.len() ==> #[trigger] times@[i] == time_on(
                    line@,
                    sequence@,
                    j as int,
                    i,
                ),
        decreases sequence.len() - j,
    {
        let machine: usize = sequence[j];
        if machine >= sequence.len() || j >= line.len() / 2 {
            return None;
        }
        let ghost before = times@;
        times[machine] = line[2 * j + 1];
        assert forall|i: int| 0 <= i < times@.len() implies #[trigger] times@[i] == time_on(
            line@,
            sequence@,
            j + 1,
            i,
        ) by {
            if i != machine {
                assert(times@[i] == before[i]);
            }
        }
        j += 1;
    }
    assert(times@ =~= times_of(line@, sequence@));
    Some(times)
}

/// How far the operations of a schedule have come: for each job the number of
/// its operations that are done and the time at which the last of them ends,
/// and for each machine the time at which it falls idle.
pub struct Progress {
    pub operations: Seq<usize>,
    pub job_time: Seq<u32>,
    pub machine_time: Seq<u32>,
}

/// A job-shop instance: for each job the machines of its operations in their
/// order, and the time it takes on each machine. Jobs, operations and machines
/// count from 0.
#[derive(Debug, PartialEq)]
pub struct JSSPInstance {
    pub instance: Instance,
    /// `sequences[j][o]` is the machine of operation `o` of job `j`.
    pub sequences: Vec<Vec<usize>>,
    /// `processing_times[j][k]` is the time that job `j` takes on machine `k`.
    pub processing_times: Vec<Vec<u32>>,
    /// The number of jobs.
    pub n: u32,
    /// The number of machines.
    pub m: u32,
}

impl Instance {
    /// The name of the instance, which is also that of its file.
    pub open spec fn name(self) -> Seq<char> {
        match self {
            Instance::LA05 => seq!['l', 'a', '0', '5'],
            Instance::TEST03 => seq!['t', 'e', 's', 't', '0', '3'],
        }
    }

    /// The name of the instance.
    pub fn to_string(&self) -> (name: String)
        ensures
            name@ == self.name(),
    {
        match self {
            Instance::LA05 => {
                proof {
                    reveal_strlit("la05");
                }
                assert("la05"@ =~= seq!['l', 'a', '0', '5']);
                String::from_str("la05")
            },
            Instance::TEST03 => {
                proof {
                    reveal_strlit("test03");
                }
                assert("test03"@ =~= seq!['t', 'e', 's', 't', '0', '3']);
                String::from_str("test03")
            },
        }
    }

    /// The path of the file of the instance in the directory `path`: the
    /// directory, a slash, the name and `.txt`.
    pub fn file_path(&self, path: &str) -> (file: String)
        ensures
            file@ == path@ + seq!['/'] + self.name() + seq!['.', 't', 'x', 't'],
    {
        proof {
            reveal_strlit("/");
            reveal_strlit(".txt");
        }
        assert("/"@ =~= seq!['/']);
        assert(".txt"@ =~= seq!['.', 't', 'x', 't']);
        let mut file = String::from_str(path);
        file.append("/");
        let name = self.to_string();
        file.append(name.as_str());
        file.append(".txt");
        file
    }
}

impl JSSPInstance {
    /// The instance with the given parts.
    pub fn new(
        instance: Instance,
        sequences: Vec<Vec<usize>>,
        processing_times: Vec<Vec<u32>>,
        n: u32,
        m: u32,
    ) -> (made: Self)
        ensures
            made.instance == instance,
            made.sequences == sequences,
            made.processing_times == processing_times,
            made.n == n,
            made.m == m,
    {
        Self { instance, sequences, processing_times, n, m }
    }

    /// What the instance describes.
    pub open spec fn description(&self) -> Description {
        Description {
            sequences: sequence_views(self.sequences@),
            processing_times: line_views(self.processing_times@),
            n: self.n,
            m: self.m,
        }
    }

    /// The instance `instance` as `content`, the text of its file, describes it.
    pub fn from_instance(instance: Instance, content: String) -> (made: Result<
        Self,
        InstanceError,
    >)
        ensures
            match described(content@) {
                Ok(description) => made is Ok && made->Ok_0.instance == instance
                    && made->Ok_0.description() == description,
                Err(error) => made is Err && made->Err_0 == error,
            },
    {
        let mut lines = match Self::get_lines(content) {
            Ok(lines) => lines,
            Err(error) => {
                return Err(error);
            },
        };
        let ghost found = line_views(lines@);
        if lines.len() == 0 {
            return Err(InstanceError::MissingHeader);
        }
        assert(found[0] == lines@[0]@);
        if lines[0].len() < 2 {
            return Err(InstanceError::MissingHeader);
        }
        let first_line = lines.remove(0);
        let n: u32 = first_line[0];
        let m: u32 = first_line[1];
        let ghost jobs = found.subrange(1, found.len() as int);
        assert(line_views(lines@) =~= jobs);
        let sequences = Self::read_sequences(&lines);
        assert(sequence_views(sequences@) =~= Seq::new(jobs.len(), |i: int| machines_of(jobs[i])));
        match Self::read_processing_times(&lines, &sequences) {
            Ok(processing_times) => {
                let made = Self::new(instance, sequences, processing_times, n, m);
                assert(made.description().processing_times =~= Seq::new(
                    jobs.len(),
                    |i: int| times_of(jobs[i], sequence_views(sequences@)[i]),
                ));
                Ok(made)
            },
            Err(error) => Err(error),
        }
    }

    /// The machine sequence of each job.
    pub fn read_sequences(lines: &Vec<Vec<u32>>) -> (sequences: Vec<Vec<usize>>)
        ensures
            sequence_views(sequences@) == Seq::new(
                lines@.len(),
                |i: int| machines_of(line_views(lines@)[i]),
            ),
    {
        let mut sequences: Vec<Vec<usize>> = Vec::with_capacity(lines.len());
        let mut i: usize = 0;
        while i < lines.len()
            invariant
                i <= lines.len(),
                sequences@.len() == i,
                forall|k: int|
                    0 <= k < i ==> (#[trigger] sequences@[k])@ == machines_of(lines@[k]@),
            decreases lines.len() - i,
        {
            sequences.push(read_sequence(&lines[i]));
            i += 1;
        }
        assert(sequence_views(sequences@) =~= Seq::new(
            lines@.len(),
            |i: int| machines_of(line_views(lines@)[i]),
        ));
        sequences
    }

    /// The processing times of each job, machine by machine.
    pub fn read_processing_times(lines: &Vec<Vec<u32>>, sequences: &Vec<Vec<usize>>) -> (times:
        Result<Vec<Vec<u32>>, InstanceError>)
        ensures
            all_fit(line_views(lines@), sequence_views(sequences@)) ==> times is Ok && line_views(
                times->Ok_0@,
            ) == Seq::new(
                lines@.len(),
                |i: int| times_of(line_views(lines@)[i], sequence_views(sequences@)[i]),
            ),
            !all_fit(line_views(lines@), sequence_views(sequences@)) ==> times is Err
                && times->Err_0 == InstanceError::InvalidLine,
    {
        if sequences.len() < lines.len() {
            return Err(InstanceError::InvalidLine);
        }
        let mut processing_times: Vec<Vec<u32>> = Vec::with_capacity(lines.len());
        let mut i: usize = 0;
        while i < lines.len()
            invariant
                i <= lines.len() <= sequences.len(),
                processing_times@.len() == i,
                forall|k: int| 0 <= k < i ==> fits(#[trigger] lines@[k]@, sequences@[k]@),
                forall|k: int|
                    0 <= k < i ==> (#[trigger] processing_times@[k])@ == times_of(
                        lines@[k]@,
                        sequences@[k]@,
                    ),
            decreases lines.len() - i,
        {
            match read_times(&lines[i], &sequences[i]) {
                Some(times) => {
                    processing_times.push(times);
                },
                None => {
                    assert(line_views(lines@)[i as int] == lines@[i as int]@);
                    assert(sequence_views(sequences@)[i as int] == sequences@[i as int]@);
                    return Err(InstanceError::InvalidLine);
                },
            }
            i += 1;
        }
        proof {
            assert forall|k: int| 0 <= k < lines@.len() implies fits(
                #[trigger] line_views(lines@)[k],
                sequence_views(sequences@)[k],
            ) by {
                assert(fits(lines@[k]@, sequences@[k]@));
            }
            assert(line_views(processing_times@) =~= Seq::new(
                lines@.len(),
                |i: int| times_of(line_views(lines@)[i], sequence_views(sequences@)[i]),
            ));
        }
        Ok(processing_times)
    }

    /// The numbers of `content`, line by line.
    pub fn get_lines(content: String) -> (lines: Result<Vec<Vec<u32>>, InstanceError>)
        ensures
            match table(content@) {
                Some(found) => lines is Ok && line_views(lines->Ok_0@) == found,
                None => lines is Err && lines->Err_0 == InstanceError::InvalidNumber,
            },
    {
        let found = split_rows(content.as_str());
        let mut lines: Vec<Vec<u32>> = Vec::with_capacity(found.len());
        let mut k: usize = 0;
        while k < found.len()
            invariant
                k <= found.len(),
                text_views(found@) == rows(content@),
                lines@.len() == k,
                forall|j: int|
                    0 <= j < k ==> numbers(#[trigger] rows(content@)[j]) is Some && numbers(
                        rows(content@)[j],
                    )->Some_0 == lines@[j]@,
            decreases found.len() - k,
        {
            assert(text_views(found@)[k as int] == found@[k as int]@);
            match parse_numbers(&found[k]) {
                Some(line) => {
                    lines.push(line);
                },
                None => {
                    return Err(InstanceError::InvalidNumber);
                },
            }
            k += 1;
        }
        assert(line_views(lines@) =~= table(content@)->Some_0);
        Ok(lines)
    }

    /// The state before any operation: nothing done, every job and machine idle
    /// at time 0.
    pub open spec fn outset(&self) -> Progress {
        Progress {
            operations: Seq::new(self.n as nat, |i: int| 0usize),
            job_time: Seq::new(self.n as nat, |i: int| 0u32),
            machine_time: Seq::new(self.m as nat, |i: int| 0u32),
        }
    }

    /// The machine of the next operation of `job`.
    pub open spec fn next_machine(&self, p: Progress, job: usize) -> usize {
        self.sequences@[job as int]@[p.operations[job as int] as int]
    }

    /// The time at which the next operation of `job` ends: it starts as soon as
    /// both the job and its machine are idle.
    pub open spec fn finish(&self, p: Progress, job: usize) -> int {
        let machine = self.next_machine(p, job);
        let ready = p.job_time[job as int];
        let idle = p.machine_time[machine as int];
        let start = if ready >= idle {
            ready
        } else {
            idle
        };
        start + self.processing_times@[job as int]@[machine as int]
    }

    /// Whether `job` can go on: it is a job of the instance with an operation
    /// left, on a machine of the instance for which its time is known, and the
    /// operation ends at a time that a `u32` holds.
    pub open spec fn can_take(&self, p: Progress, job: usize) -> bool {
        &&& job < self.n
        &&& job < self.sequences@.len()
        &&& job < self.processing_times@.len()
        &&& p.operations[job as int] < self.sequences@[job as int]@.len()
        &&& self.next_machine(p, job) < self.m
        &&& self.next_machine(p, job) < self.processing_times@[job as int]@.len()
        &&& self.finish(p, job) <= u32::MAX
    }

    /// The state after the next operation of `job`.
    pub open spec fn take(&self, p: Progress, job: usize) -> Progress {
        Progress {
            operations: p.operations.update(job as int, (p.operations[job as int] + 1) as usize),
            job_time: p.job_time.update(job as int, self.finish(p, job) as u32),
            machine_time: p.machine_time.update(
                self.next_machine(p, job) as int,
                self.finish(p, job) as u32,
            ),
        }
    }

    /// The state after the first `upto` operations of `schedule`, which names
    /// the job of each operation in the order in which they are started.
    pub open spec fn progress(&self, schedule: Seq<usize>, upto: nat) -> Progress
        decreases upto,
    {
        if upto == 0 {
            self.outset()
        } else {
            self.take(self.progress(schedule, (upto - 1) as nat), schedule[upto - 1])
        }
    }

    /// Whether every operation of `schedule` can go on when its turn comes.
    pub open spec fn admits(&self, schedule: Seq<usize>) -> bool {
        forall|k: nat|
            k < schedule.len() ==> self.can_take(
                #[trigger] self.progress(schedule, k),
                schedule[k as int],
            )
    }

    /// The makespan of `schedule`: the time at which the last job ends.
    pub open spec fn makespan(&self, schedule: Seq<usize>) -> u32 {
        peak(self.progress(schedule, schedule.len()).job_time)
    }

    /// Along a schedule that the instance admits, there is one count and one
    /// clock for each job and one clock for each machine.
    pub proof fn lemma_progress_keeps_its_shape(&self, schedule: Seq<usize>, upto: nat)
        requires
            self.admits(schedule),
            upto <= schedule.len(),
        ensures
            self.progress(schedule, upto).operations.len() == self.n,
            self.progress(schedule, upto).job_time.len() == self.n,
            self.progress(schedule, upto).machine_time.len() == self.m,
        decreases upto,
    {
        if upto > 0 {
            self.lemma_progress_keeps_its_shape(schedule, (upto - 1) as nat);
            assert(self.can_take(self.progress(schedule, (upto - 1) as nat), schedule[upto - 1]));
        }
    }

    /// No clock ever goes back: along a schedule that the instance admits, the
    /// time at which a job ends only grows from one operation to a later one.
    pub proof fn lemma_clocks_never_go_back(
        &self,
        schedule: Seq<usize>,
        earlier: nat,
        later: nat,
        job: int,
    )
        requires
            self.admits(schedule),
            earlier <= later <= schedule.len(),
            0 <= job < self.n,
        ensures
            self.progress(schedule, earlier).job_time[job] <= self.progress(
                schedule,
                later,
            ).job_time[job],
        decreases later - earlier,
    {
        if earlier < later {
            let before = self.progress(schedule, (later - 1) as nat);
            self.lemma_clocks_never_go_back(schedule, earlier, (later - 1) as nat, job);
            self.lemma_progress_keeps_its_shape(schedule, (later - 1) as nat);
            assert(self.can_take(before, schedule[later - 1]));
        }
    }

    /// The makespan is the latest of all ends: no operation of a schedule that
    /// the instance admits ends after it.
    pub proof fn lemma_makespan_is_the_latest_end(&self, schedule: Seq<usize>, upto: nat, job: int)
        requires
            self.admits(schedule),
            upto <= schedule.len(),
            0 <= job < self.n,
        ensures
            self.progress(schedule, upto).job_time[job] <= self.makespan(schedule),
    {
        self.lemma_clocks_never_go_back(schedule, upto, schedule.len(), job);
        self.lemma_progress_keeps_its_shape(schedule, schedule.len());
        lemma_peak_is_highest(self.progress(schedule, schedule.len()).job_time);
    }

    /// The makespan of `schedule`, or nothing if the instance does not admit it.
    pub fn checked_makespan(&self, schedule: &IndexVector) -> (makespan: Option<u32>)
        ensures
            self.admits(schedule@) ==> makespan == Some(self.makespan(schedule@)),
            !self.admits(schedule@) ==> makespan is None,
    {
        let mut operations = index_zeros(self.n as usize);
        let mut job_time = time_zeros(self.n as usize);
        let mut machine_time = time_zeros(self.m as usize);
        let count: usize = index_len(schedule);
        let mut k: usize = 0;
        while k < count
            invariant
                k <= count,
                count == schedule@.len(),
                operations@ == self.progress(schedule@, k as nat).operations,
                job_time@ == self.progress(schedule@, k as nat).job_time,
                machine_time@ == self.progress(schedule@, k as nat).machine_time,
                operations@.len() == self.n,
                job_time@.len() == self.n,
                machine_time@.len() == self.m,
                forall|j: nat|
                    j < k ==> self.can_take(
                        #[trigger] self.progress(schedule@, j),
                        schedule@[j as int],
                    ),
            decreases count - k,
        {
            let ghost now = self.progress(schedule@, k as nat);
            let job: usize = index_get(schedule, k);
            if job >= self.n as usize || job >= self.sequences.len() || job
                >= self.processing_times.len() {
                assert(!self.can_take(now, schedule@[k as int]));
                return None;
            }
            let done: usize = index_get(&operations, job);
            if done >= self.sequences[job].len() {
                assert(!self.can_take(now, schedule@[k as int]));
                return None;
            }
            let machine: usize = self.sequences[job][done];
            if machine >= self.m as usize || machine >= self.processing_times[job].len() {
                assert(!self.can_take(now, schedule@[k as int]));
                return None;
            }
            let ready: u32 = time_get(&job_time, job);
            let idle: u32 = time_get(&machine_time, machine);
            let start: u32 = if ready >= idle {
                ready
            } else {
                idle
            };
            let finish: u32 = match start.checked_add(self.processing_times[job][machine]) {
                Some(finish) => finish,
                None => {
                    assert(!self.can_take(now, schedule@[k as int]));
                    return None;
                },
            };
            time_set(&mut job_time, job, finish);
            time_set(&mut machine_time, machine, finish);
            index_set(&mut operations, job, done + 1);
            assert(self.can_take(now, schedule@[k as int]));
            assert(self.progress(schedule@, (k + 1) as nat) == self.take(now, schedule@[k as int]));
            k += 1;
        }
        Some(time_max(&job_time))
    }

    /// The makespan of a schedule that the instance admits.
    pub fn calculate_makespan(&self, schedule: &IndexVector) -> (makespan: u32)
        requires
            self.admits(schedule@),
        ensures
            makespan == self.makespan(schedule@),
    {
        match self.checked_makespan(schedule) {
            Some(makespan) => makespan,
            None => 0,
        }
    }
}

} // verus!
