//! Requests: a list of toys with the number of copies wanted of each, and
//! the answer, which is the toy that is wanted most.
use super::protocol::{
    advanced, decoded, encoded_stream, low, next, operations, Cipher, CipherError,
};
use crate::decimal::{decimal_digits, decimal_value, lemma_value_of_prefix, push_decimal};
use vstd::prelude::*;
use vstd::utf8::encode_utf8;

verus! {

/// A toy, and how many copies of it are wanted.
#[derive(Debug, Eq, PartialEq)]
pub struct Job {
    pub toy: String,
    pub copies: usize,
}

/// The mathematical value of a [`Job`].
pub struct JobView {
    pub toy: Seq<char>,
    pub copies: usize,
}

impl View for Job {
    type V = JobView;

    open spec fn view(&self) -> JobView {
        JobView { toy: self.toy@, copies: self.copies }
    }
}

/// Why a request could not be read.
#[derive(Debug, PartialEq, Eq, Clone, Copy, Structural)]
pub enum JobError {
    /// The request does not start with a job: digits, then `x` and a
    /// blank, then the name of a toy.
    Syntax,
    /// A number of copies is more than the machine can count.
    TooManyCopies,
}

/// The kinds of character that a request is made of.
#[derive(Debug, PartialEq, Eq, Clone, Copy, Structural)]
pub enum CharClass {
    /// The decimal digits.
    Digit,
    /// Everything but the comma.
    NotComma,
    /// The letters of the ASCII alphabet, the blank and the tab.
    LetterOrBlank,
}

/// Whether `c` is of the class `class`.
pub open spec fn in_class(c: char, class: CharClass) -> bool {
    match class {
        CharClass::Digit => '0' <= c && c <= '9',
        CharClass::NotComma => c != ',',
        CharClass::LetterOrBlank => ('a' <= c && c <= 'z') || ('A' <= c && c <= 'Z') || c == ' '
            || c == '\t',
    }
}

/// How many characters of the class `class` stand in a row at `from`.
pub open spec fn run_len(s: Seq<char>, from: int, class: CharClass) -> nat
    decreases s.len() - from,
{
    if 0 <= from < s.len() && in_class(s[from], class) {
        1 + run_len(s, from + 1, class)
    } else {
        0
    }
}

/// Where the run of characters of class `class` ends that starts at
/// `from`: the index of the first character at or after `from` that is not
/// of that class.
pub open spec fn run_end(s: Seq<char>, from: int, class: CharClass) -> int {
    from + run_len(s, from, class)
}

/// The digits `s[from..to]` as bytes.
pub open spec fn digit_bytes(s: Seq<char>, from: int, to: int) -> Seq<u8> {
    s.subrange(from, to).map_values(|c: char| c as u8)
}

/// The job that stands at `from`, and where it ends: a number of copies in
/// decimal digits, `x` and a blank, and as the name of the toy a run of
/// characters of the class `name`. None of the three may be missing.
pub open spec fn job_at(s: Seq<char>, from: int, name: CharClass) -> Result<(JobView, int), JobError> {
    let d = run_end(s, from, CharClass::Digit);
    let copies = decimal_value(digit_bytes(s, from, d));
    let t = run_end(s, d + 2, name);
    if d == from {
        Err(JobError::Syntax)
    } else if copies > usize::MAX {
        Err(JobError::TooManyCopies)
    } else if d + 2 > s.len() || s[d] != 'x' || s[d + 1] != ' ' || t == d + 2 {
        Err(JobError::Syntax)
    } else {
        Ok((JobView { toy: s.subrange(d + 2, t), copies: copies as usize }, t))
    }
}

/// Puts a job in front of the jobs that follow it, if they could be read.
pub open spec fn and_then(first: JobView, others: Result<Seq<JobView>, JobError>) -> Result<
    Seq<JobView>,
    JobError,
> {
    gather(seq![first], others)
}

/// The jobs that follow at `from`, each after a comma. The list ends where
/// no comma stands, or where what follows a comma is no job.
pub open spec fn jobs_after(s: Seq<char>, from: int, name: CharClass) -> Result<
    Seq<JobView>,
    JobError,
>
    decreases
            (if from <= s.len() {
                s.len() - from
            } else {
                0
            }),
{
    if 0 <= from < s.len() && s[from] == ',' {
        match job_at(s, from + 1, name) {
            Err(JobError::Syntax) => Ok(Seq::empty()),
            Err(e) => Err(e),
            Ok((job, next)) => and_then(job, jobs_after(s, next, name)),
        }
    } else {
        Ok(Seq::empty())
    }
}

/// The jobs of a request: the first, which must be there, and those that
/// follow it. What stands after the last of them is not read.
pub open spec fn jobs_of(s: Seq<char>, name: CharClass) -> Result<Seq<JobView>, JobError> {
    match job_at(s, 0, name) {
        Err(e) => Err(e),
        Ok((job, next)) => and_then(job, jobs_after(s, next, name)),
    }
}

/// The values of a list of jobs.
pub open spec fn job_views(jobs: Seq<Job>) -> Seq<JobView> {
    jobs.map_values(|job: Job| job@)
}

/// Puts the jobs read so far in front of the jobs that follow them, if
/// those could be read.
pub open spec fn gather(first: Seq<JobView>, others: Result<Seq<JobView>, JobError>) -> Result<
    Seq<JobView>,
    JobError,
> {
    match others {
        Ok(jobs) => Ok(first + jobs),
        Err(e) => Err(e),
    }
}

/// A job as text: the number of copies, `x`, a blank, and the toy.
pub open spec fn job_text(job: JobView) -> Seq<char> {
    decimal_digits(job.copies as nat).map_values(|b: u8| b as char) + seq!['x', ' '] + job.toy
}

/// The index of the job that is wanted most: of those with the most
/// copies, the last.
pub open spec fn most_wanted(jobs: Seq<JobView>) -> int
    decreases jobs.len(),
{
    if jobs.len() <= 1 {
        0
    } else {
        let i = most_wanted(jobs.drop_last());
        if jobs.last().copies >= jobs[i].copies {
            jobs.len() - 1
        } else {
            i
        }
    }
}

/// The job that [`most_wanted`] picks has the most copies, and more than
/// every job after it.
pub proof fn lemma_most_wanted(jobs: Seq<JobView>)
    requires
        jobs.len() > 0,
    ensures
        0 <= most_wanted(jobs) < jobs.len(),
        forall|j: int|
            0 <= j < jobs.len() ==> (#[trigger] jobs[j]).copies <= jobs[most_wanted(jobs)].copies,
        forall|j: int|
            most_wanted(jobs) < j < jobs.len() ==> (#[trigger] jobs[j]).copies < jobs[most_wanted(
                jobs,
            )].copies,
    decreases jobs.len(),
{
    if jobs.len() > 1 {
        lemma_most_wanted(jobs.drop_last());
        let i = most_wanted(jobs.drop_last());
        assert forall|j: int| 0 <= j < jobs.len() implies (#[trigger] jobs[j]).copies
            <= jobs[most_wanted(jobs)].copies by {
            if j < jobs.len() - 1 {
                assert(jobs.drop_last()[j] == jobs[j]);
            }
        }
        assert forall|j: int| most_wanted(jobs) < j < jobs.len() implies (#[trigger] jobs[j]).copies
            < jobs[most_wanted(jobs)].copies by {
            if j < jobs.len() - 1 {
                assert(jobs.drop_last()[j] == jobs[j]);
            }
        }
    }
}

/// Finds where the run of characters of class `class` ends that starts at
/// `from`.
pub fn scan(chars: &Vec<char>, from: usize, class: CharClass) -> (end: usize)
    requires
        from <= chars@.len(),
    ensures
        end == run_end(chars@, from as int, class),
        from <= end <= chars@.len(),
        forall|j: int| from <= j < end ==> in_class(chars@[j], class),
{
    let mut end: usize = from;
    loop
        invariant
            from <= end <= chars@.len(),
            run_end(chars@, from as int, class) == run_end(chars@, end as int, class),
            forall|j: int| from <= j < end ==> in_class(chars@[j], class),
        ensures
            from <= end <= chars@.len(),
            end == run_end(chars@, from as int, class),
            forall|j: int| from <= j < end ==> in_class(chars@[j], class),
        decreases chars@.len() - end,
    {
        if end >= chars.len() {
            break ;
        }
        let c = chars[end];
        let inside = match class {
            CharClass::Digit => '0' <= c && c <= '9',
            CharClass::NotComma => c != ',',
            CharClass::LetterOrBlank => ('a' <= c && c <= 'z') || ('A' <= c && c <= 'Z') || c
                == ' ' || c == '\t',
        };
        if !inside {
            break ;
        }
        end = end + 1;
    }
    end
}

/// Reads the digits `chars[from..to]` as a number of copies.
pub fn copies_at(chars: &Vec<char>, from: usize, to: usize) -> (copies: Option<usize>)
    requires
        from <= to <= chars@.len(),
        forall|j: int| from <= j < to ==> in_class(chars@[j], CharClass::Digit),
    ensures
        match copies {
            Some(n) => decimal_value(digit_bytes(chars@, from as int, to as int)) == n,
            None => decimal_value(digit_bytes(chars@, from as int, to as int)) > usize::MAX,
        },
{
    let ghost digits = digit_bytes(chars@, from as int, to as int);
    assert(crate::decimal::all_digits(digits)) by {
        assert forall|j: int| 0 <= j < digits.len() implies crate::decimal::is_digit(
            #[trigger] digits[j],
        ) by {
            assert(in_class(chars@[from + j], CharClass::Digit));
        }
    }
    let mut acc: u128 = 0;
    let mut i: usize = from;
    proof {
        assert(digits.take(0) =~= Seq::<u8>::empty());
    }
    while i < to
        invariant
            from <= i <= to <= chars@.len(),
            digits == digit_bytes(chars@, from as int, to as int),
            crate::decimal::all_digits(digits),
            forall|j: int| from <= j < to ==> in_class(chars@[j], CharClass::Digit),
            acc == decimal_value(digits.take(i - from)),
            acc <= usize::MAX,
        decreases to - i,
    {
        let c = chars[i];
        assert(in_class(c, CharClass::Digit));
        assert(digits[i - from] == c as u8);
        let d: u8 = c as u8;
        proof {
            assert(digits.take(i - from + 1).drop_last() =~= digits.take(i - from));
        }
        acc = acc * 10 + (d - 0x30) as u128;
        if acc > usize::MAX as u128 {
            proof {
                lemma_value_of_prefix(digits, i - from + 1);
            }
            return None;
        }
        i = i + 1;
    }
    proof {
        assert(digits.take(i - from) =~= digits);
    }
    Some(acc as usize)
}

/// The characters `chars[from..to]` as a string.
pub fn string_of(chars: &Vec<char>, from: usize, to: usize) -> (text: String)
    requires
        from <= to <= chars@.len(),
    ensures
        text@ == chars@.subrange(from as int, to as int),
{
    let mut text = String::new();
    let mut i: usize = from;
    while i < to
        invariant
            from <= i <= to <= chars@.len(),
            text@ == chars@.subrange(from as int, i as int),
        decreases to - i,
    {
        text.push(chars[i]);
        i = i + 1;
        assert(text@ =~= chars@.subrange(from as int, i as int));
    }
    text
}

/// The characters of a string.
pub fn chars_of(text: &str) -> (chars: Vec<char>)
    ensures
        chars@ == text@,
{
    let mut chars: Vec<char> = Vec::new();
    for c in it: text.chars()
        invariant
            it.seq() == text@,
            chars@ == it.seq().take(it.index() as int),
    {
        chars.push(c);
    }
    assert(chars@ =~= text@);
    chars
}

/// Reads the job that stands at `from`. See [`job_at`].
pub fn parse_job(chars: &Vec<char>, from: usize, name: CharClass) -> (r: Result<
    (Job, usize),
    JobError,
>)
    requires
        from <= chars@.len(),
    ensures
        match r {
            Ok((job, next)) => job_at(chars@, from as int, name) == Ok::<(JobView, int), JobError>(
                (job@, next as int),
            ) && from < next <= chars@.len(),
            Err(e) => job_at(chars@, from as int, name) == Err::<(JobView, int), JobError>(e),
        },
{
    let d = scan(chars, from, CharClass::Digit);
    if d == from {
        return Err(JobError::Syntax);
    }
    let copies = match copies_at(chars, from, d) {
        Some(copies) => copies,
        None => {
            return Err(JobError::TooManyCopies);
        },
    };
    if chars.len() - d < 2 || chars[d] != 'x' || chars[d + 1] != ' ' {
        return Err(JobError::Syntax);
    }
    let t = scan(chars, d + 2, name);
    if t == d + 2 {
        return Err(JobError::Syntax);
    }
    let toy = string_of(chars, d + 2, t);
    Ok((Job { toy, copies }, t))
}

/// Reads the jobs of a request. See [`jobs_of`].
pub fn parse_jobs(message: &str, name: CharClass) -> (r: Result<Vec<Job>, JobError>)
    ensures
        match r {
            Ok(jobs) => jobs_of(message@, name) == Ok::<Seq<JobView>, JobError>(job_views(jobs@))
                && jobs@.len() > 0,
            Err(e) => jobs_of(message@, name) == Err::<Seq<JobView>, JobError>(e),
        },
{
    let chars = chars_of(message);
    let mut jobs: Vec<Job> = Vec::new();
    let mut at: usize = match parse_job(&chars, 0, name) {
        Err(e) => {
            return Err(e);
        },
        Ok((job, next)) => {
            jobs.push(job);
            next
        },
    };
    let ghost first = jobs@[0]@;
    assert(job_views(jobs@) =~= seq![first]);
    loop
        invariant
            chars@ == message@,
            at <= chars@.len(),
            jobs@.len() > 0,
            jobs_of(message@, name) == gather(job_views(jobs@), jobs_after(chars@, at as int, name)),
        ensures
            jobs@.len() > 0,
            jobs_of(message@, name) == Ok::<Seq<JobView>, JobError>(job_views(jobs@)),
        decreases chars@.len() - at,
    {
        let ghost before = job_views(jobs@);
        if at >= chars.len() || chars[at] != ',' {
            assert(before + Seq::<JobView>::empty() =~= before);
            break ;
        }
        match parse_job(&chars, at + 1, name) {
            Err(JobError::Syntax) => {
                assert(before + Seq::<JobView>::empty() =~= before);
                break ;
            },
            Err(JobError::TooManyCopies) => {
                return Err(JobError::TooManyCopies);
            },
            Ok((job, next)) => {
                let ghost view = job@;
                jobs.push(job);
                proof {
                    assert(job_views(jobs@) =~= before.push(view));
                    let others = jobs_after(chars@, next as int, name);
                    if others is Ok {
                        assert(before + (seq![view] + others.unwrap()) =~= before.push(view)
                            + others.unwrap());
                    }
                }
                at = next;
            },
        }
    }
    Ok(jobs)
}

/// Reads a request, in which the name of a toy runs up to the next comma.
pub fn parse_message(message: &str) -> (r: Result<Vec<Job>, JobError>)
    ensures
        match r {
            Ok(jobs) => jobs_of(message@, CharClass::NotComma) == Ok::<Seq<JobView>, JobError>(
                job_views(jobs@),
            ) && jobs@.len() > 0,
            Err(e) => jobs_of(message@, CharClass::NotComma) == Err::<Seq<JobView>, JobError>(e),
        },
{
    parse_jobs(message, CharClass::NotComma)
}

impl Job {
    /// A job for `copies` copies of `toy`.
    pub fn new(toy: String, copies: usize) -> (job: Job)
        ensures
            job@ == (JobView { toy: toy@, copies }),
    {
        Job { toy, copies }
    }

    /// The job as text: the number of copies, `x`, a blank, and the toy.
    pub fn to_string(&self) -> (text: String)
        ensures
            text@ == job_text(self@),
    {
        let mut digits: Vec<u8> = Vec::new();
        push_decimal(&mut digits, self.copies as u64);
        let mut text = String::new();
        let mut i: usize = 0;
        while i < digits.len()
            invariant
                i <= digits@.len(),
                digits@ == decimal_digits(self.copies as nat),
                text@ == digits@.take(i as int).map_values(|b: u8| b as char),
            decreases digits@.len() - i,
        {
            text.push(digits[i] as char);
            i = i + 1;
            assert(text@ =~= digits@.take(i as int).map_values(|b: u8| b as char));
        }
        assert(digits@.take(i as int) =~= digits@);
        text.push('x');
        text.push(' ');
        let ghost head = text@;
        for c in it: self.toy.as_str().chars()
            invariant
                it.seq() == self.toy@,
                text@ == head + it.seq().take(it.index() as int),
        {
            text.push(c);
        }
        assert(text@ =~= job_text(self@));
        text
    }
}

/// Answers a request: the job that is wanted most, as text.
pub fn handle_message(message: &str) -> (r: Result<String, JobError>)
    ensures
        match r {
            Ok(text) => jobs_of(message@, CharClass::NotComma) is Ok && text@ == job_text(
                jobs_of(message@, CharClass::NotComma).unwrap()[most_wanted(
                    jobs_of(message@, CharClass::NotComma).unwrap(),
                )],
            ),
            Err(e) => jobs_of(message@, CharClass::NotComma) == Err::<Seq<JobView>, JobError>(e),
        },
{
    let jobs = match parse_message(message) {
        Ok(jobs) => jobs,
        Err(e) => {
            return Err(e);
        },
    };
    let ghost all = job_views(jobs@);
    let mut best: usize = 0;
    let mut i: usize = 1;
    proof {
        assert(all.take(1).drop_last() =~= Seq::<JobView>::empty());
    }
    while i < jobs.len()
        invariant
            1 <= i <= jobs@.len(),
            all == job_views(jobs@),
            best == most_wanted(all.take(i as int)),
            best < i,
        decreases jobs@.len() - i,
    {
        proof {
            assert(all.take(i + 1).drop_last() =~= all.take(i as int));
            assert(all.take(i + 1).last() == all[i as int]);
            assert(all.take(i + 1)[best as int] == all[best as int]);
        }
        if jobs[i].copies >= jobs[best].copies {
            best = i;
        }
        i = i + 1;
    }
    proof {
        assert(all.take(i as int) =~= all);
    }
    Ok(jobs[best].to_string())
}

/// One connection, read byte by byte: the cipher that the client has
/// picked, and the characters of the line that it is sending.
pub struct Session {
    pub cipher: Cipher,
    pub line: String,
}

impl Session {
    /// Starts a connection with the cipher that the client names.
    pub fn new(specification: &[u8]) -> (r: Result<Session, CipherError>)
        ensures
            match r {
                Ok(session) => {
                    &&& session.cipher.cipher@ == operations(specification@)
                    &&& operations(specification@).len() > 0
                    &&& session.cipher.incoming_position == 0
                    &&& session.cipher.outgoing_position == 0
                    &&& session.line@ == Seq::<char>::empty()
                },
                Err(e) => e == CipherError::Specification && operations(specification@).len()
                    == 0,
            },
    {
        match Cipher::new(specification) {
            Ok(cipher) => Ok(Session { cipher, line: String::new() }),
            Err(e) => Err(e),
        }
    }

    /// Takes the next byte that the client has sent. The byte is decoded;
    /// a newline completes the line, which comes out without it, and any
    /// other byte adds its character to the line.
    pub fn read_line(&mut self, byte: u8) -> (line: Option<String>)
        ensures
            final(self).cipher.cipher == old(self).cipher.cipher,
            final(self).cipher.incoming_position == next(old(self).cipher.incoming_position),
            final(self).cipher.outgoing_position == old(self).cipher.outgoing_position,
            match line {
                Some(line) => {
                    &&& decoded(
                        old(self).cipher.cipher@,
                        byte,
                        low(old(self).cipher.incoming_position),
                    ) == 0x0a
                    &&& line@ == old(self).line@
                    &&& final(self).line@ == Seq::<char>::empty()
                },
                None => {
                    &&& decoded(
                        old(self).cipher.cipher@,
                        byte,
                        low(old(self).cipher.incoming_position),
                    ) != 0x0a
                    &&& final(self).line@ == old(self).line@.push(
                        decoded(
                            old(self).cipher.cipher@,
                            byte,
                            low(old(self).cipher.incoming_position),
                        ) as char,
                    )
                },
            },
    {
        let decoded_byte = self.cipher.decode_byte(byte);
        if decoded_byte == 0x0a {
            let mut line = String::new();
            std::mem::swap(&mut self.line, &mut line);
            Some(line)
        } else {
            self.line.push(decoded_byte as char);
            None
        }
    }

    /// Makes of a line the bytes that go to the client: the line and a
    /// newline, encoded.
    pub fn write_line(&mut self, line: String) -> (r: Result<Vec<u8>, CipherError>)
        ensures
            final(self).line == old(self).line,
            final(self).cipher.cipher == old(self).cipher.cipher,
            final(self).cipher.incoming_position == old(self).cipher.incoming_position,
            final(self).cipher.outgoing_position == advanced(
                old(self).cipher.outgoing_position,
                encode_utf8(line@.push('\n')).len(),
            ),
            match r {
                Ok(bytes) => bytes@ == encoded_stream(
                    old(self).cipher.cipher@,
                    encode_utf8(line@.push('\n')),
                    old(self).cipher.outgoing_position,
                ) && bytes@ != encode_utf8(line@.push('\n')),
                Err(e) => e == CipherError::NoEffect && encoded_stream(
                    old(self).cipher.cipher@,
                    encode_utf8(line@.push('\n')),
                    old(self).cipher.outgoing_position,
                ) == encode_utf8(line@.push('\n')),
            },
    {
        let mut line = line;
        line.push('\n');
        self.cipher.encode(line.as_str().as_bytes())
    }
}

} // verus!
