//! One connection of the service: the cipher that the client has picked,
//! and what each of its requests is answered with.
use super::protocol::{
    advanced, decoded_stream, encoded_stream, operations, Cipher, CipherError,
};
use super::session::{
    job_text, job_views, jobs_of, parse_jobs, CharClass, Job, JobError, JobView,
};
use vstd::prelude::*;
use vstd::utf8::encode_utf8;

verus! {

/// Why a request got no answer.
#[derive(Debug, PartialEq, Eq, Clone, Copy)]
pub enum RequestError {
    /// The cipher of the connection is none, or changes nothing.
    Cipher(CipherError),
    /// The request is no list of jobs.
    Job(JobError),
}

/// One connection: nothing before the client has named its cipher, then
/// that cipher.
pub struct Server {
    pub client: Option<Cipher>,
}

/// The index of the job that is wanted least: of those with the fewest
/// copies, the first.
pub open spec fn least_wanted(jobs: Seq<JobView>) -> int
    decreases jobs.len(),
{
    if jobs.len() <= 1 {
        0
    } else {
        let i = least_wanted(jobs.drop_last());
        if jobs.last().copies < jobs[i].copies {
            jobs.len() - 1
        } else {
            i
        }
    }
}

/// The job that [`least_wanted`] picks has the fewest copies, and fewer
/// than every job before it.
pub proof fn lemma_least_wanted(jobs: Seq<JobView>)
    requires
        jobs.len() > 0,
    ensures
        0 <= least_wanted(jobs) < jobs.len(),
        forall|j: int|
            0 <= j < jobs.len() ==> (#[trigger] jobs[j]).copies >= jobs[least_wanted(jobs)].copies,
        forall|j: int|
            0 <= j < least_wanted(jobs) ==> (#[trigger] jobs[j]).copies > jobs[least_wanted(
                jobs,
            )].copies,
    decreases jobs.len(),
{
    if jobs.len() > 1 {
        lemma_least_wanted(jobs.drop_last());
        assert forall|j: int| 0 <= j < jobs.len() implies (#[trigger] jobs[j]).copies
            >= jobs[least_wanted(jobs)].copies by {
            if j < jobs.len() - 1 {
                assert(jobs.drop_last()[j] == jobs[j]);
            }
        }
        assert forall|j: int| 0 <= j < least_wanted(jobs) implies (#[trigger] jobs[j]).copies
            > jobs[least_wanted(jobs)].copies by {
            if j < jobs.len() - 1 {
                assert(jobs.drop_last()[j] == jobs[j]);
            }
        }
    }
}

/// The text that the bytes `bytes` stand for, one character for each.
pub open spec fn text_of(bytes: Seq<u8>) -> Seq<char> {
    bytes.map_values(|b: u8| b as char)
}

/// Reads a request, in which the name of a toy is made of letters, blanks
/// and tabs.
pub fn parse_message(message: &str) -> (r: Result<Vec<Job>, JobError>)
    ensures
        match r {
            Ok(jobs) => jobs_of(message@, CharClass::LetterOrBlank) == Ok::<
                Seq<JobView>,
                JobError,
            >(job_views(jobs@)) && jobs@.len() > 0,
            Err(e) => jobs_of(message@, CharClass::LetterOrBlank) == Err::<
                Seq<JobView>,
                JobError,
            >(e),
        },
{
    parse_jobs(message, CharClass::LetterOrBlank)
}

/// The answer to a request: the job that is wanted least, as text.
pub open spec fn answer_of(message: Seq<char>) -> Result<Seq<char>, JobError> {
    match jobs_of(message, CharClass::LetterOrBlank) {
        Ok(jobs) => Ok(job_text(jobs[least_wanted(jobs)])),
        Err(e) => Err(e),
    }
}

/// Answers a request: the job that is wanted least, as text.
pub fn handle_message(message: &str) -> (r: Result<String, JobError>)
    ensures
        match r {
            Ok(text) => answer_of(message@) == Ok::<Seq<char>, JobError>(text@),
            Err(e) => answer_of(message@) == Err::<Seq<char>, JobError>(e),
        },
{
    let jobs = match parse_message(message) {
        Ok(jobs) => jobs,
        Err(e) => {
            return Err(e);
        },
    };
    let ghost all = job_views(jobs@);
    let mut best: usize = 0;
    let mut i: usize = 1;
    proof {
        assert(all.take(1).drop_last() =~= Seq::<JobView>::empty());
    }
    while i < jobs.len()
        invariant
            1 <= i <= jobs@.len(),
            all == job_views(jobs@),
            best == least_wanted(all.take(i as int)),
            best < i,
        decreases jobs@.len() - i,
    {
        proof {
            assert(all.take(i + 1).drop_last() =~= all.take(i as int));
            assert(all.take(i + 1).last() == all[i as int]);
            assert(all.take(i + 1)[best as int] == all[best as int]);
        }
        if jobs[i].copies < jobs[best].copies {
            best = i;
        }
        i = i + 1;
    }
    proof {
        assert(all.take(i as int) =~= all);
    }
    Ok(jobs[best].to_string())
}

/// Makes text of bytes, one character for each.
pub fn text_from(bytes: &[u8]) -> (text: String)
    ensures
        text@ == text_of(bytes@),
{
    let mut text = String::new();
    let mut i: usize = 0;
    while i < bytes.len()
        invariant
            i <= bytes@.len(),
            text@ == text_of(bytes@.take(i as int)),
        decreases bytes@.len() - i,
    {
        text.push(bytes[i] as char);
        i = i + 1;
        assert(text@ =~= text_of(bytes@.take(i as int)));
    }
    assert(bytes@.take(i as int) =~= bytes@);
    text
}

/// What a connection with the cipher `cipher` answers to the request
/// `bytes`: the request is decoded, read and answered, and the answer is
/// encoded. A cipher that changes nothing of either is refused.
pub open spec fn response_of(cipher: Cipher, bytes: Seq<u8>) -> Result<Seq<u8>, RequestError> {
    let request = decoded_stream(cipher.cipher@, bytes, cipher.incoming_position);
    if request == bytes {
        Err(RequestError::Cipher(CipherError::NoEffect))
    } else {
        match answer_of(text_of(request)) {
            Err(e) => Err(RequestError::Job(e)),
            Ok(text) => {
                let plain = encode_utf8(text);
                let response = encoded_stream(cipher.cipher@, plain, cipher.outgoing_position);
                if response == plain {
                    Err(RequestError::Cipher(CipherError::NoEffect))
                } else {
                    Ok(response)
                }
            },
        }
    }
}

/// How many bytes a connection with the cipher `cipher` writes in answer
/// to the request `bytes`: those of the answer, if there is one.
pub open spec fn written(cipher: Cipher, bytes: Seq<u8>) -> nat {
    let request = decoded_stream(cipher.cipher@, bytes, cipher.incoming_position);
    if request == bytes {
        0
    } else {
        match answer_of(text_of(request)) {
            Err(_) => 0,
            Ok(text) => encode_utf8(text).len(),
        }
    }
}

impl Server {
    /// A connection whose client has not named its cipher yet.
    pub fn new() -> (server: Server)
        ensures
            server.client is None,
    {
        Server { client: None }
    }

    /// Takes the cipher that the client names, at the start of both
    /// streams.
    pub fn start(&mut self, specification: &[u8]) -> (r: Result<(), CipherError>)
        ensures
            match r {
                Ok(_) => {
                    &&& final(self).client is Some
                    &&& final(self).client.unwrap().cipher@ == operations(specification@)
                    &&& operations(specification@).len() > 0
                    &&& final(self).client.unwrap().incoming_position == 0
                    &&& final(self).client.unwrap().outgoing_position == 0
                },
                Err(e) => {
                    &&& e == CipherError::Specification
                    &&& operations(specification@).len() == 0
                    &&& final(self).client == old(self).client
                },
            },
    {
        match Cipher::new(specification) {
            Ok(cipher) => {
                self.client = Some(cipher);
                Ok(())
            },
            Err(e) => Err(e),
        }
    }

    /// Answers one request of the client. Both streams move on by what was
    /// read and written, whether the answer is given or refused.
    pub fn handle_request(&mut self, bytes: &[u8]) -> (r: Result<Vec<u8>, RequestError>)
        requires
            old(self).client is Some,
        ensures
            match r {
                Ok(response) => response_of(old(self).client.unwrap(), bytes@) == Ok::<
                    Seq<u8>,
                    RequestError,
                >(response@),
                Err(e) => response_of(old(self).client.unwrap(), bytes@) == Err::<
                    Seq<u8>,
                    RequestError,
                >(e),
            },
            final(self).client is Some,
            final(self).client.unwrap().cipher == old(self).client.unwrap().cipher,
            final(self).client.unwrap().incoming_position == advanced(
                old(self).client.unwrap().incoming_position,
                bytes@.len(),
            ),
            final(self).client.unwrap().outgoing_position == advanced(
                old(self).client.unwrap().outgoing_position,
                written(old(self).client.unwrap(), bytes@),
            ),
    {
        let mut cipher = self.client.take().unwrap();
        let decoded = cipher.decode(bytes);
        let request = match decoded {
            Ok(request) => request,
            Err(e) => {
                self.client = Some(cipher);
                return Err(RequestError::Cipher(e));
            },
        };
        let message = text_from(request.as_slice());
        let response = match handle_message(message.as_str()) {
            Ok(response) => response,
            Err(e) => {
                self.client = Some(cipher);
                return Err(RequestError::Job(e));
            },
        };
        let encoded = cipher.encode(response.as_str().as_bytes());
        self.client = Some(cipher);
        match encoded {
            Ok(bytes) => Ok(bytes),
            Err(e) => Err(RequestError::Cipher(e)),
        }
    }
}

} // verus!
