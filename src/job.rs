//! The job's configuration, its validation, and the start of a run.
use vstd::prelude::*;
use crate::dispatch::{views, Dispatcher};
use crate::invoke::{command_spec, compress_command, Outcome};
use crate::path::{has_stem, output_path, PathError};
use crate::scale::Scale;

verus! {

/// Highest compression level the codec takes.
pub const MAX_COMPRESSION: u8 = 51;

/// A transcoding job: the inputs and the parameters shared by all of them.
pub struct Job {
    pub num_workers: u8,
    pub filenames: Vec<String>,
    pub format: String,
    pub scale: Scale,
    pub compression: u8,
}

/// Why a job cannot start.
#[derive(Clone, Copy, Debug, PartialEq, Eq, Structural)]
pub enum ConfigError {
    /// The job has no inputs.
    EmptyInputs,
    /// The job asks for no workers.
    NoWorkers,
    /// The compression level is above the codec's highest.
    CompressionOutOfRange,
    /// The input at this index does not exist; the first such one.
    MissingInput(usize),
}

/// Index of the first `false`, or `-1` when there is none.
pub open spec fn first_false(s: Seq<bool>) -> int
    decreases s.len(),
{
    if s.len() == 0 {
        -1
    } else if first_false(s.drop_last()) >= 0 {
        first_false(s.drop_last())
    } else if !s.last() {
        s.len() - 1
    } else {
        -1
    }
}

/// The error a job with these parameters is refused with, checked in this
/// order; `exists` tells for each input whether it is there.
pub open spec fn config_error(n_inputs: nat, workers: u8, compression: u8, exists: Seq<bool>) -> Option<
    ConfigError,
> {
    if n_inputs == 0 {
        Some(ConfigError::EmptyInputs)
    } else if workers == 0 {
        Some(ConfigError::NoWorkers)
    } else if compression > MAX_COMPRESSION {
        Some(ConfigError::CompressionOutOfRange)
    } else if first_false(exists) >= 0 {
        Some(ConfigError::MissingInput(first_false(exists) as usize))
    } else {
        None
    }
}

pub open spec fn is_standard(job: Job) -> bool {
    &&& job.num_workers == 2
    &&& job.format@ == "mp4"@
    &&& job.scale@ == ("0.75"@, 75nat, 100nat)
    &&& job.compression == 23
}

impl Default for Job {
    /// No inputs, two workers, `mp4`, scale `0.75`, compression 23.
    fn default() -> (r: Job)
        ensures
            is_standard(r),
            r.filenames@.len() == 0,
    {
        Job {
            filenames: Vec::new(),
            num_workers: 2,
            format: String::from_str("mp4"),
            scale: Scale::standard(),
            compression: 23,
        }
    }
}

impl Job {
    /// A job over `filenames` with the standard parameters.
    pub fn new(filenames: Vec<String>) -> (r: Job)
        ensures
            is_standard(r),
            r.filenames@ == filenames@,
    {
        Job {
            filenames,
            num_workers: 2,
            format: String::from_str("mp4"),
            scale: Scale::standard(),
            compression: 23,
        }
    }

    /// Checks the job before any work starts; `exists` tells for each input
    /// whether it is there.
    pub fn validate(&self, exists: &Vec<bool>) -> (r: Result<(), ConfigError>)
        requires
            exists@.len() == self.filenames@.len(),
        ensures
            r is Ok <==> config_error(self.filenames@.len(), self.num_workers, self.compression, exists@)
                is None,
            r matches Err(e) ==> config_error(
                self.filenames@.len(),
                self.num_workers,
                self.compression,
                exists@,
            ) == Some(e),
    {
        if self.filenames.len() == 0 {
            return Err(ConfigError::EmptyInputs);
        }
        if self.num_workers == 0 {
            return Err(ConfigError::NoWorkers);
        }
        if self.compression > MAX_COMPRESSION {
            return Err(ConfigError::CompressionOutOfRange);
        }
        let n = exists.len();
        let mut k: usize = 0;
        while k < n
            invariant
                n == exists@.len(),
                n == self.filenames@.len(),
                n > 0,
                self.num_workers > 0,
                self.compression <= MAX_COMPRESSION,
                k <= n,
                forall|j: int| 0 <= j < k ==> exists@[j],
            decreases n - k,
        {
            if !exists[k] {
                proof {
                    lemma_first_false_at(exists@, k as int);
                }
                return Err(ConfigError::MissingInput(k));
            }
            k = k + 1;
        }
        proof {
            lemma_first_false_none(exists@);
        }
        Ok(())
    }

    /// Validates the job and, when it may run, seeds a work queue with all
    /// its inputs. A refused job hands out nothing.
    pub fn start(&self, exists: &Vec<bool>) -> (r: Result<Dispatcher, ConfigError>)
        requires
            exists@.len() == self.filenames@.len(),
        ensures
            match r {
                Ok(d) => {
                    &&& config_error(self.filenames@.len(), self.num_workers, self.compression, exists@)
                        is None
                    &&& d.wf()
                    &&& d.items() == views(self.filenames@)
                    &&& d.taken() == 0
                    &&& d.records().len() == 0
                    &&& d.done() == Seq::new(self.filenames@.len(), |i: int| false)
                },
                Err(e) => config_error(self.filenames@.len(), self.num_workers, self.compression, exists@)
                    == Some(e),
            },
    {
        self.validate(exists)?;
        Ok(Dispatcher::new(copy_strings(&self.filenames)))
    }
}

impl Job {
    /// The transcoder's command line for one of this job's inputs; an input
    /// without a file stem gets no command and is already decided as
    /// `InvalidPath`.
    pub fn command_for(&self, input: &str) -> (r: Result<Vec<String>, Outcome>)
        ensures
            match r {
                Ok(args) => has_stem(input@) && args.deep_view() == command_spec(
                    input@,
                    output_path(input@, self.format@),
                    self.compression as nat,
                    self.scale@.0,
                ),
                Err(o) => !has_stem(input@) && o == Outcome::InvalidPath,
            },
    {
        match compress_command(input, self.format.as_str(), self.compression, &self.scale) {
            Ok(args) => Ok(args),
            Err(PathError::InvalidPath) => Err(Outcome::InvalidPath),
        }
    }
}

fn copy_strings(v: &Vec<String>) -> (r: Vec<String>)
    ensures
        r@ == v@,
{
    let mut out: Vec<String> = Vec::new();
    let n = v.len();
    let mut k: usize = 0;
    while k < n
        invariant
            n == v@.len(),
            k <= n,
            out@ == v@.take(k as int),
        decreases n - k,
    {
        out.push(v[k].clone());
        k = k + 1;
        proof {
            assert(out@ =~= v@.take(k as int));
        }
    }
    assert(v@.take(n as int) =~= v@);
    out
}

proof fn lemma_first_false_at(s: Seq<bool>, k: int)
    requires
        0 <= k < s.len(),
        !s[k],
        forall|j: int| 0 <= j < k ==> s[j],
    ensures
        first_false(s) == k,
    decreases s.len(),
{
    if s.len() - 1 > k {
        lemma_first_false_at(s.drop_last(), k);
    } else {
        lemma_first_false_none(s.drop_last());
    }
}

proof fn lemma_first_false_none(s: Seq<bool>)
    requires
        forall|j: int| 0 <= j < s.len() ==> s[j],
    ensures
        first_false(s) == -1,
    decreases s.len(),
{
    if s.len() > 0 {
        lemma_first_false_none(s.drop_last());
    }
}

} // verus!
