//! Platform tags: the (interpreter, abi, platform) triples a Python
//! interpreter reports for itself.
//!
//! The interpreter is probed by running a small script in a subprocess; that
//! is the runtime's work. This module owns the decisions: what each probe
//! outcome means, and how the reported JSON triples become tags.

use crate::strutil::{lossy_utf8, trim_spaces};
use vstd::prelude::*;

verus! {

/// One platform tag.
#[derive(Debug, Clone, PartialEq, Eq)]
pub struct WheelTag {
    /// The interpreter part, for instance `cp311`.
    pub interpreter: String,
    /// The ABI part, for instance `abi3`.
    pub abi: String,
    /// The platform part, for instance `manylinux_2_17_x86_64`.
    pub platform: String,
}

/// The set of tags an interpreter supports.
#[derive(Debug, Clone, PartialEq, Eq)]
pub struct WheelTags {
    /// The tags, most specific first, as the interpreter reported them.
    pub tags: Vec<WheelTag>,
}

impl WheelTags {
    /// The tags as triples of character sequences.
    pub open spec fn tags_view(&self) -> Seq<(Seq<char>, Seq<char>, Seq<char>)> {
        self.tags@.map_values(|t: WheelTag| (t.interpreter@, t.abi@, t.platform@))
    }
}

/// The error returned when the interpreter probe fails.
#[derive(Debug)]
pub enum FromPythonError {
    /// No `python` executable could be found.
    CouldNotFindPythonExecutable,
    /// Starting the interpreter failed; holds the I/O message.
    FailedToExecute(String),
    /// The interpreter's output is not the expected JSON; holds the parser's
    /// message.
    FailedToParse(String),
    /// The interpreter exited unsuccessfully; holds its exit code when there
    /// is one.
    FailedToRun(Option<i32>),
}

/// What `serde_json` makes of a probe's output: the reported triples, or the
/// parse error's message.
pub uninterp spec fn json_tag_triples(s: Seq<char>) -> Result<
    Seq<(Seq<char>, Seq<char>, Seq<char>)>,
    Seq<char>,
>;

/// Relies on `serde_json::from_str` at `Vec<(String, String, String)>`:
/// parsing is a function of the input text alone.
#[verifier::external_body]
fn parse_tag_triples(s: &str) -> (r: Result<Vec<(String, String, String)>, String>)
    ensures
        match r {
            Ok(v) => json_tag_triples(s@) == Ok::<
                Seq<(Seq<char>, Seq<char>, Seq<char>)>,
                Seq<char>,
            >(v.deep_view()),
            Err(e) => json_tag_triples(s@) == Err::<
                Seq<(Seq<char>, Seq<char>, Seq<char>)>,
                Seq<char>,
            >(e@),
        },
{
    serde_json::from_str::<Vec<(String, String, String)>>(s).map_err(|e| e.to_string())
}

/// How a finished interpreter probe looks to the coordinator: the runtime
/// could not find the executable, failed to start it, or ran it and captured
/// its exit code and standard output.
#[derive(Debug)]
pub enum PythonProbe {
    /// The executable does not exist.
    NotFound,
    /// Starting it failed; holds the I/O message.
    ExecFailed(String),
    /// It ran; holds the exit code, when there is one, and standard output.
    Exited(Option<i32>, Vec<u8>),
}

impl WheelTags {
    /// Builds the tag set from the triples the interpreter reported.
    pub fn from_tag_list(triples: Vec<(String, String, String)>) -> (r: WheelTags)
        ensures
            r.tags_view() == triples.deep_view(),
    {
        let mut tags: Vec<WheelTag> = Vec::new();
        let n = triples.len();
        let mut i: usize = 0;
        while i < n
            invariant
                0 <= i <= n,
                n == triples@.len(),
                i == tags@.len(),
                forall|j: int|
                    0 <= j < i ==> (#[trigger] tags@[j]).interpreter@ == triples@[j].0@
                        && tags@[j].abi@ == triples@[j].1@ && tags@[j].platform@ == triples@[j].2@,
            decreases n - i,
        {
            let t = &triples[i];
            tags.push(
                WheelTag {
                    interpreter: t.0.clone(),
                    abi: t.1.clone(),
                    platform: t.2.clone(),
                },
            );
            i = i + 1;
        }
        let r = WheelTags { tags };
        proof {
            assert forall|j: int| 0 <= j < r.tags_view().len() implies r.tags_view()[j]
                == triples.deep_view()[j] by {
                assert(r.tags_view()[j] == (r.tags@[j].interpreter@, r.tags@[j].abi@,
                r.tags@[j].platform@));
            }
            assert(r.tags_view() =~= triples.deep_view());
        }
        r
    }

    /// Reads a probe's outcome: a missing interpreter and a failed start are
    /// their own errors; a non-zero exit fails with its code; otherwise the
    /// standard output, decoded leniently and trimmed, must parse as a JSON
    /// list of triples, which becomes the tag set.
    pub fn from_python_probe(probe: PythonProbe) -> (r: Result<WheelTags, FromPythonError>)
        ensures
            match r {
                Ok(tags) => probe matches PythonProbe::Exited(code, out) && code == Some(0i32)
                    && (json_tag_triples(trim_spaces(lossy_utf8(out@))) matches Ok(v) && tags.tags_view()
                    == v),
                Err(FromPythonError::CouldNotFindPythonExecutable) => probe is NotFound,
                Err(FromPythonError::FailedToExecute(m)) => probe matches PythonProbe::ExecFailed(
                    e,
                ) && m == e,
                Err(FromPythonError::FailedToRun(c)) => probe matches PythonProbe::Exited(
                    code,
                    _,
                ) && code != Some(0i32) && c == code,
                Err(FromPythonError::FailedToParse(m)) => probe matches PythonProbe::Exited(
                    code,
                    out,
                ) && code == Some(0i32) && json_tag_triples(trim_spaces(lossy_utf8(out@)))
                    == Err::<Seq<(Seq<char>, Seq<char>, Seq<char>)>, Seq<char>>(m@),
            },
    {
        let (code, stdout) = match probe {
            PythonProbe::NotFound => {
                return Err(FromPythonError::CouldNotFindPythonExecutable);
            },
            PythonProbe::ExecFailed(m) => {
                return Err(FromPythonError::FailedToExecute(m));
            },
            PythonProbe::Exited(code, stdout) => (code, stdout),
        };
        let ok = match code {
            Some(c) => c == 0,
            None => false,
        };
        if !ok {
            return Err(FromPythonError::FailedToRun(code));
        }
        let text = crate::strutil::utf8_to_string_lossy(stdout.as_slice());
        let trimmed = crate::strutil::trim(text.as_str());
        match parse_tag_triples(trimmed.as_str()) {
            Ok(triples) => Ok(WheelTags::from_tag_list(triples)),
            Err(e) => Err(FromPythonError::FailedToParse(e)),
        }
    }
}

} // verus!
