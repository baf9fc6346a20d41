//! The build coordinator: turns a source distribution into a wheel through a
//! sandboxed build, with per-source single-flight semantics, a binary wheel
//! cache keyed by source identity and interpreter version, and optional
//! preservation of failed build sandboxes.
//!
//! The coordinator's decisions are synchronous functions over its state.
//! The surrounding runtime performs each decided action — subscribe to a
//! broadcast channel, construct a sandbox, run a build command — and hands
//! the outcome back; sandboxes and channels appear here as numeric handles.

use crate::strutil::{str_eq, str_lt};
use vstd::prelude::*;

verus! {

/// An interpreter version; part of every build-cache key.
#[derive(Debug, Clone, Copy, PartialEq, Eq, Structural, Hash)]
pub struct PythonInterpreterVersion {
    /// Major version.
    pub major: u32,
    /// Minor version.
    pub minor: u32,
    /// Patch version.
    pub patch: u32,
}

impl PythonInterpreterVersion {
    /// Makes a version from its parts.
    pub fn new(major: u32, minor: u32, patch: u32) -> (r: PythonInterpreterVersion)
        ensures
            r.major == major && r.minor == minor && r.patch == patch,
    {
        PythonInterpreterVersion { major, minor, patch }
    }
}

/// What to do with a build sandbox when its build fails.
#[derive(Debug, Clone, Copy, PartialEq, Eq, Structural)]
pub enum OnWheelBuildFailure {
    /// Delete the sandbox's working directory (the default).
    DeleteBuildEnv,
    /// Keep the sandbox's working directory for post-mortem inspection.
    SaveBuildEnv,
}

/// The error a failed build or a failed sandbox setup surfaces.
#[derive(Debug)]
pub enum WheelBuildError {
    /// The message: captured stderr, or a description of the setup failure.
    Error(String),
}

/// The key under which a built wheel is cached: the source's identity plus
/// the interpreter version it was built for.
#[derive(Debug, Clone)]
pub struct WheelCacheKey {
    /// The distribution's normalized name.
    pub distribution: String,
    /// The source's version text.
    pub version: String,
    /// A digest of the source archive's bytes.
    pub source_hash: String,
    /// The interpreter the wheel was built for.
    pub python_version: PythonInterpreterVersion,
}

impl WheelCacheKey {
    /// Derives the cache key for a source distribution under an interpreter.
    pub fn from_sdist(
        distribution: String,
        version: String,
        source_hash: String,
        python_version: &PythonInterpreterVersion,
    ) -> (r: WheelCacheKey)
        ensures
            r.distribution@ == distribution@,
            r.version@ == version@,
            r.source_hash@ == source_hash@,
            r.python_version == *python_version,
    {
        WheelCacheKey {
            distribution,
            version,
            source_hash,
            python_version: *python_version,
        }
    }

    /// Whether two keys name the same cached wheel: every component equal.
    pub open spec fn spec_matches(&self, other: &WheelCacheKey) -> bool {
        &&& self.distribution@ == other.distribution@
        &&& self.version@ == other.version@
        &&& self.source_hash@ == other.source_hash@
        &&& self.python_version == other.python_version
    }

    /// Decides `spec_matches` executably.
    pub fn matches(&self, other: &WheelCacheKey) -> (r: bool)
        ensures
            r == self.spec_matches(other),
    {
        str_eq(self.distribution.as_str(), other.distribution.as_str()) && str_eq(
            self.version.as_str(),
            other.version.as_str(),
        ) && str_eq(self.source_hash.as_str(), other.source_hash.as_str())
            && self.python_version.major == other.python_version.major
            && self.python_version.minor == other.python_version.minor
            && self.python_version.patch == other.python_version.patch
    }
}

/// The two commands a build sandbox can run.
#[derive(Debug, Clone, Copy, PartialEq, Eq, Structural)]
pub enum BuildPhase {
    /// Produce only the wheel's metadata.
    WheelMetadata,
    /// Produce the wheel itself.
    Wheel,
}

impl BuildPhase {
    /// The argument the sandbox's wrapper program takes for this phase.
    pub fn argument(&self) -> (r: &str)
        ensures
            *self is WheelMetadata ==> r@ == "WheelMetadata"@,
            *self is Wheel ==> r@ == "Wheel"@,
    {
        match self {
            BuildPhase::WheelMetadata => "WheelMetadata",
            BuildPhase::Wheel => "Wheel",
        }
    }
}

/// How the coordinator reads a finished build command.
#[derive(Debug)]
pub enum CommandVerdict {
    /// Exit code 0: the phase's output file names the result.
    Succeeded,
    /// Exit code 50 in the metadata phase: the backend cannot produce
    /// metadata alone and a full wheel build must run instead.
    MetadataUnsupported,
    /// Any other exit: the build failed; holds the captured stderr.
    Failed(String),
}

/// Classifies a build command's exit. Code 0 succeeds; code 50 during the
/// metadata phase demands the full-build fallback; anything else fails with
/// the captured stderr.
pub fn evaluate_command(phase: BuildPhase, exit_code: Option<i32>, stderr: String) -> (r:
    CommandVerdict)
    ensures
        match r {
            CommandVerdict::Succeeded => exit_code == Some(0i32),
            CommandVerdict::MetadataUnsupported => phase is WheelMetadata && exit_code == Some(
                50i32,
            ),
            CommandVerdict::Failed(e) => exit_code != Some(0i32) && !(phase is WheelMetadata
                && exit_code == Some(50i32)) && e@ == stderr@,
        },
{
    match exit_code {
        Some(0i32) => CommandVerdict::Succeeded,
        Some(50i32) => {
            if matches!(phase, BuildPhase::WheelMetadata) {
                CommandVerdict::MetadataUnsupported
            } else {
                CommandVerdict::Failed(stderr)
            }
        },
        _ => CommandVerdict::Failed(stderr),
    }
}

/// The value of an association list from source name to handle.
pub open spec fn entries_view(entries: Seq<(String, u64)>) -> Seq<(Seq<char>, u64)> {
    entries.map_values(|p: (String, u64)| (p.0@, p.1))
}

/// The handle a key maps to, if any.
pub open spec fn spec_lookup(entries: Seq<(Seq<char>, u64)>, key: Seq<char>) -> Option<u64>
    decreases entries.len(),
{
    if entries.len() == 0 {
        None
    } else if entries[0].0 == key {
        Some(entries[0].1)
    } else {
        spec_lookup(entries.drop_first(), key)
    }
}

/// The list with `key` bound to `val`: an existing binding is replaced,
/// otherwise the pair is appended.
pub open spec fn spec_insert(entries: Seq<(Seq<char>, u64)>, key: Seq<char>, val: u64) -> Seq<
    (Seq<char>, u64),
>
    decreases entries.len(),
{
    if entries.len() == 0 {
        seq![(key, val)]
    } else if entries[0].0 == key {
        seq![(key, val)] + entries.drop_first()
    } else {
        seq![entries[0]] + spec_insert(entries.drop_first(), key, val)
    }
}

/// Looks a key up in an association list, executably.
fn lookup(entries: &Vec<(String, u64)>, key: &str) -> (r: Option<u64>)
    ensures
        r == spec_lookup(entries_view(entries@), key@),
{
    let n = entries.len();
    let mut i: usize = 0;
    proof {
        assert(entries_view(entries@).skip(0) =~= entries_view(entries@));
    }
    while i < n
        invariant
            0 <= i <= n,
            n == entries@.len(),
            spec_lookup(entries_view(entries@), key@) == spec_lookup(
                entries_view(entries@).skip(i as int),
                key@,
            ),
        decreases n - i,
    {
        proof {
            assert(entries_view(entries@).skip(i as int)[0] == (entries@[i as int].0@, entries@[
                i as int].1));
            assert(entries_view(entries@).skip(i as int).drop_first() =~= entries_view(
                entries@,
            ).skip(i as int + 1));
        }
        if str_eq(entries[i].0.as_str(), key) {
            return Some(entries[i].1);
        }
        i = i + 1;
    }
    None
}

/// Binds a key to a handle in an association list, executably.
fn insert_entry(entries: &mut Vec<(String, u64)>, key: String, val: u64)
    ensures
        entries_view(final(entries)@) == spec_insert(entries_view(old(entries)@), key@, val),
{
    let n = entries.len();
    let mut i: usize = 0;
    while i < n && !str_eq(entries[i].0.as_str(), key.as_str())
        invariant
            0 <= i <= n,
            n == entries@.len(),
            *entries == *old(entries),
            forall|j: int| 0 <= j < i ==> #[trigger] entries_view(entries@)[j].0 != key@,
        decreases n - i,
    {
        i = i + 1;
    }
    let ghost v = entries_view(entries@);
    proof {
        lemma_insert_skip(v, key@, val, i as int);
    }
    if i < n {
        proof {
            assert(v.skip(i as int)[0] == v[i as int]);
            assert(v.skip(i as int).drop_first() =~= v.skip(i as int + 1));
        }
        entries.remove(i);
        entries.insert(i, (key, val));
        proof {
            assert(entries_view(entries@) =~= v.subrange(0, i as int) + (seq![(key@, val)]
                + v.skip(i as int + 1)));
        }
    } else {
        proof {
            assert(v.skip(i as int).len() == 0);
        }
        entries.push((key, val));
        proof {
            assert(entries_view(entries@) =~= v.subrange(0, i as int) + seq![(key@, val)]);
            assert(v.subrange(0, i as int) =~= v);
        }
    }
}

/// Splitting `spec_insert` at a scan position whose keys all differ from the
/// new key.
proof fn lemma_insert_skip(v: Seq<(Seq<char>, u64)>, key: Seq<char>, val: u64, i: int)
    requires
        0 <= i <= v.len(),
        forall|j: int| 0 <= j < i ==> #[trigger] v[j].0 != key,
    ensures
        spec_insert(v, key, val) == v.subrange(0, i) + spec_insert(v.skip(i), key, val),
    decreases i,
{
    if i == 0 {
        assert(v.skip(0) =~= v);
        assert(v.subrange(0, 0) + spec_insert(v, key, val) =~= spec_insert(v, key, val));
    } else {
        lemma_insert_skip(v.drop_first(), key, val, i - 1);
        assert(v.drop_first().subrange(0, i - 1) =~= v.subrange(1, i));
        assert(v.drop_first().skip(i - 1) =~= v.skip(i));
        assert(seq![v[0]] + (v.subrange(1, i) + spec_insert(v.skip(i), key, val)) =~= v.subrange(
            0,
            i,
        ) + spec_insert(v.skip(i), key, val));
    }
}

/// A membership test on a sequence of paths.
pub open spec fn seq_contains(s: Seq<Seq<char>>, x: Seq<char>) -> bool {
    exists|i: int| 0 <= i < s.len() && s[i] == x
}

/// The sequence with `x` added unless already present.
pub open spec fn spec_set_insert(s: Seq<Seq<char>>, x: Seq<char>) -> Seq<Seq<char>> {
    if seq_contains(s, x) {
        s
    } else {
        s.push(x)
    }
}

/// What a setup request decides, given what it finds: a finished sandbox is
/// reused; a live in-flight provisioner is waited on; otherwise the caller
/// becomes the provisioner under a fresh channel.
pub open spec fn spec_setup_action(
    ready: Option<u64>,
    in_flight: Option<u64>,
    in_flight_live: bool,
    fresh_channel: u64,
) -> SetupAction {
    match ready {
        Some(env) => SetupAction::UseCached(env),
        None => match in_flight {
            Some(ch) => if in_flight_live {
                SetupAction::Wait(ch)
            } else {
                SetupAction::Provision(fresh_channel)
            },
            None => SetupAction::Provision(fresh_channel),
        },
    }
}

/// What a caller of `begin_setup` is told to do.
#[derive(Debug, Clone, Copy, PartialEq, Eq, Structural)]
pub enum SetupAction {
    /// Share the finished sandbox with this handle.
    UseCached(u64),
    /// Subscribe to the broadcast channel with this handle and await it.
    Wait(u64),
    /// Become the provisioner, broadcasting on this fresh channel.
    Provision(u64),
}

/// A builder for wheels: the coordinator's shared state. The runtime guards
/// a value of this type with a short-lived lock and performs the actions its
/// methods decide.
pub struct WheelBuilder {
    /// Finished sandboxes by source name.
    pub venv_cache: Vec<(String, u64)>,
    /// Broadcast channels of in-flight provisioners by source name. An entry
    /// stays after its provisioner finishes or dies; whether the channel is
    /// still alive is the runtime's knowledge.
    pub in_setup_venv: Vec<(String, u64)>,
    /// Working directories of sandboxes preserved after failed builds.
    pub saved_build_envs: Vec<String>,
    /// What to do with a sandbox whose build fails.
    pub on_failure: OnWheelBuildFailure,
    /// The interpreter version builds run under.
    pub python_version: PythonInterpreterVersion,
    /// Environment variables passed through to the sandbox verbatim.
    pub env_variables: Vec<(String, String)>,
}

impl WheelBuilder {
    /// The ready map's value.
    pub open spec fn ready_map(&self) -> Seq<(Seq<char>, u64)> {
        entries_view(self.venv_cache@)
    }

    /// The in-flight map's value.
    pub open spec fn in_flight_map(&self) -> Seq<(Seq<char>, u64)> {
        entries_view(self.in_setup_venv@)
    }

    /// The preserved sandbox paths.
    pub open spec fn saved_paths(&self) -> Seq<Seq<char>> {
        self.saved_build_envs.deep_view()
    }

    /// Creates a coordinator with no sandboxes and nothing in flight.
    pub fn new(
        python_version: PythonInterpreterVersion,
        on_failure: OnWheelBuildFailure,
        env_variables: Vec<(String, String)>,
    ) -> (r: WheelBuilder)
        ensures
            r.ready_map().len() == 0,
            r.in_flight_map().len() == 0,
            r.saved_paths().len() == 0,
            r.on_failure == on_failure,
            r.python_version == python_version,
            r.env_variables == env_variables,
    {
        let r = WheelBuilder {
            venv_cache: Vec::new(),
            in_setup_venv: Vec::new(),
            saved_build_envs: Vec::new(),
            on_failure,
            python_version,
            env_variables,
        };
        proof {
            assert(r.ready_map() =~= Seq::<(Seq<char>, u64)>::empty());
            assert(r.in_flight_map() =~= Seq::<(Seq<char>, u64)>::empty());
            assert(r.saved_paths() =~= Seq::<Seq<char>>::empty());
        }
        r
    }

    /// The interpreter version builds run under.
    pub fn python_version(&self) -> (r: &PythonInterpreterVersion)
        ensures
            *r == self.python_version,
    {
        &self.python_version
    }

    /// The working directories of the sandboxes preserved so far.
    pub fn saved_build_envs(&self) -> (r: &Vec<String>)
        ensures
            r.deep_view() == self.saved_paths(),
    {
        &self.saved_build_envs
    }

    /// Decides how a setup request for `name` proceeds, registering the
    /// fresh channel when the caller becomes the provisioner.
    /// `in_flight_live` is whether the registered channel's sender is still
    /// alive — a dead one means its provisioner failed abnormally, and a new
    /// attempt starts cleanly in its place.
    pub fn begin_setup(&mut self, name: &String, in_flight_live: bool, fresh_channel: u64) -> (r:
        SetupAction)
        ensures
            r == spec_setup_action(
                spec_lookup(old(self).ready_map(), name@),
                spec_lookup(old(self).in_flight_map(), name@),
                in_flight_live,
                fresh_channel,
            ),
            r is Provision ==> final(self).in_flight_map() == spec_insert(
                old(self).in_flight_map(),
                name@,
                fresh_channel,
            ) && final(self).venv_cache == old(self).venv_cache && final(self).saved_build_envs
                == old(self).saved_build_envs && final(self).on_failure == old(self).on_failure
                && final(self).python_version == old(self).python_version
                && final(self).env_variables == old(self).env_variables,
            !(r is Provision) ==> *final(self) == *old(self),
    {
        if let Some(env) = lookup(&self.venv_cache, name.as_str()) {
            return SetupAction::UseCached(env);
        }
        match lookup(&self.in_setup_venv, name.as_str()) {
            Some(ch) => {
                if in_flight_live {
                    return SetupAction::Wait(ch);
                }
            },
            None => {},
        }
        insert_entry(&mut self.in_setup_venv, name.clone(), fresh_channel);
        SetupAction::Provision(fresh_channel)
    }

    /// Records a provisioner's finished sandbox so later requests reuse it.
    /// The runtime then broadcasts the sandbox handle to the waiters.
    pub fn finish_setup(&mut self, name: &String, env: u64)
        ensures
            final(self).ready_map() == spec_insert(old(self).ready_map(), name@, env),
            final(self).in_setup_venv == old(self).in_setup_venv,
            final(self).saved_build_envs == old(self).saved_build_envs,
            final(self).on_failure == old(self).on_failure,
            final(self).python_version == old(self).python_version,
            final(self).env_variables == old(self).env_variables,
    {
        insert_entry(&mut self.venv_cache, name.clone(), env);
    }

    /// What a waiter concludes from its broadcast receive: a sandbox handle
    /// is the provisioner's success; an explicit `None` is its failure; a
    /// closed channel means the provisioner died without broadcasting, which
    /// surfaces as its own error.
    pub fn waiter_outcome(received: Option<Option<u64>>) -> (r: Result<u64, WheelBuildError>)
        ensures
            match r {
                Ok(env) => received == Some(Some(env)),
                Err(WheelBuildError::Error(e)) => (received is None && e@
                    == "panic during setup of original build environment"@) || (received == Some(
                    None::<u64>,
                ) && e@ == "error during setup of original build environment"@),
            },
    {
        match received {
            Some(Some(env)) => Ok(env),
            Some(None) => Err(
                WheelBuildError::Error(
                    "error during setup of original build environment".to_owned(),
                ),
            ),
            None => Err(
                WheelBuildError::Error(
                    "panic during setup of original build environment".to_owned(),
                ),
            ),
        }
    }

    /// Applies the failure policy to a finished build: under the
    /// save-on-failure policy a failed build's sandbox path joins the
    /// preserved set exactly once, and the returned flag tells the runtime
    /// to detach that sandbox's directory from cleanup. The build's result
    /// passes through unchanged.
    pub fn handle_build_failure<T>(
        &mut self,
        result: Result<T, WheelBuildError>,
        work_dir: &String,
    ) -> (r: (Result<T, WheelBuildError>, bool))
        ensures
            r.0 == result,
            old(self).on_failure == OnWheelBuildFailure::SaveBuildEnv && result is Err ==> {
                &&& final(self).saved_paths() == spec_set_insert(old(self).saved_paths(), work_dir@)
                &&& r.1 == true
            },
            !(old(self).on_failure == OnWheelBuildFailure::SaveBuildEnv && result is Err) ==> {
                &&& *final(self) == *old(self)
                &&& r.1 == false
            },
            final(self).venv_cache == old(self).venv_cache,
            final(self).in_setup_venv == old(self).in_setup_venv,
            final(self).on_failure == old(self).on_failure,
            final(self).python_version == old(self).python_version,
            final(self).env_variables == old(self).env_variables,
    {
        if !matches!(self.on_failure, OnWheelBuildFailure::SaveBuildEnv) {
            return (result, false);
        }
        if result.is_err() {
            let n = self.saved_build_envs.len();
            let mut i: usize = 0;
            let mut present = false;
            while i < n && !present
                invariant
                    0 <= i <= n,
                    n == self.saved_build_envs@.len(),
                    *self == *old(self),
                    present ==> seq_contains(self.saved_paths(), work_dir@),
                    !present ==> forall|j: int|
                        0 <= j < i ==> #[trigger] self.saved_paths()[j] != work_dir@,
                decreases n - i + (if present {
                    0int
                } else {
                    1int
                }),
            {
                if str_eq(self.saved_build_envs[i].as_str(), work_dir.as_str()) {
                    proof {
                        assert(self.saved_paths()[i as int] == work_dir@);
                    }
                    present = true;
                } else {
                    i = i + 1;
                }
            }
            if !present {
                proof {
                    assert(!seq_contains(self.saved_paths(), work_dir@));
                }
                let ghost old_paths = self.saved_paths();
                self.saved_build_envs.push(work_dir.clone());
                proof {
                    assert(self.saved_paths() =~= old_paths.push(work_dir@));
                }
            }
            (result, true)
        } else {
            (result, false)
        }
    }
}

/// Single-flight: beginning a provisioning attempt registers its channel
/// under the source's name, so any later request for the same source that
/// finds the channel alive is told to wait on that very channel rather than
/// provision again — at most one provisioning attempt exists per source at
/// any instant.
pub proof fn lemma_single_flight(
    m: Seq<(Seq<char>, u64)>,
    name: Seq<char>,
    ch: u64,
    fresh: u64,
)
    ensures
        spec_lookup(spec_insert(m, name, ch), name) == Some(ch),
        spec_setup_action(None, Some(ch), true, fresh) == SetupAction::Wait(ch),
    decreases m.len(),
{
    if m.len() == 0 {
    } else if m[0].0 == name {
        assert(spec_insert(m, name, ch)[0] == (name, ch));
    } else {
        assert(spec_insert(m, name, ch)[0] == m[0]);
        assert(spec_insert(m, name, ch).drop_first() =~= spec_insert(m.drop_first(), name, ch));
        lemma_single_flight(m.drop_first(), name, ch, fresh);
    }
}

/// Panic recovery: a request that finds the registered channel dead — its
/// provisioner panicked before broadcasting — starts a fresh provisioning
/// attempt instead of waiting forever, and a request that finds no channel
/// at all does the same.
pub proof fn lemma_panic_recovery(in_flight: Option<u64>, fresh: u64)
    ensures
        spec_setup_action(None, in_flight, false, fresh) == SetupAction::Provision(fresh),
        spec_setup_action(None, None, true, fresh) == SetupAction::Provision(fresh),
{
}

/// Preservation: preserving a failed build's sandbox path puts it in the
/// preserved set exactly once — a path not yet preserved grows the set by
/// one, a path already preserved leaves it unchanged.
pub proof fn lemma_preservation(s: Seq<Seq<char>>, p: Seq<char>)
    ensures
        seq_contains(spec_set_insert(s, p), p),
        !seq_contains(s, p) ==> spec_set_insert(s, p).len() == s.len() + 1,
        seq_contains(s, p) ==> spec_set_insert(s, p) == s,
{
    if !seq_contains(s, p) {
        assert(spec_set_insert(s, p)[s.len() as int] == p);
    }
}

} // verus!
