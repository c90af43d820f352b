//! Test runner types and the gateway's result record.
//!
//! The client side of a remote unit-test run asks a runner to execute one
//! named routine; the server side answers with a result record that either
//! reports success or carries the encoded failure outcome.  A process-wide
//! cache keeps one runner (and, inside the remote runtime, one library
//! handle) per package.

use crate::codec::PicotestPanicInfo;
use crate::strutil::str_eq;
use vstd::prelude::*;
use vstd::string::StrSliceExecFns;

verus! {

/// Whether a remote unit-test run succeeded.
#[derive(Clone, Copy, Debug, PartialEq, Eq, Structural)]
pub enum TestStatus {
    Success,
    Failure,
}

/// The caller-visible result of one remote unit-test run.
#[derive(Clone, Copy, Debug, PartialEq, Eq, Structural)]
pub struct TestResult {
    pub status: TestStatus,
}

/// A runner executes one named test routine remotely and reports how it
/// ended.
pub trait PicotestRunner: Sync + Send {
    fn execute_unit(&self, name: &str, locator_name: &str) -> TestResult;
}

/// The result record of the remote invocation gateway: a failure flag, and,
/// on failure, the encoded outcome to ship back over the channel.  At the
/// native call boundary the text travels as an owned buffer with its length
/// and capacity, released exactly once by the paired release call.
pub struct PicounitResult {
    pub fail: bool,
    pub data: String,
}

impl Default for PicounitResult {
    /// The success record: no failure, an empty buffer.
    fn default() -> (r: Self)
        ensures
            !r.fail,
            r.data@ == Seq::<char>::empty(),
    {
        PicounitResult { fail: false, data: String::new() }
    }
}

impl PicounitResult {
    /// The failure record for captured panic `err`: the failure flag set
    /// and the encoded outcome as the buffer.
    pub fn failure(err: PicotestPanicInfo) -> (r: Self)
        ensures
            r.fail,
            r.data@ == err.encoded(),
            err.encoding_delim_free(),
    {
        let data = err.encode_with_base64();
        PicounitResult { fail: true, data }
    }
}

/// The record that the gateway hands back for a supervised call that ended
/// as `outcome`: the success record for a normal return, the failure record
/// for a captured panic.
pub fn unit_result_from_outcome(outcome: Result<(), PicotestPanicInfo>) -> (r: PicounitResult)
    ensures
        outcome is Ok ==> !r.fail && r.data@ == Seq::<char>::empty(),
        outcome matches Err(err) ==> r.fail && r.data@ == err.encoded(),
{
    match outcome {
        Ok(_) => PicounitResult::default(),
        Err(err) => PicounitResult::failure(err),
    }
}

/// The process-wide per-package cache: the first request for a package
/// loads it, every later request for the same package reuses what was
/// loaded.  The client keeps one runner per package in it; the remote
/// runtime keeps one library handle per package the same way.
pub struct RunnerCache {
    packages: Vec<String>,
}

impl RunnerCache {
    /// The set of package names already loaded.
    pub closed spec fn loaded(self) -> Set<Seq<char>> {
        Set::new(
            |x: Seq<char>|
                exists|i: int| 0 <= i < self.packages@.len() && self.packages@[i]@ == x,
        )
    }

    /// An empty cache.
    pub fn new() -> (r: Self)
        ensures
            r.loaded() == Set::<Seq<char>>::empty(),
    {
        let r = RunnerCache { packages: Vec::new() };
        proof {
            assert(r.loaded() =~= Set::<Seq<char>>::empty());
        }
        r
    }

    /// True when `package` has been loaded already.
    pub fn is_loaded(&self, package: &str) -> (r: bool)
        ensures
            r == self.loaded().contains(package@),
    {
        let mut i: usize = 0;
        let n = self.packages.len();
        while i < n
            invariant
                n == self.packages@.len(),
                i <= n,
                forall|j: int| 0 <= j < i ==> self.packages@[j]@ != package@,
            decreases n - i,
        {
            if str_eq(self.packages[i].as_str(), package) {
                return true;
            }
            i += 1;
        }
        false
    }

    /// Looks `package` up, loading it on a miss: reports whether it was
    /// already cached, and guarantees it is cached afterwards.
    pub fn lookup_or_insert(&mut self, package: &str) -> (was_cached: bool)
        ensures
            was_cached == old(self).loaded().contains(package@),
            final(self).loaded() == old(self).loaded().insert(package@),
    {
        let cached = self.is_loaded(package);
        if !cached {
            self.packages.push(package.to_owned());
            proof {
                assert forall|x: Seq<char>|
                    final(self).loaded().contains(x) == old(self).loaded().insert(
                        package@,
                    ).contains(x) by {
                    if old(self).loaded().insert(package@).contains(x) {
                        if x == package@ {
                            assert(final(self).packages@[final(self).packages@.len() - 1]@ == x);
                        } else {
                            let i = choose|i: int|
                                0 <= i < old(self).packages@.len() && old(self).packages@[i]@ == x;
                            assert(final(self).packages@[i]@ == x);
                        }
                    }
                }
                assert(final(self).loaded() =~= old(self).loaded().insert(package@));
            }
        } else {
            proof {
                assert(final(self).loaded() =~= old(self).loaded().insert(package@));
            }
        }
        cached
    }
}

/// True when `exe_path` names the host's own executable: its last path
/// component is `picodata`.  The server side of the runner detects itself
/// by this test on the current executable's path.
pub open spec fn spec_is_server_executable(p: Seq<char>) -> bool {
    let n = p.len() as int;
    n >= 8 && p.subrange(n - 8, n) == "picodata"@ && (n == 8 || p[n - 9] == '/')
}

/// Decides whether a process whose executable stands at `exe_path` runs as
/// the server side.
pub fn is_server_executable(exe_path: &str) -> (r: bool)
    ensures
        r == spec_is_server_executable(exe_path@),
{
    proof {
        reveal_strlit("picodata");
    }
    let n = exe_path.unicode_len();
    if n < 8 {
        return false;
    }
    let tail_matches = crate::strutil::starts_with_from(exe_path, "picodata", n - 8);
    if !tail_matches {
        return false;
    }
    n == 8 || exe_path.get_char(n - 9) == '/'
}

/// Reuse law: of two sequential lookups for the same package, the second
/// finds the package cached and changes nothing, so the package is loaded
/// only once.  The premises are exactly what two calls of
/// `lookup_or_insert` guarantee.
pub proof fn lemma_repeated_lookup_reuses_cache(
    before: Set<Seq<char>>,
    mid: Set<Seq<char>>,
    after: Set<Seq<char>>,
    first_cached: bool,
    second_cached: bool,
    package: Seq<char>,
)
    requires
        first_cached == before.contains(package),
        mid == before.insert(package),
        second_cached == mid.contains(package),
        after == mid.insert(package),
    ensures
        second_cached,
        after == mid,
{
    assert(after =~= mid);
}

} // verus!
