//! Helper routines behind the test attribute expansion.
//!
//! Path building for a plugin's build artifacts, the Lua call script for a
//! single unit test, and the verdict on the raw channel text that comes
//! back.  Locating the plugin root on disk and reading its configuration
//! are file-system work and stay with the caller; these routines take the
//! paths and names as plain text.

use crate::strutil::{contains_seq, contains_str, dashes_to_underscores, replace_dashes};
use rand::RngExt;
use vstd::prelude::*;
use vstd::string::StringExecFns;

verus! {

/// The per-cluster section of a plugin's `picodata.yaml`.
pub struct ClusterConf {
    pub name: String,
}

/// What the library reads of a plugin's `picodata.yaml`: the cluster name,
/// which names the plugin's shared library.
pub struct PicodataConf {
    pub cluster: ClusterConf,
}

impl PicodataConf {
    /// The configured cluster name.
    pub fn cluster_name(&self) -> (r: &String)
        ensures
            r@ == self.cluster.name@,
    {
        &self.cluster.name
    }
}

/// The build-profile directory of the plugin at `plugin_path`.
pub fn plugin_profile_build_path(plugin_path: &str) -> (r: String)
    ensures
        r@ == plugin_path@ + "/target/debug"@,
{
    let mut out = plugin_path.to_owned();
    out.append("/target/debug");
    out
}

/// The file name of a plugin's shared library, from its cluster name.
pub fn plugin_dylib_filename(cluster_name: &str) -> (r: String)
    ensures
        r@ == "lib"@ + dashes_to_underscores(cluster_name@) + ".so"@,
{
    let mut out = String::new();
    out.append("lib");
    let stem = replace_dashes(cluster_name);
    out.append(stem.as_str());
    out.append(".so");
    out
}

/// The path of the shared library of package `package_name` inside the
/// build-profile directory of the plugin at `plugin_path`.
pub fn plugin_dylib_path(plugin_path: &str, package_name: &str) -> (r: String)
    ensures
        r@ == plugin_path@ + "/target/debug/lib"@ + dashes_to_underscores(package_name@) + ".so"@,
{
    let mut out = plugin_path.to_owned();
    out.append("/target/debug/lib");
    let stem = replace_dashes(package_name);
    out.append(stem.as_str());
    out.append(".so");
    proof {
        assert(out@ =~= plugin_path@ + "/target/debug/lib"@ + dashes_to_underscores(package_name@)
            + ".so"@);
    }
    out
}

/// The path of the topology file of the plugin at `plugin_path`.
pub fn plugin_topology_path(plugin_path: &str) -> (r: String)
    ensures
        r@ == plugin_path@ + "/topology.toml"@,
{
    let mut out = plugin_path.to_owned();
    out.append("/topology.toml");
    out
}

/// The path of the Picodata configuration file of the plugin at
/// `plugin_path`.
pub fn plugin_picodata_path(plugin_path: &str) -> (r: String)
    ensures
        r@ == plugin_path@ + "/picodata.yaml"@,
{
    let mut out = plugin_path.to_owned();
    out.append("/picodata.yaml");
    out
}

/// The default timeout in seconds applied to a plugin cluster when the
/// test attribute names none.
pub fn plugin_timeout_secs_default() -> (r: u64)
    ensures
        r == 5,
{
    5
}

/// True for an ASCII letter or digit.
pub open spec fn is_ascii_alnum(c: char) -> bool {
    let ci = c as int;
    (48 <= ci <= 57) || (65 <= ci <= 90) || (97 <= ci <= 122)
}

/// Relies on rand's `Alphanumeric` distribution: every sampled byte is an
/// ASCII letter or digit, so the collected text has exactly one such
/// character per sample.  Which characters come out depends on the thread's
/// generator, so nothing more is promised.
#[verifier::external_body]
fn random_alnum_string(len: usize) -> (r: String)
    ensures
        r@.len() == len,
        forall|i: int| 0 <= i < r@.len() ==> is_ascii_alnum(#[trigger] r@[i]),
{
    let mut rng = rand::rng();
    let mut out = std::string::String::with_capacity(len);
    for _ in 0..len {
        out.push(char::from(rng.sample(rand::distr::Alphanumeric)));
    }
    out
}

/// A fresh per-run data directory under `tmp/tests`, named by eight random
/// alphanumeric characters.
pub fn tmp_dir() -> (r: String)
    ensures
        r@.len() == "tmp/tests/"@.len() + 8,
        r@.subrange(0, "tmp/tests/"@.len() as int) == "tmp/tests/"@,
        forall|i: int|
            "tmp/tests/"@.len() <= i < r@.len() ==> is_ascii_alnum(#[trigger] r@[i]),
{
    let mut out = String::from_str("tmp/tests/");
    let suffix = random_alnum_string(8);
    out.append(suffix.as_str());
    proof {
        assert(out@.subrange(0, "tmp/tests/"@.len() as int) =~= "tmp/tests/"@);
        assert forall|i: int|
            "tmp/tests/"@.len() <= i < out@.len() implies is_ascii_alnum(#[trigger] out@[i]) by {
            assert(out@[i] == suffix@[i - "tmp/tests/"@.len()]);
        }
    }
    out
}

/// The Lua script that calls test routine `name` of the shared library at
/// `path` through the foreign-function interface, with the banner lines and
/// the final sentinel around the call.
pub open spec fn lua_unit_test_call_script(name: Seq<char>, path: Seq<char>) -> Seq<char> {
    "\n\"[*] Running unit-test '"@ + name + "'\"\n\nffi = require(\"ffi\")\nffi.cdef[[void "@
        + name + "();]]\ndylib = \""@ + path + "\"\nffi.load(dylib)."@ + name
        + "()\n\n\"[*] Test '"@ + name + "' has been finished\"\ntrue"@
}

/// Builds the Lua script that runs unit test `test_fn_name` of the shared
/// library at `plugin_dylib_path` in the embedded runtime.
pub fn lua_ffi_call_unit_test(test_fn_name: &str, plugin_dylib_path: &str) -> (r: String)
    ensures
        r@ == lua_unit_test_call_script(test_fn_name@, plugin_dylib_path@),
{
    let mut out = String::new();
    out.append("\n\"[*] Running unit-test '");
    out.append(test_fn_name);
    out.append("'\"\n\nffi = require(\"ffi\")\nffi.cdef[[void ");
    out.append(test_fn_name);
    out.append("();]]\ndylib = \"");
    out.append(plugin_dylib_path);
    out.append("\"\nffi.load(dylib).");
    out.append(test_fn_name);
    out.append("()\n\n\"[*] Test '");
    out.append(test_fn_name);
    out.append("' has been finished\"\ntrue");
    out
}

/// A channel-level fault of a remote unit-test run, read off the raw
/// console text.
#[derive(Clone, Copy, Debug, PartialEq, Eq, Structural)]
pub enum UnitTestError {
    /// The plugin's shared library could not be opened.
    SharedObjectOpenFailure,
    /// The test routine's symbol is missing from the shared library.
    MissingSymbol,
    /// The remote script never reached its final sentinel.
    UnexpectedFinish,
}

impl UnitTestError {
    /// The report text of this fault.
    pub open spec fn spec_message(self) -> Seq<char> {
        match self {
            UnitTestError::SharedObjectOpenFailure => "failed to open plugin shared library"@,
            UnitTestError::MissingSymbol =>
            "failed to call unit-test routine: missing symbol in plugin shared library"@,
            UnitTestError::UnexpectedFinish => "test has finished unexpectedly"@,
        }
    }

    /// Renders the report text of this fault.
    pub fn message(&self) -> (r: String)
        ensures
            r@ == self.spec_message(),
    {
        match self {
            UnitTestError::SharedObjectOpenFailure => String::from_str(
                "failed to open plugin shared library",
            ),
            UnitTestError::MissingSymbol => String::from_str(
                "failed to call unit-test routine: missing symbol in plugin shared library",
            ),
            UnitTestError::UnexpectedFinish => String::from_str("test has finished unexpectedly"),
        }
    }
}

/// The readiness signals scanned off one admin-console exchange while a
/// cluster starts: whether a probed value came back true, and whether the
/// console reported its connection.
pub fn cluster_ready_signals(output: &str) -> (r: (bool, bool))
    ensures
        r.0 == contains_seq(output@, "true"@),
        r.1 == contains_seq(output@, "Connected to admin console by socket"@),
{
    let plugin_ready = contains_str(output, "true");
    let can_connect = contains_str(output, "Connected to admin console by socket");
    (plugin_ready, can_connect)
}

/// The verdict on raw channel text: which channel-level fault it reports,
/// if any.  A missing library and a missing symbol are recognised by their
/// error text; a run that never printed the sentinel finished unexpectedly.
pub open spec fn spec_verify_unit_test_output(out: Seq<char>) -> Result<(), UnitTestError> {
    if contains_seq(out, "cannot open shared object file"@) {
        Err(UnitTestError::SharedObjectOpenFailure)
    } else if contains_seq(out, "missing declaration"@) || contains_seq(out, "undefined symbol"@) {
        Err(UnitTestError::MissingSymbol)
    } else if !contains_seq(out, "true"@) {
        Err(UnitTestError::UnexpectedFinish)
    } else {
        Ok(())
    }
}

/// Scans raw channel text for the channel-level faults of a remote
/// unit-test run.
pub fn verify_unit_test_output(output: &str) -> (r: Result<(), UnitTestError>)
    ensures
        r == spec_verify_unit_test_output(output@),
{
    if contains_str(output, "cannot open shared object file") {
        Err(UnitTestError::SharedObjectOpenFailure)
    } else if contains_str(output, "missing declaration") || contains_str(
        output,
        "undefined symbol",
    ) {
        Err(UnitTestError::MissingSymbol)
    } else if !contains_str(output, "true") {
        Err(UnitTestError::UnexpectedFinish)
    } else {
        Ok(())
    }
}

} // verus!
