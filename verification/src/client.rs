//! Client-side dispatcher.
//!
//! The client builds a short Lua script that calls the remote invocation
//! gateway for one test routine, hands it to the channel, and scrapes the
//! mixed console text that comes back: lines of the form
//! `- picotest_unit|<name>|<key>=<value>` carry the failure flag and the
//! encoded outcome.  A failure is then rendered as a panic report with the
//! remote location and backtrace.

use crate::codec::opt_text;
use crate::strutil::{
    find_char_from, first_index, lemma_first_index_is, lemma_first_index_none, lemma_lines_single,
    lemma_lines_split, lemma_spec_lines_len, spec_lines, starts_with_from, str_eq,
};
use vstd::prelude::*;
use vstd::string::{StrSliceExecFns, StringExecFns};

verus! {

/// The marker that opens every line of interest in the channel's console
/// text for test `name` (the leading `- ` is the console's echo of a
/// printed value).
pub open spec fn line_prefix(name: Seq<char>) -> Seq<char> {
    "- picotest_unit|"@ + name + "|"@
}

/// The `key=value` pair of one console line, when the line opens with the
/// marker and holds a separator: the key runs to the first `=` after the
/// marker, the value is everything behind it.
pub open spec fn line_key_value(line: Seq<char>, prefix: Seq<char>) -> Option<(Seq<char>, Seq<
    char,
>)> {
    if prefix.len() <= line.len() && line.subrange(0, prefix.len() as int) == prefix {
        let rest = line.subrange(prefix.len() as int, line.len() as int);
        let e = first_index(rest, '=');
        if e >= 0 {
            Some((rest.subrange(0, e), rest.subrange(e + 1, rest.len() as int)))
        } else {
            None
        }
    } else {
        None
    }
}

/// One scraping step: how one console line updates the accumulated failure
/// flag and encoded outcome.  The last-seen value of each key wins.
pub open spec fn scrape_step(
    st: (bool, Option<Seq<char>>),
    line: Seq<char>,
    prefix: Seq<char>,
) -> (bool, Option<Seq<char>>) {
    match line_key_value(line, prefix) {
        Some(kv) => {
            if kv.0 == "fail"@ {
                (kv.1 == "1"@, st.1)
            } else if kv.0 == "data"@ {
                (st.0, Some(kv.1))
            } else {
                st
            }
        },
        None => st,
    }
}

/// The scrape of a sequence of console lines, starting from no failure and
/// no outcome.
pub open spec fn scrape_fold(lines: Seq<Seq<char>>, prefix: Seq<char>) -> (bool, Option<Seq<char>>)
    decreases lines.len(),
{
    if lines.len() == 0 {
        (false, None)
    } else {
        scrape_step(scrape_fold(lines.drop_last(), prefix), lines.last(), prefix)
    }
}

/// The scrape of the whole console text for test `name`.
pub open spec fn spec_scrape(output: Seq<char>, name: Seq<char>) -> (bool, Option<Seq<char>>) {
    scrape_fold(spec_lines(output), line_prefix(name))
}

/// Applies one console line to the accumulated failure flag and encoded
/// outcome.
fn scrape_line(line: &str, prefix: &str, fail: &mut bool, data: &mut Option<String>)
    ensures
        ({
            let next = scrape_step((*old(fail), opt_text(*old(data))), line@, prefix@);
            *final(fail) == next.0 && opt_text(*final(data)) == next.1
        }),
{
    if !starts_with_from(line, prefix, 0) {
        return ;
    }
    let line_len = line.unicode_len();
    let p_len = prefix.unicode_len();
    let ghost rest = line@.subrange(p_len as int, line_len as int);
    match find_char_from(line, '=', p_len) {
        Some(e) => {
            proof {
                assert(rest[e - p_len] == line@[e as int]);
                assert forall|j: int| 0 <= j < e - p_len implies rest[j] != '=' by {
                    assert(rest[j] == line@[p_len + j]);
                }
                lemma_first_index_is(rest, '=', e - p_len);
            }
            let key = line.substring_char(p_len, e);
            let value = line.substring_char(e + 1, line_len);
            proof {
                assert(key@ =~= rest.subrange(0, e - p_len));
                assert(value@ =~= rest.subrange(e - p_len + 1, rest.len() as int));
            }
            if str_eq(key, "fail") {
                *fail = str_eq(value, "1");
            } else if str_eq(key, "data") {
                *data = Some(value.to_owned());
            }
        },
        None => {
            proof {
                assert forall|j: int| 0 <= j < rest.len() implies rest[j] != '=' by {
                    assert(rest[j] == line@[p_len + j]);
                }
                lemma_first_index_none(rest, '=');
            }
        },
    }
}

/// Scrapes the channel's console text for the lines that report on test
/// `name`: the failure flag and, when one was printed, the encoded
/// outcome.  Only the last-seen value of each key counts.
pub fn scrape_unit_test_output(output: &str, name: &str) -> (r: (bool, Option<String>))
    ensures
        r.0 == spec_scrape(output@, name@).0,
        opt_text(r.1) == spec_scrape(output@, name@).1,
{
    let mut prefix = String::from_str("- picotest_unit|");
    prefix.append(name);
    prefix.append("|");
    let ghost pfx = line_prefix(name@);
    let n = output.unicode_len();
    let ghost lines = spec_lines(output@);
    proof {
        lemma_spec_lines_len(output@);
    }
    let mut fail = false;
    let mut data: Option<String> = None;
    let mut start: usize = 0;
    let ghost mut k: int = 0;
    proof {
        assert(output@.subrange(0, n as int) =~= output@);
        assert(lines.subrange(0, lines.len() as int) =~= lines);
    }
    loop
        invariant
            n == output@.len(),
            start <= n,
            prefix@ == pfx,
            pfx == line_prefix(name@),
            lines == spec_lines(output@),
            0 <= k < lines.len(),
            spec_lines(output@.subrange(start as int, n as int)) == lines.subrange(
                k,
                lines.len() as int,
            ),
            (fail, opt_text(data)) == scrape_fold(lines.take(k), pfx),
        ensures
            fail == spec_scrape(output@, name@).0,
            opt_text(data) == spec_scrape(output@, name@).1,
        decreases n - start,
    {
        let ghost remaining = output@.subrange(start as int, n as int);
        match find_char_from(output, '\n', start) {
            Some(e) => {
                proof {
                    assert(remaining[e - start] == output@[e as int]);
                    assert forall|j: int| 0 <= j < e - start implies remaining[j] != '\n' by {
                        assert(remaining[j] == output@[start + j]);
                    }
                    lemma_lines_split(remaining, e - start);
                    assert(remaining.subrange(0, e - start) =~= output@.subrange(
                        start as int,
                        e as int,
                    ));
                    assert(remaining.subrange(e - start + 1, remaining.len() as int)
                        =~= output@.subrange(e + 1, n as int));
                    lemma_spec_lines_len(output@.subrange(e + 1, n as int));
                    assert(lines.subrange(k, lines.len() as int)[0] == lines[k]);
                    assert(lines[k] == output@.subrange(start as int, e as int));
                    assert((seq![output@.subrange(start as int, e as int)] + spec_lines(
                        output@.subrange(e + 1, n as int),
                    )).drop_first() =~= spec_lines(output@.subrange(e + 1, n as int)));
                    assert(lines.subrange(k, lines.len() as int).drop_first() =~= lines.subrange(
                        k + 1,
                        lines.len() as int,
                    ));
                }
                let line = output.substring_char(start, e);
                scrape_line(line, prefix.as_str(), &mut fail, &mut data);
                proof {
                    assert(lines.take(k + 1).drop_last() =~= lines.take(k));
                    assert(lines.take(k + 1).last() == lines[k]);
                    k = k + 1;
                }
                start = e + 1;
            },
            None => {
                proof {
                    assert forall|j: int| 0 <= j < remaining.len() implies remaining[j] != '\n' by {
                        assert(remaining[j] == output@[start + j]);
                    }
                    lemma_lines_single(remaining);
                    assert(lines.subrange(k, lines.len() as int)[0] == lines[k]);
                    assert(lines.subrange(k, lines.len() as int).len() == 1);
                    assert(k == lines.len() - 1);
                    assert(lines[k] == remaining);
                }
                let line = output.substring_char(start, n);
                scrape_line(line, prefix.as_str(), &mut fail, &mut data);
                proof {
                    assert(scrape_fold(lines, pfx) == scrape_step(
                        scrape_fold(lines.drop_last(), pfx),
                        lines.last(),
                        pfx,
                    ));
                    assert(lines.drop_last() =~= lines.take(k));
                    assert(lines.last() == lines[k]);
                }
                return (fail, data);
            },
        }
    }
}

/// The Lua script that the dispatcher submits for one remote unit-test
/// run: it declares the gateway's calling convention once per runtime,
/// caches one library handle per package, calls the gateway, prints the
/// banner, the `fail=` and `data=` report lines, releases the result
/// record, and ends with the sentinel.
pub open spec fn unit_test_call_script(
    package: Seq<char>,
    name: Seq<char>,
    locator: Seq<char>,
    dylib_path: Seq<char>,
) -> Seq<char> {
    "\n\"[*] Running unit-test '"@ + name
        + "'\"\n\nffi = require(\"ffi\")\n_G.__picotest = _G.__picotest or { }\n_G.__picotest_result = _G.__picotest_result or ffi.cdef[[ typedef struct { uint8_t fail; char* data; size_t len; size_t cap; } picounit_result; ]]\n_G.__picotest_exec_unit = _G.__picotest_exec_unit or ffi.cdef[[ picounit_result (picotest_execute_unit)(const char*, const char*, const char*); ]]\n_G.__picotest_free_unit = _G.__picotest_free_unit or ffi.cdef[[ void (picotest_free_unit_result)(picounit_result); ]]\n_G.__picotest[\""@
        + package + "\"] = _G.__picotest[\""@ + package + "\"] or { lib = ffi.load(\""@
        + dylib_path + "\") }\n\nresult = _G.__picotest[\""@ + package
        + "\"].lib.picotest_execute_unit(\""@ + package + "\",\""@ + name + "\",\""@ + locator
        + "\")\n\n\"[*] Test '"@ + name + "' has been finished\"\n(\"picotest_unit|"@ + name
        + "|fail=%s\"):format(result.fail)\n(\"picotest_unit|"@ + name
        + "|data=%s\"):format(ffi.string(result.data,result.len))\n\n_G.__picotest[\""@ + package
        + "\"].lib.picotest_free_unit_result(result)\ntrue"@
}

/// Builds the Lua script of one remote unit-test run of routine `name`,
/// located through `locator_name`, inside package `package_name` whose
/// shared library stands at `dylib_path`.
pub fn build_unit_test_script(
    package_name: &str,
    name: &str,
    locator_name: &str,
    dylib_path: &str,
) -> (r: String)
    ensures
        r@ == unit_test_call_script(package_name@, name@, locator_name@, dylib_path@),
{
    let mut out = String::new();
    out.append("\n\"[*] Running unit-test '");
    out.append(name);
    out.append(
        "'\"\n\nffi = require(\"ffi\")\n_G.__picotest = _G.__picotest or { }\n_G.__picotest_result = _G.__picotest_result or ffi.cdef[[ typedef struct { uint8_t fail; char* data; size_t len; size_t cap; } picounit_result; ]]\n_G.__picotest_exec_unit = _G.__picotest_exec_unit or ffi.cdef[[ picounit_result (picotest_execute_unit)(const char*, const char*, const char*); ]]\n_G.__picotest_free_unit = _G.__picotest_free_unit or ffi.cdef[[ void (picotest_free_unit_result)(picounit_result); ]]\n_G.__picotest[\"",
    );
    out.append(package_name);
    out.append("\"] = _G.__picotest[\"");
    out.append(package_name);
    out.append("\"] or { lib = ffi.load(\"");
    out.append(dylib_path);
    out.append("\") }\n\nresult = _G.__picotest[\"");
    out.append(package_name);
    out.append("\"].lib.picotest_execute_unit(\"");
    out.append(package_name);
    out.append("\",\"");
    out.append(name);
    out.append("\",\"");
    out.append(locator_name);
    out.append("\")\n\n\"[*] Test '");
    out.append(name);
    out.append("' has been finished\"\n(\"picotest_unit|");
    out.append(name);
    out.append("|fail=%s\"):format(result.fail)\n(\"picotest_unit|");
    out.append(name);
    out.append("|data=%s\"):format(ffi.string(result.data,result.len))\n\n_G.__picotest[\"");
    out.append(package_name);
    out.append("\"].lib.picotest_free_unit_result(result)\ntrue");
    out
}

/// The panic report of a failed remote run: the remote location (or a
/// placeholder when none was captured), the failure message, and, when one
/// was captured, the remote stack backtrace.
pub open spec fn spec_panic_report(
    payload: Seq<char>,
    location: Option<Seq<char>>,
    backtrace: Option<Seq<char>>,
) -> Seq<char> {
    "remote fiber panicked at "@ + (match location {
        Some(l) => l,
        None => "<?>"@,
    }) + ":\n"@ + payload + (match backtrace {
        Some(b) => "\nremote stack backtrace:\n"@ + b,
        None => Seq::<char>::empty(),
    })
}

/// Renders the caller-visible report of a failed remote run from the
/// decoded outcome fields.
pub fn synthesize_panic_report(
    payload: &str,
    location: Option<String>,
    backtrace: Option<String>,
) -> (r: String)
    ensures
        r@ == spec_panic_report(payload@, opt_text(location), opt_text(backtrace)),
{
    let mut out = String::from_str("remote fiber panicked at ");
    match &location {
        Some(l) => out.append(l.as_str()),
        None => out.append("<?>"),
    }
    out.append(":\n");
    out.append(payload);
    if let Some(b) = &backtrace {
        out.append("\nremote stack backtrace:\n");
        out.append(b.as_str());
    }
    out
}

} // verus!
