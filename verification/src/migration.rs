//! Plugin migration files.
//!
//! A migration file is named `<version>_<name>.sql` and holds SQL
//! statements, one per `;`-terminated run of lines, with `--` line
//! comments; the markers `-- pico.UP` and `-- pico.DOWN` cut the statement
//! list into the up and down ranges.  A statement may pin a table to a tier
//! through a `in tier @_plugin_config.<variable>` clause; those variables
//! are collected to build per-tier overrides.  All text here is ASCII in
//! practice, and case-insensitive matching is done ASCII-wise.

use crate::strutil::str_eq;
use vstd::multiset::Multiset;
use vstd::prelude::*;
use vstd::string::{StrSliceExecFns, StringExecFns};

verus! {

/// True when `w` opens `s`.
pub open spec fn starts_with_seq(s: Seq<char>, w: Seq<char>) -> bool {
    w.len() <= s.len() && s.subrange(0, w.len() as int) == w
}

/// ASCII-case-insensitive character equality.
pub open spec fn ascii_ieq(a: char, b: char) -> bool {
    let ai = a as int;
    let bi = b as int;
    ai == bi || (65 <= ai <= 90 && bi == ai + 32) || (65 <= bi <= 90 && ai == bi + 32)
}

/// True for the characters an identifier may hold: ASCII letters, digits
/// and the underscore.
pub open spec fn is_ident_char(c: char) -> bool {
    let ci = c as int;
    (48 <= ci <= 57) || (65 <= ci <= 90) || (97 <= ci <= 122) || ci == 95
}

/// True when `pat` occurs at position `i` of `text`, compared
/// ASCII-case-insensitively.
pub open spec fn matches_pattern_at(text: Seq<char>, pat: Seq<char>, i: int) -> bool {
    0 <= i && i + pat.len() <= text.len() && forall|j: int|
        0 <= j < pat.len() ==> ascii_ieq(text[i + j], #[trigger] pat[j])
}

/// The position right behind the identifier that starts at `p`.
pub open spec fn ident_end(text: Seq<char>, p: int) -> int
    decreases text.len() - p,
    when 0 <= p <= text.len()
{
    if p < text.len() && is_ident_char(text[p]) {
        ident_end(text, p + 1)
    } else {
        p
    }
}

/// The identifier that starts at `p` runs to a position within bounds.
pub proof fn lemma_ident_end_bounds(text: Seq<char>, p: int)
    requires
        0 <= p <= text.len(),
    ensures
        p <= ident_end(text, p) <= text.len(),
    decreases text.len() - p,
{
    if p < text.len() && is_ident_char(text[p]) {
        lemma_ident_end_bounds(text, p + 1);
    }
}

/// The tier variables of `text` from position `from` on: at every
/// occurrence of the tier clause, the identifier behind it, in order of
/// occurrence.
pub open spec fn spec_tier_variables(text: Seq<char>, from: int) -> Seq<Seq<char>>
    decreases text.len() - from,
    when 0 <= from <= text.len()
{
    let pat = "in tier @_plugin_config."@;
    if pat.len() == 0 || from + pat.len() > text.len() {
        Seq::<Seq<char>>::empty()
    } else if matches_pattern_at(text, pat, from) {
        let start = from + pat.len() as int;
        let end = ident_end(text, start);
        seq![text.subrange(start, end)] + spec_tier_variables(text, from + pat.len() as int)
    } else {
        spec_tier_variables(text, from + 1)
    }
}

/// One SQL statement (or line comment) of a migration file.
#[derive(Debug)]
pub struct MigrationStatement {
    original_text: String,
    modified_text: Option<String>,
}

impl View for MigrationStatement {
    type V = Seq<char>;

    closed spec fn view(&self) -> Seq<char> {
        self.original_text@
    }
}

impl Clone for MigrationStatement {
    fn clone(&self) -> (r: Self)
        ensures
            r == *self,
    {
        MigrationStatement {
            original_text: self.original_text.clone(),
            modified_text: match &self.modified_text {
                Some(s) => Some(s.clone()),
                None => None,
            },
        }
    }
}

/// ASCII-case-insensitive character comparison.
fn ascii_ieq_char(a: char, b: char) -> (r: bool)
    ensures
        r == ascii_ieq(a, b),
{
    let ai = a as u32;
    let bi = b as u32;
    ai == bi || (65 <= ai && ai <= 90 && bi == ai + 32) || (65 <= bi && bi <= 90 && ai == bi + 32)
}

/// True for the characters an identifier may hold.
fn is_ident_char_exec(c: char) -> (r: bool)
    ensures
        r == is_ident_char(c),
{
    let ci = c as u32;
    (48 <= ci && ci <= 57) || (65 <= ci && ci <= 90) || (97 <= ci && ci <= 122) || ci == 95
}

/// True when `pat` occurs at position `i` of `text`, compared
/// ASCII-case-insensitively.
fn matches_at(text: &str, pat: &str, i: usize) -> (r: bool)
    requires
        i <= text@.len(),
    ensures
        r == matches_pattern_at(text@, pat@, i as int),
{
    let t_len = text.unicode_len();
    let p_len = pat.unicode_len();
    if t_len - i < p_len {
        return false;
    }
    let mut j: usize = 0;
    while j < p_len
        invariant
            t_len == text@.len(),
            p_len == pat@.len(),
            i + p_len <= t_len,
            j <= p_len,
            forall|m: int| 0 <= m < j ==> ascii_ieq(text@[i + m], #[trigger] pat@[m]),
        decreases p_len - j,
    {
        if !ascii_ieq_char(text.get_char(i + j), pat.get_char(j)) {
            return false;
        }
        j += 1;
    }
    true
}

impl MigrationStatement {
    /// A statement holding the given text.
    pub fn new(text: &str) -> (r: Self)
        ensures
            r@ == text@,
    {
        MigrationStatement { original_text: text.to_owned(), modified_text: None }
    }

    /// The statement's text.
    pub fn text(&self) -> (r: &str)
        ensures
            r@ == self@,
    {
        self.original_text.as_str()
    }

    /// True when the statement is a `--` line comment.
    pub fn is_line_comment(&self) -> (r: bool)
        ensures
            r == starts_with_seq(self@, "--"@),
    {
        crate::strutil::starts_with_from(self.original_text.as_str(), "--", 0)
    }

    /// True when the statement is the up-range marker.
    pub fn is_pico_up(&self) -> (r: bool)
        ensures
            r == (self@ == "-- pico.UP"@),
    {
        str_eq(self.original_text.as_str(), "-- pico.UP")
    }

    /// True when the statement is the down-range marker.
    pub fn is_pico_down(&self) -> (r: bool)
        ensures
            r == (self@ == "-- pico.DOWN"@),
    {
        str_eq(self.original_text.as_str(), "-- pico.DOWN")
    }

    /// Collects the tier variables of the statement: the identifier behind
    /// every `in tier @_plugin_config.` clause, matched
    /// ASCII-case-insensitively, in order of occurrence.
    pub fn extract_tier_variables(&self) -> (r: Vec<String>)
        ensures
            r@.map_values(|s: String| s@) == spec_tier_variables(self@, 0),
    {
        let text = self.original_text.as_str();
        let t_len = text.unicode_len();
        let pat = "in tier @_plugin_config.";
        let p_len = pat.unicode_len();
        let mut out: Vec<String> = Vec::new();
        let mut i: usize = 0;
        proof {
            assert(out@.map_values(|s: String| s@) =~= Seq::<Seq<char>>::empty());
        }
        if p_len == 0 || t_len < p_len {
            proof {
                assert(spec_tier_variables(text@, 0) =~= Seq::<Seq<char>>::empty());
            }
            return out;
        }
        while i <= t_len - p_len
            invariant
                t_len == text@.len(),
                text@ == self@,
                pat@ == "in tier @_plugin_config."@,
                p_len == pat@.len(),
                0 < p_len <= t_len,
                i <= t_len,
                out@.map_values(|s: String| s@) + spec_tier_variables(text@, i as int)
                    == spec_tier_variables(text@, 0),
            decreases t_len - i,
        {
            if matches_at(text, pat, i) {
                let start = i + p_len;
                proof {
                    lemma_ident_end_bounds(text@, start as int);
                }
                let end = scan_ident_end(text, start);
                let var = text.substring_char(start, end);
                let ghost prev = out@.map_values(|s: String| s@);
                out.push(var.to_owned());
                proof {
                    assert(out@.map_values(|s: String| s@) =~= prev.push(
                        text@.subrange(start as int, end as int),
                    ));
                    let spec_pat = "in tier @_plugin_config."@;
                    assert(pat@ == spec_pat);
                    assert(spec_pat.len() == p_len);
                    assert(matches_pattern_at(text@, spec_pat, i as int));
                    assert(start as int == i + spec_pat.len() as int);
                    assert(end as int == ident_end(text@, i + spec_pat.len() as int));
                    assert(spec_tier_variables(text@, i as int) == seq![
                        text@.subrange(start as int, end as int),
                    ] + spec_tier_variables(text@, start as int));
                    assert(prev.push(text@.subrange(start as int, end as int))
                        + spec_tier_variables(text@, start as int) =~= prev + spec_tier_variables(
                        text@,
                        i as int,
                    ));
                }
                i = start;
            } else {
                i += 1;
            }
        }
        proof {
            assert(spec_tier_variables(text@, i as int) =~= Seq::<Seq<char>>::empty());
            assert(out@.map_values(|s: String| s@) =~= spec_tier_variables(text@, 0));
        }
        out
    }
}

/// A fault in a migration file's name.
#[derive(Debug)]
pub enum MigrationError {
    /// The path has no usable file-name component.
    NoFileName,
    /// The file name has no extension.
    NoExtension,
    /// The extension is not `sql` in any casing.
    NotSqlExtension,
    /// The file name has no `_` separating version and name.
    InvalidName,
    /// The version part is not a decimal number that fits; holds that part.
    InvalidVersion(String),
}

impl MigrationError {
    /// The report text of this fault.
    pub open spec fn spec_message(self) -> Seq<char> {
        match self {
            MigrationError::NoFileName => "migration file does not have file name"@,
            MigrationError::NoExtension => "migration file does not have an extension"@,
            MigrationError::NotSqlExtension => "migration file does not have sql extension"@,
            MigrationError::InvalidName => "migration file has invalid name"@,
            MigrationError::InvalidVersion(v) => "failed to parse migration version: "@ + v@,
        }
    }

    /// Renders the report text of this fault.
    pub fn message(&self) -> (r: String)
        ensures
            r@ == self.spec_message(),
    {
        match self {
            MigrationError::NoFileName => String::from_str(
                "migration file does not have file name",
            ),
            MigrationError::NoExtension => String::from_str(
                "migration file does not have an extension",
            ),
            MigrationError::NotSqlExtension => String::from_str(
                "migration file does not have sql extension",
            ),
            MigrationError::InvalidName => String::from_str("migration file has invalid name"),
            MigrationError::InvalidVersion(v) => {
                let mut out = String::from_str("failed to parse migration version: ");
                out.append(v.as_str());
                out
            },
        }
    }
}

/// ASCII-case-insensitive equality of two character sequences.
pub open spec fn seq_ascii_ieq(a: Seq<char>, b: Seq<char>) -> bool {
    a.len() == b.len() && forall|j: int| 0 <= j < a.len() ==> ascii_ieq(a[j], #[trigger] b[j])
}

/// ASCII-case-insensitive string comparison.
fn str_ieq(a: &str, b: &str) -> (r: bool)
    ensures
        r == seq_ascii_ieq(a@, b@),
{
    let a_len = a.unicode_len();
    let b_len = b.unicode_len();
    if a_len != b_len {
        return false;
    }
    let mut i: usize = 0;
    while i < a_len
        invariant
            a_len == a@.len(),
            b_len == b@.len(),
            a_len == b_len,
            i <= a_len,
            forall|j: int| 0 <= j < i ==> ascii_ieq(a@[j], #[trigger] b@[j]),
        decreases a_len - i,
    {
        if !ascii_ieq_char(a.get_char(i), b.get_char(i)) {
            return false;
        }
        i += 1;
    }
    true
}

/// `p` with every trailing slash removed.
pub open spec fn strip_trailing_slashes(p: Seq<char>) -> Seq<char>
    decreases p.len(),
{
    if p.len() > 0 && p[p.len() - 1] == '/' {
        strip_trailing_slashes(p.drop_last())
    } else {
        p
    }
}

/// The file-name component of path `p`: what follows the last slash, after
/// trailing slashes are dropped.  An empty component and the current- and
/// parent-directory components are no file name.
pub open spec fn spec_file_name(p: Seq<char>) -> Option<Seq<char>> {
    let q = strip_trailing_slashes(p);
    let comp = q.subrange(crate::strutil::last_index(q, '/') + 1, q.len() as int);
    if comp.len() == 0 || comp == "."@ || comp == ".."@ {
        None
    } else {
        Some(comp)
    }
}

/// Extracts the file-name component of path `p`.
fn file_name_component(p: &str) -> (r: Option<String>)
    ensures
        (r is Some <==> spec_file_name(p@) is Some),
        r matches Some(s) ==> spec_file_name(p@) matches Some(f) && s@ == f,
{
    let n = p.unicode_len();
    let mut e: usize = n;
    proof {
        assert(p@.subrange(0, e as int) =~= p@);
    }
    while e > 0 && p.get_char(e - 1) == '/'
        invariant
            n == p@.len(),
            e <= n,
            strip_trailing_slashes(p@) == strip_trailing_slashes(p@.subrange(0, e as int)),
        decreases e,
    {
        proof {
            let cur = p@.subrange(0, e as int);
            assert(cur[cur.len() - 1] == p@[e - 1]);
            assert(cur.drop_last() =~= p@.subrange(0, e - 1));
        }
        e -= 1;
    }
    let ghost q = p@.subrange(0, e as int);
    proof {
        if e > 0 {
            assert(q[q.len() - 1] == p@[e - 1]);
        }
        assert(strip_trailing_slashes(q) == q);
    }
    let mut i: usize = e;
    while i > 0 && p.get_char(i - 1) != '/'
        invariant
            n == p@.len(),
            i <= e <= n,
            forall|j: int| i <= j < e ==> p@[j] != '/',
        decreases i,
    {
        i -= 1;
    }
    proof {
        if i > 0 {
            assert(q[i - 1] == p@[i - 1]);
            assert forall|j: int| i - 1 < j < q.len() implies q[j] != '/' by {
                assert(q[j] == p@[j]);
            }
            crate::strutil::lemma_last_index_is(q, '/', i - 1);
        } else {
            assert forall|j: int| 0 <= j < q.len() implies q[j] != '/' by {
                assert(q[j] == p@[j]);
            }
            crate::strutil::lemma_last_index_none(q, '/');
        }
    }
    let comp = p.substring_char(i, e);
    proof {
        assert(comp@ =~= q.subrange(crate::strutil::last_index(q, '/') + 1, q.len() as int));
    }
    if comp.unicode_len() == 0 || str_eq(comp, ".") || str_eq(comp, "..") {
        None
    } else {
        Some(comp.to_owned())
    }
}

/// True for a decimal digit.
pub open spec fn is_digit(c: char) -> bool {
    48 <= c as int <= 57
}

/// True when every character is a decimal digit.
pub open spec fn all_digits(s: Seq<char>) -> bool {
    forall|j: int| 0 <= j < s.len() ==> is_digit(#[trigger] s[j])
}

/// The value of a run of decimal digits (a non-digit counts as zero).
pub open spec fn digits_val(s: Seq<char>) -> nat
    decreases s.len(),
{
    if s.len() == 0 {
        0
    } else {
        digits_val(s.drop_last()) * 10 + (if is_digit(s.last()) {
            (s.last() as int - 48) as nat
        } else {
            0
        })
    }
}

/// A longer run of digits is worth at least as much.
pub proof fn lemma_digits_val_prefix(s: Seq<char>, i: int)
    requires
        0 <= i <= s.len(),
    ensures
        digits_val(s.take(i)) <= digits_val(s),
    decreases s.len() - i,
{
    if i < s.len() {
        assert(s.take(i + 1).drop_last() =~= s.take(i));
        assert(s.take(i + 1).last() == s[i]);
        assert(digits_val(s.take(i)) <= digits_val(s.take(i + 1)));
        lemma_digits_val_prefix(s, i + 1);
    } else {
        assert(s.take(i) =~= s);
    }
}

/// The digit run of a version text: an optional leading plus sign is
/// dropped.
pub open spec fn version_body(s: Seq<char>) -> Seq<char> {
    if s.len() > 0 && s[0] == '+' {
        s.drop_first()
    } else {
        s
    }
}

/// True when `s` is a version number: an optional plus sign, then at least
/// one digit, with a value that fits the version type.
pub open spec fn valid_version(s: Seq<char>) -> bool {
    let b = version_body(s);
    b.len() > 0 && all_digits(b) && digits_val(b) <= u32::MAX
}

/// Parses a version number.
fn parse_version_number(s: &str) -> (r: Option<u32>)
    ensures
        r is Some <==> valid_version(s@),
        r matches Some(v) ==> v as nat == digits_val(version_body(s@)),
{
    let n = s.unicode_len();
    let mut start: usize = 0;
    if n > 0 && s.get_char(0) == '+' {
        start = 1;
    }
    let ghost body = version_body(s@);
    proof {
        assert(body =~= s@.subrange(start as int, n as int));
    }
    if start >= n {
        return None;
    }
    let mut acc: u64 = 0;
    let mut i: usize = start;
    proof {
        assert(body.take(0) =~= Seq::<char>::empty());
    }
    while i < n
        invariant
            n == s@.len(),
            start <= i <= n,
            start < n,
            body == version_body(s@),
            body == s@.subrange(start as int, n as int),
            all_digits(body.take(i - start)),
            acc == digits_val(body.take(i - start)),
            acc <= u32::MAX,
        decreases n - i,
    {
        let c = s.get_char(i);
        let cu = c as u32;
        proof {
            assert(body[i - start] == s@[i as int]);
        }
        if cu < 48 || cu > 57 {
            return None;
        }
        acc = acc * 10 + (cu - 48) as u64;
        proof {
            assert(body.take(i - start + 1).drop_last() =~= body.take(i - start));
            assert(body.take(i - start + 1).last() == body[i - start]);
            assert(all_digits(body.take(i - start + 1)));
            assert(acc == digits_val(body.take(i - start + 1)));
        }
        if acc > 0xFFFF_FFFF {
            proof {
                lemma_digits_val_prefix(body, i - start + 1);
            }
            return None;
        }
        i += 1;
    }
    proof {
        assert(body.take(i - start) =~= body);
    }
    Some(acc as u32)
}

/// Splits a file name at its last dot into stem and extension.
pub open spec fn spec_split_extension(f: Seq<char>) -> Option<(Seq<char>, Seq<char>)> {
    let di = crate::strutil::last_index(f, '.');
    if di < 0 {
        None
    } else {
        Some((f.subrange(0, di), f.subrange(di + 1, f.len() as int)))
    }
}

/// What `parse_migration_file_name` returns for path `p`: the stages of
/// taking the file name, splitting off the `sql` extension, splitting
/// version and name at the first underscore, and reading the version
/// number, with the fault of the first stage that fails.
pub open spec fn file_name_parse_ok(
    p: Seq<char>,
    version: u32,
    name: Seq<char>,
) -> bool {
    &&& spec_file_name(p) matches Some(f)
    &&& spec_split_extension(spec_file_name(p)->Some_0) matches Some(se)
    &&& seq_ascii_ieq(se.1, "sql"@)
    &&& crate::strutil::first_index(se.0, '_') >= 0
    &&& ({
        let ui = crate::strutil::first_index(se.0, '_');
        let vs = se.0.subrange(0, ui);
        &&& name == se.0.subrange(ui + 1, se.0.len() as int)
        &&& valid_version(vs)
        &&& version as nat == digits_val(version_body(vs))
    })
}

/// Which fault `parse_migration_file_name` reports for path `p`.
pub open spec fn file_name_parse_err(p: Seq<char>, e: MigrationError) -> bool {
    match e {
        MigrationError::NoFileName => spec_file_name(p) is None,
        MigrationError::NoExtension => spec_file_name(p) matches Some(f) && spec_split_extension(
            f,
        ) is None,
        MigrationError::NotSqlExtension => spec_file_name(p) matches Some(f)
            && spec_split_extension(f) matches Some(se) && !seq_ascii_ieq(se.1, "sql"@),
        MigrationError::InvalidName => spec_file_name(p) matches Some(f) && spec_split_extension(
            f,
        ) matches Some(se) && seq_ascii_ieq(se.1, "sql"@) && crate::strutil::first_index(
            se.0,
            '_',
        ) < 0,
        MigrationError::InvalidVersion(vs) => spec_file_name(p) matches Some(f)
            && spec_split_extension(f) matches Some(se) && seq_ascii_ieq(se.1, "sql"@)
            && crate::strutil::first_index(se.0, '_') >= 0 && vs@ == se.0.subrange(
            0,
            crate::strutil::first_index(se.0, '_'),
        ) && !valid_version(vs@),
    }
}

/// Reads a migration's version and name off its file name
/// `<version>_<name>.sql`.
pub fn parse_migration_file_name(file_name: &str) -> (r: Result<(u32, String), MigrationError>)
    ensures
        r matches Ok(v) ==> file_name_parse_ok(file_name@, v.0, v.1@),
        r matches Err(e) ==> file_name_parse_err(file_name@, e),
{
    let f = match file_name_component(file_name) {
        Some(f) => f,
        None => {
            return Err(MigrationError::NoFileName);
        },
    };
    let f_len = f.as_str().unicode_len();
    let di = match crate::strutil::find_last_char(f.as_str(), '.') {
        Some(di) => di,
        None => {
            return Err(MigrationError::NoExtension);
        },
    };
    let stem = f.as_str().substring_char(0, di);
    let ext = f.as_str().substring_char(di + 1, f_len);
    if !str_ieq(ext, "sql") {
        return Err(MigrationError::NotSqlExtension);
    }
    let stem_len = stem.unicode_len();
    let ui = match crate::strutil::find_char_from(stem, '_', 0) {
        Some(ui) => ui,
        None => {
            proof {
                crate::strutil::lemma_first_index_none(stem@, '_');
            }
            return Err(MigrationError::InvalidName);
        },
    };
    proof {
        crate::strutil::lemma_first_index_is(stem@, '_', ui as int);
    }
    let version_text = stem.substring_char(0, ui);
    let migration_name = stem.substring_char(ui + 1, stem_len);
    match parse_version_number(version_text) {
        Some(version) => Ok((version, migration_name.to_owned())),
        None => Err(MigrationError::InvalidVersion(version_text.to_owned())),
    }
}

/// How one line of migration text updates the parser state: the statement
/// being accumulated, and the statements finished so far.  A blank line
/// changes nothing; a line comment outside a statement is a statement of
/// its own; any other line joins the accumulated statement, which is
/// finished when the line closes with `;`.
pub open spec fn migration_text_step(
    st: (Option<Seq<char>>, Seq<Seq<char>>),
    line: Seq<char>,
) -> (Option<Seq<char>>, Seq<Seq<char>>) {
    let t = crate::strutil::spec_trim(line);
    if t.len() == 0 {
        st
    } else if starts_with_seq(t, "--"@) && st.0 is None {
        (st.0, st.1.push(t))
    } else {
        let joined = match st.0 {
            Some(a) => a + t,
            None => t,
        };
        if t[t.len() - 1] == ';' {
            (None, st.1.push(joined))
        } else {
            (Some(joined), st.1)
        }
    }
}

/// The parser state after a sequence of lines.
pub open spec fn migration_text_fold(lines: Seq<Seq<char>>) -> (Option<Seq<char>>, Seq<Seq<char>>)
    decreases lines.len(),
{
    if lines.len() == 0 {
        (None, Seq::<Seq<char>>::empty())
    } else {
        migration_text_step(migration_text_fold(lines.drop_last()), lines.last())
    }
}

/// The statement texts of migration text `s`; an unterminated trailing
/// statement is dropped.
pub open spec fn spec_parse_migration_text(s: Seq<char>) -> Seq<Seq<char>> {
    migration_text_fold(crate::strutil::spec_lines(s)).1
}

/// Applies one line of migration text to the parser state.
fn migration_text_line(line: &str, acc: &mut Option<String>, out: &mut Vec<MigrationStatement>)
    ensures
        ({
            let next = migration_text_step(
                (crate::codec::opt_text(*old(acc)), old(out)@.map_values(
                    |m: MigrationStatement| m@,
                )),
                line@,
            );
            crate::codec::opt_text(*final(acc)) == next.0 && final(out)@.map_values(
                |m: MigrationStatement| m@,
            ) == next.1
        }),
{
    let t = crate::strutil::trim_str(line);
    let t_len = t.unicode_len();
    if t_len == 0 {
        return ;
    }
    let ghost prev = out@.map_values(|m: MigrationStatement| m@);
    if crate::strutil::starts_with_from(t, "--", 0) && acc.is_none() {
        out.push(MigrationStatement::new(t));
        proof {
            assert(out@.map_values(|m: MigrationStatement| m@) =~= prev.push(t@));
        }
        return ;
    }
    let mut joined = match &*acc {
        Some(a) => a.clone(),
        None => String::new(),
    };
    joined.append(t);
    proof {
        if old(acc)@ is None {
            assert(joined@ =~= t@);
        }
    }
    if t.get_char(t_len - 1) == ';' {
        out.push(MigrationStatement::new(joined.as_str()));
        *acc = None;
        proof {
            assert(out@.map_values(|m: MigrationStatement| m@) =~= prev.push(joined@));
        }
    } else {
        *acc = Some(joined);
    }
}

/// Parses migration text into its statements, one per `;`-closed run of
/// lines, with `--` line comments as statements of their own.
pub fn parse_migration_text(sql_text: &str) -> (r: Result<Vec<MigrationStatement>, MigrationError>)
    ensures
        r matches Ok(v) && v@.map_values(|m: MigrationStatement| m@) == spec_parse_migration_text(
            sql_text@,
        ),
{
    let n = sql_text.unicode_len();
    let ghost lines = crate::strutil::spec_lines(sql_text@);
    proof {
        crate::strutil::lemma_spec_lines_len(sql_text@);
    }
    let mut acc: Option<String> = None;
    let mut out: Vec<MigrationStatement> = Vec::new();
    let mut start: usize = 0;
    let ghost mut k: int = 0;
    proof {
        assert(sql_text@.subrange(0, n as int) =~= sql_text@);
        assert(lines.subrange(0, lines.len() as int) =~= lines);
        assert(out@.map_values(|m: MigrationStatement| m@) =~= Seq::<Seq<char>>::empty());
    }
    loop
        invariant_except_break
            (crate::codec::opt_text(acc), out@.map_values(|m: MigrationStatement| m@))
                == migration_text_fold(lines.take(k)),
        invariant
            n == sql_text@.len(),
            start <= n,
            lines == crate::strutil::spec_lines(sql_text@),
            0 <= k < lines.len(),
            crate::strutil::spec_lines(sql_text@.subrange(start as int, n as int))
                == lines.subrange(k, lines.len() as int),
        ensures
            out@.map_values(|m: MigrationStatement| m@) == migration_text_fold(lines).1,
        decreases n - start,
    {
        let ghost remaining = sql_text@.subrange(start as int, n as int);
        match crate::strutil::find_char_from(sql_text, '\n', start) {
            Some(e) => {
                proof {
                    assert(remaining[e - start] == sql_text@[e as int]);
                    assert forall|j: int| 0 <= j < e - start implies remaining[j] != '\n' by {
                        assert(remaining[j] == sql_text@[start + j]);
                    }
                    crate::strutil::lemma_lines_split(remaining, e - start);
                    assert(remaining.subrange(0, e - start) =~= sql_text@.subrange(
                        start as int,
                        e as int,
                    ));
                    assert(remaining.subrange(e - start + 1, remaining.len() as int)
                        =~= sql_text@.subrange(e + 1, n as int));
                    crate::strutil::lemma_spec_lines_len(sql_text@.subrange(e + 1, n as int));
                    assert(lines.subrange(k, lines.len() as int)[0] == lines[k]);
                    assert(lines[k] == sql_text@.subrange(start as int, e as int));
                    assert((seq![sql_text@.subrange(start as int, e as int)]
                        + crate::strutil::spec_lines(
                        sql_text@.subrange(e + 1, n as int),
                    )).drop_first() =~= crate::strutil::spec_lines(
                        sql_text@.subrange(e + 1, n as int),
                    ));
                    assert(lines.subrange(k, lines.len() as int).drop_first() =~= lines.subrange(
                        k + 1,
                        lines.len() as int,
                    ));
                }
                let line = sql_text.substring_char(start, e);
                migration_text_line(line, &mut acc, &mut out);
                proof {
                    assert(lines.take(k + 1).drop_last() =~= lines.take(k));
                    assert(lines.take(k + 1).last() == lines[k]);
                    k = k + 1;
                }
                start = e + 1;
            },
            None => {
                proof {
                    assert forall|j: int| 0 <= j < remaining.len() implies remaining[j] != '\n' by {
                        assert(remaining[j] == sql_text@[start + j]);
                    }
                    crate::strutil::lemma_lines_single(remaining);
                    assert(lines.subrange(k, lines.len() as int)[0] == lines[k]);
                    assert(lines.subrange(k, lines.len() as int).len() == 1);
                    assert(k == lines.len() - 1);
                    assert(lines[k] == remaining);
                }
                let line = sql_text.substring_char(start, n);
                migration_text_line(line, &mut acc, &mut out);
                proof {
                    assert(migration_text_fold(lines) == migration_text_step(
                        migration_text_fold(lines.drop_last()),
                        lines.last(),
                    ));
                    assert(lines.drop_last() =~= lines.take(k));
                    assert(lines.last() == lines[k]);
                }
                break ;
            },
        }
    }
    Ok(out)
}

/// The index of the last statement that opens with `word`, or zero when
/// none does.
pub open spec fn last_marker_idx(texts: Seq<Seq<char>>, word: Seq<char>) -> int
    decreases texts.len(),
{
    if texts.len() == 0 {
        0
    } else if starts_with_seq(texts.last(), word) {
        texts.len() - 1
    } else {
        last_marker_idx(texts.drop_last(), word)
    }
}

/// Finds the up and down ranges of a statement list: the up range runs
/// from the last `-- pico.UP` marker (or the start) to the last
/// `-- pico.DOWN` marker (or the start), the down range from there to the
/// end.
pub fn extract_up_down_ranges(statements: &Vec<MigrationStatement>) -> (r: Result<
    ((usize, usize), (usize, usize)),
    MigrationError,
>)
    ensures
        r matches Ok(v) && ({
            let texts = statements@.map_values(|m: MigrationStatement| m@);
            &&& v.0.0 as int == last_marker_idx(texts, "-- pico.UP"@)
            &&& v.0.1 as int == last_marker_idx(texts, "-- pico.DOWN"@)
            &&& v.1.0 as int == last_marker_idx(texts, "-- pico.DOWN"@)
            &&& v.1.1 == statements@.len()
            &&& v.0.0 <= statements@.len()
            &&& v.0.1 <= statements@.len()
        }),
{
    let ghost texts = statements@.map_values(|m: MigrationStatement| m@);
    let n = statements.len();
    let mut up_range_start: usize = 0;
    let mut down_range_start: usize = 0;
    let mut idx: usize = 0;
    proof {
        assert(texts.take(0) =~= Seq::<Seq<char>>::empty());
    }
    while idx < n
        invariant
            n == statements@.len(),
            texts == statements@.map_values(|m: MigrationStatement| m@),
            idx <= n,
            up_range_start <= idx,
            down_range_start <= idx,
            up_range_start as int == last_marker_idx(texts.take(idx as int), "-- pico.UP"@),
            down_range_start as int == last_marker_idx(texts.take(idx as int), "-- pico.DOWN"@),
        decreases n - idx,
    {
        let statement = &statements[idx];
        proof {
            assert(texts.take(idx + 1).drop_last() =~= texts.take(idx as int));
            assert(texts.take(idx + 1).last() == texts[idx as int]);
            assert(texts[idx as int] == statement@);
        }
        if crate::strutil::starts_with_from(statement.text(), "-- pico.UP", 0) {
            up_range_start = idx;
        }
        if crate::strutil::starts_with_from(statement.text(), "-- pico.DOWN", 0) {
            down_range_start = idx;
        }
        idx += 1;
    }
    proof {
        assert(texts.take(n as int) =~= texts);
    }
    Ok(((up_range_start, down_range_start), (down_range_start, n)))
}

/// One parsed migration file: its version, its name, its statements, and
/// the up and down ranges among them.
#[derive(Debug)]
pub struct Migration {
    version: u32,
    name: String,
    statements: Vec<MigrationStatement>,
    up_range: (usize, usize),
    down_range: (usize, usize),
}

impl Migration {
    /// The migration's version.
    pub closed spec fn spec_version(self) -> u32 {
        self.version
    }

    /// The migration's name.
    pub closed spec fn name_text(self) -> Seq<char> {
        self.name@
    }

    /// The texts of the migration's statements.
    pub closed spec fn statement_texts(self) -> Seq<Seq<char>> {
        self.statements@.map_values(|m: MigrationStatement| m@)
    }

    /// The up range.
    pub closed spec fn spec_up_range(self) -> (int, int) {
        (self.up_range.0 as int, self.up_range.1 as int)
    }

    /// The down range.
    pub closed spec fn spec_down_range(self) -> (int, int) {
        (self.down_range.0 as int, self.down_range.1 as int)
    }

    /// True when both ranges lie in order within the statement list.  A
    /// file whose markers stand in reverse order yields a migration
    /// without this shape.
    pub closed spec fn wf_ranges(self) -> bool {
        &&& 0 <= self.up_range.0 <= self.up_range.1 <= self.statements@.len()
        &&& 0 <= self.down_range.0 <= self.down_range.1 <= self.statements@.len()
    }

    /// The migration's name.
    pub fn name(&self) -> (r: &str)
        ensures
            r@ == self.name_text(),
    {
        self.name.as_str()
    }

    /// The migration's statements.
    pub fn statements(&self) -> (r: &Vec<MigrationStatement>)
        ensures
            r@.map_values(|m: MigrationStatement| m@) == self.statement_texts(),
    {
        &self.statements
    }

    /// The statements of the up range.
    pub fn up_statements(&self) -> (r: Vec<MigrationStatement>)
        requires
            self.wf_ranges(),
        ensures
            r@.map_values(|m: MigrationStatement| m@) == self.statement_texts().subrange(
                self.spec_up_range().0,
                self.spec_up_range().1,
            ),
    {
        clone_statement_range(&self.statements, self.up_range.0, self.up_range.1)
    }

    /// The statements of the down range.
    pub fn down_statements(&self) -> (r: Vec<MigrationStatement>)
        requires
            self.wf_ranges(),
        ensures
            r@.map_values(|m: MigrationStatement| m@) == self.statement_texts().subrange(
                self.spec_down_range().0,
                self.spec_down_range().1,
            ),
    {
        clone_statement_range(&self.statements, self.down_range.0, self.down_range.1)
    }
}

/// Copies the statements of a range.
fn clone_statement_range(statements: &Vec<MigrationStatement>, a: usize, b: usize) -> (r: Vec<
    MigrationStatement,
>)
    requires
        a <= b <= statements@.len(),
    ensures
        r@.map_values(|m: MigrationStatement| m@) == statements@.map_values(
            |m: MigrationStatement| m@,
        ).subrange(a as int, b as int),
{
    let mut out: Vec<MigrationStatement> = Vec::new();
    let mut i: usize = a;
    while i < b
        invariant
            a <= i <= b <= statements@.len(),
            out@.map_values(|m: MigrationStatement| m@) == statements@.map_values(
                |m: MigrationStatement| m@,
            ).subrange(a as int, i as int),
        decreases b - i,
    {
        let ghost prev = out@.map_values(|m: MigrationStatement| m@);
        out.push(statements[i].clone());
        proof {
            assert(out@.map_values(|m: MigrationStatement| m@) =~= prev.push(
                statements@[i as int]@,
            ));
            assert(out@.map_values(|m: MigrationStatement| m@) =~= statements@.map_values(
                |m: MigrationStatement| m@,
            ).subrange(a as int, i + 1));
        }
        i += 1;
    }
    out
}

/// Parses one migration file from its file name and its text.
pub fn parse_migration_file(file_name: &str, sql_text: &str) -> (r: Result<
    Migration,
    MigrationError,
>)
    ensures
        r matches Ok(m) ==> {
            &&& file_name_parse_ok(file_name@, m.spec_version(), m.name_text())
            &&& m.statement_texts() == spec_parse_migration_text(sql_text@)
            &&& m.spec_up_range() == (
                last_marker_idx(m.statement_texts(), "-- pico.UP"@),
                last_marker_idx(m.statement_texts(), "-- pico.DOWN"@),
            )
            &&& m.spec_down_range() == (
                last_marker_idx(m.statement_texts(), "-- pico.DOWN"@),
                m.statement_texts().len() as int,
            )
        },
        r matches Err(e) ==> file_name_parse_err(file_name@, e),
{
    let (version, name) = match parse_migration_file_name(file_name) {
        Ok(v) => v,
        Err(e) => {
            return Err(e);
        },
    };
    let statements = match parse_migration_text(sql_text) {
        Ok(v) => v,
        Err(e) => {
            return Err(e);
        },
    };
    let (up_range, down_range) = match extract_up_down_ranges(&statements) {
        Ok(v) => v,
        Err(e) => {
            return Err(e);
        },
    };
    Ok(Migration { version, name, statements, up_range, down_range })
}

/// Moving one element from the pending batch into the ordered list keeps
/// the combined contents.
proof fn lemma_transfer_multiset<A>(
    sorted_old: Seq<A>,
    sorted_new: Seq<A>,
    rest_old: Seq<A>,
    rest_new: Seq<A>,
    total: Multiset<A>,
    i: int,
    x: A,
)
    requires
        0 <= i <= sorted_old.len(),
        sorted_new == sorted_old.insert(i, x),
        rest_old == rest_new.push(x),
        sorted_old.to_multiset().add(rest_old.to_multiset()) == total,
    ensures
        sorted_new.to_multiset().add(rest_new.to_multiset()) == total,
{
    broadcast use vstd::seq_lib::group_to_multiset_ensures;
    broadcast use vstd::multiset::group_multiset_axioms;

    assert(sorted_new.to_multiset() =~= sorted_old.to_multiset().insert(x));
    assert(rest_old.to_multiset() =~= rest_new.to_multiset().insert(x));
    assert(sorted_new.to_multiset().add(rest_new.to_multiset()) =~= total);
}

/// Before anything moves, the empty ordered list and the full batch
/// together hold the batch's contents.
proof fn lemma_initial_multiset<A>(s: Seq<A>)
    ensures
        Seq::<A>::empty().to_multiset().add(s.to_multiset()) == s.to_multiset(),
{
    broadcast use vstd::seq_lib::group_to_multiset_ensures;
    broadcast use vstd::multiset::group_multiset_axioms;

    assert forall|x: A| #[trigger] Seq::<A>::empty().to_multiset().count(x) == 0 by {
        assert(!Seq::<A>::empty().contains(x));
    }
    assert(Seq::<A>::empty().to_multiset().add(s.to_multiset()) =~= s.to_multiset());
}

/// With the pending batch exhausted, the ordered list holds the combined
/// contents alone.
proof fn lemma_exhausted_multiset<A>(sorted_s: Seq<A>, rest_s: Seq<A>, total: Multiset<A>)
    requires
        rest_s.len() == 0,
        sorted_s.to_multiset().add(rest_s.to_multiset()) == total,
    ensures
        sorted_s.to_multiset() == total,
{
    broadcast use vstd::seq_lib::group_to_multiset_ensures;
    broadcast use vstd::multiset::group_multiset_axioms;

    assert forall|x: A| #[trigger] rest_s.to_multiset().count(x) == 0 by {
        assert(!rest_s.contains(x));
    }
    assert(rest_s.to_multiset() =~= Multiset::<A>::empty());
    assert(sorted_s.to_multiset().add(rest_s.to_multiset()) =~= sorted_s.to_multiset());
}

/// The migrations of one plugin, held in ascending version order.
#[derive(Debug)]
pub struct Migrations {
    sequence: Vec<Migration>,
}

impl Migrations {
    /// The held migrations, in order.
    pub closed spec fn sequence_view(self) -> Seq<Migration> {
        self.sequence@
    }

    /// Orders a batch of migrations by ascending version.  The result
    /// holds exactly the given migrations.
    pub fn from_unsorted(migrations: Vec<Migration>) -> (r: Migrations)
        ensures
            forall|i: int, j: int|
                0 <= i < j < r.sequence_view().len() ==> r.sequence_view()[i].spec_version()
                    <= r.sequence_view()[j].spec_version(),
            r.sequence_view().to_multiset() == migrations@.to_multiset(),
    {
        let mut rest = migrations;
        let mut sorted: Vec<Migration> = Vec::new();
        proof {
            lemma_initial_multiset(rest@);
        }
        loop
            invariant
                sorted@.to_multiset().add(rest@.to_multiset()) == migrations@.to_multiset(),
                forall|i: int, j: int|
                    0 <= i < j < sorted@.len() ==> sorted@[i].spec_version()
                        <= sorted@[j].spec_version(),
            ensures
                sorted@.to_multiset() == migrations@.to_multiset(),
                forall|i: int, j: int|
                    0 <= i < j < sorted@.len() ==> sorted@[i].spec_version()
                        <= sorted@[j].spec_version(),
            decreases rest@.len(),
        {
            let ghost rest_entry = rest@;
            let next = match rest.pop() {
                Some(m) => m,
                None => {
                    proof {
                        lemma_exhausted_multiset(sorted@, rest@, migrations@.to_multiset());
                    }
                    break ;
                },
            };
            let ghost rest_before = rest@.push(next);
            proof {
                assert(rest_entry =~= rest_before);
            }
            let mut pos: usize = 0;
            while pos < sorted.len() && sorted[pos].version <= next.version
                invariant
                    pos <= sorted@.len(),
                    forall|i: int, j: int|
                        0 <= i < j < sorted@.len() ==> sorted@[i].spec_version()
                            <= sorted@[j].spec_version(),
                    forall|i: int| 0 <= i < pos ==> sorted@[i].spec_version()
                        <= next.spec_version(),
                decreases sorted@.len() - pos,
            {
                pos += 1;
            }
            let ghost sorted_before = sorted@;
            sorted.insert(pos, next);
            proof {
                lemma_transfer_multiset(
                    sorted_before,
                    sorted@,
                    rest_before,
                    rest@,
                    migrations@.to_multiset(),
                    pos as int,
                    next,
                );
                assert forall|i: int, j: int|
                    0 <= i < j < sorted@.len() implies sorted@[i].spec_version()
                    <= sorted@[j].spec_version() by {
                    if j == pos as int {
                        assert(sorted@[i] == sorted_before[i]);
                    } else if i == pos as int {
                        assert(sorted@[j] == sorted_before[j - 1]);
                        assert(sorted_before[pos as int].spec_version() > next.spec_version());
                    } else if i < pos as int && j > pos as int {
                        assert(sorted@[i] == sorted_before[i]);
                        assert(sorted@[j] == sorted_before[j - 1]);
                    } else if i > pos as int {
                        assert(sorted@[i] == sorted_before[i - 1]);
                        assert(sorted@[j] == sorted_before[j - 1]);
                    } else {
                        assert(sorted@[i] == sorted_before[i]);
                        assert(sorted@[j] == sorted_before[j]);
                    }
                }
            }
        }
        Migrations { sequence: sorted }
    }

    /// How many migrations are held.
    pub fn len(&self) -> (r: usize)
        ensures
            r == self.sequence_view().len(),
    {
        self.sequence.len()
    }

    /// The migration at position `i`.
    pub fn get(&self, i: usize) -> (r: &Migration)
        requires
            i < self.sequence_view().len(),
        ensures
            *r == self.sequence_view()[i as int],
    {
        &self.sequence[i]
    }
}

/// One migration-context override: the variable and the value it takes.
#[derive(Debug)]
pub struct MigrationContextVar {
    pub name: String,
    pub value: String,
}

impl Clone for MigrationContextVar {
    fn clone(&self) -> (r: Self)
        ensures
            r == *self,
    {
        MigrationContextVar { name: self.name.clone(), value: self.value.clone() }
    }
}

/// Builds migration context variables for a plugin by its name.
pub trait MigrationContextProvider {
    fn get_migration_context(&self, plugin_name: &str) -> Vec<MigrationContextVar>;
}

impl MigrationContextProvider for Vec<MigrationContextVar> {
    fn get_migration_context(&self, _plugin_name: &str) -> Vec<MigrationContextVar> {
        let mut out: Vec<MigrationContextVar> = Vec::new();
        let mut i: usize = 0;
        while i < self.len()
            decreases self@.len() - i,
        {
            out.push(self[i].clone());
            i += 1;
        }
        out
    }
}

impl MigrationContextProvider for std::collections::HashMap<String, Vec<MigrationContextVar>> {
    fn get_migration_context(&self, plugin_name: &str) -> Vec<MigrationContextVar> {
        match self.get(plugin_name) {
            Some(vars) => {
                let mut out: Vec<MigrationContextVar> = Vec::new();
                let mut i: usize = 0;
                while i < vars.len()
                    decreases vars@.len() - i,
                {
                    out.push(vars[i].clone());
                    i += 1;
                }
                out
            },
            None => Vec::new(),
        }
    }
}

/// The tier variables of a list of statement texts, in order.
pub open spec fn statements_tier_vars(texts: Seq<Seq<char>>) -> Seq<Seq<char>>
    decreases texts.len(),
{
    if texts.len() == 0 {
        Seq::<Seq<char>>::empty()
    } else {
        statements_tier_vars(texts.drop_last()) + spec_tier_variables(texts.last(), 0)
    }
}

/// The tier variables of a list of migrations, in order.
pub open spec fn migrations_tier_vars(migs: Seq<Migration>) -> Seq<Seq<char>>
    decreases migs.len(),
{
    if migs.len() == 0 {
        Seq::<Seq<char>>::empty()
    } else {
        migrations_tier_vars(migs.drop_last()) + statements_tier_vars(
            migs.last().statement_texts(),
        )
    }
}

/// Builds one override per tier variable of the migrations, each set to
/// `target_tier`.
pub fn make_ddl_tier_overrides(migrations: &Migrations, target_tier: &str) -> (r: Vec<
    MigrationContextVar,
>)
    ensures
        r@.map_values(|v: MigrationContextVar| v.name@) == migrations_tier_vars(
            migrations.sequence_view(),
        ),
        forall|i: int| 0 <= i < r@.len() ==> #[trigger] r@[i].value@ == target_tier@,
{
    let ghost migs = migrations.sequence_view();
    let mut out: Vec<MigrationContextVar> = Vec::new();
    let n = migrations.len();
    let mut mi: usize = 0;
    proof {
        assert(out@.map_values(|v: MigrationContextVar| v.name@) =~= Seq::<Seq<char>>::empty());
        assert(migs.take(0) =~= Seq::<Migration>::empty());
    }
    while mi < n
        invariant
            n == migs.len(),
            migs == migrations.sequence_view(),
            mi <= n,
            out@.map_values(|v: MigrationContextVar| v.name@) == migrations_tier_vars(
                migs.take(mi as int),
            ),
            forall|i: int| 0 <= i < out@.len() ==> #[trigger] out@[i].value@ == target_tier@,
        decreases n - mi,
    {
        let migration = migrations.get(mi);
        let ghost texts = migration.statement_texts();
        let statements = migration.statements();
        let s_n = statements.len();
        let mut si: usize = 0;
        proof {
            assert(texts.take(0) =~= Seq::<Seq<char>>::empty());
        }
        while si < s_n
            invariant
                s_n == texts.len(),
                texts == statements@.map_values(|m: MigrationStatement| m@),
                texts == migrations.sequence_view()[mi as int].statement_texts(),
                migs == migrations.sequence_view(),
                mi < migs.len(),
                n == migs.len(),
                si <= s_n,
                out@.map_values(|v: MigrationContextVar| v.name@) == migrations_tier_vars(
                    migs.take(mi as int),
                ) + statements_tier_vars(texts.take(si as int)),
                forall|i: int| 0 <= i < out@.len() ==> #[trigger] out@[i].value@ == target_tier@,
            decreases s_n - si,
        {
            let vars = statements[si].extract_tier_variables();
            let ghost var_names = vars@.map_values(|s: String| s@);
            proof {
                assert(texts.take(si + 1).drop_last() =~= texts.take(si as int));
                assert(texts.take(si + 1).last() == texts[si as int]);
                assert(texts[si as int] == statements@[si as int]@);
                assert(statements_tier_vars(texts.take(si + 1)) == statements_tier_vars(
                    texts.take(si as int),
                ) + var_names);
            }
            let v_n = vars.len();
            let mut vi: usize = 0;
            proof {
                assert(var_names.take(0) =~= Seq::<Seq<char>>::empty());
                assert(out@.map_values(|v: MigrationContextVar| v.name@) + var_names.take(0)
                    =~= out@.map_values(|v: MigrationContextVar| v.name@));
            }
            while vi < v_n
                invariant
                    v_n == var_names.len(),
                    var_names == vars@.map_values(|s: String| s@),
                    vi <= v_n,
                    out@.map_values(|v: MigrationContextVar| v.name@) == migrations_tier_vars(
                        migs.take(mi as int),
                    ) + statements_tier_vars(texts.take(si as int)) + var_names.take(vi as int),
                    forall|i: int| 0 <= i < out@.len() ==> #[trigger] out@[i].value@
                        == target_tier@,
                decreases v_n - vi,
            {
                let ghost prev = out@.map_values(|v: MigrationContextVar| v.name@);
                let ghost prev_vec = out@;
                let name = vars[vi].clone();
                out.push(MigrationContextVar { name, value: target_tier.to_owned() });
                proof {
                    assert forall|i: int| 0 <= i < out@.len() implies #[trigger] out@[i].value@
                        == target_tier@ by {
                        if i < out@.len() - 1 {
                            assert(out@[i] == prev_vec[i]);
                            assert(prev_vec[i].value@ == target_tier@);
                        }
                    }
                    assert(out@.map_values(|v: MigrationContextVar| v.name@) =~= prev.push(
                        vars@[vi as int]@,
                    ));
                    assert(var_names.take(vi + 1) =~= var_names.take(vi as int).push(
                        var_names[vi as int],
                    ));
                    assert(out@.map_values(|v: MigrationContextVar| v.name@)
                        =~= migrations_tier_vars(migs.take(mi as int)) + statements_tier_vars(
                        texts.take(si as int),
                    ) + var_names.take(vi + 1));
                }
                vi += 1;
            }
            proof {
                assert(var_names.take(v_n as int) =~= var_names);
                assert(out@.map_values(|v: MigrationContextVar| v.name@) =~= migrations_tier_vars(
                    migs.take(mi as int),
                ) + statements_tier_vars(texts.take(si + 1)));
            }
            si += 1;
        }
        proof {
            assert(texts.take(s_n as int) =~= texts);
            assert(migs.take(mi + 1).drop_last() =~= migs.take(mi as int));
            assert(migs.take(mi + 1).last() == migs[mi as int]);
            assert(migrations_tier_vars(migs.take(mi + 1)) == migrations_tier_vars(
                migs.take(mi as int),
            ) + statements_tier_vars(migs[mi as int].statement_texts()));
        }
        mi += 1;
    }
    proof {
        assert(migs.take(n as int) =~= migs);
    }
    out
}

/// True for directory names that may hold a plugin's shipped versions:
/// the build tool's own directories are passed over when migration
/// directories are searched.
pub fn allowlisted_dir_name(name: &str) -> (r: bool)
    ensures
        r == !(name@ == "build"@ || name@ == "deps"@ || name@ == "examples"@ || name@
            == "incremental"@ || name@ == ".fingerprint"@),
{
    !(str_eq(name, "build") || str_eq(name, "deps") || str_eq(name, "examples") || str_eq(
        name,
        "incremental",
    ) || str_eq(name, ".fingerprint"))
}

/// Lexicographic order on character sequences, by character codes.
pub open spec fn lex_le(a: Seq<char>, b: Seq<char>) -> bool
    decreases a.len(),
{
    if a.len() == 0 {
        true
    } else if b.len() == 0 {
        false
    } else if a[0] != b[0] {
        (a[0] as int) < (b[0] as int)
    } else {
        lex_le(a.drop_first(), b.drop_first())
    }
}

/// The order is total.
pub proof fn lemma_lex_le_total(a: Seq<char>, b: Seq<char>)
    ensures
        lex_le(a, b) || lex_le(b, a),
    decreases a.len(),
{
    if a.len() > 0 && b.len() > 0 && a[0] == b[0] {
        lemma_lex_le_total(a.drop_first(), b.drop_first());
    }
}

/// The order is transitive.
pub proof fn lemma_lex_le_trans(a: Seq<char>, b: Seq<char>, c: Seq<char>)
    requires
        lex_le(a, b),
        lex_le(b, c),
    ensures
        lex_le(a, c),
    decreases a.len(),
{
    if a.len() > 0 && b.len() > 0 && c.len() > 0 && a[0] == b[0] && b[0] == c[0] {
        lemma_lex_le_trans(a.drop_first(), b.drop_first(), c.drop_first());
    }
}

/// Compares two strings lexicographically by character codes.
fn str_le(a: &str, b: &str) -> (r: bool)
    ensures
        r == lex_le(a@, b@),
{
    let a_len = a.unicode_len();
    let b_len = b.unicode_len();
    let mut i: usize = 0;
    proof {
        assert(a@.subrange(0, a_len as int) =~= a@);
        assert(b@.subrange(0, b_len as int) =~= b@);
    }
    loop
        invariant
            a_len == a@.len(),
            b_len == b@.len(),
            i <= a_len,
            i <= b_len,
            forall|j: int| 0 <= j < i ==> a@[j] == b@[j],
            lex_le(a@, b@) == lex_le(
                a@.subrange(i as int, a_len as int),
                b@.subrange(i as int, b_len as int),
            ),
        ensures
            i <= a_len,
            i <= b_len,
            lex_le(a@, b@) == lex_le(
                a@.subrange(i as int, a_len as int),
                b@.subrange(i as int, b_len as int),
            ),
            i == a_len || i == b_len || a@[i as int] != b@[i as int],
        decreases a_len - i,
    {
        if i == a_len || i == b_len {
            break ;
        }
        if a.get_char(i) != b.get_char(i) {
            break ;
        }
        proof {
            let at = a@.subrange(i as int, a_len as int);
            let bt = b@.subrange(i as int, b_len as int);
            assert(at[0] == a@[i as int]);
            assert(bt[0] == b@[i as int]);
            assert(at.drop_first() =~= a@.subrange(i + 1, a_len as int));
            assert(bt.drop_first() =~= b@.subrange(i + 1, b_len as int));
        }
        i += 1;
    }
    let ghost at = a@.subrange(i as int, a_len as int);
    let ghost bt = b@.subrange(i as int, b_len as int);
    if i == a_len {
        proof {
            assert(at.len() == 0);
        }
        true
    } else if i == b_len {
        proof {
            assert(bt.len() == 0);
        }
        false
    } else {
        proof {
            assert(at[0] == a@[i as int]);
            assert(bt[0] == b@[i as int]);
        }
        (a.get_char(i) as u32) < (b.get_char(i) as u32)
    }
}

/// Picks the lexicographically greatest name: the latest version directory
/// of a plugin, whose versions order by name.
pub fn latest_version_dir(names: &Vec<String>) -> (r: Option<String>)
    ensures
        r is None <==> names@.len() == 0,
        r matches Some(m) ==> (exists|i: int| 0 <= i < names@.len() && names@[i]@ == m@)
            && (forall|i: int| 0 <= i < names@.len() ==> lex_le(#[trigger] names@[i]@, m@)),
{
    if names.len() == 0 {
        return None;
    }
    let mut best: usize = 0;
    let mut i: usize = 1;
    proof {
        lemma_lex_le_total(names@[0]@, names@[0]@);
    }
    while i < names.len()
        invariant
            1 <= i <= names@.len(),
            best < i,
            forall|j: int| 0 <= j < i ==> lex_le(#[trigger] names@[j]@, names@[best as int]@),
        decreases names@.len() - i,
    {
        if str_le(names[best].as_str(), names[i].as_str()) {
            proof {
                assert forall|j: int| 0 <= j < i + 1 implies lex_le(
                    #[trigger] names@[j]@,
                    names@[i as int]@,
                ) by {
                    if j < i {
                        lemma_lex_le_trans(names@[j]@, names@[best as int]@, names@[i as int]@);
                    } else {
                        lemma_lex_le_total(names@[i as int]@, names@[i as int]@);
                    }
                }
            }
            best = i;
        } else {
            proof {
                lemma_lex_le_total(names@[best as int]@, names@[i as int]@);
            }
        }
        i += 1;
    }
    Some(names[best].clone())
}

/// The position right behind the identifier that starts at `start`.
fn scan_ident_end(text: &str, start: usize) -> (end: usize)
    requires
        start <= text@.len(),
    ensures
        start <= end <= text@.len(),
        end as int == ident_end(text@, start as int),
{
    let t_len = text.unicode_len();
    let mut end = start;
    while end < t_len
        invariant
            t_len == text@.len(),
            start <= end <= t_len,
            ident_end(text@, start as int) == ident_end(text@, end as int),
        decreases t_len - end,
    {
        if !is_ident_char_exec(text.get_char(end)) {
            return end;
        }
        end += 1;
    }
    end
}

} // verus!
