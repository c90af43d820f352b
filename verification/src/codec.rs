//! Outcome codec.
//!
//! A captured panic is shipped between processes as one printable line:
//!
//! ```text
//! payload:<text64>;[location:<text64>;][backtrace:<text64>;]
//! ```
//!
//! where `<text64>` is the base64 rendering (standard alphabet, no padding)
//! of the field's text.  The alphabet holds neither `;` nor `:`, so the
//! record can be cut at its separators and every field round-trips exactly.

use crate::b64::{base64_decode_text, base64_encode, base64_of};
use crate::strutil::{dec_digits, find_char_from, starts_with_from, u32_to_string};
use vstd::prelude::*;
use vstd::string::{StrSliceExecFns, StringExecFns};

verus! {

/// Source position of a captured panic.
pub struct PicotestPanicLocation {
    pub file: String,
    pub line: u32,
    pub col: u32,
}

/// Snapshot of one captured panic: the panic message, and, when they could
/// be captured, the source location and the stack trace text.
pub struct PicotestPanicInfo {
    pub payload_str: String,
    pub location: Option<PicotestPanicLocation>,
    pub backtrace: Option<String>,
}

/// The `file:line:column` rendering of a location.
pub open spec fn location_text(loc: PicotestPanicLocation) -> Seq<char> {
    loc.file@ + ":"@ + dec_digits(loc.line as nat) + ":"@ + dec_digits(loc.col as nat)
}

/// The character views of an optional text field.
pub open spec fn opt_text(o: Option<String>) -> Option<Seq<char>> {
    match o {
        Some(s) => Some(s@),
        None => None,
    }
}

/// The encoded location field of an outcome, as text to be enciphered.
pub open spec fn location_field(o: Option<PicotestPanicLocation>) -> Option<Seq<char>> {
    match o {
        Some(l) => Some(location_text(l)),
        None => None,
    }
}

/// True when `s` holds neither of the record delimiters.
pub open spec fn delim_free(s: Seq<char>) -> bool {
    forall|i: int| 0 <= i < s.len() ==> s[i] != ';' && s[i] != ':'
}

/// An optional `;<name>:<text64>` run of the record.
pub open spec fn opt_field_text(prefix: Seq<char>, o: Option<Seq<char>>) -> Seq<char> {
    match o {
        Some(v) => prefix + base64_of(v),
        None => Seq::<char>::empty(),
    }
}

/// The full encoded record for payload text `p`, optional location text `l`
/// and optional backtrace text `b`.
pub open spec fn encoded_record(p: Seq<char>, l: Option<Seq<char>>, b: Option<Seq<char>>) -> Seq<
    char,
> {
    "payload:"@ + base64_of(p) + opt_field_text(";location:"@, l) + opt_field_text(
        ";backtrace:"@,
        b,
    ) + ";"@
}

/// True when the base64 renderings of all present fields avoid the record
/// delimiters.  The standard alphabet guarantees this for every input; the
/// fact reaches proofs through the contract of the encoding wrapper.
pub open spec fn record_delim_free(
    p: Seq<char>,
    l: Option<Seq<char>>,
    b: Option<Seq<char>>,
) -> bool {
    &&& delim_free(base64_of(p))
    &&& (l matches Some(v) ==> delim_free(base64_of(v)))
    &&& (b matches Some(v) ==> delim_free(base64_of(v)))
}

/// True when `d` is an encoded record of some triple of fields.
pub open spec fn wf_encoded_record(d: Seq<char>) -> bool {
    exists|p: Seq<char>, l: Option<Seq<char>>, b: Option<Seq<char>>|
        d == #[trigger] encoded_record(p, l, b) && record_delim_free(p, l, b)
}

/// What decoding guarantees: whichever fields `d` is the encoded record of,
/// the result returns exactly those fields.
pub open spec fn is_decoding_of(d: Seq<char>, r: (String, Option<String>, Option<String>)) -> bool {
    forall|p: Seq<char>, l: Option<Seq<char>>, b: Option<Seq<char>>|
        d == #[trigger] encoded_record(p, l, b) && record_delim_free(p, l, b) ==> r.0@ == p
            && opt_text(r.1) == l && opt_text(r.2) == b
}

impl PicotestPanicInfo {
    /// The encoded record of this snapshot.
    pub open spec fn encoded(self) -> Seq<char> {
        encoded_record(self.payload_str@, location_field(self.location), opt_text(self.backtrace))
    }

    /// True when the base64 renderings of this snapshot's fields avoid the
    /// record delimiters.
    pub open spec fn encoding_delim_free(self) -> bool {
        record_delim_free(
            self.payload_str@,
            location_field(self.location),
            opt_text(self.backtrace),
        )
    }
}

/// True when `s` holds no field separator.
pub open spec fn semi_free(s: Seq<char>) -> bool {
    forall|i: int| 0 <= i < s.len() ==> s[i] != ';'
}

/// What follows the payload field's separator: the optional location run,
/// then the optional backtrace run, then the record terminator.
pub open spec fn tail_after_payload(l: Option<Seq<char>>, b: Option<Seq<char>>) -> Seq<char> {
    match l {
        Some(v) => "location:"@ + base64_of(v) + opt_field_text(";backtrace:"@, b) + ";"@,
        None => tail_after_location(b),
    }
}

/// What follows the location field's separator (or the payload's, when no
/// location is present).
pub open spec fn tail_after_location(b: Option<Seq<char>>) -> Seq<char> {
    match b {
        Some(v) => "backtrace:"@ + base64_of(v) + ";"@,
        None => Seq::<char>::empty(),
    }
}

/// Lengths and separator facts of the grammar's fixed words.
proof fn lemma_record_literals()
    ensures
        "payload:"@.len() == 8,
        semi_free("payload:"@),
        "location:"@.len() == 9,
        semi_free("location:"@),
        "backtrace:"@.len() == 10,
        semi_free("backtrace:"@),
        ";location:"@ == seq![';'] + "location:"@,
        ";backtrace:"@ == seq![';'] + "backtrace:"@,
        ";"@ == seq![';'],
        "location:"@[0] == 'l',
        "backtrace:"@[0] == 'b',
{
    reveal_strlit("payload:");
    reveal_strlit("location:");
    reveal_strlit("backtrace:");
    reveal_strlit(";location:");
    reveal_strlit(";backtrace:");
    reveal_strlit(";");
    assert(";location:"@ =~= seq![';'] + "location:"@);
    assert(";backtrace:"@ =~= seq![';'] + "backtrace:"@);
    assert(";"@ =~= seq![';']);
}

/// In `d`, a head of fixed text free of separators, a separator-free
/// segment, and a separator-led rest start at position `f`; then the first
/// separator at or after `f` stands right after the segment, and cutting
/// there recovers the segment and the rest.
proof fn lemma_segment_at(
    d: Seq<char>,
    f: int,
    head: Seq<char>,
    enc: Seq<char>,
    rest: Seq<char>,
    i: int,
)
    requires
        0 <= f <= d.len(),
        d.subrange(f, d.len() as int) == head + enc + rest,
        semi_free(head),
        semi_free(enc),
        rest.len() > 0,
        rest[0] == ';',
        f <= i < d.len(),
        d[i] == ';',
        forall|j: int| f <= j < i ==> d[j] != ';',
    ensures
        i == f + head.len() + enc.len(),
        d.subrange(f + head.len(), i) == enc,
        d.subrange(i + 1, d.len() as int) == rest.drop_first(),
{
    let tail = d.subrange(f, d.len() as int);
    let hl = head.len() as int;
    let el = enc.len() as int;
    assert(forall|k: int| 0 <= k < tail.len() ==> tail[k] == d[f + k]);
    assert(tail[hl + el] == rest[0]);
    assert(d[f + hl + el] == ';');
    assert forall|k: int| 0 <= k < hl + el implies tail[k] != ';' by {
        if k < hl {
            assert(tail[k] == head[k]);
        } else {
            assert(tail[k] == enc[k - hl]);
        }
    }
    assert forall|j: int| f <= j < f + hl + el implies d[j] != ';' by {
        assert(tail[j - f] != ';');
    }
    assert(i == f + hl + el);
    assert forall|m: int| 0 <= m < el implies d.subrange(f + hl, i)[m] == enc[m] by {
        assert(d.subrange(f + hl, i)[m] == d[f + hl + m]);
        assert(tail[hl + m] == ((head + enc) + rest)[hl + m]);
        assert(((head + enc) + rest)[hl + m] == (head + enc)[hl + m]);
        assert((head + enc)[hl + m] == enc[m]);
    }
    assert(d.subrange(f + head.len(), i) =~= enc);
    let after = d.subrange(i + 1, d.len() as int);
    assert(tail.len() == hl + el + rest.len());
    assert forall|m: int| 0 <= m < after.len() implies after[m] == rest.drop_first()[m] by {
        assert(after[m] == d[i + 1 + m]);
        assert(tail[hl + el + 1 + m] == ((head + enc) + rest)[hl + el + 1 + m]);
        assert(((head + enc) + rest)[hl + el + 1 + m] == rest[1 + m]);
        assert(rest.drop_first()[m] == rest[1 + m]);
    }
    assert(d.subrange(i + 1, d.len() as int) =~= rest.drop_first());
}

/// Cutting an encoded record at its first separator recovers the payload
/// segment and leaves the rest of the record.
proof fn lemma_cut_payload(
    d: Seq<char>,
    p: Seq<char>,
    l: Option<Seq<char>>,
    b: Option<Seq<char>>,
    i: int,
)
    requires
        d == encoded_record(p, l, b),
        record_delim_free(p, l, b),
        0 <= i < d.len(),
        d[i] == ';',
        forall|j: int| 0 <= j < i ==> d[j] != ';',
    ensures
        i == 8 + base64_of(p).len(),
        d.subrange(8, i) == base64_of(p),
        d.subrange(i + 1, d.len() as int) == tail_after_payload(l, b),
{
    lemma_record_literals();
    let rest = seq![';'] + tail_after_payload(l, b);
    assert(d.subrange(0, d.len() as int) =~= d);
    assert(d =~= "payload:"@ + base64_of(p) + rest);
    lemma_segment_at(d, 0, "payload:"@, base64_of(p), rest, i);
    assert(rest.drop_first() =~= tail_after_payload(l, b));
}

/// Cutting the record's remainder at the next separator recovers the
/// location segment and leaves the rest of the record.
proof fn lemma_cut_location(
    d: Seq<char>,
    v: Seq<char>,
    b: Option<Seq<char>>,
    f: int,
    i: int,
)
    requires
        0 <= f <= d.len(),
        d.subrange(f, d.len() as int) == tail_after_payload(Some(v), b),
        delim_free(base64_of(v)),
        f <= i < d.len(),
        d[i] == ';',
        forall|j: int| f <= j < i ==> d[j] != ';',
    ensures
        i == f + 9 + base64_of(v).len(),
        d.subrange(f + 9, i) == base64_of(v),
        d.subrange(i + 1, d.len() as int) == tail_after_location(b),
{
    lemma_record_literals();
    let rest = seq![';'] + tail_after_location(b);
    assert(tail_after_payload(Some(v), b) =~= "location:"@ + base64_of(v) + rest);
    lemma_segment_at(d, f, "location:"@, base64_of(v), rest, i);
    assert(rest.drop_first() =~= tail_after_location(b));
}

/// Cutting the record's remainder at the final separator recovers the
/// backtrace segment and leaves nothing.
proof fn lemma_cut_backtrace(d: Seq<char>, v: Seq<char>, f: int, i: int)
    requires
        0 <= f <= d.len(),
        d.subrange(f, d.len() as int) == tail_after_location(Some(v)),
        delim_free(base64_of(v)),
        f <= i < d.len(),
        d[i] == ';',
        forall|j: int| f <= j < i ==> d[j] != ';',
    ensures
        i == f + 10 + base64_of(v).len(),
        d.subrange(f + 10, i) == base64_of(v),
        i + 1 == d.len(),
{
    lemma_record_literals();
    let rest = seq![';'];
    assert(tail_after_location(Some(v)) =~= "backtrace:"@ + base64_of(v) + rest);
    lemma_segment_at(d, f, "backtrace:"@, base64_of(v), rest, i);
    assert(d.subrange(i + 1, d.len() as int) =~= Seq::<char>::empty());
    assert(d.subrange(i + 1, d.len() as int).len() == d.len() - i - 1);
}

/// An encoded record always ends with the terminator, after the payload
/// word, its segment and the separator.
proof fn lemma_record_shape(d: Seq<char>, p: Seq<char>, l: Option<Seq<char>>, b: Option<Seq<char>>)
    requires
        d == encoded_record(p, l, b),
    ensures
        d.len() >= 9,
        d[d.len() - 1] == ';',
        d.subrange(0, 8) == "payload:"@,
{
    lemma_record_literals();
    assert(d[d.len() - 1] == ";"@[0]);
    assert(d.subrange(0, 8) =~= "payload:"@);
}

/// Strips one trailing newline off captured backtrace text, as the wire
/// grammar asks, before the text is stored in a snapshot.
pub fn strip_trailing_newline(s: &str) -> (r: String)
    ensures
        r@ == (if s@.len() > 0 && s@[s@.len() - 1] == '\n' {
            s@.drop_last()
        } else {
            s@
        }),
{
    let n = s.unicode_len();
    if n > 0 && s.get_char(n - 1) == '\n' {
        let r = s.substring_char(0, n - 1);
        proof {
            assert(r@ =~= s@.drop_last());
        }
        r.to_owned()
    } else {
        s.to_owned()
    }
}

/// Builds the `file:line:column` text of a location.
fn location_string(loc: &PicotestPanicLocation) -> (r: String)
    ensures
        r@ == location_text(*loc),
{
    let mut s = loc.file.clone();
    s.append(":");
    let line_str = u32_to_string(loc.line);
    s.append(line_str.as_str());
    s.append(":");
    let col_str = u32_to_string(loc.col);
    s.append(col_str.as_str());
    s
}

impl PicotestPanicInfo {
    /// Encodes this snapshot into the single-line record of the wire
    /// grammar.  The fields are enciphered with base64, so the result never
    /// holds a delimiter inside a field value.
    pub fn encode_with_base64(&self) -> (r: String)
        ensures
            r@ == self.encoded(),
            self.encoding_delim_free(),
    {
        let mut output = String::new();
        output.append("payload:");
        let enc_payload = base64_encode(self.payload_str.as_str());
        output.append(enc_payload.as_str());
        if let Some(location) = &self.location {
            output.append(";location:");
            let loc_short = location_string(location);
            let enc_loc = base64_encode(loc_short.as_str());
            output.append(enc_loc.as_str());
        }
        if let Some(backtrace) = &self.backtrace {
            output.append(";backtrace:");
            let enc_bt = base64_encode(backtrace.as_str());
            output.append(enc_bt.as_str());
        }
        output.append(";");
        proof {
            assert(output@ =~= self.encoded());
        }
        output
    }
}

/// A fixed word standing at position `f` of `d` can be cut out.
proof fn lemma_word_at(d: Seq<char>, f: int, w: Seq<char>, rest: Seq<char>)
    requires
        0 <= f <= d.len(),
        d.subrange(f, d.len() as int) == w + rest,
    ensures
        f + w.len() + rest.len() == d.len(),
        d.subrange(f, f + w.len()) == w,
        d.subrange(f + w.len(), d.len() as int) == rest,
{
    let t = d.subrange(f, d.len() as int);
    assert(t.len() == w.len() + rest.len());
    let wl = w.len() as int;
    assert forall|m: int| 0 <= m < wl implies d.subrange(f, f + wl)[m] == w[m] by {
        assert(d.subrange(f, f + wl)[m] == d[f + m]);
        assert(t[m] == d[f + m]);
        assert(t[m] == (w + rest)[m]);
    }
    assert(d.subrange(f, f + wl) =~= w);
    assert forall|m: int| 0 <= m < rest.len() implies d.subrange(f + wl, d.len() as int)[m]
        == rest[m] by {
        assert(d.subrange(f + wl, d.len() as int)[m] == d[f + wl + m]);
        assert(t[wl + m] == d[f + wl + m]);
        assert(t[wl + m] == (w + rest)[wl + m]);
    }
    assert(d.subrange(f + wl, d.len() as int) =~= rest);
}

impl PicotestPanicInfo {
    /// Decodes an encoded record back into its payload text, optional location
    /// text and optional backtrace text.
    ///
    /// A malformed record signals corruption of the channel, not a recoverable
    /// condition; the caller must establish well-formedness first (see
    /// [`try_decode_with_base64`]).
    #[verifier::rlimit(60)]
    pub fn decode_with_base64(data: &str) -> (r: (String, Option<String>, Option<String>))
        requires
            wf_encoded_record(data@),
        ensures
            is_decoding_of(data@, r),
    {
        let ghost d = data@;
        proof {
            lemma_record_literals();
            let (p0, l0, b0): (Seq<char>, Option<Seq<char>>, Option<Seq<char>>) = choose|
                p: Seq<char>,
                l: Option<Seq<char>>,
                b: Option<Seq<char>>,
            | d == #[trigger] encoded_record(p, l, b) && record_delim_free(p, l, b);
            lemma_record_shape(d, p0, l0, b0);
        }
        let n = data.unicode_len();
        // the payload segment ends at the first separator
        let i1 = match find_char_from(data, ';', 0) {
            Some(i) => i,
            None => {
                proof {
                    assert(d[d.len() - 1] == ';');
                    assert(false);
                }
                return (String::new(), None, None);
            },
        };
        assert forall|p: Seq<char>, l: Option<Seq<char>>, b: Option<Seq<char>>|
            d == #[trigger] encoded_record(p, l, b) && record_delim_free(p, l, b) implies i1 == 8
            + base64_of(p).len() && d.subrange(8, i1 as int) == base64_of(p) && d.subrange(
            i1 + 1,
            d.len() as int,
        ) == tail_after_payload(l, b) by {
            lemma_cut_payload(d, p, l, b, i1 as int);
        }
        proof {
            let (p0, l0, b0): (Seq<char>, Option<Seq<char>>, Option<Seq<char>>) = choose|
                p: Seq<char>,
                l: Option<Seq<char>>,
                b: Option<Seq<char>>,
            | d == #[trigger] encoded_record(p, l, b) && record_delim_free(p, l, b);
            assert(i1 >= 8);
        }
        let payload_value = data.substring_char(8, i1);
        let payload = match base64_decode_text(payload_value) {
            Some(s) => s,
            None => {
                proof {
                    let (p0, l0, b0): (Seq<char>, Option<Seq<char>>, Option<Seq<char>>) = choose|
                        p: Seq<char>,
                        l: Option<Seq<char>>,
                        b: Option<Seq<char>>,
                    | d == #[trigger] encoded_record(p, l, b) && record_delim_free(p, l, b);
                    assert(base64_of(p0) == payload_value@);
                    assert(false);
                }
                return (String::new(), None, None);
            },
        };
        // whichever fields the record encodes, the payload is now pinned
        assert forall|p: Seq<char>, l: Option<Seq<char>>, b: Option<Seq<char>>|
            d == #[trigger] encoded_record(p, l, b) && record_delim_free(p, l, b) implies payload@
            == p by {
            assert(base64_of(p) == payload_value@);
        }
        let t1 = i1 + 1;
        // an optional location field follows
        let has_location = starts_with_from(data, "location:", t1);
        assert forall|p: Seq<char>, l: Option<Seq<char>>, b: Option<Seq<char>>|
            d == #[trigger] encoded_record(p, l, b) && record_delim_free(p, l, b) implies has_location
            == (l is Some) by {
            lemma_record_literals();
            if l is Some {
                let v = l->Some_0;
                assert(tail_after_payload(l, b) =~= "location:"@ + (base64_of(v) + opt_field_text(
                    ";backtrace:"@,
                    b,
                ) + ";"@));
                lemma_word_at(
                    d,
                    t1 as int,
                    "location:"@,
                    base64_of(v) + opt_field_text(";backtrace:"@, b) + ";"@,
                );
            } else if b is Some {
                let v = b->Some_0;
                assert(tail_after_payload(l, b) =~= "backtrace:"@ + (base64_of(v) + ";"@));
                lemma_word_at(d, t1 as int, "backtrace:"@, base64_of(v) + ";"@);
                if has_location {
                    assert(d.subrange(t1 as int, t1 + 9 as int)[0] == d[t1 as int]);
                    assert(d.subrange(t1 as int, t1 + 10 as int)[0] == d[t1 as int]);
                    assert(d[t1 as int] == 'l');
                    assert(d[t1 as int] == 'b');
                }
            } else {
                assert(d.len() - t1 == tail_after_payload(l, b).len());
            }
        }
        let mut location: Option<String> = None;
        let mut t2 = t1;
        if has_location {
            let i2 = match find_char_from(data, ';', t1) {
                Some(i) => i,
                None => {
                    proof {
                        assert(d[d.len() - 1] == ';');
                        assert(false);
                    }
                    return (String::new(), None, None);
                },
            };
            assert forall|p: Seq<char>, l: Option<Seq<char>>, b: Option<Seq<char>>|
                d == #[trigger] encoded_record(p, l, b) && record_delim_free(p, l, b) implies i2 == t1
                + 9 + base64_of(l->Some_0).len() && d.subrange(t1 + 9, i2 as int) == base64_of(
                l->Some_0,
            ) && d.subrange(i2 + 1, d.len() as int) == tail_after_location(b) by {
                lemma_cut_location(d, l->Some_0, b, t1 as int, i2 as int);
            }
            proof {
                let (p0, l0, b0): (Seq<char>, Option<Seq<char>>, Option<Seq<char>>) = choose|
                    p: Seq<char>,
                    l: Option<Seq<char>>,
                    b: Option<Seq<char>>,
                | d == #[trigger] encoded_record(p, l, b) && record_delim_free(p, l, b);
                assert(i2 >= t1 + 9);
            }
            let location_value = data.substring_char(t1 + 9, i2);
            let loc = match base64_decode_text(location_value) {
                Some(s) => s,
                None => {
                    proof {
                        let (p0, l0, b0): (Seq<char>, Option<Seq<char>>, Option<Seq<char>>) = choose|
                            p: Seq<char>,
                            l: Option<Seq<char>>,
                            b: Option<Seq<char>>,
                        | d == #[trigger] encoded_record(p, l, b) && record_delim_free(p, l, b);
                        assert(base64_of(l0->Some_0) == location_value@);
                        assert(false);
                    }
                    return (String::new(), None, None);
                },
            };
            // whichever fields the record encodes, the location is now pinned
            assert forall|p: Seq<char>, l: Option<Seq<char>>, b: Option<Seq<char>>|
                d == #[trigger] encoded_record(p, l, b) && record_delim_free(p, l, b) implies loc@
                == l->Some_0 && d.subrange(i2 + 1 as int, d.len() as int) == tail_after_location(
                b,
            ) by {
                assert(base64_of(l->Some_0) == location_value@);
            }
            location = Some(loc);
            t2 = i2 + 1;
        }
        assert forall|p: Seq<char>, l: Option<Seq<char>>, b: Option<Seq<char>>|
            d == #[trigger] encoded_record(p, l, b) && record_delim_free(p, l, b) implies opt_text(
            location,
        ) == l && d.subrange(t2 as int, d.len() as int) == tail_after_location(b) by {
            if l is None {
                assert(tail_after_payload(l, b) == tail_after_location(b));
            }
        }
        // an optional backtrace field follows
        let has_backtrace = starts_with_from(data, "backtrace:", t2);
        assert forall|p: Seq<char>, l: Option<Seq<char>>, b: Option<Seq<char>>|
            d == #[trigger] encoded_record(p, l, b) && record_delim_free(p, l, b) implies has_backtrace
            == (b is Some) by {
            lemma_record_literals();
            if b is Some {
                let v = b->Some_0;
                assert(tail_after_location(b) =~= "backtrace:"@ + (base64_of(v) + ";"@));
                lemma_word_at(d, t2 as int, "backtrace:"@, base64_of(v) + ";"@);
            } else {
                assert(d.len() - t2 == tail_after_location(b).len());
            }
        }
        let mut backtrace: Option<String> = None;
        if has_backtrace {
            let i3 = match find_char_from(data, ';', t2) {
                Some(i) => i,
                None => {
                    proof {
                        assert(d[d.len() - 1] == ';');
                        assert(false);
                    }
                    return (String::new(), None, None);
                },
            };
            assert forall|p: Seq<char>, l: Option<Seq<char>>, b: Option<Seq<char>>|
                d == #[trigger] encoded_record(p, l, b) && record_delim_free(p, l, b) implies i3 == t2
                + 10 + base64_of(b->Some_0).len() && d.subrange(t2 + 10, i3 as int) == base64_of(
                b->Some_0,
            ) by {
                lemma_cut_backtrace(d, b->Some_0, t2 as int, i3 as int);
            }
            proof {
                let (p0, l0, b0): (Seq<char>, Option<Seq<char>>, Option<Seq<char>>) = choose|
                    p: Seq<char>,
                    l: Option<Seq<char>>,
                    b: Option<Seq<char>>,
                | d == #[trigger] encoded_record(p, l, b) && record_delim_free(p, l, b);
                assert(i3 >= t2 + 10);
            }
            let backtrace_value = data.substring_char(t2 + 10, i3);
            let bt = match base64_decode_text(backtrace_value) {
                Some(s) => s,
                None => {
                    proof {
                        let (p0, l0, b0): (Seq<char>, Option<Seq<char>>, Option<Seq<char>>) = choose|
                            p: Seq<char>,
                            l: Option<Seq<char>>,
                            b: Option<Seq<char>>,
                        | d == #[trigger] encoded_record(p, l, b) && record_delim_free(p, l, b);
                        assert(base64_of(b0->Some_0) == backtrace_value@);
                        assert(false);
                    }
                    return (String::new(), None, None);
                },
            };
            // whichever fields the record encodes, the backtrace is now pinned
            assert forall|p: Seq<char>, l: Option<Seq<char>>, b: Option<Seq<char>>|
                d == #[trigger] encoded_record(p, l, b) && record_delim_free(p, l, b) implies bt@
                == b->Some_0 by {
                assert(base64_of(b->Some_0) == backtrace_value@);
            }
            backtrace = Some(bt);
        }
        (payload, location, backtrace)
    }
}

/// Two adjacent cuts of `d` compose into one.
proof fn lemma_join(d: Seq<char>, a: int, b: int, c: int, x: Seq<char>, y: Seq<char>)
    requires
        0 <= a <= b <= c <= d.len(),
        d.subrange(a, b) == x,
        d.subrange(b, c) == y,
    ensures
        d.subrange(a, c) == x + y,
{
    assert forall|m: int| 0 <= m < c - a implies d.subrange(a, c)[m] == (x + y)[m] by {
        assert(d.subrange(a, c)[m] == d[a + m]);
        if m < b - a {
            assert(d.subrange(a, b)[m] == d[a + m]);
        } else {
            assert(d.subrange(b, c)[m - (b - a)] == d[a + m]);
        }
    }
    assert(d.subrange(a, c) =~= x + y);
}

/// A separator at position `i` of `d` is the singleton cut there.
proof fn lemma_semi_cut(d: Seq<char>, i: int)
    requires
        0 <= i < d.len(),
        d[i] == ';',
    ensures
        d.subrange(i, i + 1) == seq![';'],
{
    assert(d.subrange(i, i + 1) =~= seq![';']);
}

/// The head of a record: the payload run and, when present, the location
/// run, each closed by its separator.
spec fn head_record(p: Seq<char>, l: Option<Seq<char>>) -> Seq<char> {
    match l {
        Some(v) => (("payload:"@ + base64_of(p)) + seq![';']) + (("location:"@ + base64_of(v))
            + seq![';']),
        None => ("payload:"@ + base64_of(p)) + seq![';'],
    }
}

/// Parses the optional backtrace run and the terminator, finishing the
/// well-formedness check that `try_decode_with_base64` begins.
#[verifier::rlimit(60)]
fn try_decode_tail(data: &str, t2: usize, payload: String, location: Option<String>) -> (r: Option<
    (String, Option<String>, Option<String>),
>)
    requires
        t2 <= data@.len(),
        data@.subrange(0, t2 as int) == head_record(payload@, opt_text(location)),
        delim_free(base64_of(payload@)),
        opt_text(location) matches Some(v) ==> delim_free(base64_of(v)),
        forall|p: Seq<char>, l: Option<Seq<char>>, b: Option<Seq<char>>|
            data@ == #[trigger] encoded_record(p, l, b) && record_delim_free(p, l, b) ==> p
                == payload@ && l == opt_text(location) && data@.subrange(
                t2 as int,
                data@.len() as int,
            ) == tail_after_location(b),
    ensures
        r is Some <==> wf_encoded_record(data@),
        r matches Some(t) ==> is_decoding_of(data@, t),
{
    let ghost d = data@;
    proof {
        lemma_record_literals();
    }
    let n = data.unicode_len();
    let mut backtrace: Option<String> = None;
    let mut t3 = t2;
    let ghost mut b_field: Option<Seq<char>> = None;
    if starts_with_from(data, "backtrace:", t2) {
        let i3 = match find_char_from(data, ';', t2 + 10) {
            Some(i) => i,
            None => {
                // a record always ends with its terminator
                proof {
                    if wf_encoded_record(d) {
                        let (p0, l0, b0): (Seq<char>, Option<Seq<char>>, Option<Seq<char>>) =
                            choose|
                            p: Seq<char>,
                            l: Option<Seq<char>>,
                            b: Option<Seq<char>>,
                        | d == #[trigger] encoded_record(p, l, b) && record_delim_free(p, l, b);
                        if b0 is None {
                            assert(d.len() - t2 == tail_after_location(b0).len());
                        } else {
                            let tl = tail_after_location(b0);
                            assert(tl[tl.len() - 1] == ';');
                            assert(d.subrange(t2 as int, d.len() as int)[tl.len() - 1] == d[d.len()
                                - 1]);
                        }
                        assert(false);
                    }
                }
                return None;
            },
        };
        assert forall|j: int| t2 <= j < i3 implies d[j] != ';' by {
            if j < t2 + 10 {
                assert(d.subrange(t2 as int, t2 + 10)[j - t2] == d[j]);
                assert("backtrace:"@[j - t2] != ';');
            }
        }
        proof {
            if wf_encoded_record(d) {
                let (p0, l0, b0): (Seq<char>, Option<Seq<char>>, Option<Seq<char>>) = choose|
                    p: Seq<char>,
                    l: Option<Seq<char>>,
                    b: Option<Seq<char>>,
                | d == #[trigger] encoded_record(p, l, b) && record_delim_free(p, l, b);
                if b0 is None {
                    assert(d.len() - t2 == tail_after_location(b0).len());
                    assert(false);
                }
                lemma_cut_backtrace(d, b0->Some_0, t2 as int, i3 as int);
            }
        }
        let backtrace_value = data.substring_char(t2 + 10, i3);
        let bt = match base64_decode_text(backtrace_value) {
            Some(s) => s,
            None => {
                // a record's backtrace segment always decodes
                proof {
                    if wf_encoded_record(d) {
                        let (p0, l0, b0): (Seq<char>, Option<Seq<char>>, Option<Seq<char>>) =
                            choose|
                            p: Seq<char>,
                            l: Option<Seq<char>>,
                            b: Option<Seq<char>>,
                        | d == #[trigger] encoded_record(p, l, b) && record_delim_free(p, l, b);
                        assert(base64_of(b0->Some_0) == backtrace_value@);
                        assert(false);
                    }
                }
                return None;
            },
        };
        proof {
            let b_enc = base64_of(bt@);
            assert(b_enc == backtrace_value@);
            lemma_join(d, t2 as int, t2 + 10, i3 as int, "backtrace:"@, b_enc);
            lemma_semi_cut(d, i3 as int);
            lemma_join(d, t2 as int, i3 as int, i3 + 1, "backtrace:"@ + b_enc, seq![';']);
            lemma_join(
                d,
                0,
                t2 as int,
                i3 + 1,
                head_record(payload@, opt_text(location)),
                ("backtrace:"@ + b_enc) + seq![';'],
            );
            b_field = Some(bt@);
        }
        backtrace = Some(bt);
        t3 = i3 + 1;
    } else {
        proof {
            if wf_encoded_record(d) {
                let (p0, l0, b0): (Seq<char>, Option<Seq<char>>, Option<Seq<char>>) = choose|
                    p: Seq<char>,
                    l: Option<Seq<char>>,
                    b: Option<Seq<char>>,
                | d == #[trigger] encoded_record(p, l, b) && record_delim_free(p, l, b);
                if b0 is Some {
                    // the tail would begin with the backtrace word
                    assert(tail_after_location(b0) =~= "backtrace:"@ + (base64_of(b0->Some_0)
                        + ";"@));
                    lemma_word_at(d, t2 as int, "backtrace:"@, base64_of(b0->Some_0) + ";"@);
                    assert(false);
                }
            }
        }
    }
    if t3 != n {
        // a record holds nothing after its terminator
        proof {
            if wf_encoded_record(d) {
                let (p0, l0, b0): (Seq<char>, Option<Seq<char>>, Option<Seq<char>>) = choose|
                    p: Seq<char>,
                    l: Option<Seq<char>>,
                    b: Option<Seq<char>>,
                | d == #[trigger] encoded_record(p, l, b) && record_delim_free(p, l, b);
                match b_field {
                    Some(v) => {
                        if b0 is None {
                            assert(d.len() - t2 == tail_after_location(b0).len());
                        } else {
                            lemma_cut_backtrace(d, b0->Some_0, t2 as int, t3 - 1);
                        }
                    },
                    None => {
                        if b0 is None {
                            assert(d.len() - t2 == tail_after_location(b0).len());
                        }
                    },
                }
                assert(false);
            }
        }
        return None;
    }
    proof {
        assert(d.subrange(0, t3 as int) =~= d);
        match b_field {
            Some(v) => {
                assert(d == head_record(payload@, opt_text(location)) + (("backtrace:"@
                    + base64_of(v)) + seq![';']));
            },
            None => {
                assert(d == head_record(payload@, opt_text(location)));
            },
        }
        assert(d =~= encoded_record(payload@, opt_text(location), b_field));
        assert(record_delim_free(payload@, opt_text(location), b_field));
    }
    let decoded = PicotestPanicInfo::decode_with_base64(data);
    Some(decoded)
}

impl PicotestPanicInfo {
    /// Decodes a record after first checking that it is well formed.
    ///
    /// Returns the decoded fields exactly when `data` is an encoded record of
    /// some triple of fields, and `None` on every other input.
    #[verifier::rlimit(60)]
    pub fn try_decode_with_base64(data: &str) -> (r: Option<(String, Option<String>, Option<String>)>)
        ensures
            r is Some <==> wf_encoded_record(data@),
            r matches Some(t) ==> is_decoding_of(data@, t),
    {
        let ghost d = data@;
        proof {
            lemma_record_literals();
            if wf_encoded_record(d) {
                let (p0, l0, b0): (Seq<char>, Option<Seq<char>>, Option<Seq<char>>) = choose|
                    p: Seq<char>,
                    l: Option<Seq<char>>,
                    b: Option<Seq<char>>,
                | d == #[trigger] encoded_record(p, l, b) && record_delim_free(p, l, b);
                lemma_record_shape(d, p0, l0, b0);
            }
        }
        let n = data.unicode_len();
        if !starts_with_from(data, "payload:", 0) {
            // a record always begins with the payload word
            return None;
        }
        let i1 = match find_char_from(data, ';', 8) {
            Some(i) => i,
            None => {
                // a record always ends with its terminator
                return None;
            },
        };
        // the first eight characters are the payload word, so the separator
        // found from position eight is the first one of the record
        assert forall|j: int| 0 <= j < i1 implies d[j] != ';' by {
            if j < 8 {
                assert(d.subrange(0, 8)[j] == d[j]);
                assert("payload:"@[j] != ';');
            }
        }
        assert forall|p: Seq<char>, l: Option<Seq<char>>, b: Option<Seq<char>>|
            d == #[trigger] encoded_record(p, l, b) && record_delim_free(p, l, b) implies i1 == 8
            + base64_of(p).len() && d.subrange(8, i1 as int) == base64_of(p) && d.subrange(
            i1 + 1,
            d.len() as int,
        ) == tail_after_payload(l, b) by {
            lemma_cut_payload(d, p, l, b, i1 as int);
        }
        let payload_value = data.substring_char(8, i1);
        let payload = match base64_decode_text(payload_value) {
            Some(s) => s,
            None => {
                // a record's payload segment always decodes
                proof {
                    if wf_encoded_record(d) {
                        let (p0, l0, b0): (Seq<char>, Option<Seq<char>>, Option<Seq<char>>) = choose|
                            p: Seq<char>,
                            l: Option<Seq<char>>,
                            b: Option<Seq<char>>,
                        | d == #[trigger] encoded_record(p, l, b) && record_delim_free(p, l, b);
                        assert(base64_of(p0) == payload_value@);
                        assert(false);
                    }
                }
                return None;
            },
        };
        assert forall|p: Seq<char>, l: Option<Seq<char>>, b: Option<Seq<char>>|
            d == #[trigger] encoded_record(p, l, b) && record_delim_free(p, l, b) implies payload@
            == p by {
            assert(base64_of(p) == payload_value@);
        }
        let ghost p_enc = base64_of(payload@);
        proof {
            assert(p_enc == payload_value@);
            lemma_join(d, 0, 8, i1 as int, "payload:"@, p_enc);
            lemma_semi_cut(d, i1 as int);
            lemma_join(d, 0, i1 as int, i1 + 1, "payload:"@ + p_enc, seq![';']);
        }
        let t1 = i1 + 1;
        let has_location = starts_with_from(data, "location:", t1);
        assert forall|p: Seq<char>, l: Option<Seq<char>>, b: Option<Seq<char>>|
            d == #[trigger] encoded_record(p, l, b) && record_delim_free(p, l, b) implies has_location
            == (l is Some) by {
            if l is Some {
                let v = l->Some_0;
                assert(tail_after_payload(l, b) =~= "location:"@ + (base64_of(v) + opt_field_text(
                    ";backtrace:"@,
                    b,
                ) + ";"@));
                lemma_word_at(
                    d,
                    t1 as int,
                    "location:"@,
                    base64_of(v) + opt_field_text(";backtrace:"@, b) + ";"@,
                );
            } else if b is Some {
                let v = b->Some_0;
                assert(tail_after_payload(l, b) =~= "backtrace:"@ + (base64_of(v) + ";"@));
                lemma_word_at(d, t1 as int, "backtrace:"@, base64_of(v) + ";"@);
                if has_location {
                    assert(d.subrange(t1 as int, t1 + 9 as int)[0] == d[t1 as int]);
                    assert(d.subrange(t1 as int, t1 + 10 as int)[0] == d[t1 as int]);
                }
            } else {
                assert(d.len() - t1 == tail_after_payload(l, b).len());
            }
        }
        let mut location: Option<String> = None;
        let mut t2 = t1;
        if has_location {
            let i2 = match find_char_from(data, ';', t1 + 9) {
                Some(i) => i,
                None => {
                    // a record always ends with its terminator
                    proof {
                        if wf_encoded_record(d) {
                            let (p0, l0, b0): (Seq<char>, Option<Seq<char>>, Option<Seq<char>>) =
                                choose|
                                p: Seq<char>,
                                l: Option<Seq<char>>,
                                b: Option<Seq<char>>,
                            | d == #[trigger] encoded_record(p, l, b) && record_delim_free(p, l, b);
                            assert(d[d.len() - 1] == ';');
                            assert(false);
                        }
                    }
                    return None;
                },
            };
            assert forall|j: int| t1 <= j < i2 implies d[j] != ';' by {
                if j < t1 + 9 {
                    assert(d.subrange(t1 as int, t1 + 9)[j - t1] == d[j]);
                    assert("location:"@[j - t1] != ';');
                }
            }
            assert forall|p: Seq<char>, l: Option<Seq<char>>, b: Option<Seq<char>>|
                d == #[trigger] encoded_record(p, l, b) && record_delim_free(p, l, b) implies i2 == t1
                + 9 + base64_of(l->Some_0).len() && d.subrange(t1 + 9, i2 as int) == base64_of(
                l->Some_0,
            ) && d.subrange(i2 + 1, d.len() as int) == tail_after_location(b) by {
                lemma_cut_location(d, l->Some_0, b, t1 as int, i2 as int);
            }
            let location_value = data.substring_char(t1 + 9, i2);
            let loc = match base64_decode_text(location_value) {
                Some(s) => s,
                None => {
                    // a record's location segment always decodes
                    proof {
                        if wf_encoded_record(d) {
                            let (p0, l0, b0): (Seq<char>, Option<Seq<char>>, Option<Seq<char>>) =
                                choose|
                                p: Seq<char>,
                                l: Option<Seq<char>>,
                                b: Option<Seq<char>>,
                            | d == #[trigger] encoded_record(p, l, b) && record_delim_free(p, l, b);
                            assert(base64_of(l0->Some_0) == location_value@);
                            assert(false);
                        }
                    }
                    return None;
                },
            };
            assert forall|p: Seq<char>, l: Option<Seq<char>>, b: Option<Seq<char>>|
                d == #[trigger] encoded_record(p, l, b) && record_delim_free(p, l, b) implies loc@
                == l->Some_0 by {
                assert(base64_of(l->Some_0) == location_value@);
            }
            proof {
                let l_enc = base64_of(loc@);
                assert(l_enc == location_value@);
                lemma_join(d, t1 as int, t1 + 9, i2 as int, "location:"@, l_enc);
                lemma_semi_cut(d, i2 as int);
                lemma_join(d, t1 as int, i2 as int, i2 + 1, "location:"@ + l_enc, seq![';']);
                lemma_join(
                    d,
                    0,
                    t1 as int,
                    i2 + 1,
                    ("payload:"@ + p_enc) + seq![';'],
                    ("location:"@ + l_enc) + seq![';'],
                );
            }
            location = Some(loc);
            t2 = i2 + 1;
        }
        assert forall|p: Seq<char>, l: Option<Seq<char>>, b: Option<Seq<char>>|
            d == #[trigger] encoded_record(p, l, b) && record_delim_free(p, l, b) implies l == opt_text(
            location,
        ) && d.subrange(t2 as int, d.len() as int) == tail_after_location(b) by {
            if l is None {
                assert(tail_after_payload(l, b) == tail_after_location(b));
            }
        }
        try_decode_tail(data, t2, payload, location)
    }
}

/// Round-trip law: decoding the encoded record of an outcome returns the
/// outcome's fields unchanged — the payload and backtrace exactly, and the
/// location as its `file:line:column` text.  The premises are what
/// `encode_with_base64` and `decode_with_base64` guarantee; the delimiter
/// premise holds of every outcome, since base64 text never holds a
/// delimiter.
pub proof fn lemma_codec_round_trip(
    info: PicotestPanicInfo,
    enc: Seq<char>,
    dec: (String, Option<String>, Option<String>),
)
    requires
        enc == info.encoded(),
        info.encoding_delim_free(),
        is_decoding_of(enc, dec),
    ensures
        dec.0@ == info.payload_str@,
        opt_text(dec.1) == location_field(info.location),
        opt_text(dec.2) == opt_text(info.backtrace),
{
    assert(enc == encoded_record(
        info.payload_str@,
        location_field(info.location),
        opt_text(info.backtrace),
    ));
}

/// A failure with no location and no backtrace encodes to exactly the
/// payload field and the terminator: no location or backtrace run appears.
pub proof fn lemma_encode_payload_only(info: PicotestPanicInfo, enc: Seq<char>)
    requires
        enc == info.encoded(),
        info.location is None,
        info.backtrace is None,
    ensures
        enc == "payload:"@ + base64_of(info.payload_str@) + ";"@,
{
    assert(enc =~= "payload:"@ + base64_of(info.payload_str@) + ";"@);
}

} // verus!
