//! The unit of persistence: one captured compiler invocation for one source
//! file, and its JSON form.  A record is written as a single JSON object
//! `{"directory":…,"command":…,"file":…}`; the decoder accepts exactly the
//! text the encoder produces, so a record read back is the record written,
//! and anything else is malformed.

use vstd::prelude::*;

use crate::text::{append_chars, chars_of, string_from_chars};

verus! {

/// One captured compiler invocation, fanned out to a single source file.
/// `directory` is the working directory the compiler ran in, `command` the
/// fully expanded command line, `file` the absolute path of the one source
/// file this record is about.
pub struct CapturedInvocation {
    pub directory: String,
    pub command: String,
    pub file: String,
}

/// The mathematical value of a record: its three fields as character
/// sequences.
pub ghost struct RecordView {
    pub directory: Seq<char>,
    pub command: Seq<char>,
    pub file: Seq<char>,
}

impl View for CapturedInvocation {
    type V = RecordView;

    open spec fn view(&self) -> RecordView {
        RecordView { directory: self.directory@, command: self.command@, file: self.file@ }
    }
}

impl DeepView for CapturedInvocation {
    type V = RecordView;

    open spec fn deep_view(&self) -> RecordView {
        self@
    }
}

// ---------------------------------------------------------------------------
// Encoding
// ---------------------------------------------------------------------------
/// The character for one hexadecimal digit, lower case.
pub open spec fn hex_char(d: int) -> char {
    if d < 10 {
        ((d + 48) as u8) as char
    } else {
        ((d + 87) as u8) as char
    }
}

/// How one character stands inside a JSON string: quote and backslash get
/// a backslash escape, control characters a `\u00XX` escape, everything
/// else stands as itself.
pub open spec fn escape_char(c: char) -> Seq<char> {
    if c == '"' {
        seq!['\\', '"']
    } else if c == '\\' {
        seq!['\\', '\\']
    } else if (c as u32) < 32 {
        seq!['\\', 'u', '0', '0', hex_char((c as u32 / 16) as int), hex_char((c as u32 % 16) as int)]
    } else {
        seq![c]
    }
}

/// A whole character sequence, escaped for a JSON string.
pub open spec fn escape(s: Seq<char>) -> Seq<char>
    decreases s.len(),
{
    if s.len() == 0 {
        Seq::empty()
    } else {
        escape_char(s[0]) + escape(s.drop_first())
    }
}

/// A JSON string: the escaped content between double quotes.
pub open spec fn encode_string(s: Seq<char>) -> Seq<char> {
    seq!['"'] + escape(s) + seq!['"']
}

pub open spec fn lit_directory() -> Seq<char> {
    seq!['{', '"', 'd', 'i', 'r', 'e', 'c', 't', 'o', 'r', 'y', '"', ':']
}

pub open spec fn lit_command() -> Seq<char> {
    seq![',', '"', 'c', 'o', 'm', 'm', 'a', 'n', 'd', '"', ':']
}

pub open spec fn lit_file() -> Seq<char> {
    seq![',', '"', 'f', 'i', 'l', 'e', '"', ':']
}

/// The JSON text of one record.
pub open spec fn encode_record(r: RecordView) -> Seq<char> {
    lit_directory() + encode_string(r.directory) + lit_command() + encode_string(r.command)
        + lit_file() + encode_string(r.file) + seq!['}']
}

proof fn lemma_escape_push(s: Seq<char>, c: char)
    ensures
        escape(s.push(c)) == escape(s) + escape_char(c),
    decreases s.len(),
{
    if s.len() == 0 {
        assert(s.push(c) =~= seq![c]);
        assert(seq![c].drop_first() =~= Seq::<char>::empty());
        assert(seq![c][0] == c);
        assert(escape(Seq::<char>::empty()) =~= Seq::<char>::empty());
        assert(escape(seq![c]) == escape_char(c) + escape(Seq::<char>::empty()));
        assert(escape_char(c) + Seq::<char>::empty() =~= escape_char(c));
        assert(escape(s) + escape_char(c) =~= escape_char(c));
    } else {
        assert(s.push(c).drop_first() =~= s.drop_first().push(c));
        assert(s.push(c)[0] == s[0]);
        lemma_escape_push(s.drop_first(), c);
        assert(escape_char(s[0]) + (escape(s.drop_first()) + escape_char(c)) =~= (escape_char(s[0])
            + escape(s.drop_first())) + escape_char(c));
    }
}

fn hex_char_exec(d: u32) -> (r: char)
    requires
        d < 16,
    ensures
        r == hex_char(d as int),
{
    if d < 10 {
        ((d + 48) as u8) as char
    } else {
        ((d + 87) as u8) as char
    }
}

/// Appends the escaped form of `s` to `out`.
fn escape_into(out: &mut Vec<char>, s: &Vec<char>)
    ensures
        final(out)@ == old(out)@ + escape(s@),
{
    let mut i: usize = 0;
    proof {
        assert(s@.take(0) =~= Seq::<char>::empty());
        assert(out@ + escape(Seq::<char>::empty()) =~= out@);
    }
    while i < s.len()
        invariant
            i <= s.len(),
            out@ == old(out)@ + escape(s@.take(i as int)),
        decreases s.len() - i,
    {
        let c = s[i];
        proof {
            assert(s@.take(i as int + 1) =~= s@.take(i as int).push(s@[i as int]));
            lemma_escape_push(s@.take(i as int), s@[i as int]);
        }
        let ghost before = out@;
        if c == '"' {
            out.push('\\');
            out.push('"');
            proof {
                assert(out@ =~= before + escape_char(c));
            }
        } else if c == '\\' {
            out.push('\\');
            out.push('\\');
            proof {
                assert(out@ =~= before + escape_char(c));
            }
        } else if (c as u32) < 32 {
            let code = c as u32;
            out.push('\\');
            out.push('u');
            out.push('0');
            out.push('0');
            out.push(hex_char_exec(code / 16));
            out.push(hex_char_exec(code % 16));
            proof {
                assert(out@ =~= before + escape_char(c));
            }
        } else {
            out.push(c);
            proof {
                assert(out@ =~= before + escape_char(c));
            }
        }
        proof {
            assert(old(out)@ + (escape(s@.take(i as int)) + escape_char(s@[i as int])) =~= (old(
                out,
            )@ + escape(s@.take(i as int))) + escape_char(s@[i as int]));
        }
        i = i + 1;
    }
    proof {
        assert(s@.take(s@.len() as int) =~= s@);
    }
}

/// Appends the JSON form of a field to `out`.
fn encode_string_into(out: &mut Vec<char>, field: &str)
    ensures
        final(out)@ == old(out)@ + encode_string(field@),
{
    let chars = chars_of(field);
    out.push('"');
    let ghost mid = out@;
    escape_into(out, &chars);
    out.push('"');
    proof {
        assert(out@ =~= old(out)@ + (seq!['"'] + escape(field@) + seq!['"']));
    }
}

impl CapturedInvocation {
    /// The record's JSON text, exactly as `encode_record` describes.
    pub fn to_json(&self) -> (out: String)
        ensures
            out@ == encode_record(self@),
    {
        let mut v: Vec<char> = Vec::new();
        let head: Vec<char> = vec!['{', '"', 'd', 'i', 'r', 'e', 'c', 't', 'o', 'r', 'y', '"', ':'];
        proof {
            assert(head@ =~= lit_directory());
        }
        append_chars(&mut v, &head);
        encode_string_into(&mut v, self.directory.as_str());
        let mid: Vec<char> = vec![',', '"', 'c', 'o', 'm', 'm', 'a', 'n', 'd', '"', ':'];
        proof {
            assert(mid@ =~= lit_command());
        }
        append_chars(&mut v, &mid);
        encode_string_into(&mut v, self.command.as_str());
        let tail: Vec<char> = vec![',', '"', 'f', 'i', 'l', 'e', '"', ':'];
        proof {
            assert(tail@ =~= lit_file());
        }
        append_chars(&mut v, &tail);
        encode_string_into(&mut v, self.file.as_str());
        v.push('}');
        proof {
            assert(v@ =~= encode_record(self@));
        }
        string_from_chars(&v)
    }
}

/// Fans one detected invocation out to one record per source file: every
/// argument of the expanded command line that names a native source file
/// yields a record with that file's absolute path and the shared directory
/// and command.
pub fn build_invocations(expanded_command: &Vec<char>, working_dir: &Vec<char>) -> (rs: Vec<
    CapturedInvocation,
>)
    ensures
        rs.deep_view().len() == crate::cmdline::extract_sources(expanded_command@, working_dir@).len(),
        forall|k: int|
            0 <= k < rs.deep_view().len() ==> #[trigger] rs.deep_view()[k] == (RecordView {
                directory: working_dir@,
                command: expanded_command@,
                file: crate::cmdline::extract_sources(expanded_command@, working_dir@)[k],
            }),
{
    let files = crate::cmdline::extract_all_source_files(expanded_command, working_dir);
    let directory = string_from_chars(working_dir);
    let command = string_from_chars(expanded_command);
    let mut rs: Vec<CapturedInvocation> = Vec::new();
    let mut i: usize = 0;
    while i < files.len()
        invariant
            i <= files.len(),
            files.deep_view() == crate::cmdline::extract_sources(expanded_command@, working_dir@),
            directory@ == working_dir@,
            command@ == expanded_command@,
            rs.deep_view().len() == i,
            forall|k: int|
                0 <= k < i ==> #[trigger] rs.deep_view()[k] == (RecordView {
                    directory: working_dir@,
                    command: expanded_command@,
                    file: files.deep_view()[k],
                }),
        decreases files.len() - i,
    {
        let file = string_from_chars(&files[i]);
        let dir_copy = string_from_chars(&crate::text::chars_of(directory.as_str()));
        let cmd_copy = string_from_chars(&crate::text::chars_of(command.as_str()));
        let ghost before = rs.deep_view();
        let rec = CapturedInvocation { directory: dir_copy, command: cmd_copy, file };
        let ghost rec_view = rec@;
        rs.push(rec);
        proof {
            assert(files.deep_view()[i as int] == files@[i as int]@);
            assert(rs.deep_view() =~~= before.push(rec_view));
        }
        i = i + 1;
    }
    rs
}

// ---------------------------------------------------------------------------
// Decoding
// ---------------------------------------------------------------------------
/// A lower-case hexadecimal digit.
pub open spec fn is_hex(c: char) -> bool {
    ('0' <= c && c <= '9') || ('a' <= c && c <= 'f')
}

pub open spec fn hex_val(c: char) -> int {
    if '0' <= c && c <= '9' {
        c as u32 - 48
    } else {
        c as u32 - 87
    }
}

/// Reads a JSON string body up to and including its closing quote:
/// the content, and how many characters were consumed.  Only the escapes
/// the encoder emits are accepted, and a raw control character is
/// malformed, so exactly the canonical texts parse.
pub open spec fn parse_string_body(t: Seq<char>) -> Option<(Seq<char>, nat)>
    decreases t.len(),
{
    if t.len() == 0 {
        None
    } else if t[0] == '"' {
        Some((Seq::empty(), 1 as nat))
    } else if t[0] == '\\' {
        if t.len() >= 2 && (t[1] == '"' || t[1] == '\\') {
            match parse_string_body(t.skip(2)) {
                Some(p) => Some((seq![t[1]] + p.0, (2 + p.1) as nat)),
                None => None,
            }
        } else if t.len() >= 6 && t[1] == 'u' && t[2] == '0' && t[3] == '0' && is_hex(t[4])
            && is_hex(t[5]) && 16 * hex_val(t[4]) + hex_val(t[5]) < 32 {
            let v = 16 * hex_val(t[4]) + hex_val(t[5]);
            match parse_string_body(t.skip(6)) {
                Some(p) => Some((seq![(v as u8) as char] + p.0, (6 + p.1) as nat)),
                None => None,
            }
        } else {
            None
        }
    } else if (t[0] as u32) < 32 {
        None
    } else {
        match parse_string_body(t.drop_first()) {
            Some(p) => Some((seq![t[0]] + p.0, (1 + p.1) as nat)),
            None => None,
        }
    }
}

proof fn lemma_parse_string_body_len(t: Seq<char>)
    ensures
        parse_string_body(t) matches Some(p) ==> 0 < p.1 <= t.len(),
    decreases t.len(),
{
    if t.len() == 0 {
    } else if t[0] == '"' {
    } else if t[0] == '\\' {
        if t.len() >= 2 && (t[1] == '"' || t[1] == '\\') {
            lemma_parse_string_body_len(t.skip(2));
        } else if t.len() >= 6 && t[1] == 'u' && t[2] == '0' && t[3] == '0' && is_hex(t[4])
            && is_hex(t[5]) && 16 * hex_val(t[4]) + hex_val(t[5]) < 32 {
            lemma_parse_string_body_len(t.skip(6));
        }
    } else if (t[0] as u32) < 32 {
    } else {
        lemma_parse_string_body_len(t.drop_first());
    }
}

/// Reads a whole JSON string, opening quote included.
pub open spec fn parse_quoted(t: Seq<char>) -> Option<(Seq<char>, nat)> {
    if t.len() > 0 && t[0] == '"' {
        match parse_string_body(t.drop_first()) {
            Some(p) => Some((p.0, (1 + p.1) as nat)),
            None => None,
        }
    } else {
        None
    }
}

/// Does `t` start with `lit`?
pub open spec fn starts_with(t: Seq<char>, lit: Seq<char>) -> bool {
    lit.len() <= t.len() && t.take(lit.len() as int) == lit
}

/// Reads one record back from its JSON text.  Exactly the texts that
/// `encode_record` produces are accepted; everything else is malformed.
pub open spec fn decode_record(t: Seq<char>) -> Option<RecordView> {
    if starts_with(t, lit_directory()) {
        let t1 = t.skip(lit_directory().len() as int);
        match parse_quoted(t1) {
            Some(pd) => {
                let t2 = t1.skip(pd.1 as int);
                if starts_with(t2, lit_command()) {
                    let t3 = t2.skip(lit_command().len() as int);
                    match parse_quoted(t3) {
                        Some(pc) => {
                            let t4 = t3.skip(pc.1 as int);
                            if starts_with(t4, lit_file()) {
                                let t5 = t4.skip(lit_file().len() as int);
                                match parse_quoted(t5) {
                                    Some(pf) => {
                                        let t6 = t5.skip(pf.1 as int);
                                        if t6 =~= seq!['}'] {
                                            Some(
                                                RecordView {
                                                    directory: pd.0,
                                                    command: pc.0,
                                                    file: pf.0,
                                                },
                                            )
                                        } else {
                                            None
                                        }
                                    },
                                    None => None,
                                }
                            } else {
                                None
                            }
                        },
                        None => None,
                    }
                } else {
                    None
                }
            },
            None => None,
        }
    } else {
        None
    }
}

proof fn lemma_parse_escaped(s: Seq<char>, rest: Seq<char>)
    ensures
        parse_string_body(escape(s) + seq!['"'] + rest) == Some((s, (escape(s).len() + 1) as nat)),
    decreases s.len(),
{
    let t = escape(s) + seq!['"'] + rest;
    if s.len() == 0 {
        assert(escape(s) =~= Seq::<char>::empty());
        assert(t[0] == '"');
        assert(parse_string_body(t) == Some((Seq::<char>::empty(), 1 as nat)));
        assert(s =~= Seq::<char>::empty());
    } else {
        let c = s[0];
        let s2 = s.drop_first();
        let u = escape(s2) + seq!['"'] + rest;
        lemma_parse_escaped(s2, rest);
        assert(escape(s) == escape_char(c) + escape(s2));
        assert(t =~= escape_char(c) + u);
        if c == '"' {
            assert(t[0] == '\\' && t[1] == '"');
            assert(t.skip(2) =~= u);
            assert(seq![t[1]] + s2 =~= s);
        } else if c == '\\' {
            assert(t[0] == '\\' && t[1] == '\\');
            assert(t.skip(2) =~= u);
            assert(seq![t[1]] + s2 =~= s);
        } else if (c as u32) < 32 {
            let code = c as u32;
            let hi = (code / 16) as int;
            let lo = (code % 16) as int;
            assert(t[0] == '\\' && t[1] == 'u' && t[2] == '0' && t[3] == '0');
            assert(t[4] == hex_char(hi) && t[5] == hex_char(lo));
            assert(is_hex(hex_char(hi)));
            assert(is_hex(hex_char(lo)));
            assert(hex_val(hex_char(hi)) == hi);
            assert(hex_val(hex_char(lo)) == lo);
            assert(16 * hi + lo == code);
            assert(t.skip(6) =~= u);
            assert((code as u8) as u32 == code);
            vstd::utf8::char_u32_cast(c, code);
            assert(((code as u8) as char) == c);
            assert(seq![(code as u8) as char] + s2 =~= s);
        } else {
            assert(t[0] == c);
            assert(t.drop_first() =~= u);
            assert(seq![c] + s2 =~= s);
        }
    }
}

proof fn lemma_parse_quoted_encoding(s: Seq<char>, rest: Seq<char>)
    ensures
        parse_quoted(encode_string(s) + rest) == Some((s, encode_string(s).len() as nat)),
{
    let t = encode_string(s) + rest;
    assert(t[0] == '"');
    assert(t.drop_first() =~= escape(s) + seq!['"'] + rest);
    lemma_parse_escaped(s, rest);
}

/// Round trip: a record's JSON text decodes to the record itself — what is
/// written to the cache is exactly what the collector reads back.
#[verifier::rlimit(100)]
pub proof fn lemma_record_round_trip(r: RecordView)
    ensures
        decode_record(encode_record(r)) == Some(r),
{
    let t = encode_record(r);
    let rest1 = lit_command() + encode_string(r.command) + lit_file() + encode_string(r.file)
        + seq!['}'];
    let rest2 = lit_file() + encode_string(r.file) + seq!['}'];
    let rest3 = seq!['}'];

    assert(t.take(lit_directory().len() as int) =~= lit_directory());
    assert(starts_with(t, lit_directory()));
    let t1 = t.skip(lit_directory().len() as int);
    assert(t1 =~= encode_string(r.directory) + rest1);
    lemma_parse_quoted_encoding(r.directory, rest1);
    let n1 = encode_string(r.directory).len();
    assert(parse_quoted(t1) == Some((r.directory, n1 as nat)));
    let t2 = t1.skip(n1 as int);
    assert(t2 =~= rest1);

    assert(t2.take(lit_command().len() as int) =~= lit_command());
    assert(starts_with(t2, lit_command()));
    let t3 = t2.skip(lit_command().len() as int);
    assert(t3 =~= encode_string(r.command) + rest2);
    lemma_parse_quoted_encoding(r.command, rest2);
    let n2 = encode_string(r.command).len();
    assert(parse_quoted(t3) == Some((r.command, n2 as nat)));
    let t4 = t3.skip(n2 as int);
    assert(t4 =~= rest2);

    assert(t4.take(lit_file().len() as int) =~= lit_file());
    assert(starts_with(t4, lit_file()));
    let t5 = t4.skip(lit_file().len() as int);
    assert(t5 =~= encode_string(r.file) + rest3);
    lemma_parse_quoted_encoding(r.file, rest3);
    let n3 = encode_string(r.file).len();
    assert(parse_quoted(t5) == Some((r.file, n3 as nat)));
    let t6 = t5.skip(n3 as int);
    assert(t6 =~= seq!['}']);
}

fn is_hex_exec(c: char) -> (r: bool)
    ensures
        r == is_hex(c),
{
    ('0' <= c && c <= '9') || ('a' <= c && c <= 'f')
}

fn hex_val_exec(c: char) -> (r: u32)
    requires
        is_hex(c),
    ensures
        r == hex_val(c),
{
    if '0' <= c && c <= '9' {
        c as u32 - 48
    } else {
        c as u32 - 87
    }
}

/// Reads a string body from `t` starting at `start`: the content and the
/// index just past the closing quote.
fn parse_string_body_exec(t: &Vec<char>, start: usize) -> (r: Option<(Vec<char>, usize)>)
    requires
        start <= t.len(),
    ensures
        match r {
            Some(p) => {
                &&& parse_string_body(t@.skip(start as int)) == Some((p.0@, (p.1 - start) as nat))
                &&& start < p.1 <= t.len()
            },
            None => parse_string_body(t@.skip(start as int)) is None,
        },
{
    let mut out: Vec<char> = Vec::new();
    let mut i: usize = start;
    proof {
        assert(out@ =~= Seq::<char>::empty());
    }
    loop
        invariant
            start <= i <= t.len(),
            ({
                let full = parse_string_body(t@.skip(start as int));
                match parse_string_body(t@.skip(i as int)) {
                    Some(p) => full == Some((out@ + p.0, (i - start + p.1) as nat)),
                    None => full is None,
                }
            }),
        decreases t.len() - i,
    {
        let ghost rest = t@.skip(i as int);
        if i == t.len() {
            proof {
                assert(rest =~= Seq::<char>::empty());
            }
            return None;
        }
        proof {
            assert(rest.len() > 0);
            assert(rest[0] == t@[i as int]);
            assert(rest.drop_first() =~= t@.skip(i as int + 1));
        }
        let c = t[i];
        if c == '"' {
            proof {
                assert(parse_string_body(rest) == Some((Seq::<char>::empty(), 1 as nat)));
                assert(out@ + Seq::<char>::empty() =~= out@);
                lemma_parse_string_body_len(t@.skip(start as int));
            }
            return Some((out, i + 1));
        }
        if c == '\\' {
            if t.len() - i < 2 {
                proof {
                    assert(rest.len() < 2);
                    assert(parse_string_body(rest) is None);
                }
                return None;
            }
            let e = t[i + 1];
            proof {
                assert(rest[1] == t@[i as int + 1]);
            }
            if e == '"' || e == '\\' {
                proof {
                    assert(rest.skip(2) =~= t@.skip(i as int + 2));
                }
                let ghost old_out = out@;
                out.push(e);
                proof {
                    match parse_string_body(t@.skip(i as int + 2)) {
                        Some(p) => {
                            assert(old_out + (seq![e] + p.0) =~= out@ + p.0);
                        },
                        None => {},
                    }
                }
                i = i + 2;
            } else if e == 'u' {
                if t.len() - i < 6 {
                    proof {
                        assert(rest.len() < 6);
                        assert(parse_string_body(rest) is None);
                    }
                    return None;
                }
                proof {
                    assert(rest[2] == t@[i as int + 2]);
                    assert(rest[3] == t@[i as int + 3]);
                    assert(rest[4] == t@[i as int + 4]);
                    assert(rest[5] == t@[i as int + 5]);
                }
                let d2 = t[i + 2];
                let d3 = t[i + 3];
                let h4 = t[i + 4];
                let h5 = t[i + 5];
                if d2 != '0' || d3 != '0' || !is_hex_exec(h4) || !is_hex_exec(h5) {
                    proof {
                        assert(parse_string_body(rest) is None);
                    }
                    return None;
                }
                let v: u32 = 16 * hex_val_exec(h4) + hex_val_exec(h5);
                if v >= 32 {
                    proof {
                        assert(parse_string_body(rest) is None);
                    }
                    return None;
                }
                proof {
                    assert(rest.skip(6) =~= t@.skip(i as int + 6));
                }
                let ghost old_out = out@;
                out.push((v as u8) as char);
                proof {
                    match parse_string_body(t@.skip(i as int + 6)) {
                        Some(p) => {
                            assert(old_out + (seq![(v as u8) as char] + p.0) =~= out@ + p.0);
                        },
                        None => {},
                    }
                }
                i = i + 6;
            } else {
                proof {
                    assert(parse_string_body(rest) is None);
                }
                return None;
            }
        } else if (c as u32) < 32 {
            proof {
                assert(parse_string_body(rest) is None);
            }
            return None;
        } else {
            let ghost old_out = out@;
            out.push(c);
            proof {
                match parse_string_body(t@.skip(i as int + 1)) {
                    Some(p) => {
                        assert(old_out + (seq![c] + p.0) =~= out@ + p.0);
                    },
                    None => {},
                }
            }
            i = i + 1;
        }
    }
}

/// Reads a whole JSON string from `t` starting at `start`.
fn parse_quoted_exec(t: &Vec<char>, start: usize) -> (r: Option<(Vec<char>, usize)>)
    requires
        start <= t.len(),
    ensures
        match r {
            Some(p) => {
                &&& parse_quoted(t@.skip(start as int)) == Some((p.0@, (p.1 - start) as nat))
                &&& start < p.1 <= t.len()
            },
            None => parse_quoted(t@.skip(start as int)) is None,
        },
{
    let ghost rest = t@.skip(start as int);
    if start == t.len() || t[start] != '"' {
        proof {
            if rest.len() > 0 {
                assert(rest[0] == t@[start as int]);
            }
        }
        return None;
    }
    proof {
        assert(rest[0] == t@[start as int]);
        assert(rest.drop_first() =~= t@.skip(start as int + 1));
    }
    match parse_string_body_exec(t, start + 1) {
        Some(p) => Some(p),
        None => None,
    }
}

/// Does `t` hold `lit` starting at `at`?
fn has_lit_at(t: &Vec<char>, at: usize, lit: &Vec<char>) -> (r: bool)
    requires
        at <= t.len(),
    ensures
        r == starts_with(t@.skip(at as int), lit@),
{
    if t.len() - at < lit.len() {
        return false;
    }
    let mut k: usize = 0;
    while k < lit.len()
        invariant
            k <= lit.len(),
            at + lit.len() <= t.len(),
            forall|m: int| 0 <= m < k ==> t@[at + m] == lit@[m],
        decreases lit.len() - k,
    {
        if t[at + k] != lit[k] {
            proof {
                assert(t@.skip(at as int).take(lit@.len() as int)[k as int] == t@[at + k]);
            }
            return false;
        }
        k = k + 1;
    }
    proof {
        assert(t@.skip(at as int).take(lit@.len() as int) =~= lit@);
    }
    true
}

impl CapturedInvocation {
    /// Reads a record back from JSON text.  Exactly the texts `to_json`
    /// produces are accepted; any other text is malformed and yields
    /// nothing.
    #[verifier::rlimit(60)]
    pub fn from_json(text: &str) -> (r: Option<CapturedInvocation>)
        ensures
            r is Some <==> decode_record(text@) is Some,
            r matches Some(c) ==> decode_record(text@) == Some(c@),
    {
        let t = chars_of(text);
        let head: Vec<char> = vec!['{', '"', 'd', 'i', 'r', 'e', 'c', 't', 'o', 'r', 'y', '"', ':'];
        let mid: Vec<char> = vec![',', '"', 'c', 'o', 'm', 'm', 'a', 'n', 'd', '"', ':'];
        let tail: Vec<char> = vec![',', '"', 'f', 'i', 'l', 'e', '"', ':'];
        proof {
            assert(head@ =~= lit_directory());
            assert(mid@ =~= lit_command());
            assert(tail@ =~= lit_file());
            assert(t@.skip(0) =~= t@);
        }
        if !has_lit_at(&t, 0, &head) {
            return None;
        }
        let i1: usize = head.len();
        let ghost t1 = t@.skip(i1 as int);
        let (dir, i2) = match parse_quoted_exec(&t, i1) {
            Some(p) => p,
            None => {
                return None;
            },
        };
        let ghost t2 = t1.skip(i2 - i1);
        proof {
            assert(t2 =~= t@.skip(i2 as int));
        }
        if !has_lit_at(&t, i2, &mid) {
            return None;
        }
        let i3: usize = i2 + mid.len();
        let ghost t3 = t2.skip(mid@.len() as int);
        proof {
            assert(t3 =~= t@.skip(i3 as int));
        }
        let (cmd, i4) = match parse_quoted_exec(&t, i3) {
            Some(p) => p,
            None => {
                return None;
            },
        };
        let ghost t4 = t3.skip(i4 - i3);
        proof {
            assert(t4 =~= t@.skip(i4 as int));
        }
        if !has_lit_at(&t, i4, &tail) {
            return None;
        }
        let i5: usize = i4 + tail.len();
        let ghost t5 = t4.skip(tail@.len() as int);
        proof {
            assert(t5 =~= t@.skip(i5 as int));
        }
        let (file, i6) = match parse_quoted_exec(&t, i5) {
            Some(p) => p,
            None => {
                return None;
            },
        };
        let ghost t6 = t5.skip(i6 - i5);
        proof {
            assert(t6 =~= t@.skip(i6 as int));
        }
        if i6 < t.len() && t.len() - i6 == 1 && t[i6] == '}' {
            proof {
                assert(t6[0] == t@[i6 as int]);
                assert(t6 =~= seq!['}']);
            }
            Some(
                CapturedInvocation {
                    directory: string_from_chars(&dir),
                    command: string_from_chars(&cmd),
                    file: string_from_chars(&file),
                },
            )
        } else {
            proof {
                if t6.len() == 1 {
                    assert(t6[0] == t@[i6 as int]);
                }
                assert(!(t6 =~= seq!['}']));
            }
            None
        }
    }
}

} // verus!
