//! Response-file handling: detection of `@path` tokens in a command line,
//! decoding of externally produced response files (UTF-8, UTF-16LE with or
//! without a byte-order mark, lossy UTF-8 as a last resort), normalization
//! of their content to one flat argument string, and the splice of that
//! string back into the command line.

use vstd::prelude::*;

use crate::cmdline::{join_path, join_path_exec};
use crate::text::{append_chars, replace_all, replace_all_exec, subvec};

verus! {

// ---------------------------------------------------------------------------
// Token detection
// ---------------------------------------------------------------------------
/// ASCII whitespace, as a command line uses it.
pub open spec fn is_space(c: char) -> bool {
    c == ' ' || c == '\t' || c == '\n' || c == '\r' || c == '\x0b' || c == '\x0c'
}

fn is_space_exec(c: char) -> (r: bool)
    ensures
        r == is_space(c),
{
    c == ' ' || c == '\t' || c == '\n' || c == '\r' || c == '\x0b' || c == '\x0c'
}

/// The length of the longest whitespace-free prefix of `s`.
pub open spec fn nonspace_run(s: Seq<char>) -> nat
    decreases s.len(),
{
    if s.len() == 0 || is_space(s[0]) {
        0
    } else {
        1 + nonspace_run(s.drop_first())
    }
}

proof fn lemma_nonspace_run_le(s: Seq<char>)
    ensures
        nonspace_run(s) <= s.len(),
    decreases s.len(),
{
    if s.len() == 0 || is_space(s[0]) {
    } else {
        lemma_nonspace_run_le(s.drop_first());
    }
}

proof fn lemma_nonspace_run(s: Seq<char>, k: int)
    requires
        0 <= k <= s.len(),
        forall|m: int| 0 <= m < k ==> !is_space(s[m]),
        k < s.len() ==> is_space(s[k]),
    ensures
        nonspace_run(s) == k,
    decreases k,
{
    if k == 0 {
    } else {
        assert(!is_space(s[0]));
        lemma_nonspace_run(s.drop_first(), k - 1);
    }
}

/// The `@file` references of a command line: each `@` that is directly
/// followed by a non-blank character starts one, and the reference runs to
/// the next whitespace.  References are found left to right and do not
/// overlap; the `@` itself is not part of the reference.
pub open spec fn response_tokens(s: Seq<char>) -> Seq<Seq<char>>
    decreases s.len(),
    via response_tokens_decreases
{
    if s.len() == 0 {
        Seq::empty()
    } else if s[0] == '@' && s.len() > 1 && !is_space(s[1]) {
        let n = nonspace_run(s.drop_first());
        seq![s.subrange(1, 1 + n as int)] + response_tokens(s.skip(1 + n as int))
    } else {
        response_tokens(s.drop_first())
    }
}

#[via_fn]
proof fn response_tokens_decreases(s: Seq<char>) {
    if s.len() > 1 && s[0] == '@' && !is_space(s[1]) {
        lemma_nonspace_run_le(s.drop_first());
    }
}

/// Finds every `@file` reference of a command line, in order.
pub fn response_tokens_exec(s: &Vec<char>) -> (toks: Vec<Vec<char>>)
    ensures
        toks.deep_view() == response_tokens(s@),
{
    let mut toks: Vec<Vec<char>> = Vec::new();
    let mut i: usize = 0;
    proof {
        assert(s@.skip(0) =~= s@);
        assert(toks.deep_view() =~~= Seq::<Seq<char>>::empty());
        assert(Seq::<Seq<char>>::empty() + response_tokens(s@) =~~= response_tokens(s@));
    }
    while i < s.len()
        invariant
            i <= s.len(),
            response_tokens(s@) == toks.deep_view() + response_tokens(s@.skip(i as int)),
        decreases s.len() - i,
    {
        let ghost rest = s@.skip(i as int);
        proof {
            assert(rest.len() > 0);
            assert(rest[0] == s@[i as int]);
            assert(rest.drop_first() =~= s@.skip(i as int + 1));
        }
        if s[i] == '@' && i + 1 < s.len() && !is_space_exec(s[i + 1]) {
            proof {
                assert(rest[1] == s@[i as int + 1]);
            }
            // scan the whitespace-free run that follows the `@`
            let mut j: usize = i + 1;
            while j < s.len() && !is_space_exec(s[j])
                invariant
                    i + 1 <= j <= s.len(),
                    forall|m: int| i + 1 <= m < j ==> !is_space(s@[m]),
                decreases s.len() - j,
            {
                j = j + 1;
            }
            proof {
                assert forall|m: int| 0 <= m < j - (i + 1) implies !is_space(
                    rest.drop_first()[m],
                ) by {
                    assert(rest.drop_first()[m] == s@[i as int + 1 + m]);
                }
                if j < s.len() {
                    assert(rest.drop_first()[j - (i + 1)] == s@[j as int]);
                }
                lemma_nonspace_run(rest.drop_first(), j - (i + 1));
                assert(nonspace_run(rest.drop_first()) == j - (i + 1));
            }
            let ghost n = nonspace_run(rest.drop_first());
            let tok = subvec(s, i + 1, j);
            proof {
                assert(tok@ =~= rest.subrange(1, 1 + n as int));
                assert(rest.skip(1 + n as int) =~= s@.skip(j as int));
            }
            let ghost old_toks = toks.deep_view();
            let ghost tok_view = tok@;
            toks.push(tok);
            proof {
                assert(toks.deep_view() =~~= old_toks.push(tok_view));
                assert(old_toks + (seq![tok_view] + response_tokens(s@.skip(j as int))) =~~=
                    toks.deep_view() + response_tokens(s@.skip(j as int)));
            }
            i = j;
        } else {
            i = i + 1;
        }
    }
    proof {
        assert(s@.skip(s@.len() as int) =~= Seq::<char>::empty());
        assert(toks.deep_view() + Seq::<Seq<char>>::empty() =~~= toks.deep_view());
    }
    toks
}

/// The places to read response files from: each reference, resolved against
/// the working directory.
pub fn resolve_response_paths(command_line: &Vec<char>, working_dir: &Vec<char>) -> (paths: Vec<
    Vec<char>,
>)
    ensures
        paths.deep_view() == response_tokens(command_line@).map_values(
            |t: Seq<char>| join_path(working_dir@, t),
        ),
{
    let toks = response_tokens_exec(command_line);
    let mut paths: Vec<Vec<char>> = Vec::new();
    let mut i: usize = 0;
    while i < toks.len()
        invariant
            i <= toks.len(),
            toks.deep_view() == response_tokens(command_line@),
            paths.deep_view() =~~= toks.deep_view().take(i as int).map_values(
                |t: Seq<char>| join_path(working_dir@, t),
            ),
        decreases toks.len() - i,
    {
        let p = join_path_exec(working_dir, &toks[i]);
        let ghost old_paths = paths.deep_view();
        let ghost p_view = p@;
        paths.push(p);
        proof {
            assert(paths.deep_view() =~~= old_paths.push(p_view));
            assert(toks.deep_view()[i as int] == toks@[i as int]@);
            assert(toks.deep_view().take(i as int + 1).map_values(
                |t: Seq<char>| join_path(working_dir@, t),
            ) =~~= toks.deep_view().take(i as int).map_values(
                |t: Seq<char>| join_path(working_dir@, t),
            ).push(join_path(working_dir@, toks.deep_view()[i as int])));
        }
        i = i + 1;
    }
    proof {
        assert(toks.deep_view().take(toks.deep_view().len() as int) =~~= toks.deep_view());
    }
    paths
}

// ---------------------------------------------------------------------------
// Decoding
// ---------------------------------------------------------------------------
/// What `String::from_utf8` decodes a byte sequence to: the character
/// sequence when the bytes are valid UTF-8, nothing otherwise.
pub uninterp spec fn utf8_decoded(bytes: Seq<u8>) -> Option<Seq<char>>;

/// What `String::from_utf16_lossy` decodes a code-unit sequence to.
pub uninterp spec fn utf16_lossy_decoded(units: Seq<u16>) -> Seq<char>;

/// What `String::from_utf8_lossy` decodes a byte sequence to.
pub uninterp spec fn utf8_lossy_decoded(bytes: Seq<u8>) -> Seq<char>;

/// Relies on `String::from_utf8`: it succeeds exactly on valid UTF-8, and
/// the decoding depends on the bytes alone.
#[verifier::external_body]
fn try_utf8(bytes: &Vec<u8>) -> (r: Option<String>)
    ensures
        r is Some <==> utf8_decoded(bytes@) is Some,
        r matches Some(s) ==> s@ == utf8_decoded(bytes@).unwrap(),
{
    String::from_utf8(bytes.clone()).ok()
}

/// Relies on `String::from_utf16_lossy`: the decoding depends on the code
/// units alone.
#[verifier::external_body]
pub(crate) fn utf16_lossy_chars(units: &Vec<u16>) -> (r: String)
    ensures
        r@ == utf16_lossy_decoded(units@),
{
    String::from_utf16_lossy(units.as_slice())
}

/// Relies on `String::from_utf8_lossy`: the decoding depends on the bytes
/// alone.
#[verifier::external_body]
fn utf8_lossy(bytes: &Vec<u8>) -> (r: String)
    ensures
        r@ == utf8_lossy_decoded(bytes@),
{
    String::from_utf8_lossy(bytes.as_slice()).into_owned()
}

/// The little-endian 16-bit code units of a byte sequence; a trailing odd
/// byte is dropped.
pub open spec fn le_units(bytes: Seq<u8>) -> Seq<u16> {
    Seq::new((bytes.len() / 2) as nat, |k: int| (bytes[2 * k] + 256 * bytes[2 * k + 1]) as u16)
}

/// Pairs the bytes of `v`, from index `start` on, into little-endian 16-bit
/// code units.
fn le_units_exec(v: &Vec<u8>, start: usize) -> (r: Vec<u16>)
    requires
        start <= v.len(),
    ensures
        r@ == le_units(v@.skip(start as int)),
{
    let mut r: Vec<u16> = Vec::new();
    let mut j: usize = start;
    while v.len() - j >= 2
        invariant
            start <= j <= v.len(),
            (j - start) % 2 == 0,
            r@.len() == (j - start) / 2,
            forall|k: int|
                0 <= k < r@.len() ==> r@[k] == (v@[start + 2 * k] + 256 * v@[start + 2 * k + 1]) as u16,
        decreases v.len() - j,
    {
        let lo = v[j];
        let hi = v[j + 1];
        r.push(lo as u16 + 256 * (hi as u16));
        j = j + 2;
    }
    proof {
        let t = v@.skip(start as int);
        assert forall|k: int| 0 <= k < r@.len() implies r@[k] == le_units(t)[k] by {
            assert(t[2 * k] == v@[start + 2 * k]);
            assert(t[2 * k + 1] == v@[start + 2 * k + 1]);
        }
        assert(r@ =~= le_units(t));
    }
    r
}

/// How a response file's raw bytes become text: strict UTF-8 when valid;
/// else UTF-16LE when a byte-order mark leads (the mark is dropped); else
/// UTF-16LE when the length is even; else lossy UTF-8.
pub open spec fn spec_decode_response(bytes: Seq<u8>) -> Seq<char> {
    if utf8_decoded(bytes) is Some {
        utf8_decoded(bytes).unwrap()
    } else if bytes.len() >= 2 && bytes[0] == 0xff && bytes[1] == 0xfe {
        utf16_lossy_decoded(le_units(bytes.skip(2)))
    } else if bytes.len() % 2 == 0 {
        utf16_lossy_decoded(le_units(bytes))
    } else {
        utf8_lossy_decoded(bytes)
    }
}

/// Decodes a response file's bytes, trying the encodings in the order
/// `spec_decode_response` gives.
pub fn decode_response_bytes(bytes: &Vec<u8>) -> (r: String)
    ensures
        r@ == spec_decode_response(bytes@),
{
    match try_utf8(bytes) {
        Some(s) => s,
        None => {
            if bytes.len() >= 2 && bytes[0] == 0xff && bytes[1] == 0xfe {
                let units = le_units_exec(bytes, 2);
                utf16_lossy_chars(&units)
            } else if bytes.len() % 2 == 0 {
                let units = le_units_exec(bytes, 0);
                proof {
                    assert(bytes@.skip(0) =~= bytes@);
                }
                utf16_lossy_chars(&units)
            } else {
                utf8_lossy(bytes)
            }
        },
    }
}

// ---------------------------------------------------------------------------
// Normalization
// ---------------------------------------------------------------------------
/// `s` without its leading whitespace.
pub open spec fn trim_left(s: Seq<char>) -> Seq<char>
    decreases s.len(),
{
    if s.len() > 0 && is_space(s[0]) {
        trim_left(s.drop_first())
    } else {
        s
    }
}

/// `s` without its trailing whitespace.
pub open spec fn trim_right(s: Seq<char>) -> Seq<char>
    decreases s.len(),
{
    if s.len() > 0 && is_space(s[s.len() - 1]) {
        trim_right(s.drop_last())
    } else {
        s
    }
}

/// `s` without surrounding whitespace.
pub open spec fn trim(s: Seq<char>) -> Seq<char> {
    trim_right(trim_left(s))
}

proof fn lemma_trim_left(s: Seq<char>, a: int)
    requires
        0 <= a <= s.len(),
        forall|m: int| 0 <= m < a ==> is_space(s[m]),
        a < s.len() ==> !is_space(s[a]),
    ensures
        trim_left(s) == s.skip(a),
    decreases a,
{
    if a == 0 {
        assert(s.skip(0) =~= s);
    } else {
        lemma_trim_left(s.drop_first(), a - 1);
        assert(s.drop_first().skip(a - 1) =~= s.skip(a));
    }
}

proof fn lemma_trim_right(s: Seq<char>, b: int)
    requires
        0 <= b <= s.len(),
        forall|m: int| b <= m < s.len() ==> is_space(s[m]),
        b > 0 ==> !is_space(s[b - 1]),
    ensures
        trim_right(s) == s.take(b),
    decreases s.len(),
{
    if b == s.len() {
        assert(s.take(b) =~= s);
    } else {
        assert(is_space(s[s.len() - 1]));
        lemma_trim_right(s.drop_last(), b);
        assert(s.drop_last().take(b) =~= s.take(b));
    }
}

/// Strips surrounding whitespace from a line.
pub fn trim_exec(t: &Vec<char>) -> (r: Vec<char>)
    ensures
        r@ == trim(t@),
{
    let mut a: usize = 0;
    while a < t.len() && is_space_exec(t[a])
        invariant
            a <= t.len(),
            forall|m: int| 0 <= m < a ==> is_space(t@[m]),
        decreases t.len() - a,
    {
        a = a + 1;
    }
    let mut b: usize = t.len();
    while b > a && is_space_exec(t[b - 1])
        invariant
            a <= b <= t.len(),
            forall|m: int| b <= m < t.len() ==> is_space(t@[m]),
        decreases b,
    {
        b = b - 1;
    }
    proof {
        lemma_trim_left(t@, a as int);
        let u = t@.skip(a as int);
        assert forall|m: int| b - a <= m < u.len() implies is_space(u[m]) by {
            assert(u[m] == t@[a + m]);
        }
        if b > a {
            assert(u[b - a - 1] == t@[b - 1]);
        }
        lemma_trim_right(u, b - a);
        assert(u.take(b - a) =~= t@.subrange(a as int, b as int));
    }
    subvec(t, a, b)
}

/// The length of the first line of `s`: the characters before the first
/// newline, all of `s` when there is none.
pub open spec fn line_break(s: Seq<char>) -> nat
    decreases s.len(),
{
    if s.len() == 0 || s[0] == '\n' {
        0
    } else {
        1 + line_break(s.drop_first())
    }
}

proof fn lemma_line_break_le(s: Seq<char>)
    ensures
        line_break(s) <= s.len(),
    decreases s.len(),
{
    if s.len() == 0 || s[0] == '\n' {
    } else {
        lemma_line_break_le(s.drop_first());
    }
}

proof fn lemma_line_break(s: Seq<char>, k: int)
    requires
        0 <= k <= s.len(),
        forall|m: int| 0 <= m < k ==> s[m] != '\n',
        k < s.len() ==> s[k] == '\n',
    ensures
        line_break(s) == k,
    decreases k,
{
    if k == 0 {
    } else {
        lemma_line_break(s.drop_first(), k - 1);
    }
}

/// `s` split on newline characters; the newlines themselves are dropped.
pub open spec fn split_lines(s: Seq<char>) -> Seq<Seq<char>>
    decreases s.len(),
    via split_lines_decreases
{
    let n = line_break(s);
    if n == s.len() {
        seq![s]
    } else {
        seq![s.take(n as int)] + split_lines(s.skip(n as int + 1))
    }
}

#[via_fn]
proof fn split_lines_decreases(s: Seq<char>) {
    lemma_line_break_le(s);
}

/// Splits a text on newline characters.
fn split_lines_exec(s: &Vec<char>) -> (lines: Vec<Vec<char>>)
    ensures
        lines.deep_view() == split_lines(s@),
    decreases s.len(),
{
    let mut lines: Vec<Vec<char>> = Vec::new();
    let mut start: usize = 0;
    let mut i: usize = 0;
    proof {
        assert(s@.skip(0) =~= s@);
        assert(lines.deep_view() =~~= Seq::<Seq<char>>::empty());
    }
    loop
        invariant_except_break
            start <= i <= s.len(),
            forall|m: int| start <= m < i ==> s@[m] != '\n',
            split_lines(s@) == lines.deep_view() + split_lines(s@.skip(start as int)),
        ensures
            lines.deep_view() == split_lines(s@),
        decreases s.len() - i,
    {
        let ghost rest = s@.skip(start as int);
        proof {
            assert forall|m: int| 0 <= m < i - start implies rest[m] != '\n' by {
                assert(rest[m] == s@[start + m]);
            }
        }
        if i == s.len() {
            proof {
                lemma_line_break(rest, i - start);
                assert(rest.take(i - start) =~= rest);
            }
            let ghost old_lines = lines.deep_view();
            let tail = subvec(s, start, i);
            let ghost tail_view = tail@;
            lines.push(tail);
            proof {
                assert(tail_view =~= rest);
                assert(lines.deep_view() =~~= old_lines.push(tail_view));
                assert(old_lines + seq![rest] =~~= lines.deep_view());
            }
            break;
        }
        if s[i] == '\n' {
            proof {
                assert(rest[i - start] == s@[i as int]);
                lemma_line_break(rest, i - start);
                assert(rest.take(i - start) =~= s@.subrange(start as int, i as int));
                assert(rest.skip(i - start + 1) =~= s@.skip(i as int + 1));
            }
            let ghost old_lines = lines.deep_view();
            let line = subvec(s, start, i);
            let ghost line_view = line@;
            lines.push(line);
            proof {
                assert(lines.deep_view() =~~= old_lines.push(line_view));
                assert(old_lines + (seq![line_view] + split_lines(s@.skip(i as int + 1))) =~~=
                    lines.deep_view() + split_lines(s@.skip(i as int + 1)));
            }
            start = i + 1;
            i = i + 1;
        } else {
            i = i + 1;
        }
    }
    lines
}

/// The lines that survive normalization: each line trimmed, blank lines
/// dropped.
pub open spec fn clean_lines(ls: Seq<Seq<char>>) -> Seq<Seq<char>>
    decreases ls.len(),
{
    if ls.len() == 0 {
        Seq::empty()
    } else {
        let t = trim(ls[0]);
        let rest = clean_lines(ls.drop_first());
        if t.len() > 0 {
            seq![t] + rest
        } else {
            rest
        }
    }
}

/// The lines joined with single spaces.
pub open spec fn join_spaces(ls: Seq<Seq<char>>) -> Seq<char>
    decreases ls.len(),
{
    if ls.len() == 0 {
        Seq::empty()
    } else if ls.len() == 1 {
        ls[0]
    } else {
        ls[0] + seq![' '] + join_spaces(ls.drop_first())
    }
}

proof fn lemma_join_push(ls: Seq<Seq<char>>, x: Seq<char>)
    ensures
        ls.len() == 0 ==> join_spaces(ls.push(x)) == x,
        ls.len() > 0 ==> join_spaces(ls.push(x)) == join_spaces(ls) + seq![' '] + x,
    decreases ls.len(),
{
    if ls.len() == 0 {
        assert(ls.push(x) =~~= seq![x]);
    } else {
        assert(ls.push(x).drop_first() =~~= ls.drop_first().push(x));
        assert(ls.push(x)[0] == ls[0]);
        lemma_join_push(ls.drop_first(), x);
        if ls.len() == 1 {
            assert(join_spaces(ls.push(x)) == ls[0] + seq![' '] + x);
        } else {
            assert(join_spaces(ls.push(x)) == ls[0] + seq![' '] + (join_spaces(ls.drop_first())
                + seq![' '] + x));
            assert(ls[0] + seq![' '] + (join_spaces(ls.drop_first()) + seq![' '] + x) =~= (ls[0]
                + seq![' '] + join_spaces(ls.drop_first())) + seq![' '] + x);
        }
    }
}

/// The content of a response file, flattened to one argument string: lines
/// are trimmed of surrounding whitespace, blank lines are dropped, and the
/// survivors are joined with single spaces.
pub open spec fn normalize_response(s: Seq<char>) -> Seq<char> {
    join_spaces(clean_lines(split_lines(s)))
}

/// Flattens decoded response-file text to one argument string, as
/// `normalize_response` describes.
pub fn normalize_response_exec(text: &Vec<char>) -> (r: Vec<char>)
    ensures
        r@ == normalize_response(text@),
{
    let lines = split_lines_exec(text);
    let mut r: Vec<char> = Vec::new();
    let mut any: bool = false;
    let ghost mut done: Seq<Seq<char>> = Seq::empty();
    let mut i: usize = 0;
    proof {
        assert(lines.deep_view().skip(0) =~~= lines.deep_view());
        assert(Seq::<Seq<char>>::empty() + clean_lines(lines.deep_view()) =~~= clean_lines(
            lines.deep_view(),
        ));
    }
    while i < lines.len()
        invariant
            i <= lines.len(),
            lines.deep_view() == split_lines(text@),
            clean_lines(split_lines(text@)) == done + clean_lines(
                lines.deep_view().skip(i as int),
            ),
            r@ == join_spaces(done),
            any <==> done.len() > 0,
        decreases lines.len() - i,
    {
        let ghost rest = lines.deep_view().skip(i as int);
        proof {
            assert(rest.len() > 0);
            assert(rest[0] == lines.deep_view()[i as int]);
            assert(lines.deep_view()[i as int] == lines@[i as int]@);
            assert(rest.drop_first() =~~= lines.deep_view().skip(i as int + 1));
        }
        let t = trim_exec(&lines[i]);
        if t.len() > 0 {
            let ghost old_done = done;
            let ghost t_view = t@;
            proof {
                lemma_join_push(old_done, t_view);
                done = old_done.push(t_view);
                assert(old_done + (seq![t_view] + clean_lines(rest.drop_first())) =~~= done
                    + clean_lines(rest.drop_first()));
            }
            if any {
                r.push(' ');
            }
            append_chars(&mut r, &t);
            any = true;
            proof {
                if old_done.len() == 0 {
                    assert(r@ =~= t_view);
                } else {
                    assert(r@ =~= join_spaces(old_done) + seq![' '] + t_view);
                }
            }
        }
        i = i + 1;
    }
    proof {
        assert(lines.deep_view().skip(lines.deep_view().len() as int) =~~= Seq::<
            Seq<char>,
        >::empty());
        assert(done + Seq::<Seq<char>>::empty() =~~= done);
    }
    r
}

// ---------------------------------------------------------------------------
// Expansion
// ---------------------------------------------------------------------------
/// The expanded command line: each `@file` reference whose file could be
/// read is replaced, wherever `@` + reference occurs verbatim, by the
/// normalized content of that file; a reference whose file could not be
/// read stays untouched.  `contents` pairs up with the references in order;
/// a list of the wrong length changes nothing.
pub open spec fn spec_expand(
    cmd: Seq<char>,
    toks: Seq<Seq<char>>,
    contents: Seq<Option<Seq<u8>>>,
) -> Seq<char>
    decreases toks.len(),
{
    if toks.len() == 0 || contents.len() != toks.len() {
        cmd
    } else {
        let next = match contents[0] {
            Option::Some(bytes) => replace_all(
                cmd,
                seq!['@'] + toks[0],
                normalize_response(spec_decode_response(bytes)),
            ),
            Option::None => cmd,
        };
        spec_expand(next, toks.drop_first(), contents.drop_first())
    }
}

/// The decoded texts to archive: one per readable response file, in order,
/// before any normalization.
pub open spec fn spec_archives(contents: Seq<Option<Seq<u8>>>) -> Seq<Seq<char>>
    decreases contents.len(),
{
    if contents.len() == 0 {
        Seq::empty()
    } else {
        let rest = spec_archives(contents.drop_first());
        match contents[0] {
            Option::Some(bytes) => seq![spec_decode_response(bytes)] + rest,
            Option::None => rest,
        }
    }
}

/// Expands every readable response file into the command line and returns
/// the expanded line together with the decoded texts to archive, in order.
/// `contents` holds one entry per `@file` reference of the command line:
/// the file's raw bytes, or nothing when it could not be read.
pub fn expand_response_files(command_line: &Vec<char>, contents: &Vec<Option<Vec<u8>>>) -> (res: (
    Vec<char>,
    Vec<String>,
))
    requires
        contents@.len() == response_tokens(command_line@).len(),
    ensures
        res.0@ == spec_expand(command_line@, response_tokens(command_line@), contents.deep_view()),
        res.1.deep_view() == spec_archives(contents.deep_view()),
{
    let toks = response_tokens_exec(command_line);
    let mut cmd: Vec<char> = Vec::new();
    append_chars(&mut cmd, command_line);
    let mut archives: Vec<String> = Vec::new();
    let mut i: usize = 0;
    proof {
        assert(toks.deep_view().skip(0) =~~= toks.deep_view());
        assert(contents.deep_view().skip(0) =~~= contents.deep_view());
        assert(archives.deep_view() =~~= Seq::<Seq<char>>::empty());
        assert(Seq::<Seq<char>>::empty() + spec_archives(contents.deep_view()) =~~= spec_archives(
            contents.deep_view(),
        ));
    }
    while i < toks.len()
        invariant
            i <= toks.len(),
            toks.len() == contents.len(),
            toks.deep_view() == response_tokens(command_line@),
            spec_expand(command_line@, response_tokens(command_line@), contents.deep_view())
                == spec_expand(
                cmd@,
                toks.deep_view().skip(i as int),
                contents.deep_view().skip(i as int),
            ),
            spec_archives(contents.deep_view()) == archives.deep_view() + spec_archives(
                contents.deep_view().skip(i as int),
            ),
        decreases toks.len() - i,
    {
        let ghost toks_rest = toks.deep_view().skip(i as int);
        let ghost cont_rest = contents.deep_view().skip(i as int);
        proof {
            assert(toks_rest.len() > 0);
            assert(cont_rest.len() == toks_rest.len());
            assert(toks_rest[0] == toks.deep_view()[i as int]);
            assert(toks.deep_view()[i as int] == toks@[i as int]@);
            assert(cont_rest[0] == contents.deep_view()[i as int]);
            assert(contents.deep_view()[i as int] == contents@[i as int].deep_view());
            assert(toks_rest.drop_first() =~~= toks.deep_view().skip(i as int + 1));
            assert(cont_rest.drop_first() =~~= contents.deep_view().skip(i as int + 1));
        }
        let ghost cmd_before = cmd@;
        match &contents[i] {
            Option::Some(bytes) => {
                proof {
                    assert(bytes.deep_view() =~= bytes@);
                    assert(cont_rest[0] == Option::Some(bytes@));
                }
                let decoded = decode_response_bytes(bytes);
                let decoded_chars = crate::text::chars_of(decoded.as_str());
                let flat = normalize_response_exec(&decoded_chars);
                let mut pattern: Vec<char> = Vec::new();
                pattern.push('@');
                append_chars(&mut pattern, &toks[i]);
                proof {
                    assert(pattern@ =~= seq!['@'] + toks_rest[0]);
                }
                let replaced = replace_all_exec(&cmd, &pattern, &flat);
                cmd = replaced;
                proof {
                    assert(cmd@ == replace_all(
                        cmd_before,
                        seq!['@'] + toks_rest[0],
                        normalize_response(spec_decode_response(bytes@)),
                    ));
                    assert(spec_expand(cmd_before, toks_rest, cont_rest) == spec_expand(
                        cmd@,
                        toks_rest.drop_first(),
                        cont_rest.drop_first(),
                    ));
                }
                let ghost old_archives = archives.deep_view();
                let ghost decoded_view = decoded@;
                archives.push(decoded);
                proof {
                    assert(decoded_view == spec_decode_response(bytes@));
                    assert(archives.deep_view() =~~= old_archives.push(decoded_view));
                    assert(old_archives + (seq![decoded_view] + spec_archives(
                        cont_rest.drop_first(),
                    )) =~~= archives.deep_view() + spec_archives(cont_rest.drop_first()));
                }
            },
            Option::None => {
                proof {
                    assert(cont_rest[0] is None);
                    assert(spec_expand(cmd_before, toks_rest, cont_rest) == spec_expand(
                        cmd@,
                        toks_rest.drop_first(),
                        cont_rest.drop_first(),
                    ));
                    assert(spec_archives(cont_rest) == spec_archives(cont_rest.drop_first()));
                }
            },
        }
        i = i + 1;
    }
    proof {
        assert(toks.deep_view().skip(toks.deep_view().len() as int) =~~= Seq::<Seq<char>>::empty());
        assert(contents.deep_view().skip(contents@.len() as int) =~~= Seq::<
            Option<Seq<u8>>,
        >::empty());
        assert(archives.deep_view() + Seq::<Seq<char>>::empty() =~~= archives.deep_view());
    }
    (cmd, archives)
}

} // verus!
