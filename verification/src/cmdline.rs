//! Quote-aware tokenization of a command line, Windows-style path handling,
//! and extraction of the source files a compiler command names.

use vstd::prelude::*;

use crate::text::{append_chars, chars_eq, fold_chars, fold_vec, subvec};

verus! {

// ---------------------------------------------------------------------------
// Tokenization
// ---------------------------------------------------------------------------
/// State-machine form of the tokenizer: `cur` is the argument being
/// accumulated, `in_quotes` tells whether an opening double quote is pending.
/// A double quote toggles the mode and is dropped; a space outside quotes
/// ends the current argument; every other character joins it.
pub open spec fn tokenize_from(s: Seq<char>, cur: Seq<char>, in_quotes: bool) -> Seq<Seq<char>>
    decreases s.len(),
{
    if s.len() == 0 {
        if cur.len() > 0 {
            seq![cur]
        } else {
            Seq::empty()
        }
    } else {
        let c = s[0];
        if c == '"' {
            tokenize_from(s.drop_first(), cur, !in_quotes)
        } else if c == ' ' && !in_quotes {
            if cur.len() > 0 {
                seq![cur] + tokenize_from(s.drop_first(), Seq::empty(), false)
            } else {
                tokenize_from(s.drop_first(), Seq::empty(), false)
            }
        } else {
            tokenize_from(s.drop_first(), cur.push(c), in_quotes)
        }
    }
}

/// The arguments of a command line, split on spaces outside double quotes.
pub open spec fn tokenize(s: Seq<char>) -> Seq<Seq<char>> {
    tokenize_from(s, Seq::empty(), false)
}

/// Splits a command line into arguments: spaces separate arguments only
/// outside double-quoted regions, and the quotes themselves are dropped.
pub fn parse_arguments(command: &Vec<char>) -> (args: Vec<Vec<char>>)
    ensures
        args.deep_view() == tokenize(command@),
{
    let mut args: Vec<Vec<char>> = Vec::new();
    let mut cur: Vec<char> = Vec::new();
    let mut in_quotes: bool = false;
    let mut i: usize = 0;
    proof {
        assert(cur@ =~= Seq::<char>::empty());
        assert(command@.skip(0) =~= command@);
        assert(args.deep_view() =~~= Seq::<Seq<char>>::empty());
        assert(Seq::<Seq<char>>::empty() + tokenize_from(command@, Seq::<char>::empty(), false)
            =~~= tokenize_from(command@, Seq::<char>::empty(), false));
    }
    while i < command.len()
        invariant
            i <= command.len(),
            tokenize(command@) == args.deep_view() + tokenize_from(
                command@.skip(i as int),
                cur@,
                in_quotes,
            ),
        decreases command.len() - i,
    {
        let ghost rest = command@.skip(i as int);
        proof {
            assert(rest.len() > 0);
            assert(rest[0] == command@[i as int]);
            assert(rest.drop_first() =~= command@.skip(i as int + 1));
        }
        let c = command[i];
        if c == '"' {
            proof {
                assert(tokenize_from(rest, cur@, in_quotes) == tokenize_from(
                    rest.drop_first(),
                    cur@,
                    !in_quotes,
                ));
            }
            in_quotes = !in_quotes;
        } else if c == ' ' && !in_quotes {
            if cur.len() > 0 {
                let ghost old_args = args.deep_view();
                let ghost old_cur = cur@;
                proof {
                    assert(tokenize_from(rest, old_cur, false) == seq![old_cur] + tokenize_from(
                        rest.drop_first(),
                        Seq::empty(),
                        false,
                    ));
                }
                args.push(cur);
                cur = Vec::new();
                proof {
                    assert(cur@ =~= Seq::<char>::empty());
                    assert(args.deep_view() =~~= old_args.push(old_cur));
                    assert(old_args + (seq![old_cur] + tokenize_from(
                        rest.drop_first(),
                        Seq::empty(),
                        false,
                    )) =~~= args.deep_view() + tokenize_from(rest.drop_first(), Seq::empty(), false));
                }
            } else {
                proof {
                    assert(cur@ =~= Seq::<char>::empty());
                    assert(tokenize_from(rest, cur@, false) == tokenize_from(
                        rest.drop_first(),
                        Seq::empty(),
                        false,
                    ));
                }
            }
        } else {
            let ghost old_cur = cur@;
            proof {
                assert(tokenize_from(rest, old_cur, in_quotes) == tokenize_from(
                    rest.drop_first(),
                    old_cur.push(c),
                    in_quotes,
                ));
            }
            cur.push(c);
        }
        i = i + 1;
    }
    proof {
        assert(command@.skip(command@.len() as int) =~= Seq::<char>::empty());
    }
    if cur.len() > 0 {
        let ghost old_args = args.deep_view();
        let ghost old_cur = cur@;
        args.push(cur);
        proof {
            assert(args.deep_view() =~~= old_args.push(old_cur));
            assert(old_args + seq![old_cur] =~~= args.deep_view());
        }
    } else {
        proof {
            assert(args.deep_view() + Seq::<Seq<char>>::empty() =~~= args.deep_view());
        }
    }
    args
}

// ---------------------------------------------------------------------------
// Windows paths
// ---------------------------------------------------------------------------
/// Windows path separator: backslash or forward slash.
pub open spec fn is_sep(c: char) -> bool {
    c == '\\' || c == '/'
}

pub open spec fn is_ascii_alpha(c: char) -> bool {
    ('a' <= c && c <= 'z') || ('A' <= c && c <= 'Z')
}

/// Absolute Windows path: a drive letter with a root (`C:\...`) or a UNC
/// path (`\\server\share`).  A rooted path without a drive (`\x`) and a
/// drive-relative path (`C:x`) both count as relative, as they do not name
/// a location on their own.
pub open spec fn is_absolute_path(p: Seq<char>) -> bool {
    (p.len() >= 3 && is_ascii_alpha(p[0]) && p[1] == ':' && is_sep(p[2])) || (p.len() >= 2 && is_sep(
        p[0],
    ) && is_sep(p[1]))
}

/// Resolves `p` against the directory `dir`: an absolute path stands as it
/// is; a relative one is appended to `dir` with a single backslash unless
/// `dir` already ends in a separator.
pub open spec fn join_path(dir: Seq<char>, p: Seq<char>) -> Seq<char> {
    if is_absolute_path(p) {
        p
    } else if dir.len() > 0 && is_sep(dir[dir.len() - 1]) {
        dir + p
    } else {
        dir + seq!['\\'] + p
    }
}

fn is_sep_exec(c: char) -> (r: bool)
    ensures
        r == is_sep(c),
{
    c == '\\' || c == '/'
}

fn is_absolute_path_exec(p: &Vec<char>) -> (r: bool)
    ensures
        r == is_absolute_path(p@),
{
    let drive = p.len() >= 3 && (('a' <= p[0] && p[0] <= 'z') || ('A' <= p[0] && p[0] <= 'Z'))
        && p[1] == ':' && is_sep_exec(p[2]);
    let unc = p.len() >= 2 && is_sep_exec(p[0]) && is_sep_exec(p[1]);
    drive || unc
}

/// Resolves `p` against `dir` as `join_path` describes.
pub fn join_path_exec(dir: &Vec<char>, p: &Vec<char>) -> (r: Vec<char>)
    ensures
        r@ == join_path(dir@, p@),
{
    if is_absolute_path_exec(p) {
        let mut r: Vec<char> = Vec::new();
        append_chars(&mut r, p);
        r
    } else {
        let mut r: Vec<char> = Vec::new();
        append_chars(&mut r, dir);
        if !(dir.len() > 0 && is_sep_exec(dir[dir.len() - 1])) {
            r.push('\\');
            proof {
                assert(r@ =~= dir@ + seq!['\\']);
            }
        }
        append_chars(&mut r, p);
        r
    }
}

// ---------------------------------------------------------------------------
// Source-file recognition
// ---------------------------------------------------------------------------
/// Does `s` end with `suffix`?
pub open spec fn ends_with(s: Seq<char>, suffix: Seq<char>) -> bool {
    suffix.len() <= s.len() && s.skip(s.len() - suffix.len()) == suffix
}

pub fn ends_with_exec(s: &Vec<char>, suffix: &Vec<char>) -> (r: bool)
    ensures
        r == ends_with(s@, suffix@),
{
    if suffix.len() > s.len() {
        return false;
    }
    let tail = subvec(s, s.len() - suffix.len(), s.len());
    chars_eq(&tail, suffix)
}

/// Strips one pair of surrounding double quotes, if both are present.
pub open spec fn strip_quotes(t: Seq<char>) -> Seq<char> {
    if t.len() >= 2 && t[0] == '"' && t[t.len() - 1] == '"' {
        t.subrange(1, t.len() - 1)
    } else {
        t
    }
}

pub fn strip_quotes_exec(t: &Vec<char>) -> (r: Vec<char>)
    ensures
        r@ == strip_quotes(t@),
{
    if t.len() >= 2 && t[0] == '"' && t[t.len() - 1] == '"' {
        subvec(t, 1, t.len() - 1)
    } else {
        let mut r: Vec<char> = Vec::new();
        append_chars(&mut r, t);
        r
    }
}

/// The native-source suffixes the extractor recognizes, after folding:
/// `.c`, `.cpp`, `.cc`, `.cxx`, `.c++`.
pub open spec fn is_source_token(t: Seq<char>) -> bool {
    let l = fold_chars(t);
    ends_with(l, seq!['.', 'c']) || ends_with(l, seq!['.', 'c', 'p', 'p']) || ends_with(
        l,
        seq!['.', 'c', 'c'],
    ) || ends_with(l, seq!['.', 'c', 'x', 'x']) || ends_with(l, seq!['.', 'c', '+', '+'])
}

fn is_source_token_exec(t: &Vec<char>) -> (r: bool)
    ensures
        r == is_source_token(t@),
{
    let l = fold_vec(t);
    let c: Vec<char> = vec!['.', 'c'];
    let cpp: Vec<char> = vec!['.', 'c', 'p', 'p'];
    let cc: Vec<char> = vec!['.', 'c', 'c'];
    let cxx: Vec<char> = vec!['.', 'c', 'x', 'x'];
    let cplus: Vec<char> = vec!['.', 'c', '+', '+'];
    proof {
        assert(c@ =~= seq!['.', 'c']);
        assert(cpp@ =~= seq!['.', 'c', 'p', 'p']);
        assert(cc@ =~= seq!['.', 'c', 'c']);
        assert(cxx@ =~= seq!['.', 'c', 'x', 'x']);
        assert(cplus@ =~= seq!['.', 'c', '+', '+']);
    }
    ends_with_exec(&l, &c) || ends_with_exec(&l, &cpp) || ends_with_exec(&l, &cc) || ends_with_exec(
        &l,
        &cxx,
    ) || ends_with_exec(&l, &cplus)
}

// ---------------------------------------------------------------------------
// Extraction
// ---------------------------------------------------------------------------
/// The absolute paths of the source files named by a token list, in
/// first-seen order.
pub open spec fn source_files_of(tokens: Seq<Seq<char>>, dir: Seq<char>) -> Seq<Seq<char>>
    decreases tokens.len(),
{
    if tokens.len() == 0 {
        Seq::empty()
    } else {
        let clean = strip_quotes(tokens[0]);
        let rest = source_files_of(tokens.drop_first(), dir);
        if is_source_token(clean) {
            seq![join_path(dir, clean)] + rest
        } else {
            rest
        }
    }
}

/// The absolute paths of the source files named by a command line, resolved
/// against the working directory, in first-seen order.
pub open spec fn extract_sources(command: Seq<char>, dir: Seq<char>) -> Seq<Seq<char>> {
    source_files_of(tokenize(command), dir)
}

/// Walks the arguments of an expanded command line and returns, in order,
/// every argument that names a native source file, as an absolute path.
pub fn extract_all_source_files(command: &Vec<char>, working_dir: &Vec<char>) -> (files: Vec<
    Vec<char>,
>)
    ensures
        files.deep_view() == extract_sources(command@, working_dir@),
{
    let tokens = parse_arguments(command);
    let mut files: Vec<Vec<char>> = Vec::new();
    let mut i: usize = 0;
    proof {
        assert(tokens.deep_view().skip(0) =~~= tokens.deep_view());
        assert(Seq::<Seq<char>>::empty() + source_files_of(tokens.deep_view(), working_dir@)
            =~~= source_files_of(tokens.deep_view(), working_dir@));
    }
    while i < tokens.len()
        invariant
            i <= tokens.len(),
            tokens.deep_view() == tokenize(command@),
            extract_sources(command@, working_dir@) == files.deep_view() + source_files_of(
                tokens.deep_view().skip(i as int),
                working_dir@,
            ),
        decreases tokens.len() - i,
    {
        let ghost rest = tokens.deep_view().skip(i as int);
        proof {
            assert(rest.len() > 0);
            assert(rest[0] == tokens.deep_view()[i as int]);
            assert(tokens.deep_view()[i as int] == tokens@[i as int]@);
            assert(rest.drop_first() =~= tokens.deep_view().skip(i as int + 1));
        }
        let clean = strip_quotes_exec(&tokens[i]);
        if is_source_token_exec(&clean) {
            let ghost old_files = files.deep_view();
            let full = join_path_exec(working_dir, &clean);
            let ghost full_view = full@;
            files.push(full);
            proof {
                assert(files.deep_view() =~~= old_files.push(full_view));
                assert(old_files + (seq![full_view] + source_files_of(
                    rest.drop_first(),
                    working_dir@,
                )) =~~= files.deep_view() + source_files_of(rest.drop_first(), working_dir@));
            }
        }
        i = i + 1;
    }
    proof {
        assert(tokens.deep_view().skip(tokens.deep_view().len() as int) =~= Seq::<
            Seq<char>,
        >::empty());
        assert(files.deep_view() + Seq::<Seq<char>>::empty() =~~= files.deep_view());
    }
    files
}

} // verus!
