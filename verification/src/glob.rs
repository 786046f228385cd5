//! Glob-style process-name matching: `*` matches any run of characters,
//! `?` matches exactly one character, every other character matches itself,
//! case-insensitively (ASCII folding), anchored at both ends.

use vstd::prelude::*;

use crate::text::{fold_chars, fold_vec};

verus! {

/// Anchored glob matching over already-folded character sequences.
pub open spec fn glob_match(p: Seq<char>, s: Seq<char>) -> bool
    decreases p.len() + s.len(),
{
    if p.len() == 0 {
        s.len() == 0
    } else if p[0] == '*' {
        glob_match(p.drop_first(), s) || (s.len() > 0 && glob_match(p, s.drop_first()))
    } else if p[0] == '?' {
        s.len() > 0 && glob_match(p.drop_first(), s.drop_first())
    } else {
        s.len() > 0 && s[0] == p[0] && glob_match(p.drop_first(), s.drop_first())
    }
}

/// A process name satisfies a pattern when the folded name matches the
/// folded pattern.
pub open spec fn pattern_matches(pattern: Seq<char>, name: Seq<char>) -> bool {
    glob_match(fold_chars(pattern), fold_chars(name))
}

/// Recursive worker: does the pattern suffix starting at `i` match the
/// subject suffix starting at `j`?
fn glob_match_at(p: &Vec<char>, i: usize, s: &Vec<char>, j: usize) -> (r: bool)
    requires
        i <= p.len(),
        j <= s.len(),
    ensures
        r == glob_match(
            p@.subrange(i as int, p@.len() as int),
            s@.subrange(j as int, s@.len() as int),
        ),
    decreases p.len() - i + s.len() - j,
{
    let ghost ps = p@.subrange(i as int, p@.len() as int);
    let ghost ss = s@.subrange(j as int, s@.len() as int);
    if i == p.len() {
        assert(ps.len() == 0);
        j == s.len()
    } else {
        assert(ps[0] == p@[i as int]);
        assert(ps.drop_first() =~= p@.subrange(i as int + 1, p@.len() as int));
        assert(ss.len() > 0 ==> ss.drop_first() =~= s@.subrange(j as int + 1, s@.len() as int));
        let c = p[i];
        if c == '*' {
            if glob_match_at(p, i + 1, s, j) {
                true
            } else if j < s.len() {
                glob_match_at(p, i, s, j + 1)
            } else {
                false
            }
        } else if c == '?' {
            j < s.len() && glob_match_at(p, i + 1, s, j + 1)
        } else {
            assert(ss.len() > 0 ==> ss[0] == s@[j as int]);
            j < s.len() && s[j] == c && glob_match_at(p, i + 1, s, j + 1)
        }
    }
}

/// A compiled process-name pattern.  Construction never fails: every glob
/// string is meaningful (`*`, `?`, and literal characters need no escaping
/// here), so an invalid-pattern configuration error cannot arise.
pub struct Pattern {
    folded: Vec<char>,
    source: Ghost<Seq<char>>,
}

impl Pattern {
    /// The glob string the pattern was compiled from.
    pub closed spec fn view(&self) -> Seq<char> {
        self.source@
    }

    pub closed spec fn wf(&self) -> bool {
        self.folded@ == fold_chars(self.source@)
    }

    /// Compiles a glob string; the pattern remembers the ASCII-folded form.
    pub fn new(pattern: &Vec<char>) -> (p: Pattern)
        ensures
            p@ == pattern@,
            p.wf(),
    {
        Pattern { folded: fold_vec(pattern), source: Ghost(pattern@) }
    }

    /// Anchored, case-insensitive test of a process name against the pattern.
    pub fn matches(&self, name: &Vec<char>) -> (r: bool)
        requires
            self.wf(),
        ensures
            r == pattern_matches(self@, name@),
    {
        let folded_name = fold_vec(name);
        proof {
            assert(self.folded@.subrange(0, self.folded@.len() as int) =~= self.folded@);
            assert(folded_name@.subrange(0, folded_name@.len() as int) =~= folded_name@);
        }
        glob_match_at(&self.folded, 0, &folded_name, 0)
    }
}

} // verus!
