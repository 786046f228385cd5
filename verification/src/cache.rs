//! Sequence numbering for the capture cache: capture records are named
//! `command_NNNNNN.json` and archived response files `response_NNNNNN.rsp`,
//! with six-digit, zero-padded, monotonically increasing numbers.  A writer
//! resumes after a restart by scanning the existing file names for the
//! highest number of each convention.

use vstd::prelude::*;

use crate::text::{append_chars, chars_of, string_from_chars};

verus! {

// ---------------------------------------------------------------------------
// Decimal digits
// ---------------------------------------------------------------------------
pub open spec fn digit_char(d: int) -> char {
    ((d + 48) as u8) as char
}

pub open spec fn is_digit(c: char) -> bool {
    '0' <= c && c <= '9'
}

/// The decimal digits of `n`, most significant first, no leading zeros
/// (a single `0` for zero).
pub open spec fn decimal_digits(n: nat) -> Seq<char>
    decreases n,
{
    if n < 10 {
        seq![digit_char(n as int)]
    } else {
        decimal_digits(n / 10).push(digit_char((n % 10) as int))
    }
}

pub open spec fn zeros(k: nat) -> Seq<char> {
    Seq::new(k, |i: int| '0')
}

/// The decimal digits of `n`, zero-padded on the left to at least six
/// characters.
pub open spec fn six_digits(n: nat) -> Seq<char> {
    let d = decimal_digits(n);
    if d.len() >= 6 {
        d
    } else {
        zeros((6 - d.len()) as nat) + d
    }
}

fn decimal_digits_exec(n: u64) -> (r: Vec<char>)
    ensures
        r@ == decimal_digits(n as nat),
    decreases n,
{
    if n < 10 {
        let d: u8 = (n % 10) as u8;
        let mut r: Vec<char> = Vec::new();
        r.push((d + 48) as char);
        proof {
            assert(r@ =~= seq![digit_char(n as int)]);
        }
        r
    } else {
        let mut r = decimal_digits_exec(n / 10);
        let d: u8 = (n % 10) as u8;
        r.push((d + 48) as char);
        proof {
            assert((d + 48) as char == digit_char((n % 10) as int));
        }
        r
    }
}

fn six_digits_exec(n: u64) -> (r: Vec<char>)
    ensures
        r@ == six_digits(n as nat),
{
    let digits = decimal_digits_exec(n);
    let mut r: Vec<char> = Vec::new();
    let mut k: usize = digits.len();
    while k < 6
        invariant
            digits@ == decimal_digits(n as nat),
            digits.len() <= k <= 6 || (digits.len() >= 6 && k == digits.len()),
            r@ == zeros((k - digits.len()) as nat),
        decreases 6 - k,
    {
        r.push('0');
        proof {
            assert(r@ =~= zeros((k + 1 - digits@.len()) as nat));
        }
        k = k + 1;
    }
    append_chars(&mut r, &digits);
    proof {
        if decimal_digits(n as nat).len() >= 6 {
            assert(r@ =~= digits@);
        }
    }
    r
}

// ---------------------------------------------------------------------------
// File names
// ---------------------------------------------------------------------------
/// `command_NNNNNN.json` for sequence number `n`.
pub open spec fn command_file_name(n: nat) -> Seq<char> {
    seq!['c', 'o', 'm', 'm', 'a', 'n', 'd', '_'] + six_digits(n) + seq!['.', 'j', 's', 'o', 'n']
}

/// `response_NNNNNN.rsp` for sequence number `n`.
pub open spec fn response_file_name(n: nat) -> Seq<char> {
    seq!['r', 'e', 's', 'p', 'o', 'n', 's', 'e', '_'] + six_digits(n) + seq!['.', 'r', 's', 'p']
}

/// The numeric value of a digit string, most significant first.
pub open spec fn digits_value(s: Seq<char>) -> nat
    decreases s.len(),
{
    if s.len() == 0 {
        0
    } else {
        digits_value(s.drop_last()) * 10 + ((s[s.len() - 1] as int - 48) as nat)
    }
}

/// Reads a sequence number out of a file name of the form
/// `<prefix><digits><suffix>`, with at least one digit; any other name
/// carries none.
pub open spec fn parse_numbered_name(name: Seq<char>, prefix: Seq<char>, suffix: Seq<char>) -> Option<
    nat,
> {
    if name.len() > prefix.len() + suffix.len() && name.take(prefix.len() as int) == prefix
        && name.skip(name.len() - suffix.len()) == suffix && (forall|m: int|
        prefix.len() <= m < name.len() - suffix.len() ==> is_digit(name[m])) {
        Some(digits_value(name.subrange(prefix.len() as int, name.len() - suffix.len())))
    } else {
        None
    }
}

/// What one name contributes when scanning for the highest number: its
/// value when it parses and fits a 64-bit counter, nothing otherwise.
pub open spec fn name_contribution(name: Seq<char>, prefix: Seq<char>, suffix: Seq<char>) -> nat {
    match parse_numbered_name(name, prefix, suffix) {
        Some(v) => if v <= u64::MAX { v } else { 0 },
        None => 0,
    }
}

/// The highest sequence number among `names`, 0 when none parses.
pub open spec fn highest_number(names: Seq<Seq<char>>, prefix: Seq<char>, suffix: Seq<char>) -> nat
    decreases names.len(),
{
    if names.len() == 0 {
        0
    } else {
        let cur = name_contribution(names[0], prefix, suffix);
        let rest = highest_number(names.drop_first(), prefix, suffix);
        if cur >= rest {
            cur
        } else {
            rest
        }
    }
}

proof fn lemma_digits_value_prefix_le(s: Seq<char>, k: int)
    requires
        0 <= k <= s.len(),
    ensures
        digits_value(s.take(k)) <= digits_value(s),
    decreases s.len() - k,
{
    if k == s.len() {
        assert(s.take(k) =~= s);
    } else {
        lemma_digits_value_prefix_le(s.drop_last(), k);
        assert(s.drop_last().take(k) =~= s.take(k));
    }
}

/// Parses `<prefix><digits><suffix>`; a number too large for a 64-bit
/// counter is treated like a name that does not parse.
fn parse_numbered_name_exec(name: &Vec<char>, prefix: &Vec<char>, suffix: &Vec<char>) -> (r: Option<
    u64,
>)
    ensures
        match parse_numbered_name(name@, prefix@, suffix@) {
            Some(v) => if v <= u64::MAX {
                r == Some(v as u64)
            } else {
                r is None
            },
            None => r is None,
        },
{
    if name.len() <= prefix.len() || name.len() - prefix.len() <= suffix.len() {
        return None;
    }
    // prefix
    let mut m: usize = 0;
    while m < prefix.len()
        invariant
            m <= prefix.len(),
            prefix.len() + suffix.len() < name.len(),
            forall|t: int| 0 <= t < m ==> name@[t] == prefix@[t],
        decreases prefix.len() - m,
    {
        if name[m] != prefix[m] {
            proof {
                assert(name@.take(prefix@.len() as int)[m as int] != prefix@[m as int]);
            }
            return None;
        }
        m = m + 1;
    }
    proof {
        assert(name@.take(prefix@.len() as int) =~= prefix@);
    }
    // suffix
    let base: usize = name.len() - suffix.len();
    let mut t: usize = 0;
    while t < suffix.len()
        invariant
            t <= suffix.len(),
            base == name.len() - suffix.len(),
            prefix.len() + suffix.len() < name.len(),
            forall|u: int| 0 <= u < t ==> name@[base + u] == suffix@[u],
        decreases suffix.len() - t,
    {
        if name[base + t] != suffix[t] {
            proof {
                assert(name@.skip(base as int)[t as int] != suffix@[t as int]);
            }
            return None;
        }
        t = t + 1;
    }
    proof {
        assert(name@.skip(base as int) =~= suffix@);
    }
    // digits
    let ghost digits = name@.subrange(prefix@.len() as int, base as int);
    let mut value: u64 = 0;
    let mut k: usize = prefix.len();
    while k < base
        invariant
            prefix.len() <= k <= base,
            base == name.len() - suffix.len(),
            prefix.len() + suffix.len() < name.len(),
            digits == name@.subrange(prefix@.len() as int, base as int),
            forall|u: int| prefix@.len() <= u < k ==> is_digit(name@[u]),
            value == digits_value(digits.take(k - prefix@.len())),
        decreases base - k,
    {
        let c = name[k];
        if !('0' <= c && c <= '9') {
            return None;
        }
        let d: u64 = (c as u32 - 48) as u64;
        proof {
            assert(digits.take(k + 1 - prefix@.len()).drop_last() =~= digits.take(
                k - prefix@.len(),
            ));
            assert(digits.take(k + 1 - prefix@.len())[k - prefix@.len()] == name@[k as int]);
        }
        if value > (u64::MAX - d) / 10 {
            // the number cannot fit a 64-bit counter
            proof {
                lemma_digits_value_prefix_le(digits, k + 1 - prefix@.len());
                assert(digits_value(digits.take(k + 1 - prefix@.len())) == value * 10 + d);
                assert(digits_value(digits) > u64::MAX);
            }
            return None;
        }
        value = value * 10 + d;
        k = k + 1;
    }
    proof {
        assert(digits.take(base - prefix@.len()) =~= digits);
        assert(parse_numbered_name(name@, prefix@, suffix@) == Some(digits_value(digits)));
    }
    Some(value)
}

fn command_prefix() -> (r: Vec<char>)
    ensures
        r@ =~= seq!['c', 'o', 'm', 'm', 'a', 'n', 'd', '_'],
{
    let r: Vec<char> = vec!['c', 'o', 'm', 'm', 'a', 'n', 'd', '_'];
    r
}

fn response_prefix() -> (r: Vec<char>)
    ensures
        r@ =~= seq!['r', 'e', 's', 'p', 'o', 'n', 's', 'e', '_'],
{
    let r: Vec<char> = vec!['r', 'e', 's', 'p', 'o', 'n', 's', 'e', '_'];
    r
}

fn json_suffix() -> (r: Vec<char>)
    ensures
        r@ =~= seq!['.', 'j', 's', 'o', 'n'],
{
    let r: Vec<char> = vec!['.', 'j', 's', 'o', 'n'];
    r
}

fn rsp_suffix() -> (r: Vec<char>)
    ensures
        r@ =~= seq!['.', 'r', 's', 'p'],
{
    let r: Vec<char> = vec!['.', 'r', 's', 'p'];
    r
}

/// The highest sequence number that any of `names` carries under the given
/// convention.
fn highest_number_exec(names: &Vec<String>, prefix: &Vec<char>, suffix: &Vec<char>) -> (r: u64)
    ensures
        r == highest_number(names.deep_view(), prefix@, suffix@),
{
    let mut r: u64 = 0;
    let mut i: usize = 0;
    proof {
        assert(names.deep_view().skip(0) =~~= names.deep_view());
    }
    while i < names.len()
        invariant
            i <= names.len(),
            highest_number(names.deep_view(), prefix@, suffix@) == if r as nat >= highest_number(
                names.deep_view().skip(i as int),
                prefix@,
                suffix@,
            ) {
                r as nat
            } else {
                highest_number(names.deep_view().skip(i as int), prefix@, suffix@)
            },
        decreases names.len() - i,
    {
        let ghost rest = names.deep_view().skip(i as int);
        proof {
            assert(rest.len() > 0);
            assert(rest[0] == names.deep_view()[i as int]);
            assert(names.deep_view()[i as int] == names@[i as int]@);
            assert(rest.drop_first() =~~= names.deep_view().skip(i as int + 1));
        }
        let name_chars = chars_of(names[i].as_str());
        match parse_numbered_name_exec(&name_chars, prefix, suffix) {
            Some(v) => {
                if v > r {
                    r = v;
                }
            },
            None => {},
        }
        i = i + 1;
    }
    proof {
        assert(names.deep_view().skip(names@.len() as int) =~~= Seq::<Seq<char>>::empty());
    }
    r
}

// ---------------------------------------------------------------------------
// The writer
// ---------------------------------------------------------------------------
/// Owns the two persisted sequence counters.  Constructed from the file
/// names already in the cache directory, so that numbering resumes after a
/// restart without a separate index file.
pub struct CacheWriter {
    command_counter: u64,
    response_counter: u64,
}

impl CacheWriter {
    /// The number of the most recently named capture record.
    pub closed spec fn command_count(&self) -> u64 {
        self.command_counter
    }

    /// The number of the most recently named response-file archive.
    pub closed spec fn response_count(&self) -> u64 {
        self.response_counter
    }

    /// Resumes numbering from the highest numbers the given cache file
    /// names carry under the two naming conventions.
    pub fn new(names: &Vec<String>) -> (w: CacheWriter)
        ensures
            w.command_count() == highest_number(
                names.deep_view(),
                seq!['c', 'o', 'm', 'm', 'a', 'n', 'd', '_'],
                seq!['.', 'j', 's', 'o', 'n'],
            ),
            w.response_count() == highest_number(
                names.deep_view(),
                seq!['r', 'e', 's', 'p', 'o', 'n', 's', 'e', '_'],
                seq!['.', 'r', 's', 'p'],
            ),
    {
        let cp = command_prefix();
        let js = json_suffix();
        let rp = response_prefix();
        let rs = rsp_suffix();
        CacheWriter {
            command_counter: highest_number_exec(names, &cp, &js),
            response_counter: highest_number_exec(names, &rp, &rs),
        }
    }

    /// The current capture-record counter.
    pub fn command_counter_value(&self) -> (n: u64)
        ensures
            n == self.command_count(),
    {
        self.command_counter
    }

    /// The current response-archive counter.
    pub fn response_counter_value(&self) -> (n: u64)
        ensures
            n == self.response_count(),
    {
        self.response_counter
    }

    /// Takes the next capture-record number and returns its file name.
    pub fn next_command_name(&mut self) -> (name: String)
        requires
            old(self).command_count() < u64::MAX,
        ensures
            final(self).command_count() == old(self).command_count() + 1,
            final(self).response_count() == old(self).response_count(),
            name@ == command_file_name((old(self).command_count() + 1) as nat),
    {
        self.command_counter = self.command_counter + 1;
        let mut chars = command_prefix();
        let digits = six_digits_exec(self.command_counter);
        append_chars(&mut chars, &digits);
        let suffix = json_suffix();
        append_chars(&mut chars, &suffix);
        string_from_chars(&chars)
    }

    /// Takes the next response-archive number and returns its file name.
    pub fn next_response_name(&mut self) -> (name: String)
        requires
            old(self).response_count() < u64::MAX,
        ensures
            final(self).response_count() == old(self).response_count() + 1,
            final(self).command_count() == old(self).command_count(),
            name@ == response_file_name((old(self).response_count() + 1) as nat),
    {
        self.response_counter = self.response_counter + 1;
        let mut chars = response_prefix();
        let digits = six_digits_exec(self.response_counter);
        append_chars(&mut chars, &digits);
        let suffix = rsp_suffix();
        append_chars(&mut chars, &suffix);
        string_from_chars(&chars)
    }
}

} // verus!
