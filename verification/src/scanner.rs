//! Scan-loop bookkeeping: which `(process id, process name)` pairs have
//! already been handled in the current tracking window, which process
//! sightings call for a capture, and the periodic full reset that bounds
//! the memory of the known-process set.

use vstd::prelude::*;

use crate::glob::{Pattern, pattern_matches};
use crate::text::subvec;

verus! {

/// The known-process set is cleared outright when it grows past this many
/// entries; a bounded-memory trade-off, so deduplication is exact only
/// within one tracking window.
pub const TRACKING_WINDOW_LIMIT: usize = 10000;

/// One observation step: a key already known changes nothing and calls for
/// no capture; a fresh key is recorded and calls for one.
pub open spec fn spec_observe(s: Seq<(u32, Seq<char>)>, k: (u32, Seq<char>)) -> (Seq<
    (u32, Seq<char>),
>, bool) {
    if s.contains(k) {
        (s, false)
    } else {
        (s.push(k), true)
    }
}

/// How many of a run of observations, starting from the known set `s`,
/// call for a capture of the key `k`.
pub open spec fn capture_count(
    s: Seq<(u32, Seq<char>)>,
    keys: Seq<(u32, Seq<char>)>,
    k: (u32, Seq<char>),
) -> nat
    decreases keys.len(),
{
    if keys.len() == 0 {
        0
    } else {
        let step = spec_observe(s, keys[0]);
        (if step.1 && keys[0] == k {
            1 as nat
        } else {
            0 as nat
        }) + capture_count(step.0, keys.drop_first(), k)
    }
}

proof fn lemma_no_capture_when_known(
    s: Seq<(u32, Seq<char>)>,
    keys: Seq<(u32, Seq<char>)>,
    k: (u32, Seq<char>),
)
    requires
        s.contains(k),
    ensures
        capture_count(s, keys, k) == 0,
    decreases keys.len(),
{
    if keys.len() > 0 {
        let step = spec_observe(s, keys[0]);
        if !s.contains(keys[0]) {
            let i = choose|i: int| 0 <= i < s.len() && s[i] == k;
            assert(s.push(keys[0])[i] == k);
            assert(step.0.contains(k));
        }
        lemma_no_capture_when_known(step.0, keys.drop_first(), k);
    }
}

/// Within one tracking window — that is, with no reset in between — any
/// one `(process id, process name)` key is captured at most once, however
/// many times it is observed.
pub proof fn lemma_capture_at_most_once(
    s: Seq<(u32, Seq<char>)>,
    keys: Seq<(u32, Seq<char>)>,
    k: (u32, Seq<char>),
)
    ensures
        capture_count(s, keys, k) <= 1,
    decreases keys.len(),
{
    if keys.len() > 0 {
        let step = spec_observe(s, keys[0]);
        if step.1 && keys[0] == k {
            assert(step.0 == s.push(k));
            assert(step.0[s.len() as int] == k);
            assert(step.0.contains(k));
            lemma_no_capture_when_known(step.0, keys.drop_first(), k);
        } else {
            lemma_capture_at_most_once(step.0, keys.drop_first(), k);
        }
    }
}

/// The `(process id, process name)` pairs already handled in the current
/// tracking window, in first-seen order and without duplicates.
pub struct KnownProcesses {
    keys: Vec<(u32, Vec<char>)>,
}

impl KnownProcesses {
    pub closed spec fn view(&self) -> Seq<(u32, Seq<char>)> {
        self.keys.deep_view()
    }

    pub fn new() -> (s: KnownProcesses)
        ensures
            s@ == Seq::<(u32, Seq<char>)>::empty(),
    {
        let s = KnownProcesses { keys: Vec::new() };
        proof {
            assert(s@ =~~= Seq::<(u32, Seq<char>)>::empty());
        }
        s
    }

    pub fn len(&self) -> (n: usize)
        ensures
            n == self@.len(),
    {
        self.keys.len()
    }

    /// Is the pair already known?
    pub fn contains(&self, pid: u32, name: &Vec<char>) -> (r: bool)
        ensures
            r == self@.contains((pid, name@)),
    {
        let mut i: usize = 0;
        while i < self.keys.len()
            invariant
                i <= self.keys.len(),
                forall|m: int| 0 <= m < i ==> self@[m] != (pid, name@),
            decreases self.keys.len() - i,
        {
            proof {
                assert(self@[i as int] == (self.keys@[i as int].0, self.keys@[i as int].1@));
            }
            if self.keys[i].0 == pid && crate::text::chars_eq(&self.keys[i].1, name) {
                assert(self@.contains((pid, name@)));
                return true;
            }
            i = i + 1;
        }
        proof {
            if self@.contains((pid, name@)) {
                let m = choose|m: int| 0 <= m < self@.len() && self@[m] == (pid, name@);
                assert(self@[m] != (pid, name@));
            }
        }
        false
    }

    /// Records a sighting.  The answer says whether the pair was fresh —
    /// that is, whether this sighting calls for a capture attempt.
    pub fn observe(&mut self, pid: u32, name: &Vec<char>) -> (fresh: bool)
        ensures
            fresh == spec_observe(old(self)@, (pid, name@)).1,
            final(self)@ == spec_observe(old(self)@, (pid, name@)).0,
    {
        if self.contains(pid, name) {
            false
        } else {
            let copy = subvec(name, 0, name.len());
            proof {
                assert(copy@ =~= name@);
            }
            let ghost old_view = self@;
            self.keys.push((pid, copy));
            proof {
                assert(self@ =~~= old_view.push((pid, name@)));
            }
            true
        }
    }

    /// The periodic full reset: when the set has outgrown the tracking
    /// window it is cleared entirely, accepting that a still-running,
    /// already-handled process may be captured again later.
    pub fn housekeep(&mut self)
        ensures
            old(self)@.len() > TRACKING_WINDOW_LIMIT ==> final(self)@ == Seq::<
                (u32, Seq<char>),
            >::empty(),
            old(self)@.len() <= TRACKING_WINDOW_LIMIT ==> final(self)@ == old(self)@,
    {
        if self.keys.len() > TRACKING_WINDOW_LIMIT {
            self.keys = Vec::new();
            proof {
                assert(self@ =~~= Seq::<(u32, Seq<char>)>::empty());
            }
        }
    }
}

/// The per-sighting decision of the scan loop: a process is captured when
/// its name satisfies the pattern and its `(pid, name)` key is fresh; a
/// matching key is recorded either way, so later sightings of the same
/// process are not captured again within the window.
pub struct Scanner {
    pattern: Pattern,
    known: KnownProcesses,
}

impl Scanner {
    pub closed spec fn wf(&self) -> bool {
        self.pattern.wf()
    }

    /// The glob the scanner filters process names with.
    pub closed spec fn pattern_view(&self) -> Seq<char> {
        self.pattern@
    }

    /// The known-process set.
    pub closed spec fn known_view(&self) -> Seq<(u32, Seq<char>)> {
        self.known@
    }

    pub fn new(pattern: &Vec<char>) -> (s: Scanner)
        ensures
            s.wf(),
            s.pattern_view() == pattern@,
            s.known_view() == Seq::<(u32, Seq<char>)>::empty(),
    {
        Scanner { pattern: Pattern::new(pattern), known: KnownProcesses::new() }
    }

    /// Decides one process sighting: answers whether to attempt a capture,
    /// and books the key when the name matches the pattern.
    pub fn should_capture(&mut self, pid: u32, name: &Vec<char>) -> (capture: bool)
        requires
            old(self).wf(),
        ensures
            final(self).wf(),
            final(self).pattern_view() == old(self).pattern_view(),
            capture == (pattern_matches(old(self).pattern_view(), name@) && spec_observe(
                old(self).known_view(),
                (pid, name@),
            ).1),
            pattern_matches(old(self).pattern_view(), name@) ==> final(self).known_view()
                == spec_observe(old(self).known_view(), (pid, name@)).0,
            !pattern_matches(old(self).pattern_view(), name@) ==> final(self).known_view() == old(
                self,
            ).known_view(),
    {
        if self.pattern.matches(name) {
            self.known.observe(pid, name)
        } else {
            false
        }
    }

    /// How many keys the current tracking window holds.
    pub fn known_len(&self) -> (n: usize)
        ensures
            n == self.known_view().len(),
    {
        self.known.len()
    }

    /// The end-of-tick reset that bounds the known-process set.
    pub fn housekeep(&mut self)
        requires
            old(self).wf(),
        ensures
            final(self).wf(),
            final(self).pattern_view() == old(self).pattern_view(),
            old(self).known_view().len() > TRACKING_WINDOW_LIMIT ==> final(self).known_view()
                == Seq::<(u32, Seq<char>)>::empty(),
            old(self).known_view().len() <= TRACKING_WINDOW_LIMIT ==> final(self).known_view()
                == old(self).known_view(),
    {
        self.known.housekeep();
    }
}

} // verus!
