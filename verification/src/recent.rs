//! The most recently formed matches, kept for inspection.
use crate::player::{Match, MatchView};
use std::collections::VecDeque;
use vstd::prelude::*;

verus! {

/// The last `n` of `all`, or all of it where it has fewer.
pub open spec fn last_of<A>(all: Seq<A>, n: int) -> Seq<A> {
    if all.len() <= n {
        all
    } else {
        all.skip(all.len() - n)
    }
}

/// A log of matches that forgets the oldest when it is full.
pub struct RecentLog {
    keep: usize,
    matches: VecDeque<Match>,
}

impl View for RecentLog {
    type V = Seq<MatchView>;

    closed spec fn view(&self) -> Seq<MatchView> {
        self.matches@.map_values(|m: Match| m@)
    }
}

impl RecentLog {
    pub closed spec fn wf(self) -> bool {
        self.matches@.len() <= self.keep
    }

    /// How many matches the log keeps.
    pub closed spec fn capacity(self) -> usize {
        self.keep
    }

    /// An empty log that will keep `keep` matches.
    pub fn new(keep: usize) -> (log: Self)
        ensures
            log.wf(),
            log.capacity() == keep,
            log@ == Seq::<MatchView>::empty(),
    {
        let log = RecentLog { keep, matches: VecDeque::new() };
        assert(log@ =~= Seq::empty());
        log
    }

    /// Appends a match, and forgets the oldest one where the log is full. A log that
    /// keeps nothing stays empty.
    pub fn push(&mut self, formed: Match)
        requires
            old(self).wf(),
        ensures
            final(self).wf(),
            final(self).capacity() == old(self).capacity(),
            final(self)@ == last_of(old(self)@.push(formed@), old(self).capacity() as int),
    {
        if self.keep > 0 {
            if self.matches.len() >= self.keep {
                self.matches.pop_front();
            }
            self.matches.push_back(formed);
        }
        assert(self@ =~= last_of(old(self)@.push(formed@), old(self).capacity() as int));
    }

    /// A copy of the matches, the oldest first.
    pub fn to_vec(&self) -> (matches: Vec<Match>)
        ensures
            matches@.map_values(|m: Match| m@) == self@,
    {
        let mut copy: Vec<Match> = Vec::new();
        let mut i: usize = 0;
        while i < self.matches.len()
            invariant
                i <= self.matches@.len(),
                copy@.len() == i,
                forall|x: int| 0 <= x < i ==> (#[trigger] copy@[x])@ == self.matches@[x]@,
            decreases self.matches@.len() - i,
        {
            copy.push(self.matches[i].clone());
            i = i + 1;
        }
        assert(copy@.map_values(|m: Match| m@) =~= self@);
        copy
    }
}

/// The log always holds the last matches of the whole history, as many as it keeps:
/// forgetting early loses nothing that would be kept.
pub proof fn law_log_is_the_end_of_history(history: Seq<MatchView>, keep: int, formed: MatchView)
    requires
        keep >= 0,
    ensures
        last_of(last_of(history, keep).push(formed), keep) == last_of(history.push(formed), keep),
        last_of(history, keep).len() <= keep,
{
    assert(last_of(last_of(history, keep).push(formed), keep) =~= last_of(
        history.push(formed),
        keep,
    ));
}

} // verus!
