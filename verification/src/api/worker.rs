//! Generating candidates elsewhere: which work is still wanted, and what it gives.

use vstd::prelude::*;

use crate::candidates::{
    self, generate_candidates, generate_candidates_from_lattice, generate_prediction_candidates,
    generate_prediction_candidates_from_lattice, CandidateResponse, CandidateView, Lexicon,
};
use crate::converter::lattice::{Lattice, LatticeView};
use crate::dict::connection::ConnectionMatrix;
use crate::dict::{Dictionary, TrieDictionary};
use crate::user_history::UserHistory;

verus! {

/// Counts requests. Work of an earlier generation than the last is stale.
pub struct Generation {
    current: u64,
}

impl Generation {
    pub closed spec fn view(&self) -> u64 {
        self.current
    }

    pub fn new() -> (r: Self)
        ensures
            r.view() == 0,
    {
        Generation { current: 0 }
    }

    pub fn current(&self) -> (r: u64)
        ensures
            r == self.view(),
    {
        self.current
    }

    /// Makes all work so far stale; returns the generation of the work to come.
    pub fn advance(&mut self) -> (r: u64)
        ensures
            final(self).view() == after(old(self).view()),
            r == final(self).view(),
    {
        self.current = if self.current == u64::MAX {
            0
        } else {
            self.current + 1
        };
        self.current
    }

    /// Whether work of a generation is still wanted.
    pub fn is_current(&self, generation: u64) -> (r: bool)
        ensures
            r == (generation == self.view()),
    {
        generation == self.current
    }
}

/// The generation after another.
pub open spec fn after(g: u64) -> u64 {
    if g == u64::MAX {
        0
    } else {
        (g + 1) as u64
    }
}

/// Work that was wanted is stale once another request is made.
pub proof fn new_requests_make_old_work_stale(g: u64)
    ensures
        after(g) != g,
{
}

/// Work: a reading, how its candidates are generated, and its lattice, if it is
/// built already. The lattice's own reading counts where there is one.
pub struct CandidateWork {
    pub reading: String,
    pub dispatch: u8,
    pub generation: u64,
    pub lattice: Option<Lattice>,
}

impl CandidateWork {
    /// Whether the lattice, if there is one, is one.
    pub open spec fn wf(&self) -> bool {
        self.lattice is Some ==> self.lattice->0@.wf()
    }

    /// The reading that counts.
    pub open spec fn subject(&self) -> Seq<char> {
        match self.lattice {
            Some(l) => l.input@,
            None => self.reading@,
        }
    }
}

/// Candidates, with the reading that they are for.
pub struct CandidateResult {
    pub reading: String,
    pub response: CandidateResponse,
}

/// The last of the work that is queued; what is before it is not wanted any more.
pub fn newest(queue: Vec<CandidateWork>) -> (r: Option<CandidateWork>)
    ensures
        r is None <==> queue@.len() == 0,
        r is Some ==> r->0 == queue@.last(),
{
    let mut queue = queue;
    queue.pop()
}

/// The candidates that a dispatch number stands for.
pub open spec fn dispatched(
    lex: Lexicon,
    dispatch: u8,
    reading: Seq<char>,
    max_results: nat,
) -> CandidateView {
    if dispatch == 1 {
        candidates::prediction_candidates(lex, reading, max_results)
    } else {
        candidates::candidates(lex, reading, max_results)
    }
}

/// The candidates that a dispatch number stands for, from a lattice.
pub open spec fn dispatched_in(
    lex: Lexicon,
    l: LatticeView,
    dispatch: u8,
    reading: Seq<char>,
    max_results: nat,
) -> CandidateView {
    if dispatch == 1 {
        candidates::prediction_candidates_in(lex, l, reading, max_results)
    } else {
        candidates::candidates_in(lex, l, reading, max_results)
    }
}

/// Does work.
pub fn generate(
    dict: &TrieDictionary,
    conn: Option<&ConnectionMatrix>,
    history: Option<&UserHistory>,
    work: CandidateWork,
    max_results: usize,
) -> (r: CandidateResult)
    requires
        dict.valid(),
        work.wf(),
    ensures
        r.reading@ == work.subject(),
        r.response@ == match work.lattice {
            Some(l) => dispatched_in(
                candidates::lexicon(dict, conn, history),
                l@,
                work.dispatch,
                work.subject(),
                max_results as nat,
            ),
            None => dispatched(
                candidates::lexicon(dict, conn, history),
                work.dispatch,
                work.subject(),
                max_results as nat,
            ),
        },
{
    match work.lattice {
        Some(l) => {
            let response = if work.dispatch == 1 {
                generate_prediction_candidates_from_lattice(&l, dict, conn, history, max_results)
            } else {
                generate_candidates_from_lattice(&l, dict, conn, history, max_results)
            };
            CandidateResult { reading: l.input, response }
        },
        None => {
            let reading = work.reading.as_str();
            let response = if work.dispatch == 1 {
                generate_prediction_candidates(dict, conn, history, reading, max_results)
            } else {
                generate_candidates(dict, conn, history, reading, max_results)
            };
            CandidateResult { reading: work.reading, response }
        },
    }
}

} // verus!
