//! Sources of the random words that rolls are made with.

use rand::rngs::StdRng;
use rand::RngExt;
use vstd::prelude::*;

verus! {

#[verifier::external_type_specification]
#[verifier::external_body]
pub struct ExStdRng(rand::rngs::StdRng);

/// Calls `rand::make_rng::<StdRng>()`, which seeds a `StdRng` from the
/// thread-local generator.  Nothing is claimed of the generator's state.
#[verifier::external_body]
fn seeded_std_rng() -> StdRng {
    rand::make_rng::<StdRng>()
}

/// Calls `RngExt::random::<u64>()` on a `StdRng`, which returns the
/// generator's next 64-bit word.  Nothing is claimed of the word: any
/// value may come back.
#[verifier::external_body]
fn next_word(rng: &mut StdRng) -> u64 {
    rng.random::<u64>()
}

/// A source of random 64-bit words.  `drawn` is the sequence of every word
/// the source has handed out so far.
pub trait DrawSource {
    spec fn drawn(&self) -> Seq<u64>;

    fn next_draw(&mut self) -> (w: u64)
        ensures
            final(self).drawn() == old(self).drawn().push(w),
    ;
}

/// Words drawn from a `StdRng` seeded from the thread-local generator.
pub struct RandomDraws {
    rng: StdRng,
    log: Ghost<Seq<u64>>,
}

impl RandomDraws {
    /// A fresh, randomly seeded source that has drawn nothing yet.
    pub fn new() -> (r: Self)
        ensures
            r.drawn() == Seq::<u64>::empty(),
    {
        RandomDraws { rng: seeded_std_rng(), log: Ghost(Seq::empty()) }
    }
}

impl DrawSource for RandomDraws {
    closed spec fn drawn(&self) -> Seq<u64> {
        self.log@
    }

    fn next_draw(&mut self) -> (w: u64) {
        let w = next_word(&mut self.rng);
        proof {
            self.log@ = self.log@.push(w);
        }
        w
    }
}

/// Words taken from a fixed script, in order; once the script is used up
/// every further word is `u64::MAX`, which fails every roll except one
/// against a certain chance.
pub struct ScriptedDraws {
    words: Vec<u64>,
    progress: Progress,
}

/// How far a scripted source has got: the index of its next scripted word,
/// and every word it has handed out.
struct Progress {
    next: usize,
    log: Ghost<Seq<u64>>,
}

impl ScriptedDraws {
    /// The position of the next scripted word: the number of words drawn,
    /// until the script is used up.
    #[verifier::type_invariant]
    spec fn follows_script(self) -> bool {
        &&& self.progress.next <= self.words@.len()
        &&& self.progress.next == if self.progress.log@.len() < self.words@.len() {
            self.progress.log@.len()
        } else {
            self.words@.len()
        }
    }

    /// A source that hands out `words` in order.
    pub fn new(words: Vec<u64>) -> (r: Self)
        ensures
            r.drawn() == Seq::<u64>::empty(),
            r.script() == words@,
    {
        ScriptedDraws { words, progress: Progress { next: 0, log: Ghost(Seq::empty()) } }
    }

    /// The script this source hands out.
    pub closed spec fn script(&self) -> Seq<u64> {
        self.words@
    }

    /// The word the source hands out after having handed out `drawn`: the
    /// script's word at that position, or `u64::MAX` past the script's end.
    pub open spec fn scripted_word(script: Seq<u64>, drawn: nat) -> u64 {
        if drawn < script.len() {
            script[drawn as int]
        } else {
            u64::MAX
        }
    }
}

impl DrawSource for ScriptedDraws {
    closed spec fn drawn(&self) -> Seq<u64> {
        self.progress.log@
    }

    fn next_draw(&mut self) -> (w: u64)
        ensures
            final(self).script() == old(self).script(),
            w == ScriptedDraws::scripted_word(old(self).script(), old(self).drawn().len()),
    {
        proof {
            use_type_invariant(&*self);
        }
        let i = self.progress.next;
        let w = if i < self.words.len() {
            self.words[i]
        } else {
            u64::MAX
        };
        let ghost log = self.progress.log@.push(w);
        let next = if i < self.words.len() {
            i + 1
        } else {
            i
        };
        self.progress = Progress { next, log: Ghost(log) };
        w
    }
}

} // verus!
