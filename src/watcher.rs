//! The decisions of the polling loop: whether a new text is to be processed,
//! and the batch report of what became of each block.
use vstd::prelude::*;
use crate::applier::ApplyError;
use crate::extractor::{blocks_view, extract_counting, extracted, skipped, ParsedBlock};
use crate::text::{chars_of, has_prefix, same_chars, starts_with};

verus! {

/// The last text the watcher has seen; owned by one watcher.
pub struct WatcherState {
    last_seen: Option<String>,
}

impl View for WatcherState {
    type V = Option<Seq<char>>;

    closed spec fn view(&self) -> Option<Seq<char>> {
        match self.last_seen {
            Some(s) => Some(s@),
            None => None,
        }
    }
}

/// What to do with a text read in one cycle.
pub enum PollDecision {
    /// The text is the one seen last.
    Unchanged,
    /// The text changed but does not begin with the marker.
    NoMarker,
    /// The text changed and begins with the marker: apply these blocks; the
    /// number is how many fenced regions were skipped for want of a name.
    Process(Vec<ParsedBlock>, usize),
}

impl WatcherState {
    /// A watcher that has seen nothing yet.
    pub fn new() -> (r: WatcherState)
        ensures
            r@ is None,
    {
        WatcherState { last_seen: None }
    }

    /// Decides what to do with the text read in this cycle, and remembers it.
    /// A changed text is remembered whatever becomes of its blocks, so the
    /// same text is never processed twice in a row.
    pub fn observe(&mut self, text: &str, marker: &str) -> (d: PollDecision)
        ensures
            old(self)@ == Some(text@) ==> d is Unchanged && final(self)@ == old(self)@,
            old(self)@ != Some(text@) ==> final(self)@ == Some(text@),
            old(self)@ != Some(text@) && starts_with(text@, marker@) ==> (d matches PollDecision::Process(
                bs,
                n,
            ) && blocks_view(bs@) == extracted(text@) && n == skipped(text@)),
            old(self)@ != Some(text@) && !starts_with(text@, marker@) ==> d is NoMarker,
    {
        let t = chars_of(text);
        let same = match &self.last_seen {
            Some(s) => {
                let sc = chars_of(s.as_str());
                same_chars(&sc, &t)
            },
            None => false,
        };
        if same {
            return PollDecision::Unchanged;
        }
        self.last_seen = Some(text.to_owned());
        let m = chars_of(marker);
        if has_prefix(&t, &m) {
            let (blocks, dropped) = extract_counting(text);
            PollDecision::Process(blocks, dropped)
        } else {
            PollDecision::NoMarker
        }
    }
}

/// What became of one block.
pub struct BlockOutcome {
    pub filename: String,
    pub error: Option<ApplyError>,
}

/// How many outcomes are successes.
pub open spec fn applied_in(os: Seq<BlockOutcome>) -> nat
    decreases os.len(),
{
    if os.len() == 0 {
        0
    } else {
        applied_in(os.drop_last()) + if os.last().error is None {
            1nat
        } else {
            0nat
        }
    }
}

/// The per-block outcomes of one cycle, in the order the blocks were applied.
pub struct BatchReport {
    pub outcomes: Vec<BlockOutcome>,
}

impl BatchReport {
    /// An empty report.
    pub fn new() -> (r: BatchReport)
        ensures
            r.outcomes@.len() == 0,
    {
        BatchReport { outcomes: Vec::new() }
    }

    /// Records the outcome of the next block.
    pub fn record(&mut self, filename: String, error: Option<ApplyError>)
        ensures
            final(self).outcomes@ == old(self).outcomes@.push(BlockOutcome { filename, error }),
    {
        self.outcomes.push(BlockOutcome { filename, error });
    }

    /// The number of blocks applied.
    pub fn applied_count(&self) -> (r: usize)
        ensures
            r == applied_in(self.outcomes@),
    {
        let mut n: usize = 0;
        let mut k: usize = 0;
        while k < self.outcomes.len()
            invariant
                k <= self.outcomes@.len(),
                n == applied_in(self.outcomes@.subrange(0, k as int)),
                n <= k,
            decreases self.outcomes@.len() - k,
        {
            assert(self.outcomes@.subrange(0, k + 1).drop_last() =~= self.outcomes@.subrange(0, k as int));
            if self.outcomes[k].error.is_none() {
                n += 1;
            }
            k += 1;
        }
        assert(self.outcomes@.subrange(0, k as int) =~= self.outcomes@);
        n
    }

    /// The number of blocks that failed.
    pub fn failed_count(&self) -> (r: usize)
        ensures
            r == self.outcomes@.len() - applied_in(self.outcomes@),
    {
        let a = self.applied_count();
        proof {
            lemma_applied_at_most(self.outcomes@);
        }
        self.outcomes.len() - a
    }
}

/// No more outcomes are successes than there are outcomes.
proof fn lemma_applied_at_most(os: Seq<BlockOutcome>)
    ensures
        applied_in(os) <= os.len(),
    decreases os.len(),
{
    if os.len() > 0 {
        lemma_applied_at_most(os.drop_last());
    }
}

} // verus!
