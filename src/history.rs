//! The recent messages of one conversation, newest first, and the search for
//! the message a command without an explicit target applies to.
use vstd::prelude::*;
use vstd::string::*;
use std::collections::VecDeque;

verus! {

/// How many messages a history keeps.
pub const HISTORY_CAPACITY: usize = 10;

/// A message seen in the conversation: its text and its identifier.
#[derive(Clone, Debug)]
pub struct HistoryEntry {
    pub text: String,
    pub id: i64,
}

/// A bounded history of messages, newest first. The oldest message leaves
/// when a new one comes and the history is full.
pub struct History {
    entries: VecDeque<HistoryEntry>,
}

impl View for History {
    type V = Seq<(Seq<char>, i64)>;

    /// Text and identifier of each entry, newest first.
    closed spec fn view(&self) -> Seq<(Seq<char>, i64)> {
        self.entries@.map_values(|e: HistoryEntry| (e.text@, e.id))
    }
}

/// `x` cut down to the capacity of a history.
pub open spec fn bounded(x: Seq<(Seq<char>, i64)>) -> Seq<(Seq<char>, i64)> {
    if x.len() > HISTORY_CAPACITY {
        x.take(HISTORY_CAPACITY as int)
    } else {
        x
    }
}

/// The first position `k` or later whose message has text and was matched by
/// the pattern.
pub open spec fn first_target(h: Seq<(Seq<char>, i64)>, matched: Seq<bool>, k: int) -> Option<int>
    decreases h.len() - k,
{
    if k < 0 || k >= h.len() {
        None
    } else if h[k].0.len() > 0 && matched[k] {
        Some(k)
    } else {
        first_target(h, matched, k + 1)
    }
}

impl History {
    /// A full history of empty messages with identifier 0.
    pub fn new() -> (r: Self)
        ensures
            r@ == Seq::new(HISTORY_CAPACITY as nat, |i: int| (Seq::<char>::empty(), 0i64)),
    {
        let mut entries: VecDeque<HistoryEntry> = VecDeque::new();
        let mut k: usize = 0;
        while k < HISTORY_CAPACITY
            invariant
                k <= HISTORY_CAPACITY,
                entries@.len() == k,
                forall|i: int|
                    0 <= i < k ==> (#[trigger] entries@[i]).text@ == Seq::<char>::empty()
                        && entries@[i].id == 0,
            decreases HISTORY_CAPACITY - k,
        {
            let text = String::new();
            entries.push_back(HistoryEntry { text, id: 0 });
            k += 1;
        }
        let r = History { entries };
        assert(r@ =~= Seq::new(HISTORY_CAPACITY as nat, |i: int| (Seq::<char>::empty(), 0i64)));
        r
    }

    /// Puts a message at the front, dropping the oldest one if the history
    /// would grow past its capacity.
    pub fn record(&mut self, text: String, id: i64)
        ensures
            final(self)@ == bounded(seq![(text@, id)] + old(self)@),
    {
        let ghost t = text@;
        self.entries.push_front(HistoryEntry { text, id });
        let ghost grown = self.entries@;
        assert(grown.map_values(|e: HistoryEntry| (e.text@, e.id)) =~= seq![(t, id)] + old(self)@);
        while self.entries.len() > HISTORY_CAPACITY
            invariant
                self.entries@.len() <= grown.len(),
                self.entries@.len() == grown.len() || HISTORY_CAPACITY <= self.entries@.len(),
                self.entries@ == grown.take(self.entries@.len() as int),
            decreases self.entries@.len(),
        {
            self.entries.pop_back();
        }
        assert(self@ =~= bounded(seq![(t, id)] + old(self)@));
    }

    pub fn len(&self) -> (r: usize)
        ensures
            r == self@.len(),
    {
        self.entries.len()
    }

    /// The entry at position `index`, counted from the newest.
    pub fn entry(&self, index: usize) -> (r: &HistoryEntry)
        requires
            index < self@.len(),
        ensures
            (r.text@, r.id) == self@[index as int],
    {
        &self.entries[index]
    }
}

/// The message that a command without an explicit target rewrites: the newest
/// one with text that the pattern matched, leaving out the newest entry, which
/// is the command itself. `matched[k]` tells whether the pattern matched entry `k`.
pub fn resolve_target(history: &History, matched: &Vec<bool>) -> (r: Option<usize>)
    requires
        matched@.len() == history@.len(),
    ensures
        match first_target(history@, matched@, 1) {
            Some(k) => r == Some(k as usize),
            None => r is None,
        },
{
    let n = history.len();
    let mut k: usize = 1;
    while k < n
        invariant
            n == history@.len(),
            matched@.len() == n,
            1 <= k,
            first_target(history@, matched@, 1) == first_target(history@, matched@, k as int),
        decreases n - k,
    {
        let e = history.entry(k);
        if !e.text.as_str().is_empty() && matched[k] {
            return Some(k);
        }
        k += 1;
    }
    None
}

} // verus!
