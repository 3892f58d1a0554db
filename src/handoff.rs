use vstd::prelude::*;
use crate::table::{first_end, is_sentinel, sentinel, Entry};
use crate::word::Word;

verus! {

/// The single slot through which the producer hands one word at a time to
/// the aggregator. It is ready while it holds a word that nobody has taken.
pub struct Slot {
    word: Option<Word>,
}

impl View for Slot {
    type V = Option<Entry>;

    closed spec fn view(&self) -> Option<Entry> {
        match self.word {
            Some(w) => Some(w@),
            None => None,
        }
    }
}

impl Slot {
    /// An empty slot: nothing to take yet.
    pub fn new() -> (s: Slot)
        ensures
            s@ is None,
    {
        Slot { word: None }
    }

    /// Whether a word waits to be taken.
    pub fn is_ready(&self) -> (r: bool)
        ensures
            r == self@ is Some,
    {
        self.word.is_some()
    }

    /// Puts a word into the free slot, which becomes ready.
    pub fn produce(&mut self, w: Word)
        requires
            old(self)@ is None,
        ensures
            final(self)@ == Some(w@),
    {
        self.word = Some(w);
    }

    /// Takes the waiting word out by value; the slot is free again.
    pub fn consume(&mut self) -> (w: Word)
        requires
            old(self)@ is Some,
        ensures
            final(self)@ is None,
            old(self)@ == Some(w@),
    {
        self.word.take().unwrap()
    }
}

/// Whether a sequence of operations on a slot, started free (`full` false)
/// or ready, respects the handoff rule: `Some(x)` puts `x` in and is allowed
/// only on a free slot; `None` takes the word out and is allowed only on a
/// ready one.
pub open spec fn permitted(full: bool, ops: Seq<Option<Seq<char>>>) -> bool
    decreases ops.len(),
{
    if ops.len() == 0 {
        true
    } else {
        (ops[0] is Some) == !full && permitted(ops[0] is Some, ops.drop_first())
    }
}

/// The words that the takes of `ops` receive, in order, from a slot that
/// holds `slot` to begin with.
pub open spec fn delivered(slot: Option<Seq<char>>, ops: Seq<Option<Seq<char>>>) -> Seq<Seq<char>>
    decreases ops.len(),
{
    if ops.len() == 0 {
        Seq::empty()
    } else {
        match ops[0] {
            Some(x) => delivered(Some(x), ops.drop_first()),
            None => seq![slot->0] + delivered(None, ops.drop_first()),
        }
    }
}

/// Every run of the handoff rule from a free slot alternates puts and takes,
/// one for one, and each take receives the word of the put just before it:
/// no word is overwritten before it is taken.
pub proof fn law_alternation(ops: Seq<Option<Seq<char>>>)
    requires
        permitted(false, ops),
    ensures
        forall|i: int| 0 <= i < ops.len() ==> ((#[trigger] ops[i] is Some) <==> i % 2 == 0),
        delivered(None, ops).len() == ops.len() / 2,
        forall|k: int|
            0 <= k < ops.len() / 2 ==> #[trigger] delivered(None, ops)[k] == ops[2 * k]->0,
    decreases ops.len(),
{
    if ops.len() >= 2 {
        let rest = ops.drop_first().drop_first();
        assert(permitted(true, ops.drop_first()));
        law_alternation(rest);
        let x = ops[0]->0;
        assert(delivered(None, ops) == delivered(Some(x), ops.drop_first()));
        assert(delivered(None, ops) == seq![x] + delivered(None, rest));
        assert forall|i: int| 0 <= i < ops.len() implies ((#[trigger] ops[i] is Some) <==> i % 2 == 0) by {
            if i >= 2 {
                assert(ops[i] == rest[i - 2]);
            }
        }
        assert forall|k: int| 0 <= k < ops.len() / 2 implies #[trigger] delivered(None, ops)[k] == ops[2 * k]->0 by {
            if k >= 1 {
                assert(delivered(None, ops)[k] == delivered(None, rest)[k - 1]);
                assert(ops[2 * k] == rest[2 * (k - 1)]);
            }
        }
    } else if ops.len() == 1 {
        assert(delivered(None, ops) == delivered(Some(ops[0]->0), ops.drop_first()));
    }
}

/// The operations of a run in lock step: each word of `texts` is put into the
/// slot and then taken out, before the next one is put.
pub open spec fn lockstep(texts: Seq<Seq<char>>) -> Seq<Option<Seq<char>>> {
    Seq::new(2 * texts.len(), |i: int| if i % 2 == 0 { Some(texts[i / 2]) } else { None })
}

proof fn lemma_lockstep(texts: Seq<Seq<char>>)
    ensures
        permitted(false, lockstep(texts)),
        delivered(None, lockstep(texts)) == texts,
    decreases texts.len(),
{
    let ops = lockstep(texts);
    if texts.len() > 0 {
        let rest = texts.drop_first();
        lemma_lockstep(rest);
        assert(ops.drop_first().drop_first() =~= lockstep(rest));
        assert(permitted(true, ops.drop_first()));
        assert(delivered(None, ops) == delivered(Some(texts[0]), ops.drop_first()));
        assert(delivered(None, ops) =~= seq![texts[0]] + delivered(None, lockstep(rest)));
        assert(seq![texts[0]] + rest =~= texts);
    } else {
        assert(delivered(None, ops) =~= texts);
    }
}

/// A producer that hands off its words in lock step and stops after the
/// sentinel, which it sends last, meets an aggregator that stops there too:
/// the run obeys the handoff rule, every put is taken (the producer's wait
/// for the take ends each time), the aggregator receives exactly those words,
/// and the sentinel is the first of them that it sees.
pub proof fn law_termination(texts: Seq<Seq<char>>)
    requires
        texts.len() > 0,
        texts.last() == sentinel(),
        forall|i: int| 0 <= i < texts.len() - 1 ==> texts[i] != sentinel(),
    ensures
        permitted(false, lockstep(texts)),
        delivered(None, lockstep(texts)) == texts,
        first_end(delivered(None, lockstep(texts)), texts.len() - 1),
        lockstep(texts).last() is None,
{
    lemma_lockstep(texts);
}

/// Leading and trailing whitespace of a line, removed.
pub uninterp spec fn trimmed(s: Seq<char>) -> Seq<char>;

/// Relies on str::trim: the line without its leading and trailing
/// whitespace, a function of its characters alone.
#[verifier::external_body]
fn trim(s: &str) -> (r: String)
    ensures
        r@ == trimmed(s@),
{
    s.trim().to_string()
}

/// The word that the producer hands off for one line of input (`None` where
/// the input failed or ended), and whether it is the last handoff. The
/// sentinel goes through the slot like any word, so that the aggregator sees
/// it and stops; a failed input is handed off as the sentinel for the same
/// reason.
pub fn producer_step(line: Option<&str>) -> (r: (Word, bool))
    ensures
        line is Some ==> r.0@ == (trimmed(line->0@), 1int),
        line is None ==> r.0@ == (sentinel(), 1int),
        r.1 == (r.0@.0 == sentinel()),
{
    let text = match line {
        Some(l) => trim(l),
        None => {
            let mut s = String::new();
            s.append("end");
            proof {
                reveal_strlit("end");
                assert(s@ =~= sentinel());
            }
            s
        },
    };
    let last = is_sentinel(text.as_str());
    (Word::new(text), last)
}

} // verus!
