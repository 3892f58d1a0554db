use vstd::prelude::*;
use crate::word::Word;

verus! {

/// One record of a frequency table: a text and its count.
pub type Entry = (Seq<char>, int);

/// The records held by a table of words, in order.
pub open spec fn entries(t: Seq<Word>) -> Seq<Entry> {
    t.map_values(|w: Word| w@)
}

/// The reserved text that closes the input.
pub open spec fn sentinel() -> Seq<char> {
    seq!['e', 'n', 'd']
}

/// Whether the table has a record for `x`.
pub open spec fn has_text(t: Seq<Entry>, x: Seq<char>) -> bool {
    exists|i: int| 0 <= i < t.len() && t[i].0 == x
}

/// Texts are unique and every count is at least one.
pub open spec fn well_formed(t: Seq<Entry>) -> bool {
    &&& forall|i: int, j: int| 0 <= i < j < t.len() ==> t[i].0 != t[j].0
    &&& forall|i: int| 0 <= i < t.len() ==> t[i].1 >= 1
}

/// The position of the record for `x`; meaningful only where `has_text(t, x)`.
pub open spec fn position(t: Seq<Entry>, x: Seq<char>) -> int {
    choose|i: int| 0 <= i < t.len() && t[i].0 == x
}

/// The count recorded for `x`, zero when there is none.
pub open spec fn count_in(t: Seq<Entry>, x: Seq<char>) -> int {
    if has_text(t, x) {
        t[position(t, x)].1
    } else {
        0
    }
}

/// The table after one more occurrence of `x`: its count goes up by one, or it
/// is appended with count one.
pub open spec fn recorded(t: Seq<Entry>, x: Seq<char>) -> Seq<Entry> {
    if has_text(t, x) {
        t.update(position(t, x), (x, t[position(t, x)].1 + 1))
    } else {
        t.push((x, 1int))
    }
}

/// The table built from the texts of `s`, taken in order.
pub open spec fn tally(s: Seq<Seq<char>>) -> Seq<Entry>
    decreases s.len(),
{
    if s.len() == 0 {
        Seq::empty()
    } else {
        recorded(tally(s.drop_last()), s.last())
    }
}

/// The texts of a table, in order.
pub open spec fn texts(t: Seq<Entry>) -> Seq<Seq<char>> {
    t.map_values(|e: Entry| e.0)
}

/// How many times `x` occurs in `s`.
pub open spec fn occurrences(s: Seq<Seq<char>>, x: Seq<char>) -> int
    decreases s.len(),
{
    if s.len() == 0 {
        0
    } else {
        occurrences(s.drop_last(), x) + if s.last() == x { 1int } else { 0int }
    }
}

/// The distinct texts of `s`, each where it first occurs.
pub open spec fn first_seen(s: Seq<Seq<char>>) -> Seq<Seq<char>>
    decreases s.len(),
{
    if s.len() == 0 {
        Seq::empty()
    } else {
        let f = first_seen(s.drop_last());
        if f.contains(s.last()) {
            f
        } else {
            f.push(s.last())
        }
    }
}

/// Whether `k` is the first position of the sentinel in `s`.
pub open spec fn first_end(s: Seq<Seq<char>>, k: int) -> bool {
    &&& 0 <= k < s.len()
    &&& s[k] == sentinel()
    &&& forall|j: int| 0 <= j < k ==> s[j] != sentinel()
}

/// The texts of `s` that come before the first sentinel; all of `s` when
/// there is none.
pub open spec fn before_end(s: Seq<Seq<char>>) -> Seq<Seq<char>> {
    if exists|k: int| first_end(s, k) {
        s.take(choose|k: int| first_end(s, k))
    } else {
        s
    }
}

/// The texts of a sequence of strings.
pub open spec fn texts_of(v: Seq<String>) -> Seq<Seq<char>> {
    v.map_values(|s: String| s@)
}

/// One more occurrence of `x` keeps a table well formed, adds one to the
/// count of `x` alone, and appends `x` to the texts if it is new.
pub proof fn lemma_recorded(t: Seq<Entry>, x: Seq<char>)
    requires
        well_formed(t),
    ensures
        well_formed(recorded(t, x)),
        forall|y: Seq<char>|
            #[trigger] count_in(recorded(t, x), y) == count_in(t, y) + if x == y { 1int } else { 0int },
        texts(recorded(t, x)) == if has_text(t, x) { texts(t) } else { texts(t).push(x) },
        has_text(t, x) <==> texts(t).contains(x),
{
    let r = recorded(t, x);
    if has_text(t, x) {
        let p = position(t, x);
        assert(texts(r) =~= texts(t));
        assert forall|y: Seq<char>|
            #[trigger] count_in(r, y) == count_in(t, y) + if x == y { 1int } else { 0int } by {
            if y == x {
                assert(r[p].0 == x);
                assert(has_text(r, y));
                assert(position(r, y) == p);
            } else if has_text(t, y) {
                let q = position(t, y);
                assert(r[q].0 == y);
                assert(has_text(r, y));
                assert(position(r, y) == q);
            } else {
                assert(!has_text(r, y));
            }
        }
        assert(texts(t)[p] == x);
    } else {
        let n = t.len() as int;
        assert(texts(r) =~= texts(t).push(x));
        assert forall|y: Seq<char>|
            #[trigger] count_in(r, y) == count_in(t, y) + if x == y { 1int } else { 0int } by {
            if y == x {
                assert(r[n].0 == x);
                assert(has_text(r, y));
                assert(position(r, y) == n);
            } else if has_text(t, y) {
                let q = position(t, y);
                assert(r[q].0 == y);
                assert(has_text(r, y));
                assert(position(r, y) == q);
            } else {
                assert(!has_text(r, y));
            }
        }
        if texts(t).contains(x) {
            let j = choose|j: int| 0 <= j < texts(t).len() && texts(t)[j] == x;
            assert(t[j].0 == x);
        }
    }
}

/// The table of any sequence is well formed, and the count of each text is at
/// most the length of the sequence.
pub proof fn lemma_tally_well_formed(s: Seq<Seq<char>>)
    ensures
        well_formed(tally(s)),
        forall|x: Seq<char>| #[trigger] count_in(tally(s), x) == occurrences(s, x),
        forall|x: Seq<char>| 0 <= #[trigger] occurrences(s, x) <= s.len(),
    decreases s.len(),
{
    if s.len() > 0 {
        lemma_tally_well_formed(s.drop_last());
        lemma_recorded(tally(s.drop_last()), s.last());
        assert forall|x: Seq<char>| 0 <= #[trigger] occurrences(s, x) <= s.len() by {
            assert(0 <= occurrences(s.drop_last(), x) <= s.drop_last().len());
        }
    } else {
        assert(well_formed(tally(s)));
        assert forall|x: Seq<char>| #[trigger] count_in(tally(s), x) == occurrences(s, x) by {
            assert(!has_text(tally(s), x));
        }
    }
}

/// Whether `s` is the sentinel text.
pub fn is_sentinel(s: &str) -> (r: bool)
    ensures
        r == (s@ == sentinel()),
{
    let n = s.unicode_len();
    if n != 3 {
        return false;
    }
    let r = s.get_char(0) == 'e' && s.get_char(1) == 'n' && s.get_char(2) == 'd';
    proof {
        if r {
            assert(s@ =~= sentinel());
        } else {
            if s@ == sentinel() {
                assert(s@[0] == 'e' && s@[1] == 'n' && s@[2] == 'd');
            }
        }
    }
    r
}

/// Counts one occurrence of `w`'s text: a linear scan for its record, which is
/// incremented, or else a new record with count one at the end.
pub fn record(words: &mut Vec<Word>, w: Word)
    requires
        well_formed(entries(old(words)@)),
        count_in(entries(old(words)@), w@.0) < i32::MAX,
    ensures
        entries(final(words)@) == recorded(entries(old(words)@), w@.0),
        well_formed(entries(final(words)@)),
{
    let ghost t = entries(words@);
    let mut i: usize = 0;
    while i < words.len()
        invariant
            i <= words.len(),
            words@ == old(words)@,
            t == entries(words@),
            forall|j: int| 0 <= j < i ==> t[j].0 != w@.0,
            well_formed(t),
            count_in(t, w@.0) < i32::MAX,
        decreases words.len() - i,
    {
        if words[i].same_text(&w) {
            assert(t[i as int] == words@[i as int]@);
            assert(has_text(t, w@.0));
            assert(position(t, w@.0) == i as int);
            let c = words[i].get_count();
            assert(c as int == count_in(t, w@.0));
            words[i].set_count(c + 1);
            assert(entries(words@) =~= recorded(t, w@.0));
            return;
        }
        i = i + 1;
    }
    assert(!has_text(t, w@.0));
    let mut w = w;
    w.set_count(1);
    words.push(w);
    assert(entries(words@) =~= recorded(t, w@.0));
}

/// The aggregator's decision on one handed-off word: the sentinel ends its
/// run and is not counted; any other word is recorded.
pub fn worker_thread(words: &mut Vec<Word>, received: Word) -> (end_encountered: bool)
    requires
        well_formed(entries(old(words)@)),
        count_in(entries(old(words)@), received@.0) < i32::MAX,
    ensures
        end_encountered == (received@.0 == sentinel()),
        end_encountered ==> final(words)@ == old(words)@,
        !end_encountered ==> entries(final(words)@) == recorded(entries(old(words)@), received@.0),
        well_formed(entries(final(words)@)),
{
    let end_encountered = is_sentinel(received.get_data());
    if !end_encountered {
        record(words, received);
    }
    end_encountered
}

/// The count recorded in `words` for the text of `w`, zero when there is none.
pub fn count_of(words: &Vec<Word>, w: &Word) -> (c: i32)
    requires
        well_formed(entries(words@)),
    ensures
        c as int == count_in(entries(words@), w@.0),
{
    let ghost t = entries(words@);
    let mut i: usize = 0;
    while i < words.len()
        invariant
            i <= words.len(),
            t == entries(words@),
            well_formed(t),
            forall|j: int| 0 <= j < i ==> t[j].0 != w@.0,
        decreases words.len() - i,
    {
        if words[i].same_text(w) {
            assert(t[i as int] == words@[i as int]@);
            assert(position(t, w@.0) == i as int);
            return words[i].get_count();
        }
        i = i + 1;
    }
    assert(!has_text(t, w@.0));
    0
}

/// The table that the aggregator builds from the words handed to it in
/// order: it stops at the first sentinel, and counts each other text.
pub fn aggregate(received: &Vec<String>) -> (words: Vec<Word>)
    requires
        received.len() < i32::MAX,
    ensures
        entries(words@) == tally(before_end(texts_of(received@))),
{
    let ghost s = texts_of(received@);
    let mut words: Vec<Word> = Vec::new();
    let mut i: usize = 0;
    proof {
        assert(s.take(0) =~= Seq::<Seq<char>>::empty());
    }
    while i < received.len()
        invariant
            i <= received.len() < i32::MAX,
            s == texts_of(received@),
            entries(words@) == tally(s.take(i as int)),
            forall|j: int| 0 <= j < i ==> s[j] != sentinel(),
        decreases received.len() - i,
    {
        let w = Word::new(received[i].clone());
        proof {
            lemma_tally_well_formed(s.take(i as int));
        }
        if worker_thread(&mut words, w) {
            assert(first_end(s, i as int));
            assert(before_end(s) == s.take(i as int));
            return words;
        }
        proof {
            assert(s.take(i as int + 1).drop_last() =~= s.take(i as int));
        }
        i = i + 1;
    }
    proof {
        assert(!exists|k: int| first_end(s, k));
        assert(s.take(i as int) =~= s);
    }
    words
}

} // verus!
