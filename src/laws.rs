use vstd::prelude::*;
use crate::table::{
    before_end, count_in, first_end, first_seen, has_text, lemma_recorded,
    lemma_tally_well_formed, occurrences, position, sentinel, tally, texts, Entry,
};

verus! {

/// A table has a record for `x` exactly when `x` is among its texts.
proof fn lemma_has_text_texts(t: Seq<Entry>, x: Seq<char>)
    ensures
        has_text(t, x) <==> texts(t).contains(x),
{
    if has_text(t, x) {
        let p = position(t, x);
        assert(texts(t)[p] == x);
    }
    if texts(t).contains(x) {
        let j = choose|j: int| 0 <= j < texts(t).len() && texts(t)[j] == x;
        assert(t[j].0 == x);
    }
}

/// The distinct texts of `s` are the texts of `s`.
proof fn lemma_first_seen_contains(s: Seq<Seq<char>>, x: Seq<char>)
    ensures
        first_seen(s).contains(x) <==> s.contains(x),
    decreases s.len(),
{
    if s.len() > 0 {
        let p = s.drop_last();
        lemma_first_seen_contains(p, x);
        if s.contains(x) && x != s.last() {
            let j = choose|j: int| 0 <= j < s.len() && s[j] == x;
            assert(p[j] == x);
        }
        if p.contains(x) {
            let j = choose|j: int| 0 <= j < p.len() && p[j] == x;
            assert(s[j] == x);
        }
        let f = first_seen(p);
        let l = s.last();
        if x == l {
            assert(s[s.len() - 1] == x);
            if !f.contains(x) {
                assert(f.push(x)[f.len() as int] == x);
            }
        } else if !f.contains(l) {
            if f.push(l).contains(x) {
                let j = choose|j: int| 0 <= j < f.push(l).len() && f.push(l)[j] == x;
                assert(f[j] == x);
            }
            if f.contains(x) {
                let j = choose|j: int| 0 <= j < f.len() && f[j] == x;
                assert(f.push(l)[j] == x);
            }
        }
    }
}

/// The texts of the table of `s` are the distinct texts of `s` in the order
/// of their first occurrence.
proof fn lemma_tally_texts(s: Seq<Seq<char>>)
    ensures
        texts(tally(s)) == first_seen(s),
    decreases s.len(),
{
    if s.len() > 0 {
        let p = s.drop_last();
        lemma_tally_texts(p);
        lemma_tally_well_formed(p);
        lemma_recorded(tally(p), s.last());
        lemma_has_text_texts(tally(p), s.last());
    } else {
        assert(texts(tally(s)) =~= first_seen(s));
    }
}

/// Where the sentinel occurs in `s`, it has a first position.
proof fn lemma_first_end_exists(s: Seq<Seq<char>>, j: int)
    requires
        0 <= j < s.len(),
        s[j] == sentinel(),
    ensures
        exists|k: int| first_end(s, k),
    decreases j,
{
    if exists|i: int| 0 <= i < j && s[i] == sentinel() {
        let i = choose|i: int| 0 <= i < j && s[i] == sentinel();
        lemma_first_end_exists(s, i);
    } else {
        assert(first_end(s, j));
    }
}

/// Every text counted by the aggregator is counted exactly as often as it
/// was handed off before the sentinel; other texts have no record.
pub proof fn law_counts_match_occurrences(received: Seq<Seq<char>>)
    ensures
        forall|x: Seq<char>|
            #[trigger] count_in(tally(before_end(received)), x) == occurrences(before_end(received), x),
{
    lemma_tally_well_formed(before_end(received));
}

/// The table lists each distinct text once, in the order in which it was
/// first handed off, whatever repeats follow.
pub proof fn law_insertion_order(received: Seq<Seq<char>>)
    ensures
        texts(tally(before_end(received))) == first_seen(before_end(received)),
{
    lemma_tally_texts(before_end(received));
}

/// The sentinel is never a record of the table, while every other text
/// (another case of it included) is counted like any word.
pub proof fn law_sentinel_excluded(received: Seq<Seq<char>>)
    ensures
        !has_text(tally(before_end(received)), sentinel()),
        forall|x: Seq<char>|
            x != sentinel() && #[trigger] received.contains(x) && !received.contains(sentinel())
                ==> has_text(tally(before_end(received)), x),
{
    let b = before_end(received);
    lemma_tally_texts(b);
    lemma_has_text_texts(tally(b), sentinel());
    lemma_first_seen_contains(b, sentinel());
    assert forall|x: Seq<char>|
        x != sentinel() && #[trigger] received.contains(x) && !received.contains(sentinel())
            implies has_text(tally(before_end(received)), x) by {
        lemma_has_text_texts(tally(b), x);
        lemma_first_seen_contains(b, x);
        if !received.contains(sentinel()) && exists|k: int| first_end(received, k) {
            let k = choose|k: int| first_end(received, k);
            assert(received[k] == sentinel());
        }
    }
    if exists|k: int| first_end(received, k) {
        let k = choose|k: int| first_end(received, k);
        assert(b == received.take(k));
        if b.contains(sentinel()) {
            let j = choose|j: int| 0 <= j < b.len() && b[j] == sentinel();
            assert(received[j] == sentinel());
        }
    } else {
        assert(b == received);
        if b.contains(sentinel()) {
            let j = choose|j: int| 0 <= j < b.len() && b[j] == sentinel();
            lemma_first_end_exists(received, j);
        }
    }
}

} // verus!
