use crate::config::Configuration;
use crate::store::{entry_views, string_of, Entry};
use crate::text::{join_words, joined, views};
use vstd::prelude::*;

verus! {

/// An entry may be reported: its weight reaches the threshold and its word is
/// long enough.
pub open spec fn passes(e: Entry, c: &Configuration) -> bool {
    e.1 >= c.threshold.w && e.0.len() >= c.min_word_length
}

/// The entries of `s` that may be reported, in order.
pub open spec fn kept(s: Seq<Entry>, c: &Configuration) -> Seq<Entry>
    decreases s.len(),
{
    if s.len() == 0 {
        seq![]
    } else if passes(s.last(), c) {
        kept(s.drop_last(), c).push(s.last())
    } else {
        kept(s.drop_last(), c)
    }
}

/// A requested report size, raised to `min_word_length` and then lowered to
/// `take_words_max`, which is a hard bound.
pub open spec fn window(n: int, c: &Configuration) -> int {
    let raised = if n < c.min_word_length {
        c.min_word_length as int
    } else {
        n
    };
    if raised > c.take_words_max {
        c.take_words_max as int
    } else {
        raised
    }
}

/// The reported entries: those kept, cut to the window where a size is given.
pub open spec fn selection(s: Seq<Entry>, c: &Configuration, limit: Option<int>) -> Seq<Entry> {
    let f = kept(s, c);
    match limit {
        Some(n) => if window(n, c) < f.len() {
            f.take(window(n, c))
        } else {
            f
        },
        None => f,
    }
}

pub open spec fn words(s: Seq<Entry>) -> Seq<Seq<char>> {
    s.map_values(|e: Entry| e.0)
}

/// The report on the ranked entries `s`: the selected words joined by spaces.
pub open spec fn report(s: Seq<Entry>, c: &Configuration, limit: Option<int>) -> Seq<char> {
    joined(words(selection(s, c, limit)))
}

pub open spec fn as_int(limit: Option<usize>) -> Option<int> {
    match limit {
        Some(n) => Some(n as int),
        None => None,
    }
}

proof fn lemma_kept_len(s: Seq<Entry>, c: &Configuration)
    ensures
        kept(s, c).len() <= s.len(),
    decreases s.len(),
{
    if s.len() > 0 {
        lemma_kept_len(s.drop_last(), c);
    }
}

proof fn lemma_kept_prefix(s: Seq<Entry>, c: &Configuration, i: int)
    requires
        0 <= i <= s.len(),
    ensures
        kept(s.take(i), c).len() <= kept(s, c).len(),
        kept(s, c).take(kept(s.take(i), c).len() as int) == kept(s.take(i), c),
    decreases s.len(),
{
    if i == s.len() {
        assert(s.take(i) =~= s);
        assert(kept(s, c).take(kept(s, c).len() as int) =~= kept(s, c));
    } else {
        assert(s.drop_last().take(i) =~= s.take(i));
        lemma_kept_prefix(s.drop_last(), c, i);
        let k = kept(s.take(i), c);
        let a = kept(s.drop_last(), c);
        assert(kept(s, c).take(k.len() as int) =~= a.take(k.len() as int));
    }
}

/// Every reported entry passes the filter.
pub proof fn lemma_selection_passes(s: Seq<Entry>, c: &Configuration, limit: Option<int>)
    ensures
        forall|i: int|
            0 <= i < selection(s, c, limit).len() ==> (#[trigger] selection(s, c, limit)[i]).0.len()
                >= c.min_word_length && selection(s, c, limit)[i].1 >= c.threshold.w,
{
    lemma_kept_passes(s, c);
}

proof fn lemma_kept_passes(s: Seq<Entry>, c: &Configuration)
    ensures
        forall|i: int| 0 <= i < kept(s, c).len() ==> passes(#[trigger] kept(s, c)[i], c),
    decreases s.len(),
{
    if s.len() > 0 {
        lemma_kept_passes(s.drop_last(), c);
        let k = kept(s.drop_last(), c);
        assert forall|i: int| 0 <= i < kept(s, c).len() implies passes(#[trigger] kept(s, c)[i], c) by {
            if i < k.len() {
                assert(kept(s, c)[i] == k[i]);
            }
        }
    }
}

/// A report given any size holds at most `take_words_max` words.
pub proof fn lemma_selection_bounded(s: Seq<Entry>, c: &Configuration, n: int)
    ensures
        selection(s, c, Some(n)).len() <= c.take_words_max,
{
}

/// Reports on the ranked entries `ranked`: keeps the entries whose weight
/// reaches the threshold and whose word is at least `min_word_length` long,
/// takes the first `window` of them when a size is given, and joins their
/// words with single spaces.
pub fn rank_output(ranked: &Vec<(Vec<char>, u64)>, c: &Configuration, limit: Option<usize>) -> (r:
    String)
    ensures
        r@ == report(entry_views(ranked@), c, as_int(limit)),
{
    let ghost s = entry_views(ranked@);
    let n: usize = match limit {
        Some(n) => {
            let raised = if n < c.min_word_length {
                c.min_word_length
            } else {
                n
            };
            if raised > c.take_words_max {
                c.take_words_max
            } else {
                raised
            }
        },
        None => ranked.len(),
    };
    let mut sel: Vec<Vec<char>> = Vec::new();
    let mut i: usize = 0;
    while i < ranked.len() && sel.len() < n
        invariant
            i <= ranked@.len(),
            s == entry_views(ranked@),
            views(sel@) == words(kept(s.take(i as int), c)),
            kept(s.take(i as int), c).len() <= n,
        decreases ranked@.len() - i,
    {
        let w = &ranked[i].0;
        let wt = ranked[i].1;
        proof {
            assert(s.take(i + 1).drop_last() =~= s.take(i as int));
            assert(s.take(i + 1).last() == s[i as int]);
        }
        if wt >= c.threshold.w && w.len() >= c.min_word_length {
            let copy = w.clone();
            assert(copy@ =~= w@);
            assert(s[i as int] == (w@, wt));
            assert(kept(s.take(i + 1), c) == kept(s.take(i as int), c).push(s[i as int]));
            let ghost before = sel@;
            sel.push(copy);
            proof {
                let k = kept(s.take(i as int), c);
                assert(views(sel@) =~= views(before).push(w@));
                assert(words(k.push(s[i as int])) =~= words(k).push(w@));
            }
        }
        i += 1;
    }
    proof {
        lemma_kept_prefix(s, c, i as int);
        lemma_kept_len(s, c);
        let k = kept(s.take(i as int), c);
        let f = kept(s, c);
        if i == ranked.len() {
            assert(s.take(i as int) =~= s);
        } else {
            assert(k.len() == n);
        }
        assert(selection(s, c, as_int(limit)) =~= k);
    }
    let joined_words = join_words(&sel);
    string_of(&joined_words)
}

} // verus!
