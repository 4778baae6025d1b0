use crate::config::{MAX_THRESHOLD, MIN_THRESHOLD};
use crate::store::{case_key, Entry};
use crate::text::is_word;
use vstd::prelude::*;

verus! {

/// `v` moved into `[MIN_THRESHOLD, MAX_THRESHOLD]`.
pub open spec fn clamp(v: int) -> u64 {
    if v < MIN_THRESHOLD {
        MIN_THRESHOLD
    } else if v > MAX_THRESHOLD {
        MAX_THRESHOLD
    } else {
        v as u64
    }
}

/// Every weight of `m` lies within the bounds, and `m` is finite.
pub open spec fn bounded(m: Map<Seq<char>, Entry>) -> bool {
    &&& m.dom().finite()
    &&& forall|k: Seq<char>|
        #[trigger] m.contains_key(k) ==> MIN_THRESHOLD <= m[k].1 <= MAX_THRESHOLD
}

/// The weights of `m`, by case key.
pub open spec fn weights(m: Map<Seq<char>, Entry>) -> Map<Seq<char>, u64> {
    m.map_values(|e: Entry| e.1)
}

/// `m` with the weight under `k` moved by `delta` and clamped; unchanged where
/// `k` is absent.
pub open spec fn adjusted(m: Map<Seq<char>, Entry>, k: Seq<char>, delta: int) -> Map<
    Seq<char>,
    Entry,
> {
    if m.contains_key(k) {
        m.insert(k, (m[k].0, clamp(m[k].1 + delta)))
    } else {
        m
    }
}

/// The first pass over a message's words: each occurrence adds one to its
/// word's weight, a new word starting at one.
pub open spec fn counted(ws: Seq<Seq<char>>) -> Map<Seq<char>, Entry>
    decreases ws.len(),
{
    if ws.len() == 0 {
        Map::empty()
    } else {
        let m = counted(ws.drop_last());
        let w = ws.last();
        let k = case_key(w);
        if m.contains_key(k) {
            m.insert(k, (m[k].0, clamp(m[k].1 + 1)))
        } else {
            m.insert(k, (w, clamp(1)))
        }
    }
}

/// The second pass: a word the global store knows gains its global weight, a
/// new one loses one.
pub open spec fn boosted(l: u64, g: Map<Seq<char>, Entry>, k: Seq<char>) -> u64 {
    if g.contains_key(k) {
        clamp(l + g[k].1)
    } else {
        clamp(l - 1)
    }
}

/// The weighted words of one message, given the global store `g`.
pub open spec fn local_entries(ws: Seq<Seq<char>>, g: Map<Seq<char>, Entry>) -> Map<
    Seq<char>,
    Entry,
> {
    let m = counted(ws);
    Map::new(|k: Seq<char>| m.contains_key(k), |k: Seq<char>| (m[k].0, boosted(m[k].1, g, k)))
}

/// The global store after a message's weighted words `l` are merged into
/// `g`: a word of both keeps its stored form from `g` and the higher weight; a
/// word of one keeps its entry.
pub open spec fn merged(g: Map<Seq<char>, Entry>, l: Map<Seq<char>, Entry>) -> Map<Seq<char>, Entry> {
    Map::new(
        |k: Seq<char>| g.contains_key(k) || l.contains_key(k),
        |k: Seq<char>|
            if g.contains_key(k) {
                if l.contains_key(k) && l[k].1 > g[k].1 {
                    (g[k].0, l[k].1)
                } else {
                    g[k]
                }
            } else {
                l[k]
            },
    )
}

/// Every stored form in `m` is a non-empty run of word characters.
pub open spec fn all_words(m: Map<Seq<char>, Entry>) -> bool {
    forall|k: Seq<char>| #[trigger] m.contains_key(k) ==> is_word(m[k].0)
}

proof fn lemma_counted_bounded(ws: Seq<Seq<char>>)
    ensures
        bounded(counted(ws)),
    decreases ws.len(),
{
    if ws.len() > 0 {
        lemma_counted_bounded(ws.drop_last());
    }
}

pub proof fn lemma_counted_words(ws: Seq<Seq<char>>)
    requires
        forall|j: int| 0 <= j < ws.len() ==> is_word(#[trigger] ws[j]),
    ensures
        all_words(counted(ws)),
    decreases ws.len(),
{
    if ws.len() > 0 {
        let d = ws.drop_last();
        assert forall|j: int| 0 <= j < d.len() implies is_word(#[trigger] d[j]) by {
            assert(d[j] == ws[j]);
        }
        lemma_counted_words(d);
        let m = counted(d);
        assert forall|k: Seq<char>| #[trigger] counted(ws).contains_key(k) implies is_word(
            counted(ws)[k].0,
        ) by {
            if k != case_key(ws.last()) {
                assert(m.contains_key(k));
            }
        }
    }
}

/// The weighted words of one message all lie within the bounds, however often
/// a word occurs and whatever the global store holds.
pub proof fn lemma_local_bounded(ws: Seq<Seq<char>>, g: Map<Seq<char>, Entry>)
    ensures
        bounded(local_entries(ws, g)),
{
    lemma_counted_bounded(ws);
    assert(local_entries(ws, g).dom() =~= counted(ws).dom());
}

/// Every word of a message has an entry among its counted words.
pub proof fn lemma_counted_holds(ws: Seq<Seq<char>>, i: int)
    requires
        0 <= i < ws.len(),
    ensures
        counted(ws).contains_key(case_key(ws[i])),
    decreases ws.len(),
{
    if i < ws.len() - 1 {
        lemma_counted_holds(ws.drop_last(), i);
    }
}

/// Merging never lowers a global weight, and keeps every global word under its
/// stored form.
pub proof fn lemma_merge_monotonic(g: Map<Seq<char>, Entry>, l: Map<Seq<char>, Entry>)
    ensures
        forall|k: Seq<char>|
            #[trigger] g.contains_key(k) ==> merged(g, l).contains_key(k) && merged(g, l)[k].1
                >= g[k].1 && merged(g, l)[k].0 == g[k].0,
{
}

/// A word of a fed message is known to the store after the merge under any
/// spelling with the same case key.
pub proof fn lemma_case_insensitive(
    g: Map<Seq<char>, Entry>,
    ws: Seq<Seq<char>>,
    i: int,
    other: Seq<char>,
)
    requires
        0 <= i < ws.len(),
        case_key(other) == case_key(ws[i]),
    ensures
        merged(g, local_entries(ws, g)).contains_key(case_key(other)),
{
    lemma_counted_holds(ws, i);
}

/// Words with the same case key are adjusted as one entry.
pub proof fn lemma_same_entry(m: Map<Seq<char>, Entry>, a: Seq<char>, b: Seq<char>, delta: int)
    requires
        case_key(a) == case_key(b),
    ensures
        adjusted(m, case_key(a), delta) == adjusted(m, case_key(b), delta),
{
}

} // verus!
