use crate::config::{Configuration, MAX_THRESHOLD, MIN_THRESHOLD, WEIGHT_INCREMENT};
use crate::rank::{as_int, rank_output, report, window};
use crate::store::{
    case_key, chars_of, entry_views, lists, queue_append, queue_clone, queue_get, queue_into_ranked,
    queue_items, queue_new, queue_push, queue_remove, queue_entries, ranked_of, ranks, Entry, KeywordQueue,
};
use crate::text::{
    is_word, lemma_words_of_normalized, normalize, normalize_text, split_words, views, words_of,
};
use crate::weights::{
    adjusted, all_words, bounded, boosted, clamp, counted, lemma_counted_words, local_entries, merged,
};
use vstd::prelude::*;

verus! {

/// Moves the weight of `word` by `increment`, clamped to the bounds. An absent
/// word is inserted with the clamped increment when `insert_if_not_exists`
/// holds. Returns whether the store holds the word afterwards.
fn change_keyword_weight(
    keywords: &mut KeywordQueue,
    word: &Vec<char>,
    insert_if_not_exists: bool,
    increment: i64,
) -> (r: bool)
    requires
        bounded(queue_entries(*old(keywords))),
    ensures
        bounded(queue_entries(*final(keywords))),
        r == (queue_entries(*old(keywords)).contains_key(case_key(word@)) || insert_if_not_exists),
        queue_entries(*final(keywords)) == (if queue_entries(*old(keywords)).contains_key(
            case_key(word@),
        ) {
            adjusted(queue_entries(*old(keywords)), case_key(word@), increment as int)
        } else if insert_if_not_exists {
            queue_entries(*old(keywords)).insert(case_key(word@), (word@, clamp(increment as int)))
        } else {
            queue_entries(*old(keywords))
        }),
{
    match queue_get(keywords, word) {
        Some(w) => {
            let v: i128 = w as i128 + increment as i128;
            let nw: u64 = if v < MIN_THRESHOLD as i128 {
                MIN_THRESHOLD
            } else if v > MAX_THRESHOLD as i128 {
                MAX_THRESHOLD
            } else {
                v as u64
            };
            queue_push(keywords, word, nw);
            proof {
                let m = queue_entries(*final(keywords));
                assert forall|k: Seq<char>| #[trigger] m.contains_key(k) implies MIN_THRESHOLD
                    <= m[k].1 <= MAX_THRESHOLD by {
                    if k != case_key(word@) {
                        assert(queue_entries(*old(keywords)).contains_key(k));
                    }
                }
            }
            true
        },
        None => {
            if insert_if_not_exists {
                let nw: u64 = if increment < MIN_THRESHOLD as i64 {
                    MIN_THRESHOLD
                } else if increment > MAX_THRESHOLD as i64 {
                    MAX_THRESHOLD
                } else {
                    increment as u64
                };
                queue_push(keywords, word, nw);
                proof {
                    let m = queue_entries(*final(keywords));
                    assert forall|k: Seq<char>| #[trigger] m.contains_key(k) implies MIN_THRESHOLD
                        <= m[k].1 <= MAX_THRESHOLD by {
                        if k != case_key(word@) {
                            assert(queue_entries(*old(keywords)).contains_key(k));
                        }
                    }
                }
                true
            } else {
                false
            }
        },
    }
}

/// Weighs the words `ws` of one message against the global store `global`.
fn fetch_important_keywords(global: &KeywordQueue, ws: &Vec<Vec<char>>) -> (r: KeywordQueue)
    requires
        bounded(queue_entries(*global)),
    ensures
        queue_entries(r) == local_entries(views(ws@), queue_entries(*global)),
        bounded(queue_entries(r)),
{
    let ghost g = queue_entries(*global);
    let mut local = queue_new();
    let mut i: usize = 0;
    while i < ws.len()
        invariant
            i <= ws@.len(),
            queue_entries(local) == counted(views(ws@).take(i as int)),
            bounded(queue_entries(local)),
        decreases ws@.len() - i,
    {
        proof {
            assert(views(ws@).take(i + 1).drop_last() =~= views(ws@).take(i as int));
            assert(views(ws@).take(i + 1).last() == ws@[i as int]@);
        }
        let _ = change_keyword_weight(&mut local, &ws[i], true, WEIGHT_INCREMENT as i64);
        i += 1;
    }
    assert(views(ws@).take(ws@.len() as int) =~= views(ws@));
    let ghost c = queue_entries(local);
    let items = queue_items(&local);
    let ghost e = entry_views(items@);
    let mut j: usize = 0;
    while j < items.len()
        invariant
            j <= items@.len(),
            e == entry_views(items@),
            lists(e, c),
            c == counted(views(ws@)),
            g == queue_entries(*global),
            bounded(g),
            bounded(queue_entries(local)),
            queue_entries(local).dom() == c.dom(),
            forall|a: int|
                0 <= a < j ==> queue_entries(local)[case_key(#[trigger] e[a].0)] == (
                    c[case_key(e[a].0)].0,
                    boosted(c[case_key(e[a].0)].1, g, case_key(e[a].0)),
                ),
            forall|a: int|
                j <= a < e.len() ==> queue_entries(local)[case_key(#[trigger] e[a].0)] == c[case_key(
                    e[a].0,
                )],
        decreases items@.len() - j,
    {
        let word = &items[j].0;
        let delta: i64 = match queue_get(global, word) {
            Some(w) => w as i64,
            None => -1,
        };
        let ghost before = queue_entries(local);
        proof {
            assert(e[j as int].0 == word@);
            assert(c.contains_key(case_key(word@)));
        }
        let _ = change_keyword_weight(&mut local, word, true, delta);
        proof {
            let after = queue_entries(local);
            assert(after.dom() =~= c.dom());
            assert forall|a: int| 0 <= a < j + 1 implies after[case_key(#[trigger] e[a].0)] == (
                c[case_key(e[a].0)].0,
                boosted(c[case_key(e[a].0)].1, g, case_key(e[a].0)),
            ) by {
                if a < j {
                    assert(case_key(e[a].0) != case_key(e[j as int].0));
                }
            }
            assert forall|a: int| j + 1 <= a < e.len() implies after[case_key(#[trigger] e[a].0)]
                == c[case_key(e[a].0)] by {
                assert(case_key(e[a].0) != case_key(e[j as int].0));
            }
        }
        j += 1;
    }
    proof {
        let m = queue_entries(local);
        let target = local_entries(views(ws@), g);
        assert forall|k: Seq<char>| #[trigger] m.contains_key(k) implies m[k] == target[k] by {
            let a = choose|a: int| 0 <= a < e.len() && case_key(e[a].0) == k;
        }
        assert(m =~= target);
    }
    local
}

/// Merges the weighted words `local` of one message into `global`: a word of
/// both keeps its stored form and the higher weight, a new word is added.
fn merge_keywords(global: &mut KeywordQueue, local: &mut KeywordQueue)
    requires
        bounded(queue_entries(*old(global))),
        bounded(queue_entries(*old(local))),
    ensures
        bounded(queue_entries(*final(global))),
        queue_entries(*final(global)) == merged(
            queue_entries(*old(global)),
            queue_entries(*old(local)),
        ),
{
    let ghost g0 = queue_entries(*global);
    let ghost l0 = queue_entries(*local);
    let ghost target = merged(g0, l0);
    let items = queue_items(local);
    let ghost e = entry_views(items@);
    let mut j: usize = 0;
    while j < items.len()
        invariant
            j <= items@.len(),
            e == entry_views(items@),
            lists(e, l0),
            target == merged(g0, l0),
            bounded(g0),
            bounded(l0),
            queue_entries(*global).dom() == g0.dom(),
            queue_entries(*local).dom().finite(),
            forall|k: Seq<char>|
                #[trigger] queue_entries(*local).contains_key(k) ==> l0.contains_key(k)
                    && queue_entries(*local)[k] == l0[k],
            forall|a: int|
                0 <= a < j ==> {
                    let k = case_key(#[trigger] e[a].0);
                    if g0.contains_key(k) {
                        &&& !queue_entries(*local).contains_key(k)
                        &&& queue_entries(*global)[k] == target[k]
                    } else {
                        queue_entries(*local).contains_key(k)
                    }
                },
            forall|a: int|
                j <= a < e.len() ==> {
                    let k = case_key(#[trigger] e[a].0);
                    &&& queue_entries(*local).contains_key(k)
                    &&& g0.contains_key(k) ==> queue_entries(*global)[k] == g0[k]
                },
            forall|k: Seq<char>|
                #[trigger] g0.contains_key(k) && !l0.contains_key(k) ==> queue_entries(*global)[k]
                    == g0[k],
        decreases items@.len() - j,
    {
        let word = &items[j].0;
        let lw = items[j].1;
        let ghost gb = queue_entries(*global);
        let ghost lb = queue_entries(*local);
        let ghost kj = case_key(word@);
        proof {
            assert(e[j as int].0 == word@);
            assert(l0.contains_key(kj));
        }
        match queue_get(global, word) {
            Some(gw) => {
                if gw < lw {
                    queue_push(global, word, lw);
                }
                queue_remove(local, word);
            },
            None => {},
        }
        proof {
            let ga = queue_entries(*global);
            let la = queue_entries(*local);
            assert(ga.dom() =~= g0.dom());
            assert forall|k: Seq<char>| #[trigger] la.contains_key(k) implies l0.contains_key(k)
                && la[k] == l0[k] by {
                assert(lb.contains_key(k));
            }
            assert forall|a: int| 0 <= a < j + 1 implies {
                let k = case_key(#[trigger] e[a].0);
                if g0.contains_key(k) {
                    &&& !la.contains_key(k)
                    &&& ga[k] == target[k]
                } else {
                    la.contains_key(k)
                }
            } by {
                if a < j {
                    assert(case_key(e[a].0) != kj);
                }
            }
            assert forall|a: int| j + 1 <= a < e.len() implies {
                let k = case_key(#[trigger] e[a].0);
                &&& la.contains_key(k)
                &&& g0.contains_key(k) ==> ga[k] == g0[k]
            } by {
                assert(case_key(e[a].0) != kj);
            }
        }
        j += 1;
    }
    let ghost gb = queue_entries(*global);
    let ghost lb = queue_entries(*local);
    proof {
        assert forall|k: Seq<char>| #[trigger] lb.contains_key(k) implies !gb.contains_key(k) by {
            let a = choose|a: int| 0 <= a < e.len() && case_key(e[a].0) == k;
        }
    }
    queue_append(global, local);
    proof {
        let f = queue_entries(*global);
        assert(f.dom() =~= target.dom());
        assert forall|k: Seq<char>| #[trigger] f.contains_key(k) implies f[k] == target[k] by {
            if l0.contains_key(k) {
                let a = choose|a: int| 0 <= a < e.len() && case_key(e[a].0) == k;
            }
        }
        assert(f =~= target);
        assert forall|k: Seq<char>| #[trigger] f.contains_key(k) implies MIN_THRESHOLD
            <= f[k].1 <= MAX_THRESHOLD by {
            assert(g0.contains_key(k) || l0.contains_key(k));
        }
        assert(target.dom() =~= g0.dom().union(l0.dom()));
    }
}

/// Size requested for the report on a message of `len` characters.
pub open spec fn feed_limit(len: nat, percentage: nat) -> int {
    ((len * percentage) / 100) as int
}

/// The keyword engine: a store of word weights, keyed case-insensitively,
/// that every message fed updates, and the configuration it ranks with.
///
/// A word keeps the spelling under which it was first stored. Past messages
/// themselves are not kept: nothing in the ranking reads them back.
pub struct Ssage {
    keywords: KeywordQueue,
    configuration: Configuration,
}

impl Ssage {
    /// The stored words by case key, each with its stored form and weight.
    pub closed spec fn entries(&self) -> Map<Seq<char>, Entry> {
        queue_entries(self.keywords)
    }

    pub closed spec fn config(&self) -> Configuration {
        self.configuration
    }

    /// The order in which the store hands out its words by weight.
    pub closed spec fn ranking(&self) -> Seq<Entry> {
        ranked_of(self.keywords)
    }

    /// Every stored weight lies within `[MIN_THRESHOLD, MAX_THRESHOLD]`, and
    /// every stored word is a non-empty run of word characters.
    pub open spec fn wf(&self) -> bool {
        bounded(self.entries()) && all_words(self.entries())
    }

    /// An engine that knows no word yet.
    pub fn new(configuration: Configuration) -> (r: Ssage)
        ensures
            r.wf(),
            r.entries().is_empty(),
            r.config() == configuration,
    {
        let keywords = queue_new();
        Ssage { keywords, configuration }
    }

    /// Feeds one message: cleans it, weighs its words against the store,
    /// reports on them, and merges them into the store.
    ///
    /// The report lists the message's weighted words by weight, highest
    /// first; how words of equal weight are ordered is left to the queue.
    pub fn feed(&mut self, message: &str) -> (r: String)
        requires
            old(self).wf(),
        ensures
            final(self).wf(),
            final(self).config() == old(self).config(),
            exists|s: Seq<Entry>|
                ranks(s, local_entries(words_of(normalize(message@)), old(self).entries()))
                    && r@ == report(
                    s,
                    &old(self).config(),
                    Some(
                        feed_limit(
                            message@.len(),
                            old(self).config().take_words_percentage as nat,
                        ),
                    ),
                ),
            final(self).entries() == merged(
                old(self).entries(),
                local_entries(words_of(normalize(message@)), old(self).entries()),
            ),
    {
        let chars = chars_of(message);
        let clean = normalize_text(&chars);
        let ws = split_words(&clean);
        let mut local = fetch_important_keywords(&self.keywords, &ws);
        let len = clean.len();
        let pct = self.configuration.take_words_percentage;
        assert((len as int) * (pct as int) <= u128::MAX) by (nonlinear_arith)
            requires
                len <= usize::MAX,
                pct <= usize::MAX,
                usize::MAX < 0x1_0000_0000_0000_0000,
        ;
        let n: u128 = (len as u128) * (pct as u128) / 100;
        let limit: usize = if n > usize::MAX as u128 {
            usize::MAX
        } else {
            n as usize
        };
        let ranked = queue_into_ranked(queue_clone(&local));
        let output = rank_output(&ranked, &self.configuration, Some(limit));
        proof {
            let c = &self.configuration;
            let full = feed_limit(message@.len(), pct as nat);
            assert(full == n as int);
            assert(window(limit as int, c) == window(full, c));
            assert(report(entry_views(ranked@), c, as_int(Some(limit))) == report(
                entry_views(ranked@),
                c,
                Some(full),
            ));
        }
        merge_keywords(&mut self.keywords, &mut local);
        proof {
            let ws0 = words_of(normalize(message@));
            lemma_words_of_normalized(message@);
            lemma_counted_words(ws0);
            let g0 = old(self).entries();
            let l0 = local_entries(ws0, g0);
            let f = self.entries();
            assert forall|k: Seq<char>| #[trigger] f.contains_key(k) implies is_word(f[k].0) by {
                if !g0.contains_key(k) {
                    assert(counted(ws0).contains_key(k));
                }
            }
        }
        output
    }

    /// Reports on the whole store, sized by `take_words_max`, without feeding
    /// anything. Words of equal weight come in the store's own order, which
    /// depends on its state alone, so the same state gives the same report.
    pub fn feed_empty(&self) -> (r: String)
        requires
            self.wf(),
        ensures
            ranks(self.ranking(), self.entries()),
            r@ == report(self.ranking(), &self.config(), Some(self.config().take_words_max as int)),
    {
        let copy = queue_clone(&self.keywords);
        let ranked = queue_into_ranked(copy);
        rank_output(&ranked, &self.configuration, Some(self.configuration.take_words_max))
    }

    /// Raises the weight of a known word by one, up to `MAX_THRESHOLD`;
    /// returns whether the word is known. An unknown word is not inserted.
    pub fn prioritize_keyword(&mut self, keyword: &str) -> (r: bool)
        requires
            old(self).wf(),
        ensures
            final(self).wf(),
            final(self).config() == old(self).config(),
            r == old(self).entries().contains_key(case_key(keyword@)),
            final(self).entries() == adjusted(
                old(self).entries(),
                case_key(keyword@),
                WEIGHT_INCREMENT as int,
            ),
    {
        let word = chars_of(keyword);
        change_keyword_weight(&mut self.keywords, &word, false, WEIGHT_INCREMENT as i64)
    }

    /// Lowers the weight of a known word by one, down to `MIN_THRESHOLD`;
    /// returns whether the word is known. An unknown word is not inserted.
    pub fn trivialize_keyword(&mut self, keyword: &str) -> (r: bool)
        requires
            old(self).wf(),
        ensures
            final(self).wf(),
            final(self).config() == old(self).config(),
            r == old(self).entries().contains_key(case_key(keyword@)),
            final(self).entries() == adjusted(
                old(self).entries(),
                case_key(keyword@),
                -(WEIGHT_INCREMENT as int),
            ),
    {
        let word = chars_of(keyword);
        change_keyword_weight(&mut self.keywords, &word, false, -(WEIGHT_INCREMENT as i64))
    }
}

} // verus!
