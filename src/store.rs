use priority_queue::PriorityQueue;
use unicase::UniCase;
use vstd::prelude::*;

verus! {

#[verifier::external_type_specification]
#[verifier::external_body]
#[verifier::reject_recursive_types(S)]
pub struct ExUniCase<S>(UniCase<S>);

#[verifier::external_type_specification]
#[verifier::external_body]
#[verifier::reject_recursive_types(I)]
#[verifier::reject_recursive_types(P)]
#[verifier::reject_recursive_types(H)]
pub struct ExPriorityQueue<I, P, H>(PriorityQueue<I, P, H>);

/// Words keyed case-insensitively, each with its weight as priority.
pub type KeywordQueue = PriorityQueue<UniCase<String>, u64>;

/// What `UniCase` compares: two words are the same key exactly when their
/// `case_key`s are equal.
pub uninterp spec fn case_key(s: Seq<char>) -> Seq<char>;

/// The contents of a queue: for each case key, the stored form of the word
/// and its weight.
pub uninterp spec fn queue_entries(q: KeywordQueue) -> Map<Seq<char>, (Seq<char>, u64)>;

/// The order in which `into_sorted_iter` hands out the items of a queue; it
/// depends on the queue's value alone.
pub uninterp spec fn ranked_of(q: KeywordQueue) -> Seq<(Seq<char>, u64)>;

/// A word paired with its weight.
pub type Entry = (Seq<char>, u64);

pub open spec fn entry_views(v: Seq<(Vec<char>, u64)>) -> Seq<Entry> {
    v.map_values(|e: (Vec<char>, u64)| (e.0@, e.1))
}

/// `s` lists each entry of `m` exactly once, under its stored form.
pub open spec fn lists(s: Seq<Entry>, m: Map<Seq<char>, Entry>) -> bool {
    &&& m.dom().finite()
    &&& forall|i: int|
        0 <= i < s.len() ==> #[trigger] m.contains_key(case_key(s[i].0)) && m[case_key(s[i].0)]
            == s[i]
    &&& forall|i: int, j: int|
        0 <= i < j < s.len() ==> case_key(#[trigger] s[i].0) != case_key(#[trigger] s[j].0)
    &&& forall|k: Seq<char>|
        #[trigger] m.contains_key(k) ==> exists|i: int| 0 <= i < s.len() && case_key(s[i].0) == k
}

/// Weights never increase along `s`.
pub open spec fn descending(s: Seq<Entry>) -> bool {
    forall|i: int, j: int| 0 <= i < j < s.len() ==> (#[trigger] s[i]).1 >= (#[trigger] s[j]).1
}

/// `s` lists the entries of `m` by weight, highest first.
pub open spec fn ranks(s: Seq<Entry>, m: Map<Seq<char>, Entry>) -> bool {
    lists(s, m) && descending(s)
}

pub open spec fn no_entries() -> Map<Seq<char>, Entry> {
    Map::empty()
}

/// Relies on `PriorityQueue::new`: a new queue holds nothing.
#[verifier::external_body]
pub(crate) fn queue_new() -> (r: KeywordQueue)
    ensures
        queue_entries(r) == no_entries(),
{
    PriorityQueue::new()
}

/// Relies on `Clone` of `PriorityQueue`, derived field by field: the copy
/// holds the same items in the same heap layout, so it hands them out in the
/// same order.
#[verifier::external_body]
pub(crate) fn queue_clone(q: &KeywordQueue) -> (r: KeywordQueue)
    ensures
        queue_entries(r) == queue_entries(*q),
        ranked_of(r) == ranked_of(*q),
{
    q.clone()
}

/// Relies on `PriorityQueue::get_priority`, which finds an item by `UniCase`
/// equality.
#[verifier::external_body]
pub(crate) fn queue_get(q: &KeywordQueue, word: &Vec<char>) -> (r: Option<u64>)
    ensures
        r == (if queue_entries(*q).contains_key(case_key(word@)) {
            Some(queue_entries(*q)[case_key(word@)].1)
        } else {
            None::<u64>
        }),
{
    q.get_priority(&UniCase::new(word.iter().collect::<String>())).copied()
}

/// Relies on `PriorityQueue::push`: an absent word is inserted with the
/// weight; a present one keeps its stored form and takes the new weight.
#[verifier::external_body]
pub(crate) fn queue_push(q: &mut KeywordQueue, word: &Vec<char>, w: u64)
    ensures
        queue_entries(*final(q)) == queue_entries(*old(q)).insert(
            case_key(word@),
            (
                if queue_entries(*old(q)).contains_key(case_key(word@)) {
                    queue_entries(*old(q))[case_key(word@)].0
                } else {
                    word@
                },
                w,
            ),
        ),
{
    let _ = q.push(UniCase::new(word.iter().collect::<String>()), w);
}

/// Relies on `PriorityQueue::remove`: the item equal to `word` leaves.
#[verifier::external_body]
pub(crate) fn queue_remove(q: &mut KeywordQueue, word: &Vec<char>)
    ensures
        queue_entries(*final(q)) == queue_entries(*old(q)).remove(case_key(word@)),
{
    let _ = q.remove(&UniCase::new(word.iter().collect::<String>()));
}

/// Relies on `PriorityQueue::append`: the items of the larger queue stay, and
/// those of the other queue are added where their key is absent.
#[verifier::external_body]
pub(crate) fn queue_append(q: &mut KeywordQueue, other: &mut KeywordQueue)
    ensures
        queue_entries(*final(q)) == (if queue_entries(*old(other)).len() > queue_entries(
            *old(q),
        ).len() {
            queue_entries(*old(q)).union_prefer_right(queue_entries(*old(other)))
        } else {
            queue_entries(*old(other)).union_prefer_right(queue_entries(*old(q)))
        }),
{
    q.append(other)
}

/// Relies on `PriorityQueue::iter`: each item once, with its priority.
#[verifier::external_body]
pub(crate) fn queue_items(q: &KeywordQueue) -> (r: Vec<(Vec<char>, u64)>)
    ensures
        lists(entry_views(r@), queue_entries(*q)),
{
    q.iter().map(|(k, p)| (k.chars().collect(), *p)).collect()
}

/// Relies on `PriorityQueue::into_sorted_iter`: each item once, highest
/// priority first.
#[verifier::external_body]
pub(crate) fn queue_into_ranked(q: KeywordQueue) -> (r: Vec<(Vec<char>, u64)>)
    ensures
        entry_views(r@) == ranked_of(q),
        ranks(entry_views(r@), queue_entries(q)),
{
    q.into_sorted_iter().map(|(k, p)| (k.into_inner().chars().collect(), p)).collect()
}

/// Relies on `String`'s `FromIterator<char>`: the string holds the characters
/// in order.
#[verifier::external_body]
pub(crate) fn string_of(v: &Vec<char>) -> (r: String)
    ensures
        r@ == v@,
{
    v.iter().collect()
}

/// Relies on `str::chars`: the characters of the string in order.
#[verifier::external_body]
pub(crate) fn chars_of(s: &str) -> (r: Vec<char>)
    ensures
        r@ == s@,
{
    s.chars().collect()
}

} // verus!
