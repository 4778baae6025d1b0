use vstd::prelude::*;

verus! {

/// A word character: an ASCII letter or a Latin-1 letter of
/// `U+00C0..=U+00FF`, which leaves out the signs `U+00D7` and `U+00F7`.
pub open spec fn is_word_char(c: char) -> bool {
    let v = c as u32;
    (65 <= v && v <= 90) || (97 <= v && v <= 122) || (0xC0 <= v && v <= 0xFF && v != 0xD7 && v
        != 0xF7)
}

/// A non-empty run of word characters.
pub open spec fn is_word(w: Seq<char>) -> bool {
    w.len() > 0 && forall|i: int| 0 <= i < w.len() ==> is_word_char(#[trigger] w[i])
}

pub open spec fn clean_char(c: char) -> char {
    if is_word_char(c) {
        c
    } else {
        ' '
    }
}

/// Every character that is not a word character becomes a space.
pub open spec fn normalize(s: Seq<char>) -> Seq<char> {
    s.map_values(|c: char| clean_char(c))
}

/// The finished words of the first `n` characters of `s`, and the word that is
/// still open after them.
pub open spec fn split_prefix(s: Seq<char>, n: nat) -> (Seq<Seq<char>>, Seq<char>)
    decreases n,
{
    if n == 0 {
        (seq![], seq![])
    } else {
        let (ws, cur) = split_prefix(s, (n - 1) as nat);
        if s[n - 1] == ' ' {
            if cur.len() > 0 {
                (ws.push(cur), seq![])
            } else {
                (ws, seq![])
            }
        } else {
            (ws, cur.push(s[n - 1]))
        }
    }
}

/// The maximal runs of non-space characters of `s`, in order.
pub open spec fn words_of(s: Seq<char>) -> Seq<Seq<char>> {
    let (ws, cur) = split_prefix(s, s.len());
    if cur.len() > 0 {
        ws.push(cur)
    } else {
        ws
    }
}

/// The words of `ws` with one space between neighbours.
pub open spec fn joined(ws: Seq<Seq<char>>) -> Seq<char>
    decreases ws.len(),
{
    if ws.len() == 0 {
        seq![]
    } else if ws.len() == 1 {
        ws[0]
    } else {
        joined(ws.drop_last()) + seq![' '] + ws.last()
    }
}

proof fn lemma_split_prefix_words(s: Seq<char>, n: nat)
    requires
        n <= s.len(),
        forall|i: int| 0 <= i < s.len() ==> #[trigger] s[i] == ' ' || is_word_char(s[i]),
    ensures
        forall|j: int| 0 <= j < split_prefix(s, n).0.len() ==> is_word(#[trigger] split_prefix(s, n).0[j]),
        forall|i: int| 0 <= i < split_prefix(s, n).1.len() ==> is_word_char(#[trigger] split_prefix(s, n).1[i]),
    decreases n,
{
    if n > 0 {
        lemma_split_prefix_words(s, (n - 1) as nat);
        let (ws, cur) = split_prefix(s, (n - 1) as nat);
        if s[n - 1] != ' ' {
            assert forall|i: int| 0 <= i < cur.push(s[n - 1]).len() implies is_word_char(
                #[trigger] cur.push(s[n - 1])[i],
            ) by {
                if i < cur.len() {
                    assert(cur.push(s[n - 1])[i] == cur[i]);
                }
            }
        } else if cur.len() > 0 {
            assert forall|j: int| 0 <= j < ws.push(cur).len() implies is_word(#[trigger] ws.push(cur)[j]) by {
                if j < ws.len() {
                    assert(ws.push(cur)[j] == ws[j]);
                }
            }
        }
    }
}

/// Every word of a cleaned message is a non-empty run of word characters.
pub proof fn lemma_words_of_normalized(s: Seq<char>)
    ensures
        forall|j: int| 0 <= j < words_of(normalize(s)).len() ==> is_word(#[trigger] words_of(normalize(s))[j]),
{
    let t = normalize(s);
    lemma_split_prefix_words(t, t.len());
    let (ws, cur) = split_prefix(t, t.len());
    if cur.len() > 0 {
        assert forall|j: int| 0 <= j < ws.push(cur).len() implies is_word(#[trigger] ws.push(cur)[j]) by {
            if j < ws.len() {
                assert(ws.push(cur)[j] == ws[j]);
            }
        }
    }
}

pub open spec fn views(v: Seq<Vec<char>>) -> Seq<Seq<char>> {
    v.map_values(|w: Vec<char>| w@)
}

pub fn is_word_character(c: char) -> (r: bool)
    ensures
        r == is_word_char(c),
{
    let v = c as u32;
    (65 <= v && v <= 90) || (97 <= v && v <= 122) || (0xC0 <= v && v <= 0xFF && v != 0xD7 && v
        != 0xF7)
}

/// Replaces each character that is not a word character by a space; the
/// length is kept.
pub fn normalize_text(s: &Vec<char>) -> (r: Vec<char>)
    ensures
        r@ == normalize(s@),
{
    let mut r: Vec<char> = Vec::new();
    let mut i: usize = 0;
    while i < s.len()
        invariant
            i <= s@.len(),
            r@.len() == i,
            forall|j: int| 0 <= j < i ==> r@[j] == clean_char(#[trigger] s@[j]),
        decreases s@.len() - i,
    {
        let c = s[i];
        if is_word_character(c) {
            r.push(c);
        } else {
            r.push(' ');
        }
        i += 1;
    }
    assert(r@ =~= normalize(s@));
    r
}

/// Splits `s` into its maximal runs of non-space characters.
pub fn split_words(s: &Vec<char>) -> (r: Vec<Vec<char>>)
    ensures
        views(r@) == words_of(s@),
{
    let mut ws: Vec<Vec<char>> = Vec::new();
    let mut cur: Vec<char> = Vec::new();
    let mut i: usize = 0;
    while i < s.len()
        invariant
            i <= s@.len(),
            (views(ws@), cur@) == split_prefix(s@, i as nat),
        decreases s@.len() - i,
    {
        let c = s[i];
        if c == ' ' {
            if cur.len() > 0 {
                let done = cur;
                cur = Vec::new();
                ws.push(done);
                assert(views(ws@) =~= split_prefix(s@, i as nat).0.push(done@));
            } else {
                cur = Vec::new();
            }
            assert(cur@ =~= seq![]);
        } else {
            cur.push(c);
        }
        i += 1;
    }
    if cur.len() > 0 {
        let last = cur;
        ws.push(last);
        assert(views(ws@) =~= split_prefix(s@, s@.len()).0.push(last@));
    }
    ws
}

/// Joins `ws` with a single space between neighbours.
pub fn join_words(ws: &Vec<Vec<char>>) -> (r: Vec<char>)
    ensures
        r@ == joined(views(ws@)),
{
    let mut r: Vec<char> = Vec::new();
    let mut i: usize = 0;
    while i < ws.len()
        invariant
            i <= ws@.len(),
            r@ == joined(views(ws@).take(i as int)),
        decreases ws@.len() - i,
    {
        let w = &ws[i];
        proof {
            assert(views(ws@).take(i + 1).drop_last() =~= views(ws@).take(i as int));
        }
        if i > 0 {
            r.push(' ');
        }
        let mut j: usize = 0;
        let ghost base = r@;
        while j < w.len()
            invariant
                j <= w@.len(),
                r@ == base + w@.take(j as int),
            decreases w@.len() - j,
        {
            r.push(w[j]);
            j += 1;
            assert(r@ =~= base + w@.take(j as int));
        }
        assert(w@.take(j as int) =~= w@);
        i += 1;
        proof {
            let t = views(ws@).take(i as int);
            if i == 1 {
                assert(t.len() == 1);
                assert(r@ =~= t[0]);
            } else {
                assert(r@ =~= joined(t.drop_last()) + seq![' '] + t.last());
            }
        }
    }
    assert(views(ws@).take(ws@.len() as int) =~= views(ws@));
    r
}

} // verus!
