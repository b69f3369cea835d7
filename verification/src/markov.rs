//! A word-level Markov chain over text.
//!
//! Training walks the text once: it splits on whitespace, keeps the
//! alphabetic characters of each word, lowercases the result, and records
//! every consecutive pair as a transition.  Generation starts from a word
//! and repeatedly draws a uniformly random successor; a successor that was
//! observed several times occurs several times in its list and is drawn
//! proportionally more often.
//!
//! The chain's model is a map from each seen word to the sequence of its
//! observed successors.  The table is kept as a vector of entries with
//! pairwise-distinct keys; `lookup` reads it, and every contract speaks of
//! the derived map.

use vstd::prelude::*;
use vstd::string::StringExecFns;
use vstd::string::StrSliceExecFns;

verus! {

/// Whether a character has the Unicode White_Space property, as
/// `char::is_whitespace` decides it.
pub uninterp spec fn ws_char(c: char) -> bool;

/// Whether a character has the Unicode Alphabetic property, as
/// `char::is_alphabetic` decides it.
pub uninterp spec fn alpha_char(c: char) -> bool;

/// The Unicode lowercasing of a word, as `str::to_lowercase` computes it:
/// a function of the characters alone.
pub uninterp spec fn lower_of(s: Seq<char>) -> Seq<char>;

/// Relies on `char::is_whitespace`: whether `c` has the Unicode
/// White_Space property, a function of the character alone.
#[verifier::external_body]
fn is_ws(c: char) -> (r: bool)
    ensures
        r == ws_char(c),
{
    c.is_whitespace()
}

/// Relies on `char::is_alphabetic`: whether `c` has the Unicode
/// Alphabetic property, a function of the character alone.
#[verifier::external_body]
fn is_alpha(c: char) -> (r: bool)
    ensures
        r == alpha_char(c),
{
    c.is_alphabetic()
}

/// Relies on `str::to_lowercase`: the lowercasing of a word is a function
/// of its characters alone, and the result is empty exactly when the word
/// is (every character lowercases to at least one character).
#[verifier::external_body]
fn to_lower(w: &Vec<char>) -> (r: String)
    ensures
        r@ == lower_of(w@),
        w@.len() == 0 <==> r@.len() == 0,
{
    w.iter().collect::<String>().to_lowercase()
}

#[verifier::external_type_specification]
#[verifier::external_body]
pub struct ExStdRng(rand::rngs::StdRng);

/// Relies on `rand::Rng::gen_range` over `0..n`: the draw lies in that
/// range whatever the generator's state; the call panics only on an empty
/// range, which `n >= 1` rules out.
#[verifier::external_body]
fn draw_below(rng: &mut rand::rngs::StdRng, n: usize) -> (r: usize)
    requires
        n >= 1,
    ensures
        r < n,
{
    rand::Rng::gen_range(rng, 0..n)
}

/// One table entry in the abstract: a key with its successor list.
pub type Entry = (Seq<char>, Seq<Seq<char>>);

/// The abstract reading of the concrete table.
pub open spec fn assoc_of(t: Seq<(String, Vec<String>)>) -> Seq<Entry> {
    Seq::new(t.len(), |i: int| (t[i].0@, t[i].1.deep_view()))
}

/// How the abstract table reads off the concrete one.
proof fn lemma_assoc(t: Seq<(String, Vec<String>)>)
    ensures
        assoc_of(t).len() == t.len(),
        forall|i: int|
            0 <= i < t.len() ==> #[trigger] assoc_of(t)[i] == (t[i].0@, t[i].1.deep_view()),
{
}

/// The first entry with the given key, scanning from the front.
pub open spec fn lookup(es: Seq<Entry>, k: Seq<char>) -> Option<Seq<Seq<char>>>
    decreases es.len(),
{
    if es.len() == 0 {
        None
    } else if es[0].0 == k {
        Some(es[0].1)
    } else {
        lookup(es.drop_first(), k)
    }
}

/// The successors recorded for a key: its entry's list, or empty when the
/// key was never seen.
pub open spec fn successors(es: Seq<Entry>, k: Seq<char>) -> Seq<Seq<char>> {
    match lookup(es, k) {
        Some(v) => v,
        None => Seq::empty(),
    }
}

/// No two entries share a key.
pub open spec fn distinct_keys(es: Seq<Entry>) -> bool {
    forall|i: int, j: int| 0 <= i < j < es.len() ==> (#[trigger] es[i]).0 != (#[trigger] es[j]).0
}

/// The map the table denotes.
pub open spec fn map_of(es: Seq<Entry>) -> Map<Seq<char>, Seq<Seq<char>>> {
    Map::new(|k: Seq<char>| lookup(es, k) is Some, |k: Seq<char>| successors(es, k))
}

proof fn lemma_distinct_drop_first(es: Seq<Entry>)
    requires
        distinct_keys(es),
        es.len() > 0,
    ensures
        distinct_keys(es.drop_first()),
{
    assert forall|i: int, j: int|
        0 <= i < j < es.drop_first().len() implies (#[trigger] es.drop_first()[i]).0 != (
    #[trigger] es.drop_first()[j]).0 by {
        assert(es.drop_first()[i] == es[i + 1]);
        assert(es.drop_first()[j] == es[j + 1]);
    }
}

/// With distinct keys, the entry at a key's position is what `lookup`
/// finds.
proof fn lemma_lookup_found(es: Seq<Entry>, i: int)
    requires
        distinct_keys(es),
        0 <= i < es.len(),
    ensures
        lookup(es, es[i].0) == Some(es[i].1),
    decreases es.len(),
{
    if i > 0 {
        lemma_distinct_drop_first(es);
        lemma_lookup_found(es.drop_first(), i - 1);
    }
}

/// `lookup` misses exactly when no entry has the key.
proof fn lemma_lookup_absent(es: Seq<Entry>, k: Seq<char>)
    ensures
        lookup(es, k) is None <==> forall|j: int| 0 <= j < es.len() ==> (#[trigger] es[j]).0 != k,
    decreases es.len(),
{
    if es.len() > 0 {
        lemma_lookup_absent(es.drop_first(), k);
        assert forall|j: int| 1 <= j < es.len() implies es.drop_first()[j - 1] == es[j] by {}
        if es[0].0 != k && lookup(es.drop_first(), k) is None {
            assert forall|j: int| 0 <= j < es.len() implies (#[trigger] es[j]).0 != k by {
                if j > 0 {
                    assert(es.drop_first()[j - 1] == es[j]);
                }
            }
        }
    }
}

/// Replacing the list at one position changes `lookup` at that key alone.
proof fn lemma_lookup_update(es: Seq<Entry>, i: int, v: Seq<Seq<char>>, k: Seq<char>)
    requires
        distinct_keys(es),
        0 <= i < es.len(),
    ensures
        lookup(es.update(i, (es[i].0, v)), k) == (if k == es[i].0 {
            Some(v)
        } else {
            lookup(es, k)
        }),
    decreases es.len(),
{
    let es2 = es.update(i, (es[i].0, v));
    if i == 0 {
        assert(es2.drop_first() =~= es.drop_first());
    } else {
        assert(es2[0] == es[0]);
        assert(es[0].0 != es[i].0);
        lemma_distinct_drop_first(es);
        assert(es2.drop_first() =~= es.drop_first().update(i - 1, (es.drop_first()[i - 1].0, v)));
        lemma_lookup_update(es.drop_first(), i - 1, v, k);
    }
}

/// Appending an entry changes `lookup` only at a key that was absent.
proof fn lemma_lookup_push(es: Seq<Entry>, e: Entry, k: Seq<char>)
    ensures
        lookup(es.push(e), k) == (if lookup(es, k) is Some {
            lookup(es, k)
        } else if k == e.0 {
            Some(e.1)
        } else {
            None
        }),
    decreases es.len(),
{
    if es.len() == 0 {
        assert(es.push(e)[0] == e);
        assert(es.push(e).drop_first() =~= Seq::<Entry>::empty());
    } else {
        assert(es.push(e)[0] == es[0]);
        assert(es.push(e).drop_first() =~= es.drop_first().push(e));
        lemma_lookup_push(es.drop_first(), e, k);
    }
}

/// A table with distinct keys denotes a map with one key per entry.
proof fn lemma_map_len(es: Seq<Entry>)
    requires
        distinct_keys(es),
    ensures
        map_of(es).dom().finite(),
        map_of(es).dom().len() == es.len(),
    decreases es.len(),
{
    if es.len() == 0 {
        assert(map_of(es).dom() =~= Set::<Seq<char>>::empty());
    } else {
        let head = es.drop_last();
        let e = es.last();
        assert(es =~= head.push(e));
        assert(distinct_keys(head)) by {
            assert forall|i: int, j: int|
                0 <= i < j < head.len() implies (#[trigger] head[i]).0 != (#[trigger] head[j]).0 by {
                assert(head[i] == es[i]);
                assert(head[j] == es[j]);
            }
        }
        lemma_map_len(head);
        assert forall|k: Seq<char>| true implies #[trigger] lookup(es, k) == (if lookup(head, k)
            is Some {
            lookup(head, k)
        } else if k == e.0 {
            Some(e.1)
        } else {
            None
        }) by {
            lemma_lookup_push(head, e, k);
        }
        assert(lookup(head, e.0) is None) by {
            lemma_lookup_absent(head, e.0);
            assert forall|j: int| 0 <= j < head.len() implies (#[trigger] head[j]).0 != e.0 by {
                assert(head[j] == es[j]);
                assert(es[j].0 != es[es.len() - 1].0);
            }
        }
        assert(map_of(es).dom() =~= map_of(head).dom().insert(e.0));
        broadcast use vstd::set::group_set_axioms;
        vstd::set::axiom_set_insert_len(map_of(head).dom(), e.0);
    }
}

/// Recording one observed transition: the pair's source maps to its old
/// successor list (empty when unseen) with the destination appended.
pub open spec fn with_pair(
    m: Map<Seq<char>, Seq<Seq<char>>>,
    from: Seq<char>,
    to: Seq<char>,
) -> Map<Seq<char>, Seq<Seq<char>>> {
    m.insert(
        from,
        (if m.contains_key(from) {
            m[from]
        } else {
            Seq::empty()
        }).push(to),
    )
}

/// Recording every consecutive pair of a word sequence, left to right.
pub open spec fn with_pairs(
    m: Map<Seq<char>, Seq<Seq<char>>>,
    ws: Seq<Seq<char>>,
) -> Map<Seq<char>, Seq<Seq<char>>>
    decreases ws.len(),
{
    if ws.len() < 2 {
        m
    } else {
        with_pairs(with_pair(m, ws[0], ws[1]), ws.drop_first())
    }
}

/// The words of a text, reading character by character: whitespace closes
/// the word in progress, an alphabetic character extends it, anything else
/// is dropped; a closed word is lowercased, and empty words (runs with no
/// alphabetic character) are discarded.
pub open spec fn words_acc(s: Seq<char>, cur: Seq<char>, acc: Seq<Seq<char>>) -> Seq<Seq<char>>
    decreases s.len(),
{
    if s.len() == 0 {
        if cur.len() == 0 {
            acc
        } else {
            acc.push(lower_of(cur))
        }
    } else if ws_char(s[0]) {
        words_acc(
            s.drop_first(),
            Seq::empty(),
            if cur.len() == 0 {
                acc
            } else {
                acc.push(lower_of(cur))
            },
        )
    } else if alpha_char(s[0]) {
        words_acc(s.drop_first(), cur.push(s[0]), acc)
    } else {
        words_acc(s.drop_first(), cur, acc)
    }
}

/// The cleaned, lowercased words of a text.
pub open spec fn words_of(s: Seq<char>) -> Seq<Seq<char>> {
    words_acc(s, Seq::empty(), Seq::empty())
}

/// A word-level Markov chain: for each word seen in the training text, the
/// list of words observed to follow it.
pub struct NGram {
    transitions: Vec<(String, Vec<String>)>,
}

impl NGram {
    /// The chain's entries: each key with its successor list, in first-seen
    /// order.
    pub closed spec fn entries(self) -> Seq<Entry> {
        assoc_of(self.transitions@)
    }

    /// The map from each seen word to its successors.
    pub open spec fn model(self) -> Map<Seq<char>, Seq<Seq<char>>> {
        map_of(self.entries())
    }

    /// No word owns two entries.
    pub open spec fn well_formed(self) -> bool {
        distinct_keys(self.entries())
    }

    /// An empty chain.
    pub fn new() -> (r: NGram)
        ensures
            r.well_formed(),
            r.model() == Map::<Seq<char>, Seq<Seq<char>>>::empty(),
            r.entries().len() == 0,
    {
        let t = NGram { transitions: Vec::new() };
        proof {
            assert(t.entries().len() == 0);
            assert(t.model() =~= Map::<Seq<char>, Seq<Seq<char>>>::empty());
        }
        t
    }

    /// The number of distinct words seen.
    pub fn word_count(&self) -> (r: usize)
        requires
            self.well_formed(),
        ensures
            self.model().dom().finite(),
            r == self.model().dom().len(),
    {
        proof {
            lemma_assoc(self.transitions@);
            lemma_map_len(self.entries());
        }
        self.transitions.len()
    }

    /// Records one observed transition from `from` to `to`.
    pub fn add_transition(&mut self, from: &str, to: &str)
        requires
            old(self).well_formed(),
        ensures
            final(self).well_formed(),
            final(self).model() == with_pair(old(self).model(), from@, to@),
    {
        let from_string: String = from.to_owned();
        let to_string: String = to.to_owned();
        let ghost es = self.entries();
        let n = self.transitions.len();
        let mut i: usize = 0;
        while i < n
            invariant
                *self == *old(self),
                old(self).well_formed(),
                es == self.entries(),
                n == self.transitions@.len(),
                i <= n,
                from_string@ == from@,
                to_string@ == to@,
                forall|k: int| 0 <= k < i ==> (#[trigger] es[k]).0 != from@,
            decreases n - i,
        {
            proof {
                lemma_assoc(self.transitions@);
            }
            let hit = self.transitions[i].0 == from_string;
            if hit {
                proof {
                    assert(es[i as int].0 == from@);
                    lemma_lookup_found(es, i as int);
                }
                let mut pair = self.transitions.remove(i);
                pair.1.push(to_string);
                self.transitions.insert(i, pair);
                proof {
                    let old_t = old(self).transitions@;
                    assert(self.transitions@ =~= old_t.update(i as int, pair));
                    assert(pair.1.deep_view() =~= old_t[i as int].1.deep_view().push(to@));
                    lemma_assoc(self.transitions@);
                    lemma_assoc(old_t);
                    assert(self.entries() =~= es.update(
                        i as int,
                        (es[i as int].0, es[i as int].1.push(to@)),
                    ));
                    assert forall|p: int, q: int|
                        0 <= p < q < self.entries().len() implies (#[trigger] self.entries()[p]).0
                        != (#[trigger] self.entries()[q]).0 by {
                        assert(self.entries()[p].0 == es[p].0);
                        assert(self.entries()[q].0 == es[q].0);
                    }
                    assert forall|k: Seq<char>| true implies #[trigger] lookup(self.entries(), k)
                        == (if k == from@ {
                        Some(es[i as int].1.push(to@))
                    } else {
                        lookup(es, k)
                    }) by {
                        lemma_lookup_update(es, i as int, es[i as int].1.push(to@), k);
                    }
                    assert(self.model() =~= with_pair(old(self).model(), from@, to@));
                }
                return ;
            }
            i += 1;
        }
        proof {
            lemma_lookup_absent(es, from@);
        }
        let mut succ: Vec<String> = Vec::new();
        succ.push(to_string);
        self.transitions.push((from_string, succ));
        proof {
            let old_t = old(self).transitions@;
            lemma_assoc(self.transitions@);
            lemma_assoc(old_t);
            assert(succ.deep_view() =~= seq![to@]);
            assert(self.entries() =~= es.push((from@, seq![to@])));
            assert forall|p: int, q: int|
                0 <= p < q < self.entries().len() implies (#[trigger] self.entries()[p]).0 != (
            #[trigger] self.entries()[q]).0 by {
                if q < es.len() {
                    assert(self.entries()[p] == es[p]);
                    assert(self.entries()[q] == es[q]);
                } else {
                    assert(self.entries()[p] == es[p]);
                    assert(es[p].0 != from@);
                }
            }
            assert forall|k: Seq<char>| true implies #[trigger] lookup(self.entries(), k) == (if k
                == from@ {
                Some(seq![to@])
            } else {
                lookup(es, k)
            }) by {
                lemma_lookup_push(es, (from@, seq![to@]), k);
            }
            assert(Seq::<Seq<char>>::empty().push(to@) =~= seq![to@]);
            assert(self.model() =~= with_pair(old(self).model(), from@, to@));
        }
    }

    /// Trains the chain on a text: splits it into cleaned, lowercased
    /// words and records every consecutive pair.
    pub fn process_text(&mut self, text: &str)
        requires
            old(self).well_formed(),
        ensures
            final(self).well_formed(),
            final(self).model() == with_pairs(old(self).model(), words_of(text@)),
    {
        let n_chars = text.unicode_len();
        let mut words: Vec<String> = Vec::new();
        let mut cur: Vec<char> = Vec::new();
        let mut idx: usize = 0;
        proof {
            assert(text@.skip(0) =~= text@);
            assert(words.deep_view() =~= Seq::<Seq<char>>::empty());
            assert(cur@ =~= Seq::<char>::empty());
        }
        while idx < n_chars
            invariant
                n_chars == text@.len(),
                idx <= n_chars,
                words_acc(text@.skip(idx as int), cur@, words.deep_view()) == words_of(text@),
            decreases n_chars - idx,
        {
            let c = text.get_char(idx);
            let ghost rest = text@.skip(idx as int);
            let ghost pre_cur = cur@;
            let ghost pre_words = words.deep_view();
            proof {
                assert(rest[0] == c);
                assert(rest.drop_first() =~= text@.skip(idx as int + 1));
            }
            if is_ws(c) {
                if cur.len() > 0 {
                    let w = to_lower(&cur);
                    words.push(w);
                    cur = Vec::new();
                    proof {
                        assert(words.deep_view() =~= pre_words.push(lower_of(pre_cur)));
                        assert(cur@ =~= Seq::<char>::empty());
                        assert(words_acc(rest, pre_cur, pre_words) == words_acc(
                            rest.drop_first(),
                            Seq::<char>::empty(),
                            pre_words.push(lower_of(pre_cur)),
                        ));
                    }
                } else {
                    proof {
                        assert(pre_cur =~= Seq::<char>::empty());
                        assert(words_acc(rest, pre_cur, pre_words) == words_acc(
                            rest.drop_first(),
                            Seq::<char>::empty(),
                            pre_words,
                        ));
                    }
                }
            } else if is_alpha(c) {
                cur.push(c);
                proof {
                    assert(cur@ =~= pre_cur.push(c));
                    assert(words_acc(rest, pre_cur, pre_words) == words_acc(
                        rest.drop_first(),
                        pre_cur.push(c),
                        pre_words,
                    ));
                }
            } else {
                proof {
                    assert(words_acc(rest, pre_cur, pre_words) == words_acc(
                        rest.drop_first(),
                        pre_cur,
                        pre_words,
                    ));
                }
            }
            idx += 1;
        }
        proof {
            assert(text@.skip(n_chars as int) =~= Seq::<char>::empty());
        }
        if cur.len() > 0 {
            let ghost pre_words = words.deep_view();
            let ghost pre_cur = cur@;
            let w = to_lower(&cur);
            words.push(w);
            proof {
                assert(words.deep_view() =~= pre_words.push(lower_of(pre_cur)));
                assert(words_acc(Seq::<char>::empty(), pre_cur, pre_words) == pre_words.push(
                    lower_of(pre_cur),
                ));
            }
        } else {
            proof {
                assert(cur@ =~= Seq::<char>::empty());
            }
        }
        proof {
            assert(words.deep_view() == words_of(text@));
        }
        let ghost wds = words.deep_view();
        let ghost m0 = self.model();
        if words.len() >= 2 {
            let mut t: usize = 0;
            proof {
                assert(wds.skip(0) =~= wds);
            }
            let limit = words.len() - 1;
            while t < limit
                invariant
                    self.well_formed(),
                    wds == words.deep_view(),
                    wds.len() == words@.len(),
                    limit == words@.len() - 1,
                    t <= limit,
                    with_pairs(self.model(), wds.skip(t as int)) == with_pairs(m0, wds),
                decreases words@.len() - t,
            {
                proof {
                    assert(wds[t as int] == words@[t as int]@);
                    assert(wds[t as int + 1] == words@[t as int + 1]@);
                    assert(wds.skip(t as int).drop_first() =~= wds.skip(t as int + 1));
                    assert(wds.skip(t as int)[0] == wds[t as int]);
                    assert(wds.skip(t as int)[1] == wds[t as int + 1]);
                }
                let w_from = words[t].as_str();
                let w_to = words[t + 1].as_str();
                self.add_transition(w_from, w_to);
                t += 1;
            }
            proof {
                assert(wds.skip(t as int).len() < 2);
                assert(with_pairs(self.model(), wds.skip(t as int)) == self.model());
                assert(self.model() == with_pairs(m0, wds));
            }
        }
        proof {
            if wds.len() < 2 {
                assert(with_pairs(m0, wds) == m0);
            }
            assert(self.model() == with_pairs(old(self).model(), words_of(text@)));
        }
    }

    /// The successors recorded for a word (empty when the word was never
    /// seen as a source).
    pub fn successors_of(&self, from: &str) -> (r: Vec<String>)
        requires
            self.well_formed(),
        ensures
            r.deep_view() == successors(self.entries(), from@),
            self.model().contains_key(from@) ==> r.deep_view() == self.model()[from@],
            !self.model().contains_key(from@) ==> r.deep_view().len() == 0,
    {
        let from_string: String = from.to_owned();
        let ghost es = self.entries();
        let n = self.transitions.len();
        let mut i: usize = 0;
        while i < n
            invariant
                self.well_formed(),
                es == self.entries(),
                n == self.transitions@.len(),
                i <= n,
                from_string@ == from@,
                forall|k: int| 0 <= k < i ==> (#[trigger] es[k]).0 != from@,
            decreases n - i,
        {
            proof {
                lemma_assoc(self.transitions@);
            }
            if self.transitions[i].0 == from_string {
                proof {
                    lemma_lookup_found(es, i as int);
                }
                let src = &self.transitions[i].1;
                let mut out: Vec<String> = Vec::new();
                let mut k: usize = 0;
                while k < src.len()
                    invariant
                        k <= src@.len(),
                        out@.len() == k,
                        forall|p: int| 0 <= p < k ==> #[trigger] out@[p]@ == src@[p]@,
                    decreases src@.len() - k,
                {
                    out.push(src[k].clone());
                    k += 1;
                }
                proof {
                    assert(out.deep_view() =~= self.transitions@[i as int].1.deep_view());
                }
                return out;
            }
            i += 1;
        }
        proof {
            lemma_lookup_absent(es, from@);
        }
        Vec::new()
    }

    /// A uniformly random starting word: one of the chain's keys, or
    /// nothing when the chain is empty.
    pub fn get_random_start_word(&self, rng: &mut rand::rngs::StdRng) -> (r: Option<String>)
        requires
            self.well_formed(),
        ensures
            r is Some <==> self.entries().len() > 0,
            r is Some ==> self.model().contains_key(r->Some_0@),
    {
        proof {
            lemma_assoc(self.transitions@);
        }
        let n = self.transitions.len();
        if n == 0 {
            return None;
        }
        let idx = draw_below(rng, n);
        let entry = &self.transitions[idx];
        let key = entry.0.clone();
        proof {
            assert(self.entries()[idx as int].0 == key@);
            lemma_lookup_found(self.entries(), idx as int);
        }
        Some(key)
    }
}

/// A word sequence walks the chain: every word is followed by one of its
/// recorded successors.
pub open spec fn is_chain(m: Map<Seq<char>, Seq<Seq<char>>>, ws: Seq<Seq<char>>) -> bool {
    forall|i: int|
        0 <= i < ws.len() - 1 ==> m.contains_key(#[trigger] ws[i]) && m[ws[i]].contains(ws[i + 1])
}

/// The words joined with single spaces.
pub open spec fn joined(ws: Seq<Seq<char>>) -> Seq<char>
    decreases ws.len(),
{
    if ws.len() == 0 {
        Seq::empty()
    } else if ws.len() == 1 {
        ws[0]
    } else {
        joined(ws.drop_last()) + seq![' '] + ws.last()
    }
}

impl NGram {
    /// Generates text: starting from `start_word`, walks the chain with
    /// uniformly random successor draws until `length` words stand or a
    /// word without successors is reached, and joins the walk with spaces.
    pub fn generate_text(
        &self,
        start_word: &str,
        length: usize,
        rng: &mut rand::rngs::StdRng,
    ) -> (r: String)
        requires
            self.well_formed(),
        ensures
            exists|ws: Seq<Seq<char>>|
                {
                    &&& ws.len() >= 1
                    &&& ws[0] == start_word@
                    &&& (if length == 0 {
                        ws.len() == 1
                    } else {
                        ws.len() <= length
                    })
                    &&& (1 <= ws.len() < length ==> (self.model().contains_key(ws.last())
                        ==> self.model()[ws.last()].len() == 0))
                    &&& is_chain(self.model(), ws)
                    &&& r@ == joined(ws)
                },
    {
        let mut result: String = start_word.to_owned();
        let mut current: String = start_word.to_owned();
        let ghost mut ws: Seq<Seq<char>> = seq![start_word@];
        let mut step: usize = 1;
        let mut dead_end = false;
        proof {
            assert(ws[0] == start_word@);
            assert(joined(ws) == start_word@);
        }
        while step < length && !dead_end
            invariant
                self.well_formed(),
                1 <= step,
                length > 0 ==> step <= length,
                length == 0 ==> step == 1,
                ws.len() == step,
                ws[0] == start_word@,
                is_chain(self.model(), ws),
                result@ == joined(ws),
                current@ == ws.last(),
                dead_end ==> (self.model().contains_key(ws.last())
                    ==> self.model()[ws.last()].len() == 0),
            decreases length - step, (if dead_end { 0int } else { 1int }),
        {
            let succs = self.successors_of(current.as_str());
            if succs.len() == 0 {
                dead_end = true;
                proof {
                    assert(succs.deep_view().len() == 0);
                }
                continue ;
            }
            let idx = draw_below(rng, succs.len());
            let next_word = succs[idx].clone();
            result.append(" ");
            result.append(next_word.as_str());
            let ghost pre_ws = ws;
            proof {
                ws = ws.push(next_word@);
                assert(succs.deep_view()[idx as int] == succs@[idx as int]@);
                assert(lookup(self.entries(), current@) is Some);
                assert(self.model().contains_key(current@));
                assert(self.model()[current@].contains(next_word@)) by {
                    assert(self.model()[current@][idx as int] == next_word@);
                }
                assert forall|i: int|
                    0 <= i < ws.len() - 1 implies self.model().contains_key(#[trigger] ws[i])
                    && self.model()[ws[i]].contains(ws[i + 1]) by {
                    if i < pre_ws.len() - 1 {
                        assert(ws[i] == pre_ws[i]);
                        assert(ws[i + 1] == pre_ws[i + 1]);
                    } else {
                        assert(ws[i] == current@);
                        assert(ws[i + 1] == next_word@);
                    }
                }
                reveal_strlit(" ");
                assert(" "@ =~= seq![' ']);
                assert(ws.drop_last() =~= pre_ws);
                assert(ws.last() == next_word@);
                assert(result@ == joined(ws));
            }
            current = next_word;
            step += 1;
        }
        proof {
            assert(exists|w: Seq<Seq<char>>|
                {
                    &&& w.len() >= 1
                    &&& w[0] == start_word@
                    &&& (if length == 0 {
                        w.len() == 1
                    } else {
                        w.len() <= length
                    })
                    &&& (1 <= w.len() < length ==> (self.model().contains_key(w.last())
                        ==> self.model()[w.last()].len() == 0))
                    &&& is_chain(self.model(), w)
                    &&& result@ == joined(w)
                }) by {
                assert({
                    &&& ws.len() >= 1
                    &&& ws[0] == start_word@
                    &&& (if length == 0 {
                        ws.len() == 1
                    } else {
                        ws.len() <= length
                    })
                    &&& (1 <= ws.len() < length ==> (self.model().contains_key(ws.last())
                        ==> self.model()[ws.last()].len() == 0))
                    &&& is_chain(self.model(), ws)
                    &&& result@ == joined(ws)
                });
            }
        }
        result
    }
}

} // verus!
