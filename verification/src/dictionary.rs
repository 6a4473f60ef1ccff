//! The dictionary: a write-once collection of words, deduplicated and held
//! in lexicographic order of symbol content, and the levidrome pre-filter
//! that keeps only entries whose reversal is also a member.

use crate::order::{lemma_symbols_lt_total, lemma_symbols_lt_trans, symbols_lt, word_symbols_lt};
use crate::phoneme::{lemma_word_symbols, word_is_reverse_of, words_match, Word};
use vstd::prelude::*;

verus! {

/// Whether some word in `ws` holds exactly the symbols `wv`.
pub open spec fn has_symbols(ws: Seq<Word>, wv: Seq<Seq<char>>) -> bool {
    exists|k: int| 0 <= k < ws.len() && ws[k]@ == wv
}

/// An immutable collection of words, deduplicated by symbol content and
/// held in lexicographic order of it, so that searches walk candidates in a
/// fixed total order.
pub struct Dictionary {
    pub words: Vec<Word>,
}

/// The members stand in strictly increasing lexicographic order of their
/// symbol contents.
pub open spec fn sorted_by_symbols(ws: Seq<Word>) -> bool {
    forall|a: int, b: int| 0 <= a < b < ws.len() ==> symbols_lt(ws[a]@, ws[b]@)
}

impl Dictionary {
    /// No two members hold the same symbols.
    pub open spec fn wf(&self) -> bool {
        forall|a: int, b: int|
            0 <= a < b < self.words@.len() ==> self.words@[a]@ != self.words@[b]@
    }

    /// The members stand sorted by symbol content.
    pub open spec fn sorted(&self) -> bool {
        sorted_by_symbols(self.words@)
    }
}

/// `w` stands in `entries`, at the first place its symbols appear at all.
pub open spec fn first_with_symbols(entries: Seq<Word>, w: Word) -> bool {
    exists|j: int|
        0 <= j < entries.len() && entries[j] == w && (forall|j2: int|
            0 <= j2 < j ==> entries[j2]@ != w@)
}

proof fn lemma_has_symbols_push(ws: Seq<Word>, w: Word, wv: Seq<Seq<char>>)
    ensures
        has_symbols(ws.push(w), wv) <==> (has_symbols(ws, wv) || w@ == wv),
{
    if has_symbols(ws.push(w), wv) {
        let k = choose|k: int| 0 <= k < ws.push(w).len() && ws.push(w)[k]@ == wv;
        if k < ws.len() {
            assert(ws[k]@ == wv);
        } else {
            assert(ws.push(w)[k] == w);
        }
    }
    if has_symbols(ws, wv) {
        let k = choose|k: int| 0 <= k < ws.len() && ws[k]@ == wv;
        assert(ws.push(w)[k]@ == wv);
    }
    if w@ == wv {
        assert(ws.push(w)[ws.len() as int]@ == wv);
    }
}

proof fn lemma_has_symbols_unlast(entries: Seq<Word>, wv: Seq<Seq<char>>)
    requires
        entries.len() > 0,
    ensures
        has_symbols(entries, wv) <==> (has_symbols(entries.drop_last(), wv) || entries.last()@
            == wv),
{
    assert(entries.drop_last().push(entries.last()) =~= entries);
    lemma_has_symbols_push(entries.drop_last(), entries.last(), wv);
}

/// Builds the dictionary for a list of entries: members stand sorted by
/// symbol content, each present once. Of entries with identical symbols the
/// first insertion wins and later ones (homonyms with other spellings
/// included) are dropped.
#[verifier::loop_isolation(false)]
pub fn build_dictionary(entries: Vec<Word>) -> (d: Dictionary)
    ensures
        d.wf(),
        d.sorted(),
        forall|wv: Seq<Seq<char>>| #[trigger]
            has_symbols(d.words@, wv) <==> has_symbols(entries@, wv),
        forall|k: int| 0 <= k < d.words@.len() ==> first_with_symbols(entries@, #[trigger] d.words@[k]),
{
    let ghost all = entries@;
    let mut remaining = entries;
    let mut words: Vec<Word> = Vec::new();
    let ghost mut i: int = 0;
    while remaining.len() > 0
        invariant
            0 <= i <= all.len(),
            remaining@ == all.skip(i),
            sorted_by_symbols(words@),
            forall|wv: Seq<Seq<char>>| #[trigger]
                has_symbols(words@, wv) <==> has_symbols(all.take(i), wv),
            forall|k: int|
                0 <= k < words@.len() ==> first_with_symbols(all.take(i), #[trigger] words@[k]),
        decreases remaining@.len(),
    {
        let e = remaining.remove(0);
        proof {
            assert(e == all[i]);
            assert(all.skip(i).remove(0) =~= all.skip(i + 1));
            assert(all.take(i + 1).drop_last() =~= all.take(i));
            assert(all.take(i + 1).last() == all[i]);
        }
        let ghost before = words@;
        let mut k: usize = 0;
        while k < words.len() && word_symbols_lt(&words[k], &e)
            invariant
                k <= words@.len(),
                words@ == before,
                forall|a: int| 0 <= a < k ==> symbols_lt(#[trigger] words@[a]@, e@),
            decreases words@.len() - k,
        {
            k += 1;
        }
        let duplicate = k < words.len() && words_match(&words[k], &e);
        proof {
            // every member other than a duplicate at position k differs from e
            assert forall|a: int|
                0 <= a < words@.len() && !(duplicate && a == k) implies words@[a]@ != e@ by {
                if a < k {
                    lemma_symbols_lt_total(words@[a]@, e@);
                } else if a > k {
                    if words@[k as int]@ == e@ {
                        assert(symbols_lt(words@[k as int]@, words@[a]@));
                        lemma_symbols_lt_total(e@, words@[a]@);
                    } else {
                        lemma_symbols_lt_total(words@[k as int]@, e@);
                        lemma_symbols_lt_trans(e@, words@[k as int]@, words@[a]@);
                        lemma_symbols_lt_total(e@, words@[a]@);
                    }
                }
            };
        }
        if duplicate {
            proof {
                assert(has_symbols(words@, e@)) by {
                    assert(words@[k as int]@ == e@);
                }
                assert forall|wv: Seq<Seq<char>>| #[trigger]
                    has_symbols(words@, wv) <==> has_symbols(all.take(i + 1), wv) by {
                    lemma_has_symbols_unlast(all.take(i + 1), wv);
                };
            }
        } else {
            proof {
                assert(!has_symbols(words@, e@));
                if k < words@.len() {
                    lemma_symbols_lt_total(words@[k as int]@, e@);
                }
            }
            let ghost pos = k as int;
            words.insert(k, e);
            proof {
                before.insert_ensures(pos, e);
                assert(sorted_by_symbols(words@)) by {
                    assert forall|a: int, b: int|
                        0 <= a < b < words@.len() implies symbols_lt(words@[a]@, words@[b]@) by {
                        if b < pos {
                        } else if b == pos {
                            assert(words@[a] == before[a]);
                        } else {
                            assert(words@[b] == before[b - 1]);
                            if a < pos {
                                assert(words@[a] == before[a]);
                                if a < b - 1 {
                                } else {
                                }
                            } else if a == pos {
                                if b - 1 > pos {
                                    assert(symbols_lt(e@, before[pos]@));
                                    assert(symbols_lt(before[pos]@, before[b - 1]@));
                                    lemma_symbols_lt_trans(e@, before[pos]@, before[b - 1]@);
                                } else {
                                    assert(symbols_lt(e@, before[pos]@));
                                }
                            } else {
                                assert(words@[a] == before[a - 1]);
                            }
                        }
                    };
                }
                assert forall|wv: Seq<Seq<char>>| #[trigger]
                    has_symbols(words@, wv) <==> has_symbols(all.take(i + 1), wv) by {
                    lemma_has_symbols_unlast(all.take(i + 1), wv);
                    if has_symbols(words@, wv) {
                        let a = choose|a: int| 0 <= a < words@.len() && words@[a]@ == wv;
                        if a < pos {
                            assert(before[a]@ == wv);
                            assert(has_symbols(before, wv));
                        } else if a == pos {
                            assert(wv == e@);
                        } else {
                            assert(before[a - 1]@ == wv);
                            assert(has_symbols(before, wv));
                        }
                    }
                    if has_symbols(before, wv) {
                        let a = choose|a: int| 0 <= a < before.len() && before[a]@ == wv;
                        if a < pos {
                            assert(words@[a]@ == wv);
                        } else {
                            assert(words@[a + 1]@ == wv);
                        }
                        assert(has_symbols(words@, wv));
                    }
                    if wv == e@ {
                        assert(words@[pos]@ == wv);
                    }
                };
                assert forall|k2: int|
                    0 <= k2 < words@.len() implies first_with_symbols(
                    all.take(i + 1),
                    #[trigger] words@[k2],
                ) by {
                    if k2 == pos {
                        assert(all.take(i + 1)[i] == e);
                        assert forall|j2: int| 0 <= j2 < i implies (#[trigger] all.take(i + 1)[j2])@
                            != e@ by {
                            assert(all.take(i)[j2] == all.take(i + 1)[j2]);
                            if all.take(i + 1)[j2]@ == e@ {
                                assert(has_symbols(all.take(i), e@));
                            }
                        };
                    } else {
                        let w = words@[k2];
                        assert(w == if k2 < pos {
                            before[k2]
                        } else {
                            before[k2 - 1]
                        });
                        assert(first_with_symbols(all.take(i), w));
                        let j = choose|j: int|
                            0 <= j < all.take(i).len() && all.take(i)[j] == w && (forall|j2: int|
                                0 <= j2 < j ==> all.take(i)[j2]@ != w@);
                        assert(all.take(i + 1)[j] == w);
                        assert forall|j2: int| 0 <= j2 < j implies (#[trigger] all.take(i + 1)[j2])@
                            != w@ by {
                            assert(all.take(i)[j2] == all.take(i + 1)[j2]);
                        };
                    }
                };
            }
        }
        proof {
            i = i + 1;
        }
    }
    proof {
        assert(all.take(i) =~= all);
        assert forall|a: int, b: int|
            0 <= a < b < words@.len() implies words@[a]@ != words@[b]@ by {
            lemma_symbols_lt_total(words@[a]@, words@[b]@);
        };
    }
    Dictionary { words }
}

/// Whether the reversal of `word`'s symbols is the symbol content of some
/// member of the dictionary.
pub fn is_levidrome(dict: &Dictionary, word: &Word) -> (r: bool)
    ensures
        r == has_symbols(dict.words@, word@.reverse()),
{
    let mut k: usize = 0;
    while k < dict.words.len()
        invariant
            k <= dict.words@.len(),
            forall|a: int| 0 <= a < k ==> dict.words@[a]@ != word@.reverse(),
        decreases dict.words@.len() - k,
    {
        if word_is_reverse_of(&dict.words[k], word) {
            return true;
        }
        k += 1;
    }
    false
}

/// A word survives the levidrome filter over `ws` when it holds more than
/// one symbol and its reversal is the symbol content of some word in `ws`.
pub open spec fn is_levi_word(ws: Seq<Word>, w: Word) -> bool {
    w@.len() > 1 && has_symbols(ws, w@.reverse())
}

pub open spec fn levi_filter(all: Seq<Word>, ws: Seq<Word>) -> Seq<Word>
    decreases ws.len(),
{
    if ws.len() == 0 {
        Seq::empty()
    } else {
        let head = levi_filter(all, ws.drop_last());
        if is_levi_word(all, ws.last()) {
            head.push(ws.last())
        } else {
            head
        }
    }
}

/// The members that survive the levidrome filter, in the order they held.
pub open spec fn levidromes_of(ws: Seq<Word>) -> Seq<Word> {
    levi_filter(ws, ws)
}

/// Reversing a symbol sequence twice gives it back.
pub proof fn lemma_reverse_involution(s: Seq<Seq<char>>)
    ensures
        s.reverse().reverse() == s,
{
    assert(s.reverse().reverse() =~= s);
}

/// The filtered sequence holds exactly the words of `ws` that satisfy the
/// filter over `all`, as values.
proof fn lemma_levi_filter_members(all: Seq<Word>, ws: Seq<Word>)
    ensures
        forall|k: int|
            0 <= k < levi_filter(all, ws).len() ==> ws.contains(
                #[trigger] levi_filter(all, ws)[k],
            ) && is_levi_word(all, levi_filter(all, ws)[k]),
        forall|w: Word|
            #[trigger] ws.contains(w) && is_levi_word(all, w) ==> levi_filter(all, ws).contains(w),
    decreases ws.len(),
{
    if ws.len() > 0 {
        let d = ws.drop_last();
        let f = levi_filter(all, ws);
        lemma_levi_filter_members(all, d);
        assert forall|k: int| 0 <= k < f.len() implies ws.contains(#[trigger] f[k])
            && is_levi_word(all, f[k]) by {
            if k < levi_filter(all, d).len() {
                assert(f[k] == levi_filter(all, d)[k]);
                let j = choose|j: int| 0 <= j < d.len() && d[j] == levi_filter(all, d)[k];
                assert(ws[j] == f[k]);
            } else {
                assert(f[k] == ws.last());
                assert(ws[ws.len() - 1] == ws.last());
            }
        };
        assert forall|w: Word| #[trigger] ws.contains(w) && is_levi_word(all, w) implies f.contains(
            w,
        ) by {
            let j = choose|j: int| 0 <= j < ws.len() && ws[j] == w;
            if j < ws.len() - 1 {
                assert(d[j] == w);
                assert(d.contains(w));
                assert(levi_filter(all, d).contains(w));
                let k = choose|k: int|
                    0 <= k < levi_filter(all, d).len() && levi_filter(all, d)[k] == w;
                assert(f[k] == w);
            } else {
                assert(w == ws.last());
                assert(f[f.len() - 1] == w);
            }
        };
    }
}

/// A filter that keeps everything returns its input unchanged.
proof fn lemma_levi_filter_all_kept(all: Seq<Word>, ws: Seq<Word>)
    requires
        forall|k: int| 0 <= k < ws.len() ==> is_levi_word(all, #[trigger] ws[k]),
    ensures
        levi_filter(all, ws) == ws,
    decreases ws.len(),
{
    if ws.len() > 0 {
        let d = ws.drop_last();
        lemma_levi_filter_all_kept(all, d);
        assert(is_levi_word(all, ws.last()));
        assert(levi_filter(all, ws) =~= ws);
    }
}

/// The filtered dictionary is closed: every survivor's reversal is itself a
/// survivor, so the filter still recognises it as a levidrome.
proof fn lemma_levidromes_closed(ws: Seq<Word>)
    ensures
        forall|k: int|
            0 <= k < levidromes_of(ws).len() ==> is_levi_word(
                levidromes_of(ws),
                #[trigger] levidromes_of(ws)[k],
            ),
{
    let f = levidromes_of(ws);
    lemma_levi_filter_members(ws, ws);
    assert forall|k: int| 0 <= k < f.len() implies is_levi_word(f, #[trigger] f[k]) by {
        let w = f[k];
        assert(is_levi_word(ws, w));
        let j = choose|j: int| 0 <= j < ws.len() && ws[j]@ == w@.reverse();
        let u = ws[j];
        assert(u@.reverse() == w@.reverse().reverse());
        lemma_reverse_involution(w@);
        assert(u@.reverse() == w@);
        assert(w@.len() > 0);
        assert(u@.len() == w@.reverse().len());
        assert(is_levi_word(ws, u)) by {
            assert(ws.contains(w));
            let i0 = choose|i0: int| 0 <= i0 < ws.len() && ws[i0] == w;
            assert(ws[i0]@ == u@.reverse());
        }
        assert(ws.contains(u));
        assert(f.contains(u));
        let k2 = choose|k2: int| 0 <= k2 < f.len() && f[k2] == u;
        assert(f[k2]@ == w@.reverse());
    };
}

/// Law: the levidrome filter is idempotent. Every survivor holds more than
/// one symbol and its reversal also survives, so a second pass keeps them
/// all.
pub proof fn lemma_filter_levidromes_idempotent(ws: Seq<Word>)
    ensures
        levidromes_of(levidromes_of(ws)) == levidromes_of(ws),
{
    let f = levidromes_of(ws);
    lemma_levidromes_closed(ws);
    lemma_levi_filter_all_kept(f, f);
}

/// Filtering keeps members deduplicated.
proof fn lemma_levi_filter_distinct(all: Seq<Word>, ws: Seq<Word>)
    requires
        forall|a: int, b: int| 0 <= a < b < ws.len() ==> ws[a]@ != ws[b]@,
    ensures
        forall|a: int, b: int|
            0 <= a < b < levi_filter(all, ws).len() ==> levi_filter(all, ws)[a]@ != levi_filter(
                all,
                ws,
            )[b]@,
    decreases ws.len(),
{
    if ws.len() > 0 {
        let d = ws.drop_last();
        let f = levi_filter(all, ws);
        let head = levi_filter(all, d);
        lemma_levi_filter_distinct(all, d);
        lemma_levi_filter_members(all, d);
        if is_levi_word(all, ws.last()) {
            assert forall|a: int, b: int| 0 <= a < b < f.len() implies f[a]@ != f[b]@ by {
                if b == f.len() - 1 {
                    assert(f[b] == ws.last());
                    assert(f[a] == head[a]);
                    assert(d.contains(head[a]));
                    let j = choose|j: int| 0 <= j < d.len() && d[j] == head[a];
                    assert(ws[j]@ != ws[ws.len() - 1]@);
                } else {
                    assert(f[a] == head[a] && f[b] == head[b]);
                }
            };
        }
    }
}

/// Filtering keeps members sorted.
proof fn lemma_levi_filter_sorted(all: Seq<Word>, ws: Seq<Word>)
    requires
        sorted_by_symbols(ws),
    ensures
        sorted_by_symbols(levi_filter(all, ws)),
    decreases ws.len(),
{
    if ws.len() > 0 {
        let d = ws.drop_last();
        let f = levi_filter(all, ws);
        let head = levi_filter(all, d);
        assert(sorted_by_symbols(d));
        lemma_levi_filter_sorted(all, d);
        lemma_levi_filter_members(all, d);
        if is_levi_word(all, ws.last()) {
            assert forall|a: int, b: int|
                0 <= a < b < f.len() implies symbols_lt(f[a]@, f[b]@) by {
                if b == f.len() - 1 {
                    assert(f[b] == ws.last());
                    assert(f[a] == head[a]);
                    assert(d.contains(head[a]));
                    let j = choose|j: int| 0 <= j < d.len() && d[j] == head[a];
                    assert(symbols_lt(ws[j]@, ws[ws.len() - 1]@));
                } else {
                    assert(f[a] == head[a] && f[b] == head[b]);
                }
            };
        }
    }
}

/// Produces the dictionary of the members whose reversal is also a member,
/// entries of one symbol or none excluded unconditionally. The input is
/// consumed; survivors keep their order and their spellings.
#[verifier::loop_isolation(false)]
pub fn filter_levidromes(dict: Dictionary) -> (r: Dictionary)
    ensures
        r.words@ == levidromes_of(dict.words@),
        dict.wf() ==> r.wf(),
        dict.sorted() ==> r.sorted(),
{
    let ghost all = dict.words@;
    let lookup = Dictionary { words: dict.words.clone() };
    proof {
        assert forall|k: int| 0 <= k < all.len() implies #[trigger] lookup.words@[k]@
            == all[k]@ by {
            assert(vstd::pervasive::cloned::<Word>(all[k], lookup.words@[k]));
        };
    }
    let mut remaining = dict.words;
    let mut kept: Vec<Word> = Vec::new();
    let ghost mut i: int = 0;
    while remaining.len() > 0
        invariant
            0 <= i <= all.len(),
            remaining@ == all.skip(i),
            kept@ == levi_filter(all, all.take(i)),
        decreases remaining@.len(),
    {
        let e = remaining.remove(0);
        proof {
            assert(e == all[i]);
            assert(all.skip(i).remove(0) =~= all.skip(i + 1));
            assert(all.take(i + 1).drop_last() =~= all.take(i));
            assert(all.take(i + 1).last() == all[i]);
            lemma_word_symbols(&e);
        }
        if e.phonemes.len() > 1 && is_levidrome(&lookup, &e) {
            proof {
                let j = choose|j: int|
                    0 <= j < lookup.words@.len() && lookup.words@[j]@ == e@.reverse();
                assert(all[j]@ == e@.reverse());
                assert(is_levi_word(all, e));
            }
            kept.push(e);
        } else {
            proof {
                if has_symbols(lookup.words@, e@.reverse()) {
                    let j = choose|j: int|
                        0 <= j < lookup.words@.len() && lookup.words@[j]@ == e@.reverse();
                    assert(all[j]@ == e@.reverse());
                }
                if is_levi_word(all, e) {
                    let j = choose|j: int| 0 <= j < all.len() && all[j]@ == e@.reverse();
                    assert(lookup.words@[j]@ == e@.reverse());
                }
            }
        }
        proof {
            i = i + 1;
        }
    }
    proof {
        assert(all.take(i) =~= all);
        if forall|a: int, b: int| 0 <= a < b < all.len() ==> all[a]@ != all[b]@ {
            lemma_levi_filter_distinct(all, all);
        }
        if sorted_by_symbols(all) {
            lemma_levi_filter_sorted(all, all);
        }
    }
    Dictionary { words: kept }
}

} // verus!
