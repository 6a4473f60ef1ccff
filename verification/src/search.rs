//! The backtracking search engine: depth-first exploration of the dictionary
//! members of a fixed length, pruned by the mirror state evaluator, recording
//! every prefix that reaches the Complete state.

use crate::dictionary::Dictionary;
use crate::order::{
    lemma_square_lt_at, lemma_square_lt_irrefl, lemma_symbols_lt_total, square_lt, symbols_lt,
};
use crate::mirror::{
    earlier_rows_same_len, lemma_complete_prefix_partial, lemma_complete_reversal_symmetry,
    lemma_complete_transpose_symmetry, lemma_rows_view, mirror_state, mirror_state_spec,
    rows_same_len, MirrorState, Rows,
};
use crate::phoneme::{words_match, Word};
use vstd::prelude::*;

verus! {

/// The squares that the search finds when it grows the prefix `h` by members
/// of `dict` holding `n` symbols each: the strict extensions of `h` whose
/// added rows all come from `dict`, hold `n` symbols each, and whose full
/// prefix classifies Complete.
pub open spec fn found_from(dict: Rows, n: nat, h: Rows, s: Rows) -> bool {
    &&& h.len() < s.len()
    &&& s.take(h.len() as int) == h
    &&& forall|k: int| h.len() <= k < s.len() ==> dict.contains(#[trigger] s[k]) && s[k].len() == n
    &&& mirror_state_spec(s) == MirrorState::Complete
}

/// The squares that a whole search of `dict` at size `n` finds.
pub open spec fn square_found(dict: Rows, n: nat, s: Rows) -> bool {
    found_from(dict, n, Seq::empty(), s)
}

/// No two recorded squares hold the same symbols.
pub open spec fn distinct_squares(rs: Seq<Rows>) -> bool {
    forall|a: int, b: int| 0 <= a < b < rs.len() ==> rs[a] != rs[b]
}

/// The rows of the dictionary stand in strictly increasing lexicographic
/// order of symbol content.
pub open spec fn rows_sorted(dv: Rows) -> bool {
    forall|a: int, b: int| 0 <= a < b < dv.len() ==> symbols_lt(dv[a], dv[b])
}

/// The recorded squares stand in strictly increasing lexicographic order.
pub open spec fn sorted_squares(rs: Seq<Rows>) -> bool {
    forall|a: int, b: int| 0 <= a < b < rs.len() ==> square_lt(rs[a], rs[b])
}

/// Every recorded square precedes every square the search can still find
/// from the prefix `h`.
pub open spec fn precedes_all_found(rs: Seq<Rows>, dv: Rows, n: nat, h: Rows) -> bool {
    forall|a: int, s: Rows|
        #![trigger rs[a], found_from(dv, n, h, s)]
        0 <= a < rs.len() && found_from(dv, n, h, s) ==> square_lt(rs[a], s)
}

proof fn lemma_contains_push<A>(s: Seq<A>, x: A, y: A)
    ensures
        s.push(x).contains(y) <==> (s.contains(y) || x == y),
{
    if s.push(x).contains(y) {
        let k = choose|k: int| 0 <= k < s.push(x).len() && s.push(x)[k] == y;
        if k < s.len() {
            assert(s[k] == y);
        }
    }
    if s.contains(y) {
        let k = choose|k: int| 0 <= k < s.len() && s[k] == y;
        assert(s.push(x)[k] == y);
    }
    if x == y {
        assert(s.push(x)[s.len() as int] == y);
    }
}

/// How the content of a collection of squares is read off the squares.
proof fn lemma_squares_view(v: &Vec<Vec<Word>>)
    ensures
        v.deep_view().len() == v@.len(),
        forall|k: int| 0 <= k < v@.len() ==> #[trigger] v.deep_view()[k] == v@[k].deep_view(),
{
}

fn squares_match(a: &Vec<Word>, b: &Vec<Word>) -> (r: bool)
    ensures
        r == (a.deep_view() == b.deep_view()),
{
    proof {
        lemma_rows_view(a);
        lemma_rows_view(b);
    }
    if a.len() != b.len() {
        return false;
    }
    let n = a.len();
    let mut k: usize = 0;
    while k < n
        invariant
            k <= n,
            n == a@.len(),
            n == b@.len(),
            a.deep_view().len() == a@.len(),
            b.deep_view().len() == b@.len(),
            forall|j: int| 0 <= j < a@.len() ==> #[trigger] a.deep_view()[j] == a@[j]@,
            forall|j: int| 0 <= j < b@.len() ==> #[trigger] b.deep_view()[j] == b@[j]@,
            forall|j: int| 0 <= j < k ==> a.deep_view()[j] == b.deep_view()[j],
        decreases n - k,
    {
        if !words_match(&a[k], &b[k]) {
            proof {
                assert(a.deep_view()[k as int] != b.deep_view()[k as int]);
            }
            return false;
        }
        k += 1;
    }
    proof {
        assert(a.deep_view() =~= b.deep_view());
    }
    true
}

/// Records a square unless an equal one is already recorded, preserving the
/// set semantics of the result collection.
#[verifier::loop_isolation(false)]
fn insert_square(result: &mut Vec<Vec<Word>>, square: Vec<Word>)
    requires
        distinct_squares(old(result).deep_view()),
    ensures
        distinct_squares(final(result).deep_view()),
        forall|s: Rows|
            final(result).deep_view().contains(s) <==> (old(result).deep_view().contains(s) || s
                == square.deep_view()),
        old(result).deep_view().contains(square.deep_view()) ==> final(result)@ == old(result)@,
        !old(result).deep_view().contains(square.deep_view()) ==> final(result)@ == old(
            result,
        )@.push(square),
{
    proof {
        lemma_squares_view(result);
    }
    let mut k: usize = 0;
    while k < result.len()
        invariant
            k <= result@.len(),
            *result == *old(result),
            forall|a: int| 0 <= a < k ==> result.deep_view()[a] != square.deep_view(),
        decreases result@.len() - k,
    {
        if squares_match(&result[k], &square) {
            proof {
                assert(result.deep_view()[k as int] == square.deep_view());
                assert(result.deep_view().contains(square.deep_view()));
            }
            return;
        }
        k += 1;
    }
    let ghost prev = result.deep_view();
    let ghost sq = square.deep_view();
    result.push(square);
    proof {
        lemma_squares_view(result);
        assert(result.deep_view() =~= prev.push(sq));
        lemma_contains_push(prev, sq, sq);
        assert forall|s: Rows| final(result).deep_view().contains(s) implies (
        prev.contains(s) || s == sq) by {
            lemma_contains_push(prev, sq, s);
        };
        assert forall|s: Rows|
            prev.contains(s) || s == sq implies final(result).deep_view().contains(s) by {
            lemma_contains_push(prev, sq, s);
        };
        assert forall|a: int, b: int|
            0 <= a < b < result.deep_view().len() implies result.deep_view()[a]
            != result.deep_view()[b] by {
            if b == result.deep_view().len() - 1 {
                assert(result.deep_view()[b] == sq);
                assert(result.deep_view()[a] == prev[a]);
            }
        };
    }
}

/// How the squares found from a prefix decompose by the first appended row:
/// if the prefix plus that row is Complete, it is itself the one square
/// found through it; if Partial, the squares found through it are exactly
/// those found from the longer prefix; if Invalid, none is found through it.
proof fn lemma_found_step(dict: Rows, n: nat, h: Rows, w: Seq<Seq<char>>, s: Rows)
    requires
        0 < n,
        h.len() < n,
        forall|k: int| 0 <= k < h.len() ==> (#[trigger] h[k]).len() == n,
        dict.contains(w),
        w.len() == n,
    ensures
        (found_from(dict, n, h, s) && s[h.len() as int] == w) <==> (if mirror_state_spec(h.push(w))
            == MirrorState::Complete {
            s == h.push(w)
        } else if mirror_state_spec(h.push(w)) == MirrorState::Partial {
            found_from(dict, n, h.push(w), s)
        } else {
            false
        }),
{
    let m1 = h.push(w);
    let hl = h.len() as int;
    assert(m1[hl] == w);
    assert(forall|k: int| 0 <= k < hl ==> m1[k] == h[k]);
    // Forward direction.
    if found_from(dict, n, h, s) && s[hl] == w {
        assert(forall|k: int| 0 <= k < hl ==> s.take(hl)[k] == s[k]);
        assert(forall|k: int| 0 <= k < hl ==> s[k] == h[k]);
        assert(rows_same_len(s)) by {
            assert forall|k: int| 0 <= k < s.len() implies (#[trigger] s[k]).len()
                == s[0].len() by {
                assert(s[k].len() == n);
                assert(s[0].len() == n);
            };
        }
        assert(s.take(hl + 1) =~= m1);
        if s.len() == hl + 1 {
            assert(s =~= m1);
            assert(mirror_state_spec(m1) == MirrorState::Complete);
        } else {
            lemma_complete_prefix_partial(s, hl + 1);
            assert(s.take(hl + 1) == m1);
            assert(mirror_state_spec(m1) == MirrorState::Partial);
            assert(found_from(dict, n, m1, s)) by {
                assert(s.take(m1.len() as int) == m1);
                assert(forall|k: int|
                    m1.len() <= k < s.len() ==> dict.contains(#[trigger] s[k]) && s[k].len() == n);
            }
        }
    }
    // Backward direction, by the state of the grown prefix.
    if mirror_state_spec(m1) == MirrorState::Complete {
        if s == m1 {
            assert(s.take(hl) =~= h);
            assert(found_from(dict, n, h, s)) by {
                assert forall|k: int| hl <= k < s.len() implies dict.contains(#[trigger] s[k])
                    && s[k].len() == n by {
                    assert(k == hl);
                    assert(s[k] == w);
                };
            }
            assert(s[hl] == w);
        }
    } else if mirror_state_spec(m1) == MirrorState::Partial {
        if found_from(dict, n, m1, s) {
            assert(s.take(m1.len() as int) == m1);
            assert(forall|k: int| 0 <= k < m1.len() ==> s.take(m1.len() as int)[k] == s[k]);
            assert(s[hl] == w);
            assert(s.take(hl) =~= h);
            assert(found_from(dict, n, h, s)) by {
                assert forall|k: int| hl <= k < s.len() implies dict.contains(#[trigger] s[k])
                    && s[k].len() == n by {
                    if k == hl {
                        assert(s[k] == w);
                    } else {
                        assert(m1.len() <= k < s.len());
                    }
                };
            }
        }
    }
}

proof fn lemma_take_contains_mono(dv: Rows, i: int, j: int, x: Seq<Seq<char>>)
    requires
        0 <= i <= j <= dv.len(),
        dv.take(i).contains(x),
    ensures
        dv.take(j).contains(x),
{
    let k = choose|k: int| 0 <= k < i && dv.take(i)[k] == x;
    assert(dv.take(j)[k] == x);
}

/// In a sorted dictionary, a row present but not among the first idx + 1
/// members comes lexicographically after member idx.
proof fn lemma_sorted_future(dv: Rows, idx: int, x: Seq<Seq<char>>)
    requires
        rows_sorted(dv),
        0 <= idx < dv.len(),
        dv.contains(x),
        !dv.take(idx + 1).contains(x),
    ensures
        symbols_lt(dv[idx], x),
{
    let k = choose|k: int| 0 <= k < dv.len() && dv[k] == x;
    if k <= idx {
        assert(dv.take(idx + 1)[k] == x);
    }
    assert(symbols_lt(dv[idx], dv[k]));
}

/// In a sorted dictionary, member idx is not among the first idx members.
proof fn lemma_sorted_fresh(dv: Rows, idx: int)
    requires
        rows_sorted(dv),
        0 <= idx < dv.len(),
    ensures
        !dv.take(idx).contains(dv[idx]),
{
    if dv.take(idx).contains(dv[idx]) {
        let j = choose|j: int| 0 <= j < idx && dv.take(idx)[j] == dv[idx];
        assert(symbols_lt(dv[j], dv[idx]));
        lemma_symbols_lt_total(dv[idx], dv[idx]);
    }
}

/// Two squares grown from the same prefix are ordered as their first added
/// rows are.
proof fn lemma_square_order_by_first(dv: Rows, n: nat, h: Rows, s1: Rows, s2: Rows)
    requires
        found_from(dv, n, h, s1),
        found_from(dv, n, h, s2),
        symbols_lt(s1[h.len() as int], s2[h.len() as int]),
    ensures
        square_lt(s1, s2),
{
    let hl = h.len() as int;
    assert(forall|k: int| 0 <= k < hl ==> s1.take(hl)[k] == s1[k]);
    assert(forall|k: int| 0 <= k < hl ==> s2.take(hl)[k] == s2[k]);
    assert(forall|k: int| 0 <= k < hl ==> s1[k] == s2[k]);
    lemma_square_lt_at(s1, s2, hl);
}

/// Depth-first search step: appends each dictionary member of `length`
/// symbols to `history` in turn, records the prefixes that reach Complete,
/// recurses into the Partial ones and discards the Invalid ones. Each branch
/// owns its own copy of the prefix. The result collection gains exactly the
/// squares found from `history`.
#[verifier::loop_isolation(false)]
pub fn find_mirrors_with(
    dict: &Dictionary,
    length: usize,
    history: &Vec<Word>,
    result: &mut Vec<Vec<Word>>,
)
    requires
        0 < length,
        history@.len() < length,
        forall|k: int|
            0 <= k < history@.len() ==> (#[trigger] history.deep_view()[k]).len() == length,
        mirror_state_spec(history.deep_view()) == MirrorState::Partial,
        distinct_squares(old(result).deep_view()),
        rows_sorted(dict.words.deep_view()) ==> sorted_squares(old(result).deep_view()),
        rows_sorted(dict.words.deep_view()) ==> precedes_all_found(
            old(result).deep_view(),
            dict.words.deep_view(),
            length as nat,
            history.deep_view(),
        ),
    ensures
        distinct_squares(final(result).deep_view()),
        forall|s: Rows|
            final(result).deep_view().contains(s) <==> (old(result).deep_view().contains(s)
                || found_from(
                dict.words.deep_view(),
                length as nat,
                history.deep_view(),
                s,
            )),
        old(result)@.len() <= final(result)@.len(),
        final(result)@.take(old(result)@.len() as int) == old(result)@,
        rows_sorted(dict.words.deep_view()) ==> sorted_squares(final(result).deep_view()),
    decreases length - history@.len(),
{
    let ghost dv = dict.words.deep_view();
    let ghost h = history.deep_view();
    let ghost n = length as nat;
    let ghost hl = h.len() as int;
    proof {
        lemma_rows_view(&dict.words);
        lemma_rows_view(history);
    }
    proof {
        assert(old(result)@.take(old(result)@.len() as int) =~= old(result)@);
        assert(dv.take(0) =~= Seq::<Seq<Seq<char>>>::empty());
    }
    let mut idx: usize = 0;
    while idx < dict.words.len()
        invariant
            idx <= dict.words@.len(),
            distinct_squares(result.deep_view()),
            forall|s: Rows|
                result.deep_view().contains(s) <==> (old(result).deep_view().contains(s) || (
                found_from(dv, n, h, s) && dv.take(idx as int).contains(s[hl]))),
            old(result)@.len() <= result@.len(),
            result@.take(old(result)@.len() as int) == old(result)@,
            rows_sorted(dv) ==> sorted_squares(result.deep_view()),
            rows_sorted(dv) ==> (forall|a: int, s: Rows|
                #![trigger result.deep_view()[a], found_from(dv, n, h, s)]
                0 <= a < result.deep_view().len() && found_from(dv, n, h, s) && !dv.take(
                    idx as int,
                ).contains(s[hl]) ==> square_lt(result.deep_view()[a], s)),
        decreases dict.words@.len() - idx,
    {
        let ghost prev = result.deep_view();
        let ghost prev_vec = result@;
        let word = &dict.words[idx];
        let ghost w = dv[idx as int];
        proof {
            assert(w == word@);
            assert(dv.take(idx + 1) =~= dv.take(idx as int).push(w));
            assert(dv.contains(w)) by {
                assert(dv[idx as int] == w);
            }
        }
        if word.phonemes.len() == length {
            proof {
                assert(w.len() == n);
            }
            let mut mirror = clone_words(history);
            mirror.push(word.clone());
            let ghost m1 = h.push(w);
            proof {
                lemma_rows_view(&mirror);
                assert(mirror.deep_view() =~= m1);
                assert(rows_same_len(m1)) by {
                    assert forall|k: int| 0 <= k < m1.len() implies (#[trigger] m1[k]).len()
                        == m1[0].len() by {
                        assert(m1[hl] == w);
                        if k < hl {
                            assert(m1[k] == h[k]);
                        }
                        if hl > 0 {
                            assert(m1[0] == h[0]);
                        }
                    };
                }
                assert(earlier_rows_same_len(m1));
            }
            let state = mirror_state(&mirror);
            match state {
                MirrorState::Complete => {
                    proof {
                        lemma_found_step(dv, n, h, w, m1);
                        if rows_sorted(dv) {
                            lemma_sorted_fresh(dv, idx as int);
                            assert forall|a: int| 0 <= a < prev.len() implies square_lt(
                                prev[a],
                                m1,
                            ) by {
                                assert(found_from(dv, n, h, m1));
                            };
                            if prev.contains(m1) {
                                let a0 = choose|a0: int| 0 <= a0 < prev.len() && prev[a0] == m1;
                                lemma_square_lt_irrefl(m1);
                            }
                            assert(!prev.contains(m1));
                        }
                    }
                    insert_square(result, mirror);
                    proof {
                        assert forall|s: Rows|
                            result.deep_view().contains(s) <==> (old(result).deep_view().contains(s) || (found_from(dv, n, h, s) && dv.take(
                                idx + 1,
                            ).contains(s[hl]))) by {
                            lemma_found_step(dv, n, h, w, s);
                            lemma_contains_push(dv.take(idx as int), w, s[hl]);
                        };
                        assert(result@.take(old(result)@.len() as int) =~= old(result)@) by {
                            if prev.contains(m1) {
                            } else {
                                assert(result@ == prev_vec.push(mirror));
                            }
                        }
                        if rows_sorted(dv) {
                            assert(result@ == prev_vec.push(mirror));
                            lemma_squares_view(result);
                            assert(result.deep_view() =~= prev.push(m1));
                            assert forall|a: int, b: int|
                                0 <= a < b < result.deep_view().len() implies square_lt(
                                result.deep_view()[a],
                                result.deep_view()[b],
                            ) by {
                                if b == result.deep_view().len() - 1 {
                                    assert(result.deep_view()[b] == m1);
                                    assert(result.deep_view()[a] == prev[a]);
                                } else {
                                    assert(result.deep_view()[a] == prev[a]);
                                    assert(result.deep_view()[b] == prev[b]);
                                }
                            };
                            assert forall|a: int, s: Rows|
                                #![trigger result.deep_view()[a], found_from(dv, n, h, s)]
                                0 <= a < result.deep_view().len() && found_from(dv, n, h, s)
                                    && !dv.take(idx + 1).contains(s[hl]) implies square_lt(
                                result.deep_view()[a],
                                s,
                            ) by {
                                if !dv.take(idx as int).contains(s[hl]) {
                                }
                                if a < prev.len() {
                                    assert(result.deep_view()[a] == prev[a]);
                                    if dv.take(idx as int).contains(s[hl]) {
                                    lemma_take_contains_mono(dv, idx as int, idx + 1, s[hl]);
                                }
                                } else {
                                    assert(result.deep_view()[a] == m1);
                                    lemma_sorted_future(dv, idx as int, s[hl]);
                                    lemma_square_order_by_first(dv, n, h, m1, s);
                                }
                            };
                        }
                    }
                },
                MirrorState::Invalid => {
                    proof {
                        assert forall|s: Rows|
                            result.deep_view().contains(s) <==> (old(result).deep_view().contains(s) || (found_from(dv, n, h, s) && dv.take(
                                idx + 1,
                            ).contains(s[hl]))) by {
                            lemma_found_step(dv, n, h, w, s);
                            lemma_contains_push(dv.take(idx as int), w, s[hl]);
                        };
                        if rows_sorted(dv) {
                            assert forall|a: int, s: Rows|
                                #![trigger result.deep_view()[a], found_from(dv, n, h, s)]
                                0 <= a < result.deep_view().len() && found_from(dv, n, h, s)
                                    && !dv.take(idx + 1).contains(s[hl]) implies square_lt(
                                result.deep_view()[a],
                                s,
                            ) by {
                                if dv.take(idx as int).contains(s[hl]) {
                                    lemma_take_contains_mono(dv, idx as int, idx + 1, s[hl]);
                                }
                            };
                        }
                    }
                },
                MirrorState::Partial => {
                    proof {
                        assert(m1.len() < n) by {
                            if m1.len() == n {
                                assert(m1.len() == m1[0].len());
                                assert(mirror_state_spec(m1) != MirrorState::Partial);
                            }
                        }
                        if rows_sorted(dv) {
                            lemma_sorted_fresh(dv, idx as int);
                            assert forall|a: int, s2: Rows|
                                #![trigger prev[a], found_from(dv, n, m1, s2)]
                                0 <= a < prev.len() && found_from(dv, n, m1, s2) implies square_lt(
                                prev[a],
                                s2,
                            ) by {
                                lemma_found_step(dv, n, h, w, s2);
                                assert(found_from(dv, n, h, s2) && s2[hl] == w);
                            };
                            assert(precedes_all_found(prev, dv, n, m1));
                        }
                    }
                    find_mirrors_with(dict, length, &mirror, result);
                    proof {
                        assert forall|s: Rows|
                            result.deep_view().contains(s) <==> (old(result).deep_view().contains(s) || (found_from(dv, n, h, s) && dv.take(
                                idx + 1,
                            ).contains(s[hl]))) by {
                            lemma_found_step(dv, n, h, w, s);
                            lemma_contains_push(dv.take(idx as int), w, s[hl]);
                        };
                        lemma_squares_view(result);
                        assert(result@.take(old(result)@.len() as int) =~= old(result)@) by {
                            assert(result@.take(prev_vec.len() as int) == prev_vec);
                            assert forall|k: int|
                                0 <= k < old(result)@.len() implies result@.take(
                                old(result)@.len() as int,
                            )[k] == old(result)@[k] by {
                                assert(result@[k] == result@.take(prev_vec.len() as int)[k]);
                                assert(prev_vec[k] == prev_vec.take(old(result)@.len() as int)[k]);
                            };
                        }
                        if rows_sorted(dv) {
                            assert forall|a: int, s: Rows|
                                #![trigger result.deep_view()[a], found_from(dv, n, h, s)]
                                0 <= a < result.deep_view().len() && found_from(dv, n, h, s)
                                    && !dv.take(idx + 1).contains(s[hl]) implies square_lt(
                                result.deep_view()[a],
                                s,
                            ) by {
                                if dv.take(idx as int).contains(s[hl]) {
                                    lemma_take_contains_mono(dv, idx as int, idx + 1, s[hl]);
                                }
                                let x = result.deep_view()[a];
                                if a < prev.len() {
                                    assert(result@[a] == result@.take(prev_vec.len() as int)[a]);
                                    assert(result@[a] == prev_vec[a]);
                                    assert(x == prev[a]);
                                } else {
                                    assert(result.deep_view().contains(x));
                                    if prev.contains(x) {
                                        let a2 = choose|a2: int|
                                            0 <= a2 < prev.len() && prev[a2] == x;
                                        assert(result@[a2] == result@.take(
                                            prev_vec.len() as int,
                                        )[a2]);
                                        assert(result@[a2] == prev_vec[a2]);
                                        assert(result.deep_view()[a2] == prev[a2]);
                                        assert(result.deep_view()[a2] == result.deep_view()[a]);
                                        assert(false);
                                    }
                                    assert(found_from(dv, n, m1, x));
                                    lemma_found_step(dv, n, h, w, x);
                                    assert(found_from(dv, n, h, x) && x[hl] == w);
                                    lemma_sorted_future(dv, idx as int, s[hl]);
                                    lemma_square_order_by_first(dv, n, h, x, s);
                                }
                            };
                        }
                    }
                },
            }
        } else {
            proof {
                assert(w.len() != n);
                assert forall|s: Rows|
                    result.deep_view().contains(s) <==> (old(result).deep_view().contains(s) || (
                    found_from(dv, n, h, s) && dv.take(idx + 1).contains(s[hl]))) by {
                    lemma_contains_push(dv.take(idx as int), w, s[hl]);
                    if found_from(dv, n, h, s) {
                        assert(s[hl].len() == n);
                    }
                };
                if rows_sorted(dv) {
                    assert forall|a: int, s: Rows|
                        #![trigger result.deep_view()[a], found_from(dv, n, h, s)]
                        0 <= a < result.deep_view().len() && found_from(dv, n, h, s) && !dv.take(
                            idx + 1,
                        ).contains(s[hl]) implies square_lt(result.deep_view()[a], s) by {
                        if dv.take(idx as int).contains(s[hl]) {
                                    lemma_take_contains_mono(dv, idx as int, idx + 1, s[hl]);
                                }
                    };
                }
            }
        }
        idx += 1;
    }
    proof {
        assert(dv.take(dv.len() as int) =~= dv);
        assert forall|s: Rows|
            result.deep_view().contains(s) <==> (old(result).deep_view().contains(s) || found_from(
                dv,
                n,
                h,
                s,
            )) by {
            if found_from(dv, n, h, s) {
                assert(dv.contains(s[hl]));
            }
        };
    }
}

fn clone_words(v: &Vec<Word>) -> (r: Vec<Word>)
    ensures
        r.deep_view() == v.deep_view(),
{
    let r = v.clone();
    proof {
        assert forall|k: int| 0 <= k < v@.len() implies r.deep_view()[k] == v.deep_view()[k] by {
            assert(vstd::pervasive::cloned::<Word>(v@[k], r@[k]));
        };
        assert(r.deep_view() =~= v.deep_view());
    }
    r
}

/// Searches the dictionary for every mirror square of `length` rows: the
/// result holds, without duplicates, exactly the squares whose rows all come
/// from the dictionary with `length` symbols each and whose full prefix
/// classifies Complete; over a sorted dictionary it holds them in strictly
/// increasing lexicographic order. A size of zero yields the empty result.
pub fn find_mirrors(dict: &Dictionary, length: usize) -> (result: Vec<Vec<Word>>)
    ensures
        distinct_squares(result.deep_view()),
        length == 0 ==> result@.len() == 0,
        forall|s: Rows|
            result.deep_view().contains(s) <==> (0 < length && square_found(
                dict.words.deep_view(),
                length as nat,
                s,
            )),
        dict.sorted() ==> sorted_squares(result.deep_view()),
{
    let mut result: Vec<Vec<Word>> = Vec::new();
    if length == 0 {
        return result;
    }
    let history: Vec<Word> = Vec::new();
    proof {
        assert(history.deep_view() =~= Seq::<Seq<Seq<char>>>::empty());
        assert(mirror_state_spec(history.deep_view()) == MirrorState::Partial);
        if dict.sorted() {
            lemma_rows_view(&dict.words);
            assert(rows_sorted(dict.words.deep_view()));
        }
    }
    find_mirrors_with(dict, length, &history, &mut result);
    result
}

/// Law (transpose symmetry): every square in any result set is a true square
/// of as many rows as symbols per row, and the symbol at position j of row i
/// equals the symbol at position i of row j, for all i and j.
pub proof fn lemma_found_square_transpose(dict: Rows, n: nat, s: Rows)
    requires
        square_found(dict, n, s),
    ensures
        s.len() == n,
        forall|i: int, j: int|
            0 <= i < s.len() && 0 <= j < s.len() ==> (#[trigger] s[i][j]) == s[j][i],
{
    assert(rows_same_len(s)) by {
        assert forall|k: int| 0 <= k < s.len() implies (#[trigger] s[k]).len() == s[0].len() by {
            assert(s[k].len() == n);
            assert(s[0].len() == n);
        };
    }
    lemma_complete_transpose_symmetry(s);
    assert(s[0].len() == n);
}

/// Law (reversal symmetry): in every square in any result set, each row of
/// the first half reads as its opposite row backwards.
pub proof fn lemma_found_square_reversal(dict: Rows, n: nat, s: Rows)
    requires
        square_found(dict, n, s),
    ensures
        forall|i: int|
            0 <= i < (s.len() as int) / 2 ==> (#[trigger] s[i]) == s[s.len() - 1 - i].reverse(),
{
    assert(rows_same_len(s)) by {
        assert forall|k: int| 0 <= k < s.len() implies (#[trigger] s[k]).len() == s[0].len() by {
            assert(s[k].len() == n);
            assert(s[0].len() == n);
        };
    }
    lemma_complete_reversal_symmetry(s);
}

} // verus!
