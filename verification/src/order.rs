//! The lexicographic order over symbol content: characters by code point,
//! symbols as character sequences, words as symbol sequences, and squares as
//! row sequences, each level ordered lexicographically over the one below.
//! A shorter sequence precedes every longer one it is a prefix of. This is
//! the fixed total order in which the dictionary holds its members and the
//! result set its squares.

use crate::phoneme::{lemma_word_symbols, Word};
use vstd::prelude::*;
use vstd::string::StrSliceExecFns;

verus! {

/// Strict lexicographic order on two symbols (character sequences).
pub open spec fn chars_lt(a: Seq<char>, b: Seq<char>) -> bool
    decreases a.len(),
{
    if b.len() == 0 {
        false
    } else if a.len() == 0 {
        true
    } else if a[0] == b[0] {
        chars_lt(a.drop_first(), b.drop_first())
    } else {
        a[0] < b[0]
    }
}

/// Strict lexicographic order on two words' symbol contents.
pub open spec fn symbols_lt(a: Seq<Seq<char>>, b: Seq<Seq<char>>) -> bool
    decreases a.len(),
{
    if b.len() == 0 {
        false
    } else if a.len() == 0 {
        true
    } else if a[0] == b[0] {
        symbols_lt(a.drop_first(), b.drop_first())
    } else {
        chars_lt(a[0], b[0])
    }
}

/// Strict lexicographic order on two squares, row by row.
pub open spec fn square_lt(a: Seq<Seq<Seq<char>>>, b: Seq<Seq<Seq<char>>>) -> bool
    decreases a.len(),
{
    if b.len() == 0 {
        false
    } else if a.len() == 0 {
        true
    } else if a[0] == b[0] {
        square_lt(a.drop_first(), b.drop_first())
    } else {
        symbols_lt(a[0], b[0])
    }
}

/// The order on symbols is strict and total: equal sequences are unordered,
/// unequal ones are ordered exactly one way round.
pub proof fn lemma_chars_lt_total(a: Seq<char>, b: Seq<char>)
    ensures
        a == b ==> !chars_lt(a, b),
        a != b ==> (chars_lt(a, b) <==> !chars_lt(b, a)),
    decreases a.len(),
{
    if b.len() == 0 {
        if a.len() == 0 {
            assert(a =~= b);
        }
    } else if a.len() == 0 {
    } else if a[0] == b[0] {
        lemma_chars_lt_total(a.drop_first(), b.drop_first());
        if a.drop_first() == b.drop_first() {
            assert forall|i: int| 0 <= i < a.len() implies a[i] == b[i] by {
                if i > 0 {
                    assert(a[i] == a.drop_first()[i - 1]);
                    assert(b[i] == b.drop_first()[i - 1]);
                }
            };
            assert(a =~= b);
        } else {
            assert(a != b);
        }
    } else {
        assert(a != b);
    }
}

/// The order on symbols is transitive.
pub proof fn lemma_chars_lt_trans(a: Seq<char>, b: Seq<char>, c: Seq<char>)
    requires
        chars_lt(a, b),
        chars_lt(b, c),
    ensures
        chars_lt(a, c),
    decreases a.len(),
{
    if a.len() > 0 && b.len() > 0 && c.len() > 0 && a[0] == b[0] && b[0] == c[0] {
        lemma_chars_lt_trans(a.drop_first(), b.drop_first(), c.drop_first());
    }
}

/// The order on words is strict and total over symbol content.
pub proof fn lemma_symbols_lt_total(a: Seq<Seq<char>>, b: Seq<Seq<char>>)
    ensures
        a == b ==> !symbols_lt(a, b),
        a != b ==> (symbols_lt(a, b) <==> !symbols_lt(b, a)),
    decreases a.len(),
{
    if b.len() == 0 {
        if a.len() == 0 {
            assert(a =~= b);
        }
    } else if a.len() == 0 {
    } else if a[0] == b[0] {
        lemma_symbols_lt_total(a.drop_first(), b.drop_first());
        if a.drop_first() == b.drop_first() {
            assert forall|i: int| 0 <= i < a.len() implies a[i] == b[i] by {
                if i > 0 {
                    assert(a[i] == a.drop_first()[i - 1]);
                    assert(b[i] == b.drop_first()[i - 1]);
                }
            };
            assert(a =~= b);
        } else {
            assert(a != b);
        }
    } else {
        assert(a != b);
        lemma_chars_lt_total(a[0], b[0]);
    }
}

/// The order on words is transitive.
pub proof fn lemma_symbols_lt_trans(a: Seq<Seq<char>>, b: Seq<Seq<char>>, c: Seq<Seq<char>>)
    requires
        symbols_lt(a, b),
        symbols_lt(b, c),
    ensures
        symbols_lt(a, c),
    decreases a.len(),
{
    if a.len() > 0 && b.len() > 0 && c.len() > 0 {
        if a[0] == b[0] && b[0] == c[0] {
            lemma_symbols_lt_trans(a.drop_first(), b.drop_first(), c.drop_first());
        } else if a[0] != b[0] && b[0] != c[0] {
            lemma_chars_lt_trans(a[0], b[0], c[0]);
            lemma_chars_lt_total(a[0], c[0]);
            if a[0] == c[0] {
                lemma_chars_lt_total(a[0], b[0]);
                lemma_chars_lt_total(b[0], c[0]);
            }
        }
    }
}

/// A square never precedes itself.
pub proof fn lemma_square_lt_irrefl(a: Seq<Seq<Seq<char>>>)
    ensures
        !square_lt(a, a),
    decreases a.len(),
{
    if a.len() > 0 {
        lemma_square_lt_irrefl(a.drop_first());
    }
}

/// Two squares that agree up to position p and are ordered there are ordered
/// as squares.
pub proof fn lemma_square_lt_at(a: Seq<Seq<Seq<char>>>, b: Seq<Seq<Seq<char>>>, p: int)
    requires
        0 <= p < a.len(),
        p < b.len(),
        forall|k: int| 0 <= k < p ==> a[k] == b[k],
        symbols_lt(a[p], b[p]),
    ensures
        square_lt(a, b),
    decreases p,
{
    if p == 0 {
        lemma_symbols_lt_total(a[0], b[0]);
    } else {
        lemma_square_lt_at(a.drop_first(), b.drop_first(), p - 1);
    }
}

fn str_chars_lt(x: &str, y: &str) -> (r: bool)
    ensures
        r == chars_lt(x@, y@),
{
    let xl = x.unicode_len();
    let yl = y.unicode_len();
    proof {
        assert(x@.skip(0) =~= x@);
        assert(y@.skip(0) =~= y@);
    }
    let mut k: usize = 0;
    while k < xl && k < yl
        invariant
            k <= xl,
            k <= yl,
            xl == x@.len(),
            yl == y@.len(),
            chars_lt(x@, y@) == chars_lt(x@.skip(k as int), y@.skip(k as int)),
        decreases xl - k,
    {
        let cx = x.get_char(k);
        let cy = y.get_char(k);
        proof {
            assert(x@.skip(k as int)[0] == cx);
            assert(y@.skip(k as int)[0] == cy);
        }
        if cx != cy {
            proof {
                assert(chars_lt(x@.skip(k as int), y@.skip(k as int)) == (cx < cy));
            }
            return cx < cy;
        }
        proof {
            assert(x@.skip(k as int).drop_first() =~= x@.skip(k + 1));
            assert(y@.skip(k as int).drop_first() =~= y@.skip(k + 1));
        }
        k += 1;
    }
    proof {
        assert(x@.skip(k as int).len() == xl - k);
        assert(y@.skip(k as int).len() == yl - k);
    }
    xl < yl
}

/// Whether word `a` precedes word `b` in the lexicographic order over
/// symbol content.
pub fn word_symbols_lt(a: &Word, b: &Word) -> (r: bool)
    ensures
        r == symbols_lt(a@, b@),
{
    proof {
        lemma_word_symbols(a);
        lemma_word_symbols(b);
    }
    let al = a.phonemes.len();
    let bl = b.phonemes.len();
    proof {
        assert(a@.skip(0) =~= a@);
        assert(b@.skip(0) =~= b@);
    }
    let mut k: usize = 0;
    while k < al && k < bl
        invariant
            k <= al,
            k <= bl,
            al == a@.len(),
            bl == b@.len(),
            symbols_lt(a@, b@) == symbols_lt(a@.skip(k as int), b@.skip(k as int)),
        decreases al - k,
    {
        proof {
            assert(a@.skip(k as int)[0] == a@[k as int]);
            assert(b@.skip(k as int)[0] == b@[k as int]);
        }
        if !(a.phonemes[k].symbol == b.phonemes[k].symbol) {
            proof {
                assert(a@[k as int] != b@[k as int]);
                assert(symbols_lt(a@.skip(k as int), b@.skip(k as int)) == chars_lt(
                    a@[k as int],
                    b@[k as int],
                ));
            }
            return str_chars_lt(a.phonemes[k].symbol.as_str(), b.phonemes[k].symbol.as_str());
        }
        proof {
            assert(a@.skip(k as int).drop_first() =~= a@.skip(k + 1));
            assert(b@.skip(k as int).drop_first() =~= b@.skip(k + 1));
        }
        k += 1;
    }
    proof {
        assert(a@.skip(k as int).len() == al - k);
        assert(b@.skip(k as int).len() == bl - k);
    }
    al < bl
}

} // verus!
