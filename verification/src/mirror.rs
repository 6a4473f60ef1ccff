//! The mirror state evaluator: a pure classifier for an ordered prefix of
//! words being assembled into a square. `Invalid` prunes a search branch,
//! `Partial` lets it grow, and `Complete` marks a finished mirror square of
//! as many rows as each row has symbols.

use crate::phoneme::{lemma_word_symbols, word_is_reverse_of, Word};
use vstd::prelude::*;

verus! {

/// The mathematical content of a prefix of rows: each row is a word, a
/// sequence of symbols, and each symbol is a sequence of characters.
pub type Rows = Seq<Seq<Seq<char>>>;

/// Classification of a prefix of rows.
#[derive(Debug, PartialEq, Eq, Structural, Clone, Copy)]
pub enum MirrorState {
    Invalid,
    Complete,
    Partial,
}

/// Every row holds as many symbols as the first row.
pub open spec fn rows_same_len(m: Rows) -> bool {
    forall|k: int| 0 <= k < m.len() ==> (#[trigger] m[k]).len() == m[0].len()
}

/// Every row but the most recently appended one holds as many symbols as the
/// first row: what the search guarantees before the evaluator has ruled on
/// the newest row.
pub open spec fn earlier_rows_same_len(m: Rows) -> bool {
    forall|k: int| 0 <= k < m.len() - 1 ==> (#[trigger] m[k]).len() == m[0].len()
}

/// The reversal constraint of the phoneme variant: wherever row i and its
/// opposite row N-1-i are both present, row i reads as the opposite row
/// backwards (N is the symbol count of the first row).
pub open spec fn reversal_ok(m: Rows) -> bool {
    forall|i: int|
        0 <= i < (m[0].len() as int) / 2 && i < m.len() && m[0].len() - 1 - i < m.len()
            ==> #[trigger] m[i] == m[m[0].len() - 1 - i].reverse()
}

/// The transpose constraint: wherever rows i and j are both present, the
/// symbol at position j of row i equals the symbol at position i of row j.
pub open spec fn transpose_ok(m: Rows) -> bool {
    forall|i: int, j: int|
        0 <= i < m[0].len() && 0 <= j < m[0].len() && i < m.len() && j < m.len()
            ==> (#[trigger] m[i][j]) == m[j][i]
}

/// The state of a prefix of rows: the empty prefix is Partial; a most recent
/// row whose length differs from the first row's is Invalid; a reversal or
/// transpose mismatch is Invalid; a prefix of as many rows as the first row
/// has symbols is Complete; anything else is Partial.
pub open spec fn mirror_state_spec(m: Rows) -> MirrorState {
    if m.len() == 0 {
        MirrorState::Partial
    } else if m.last().len() != m[0].len() {
        MirrorState::Invalid
    } else if !(reversal_ok(m) && transpose_ok(m)) {
        MirrorState::Invalid
    } else if m.len() == m[0].len() {
        MirrorState::Complete
    } else {
        MirrorState::Partial
    }
}

/// How the content of a vector of words is read off the words themselves.
pub proof fn lemma_rows_view(v: &Vec<Word>)
    ensures
        v.deep_view().len() == v@.len(),
        forall|k: int| 0 <= k < v@.len() ==> #[trigger] v.deep_view()[k] == v@[k]@,
        forall|k: int| 0 <= k < v@.len() ==> (#[trigger] v.deep_view()[k]).len()
            == v@[k].phonemes@.len(),
        forall|k: int, j: int|
            0 <= k < v@.len() && 0 <= j < v@[k].phonemes@.len()
                ==> #[trigger] v.deep_view()[k][j] == v@[k].phonemes@[j].symbol@,
{
    assert forall|k: int| 0 <= k < v@.len() implies (#[trigger] v.deep_view()[k]).len()
        == v@[k].phonemes@.len() by {
        lemma_word_symbols(&v@[k]);
    };
    assert forall|k: int, j: int|
        0 <= k < v@.len() && 0 <= j < v@[k].phonemes@.len()
            implies #[trigger] v.deep_view()[k][j] == v@[k].phonemes@[j].symbol@ by {
        lemma_word_symbols(&v@[k]);
    };
}

/// Classifies an ordered prefix of rows. All rows before the most recently
/// appended one must hold equally many symbols; the search engine only ever
/// builds such prefixes, and a newest row of the wrong length is what the
/// defensive Invalid answer is for.
#[verifier::loop_isolation(false)]
pub fn mirror_state(mirror: &Vec<Word>) -> (state: MirrorState)
    requires
        earlier_rows_same_len(mirror.deep_view()),
    ensures
        state == mirror_state_spec(mirror.deep_view()),
{
    let ghost m = mirror.deep_view();
    proof {
        lemma_rows_view(mirror);
    }
    if mirror.len() == 0 {
        return MirrorState::Partial;
    }
    let rows = mirror.len();
    let n = mirror[0].phonemes.len();
    proof {
        assert(n == m[0].len());
    }
    // Defensive check on the most recently appended row.
    if mirror[rows - 1].phonemes.len() != n {
        proof {
            assert(m.last().len() == m[rows - 1].len());
            assert(m.last().len() != m[0].len());
        }
        return MirrorState::Invalid;
    }
    proof {
        assert(m[rows - 1].len() == n);
        assert(forall|k: int| 0 <= k < rows ==> (#[trigger] m[k]).len() == n);
        assert forall|k: int| 0 <= k < rows implies #[trigger] mirror@[k].phonemes@.len()
            == n by {
            assert(m[k].len() == mirror@[k].phonemes@.len());
        };
    }
    // Reversal constraint between each row and its opposite.
    let mut i: usize = 0;
    while i < n / 2
        invariant
            i <= n / 2,
            forall|a: int|
                0 <= a < i && a < rows && n - 1 - a < rows ==> #[trigger] m[a] == m[n - 1
                    - a].reverse(),
        decreases n / 2 - i,
    {
        let j = n - 1 - i;
        if i < rows && j < rows {
            if !word_is_reverse_of(&mirror[i], &mirror[j]) {
                proof {
                    assert(m[i as int] == mirror@[i as int]@);
                    assert(m[j as int] == mirror@[j as int]@);
                    assert(m[i as int] != m[m[0].len() - 1 - i].reverse());
                    assert(!reversal_ok(m));
                }
                return MirrorState::Invalid;
            }
        }
        i += 1;
    }
    proof {
        assert(reversal_ok(m));
    }
    // Transpose constraint over every pair of present rows.
    let bound = if rows < n {
        rows
    } else {
        n
    };
    let mut i: usize = 0;
    while i < bound
        invariant
            i <= bound,
            forall|a: int, b: int| 0 <= a < i && 0 <= b < bound ==> (#[trigger] m[a][b]) == m[b][a],
        decreases bound - i,
    {
        let mut j: usize = 0;
        while j < bound
            invariant
                j <= bound,
                forall|a: int, b: int|
                    0 <= a < i && 0 <= b < bound ==> (#[trigger] m[a][b]) == m[b][a],
                forall|b: int| 0 <= b < j ==> (#[trigger] m[i as int][b]) == m[b][i as int],
            decreases bound - j,
        {
            if i != j {
                if !(mirror[i].phonemes[j].symbol == mirror[j].phonemes[i].symbol) {
                    proof {
                        assert(m[i as int][j as int] != m[j as int][i as int]);
                        assert(!transpose_ok(m));
                    }
                    return MirrorState::Invalid;
                }
            }
            j += 1;
        }
        i += 1;
    }
    proof {
        assert(transpose_ok(m));
    }
    if rows == n {
        MirrorState::Complete
    } else {
        MirrorState::Partial
    }
}

/// Law: a complete prefix is a true square, transpose-symmetric throughout.
/// It holds exactly as many rows as each row holds symbols, and the symbol at
/// position j of row i equals the symbol at position i of row j, for every
/// pair of rows.
pub proof fn lemma_complete_transpose_symmetry(m: Rows)
    requires
        rows_same_len(m),
        mirror_state_spec(m) == MirrorState::Complete,
    ensures
        0 < m.len(),
        m.len() == m[0].len(),
        forall|i: int, j: int|
            0 <= i < m.len() && 0 <= j < m.len() ==> (#[trigger] m[i][j]) == m[j][i],
{
}

/// Law: in a complete prefix, each row of the first half reads as its
/// opposite row backwards (the reversal constraint of the phoneme variant).
pub proof fn lemma_complete_reversal_symmetry(m: Rows)
    requires
        rows_same_len(m),
        mirror_state_spec(m) == MirrorState::Complete,
    ensures
        forall|i: int|
            0 <= i < (m.len() as int) / 2 ==> (#[trigger] m[i]) == m[m.len() - 1 - i].reverse(),
{
    assert forall|i: int|
        0 <= i < (m.len() as int) / 2 implies (#[trigger] m[i]) == m[m.len() - 1
        - i].reverse() by {
        assert(m[i] == m[m[0].len() - 1 - i].reverse());
    };
}

/// Every proper prefix of a complete square of equally long rows classifies
/// Partial: the search that grew it was never pruned and never stopped early.
pub proof fn lemma_complete_prefix_partial(m: Rows, k: int)
    requires
        rows_same_len(m),
        mirror_state_spec(m) == MirrorState::Complete,
        0 <= k < m.len(),
    ensures
        mirror_state_spec(m.take(k)) == MirrorState::Partial,
{
    let p = m.take(k);
    if k > 0 {
        assert(p[0] == m[0]);
        assert(p.last() == m[k - 1]);
        let n = m[0].len() as int;
        assert(reversal_ok(p)) by {
            assert forall|i: int|
                0 <= i < (p[0].len() as int) / 2 && i < p.len() && p[0].len() - 1 - i
                    < p.len() implies (#[trigger] p[i]) == p[p[0].len() - 1 - i].reverse() by {
                assert(m[i] == m[n - 1 - i].reverse());
                assert(p[i] == m[i]);
                assert(p[n - 1 - i] == m[n - 1 - i]);
            };
        }
        assert(transpose_ok(p)) by {
            assert forall|i: int, j: int|
                0 <= i < p[0].len() && 0 <= j < p[0].len() && i < p.len() && j
                    < p.len() implies (#[trigger] p[i][j]) == p[j][i] by {
                assert(m[i][j] == m[j][i]);
            };
        }
        assert(p.len() < m[0].len());
    }
}

} // verus!
