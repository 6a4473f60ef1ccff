//! The atomic symbol model: a `Phoneme` is one character or one phonetic
//! token, and a `Word` is an ordered sequence of phonemes together with a
//! display spelling. Words are compared by their symbol content alone; the
//! spelling is a label that never takes part in equality.

use vstd::prelude::*;
use vstd::string::StrSliceExecFns;

verus! {

/// One atomic token: a single character, or one phonetic code held as a short
/// string. Its mathematical content is the character sequence of the token.
#[derive(Debug)]
pub struct Phoneme {
    pub symbol: String,
}

impl View for Phoneme {
    type V = Seq<char>;

    open spec fn view(&self) -> Seq<char> {
        self.symbol@
    }
}

impl DeepView for Phoneme {
    type V = Seq<char>;

    open spec fn deep_view(&self) -> Seq<char> {
        self@
    }
}

impl Clone for Phoneme {
    fn clone(&self) -> (r: Self)
        ensures
            r == *self,
    {
        Phoneme { symbol: self.symbol.clone() }
    }
}

impl PartialEq for Phoneme {
    fn eq(&self, other: &Self) -> bool {
        self.symbol == other.symbol
    }
}

impl vstd::std_specs::cmp::PartialEqSpecImpl for Phoneme {
    open spec fn obeys_eq_spec() -> bool {
        true
    }

    open spec fn eq_spec(&self, other: &Phoneme) -> bool {
        self@ == other@
    }
}

/// One dictionary entry: an ordered list of phonemes plus a display spelling.
/// Its mathematical content is the sequence of its phonemes' contents; the
/// spelling is carried along for output only.
#[derive(Debug)]
pub struct Word {
    pub spelling: String,
    pub phonemes: Vec<Phoneme>,
}

impl View for Word {
    type V = Seq<Seq<char>>;

    open spec fn view(&self) -> Seq<Seq<char>> {
        self.phonemes.deep_view()
    }
}

impl DeepView for Word {
    type V = Seq<Seq<char>>;

    open spec fn deep_view(&self) -> Seq<Seq<char>> {
        self@
    }
}

impl Clone for Word {
    fn clone(&self) -> (r: Self)
        ensures
            r@ == self@,
            r.spelling@ == self.spelling@,
    {
        let phonemes = self.phonemes.clone();
        proof {
            assert(phonemes.deep_view() =~= self.phonemes.deep_view());
        }
        Word { spelling: self.spelling.clone(), phonemes }
    }
}

impl PartialEq for Word {
    fn eq(&self, other: &Self) -> bool {
        words_match(self, other)
    }
}

impl vstd::std_specs::cmp::PartialEqSpecImpl for Word {
    open spec fn obeys_eq_spec() -> bool {
        true
    }

    open spec fn eq_spec(&self, other: &Word) -> bool {
        self@ == other@
    }
}

/// How a word's symbol sequence is read off its phoneme vector.
pub proof fn lemma_word_symbols(w: &Word)
    ensures
        w@.len() == w.phonemes@.len(),
        forall|k: int| 0 <= k < w.phonemes@.len() ==> #[trigger] w@[k] == w.phonemes@[k].symbol@,
{
}

/// Whether two words hold the same symbols in the same order. This is the
/// only notion of word equality in the library: spellings are ignored.
#[verifier::loop_isolation(false)]
pub fn words_match(a: &Word, b: &Word) -> (r: bool)
    ensures
        r == (a@ == b@),
{
    proof {
        lemma_word_symbols(a);
        lemma_word_symbols(b);
    }
    let n = a.phonemes.len();
    if n != b.phonemes.len() {
        return false;
    }
    let mut i: usize = 0;
    while i < n
        invariant
            i <= n,
            forall|k: int| 0 <= k < i ==> a@[k] == b@[k],
        decreases n - i,
    {
        if !(a.phonemes[i].symbol == b.phonemes[i].symbol) {
            proof {
                assert(a@[i as int] != b@[i as int]);
            }
            return false;
        }
        i += 1;
    }
    proof {
        assert(a@ =~= b@);
    }
    true
}

/// Whether word `a` reads as word `b` backwards, symbol by symbol.
#[verifier::loop_isolation(false)]
pub fn word_is_reverse_of(a: &Word, b: &Word) -> (r: bool)
    ensures
        r == (a@ == b@.reverse()),
{
    proof {
        lemma_word_symbols(a);
        lemma_word_symbols(b);
    }
    let n = a.phonemes.len();
    if n != b.phonemes.len() {
        return false;
    }
    if n == 0 {
        proof {
            assert(a@ =~= b@.reverse());
        }
        return true;
    }
    let mut i: usize = 0;
    while i < n
        invariant
            i <= n,
            forall|k: int| 0 <= k < i ==> a@[k] == b@[n - 1 - k],
        decreases n - i,
    {
        if !(a.phonemes[i].symbol == b.phonemes[n - 1 - i].symbol) {
            proof {
                assert(b@.reverse()[i as int] == b@[n - 1 - i]);
            }
            return false;
        }
        i += 1;
    }
    proof {
        assert(a@ =~= b@.reverse());
    }
    true
}

/// Relies on `ToString::to_string` for `char`: the returned string holds
/// exactly that one character.
#[verifier::external_body]
fn char_to_string(c: char) -> (s: String)
    ensures
        s@ == seq![c],
{
    c.to_string()
}

/// Builds the word for a piece of plain text: the spelling is the text itself
/// and each character becomes one single-character phoneme.
#[verifier::loop_isolation(false)]
pub fn word_of_text(text: &str) -> (w: Word)
    ensures
        w.spelling@ == text@,
        w@.len() == text@.len(),
        forall|i: int| 0 <= i < text@.len() ==> w@[i] == seq![text@[i]],
{
    let n = text.unicode_len();
    let mut phonemes: Vec<Phoneme> = Vec::new();
    let mut i: usize = 0;
    while i < n
        invariant
            i <= n,
            phonemes@.len() == i,
            forall|k: int| 0 <= k < i ==> #[trigger] phonemes@[k].symbol@ == seq![text@[k]],
        decreases n - i,
    {
        let c = text.get_char(i);
        phonemes.push(Phoneme { symbol: char_to_string(c) });
        i += 1;
    }
    let w = Word { spelling: text.to_owned(), phonemes };
    proof {
        lemma_word_symbols(&w);
    }
    w
}

} // verus!
