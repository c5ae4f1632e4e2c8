//! What is known of the hidden word, and the test of a candidate against it.
use vstd::prelude::*;

verus! {

/// Number of letters in a word of the game.
pub const WORD_LEN: usize = 5;

/// The player's knowledge of the hidden word.
///
/// `chars[i]` holds the letter known to stand at position `i`, or is empty.
/// `wrong_pos[i]` holds letters known to be in the word but not at `i`.
/// `wrong` holds letters known to be absent from the word.
pub struct Word {
    pub chars: Vec<String>,
    pub wrong: String,
    pub wrong_pos: Vec<String>,
}

/// `s` without any occurrence of `c`.
pub open spec fn without(s: Seq<char>, c: char) -> Seq<char> {
    s.filter(other_than(c))
}

/// Holds of every character but `c`.
pub open spec fn other_than(c: char) -> spec_fn(char) -> bool {
    |x: char| x != c
}

impl Word {
    /// Five slots in each positional field, at most one letter in each known
    /// slot, and no letter both known and flagged as misplaced at one position.
    pub open spec fn wf(&self) -> bool {
        &&& self.chars@.len() == WORD_LEN
        &&& self.wrong_pos@.len() == WORD_LEN
        &&& forall|i: int| 0 <= i < WORD_LEN ==> (#[trigger] self.chars@[i])@.len() <= 1
        &&& forall|i: int|
            0 <= i < WORD_LEN && (#[trigger] self.chars@[i])@.len() == 1
                ==> !self.wrong_pos@[i]@.contains(self.chars@[i]@[0])
    }

    /// Every known letter stands at its position in `w`.
    pub open spec fn known_ok(&self, w: Seq<char>) -> bool {
        forall|i: int|
            0 <= i < WORD_LEN && (#[trigger] self.chars@[i])@.len() > 0 ==> w[i]
                == self.chars@[i]@[0]
    }

    /// No absent letter occurs in `w`.
    pub open spec fn excluded_ok(&self, w: Seq<char>) -> bool {
        forall|k: int| 0 <= k < self.wrong@.len() ==> !w.contains(#[trigger] self.wrong@[k])
    }

    /// Every misplaced letter occurs in `w`, but not at the position where it
    /// was seen.
    pub open spec fn misplaced_ok(&self, w: Seq<char>) -> bool {
        forall|i: int, k: int|
            0 <= i < WORD_LEN && 0 <= k < self.wrong_pos@[i]@.len() ==> w[i]
                != #[trigger] self.wrong_pos@[i]@[k] && w.contains(self.wrong_pos@[i]@[k])
    }

    /// `w` is a word of the game's length that agrees with everything known.
    pub open spec fn accepts(&self, w: Seq<char>) -> bool {
        &&& w.len() == WORD_LEN
        &&& self.known_ok(w)
        &&& self.excluded_ok(w)
        &&& self.misplaced_ok(w)
    }

    /// Nothing is known yet.
    pub open spec fn is_blank(&self) -> bool {
        &&& forall|i: int| 0 <= i < self.chars@.len() ==> (#[trigger] self.chars@[i])@.len() == 0
        &&& self.wrong@.len() == 0
        &&& forall|i: int|
            0 <= i < self.wrong_pos@.len() ==> (#[trigger] self.wrong_pos@[i])@.len() == 0
    }
}

/// The characters of `w`, one by one.
fn letters(w: &str) -> (r: Vec<char>)
    ensures
        r@ == w@,
{
    let n = w.unicode_len();
    let mut r: Vec<char> = Vec::new();
    let mut i: usize = 0;
    while i < n
        invariant
            n == w@.len(),
            i <= n,
            r@ == w@.subrange(0, i as int),
        decreases n - i,
    {
        r.push(w.get_char(i));
        i += 1;
        assert(r@ =~= w@.subrange(0, i as int));
    }
    assert(w@.subrange(0, n as int) =~= w@);
    r
}

/// Whether `c` occurs in `w`.
fn holds(w: &Vec<char>, c: char) -> (r: bool)
    ensures
        r == w@.contains(c),
{
    let mut i: usize = 0;
    while i < w.len()
        invariant
            i <= w@.len(),
            forall|k: int| 0 <= k < i ==> w@[k] != c,
        decreases w@.len() - i,
    {
        if w[i] == c {
            assert(w@[i as int] == c);
            return true;
        }
        i += 1;
    }
    false
}

impl Word {
    /// Whether `w` agrees with everything known. A word whose length is not
    /// the game's does not match.
    pub fn matches(&self, w: &str) -> (r: bool)
        requires
            self.wf(),
        ensures
            r == self.accepts(w@),
    {
        let n = w.unicode_len();
        if n != WORD_LEN {
            return false;
        }
        let wc = letters(w);
        let mut i: usize = 0;
        while i < WORD_LEN
            invariant
                self.wf(),
                wc@ == w@,
                w@.len() == WORD_LEN,
                i <= WORD_LEN,
                forall|j: int|
                    0 <= j < i && (#[trigger] self.chars@[j])@.len() > 0 ==> w@[j]
                        == self.chars@[j]@[0],
            decreases WORD_LEN - i,
        {
            let known = self.chars[i].as_str();
            if known.unicode_len() > 0 {
                if wc[i] != known.get_char(0) {
                    return false;
                }
            }
            i += 1;
        }
        let n_wrong = self.wrong.as_str().unicode_len();
        let mut k: usize = 0;
        while k < n_wrong
            invariant
                wc@ == w@,
                n_wrong == self.wrong@.len(),
                k <= n_wrong,
                forall|j: int| 0 <= j < k ==> !w@.contains(#[trigger] self.wrong@[j]),
            decreases n_wrong - k,
        {
            if holds(&wc, self.wrong.as_str().get_char(k)) {
                return false;
            }
            k += 1;
        }
        let mut i: usize = 0;
        while i < WORD_LEN
            invariant
                self.wf(),
                wc@ == w@,
                w@.len() == WORD_LEN,
                i <= WORD_LEN,
                forall|j: int, m: int|
                    0 <= j < i && 0 <= m < self.wrong_pos@[j]@.len() ==> w@[j]
                        != #[trigger] self.wrong_pos@[j]@[m] && w@.contains(self.wrong_pos@[j]@[m]),
            decreases WORD_LEN - i,
        {
            let flagged = self.wrong_pos[i].as_str();
            let n_flagged = flagged.unicode_len();
            let mut m: usize = 0;
            while m < n_flagged
                invariant
                    self.wf(),
                    wc@ == w@,
                    w@.len() == WORD_LEN,
                    i < WORD_LEN,
                    flagged@ == self.wrong_pos@[i as int]@,
                    n_flagged == flagged@.len(),
                    m <= n_flagged,
                    forall|j: int, q: int|
                        0 <= j < i && 0 <= q < self.wrong_pos@[j]@.len() ==> w@[j]
                            != #[trigger] self.wrong_pos@[j]@[q] && w@.contains(
                            self.wrong_pos@[j]@[q],
                        ),
                    forall|q: int|
                        0 <= q < m ==> w@[i as int] != #[trigger] self.wrong_pos@[i as int]@[q]
                            && w@.contains(self.wrong_pos@[i as int]@[q]),
                decreases n_flagged - m,
            {
                let c = flagged.get_char(m);
                if wc[i] == c || !holds(&wc, c) {
                    return false;
                }
                m += 1;
            }
            i += 1;
        }
        true
    }

    /// A copy of `w` where it agrees with everything known, else `None`.
    pub fn filter(&self, w: &str) -> (r: Option<String>)
        requires
            self.wf(),
        ensures
            r.is_some() == self.accepts(w@),
            r matches Some(s) ==> s@ == w@,
    {
        if self.matches(w) {
            Some(w.to_owned())
        } else {
            None
        }
    }
}

/// The words of `s` that `c` accepts, in their order in `s`.
pub open spec fn survivors(c: Word, s: Seq<String>) -> Seq<String> {
    s.filter(accepted_by(c))
}

/// Holds of the words that `c` accepts.
pub open spec fn accepted_by(c: Word) -> spec_fn(String) -> bool {
    |x: String| c.accepts(x@)
}

/// Keeps the words of `words` that agree with everything `word` knows, in
/// their order. Words of another length than the game's are dropped.
pub fn filter_words(words: &Vec<String>, word: &Word) -> (r: Vec<String>)
    requires
        word.wf(),
    ensures
        r@ == survivors(*word, words@),
{
    broadcast use vstd::seq::Seq::lemma_filter_push;

    let mut r: Vec<String> = Vec::new();
    let mut i: usize = 0;
    while i < words.len()
        invariant
            word.wf(),
            i <= words@.len(),
            r@ == survivors(*word, words@.subrange(0, i as int)),
        decreases words@.len() - i,
    {
        assert(words@.subrange(0, i + 1) =~= words@.subrange(0, i as int).push(words@[i as int]));
        proof {
            words@.subrange(0, i as int).lemma_filter_push(words@[i as int], accepted_by(*word));
        }
        if word.matches(words[i].as_str()) {
            r.push(words[i].clone());
        }
        i += 1;
    }
    assert(words@.subrange(0, words@.len() as int) =~= words@);
    r
}

/// `s` with every `c` taken out.
fn remove_letter(s: &String, c: char) -> (r: String)
    ensures
        r@ == without(s@, c),
{
    broadcast use vstd::seq::Seq::lemma_filter_push;

    let t = s.as_str();
    let n = t.unicode_len();
    let mut r = String::new();
    let mut i: usize = 0;
    while i < n
        invariant
            t@ == s@,
            n == s@.len(),
            i <= n,
            r@ == without(s@.subrange(0, i as int), c),
        decreases n - i,
    {
        assert(s@.subrange(0, i + 1) =~= s@.subrange(0, i as int).push(s@[i as int]));
        proof {
            s@.subrange(0, i as int).lemma_filter_push(s@[i as int], other_than(c));
        }
        if t.get_char(i) != c {
            let one = t.substring_char(i, i + 1);
            assert(one@ =~= seq![s@[i as int]]);
            r.append(one);
        }
        i += 1;
    }
    assert(s@.subrange(0, n as int) =~= s@);
    r
}

proof fn lemma_without(s: Seq<char>, c: char)
    ensures
        !without(s, c).contains(c),
        forall|x: char| #[trigger] without(s, c).contains(x) ==> s.contains(x),
{
    broadcast use vstd::seq::Seq::lemma_filter_contains_rev;

    let f = other_than(c);
    if without(s, c).contains(c) {
        let k = choose|k: int| 0 <= k < without(s, c).len() && without(s, c)[k] == c;
        s.lemma_filter_pred(f, k);
    }
    assert forall|x: char| #[trigger] without(s, c).contains(x) implies s.contains(x) by {
        let k = choose|k: int| 0 <= k < without(s, c).len() && without(s, c)[k] == x;
        s.lemma_filter_contains_rev(f, x);
    }
}

impl Word {
    /// A constraint set that knows nothing.
    pub fn new() -> (r: Word)
        ensures
            r.wf(),
            r.is_blank(),
    {
        let mut chars: Vec<String> = Vec::new();
        let mut wrong_pos: Vec<String> = Vec::new();
        let mut i: usize = 0;
        while i < WORD_LEN
            invariant
                i <= WORD_LEN,
                chars@.len() == i,
                wrong_pos@.len() == i,
                forall|j: int| 0 <= j < i ==> (#[trigger] chars@[j])@.len() == 0,
                forall|j: int| 0 <= j < i ==> (#[trigger] wrong_pos@[j])@.len() == 0,
            decreases WORD_LEN - i,
        {
            chars.push(String::new());
            wrong_pos.push(String::new());
            i += 1;
        }
        Word { chars, wrong: String::new(), wrong_pos }
    }

    /// Records `letter` (empty when unknown) as the letter at `idx`, and takes
    /// it out of every slot of misplaced letters: where it stands is now known.
    pub fn set_known(&mut self, idx: usize, letter: String)
        requires
            old(self).wf(),
            idx < WORD_LEN,
            letter@.len() <= 1,
        ensures
            final(self).wf(),
            final(self).chars@ == old(self).chars@.update(idx as int, letter),
            final(self).wrong == old(self).wrong,
            forall|j: int|
                0 <= j < WORD_LEN ==> (#[trigger] final(self).wrong_pos@[j])@ == if letter@.len()
                    == 1 {
                    without(old(self).wrong_pos@[j]@, letter@[0])
                } else {
                    old(self).wrong_pos@[j]@
                },
    {
        let one = letter.as_str().unicode_len() == 1;
        let c = if one {
            letter.as_str().get_char(0)
        } else {
            ' '
        };
        self.chars.set(idx, letter);
        if one {
            let mut j: usize = 0;
            while j < WORD_LEN
                invariant
                    self.chars@ == old(self).chars@.update(idx as int, letter),
                    self.wrong == old(self).wrong,
                    self.wrong_pos@.len() == WORD_LEN,
                    letter@.len() == 1,
                    c == letter@[0],
                    j <= WORD_LEN,
                    forall|q: int|
                        0 <= q < j ==> (#[trigger] self.wrong_pos@[q])@ == without(
                            old(self).wrong_pos@[q]@,
                            c,
                        ),
                    forall|q: int|
                        j <= q < WORD_LEN ==> #[trigger] self.wrong_pos@[q] == old(
                            self,
                        ).wrong_pos@[q],
                decreases WORD_LEN - j,
            {
                let kept = remove_letter(&self.wrong_pos[j], c);
                self.wrong_pos.set(j, kept);
                j += 1;
            }
        }
        proof {
            assert forall|i: int|
                0 <= i < WORD_LEN && (#[trigger] self.chars@[i])@.len() == 1 implies !self.wrong_pos@[i]@.contains(
                self.chars@[i]@[0],
            ) by {
                if one {
                    lemma_without(old(self).wrong_pos@[i]@, c);
                }
            }
        }
    }

    /// Records `letters` as the letters seen but misplaced at `idx`; the letter
    /// known to stand at `idx`, if any, is left out of them.
    pub fn set_misplaced(&mut self, idx: usize, letters: String)
        requires
            old(self).wf(),
            idx < WORD_LEN,
        ensures
            final(self).wf(),
            final(self).chars == old(self).chars,
            final(self).wrong == old(self).wrong,
            final(self).wrong_pos@.len() == WORD_LEN,
            forall|j: int|
                0 <= j < WORD_LEN && j != idx ==> #[trigger] final(self).wrong_pos@[j] == old(
                    self,
                ).wrong_pos@[j],
            final(self).wrong_pos@[idx as int]@ == if old(self).chars@[idx as int]@.len() == 1 {
                without(letters@, old(self).chars@[idx as int]@[0])
            } else {
                letters@
            },
    {
        let known = self.chars[idx].as_str();
        let kept = if known.unicode_len() == 1 {
            let c = known.get_char(0);
            proof {
                lemma_without(letters@, c);
            }
            remove_letter(&letters, c)
        } else {
            letters
        };
        self.wrong_pos.set(idx, kept);
    }

    /// Records `letters` as the letters absent from the word.
    pub fn set_excluded(&mut self, letters: String)
        requires
            old(self).wf(),
        ensures
            final(self).wf(),
            final(self).chars == old(self).chars,
            final(self).wrong_pos == old(self).wrong_pos,
            final(self).wrong == letters,
    {
        self.wrong = letters;
    }
}

impl Default for Word {
    fn default() -> (r: Word)
        ensures
            r.wf(),
            r.is_blank(),
    {
        Word::new()
    }
}

/// With nothing known, every word of the game's length survives, and the list
/// comes back as it was, in its order.
pub proof fn lemma_blank_keeps_all(c: Word, s: Seq<String>)
    requires
        c.wf(),
        c.is_blank(),
        forall|i: int| 0 <= i < s.len() ==> (#[trigger] s[i])@.len() == WORD_LEN,
    ensures
        survivors(c, s) == s,
    decreases s.len(),
{
    if s.len() > 0 {
        let u = s.drop_last();
        lemma_blank_keeps_all(c, u);
        u.lemma_filter_push(s.last(), accepted_by(c));
        assert(u.push(s.last()) =~= s);
        assert(c.accepts(s.last()@));
    }
}

/// A word that matches holds each known letter at its position, holds every
/// misplaced letter but not where it was seen, and holds no absent letter.
pub proof fn lemma_match_sound(c: Word, w: Seq<char>)
    requires
        c.wf(),
        c.accepts(w),
    ensures
        w.len() == WORD_LEN,
        forall|i: int|
            0 <= i < WORD_LEN && (#[trigger] c.chars@[i])@.len() > 0 ==> w[i] == c.chars@[i]@[0],
        forall|x: char| #[trigger] c.wrong@.contains(x) ==> !w.contains(x),
        forall|i: int, x: char|
            0 <= i < WORD_LEN && (#[trigger] c.wrong_pos@[i]@.contains(x)) ==> w[i] != x
                && w.contains(x),
{
    assert forall|x: char| #[trigger] c.wrong@.contains(x) implies !w.contains(x) by {
        let k = choose|k: int| 0 <= k < c.wrong@.len() && c.wrong@[k] == x;
        assert(!w.contains(c.wrong@[k]));
    }
    assert forall|i: int, x: char|
        0 <= i < WORD_LEN && (#[trigger] c.wrong_pos@[i]@.contains(x)) implies w[i] != x
        && w.contains(x) by {
        let k = choose|k: int| 0 <= k < c.wrong_pos@[i]@.len() && c.wrong_pos@[i]@[k] == x;
        assert(w[i] != c.wrong_pos@[i]@[k]);
    }
}

} // verus!
