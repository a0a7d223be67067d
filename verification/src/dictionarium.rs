//! The word index: dictionary words bucketed by length and letter signature,
//! filtered so that only words usable in an anagram of the target remain.

pub use crate::text::normalize_string;

use crate::signature::{
    count_letter, counts_of, fits_counts, is_az, lemma_sum_counts_len, spec_subset, sum_counts,
    Signature,
};
use crate::text::{all_az, norm_of};
use vstd::prelude::*;

verus! {

/// The longest word the index can hold.
pub const MAX_WORD_LENGTH: usize = 45;

/// One length bucket: the signatures of that length seen so far, each with
/// the dictionary words that share it.
pub struct Section {
    keys: Vec<Signature>,
    word_lists: Vec<Vec<String>>,
}

impl Section {
    /// How many distinct signatures the bucket holds.
    pub closed spec fn spec_len(&self) -> int {
        self.keys@.len() as int
    }

    /// The counts of the `m`-th signature.
    pub closed spec fn spec_key(&self, m: int) -> Seq<u8> {
        self.keys@[m]@
    }

    /// The words stored under the `m`-th signature.
    pub closed spec fn spec_words(&self, m: int) -> Seq<String> {
        self.word_lists@[m]@
    }

    /// Bucket well-formedness: one word list per signature, no signature
    /// twice.
    pub closed spec fn inv(&self) -> bool {
        &&& self.keys@.len() == self.word_lists@.len()
        &&& forall|m1: int, m2: int|
            0 <= m1 < m2 < self.keys@.len() ==> self.spec_key(m1) != self.spec_key(m2)
    }

    /// True iff some entry of the bucket carries the counts `sig`.
    pub open spec fn has_key(&self, sig: Seq<u8>) -> bool {
        exists|m: int| 0 <= m < self.spec_len() && self.spec_key(m) == sig
    }

    /// An empty bucket.
    pub fn new() -> (r: Section)
        ensures
            r.inv(),
            r.spec_len() == 0,
    {
        Section { keys: Vec::new(), word_lists: Vec::new() }
    }

    /// How many distinct signatures the bucket holds.
    pub fn entry_count(&self) -> (r: usize)
        ensures
            r == self.spec_len(),
    {
        self.keys.len()
    }

    /// The `m`-th signature of the bucket.
    pub fn key_at(&self, m: usize) -> (r: &Signature)
        requires
            0 <= m < self.spec_len(),
        ensures
            r@ == self.spec_key(m as int),
    {
        &self.keys[m]
    }

    /// The words stored under the `m`-th signature.
    pub fn words_at(&self, m: usize) -> (r: &Vec<String>)
        requires
            self.inv(),
            0 <= m < self.spec_len(),
        ensures
            r@ == self.spec_words(m as int),
    {
        &self.word_lists[m]
    }

    /// No two entries of a well-formed bucket carry the same counts.
    pub proof fn lemma_key_unique(&self, m1: int, m2: int)
        requires
            self.inv(),
            0 <= m1 < self.spec_len(),
            0 <= m2 < self.spec_len(),
            self.spec_key(m1) == self.spec_key(m2),
        ensures
            m1 == m2,
    {
    }

    /// Every signature of a bucket carries one count per letter.
    pub proof fn lemma_key_len(&self, m: int)
        requires
            0 <= m < self.spec_len(),
        ensures
            self.spec_key(m).len() == 26,
    {
        broadcast use crate::signature::lemma_signature_len;

        assert(self.keys@[m]@.len() == 26);
    }

    /// The position of the entry carrying the counts of `sig`, if any.
    pub fn find(&self, sig: &Signature) -> (r: Option<usize>)
        ensures
            match r {
                Some(m) => 0 <= m < self.spec_len() && self.spec_key(m as int) == sig@,
                None => !self.has_key(sig@),
            },
    {
        let n = self.keys.len();
        let mut m: usize = 0;
        while m < n
            invariant
                n == self.spec_len(),
                m <= n,
                forall|t: int| 0 <= t < m ==> self.spec_key(t) != sig@,
            decreases n - m,
        {
            if self.keys[m] == *sig {
                return Some(m);
            }
            m = m + 1;
        }
        None
    }

    /// Stores `word` under the signature `sig`, opening a new entry when the
    /// signature is new to the bucket.
    fn push_word(&mut self, sig: &Signature, word: String)
        requires
            old(self).inv(),
        ensures
            final(self).inv(),
            final(self).has_key(sig@),
            exists|m: int, w: int|
                0 <= m < final(self).spec_len() && final(self).spec_key(m) == sig@ && 0 <= w
                    < final(self).spec_words(m).len()
                    && (#[trigger] final(self).spec_words(m)[w]) == word,
            // entries either kept, or extended exactly where `sig` sits
            final(self).spec_len() == old(self).spec_len() || final(self).spec_len() == old(
                self,
            ).spec_len() + 1,
            forall|m: int|
                0 <= m < old(self).spec_len() ==> final(self).spec_key(m) == old(self).spec_key(m),
            forall|m: int|
                0 <= m < old(self).spec_len() ==> final(self).spec_words(m).len() >= old(
                    self,
                ).spec_words(m).len(),
            forall|m: int, w: int|
                0 <= m < old(self).spec_len() && 0 <= w < old(self).spec_words(m).len() ==> (
                #[trigger] final(self).spec_words(m)[w]) == old(self).spec_words(m)[w],
            forall|m: int|
                old(self).spec_len() <= m < final(self).spec_len() ==> final(self).spec_key(m)
                    == sig@,
            forall|m: int, w: int|
                0 <= m < final(self).spec_len() && 0 <= w < final(self).spec_words(m).len() ==> {
                    ||| (0 <= m < old(self).spec_len() && w < old(self).spec_words(m).len()
                        && #[trigger] final(self).spec_words(m)[w] == old(self).spec_words(m)[w])
                    ||| (final(self).spec_words(m)[w] == word && final(self).spec_key(m) == sig@)
                },
    {
        let found = self.find(sig);
        match found {
            Some(m) => {
                self.word_lists[m].push(word);
                proof {
                    assert(self.keys@ == old(self).keys@);
                    assert(self.word_lists@.len() == old(self).word_lists@.len());
                    assert forall|m1: int, m2: int|
                        0 <= m1 < m2 < self.keys@.len() implies self.spec_key(m1) != self.spec_key(
                        m2,
                    ) by {
                        assert(self.spec_key(m1) == old(self).spec_key(m1));
                        assert(self.spec_key(m2) == old(self).spec_key(m2));
                    }
                    assert(self.inv());
                    assert(self.spec_key(m as int) == sig@);
                    assert(self.has_key(sig@));
                    assert forall|t: int, w: int|
                        0 <= t < self.spec_len() && 0 <= w < self.spec_words(t).len() implies {
                        ||| (0 <= t < old(self).spec_len() && w < old(self).spec_words(t).len()
                            && #[trigger] self.spec_words(t)[w] == old(self).spec_words(t)[w])
                        ||| (self.spec_words(t)[w] == word && self.spec_key(t) == sig@)
                    } by {
                        if t == m as int {
                            assert(self.spec_words(t) == old(self).spec_words(t).push(word));
                        } else {
                            assert(self.spec_words(t) == old(self).spec_words(t));
                        }
                    }
                    assert(self.spec_words(m as int) == old(self).spec_words(m as int).push(word));
                    assert(self.spec_words(m as int)[self.spec_words(m as int).len() - 1] == word);
                }
            },
            None => {
                self.keys.push(sig.clone());
                let mut fresh: Vec<String> = Vec::new();
                fresh.push(word);
                self.word_lists.push(fresh);
                proof {
                    assert(self.spec_len() == old(self).spec_len() + 1);
                    assert(self.spec_key(self.spec_len() - 1) == sig@);
                    assert(self.has_key(sig@));
                    assert(forall|t: int|
                        0 <= t < old(self).spec_len() ==> #[trigger] self.spec_key(t) == old(
                            self,
                        ).spec_key(t));
                    assert forall|t: int, w: int|
                        0 <= t < self.spec_len() && 0 <= w < self.spec_words(t).len() implies {
                        ||| (0 <= t < old(self).spec_len() && w < old(self).spec_words(t).len()
                            && #[trigger] self.spec_words(t)[w] == old(self).spec_words(t)[w])
                        ||| (self.spec_words(t)[w] == word && self.spec_key(t) == sig@)
                    } by {
                        if t < old(self).spec_len() {
                            assert(self.spec_words(t) == old(self).spec_words(t));
                        } else {
                            assert(self.spec_words(t)[w] == word);
                        }
                    }
                    assert(self.spec_words(self.spec_len() - 1)[0] == word);
                }
            },
        }
    }
}

/// One raw dictionary line, as the index treats it: skipped when nothing
/// alphabetic remains, otherwise judged by its normalized form.
pub open spec fn line_ok(l: Seq<char>) -> bool {
    let w = norm_of(l);
    w.len() == 0 || (w.len() <= MAX_WORD_LENGTH && all_az(w))
}

/// A target phrase the index can work with: its normalized form is lowercase
/// letters whose counts fit a signature.
pub open spec fn target_ok(t: Seq<char>) -> bool {
    all_az(norm_of(t)) && fits_counts(norm_of(t))
}

/// Whether the index must retain this raw line for the given target counts:
/// its normalization is non-empty and a subset of the target's.
pub open spec fn line_retained(l: Seq<char>, target: Seq<u8>) -> bool {
    norm_of(l).len() > 0 && spec_subset(counts_of(norm_of(l)), target)
}

/// How many of the first `k` lines the index must retain.
pub open spec fn retained_count(lines: Seq<String>, target: Seq<u8>, k: int) -> int
    decreases k,
{
    if k <= 0 {
        0
    } else {
        retained_count(lines, target, k - 1) + if line_retained(lines[k - 1]@, target) {
            1int
        } else {
            0int
        }
    }
}

/// How many of the first `k` lines normalize to something non-empty.
pub open spec fn nonempty_norm_count(lines: Seq<String>, k: int) -> int
    decreases k,
{
    if k <= 0 {
        0
    } else {
        nonempty_norm_count(lines, k - 1) + if norm_of(lines[k - 1]@).len() > 0 {
            1int
        } else {
            0int
        }
    }
}

/// `word` is a dictionary word whose normalized form carries exactly the
/// counts `sig`.
pub open spec fn word_matches(sig: Seq<u8>, word: Seq<char>) -> bool {
    &&& all_az(norm_of(word))
    &&& fits_counts(norm_of(word))
    &&& sig == counts_of(norm_of(word))
}

/// The dictionary index: one bucket per word length, built once from the raw
/// word list and read-only afterwards.
pub struct Dictionarium {
    words_number: u64,
    reduced_words_number: u64,
    longest_word_length: usize,
    sections: Vec<Section>,
}

impl Dictionarium {
    /// The length buckets, from length zero up to the longest supported.
    pub closed spec fn spec_sections(&self) -> Seq<Section> {
        self.sections@
    }

    /// How many words were read, empty lines aside.
    pub closed spec fn spec_words_number(&self) -> u64 {
        self.words_number
    }

    /// How many words survived the target filter.
    pub closed spec fn spec_reduced(&self) -> u64 {
        self.reduced_words_number
    }

    /// The longest retained word's length.
    pub closed spec fn spec_longest(&self) -> usize {
        self.longest_word_length
    }

    /// The raw line `w` sits in the bucket of its normalized length, under
    /// its normalized counts.
    pub open spec fn stores(self, w: String) -> bool {
        &&& norm_of(w@).len() <= MAX_WORD_LENGTH
        &&& exists|m: int, wi: int|
            {
                &&& 0 <= m < self.spec_sections()[norm_of(w@).len() as int].spec_len()
                &&& self.spec_sections()[norm_of(w@).len() as int].spec_key(m) == counts_of(
                    norm_of(w@),
                )
                &&& 0 <= wi < self.spec_sections()[norm_of(w@).len() as int].spec_words(m).len()
                &&& (#[trigger] self.spec_sections()[norm_of(w@).len() as int].spec_words(m)[wi])
                    == w
            }
    }

    /// Index well-formedness: one bucket per length, each bucket's signatures
    /// count exactly as many letters as the bucket's length, and the bucket
    /// of length zero stays empty: a word with no letters is never filed.
    pub open spec fn inv(&self) -> bool {
        &&& self.spec_sections().len() == MAX_WORD_LENGTH + 1
        &&& forall|l: int|
            0 <= l < self.spec_sections().len() ==> (#[trigger] self.spec_sections()[l]).inv()
        &&& forall|l: int, m: int|
            0 <= l < self.spec_sections().len() && 0 <= m < self.spec_sections()[l].spec_len()
                ==> sum_counts(#[trigger] self.spec_sections()[l].spec_key(m)) == l
        &&& self.spec_sections()[0].spec_len() == 0
    }

    /// Every stored signature is a subset of `target`: words that could never
    /// take part in an anagram of the target were filtered out.
    pub open spec fn filtered_by(&self, target: Seq<u8>) -> bool {
        forall|l: int, m: int|
            0 <= l < self.spec_sections().len() && 0 <= m < self.spec_sections()[l].spec_len()
                ==> spec_subset(#[trigger] self.spec_sections()[l].spec_key(m), target)
    }

    /// Every stored word carries exactly the counts of the signature it is
    /// filed under.
    pub open spec fn entries_match(&self) -> bool {
        forall|l: int, m: int, w: int|
            0 <= l < self.spec_sections().len() && 0 <= m < self.spec_sections()[l].spec_len() && 0
                <= w < self.spec_sections()[l].spec_words(m).len() ==> word_matches(
                self.spec_sections()[l].spec_key(m),
                (#[trigger] self.spec_sections()[l].spec_words(m)[w])@,
            )
    }

    /// An index with no words at all.
    pub open spec fn is_empty_index(&self) -> bool {
        &&& self.spec_words_number() == 0
        &&& self.spec_reduced() == 0
        &&& forall|l: int|
            0 <= l < self.spec_sections().len() ==> (#[trigger] self.spec_sections()[l]).spec_len()
                == 0
    }

    /// A fresh, empty index.
    pub fn new() -> (r: Dictionarium)
        ensures
            r.inv(),
            r.is_empty_index(),
            r.entries_match(),
    {
        Dictionarium::default()
    }

    /// Reads the raw word list into the index.
    ///
    /// Every line is normalized; empty results are skipped; a word longer
    /// than the longest supported length, or one that normalization cannot
    /// bring down to lowercase letters, stops the load with an error, as does
    /// a target in the same state. Words whose signature is not a subset of
    /// the target's are discarded silently. Returns how many words were read.
    #[verifier::rlimit(100)]
    pub fn read_word_list(&mut self, lines: &Vec<String>, target_text: &str) -> (r: Result<
        u64,
        String,
    >)
        requires
            old(self).inv(),
            old(self).is_empty_index(),
            lines@.len() < u64::MAX,
        ensures
            final(self).inv(),
            final(self).entries_match(),
            r is Ok <==> (target_ok(target_text@) && forall|t: int|
                0 <= t < lines@.len() ==> line_ok(#[trigger] lines@[t]@)),
            r is Ok ==> {
                &&& r->Ok_0 == final(self).spec_words_number()
                &&& final(self).spec_words_number() == nonempty_norm_count(
                    lines@,
                    lines@.len() as int,
                )
                &&& final(self).filtered_by(counts_of(norm_of(target_text@)))
                &&& final(self).spec_reduced() == retained_count(
                    lines@,
                    counts_of(norm_of(target_text@)),
                    lines@.len() as int,
                )
                &&& forall|i: int|
                    0 <= i < lines@.len() && line_retained(
                        (#[trigger] lines@[i])@,
                        counts_of(norm_of(target_text@)),
                    ) ==> final(self).stores(lines@[i])
                &&& forall|l: int|
                    0 <= l < final(self).spec_sections().len()
                        && (#[trigger] final(self).spec_sections()[l]).spec_len() > 0 ==> l
                        <= final(self).spec_longest()
            },
    {
        let normalized_target = normalize_string(target_text);
        if !crate::text::check_all_az(normalized_target.as_str()) {
            return Err(String::from_str(
                "The target text does not normalize to plain lowercase letters",
            ));
        }
        if !crate::signature::counts_fit(normalized_target.as_str()) {
            return Err(String::from_str("The target text repeats a letter too many times"));
        }
        let target_signature = Signature::new(normalized_target.as_str());
        proof {
            assert(target_signature@ =~= counts_of(norm_of(target_text@)));
        }

        let n = lines.len();
        let mut i: usize = 0;
        while i < n
            invariant
                n == lines@.len(),
                n < u64::MAX,
                i <= n,
                self.inv(),
                self.entries_match(),
                self.filtered_by(counts_of(norm_of(target_text@))),
                target_signature@ == counts_of(norm_of(target_text@)),
                self.spec_words_number() == nonempty_norm_count(lines@, i as int),
                self.spec_words_number() <= i,
                self.spec_reduced() <= self.spec_words_number(),
                self.spec_reduced() == retained_count(
                    lines@,
                    counts_of(norm_of(target_text@)),
                    i as int,
                ),
                forall|i0: int|
                    0 <= i0 < i && line_retained(
                        (#[trigger] lines@[i0])@,
                        counts_of(norm_of(target_text@)),
                    ) ==> self.stores(lines@[i0]),
                forall|l: int|
                    0 <= l < self.spec_sections().len() && (
                    #[trigger] self.spec_sections()[l]).spec_len() > 0 ==> l <= self.spec_longest(),
                forall|t: int| 0 <= t < i ==> line_ok(#[trigger] lines@[t]@),
            decreases n - i,
        {
            let ghost self0 = *self;
            let line = &lines[i];
            let normalized_word = normalize_string(line.as_str());
            let word_length = normalized_word.as_str().unicode_len();
            if word_length > 0 {
                if word_length > MAX_WORD_LENGTH {
                    return Err(String::from_str(
                        "A word in the dictionary is too long, maximum length: 45",
                    ));
                }
                if !crate::text::check_all_az(normalized_word.as_str()) {
                    return Err(String::from_str(
                        "A word in the dictionary does not normalize to plain lowercase letters",
                    ));
                }
                proof {
                    assert(fits_counts(normalized_word@)) by {
                        assert forall|j: int| 0 <= j < 26 implies count_letter(normalized_word@, j)
                            <= 255 by {
                            crate::signature::lemma_count_letter_le_len(normalized_word@, j);
                        }
                    }
                }
                let ws = Signature::new(normalized_word.as_str());
                proof {
                    assert(ws@ =~= counts_of(normalized_word@));
                    lemma_sum_counts_len(normalized_word@);
                }
                self.words_number = self.words_number + 1;
                let subset = ws.is_subset_of(&target_signature);
                proof {
                    assert(line_retained(lines@[i as int]@, counts_of(norm_of(target_text@)))
                        == subset);
                }
                if subset {
                    let ghost before = *self;
                    self.reduced_words_number = self.reduced_words_number + 1;
                    if word_length > self.longest_word_length {
                        self.longest_word_length = word_length;
                    }
                    proof {
                        assert(self.spec_sections() == before.spec_sections());
                    }
                    self.sections[word_length].push_word(&ws, line.clone());
                    proof {
                        assert(forall|l: int|
                            0 <= l < self.spec_sections().len() && l != word_length
                                ==> self.spec_sections()[l] == before.spec_sections()[l]);
                        assert(self.stores(lines@[i as int])) by {
                            let sec = self.spec_sections()[word_length as int];
                            let (m, w) = choose|m: int, w: int|
                                0 <= m < sec.spec_len() && sec.spec_key(m) == ws@ && 0 <= w
                                    < sec.spec_words(m).len() && (#[trigger] sec.spec_words(m)[w])
                                    == lines@[i as int];
                            assert(sec.spec_key(m) == counts_of(norm_of(lines@[i as int]@)));
                        }
                        assert forall|i0: int|
                            0 <= i0 < i + 1 && line_retained(
                                (#[trigger] lines@[i0])@,
                                counts_of(norm_of(target_text@)),
                            ) implies self.stores(lines@[i0]) by {
                            if i0 < i {
                                assert(before.stores(lines@[i0]));
                                let nw = norm_of(lines@[i0]@);
                                let (m, wi) = choose|m: int, wi: int|
                                    {
                                        &&& 0 <= m < before.spec_sections()[nw.len() as int].spec_len()
                                        &&& before.spec_sections()[nw.len() as int].spec_key(m)
                                            == counts_of(nw)
                                        &&& 0 <= wi < before.spec_sections()[nw.len() as int].spec_words(
                                            m,
                                        ).len()
                                        &&& (#[trigger] before.spec_sections()[nw.len() as int].spec_words(
                                            m,
                                        )[wi]) == lines@[i0]
                                    };
                                if nw.len() == word_length {
                                    assert(self.spec_sections()[nw.len() as int].spec_key(m)
                                        == before.spec_sections()[nw.len() as int].spec_key(m));
                                    assert(self.spec_sections()[nw.len() as int].spec_words(m)[wi]
                                        == before.spec_sections()[nw.len() as int].spec_words(
                                        m,
                                    )[wi]);
                                } else {
                                    assert(self.spec_sections()[nw.len() as int]
                                        == before.spec_sections()[nw.len() as int]);
                                }
                            }
                        }
                        assert forall|l: int|
                            0 <= l < self.spec_sections().len() && (
                            #[trigger] self.spec_sections()[l]).spec_len() > 0 implies l
                            <= self.spec_longest() by {
                            if l != word_length {
                                assert(self.spec_sections()[l] == before.spec_sections()[l]);
                                assert(before.spec_sections()[l].spec_len() > 0);
                            }
                        }
                    }
                } else {
                    proof {
                        assert(self.spec_sections() == self0.spec_sections());
                        assert forall|i0: int|
                            0 <= i0 < i + 1 && line_retained(
                                (#[trigger] lines@[i0])@,
                                counts_of(norm_of(target_text@)),
                            ) implies self.stores(lines@[i0]) by {
                            assert(i0 < i);
                            assert(self0.stores(lines@[i0]));
                        }
                    }
                }
            } else {
                    proof {
                        assert(self.spec_sections() == self0.spec_sections());
                        assert forall|i0: int|
                            0 <= i0 < i + 1 && line_retained(
                                (#[trigger] lines@[i0])@,
                                counts_of(norm_of(target_text@)),
                            ) implies self.stores(lines@[i0]) by {
                            assert(i0 < i);
                            assert(self0.stores(lines@[i0]));
                        }
                    }
            }
            proof {
                assert(nonempty_norm_count(lines@, i as int + 1) == nonempty_norm_count(
                    lines@,
                    i as int,
                ) + if norm_of(lines@[i as int]@).len() > 0 {
                    1int
                } else {
                    0int
                });
                assert(retained_count(lines@, counts_of(norm_of(target_text@)), i as int + 1)
                    == retained_count(lines@, counts_of(norm_of(target_text@)), i as int)
                    + if line_retained(lines@[i as int]@, counts_of(norm_of(target_text@))) {
                    1int
                } else {
                    0int
                });
            }
            i = i + 1;
        }
        Ok(self.words_number)
    }

    /// How many words survived the target filter.
    pub fn get_reduced_words_number(&self) -> (r: u64)
        ensures
            r == self.spec_reduced(),
    {
        self.reduced_words_number
    }

    /// The bucket of all words of length `section_number`.
    pub fn get_section(&self, section_number: usize) -> (r: &Section)
        requires
            self.inv(),
            section_number <= MAX_WORD_LENGTH,
        ensures
            *r == self.spec_sections()[section_number as int],
    {
        &self.sections[section_number]
    }

    /// The words filed under the signature `ws`, which must be present in its
    /// length's bucket.
    pub fn get_words(&self, ws: &Signature) -> (r: &Vec<String>)
        requires
            self.inv(),
            0 <= sum_counts(ws@) <= MAX_WORD_LENGTH,
            self.spec_sections()[sum_counts(ws@)].has_key(ws@),
        ensures
            exists|m: int|
                0 <= m < self.spec_sections()[sum_counts(ws@)].spec_len()
                    && self.spec_sections()[sum_counts(ws@)].spec_key(m) == ws@ && r@ == (
                #[trigger] self.spec_sections()[sum_counts(ws@)].spec_words(m)),
    {
        let characters_number = ws.get_char_number();
        let section = &self.sections[characters_number];
        let found = section.find(ws);
        match found {
            Some(m) => section.words_at(m),
            None => {
                proof {
                    assert(false);
                }
                // unreachable: the signature is present by precondition
                section.words_at(0)
            },
        }
    }

    /// The word lengths within `[min, max]` whose buckets still hold words
    /// after filtering, in ascending order.
    pub fn get_available_lengths(&self, min: usize, max: usize) -> (r: Vec<usize>)
        requires
            self.inv(),
        ensures
            crate::combinations::strictly_increasing(r@),
            forall|t: int|
                0 <= t < r@.len() ==> {
                    &&& min <= #[trigger] r@[t] <= max
                    &&& r@[t] <= MAX_WORD_LENGTH
                    &&& self.spec_sections()[r@[t] as int].spec_len() > 0
                },
            forall|l: int|
                min <= l <= max && l <= MAX_WORD_LENGTH && self.spec_sections()[l].spec_len() > 0
                    ==> r@.contains(l as usize),
    {
        let mut r: Vec<usize> = Vec::new();
        let upper = if max > MAX_WORD_LENGTH {
            MAX_WORD_LENGTH
        } else {
            max
        };
        if min > upper {
            return r;
        }
        let mut l: usize = min;
        while l <= upper
            invariant
                upper <= MAX_WORD_LENGTH,
                upper <= max,
                max > MAX_WORD_LENGTH ==> upper == MAX_WORD_LENGTH,
                min <= l <= upper + 1,
                self.inv(),
                crate::combinations::strictly_increasing(r@),
                forall|t: int|
                    0 <= t < r@.len() ==> {
                        &&& min <= #[trigger] r@[t] <= max
                        &&& r@[t] < l
                        &&& r@[t] <= MAX_WORD_LENGTH
                        &&& self.spec_sections()[r@[t] as int].spec_len() > 0
                    },
                forall|k: int|
                    min <= k < l && k <= MAX_WORD_LENGTH && self.spec_sections()[k].spec_len() > 0
                        ==> r@.contains(k as usize),
            decreases upper + 1 - l,
        {
            if self.sections[l].entry_count() > 0 {
                let ghost old_r = r@;
                r.push(l);
                proof {
                    assert(forall|k: int|
                        min <= k < l + 1 && k <= MAX_WORD_LENGTH
                            && self.spec_sections()[k].spec_len() > 0 ==> r@.contains(k as usize))
                        by {
                        assert(r@[r@.len() - 1] == l as usize);
                        assert(forall|k: int|
                            min <= k < l && k <= MAX_WORD_LENGTH && self.spec_sections()[k].spec_len()
                                > 0 ==> old_r.contains(k as usize));
                        assert(forall|t: int| 0 <= t < old_r.len() ==> r@[t] == old_r[t]);
                        assert(forall|x: usize| old_r.contains(x) ==> r@.contains(x));
                    }
                }
            }
            l = l + 1;
        }
        r
    }
}

impl Default for Dictionarium {
    /// An empty index with every length bucket in place.
    fn default() -> (r: Dictionarium)
        ensures
            r.inv(),
            r.is_empty_index(),
            r.entries_match(),
    {
        let mut sections: Vec<Section> = Vec::new();
        let mut l: usize = 0;
        while l < MAX_WORD_LENGTH + 1
            invariant
                l <= MAX_WORD_LENGTH + 1,
                sections@.len() == l,
                forall|t: int|
                    0 <= t < l ==> (#[trigger] sections@[t]).inv() && sections@[t].spec_len() == 0,
            decreases MAX_WORD_LENGTH + 1 - l,
        {
            sections.push(Section::new());
            l = l + 1;
        }
        Dictionarium {
            words_number: 0,
            reduced_words_number: 0,
            longest_word_length: 0,
            sections,
        }
    }
}

} // verus!
