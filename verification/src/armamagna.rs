//! The orchestrator: holds the configuration, validates it, derives the
//! actual target (target minus included text), builds the word index,
//! enumerates the jobs and runs the search over them.

pub use crate::text::count_words;

use crate::combinations::{non_decreasing, seq_sum, RepeatedCombinationsWithSum};
use crate::dictionarium::{line_ok, line_retained, nonempty_norm_count, retained_count, target_ok, Dictionarium, MAX_WORD_LENGTH};
use crate::search::{contains_view, is_anagram_line, SearchThread};
use crate::signature::{counts_of, sig_sub, spec_subset, sum_counts, Signature};
use crate::text::{norm_of, word_count};
use vstd::prelude::*;

verus! {

broadcast use crate::signature::lemma_signature_len;

/// How many words the included text counts for: none when it is empty.
pub open spec fn included_words_of(s: Seq<char>) -> int {
    if s.len() == 0 {
        0
    } else {
        word_count(s)
    }
}

/// One line the engine owes or may emit: a well-formed anagram line of the
/// actual target for one job the configuration admits, word-length bounds
/// included.
pub open spec fn engine_line(am: ArmaMagna, lengths: Seq<usize>, line: Seq<char>) -> bool {
    &&& am.job_ok(lengths)
    &&& is_anagram_line(
        &am.spec_dictionary(),
        am.spec_actual_signature(),
        am.spec_included_text(),
        lengths,
        line,
    )
}

/// Every line of `out` is a well-formed anagram line of the engine's actual
/// target, for some admitted job.
pub open spec fn lines_valid(am: ArmaMagna, out: Seq<String>) -> bool {
    forall|t: int|
        0 <= t < out.len() ==> exists|lengths: Seq<usize>|
            {
                &&& am.job_ok(lengths)
                &&& is_anagram_line(
                    &am.spec_dictionary(),
                    am.spec_actual_signature(),
                    am.spec_included_text(),
                    lengths,
                    (#[trigger] out[t])@,
                )
            }
}

/// Every line some admitted job owes is in `out`: nothing the configuration
/// asks for is missing.
pub open spec fn lines_complete(am: ArmaMagna, out: Seq<String>) -> bool {
    forall|lengths: Seq<usize>, line: Seq<char>|
        #[trigger] engine_line(am, lengths, line) ==> contains_view(out, line)
}

/// Every line owed by one of the first `k` jobs is in `out`.
pub open spec fn lines_complete_upto(
    am: ArmaMagna,
    jobs: Seq<Vec<usize>>,
    k: int,
    out: Seq<String>,
) -> bool {
    forall|lengths: Seq<usize>, line: Seq<char>|
        (#[trigger] engine_line(am, lengths, line) && (exists|m: int|
            0 <= m < k && (#[trigger] jobs[m])@ == lengths)) ==> contains_view(out, line)
}

/// The multi-threaded anagrammer engine: configuration, derived signatures,
/// and the search pipeline over the word index.
pub struct ArmaMagna {
    target_text: String,
    included_text: String,
    dictionary_name: String,
    output_file_name: String,
    min_cardinality: u64,
    max_cardinality: u64,
    min_wordlength: u64,
    max_wordlength: u64,
    dictionary: Dictionarium,
    target_signature: Signature,
    included_text_signature: Signature,
    actual_target_signature: Signature,
    included_words_number: u64,
    actual_min_cardinality: u64,
    actual_max_cardinality: u64,
    num_threads: u64,
}

/// Relies on `num_cpus::get`: the number of available logical processors; its
/// documentation promises at least one.
#[verifier::external_body]
fn cpu_count() -> (r: u64)
    ensures
        r >= 1,
{
    num_cpus::get() as u64
}

impl ArmaMagna {
    /// The raw target phrase.
    pub closed spec fn spec_target_text(&self) -> Seq<char> {
        self.target_text@
    }

    /// The raw included text.
    pub closed spec fn spec_included_text(&self) -> Seq<char> {
        self.included_text@
    }

    /// The dictionary file name the caller will read from.
    pub closed spec fn spec_dictionary_name(&self) -> Seq<char> {
        self.dictionary_name@
    }

    /// The output file name the caller will write to.
    pub closed spec fn spec_output_file_name(&self) -> Seq<char> {
        self.output_file_name@
    }

    /// The smallest number of words an anagram may have.
    pub closed spec fn spec_min_cardinality(&self) -> u64 {
        self.min_cardinality
    }

    /// The largest number of words an anagram may have.
    pub closed spec fn spec_max_cardinality(&self) -> u64 {
        self.max_cardinality
    }

    /// The smallest word length the search may use.
    pub closed spec fn spec_min_wordlength(&self) -> u64 {
        self.min_wordlength
    }

    /// The largest word length the search may use.
    pub closed spec fn spec_max_wordlength(&self) -> u64 {
        self.max_wordlength
    }

    /// The word index.
    pub closed spec fn spec_dictionary(&self) -> Dictionarium {
        self.dictionary
    }

    /// The counts of the whole target phrase.
    pub closed spec fn spec_target_signature(&self) -> Seq<u8> {
        self.target_signature@
    }

    /// The counts of the included text.
    pub closed spec fn spec_included_signature(&self) -> Seq<u8> {
        self.included_text_signature@
    }

    /// The counts still to cover by freely chosen words.
    pub closed spec fn spec_actual_signature(&self) -> Seq<u8> {
        self.actual_target_signature@
    }

    /// How many words the included text already supplies.
    pub closed spec fn spec_included_words(&self) -> u64 {
        self.included_words_number
    }

    /// The cardinality bounds left for freely chosen words.
    pub closed spec fn spec_actual_min(&self) -> u64 {
        self.actual_min_cardinality
    }

    /// The cardinality bounds left for freely chosen words.
    pub closed spec fn spec_actual_max(&self) -> u64 {
        self.actual_max_cardinality
    }

    /// The requested thread count.
    pub closed spec fn spec_num_threads(&self) -> u64 {
        self.num_threads
    }

    /// A fresh engine: empty texts, cardinality one to three, word lengths
    /// one to thirty, as many threads as the machine has processors.
    pub fn new() -> (r: ArmaMagna)
        ensures
            r.spec_target_text().len() == 0,
            r.spec_included_text().len() == 0,
            r.spec_dictionary_name().len() == 0,
            r.spec_output_file_name().len() == 0,
            r.spec_min_cardinality() == 1,
            r.spec_max_cardinality() == 3,
            r.spec_min_wordlength() == 1,
            r.spec_max_wordlength() == 30,
            r.spec_dictionary().inv(),
            r.spec_dictionary().is_empty_index(),
            forall|j: int| 0 <= j < 26 ==> r.spec_target_signature()[j] == 0,
            forall|j: int| 0 <= j < 26 ==> r.spec_included_signature()[j] == 0,
            forall|j: int| 0 <= j < 26 ==> r.spec_actual_signature()[j] == 0,
            r.spec_included_words() == 0,
            r.spec_actual_min() == 0,
            r.spec_actual_max() == 0,
            r.spec_num_threads() >= 1,
    {
        ArmaMagna {
            target_text: String::new(),
            included_text: String::new(),
            dictionary_name: String::new(),
            output_file_name: String::new(),
            min_cardinality: 1,
            max_cardinality: 3,
            min_wordlength: 1,
            max_wordlength: 30,
            dictionary: Dictionarium::new(),
            target_signature: Signature::new_empty(),
            included_text_signature: Signature::new_empty(),
            actual_target_signature: Signature::new_empty(),
            included_words_number: 0,
            actual_min_cardinality: 0,
            actual_max_cardinality: 0,
            num_threads: cpu_count(),
        }
    }

    /// Sets the text to anagram and computes its signature. Fails when the
    /// normalized text is not plain lowercase letters, or repeats a letter
    /// too often for a count slot.
    pub fn set_target_text(&mut self, text: &str) -> (r: Result<(), String>)
        ensures
            r is Ok <==> target_ok(text@),
            final(self).spec_target_text() == text@,
            r is Ok ==> final(self).spec_target_signature() == counts_of(norm_of(text@)),
            r is Err ==> final(self).spec_target_signature() == old(self).spec_target_signature(),
            final(self).spec_included_text() == old(self).spec_included_text(),
            final(self).spec_included_signature() == old(self).spec_included_signature(),
            final(self).spec_actual_signature() == old(self).spec_actual_signature(),
            final(self).spec_min_cardinality() == old(self).spec_min_cardinality(),
            final(self).spec_max_cardinality() == old(self).spec_max_cardinality(),
            final(self).spec_min_wordlength() == old(self).spec_min_wordlength(),
            final(self).spec_max_wordlength() == old(self).spec_max_wordlength(),
            final(self).spec_included_words() == old(self).spec_included_words(),
            final(self).spec_actual_min() == old(self).spec_actual_min(),
            final(self).spec_actual_max() == old(self).spec_actual_max(),
            final(self).spec_num_threads() == old(self).spec_num_threads(),
            final(self).spec_dictionary() == old(self).spec_dictionary(),
            final(self).spec_dictionary_name() == old(self).spec_dictionary_name(),
            final(self).spec_output_file_name() == old(self).spec_output_file_name(),
    {
        self.target_text = String::from_str(text);
        let processed = crate::text::normalize_string(text);
        if !crate::text::check_all_az(processed.as_str()) {
            return Err(String::from_str(
                "The target text does not normalize to plain lowercase letters",
            ));
        }
        if !crate::signature::counts_fit(processed.as_str()) {
            return Err(String::from_str("The target text repeats a letter too many times"));
        }
        self.target_signature = Signature::new(processed.as_str());
        proof {
            assert(self.target_signature@ =~= counts_of(norm_of(text@)));
        }
        Ok(())
    }

    /// Sets the file name to read words from.
    pub fn set_dictionary_name(&mut self, dictionary: &str)
        ensures
            final(self).spec_dictionary_name() == dictionary@,
            final(self).spec_dictionary() == old(self).spec_dictionary(),
            final(self).spec_target_text() == old(self).spec_target_text(),
            final(self).spec_included_text() == old(self).spec_included_text(),
            final(self).spec_output_file_name() == old(self).spec_output_file_name(),
            final(self).spec_min_cardinality() == old(self).spec_min_cardinality(),
            final(self).spec_max_cardinality() == old(self).spec_max_cardinality(),
            final(self).spec_min_wordlength() == old(self).spec_min_wordlength(),
            final(self).spec_max_wordlength() == old(self).spec_max_wordlength(),
            final(self).spec_target_signature() == old(self).spec_target_signature(),
            final(self).spec_included_signature() == old(self).spec_included_signature(),
            final(self).spec_actual_signature() == old(self).spec_actual_signature(),
            final(self).spec_included_words() == old(self).spec_included_words(),
            final(self).spec_actual_min() == old(self).spec_actual_min(),
            final(self).spec_actual_max() == old(self).spec_actual_max(),
            final(self).spec_num_threads() == old(self).spec_num_threads(),
    {
        self.dictionary_name = String::from_str(dictionary);
    }

    /// Sets the desired number of search threads.
    pub fn set_threads_number(&mut self, n: u64)
        ensures
            final(self).spec_num_threads() == n,
            final(self).spec_dictionary() == old(self).spec_dictionary(),
            final(self).spec_target_text() == old(self).spec_target_text(),
            final(self).spec_included_text() == old(self).spec_included_text(),
            final(self).spec_dictionary_name() == old(self).spec_dictionary_name(),
            final(self).spec_output_file_name() == old(self).spec_output_file_name(),
            final(self).spec_min_cardinality() == old(self).spec_min_cardinality(),
            final(self).spec_max_cardinality() == old(self).spec_max_cardinality(),
            final(self).spec_min_wordlength() == old(self).spec_min_wordlength(),
            final(self).spec_max_wordlength() == old(self).spec_max_wordlength(),
            final(self).spec_target_signature() == old(self).spec_target_signature(),
            final(self).spec_included_signature() == old(self).spec_included_signature(),
            final(self).spec_actual_signature() == old(self).spec_actual_signature(),
            final(self).spec_included_words() == old(self).spec_included_words(),
            final(self).spec_actual_min() == old(self).spec_actual_min(),
            final(self).spec_actual_max() == old(self).spec_actual_max(),
    {
        self.num_threads = n;
    }

    /// Sets the text every anagram must contain, and derives the actual
    /// target: the target's counts minus the included text's.
    ///
    /// Fails when the included text cannot be represented as a signature, is
    /// not a subset of the target, is itself already an anagram of the whole
    /// target, or supplies more words than the cardinality bounds allow.
    pub fn set_included_text(&mut self, included: &str) -> (r: Result<(), String>)
        ensures
            r is Ok <==> {
                &&& target_ok(included@)
                &&& spec_subset(counts_of(norm_of(included@)), old(self).spec_target_signature())
                &&& counts_of(norm_of(included@)) != old(self).spec_target_signature()
                &&& included_words_of(included@) <= old(self).spec_min_cardinality()
                &&& included_words_of(included@) <= old(self).spec_max_cardinality()
            },
            final(self).spec_included_text() == included@,
            r is Ok ==> {
                &&& final(self).spec_included_signature() == counts_of(norm_of(included@))
                &&& final(self).spec_actual_signature() == sig_sub(
                    old(self).spec_target_signature(),
                    counts_of(norm_of(included@)),
                )
                &&& final(self).spec_included_words() == included_words_of(included@)
                &&& final(self).spec_actual_min() == old(self).spec_min_cardinality()
                    - included_words_of(included@)
                &&& final(self).spec_actual_max() == old(self).spec_max_cardinality()
                    - included_words_of(included@)
            },
            final(self).spec_target_text() == old(self).spec_target_text(),
            final(self).spec_target_signature() == old(self).spec_target_signature(),
            final(self).spec_min_cardinality() == old(self).spec_min_cardinality(),
            final(self).spec_max_cardinality() == old(self).spec_max_cardinality(),
            final(self).spec_min_wordlength() == old(self).spec_min_wordlength(),
            final(self).spec_max_wordlength() == old(self).spec_max_wordlength(),
            final(self).spec_num_threads() == old(self).spec_num_threads(),
            final(self).spec_dictionary() == old(self).spec_dictionary(),
            final(self).spec_dictionary_name() == old(self).spec_dictionary_name(),
            final(self).spec_output_file_name() == old(self).spec_output_file_name(),
    {
        self.included_text = String::from_str(included);

        let processed = crate::text::normalize_string(included);
        if !crate::text::check_all_az(processed.as_str()) {
            return Err(String::from_str(
                "The included text does not normalize to plain lowercase letters",
            ));
        }
        if !crate::signature::counts_fit(processed.as_str()) {
            return Err(String::from_str("The included text repeats a letter too many times"));
        }
        let included_signature = Signature::new(processed.as_str());
        proof {
            assert(included_signature@ =~= counts_of(norm_of(included@)));
        }

        let words: u64;
        if self.included_text.as_str().is_empty() {
            words = 0;
        } else {
            words = count_words(self.included_text.as_str()) as u64;
        }

        if !included_signature.is_subset_of(&self.target_signature) {
            return Err(String::from_str("The included text must be a subset of the target text"));
        }
        if self.target_signature == included_signature {
            return Err(String::from_str("The included is an anagram of the target text"));
        }
        if words > self.min_cardinality || words > self.max_cardinality {
            return Err(String::from_str(
                "The included text supplies more words than the cardinality allows",
            ));
        }

        self.included_text_signature = included_signature;
        self.included_words_number = words;

        let mut actual = self.target_signature;
        actual.sub(&self.included_text_signature);
        self.actual_target_signature = actual;

        self.actual_min_cardinality = self.min_cardinality - self.included_words_number;
        self.actual_max_cardinality = self.max_cardinality - self.included_words_number;

        Ok(())
    }

    /// Sets the cardinality and word-length bounds, and recomputes the actual
    /// cardinalities. Fails when a minimum exceeds its maximum, or when a
    /// bound does not strictly exceed the number of included words.
    pub fn set_restrictions(
        &mut self,
        mincard: u64,
        maxcard: u64,
        minwlen: u64,
        maxwlen: u64,
    ) -> (r: Result<(), String>)
        ensures
            r is Ok <==> {
                &&& mincard <= maxcard
                &&& minwlen <= maxwlen
                &&& mincard > old(self).spec_included_words()
                &&& maxcard > old(self).spec_included_words()
            },
            r is Ok ==> {
                &&& final(self).spec_min_cardinality() == mincard
                &&& final(self).spec_max_cardinality() == maxcard
                &&& final(self).spec_min_wordlength() == minwlen
                &&& final(self).spec_max_wordlength() == maxwlen
                &&& final(self).spec_actual_min() == mincard - old(self).spec_included_words()
                &&& final(self).spec_actual_max() == maxcard - old(self).spec_included_words()
                &&& final(self).spec_actual_min() >= 1
                &&& final(self).spec_actual_max() >= 1
            },
            r is Err ==> *final(self) == *old(self),
            final(self).spec_included_words() == old(self).spec_included_words(),
            final(self).spec_target_text() == old(self).spec_target_text(),
            final(self).spec_included_text() == old(self).spec_included_text(),
            final(self).spec_target_signature() == old(self).spec_target_signature(),
            final(self).spec_included_signature() == old(self).spec_included_signature(),
            final(self).spec_actual_signature() == old(self).spec_actual_signature(),
            final(self).spec_num_threads() == old(self).spec_num_threads(),
            final(self).spec_dictionary() == old(self).spec_dictionary(),
            final(self).spec_dictionary_name() == old(self).spec_dictionary_name(),
            final(self).spec_output_file_name() == old(self).spec_output_file_name(),
    {
        if mincard > maxcard || minwlen > maxwlen {
            return Err(String::from_str(
                "Maximum cardinality/word length must be greater or equal than minimum cardinality/word length",
            ));
        }
        if mincard <= self.included_words_number {
            return Err(String::from_str(
                "Minimum cardinality must be >= than the number of included words",
            ));
        }
        if maxcard <= self.included_words_number {
            return Err(String::from_str(
                "Maximum cardinality must be >= than the number of included words",
            ));
        }

        self.min_cardinality = mincard;
        self.max_cardinality = maxcard;
        self.min_wordlength = minwlen;
        self.max_wordlength = maxwlen;

        self.actual_min_cardinality = mincard - self.included_words_number;
        self.actual_max_cardinality = maxcard - self.included_words_number;

        Ok(())
    }

    /// Sets every search option at once: target, included text, bounds,
    /// dictionary and output names, and thread count. Stops at the first
    /// option the configuration rules reject.
    pub fn set_options(
        &mut self,
        text: &str,
        dictionary: &str,
        output_file_name: &str,
        included: &str,
        mincard: u64,
        maxcard: u64,
        minwlen: u64,
        maxwlen: u64,
        num_threads: u64,
    ) -> (r: Result<(), String>)
        ensures
            r is Ok <==> {
                &&& target_ok(text@)
                &&& target_ok(included@)
                &&& spec_subset(counts_of(norm_of(included@)), counts_of(norm_of(text@)))
                &&& counts_of(norm_of(included@)) != counts_of(norm_of(text@))
                &&& included_words_of(included@) <= old(self).spec_min_cardinality()
                &&& included_words_of(included@) <= old(self).spec_max_cardinality()
                &&& mincard <= maxcard
                &&& minwlen <= maxwlen
                &&& mincard > included_words_of(included@)
                &&& maxcard > included_words_of(included@)
            },
            r is Ok ==> {
                &&& final(self).spec_target_text() == text@
                &&& final(self).spec_included_text() == included@
                &&& final(self).spec_dictionary_name() == dictionary@
                &&& final(self).spec_output_file_name() == output_file_name@
                &&& final(self).spec_target_signature() == counts_of(norm_of(text@))
                &&& final(self).spec_included_signature() == counts_of(norm_of(included@))
                &&& final(self).spec_actual_signature() == sig_sub(
                    counts_of(norm_of(text@)),
                    counts_of(norm_of(included@)),
                )
                &&& final(self).spec_included_words() == included_words_of(included@)
                &&& final(self).spec_min_cardinality() == mincard
                &&& final(self).spec_max_cardinality() == maxcard
                &&& final(self).spec_min_wordlength() == minwlen
                &&& final(self).spec_max_wordlength() == maxwlen
                &&& final(self).spec_actual_min() == mincard - included_words_of(included@)
                &&& final(self).spec_actual_max() == maxcard - included_words_of(included@)
                &&& final(self).spec_num_threads() == num_threads
            },
            final(self).spec_dictionary() == old(self).spec_dictionary(),
    {
        let set_target = self.set_target_text(text);
        if set_target.is_err() {
            return set_target;
        }
        let set_included = self.set_included_text(included);
        if set_included.is_err() {
            return set_included;
        }
        let set_bounds = self.set_restrictions(mincard, maxcard, minwlen, maxwlen);
        if set_bounds.is_err() {
            return set_bounds;
        }
        self.set_dictionary_name(dictionary);
        self.set_threads_number(num_threads);
        self.output_file_name = String::from_str(output_file_name);
        Ok(())
    }

    /// How many worker threads the pipeline runs: the requested count less
    /// the two reserved for orchestration and output, never below one.
    pub fn get_workers_number(&self) -> (r: u64)
        ensures
            r == if self.spec_num_threads() >= 3 {
                self.spec_num_threads() - 2
            } else {
                1int
            },
            r >= 1,
    {
        if self.num_threads >= 3 {
            self.num_threads - 2
        } else {
            1
        }
    }

    /// The word index, shared read-only by the search jobs.
    pub fn dictionary(&self) -> (r: &Dictionarium)
        ensures
            *r == self.spec_dictionary(),
    {
        &self.dictionary
    }

    /// The counts the freely chosen words of every anagram must sum to.
    pub fn actual_signature(&self) -> (r: Signature)
        ensures
            r@ == self.spec_actual_signature(),
    {
        self.actual_target_signature
    }

    /// The text every anagram carries as one unsplit token, possibly empty.
    pub fn included_text(&self) -> (r: &String)
        ensures
            r@ == self.spec_included_text(),
    {
        &self.included_text
    }

    /// The dictionary file name the caller reads words from.
    pub fn dictionary_name(&self) -> (r: &String)
        ensures
            r@ == self.spec_dictionary_name(),
    {
        &self.dictionary_name
    }

    /// The output file name the caller writes anagrams to.
    pub fn output_file_name(&self) -> (r: &String)
        ensures
            r@ == self.spec_output_file_name(),
    {
        &self.output_file_name
    }

    /// Builds the word index from the raw dictionary lines, filtered by the
    /// target phrase.
    pub fn load_dictionary(&mut self, lines: &Vec<String>) -> (r: Result<u64, String>)
        requires
            old(self).spec_dictionary().inv(),
            old(self).spec_dictionary().is_empty_index(),
            lines@.len() < u64::MAX,
        ensures
            final(self).spec_dictionary().inv(),
            final(self).spec_dictionary().entries_match(),
            r is Ok <==> (target_ok(old(self).spec_target_text()) && forall|t: int|
                0 <= t < lines@.len() ==> line_ok(#[trigger] lines@[t]@)),
            r is Ok ==> {
                &&& r->Ok_0 == nonempty_norm_count(lines@, lines@.len() as int)
                &&& final(self).spec_dictionary().filtered_by(
                    counts_of(norm_of(old(self).spec_target_text())),
                )
                &&& final(self).spec_dictionary().spec_reduced() == retained_count(
                    lines@,
                    counts_of(norm_of(old(self).spec_target_text())),
                    lines@.len() as int,
                )
                &&& forall|i: int|
                    0 <= i < lines@.len() && line_retained(
                        (#[trigger] lines@[i])@,
                        counts_of(norm_of(old(self).spec_target_text())),
                    ) ==> final(self).spec_dictionary().stores(lines@[i])
                &&& forall|l: int|
                    0 <= l < final(self).spec_dictionary().spec_sections().len()
                        && (#[trigger] final(self).spec_dictionary().spec_sections()[l]).spec_len()
                        > 0 ==> l <= final(self).spec_dictionary().spec_longest()
            },
            final(self).spec_target_text() == old(self).spec_target_text(),
            final(self).spec_included_text() == old(self).spec_included_text(),
            final(self).spec_dictionary_name() == old(self).spec_dictionary_name(),
            final(self).spec_output_file_name() == old(self).spec_output_file_name(),
            final(self).spec_min_cardinality() == old(self).spec_min_cardinality(),
            final(self).spec_max_cardinality() == old(self).spec_max_cardinality(),
            final(self).spec_min_wordlength() == old(self).spec_min_wordlength(),
            final(self).spec_max_wordlength() == old(self).spec_max_wordlength(),
            final(self).spec_target_signature() == old(self).spec_target_signature(),
            final(self).spec_included_signature() == old(self).spec_included_signature(),
            final(self).spec_actual_signature() == old(self).spec_actual_signature(),
            final(self).spec_included_words() == old(self).spec_included_words(),
            final(self).spec_actual_min() == old(self).spec_actual_min(),
            final(self).spec_actual_max() == old(self).spec_actual_max(),
            final(self).spec_num_threads() == old(self).spec_num_threads(),
    {
        let target = self.target_text.clone();
        self.dictionary.read_word_list(lines, target.as_str())
    }

    /// One job the engine must cover: a non-decreasing sequence of lengths
    /// the index has words for, within the word-length bounds, of a size
    /// within the actual cardinality range, summing to the actual target's
    /// letter count, which is positive.
    pub open spec fn job_ok(&self, s: Seq<usize>) -> bool {
        &&& sum_counts(self.spec_actual_signature()) >= 1
        &&& seq_sum(s) == sum_counts(self.spec_actual_signature())
        &&& self.spec_actual_min() <= s.len() <= self.spec_actual_max()
        &&& non_decreasing(s)
        &&& forall|t: int|
            0 <= t < s.len() ==> {
                &&& #[trigger] s[t] <= MAX_WORD_LENGTH
                &&& self.spec_min_wordlength() <= s[t] as u64 <= self.spec_max_wordlength()
                &&& self.spec_dictionary().spec_sections()[s[t] as int].spec_len() > 0
            }
    }

    /// Enumerates the jobs: every non-decreasing sequence of available word
    /// lengths whose size fits the actual cardinality range and whose lengths
    /// sum to the actual target's letter count. Every such sequence appears,
    /// and no two jobs are equal.
    pub fn generate_jobs(&self) -> (r: Vec<Vec<usize>>)
        requires
            self.spec_dictionary().inv(),
        ensures
            forall|m: int|
                0 <= m < r@.len() ==> {
                    &&& seq_sum((#[trigger] r@[m])@) == sum_counts(self.spec_actual_signature())
                    &&& self.spec_actual_min() <= r@[m]@.len() <= self.spec_actual_max()
                    &&& non_decreasing(r@[m]@)
                    &&& forall|t: int|
                        0 <= t < r@[m]@.len() ==> {
                            &&& #[trigger] r@[m]@[t] <= MAX_WORD_LENGTH
                            &&& self.spec_min_wordlength() <= r@[m]@[t] as u64
                                <= self.spec_max_wordlength()
                            &&& self.spec_dictionary().spec_sections()[r@[m]@[t] as int].spec_len()
                                > 0
                        }
                },
            forall|m1: int, m2: int| 0 <= m1 < m2 < r@.len() ==> r@[m1]@ != r@[m2]@,
            forall|m: int| 0 <= m < r@.len() ==> self.job_ok((#[trigger] r@[m])@),
            forall|s: Seq<usize>|
                #[trigger] self.job_ok(s) ==> exists|m: int| 0 <= m < r@.len() && r@[m]@ == s,
    {
        let ghost actual = self.spec_actual_signature();
        let ghost dict = self.spec_dictionary();
        let sum = self.actual_target_signature.get_char_number();
        let no_jobs: Vec<Vec<usize>> = Vec::new();
        proof {
            assert(self.actual_target_signature@.len() == 26);
            crate::signature::lemma_sum_counts_bound(actual);
            assert(sum <= 26 * 255);
            // every job's lengths come from non-empty buckets, so none is
            // zero and a job is never longer than its sum of lengths
            assert forall|s: Seq<usize>| #[trigger] self.job_ok(s) implies seq_sum(s) >= s.len()
                && s.len() >= 1 by {
                assert forall|t: int| 0 <= t < s.len() implies s[t] >= 1 by {
                    assert(dict.spec_sections()[s[t] as int].spec_len() > 0);
                    assert(dict.spec_sections()[0].spec_len() == 0);
                }
                crate::combinations::lemma_seq_sum_ge_len(s);
                if s.len() == 0 {
                    assert(seq_sum(s) == 0);
                }
            }
        }
        if sum == 0 {
            return no_jobs;
        }
        if self.min_wordlength > MAX_WORD_LENGTH as u64 {
            proof {
                assert forall|s: Seq<usize>| #[trigger] self.job_ok(s) implies false by {
                    assert(s[0] as u64 >= self.spec_min_wordlength());
                    assert(s[0] <= MAX_WORD_LENGTH);
                }
            }
            return no_jobs;
        }
        let minw = self.min_wordlength as usize;
        let maxw = if self.max_wordlength > MAX_WORD_LENGTH as u64 {
            MAX_WORD_LENGTH
        } else {
            self.max_wordlength as usize
        };
        let available_lengths = self.dictionary.get_available_lengths(minw, maxw);
        if available_lengths.len() == 0 {
            proof {
                assert forall|s: Seq<usize>| #[trigger] self.job_ok(s) implies false by {
                    assert(minw <= s[0] <= maxw);
                    assert(dict.spec_sections()[s[0] as int].spec_len() > 0);
                }
            }
            return no_jobs;
        }
        if self.actual_min_cardinality > sum as u64 {
            proof {
                assert forall|s: Seq<usize>| #[trigger] self.job_ok(s) implies false by {
                    assert(s.len() >= self.spec_actual_min());
                }
            }
            return no_jobs;
        }
        let min_k: usize = if self.actual_min_cardinality >= 1 {
            self.actual_min_cardinality as usize
        } else {
            1
        };
        let max_k: usize = if self.actual_max_cardinality > sum as u64 {
            sum
        } else {
            self.actual_max_cardinality as usize
        };
        if min_k > max_k {
            proof {
                assert forall|s: Seq<usize>| #[trigger] self.job_ok(s) implies false by {
                    assert(s.len() >= self.spec_actual_min());
                    assert(s.len() >= 1);
                    assert(s.len() <= self.spec_actual_max());
                    assert(s.len() <= seq_sum(s));
                }
            }
            return no_jobs;
        }

        let rcs = RepeatedCombinationsWithSum::new(sum, min_k, max_k, available_lengths);
        let jobs_number = rcs.get_sets_number();
        let mut jobs: Vec<Vec<usize>> = Vec::new();
        let mut i: usize = 0;
        while i < jobs_number
            invariant
                jobs_number == rcs.spec_sets().len(),
                i <= jobs_number,
                jobs@.len() == i,
                forall|m: int| 0 <= m < i ==> (#[trigger] jobs@[m])@ == rcs.spec_sets()[m],
                rcs.spec_sum() == sum_counts(self.spec_actual_signature()),
                rcs.spec_min() == min_k,
                rcs.spec_max() == max_k,
                min_k == 1 || min_k == self.spec_actual_min(),
                self.spec_actual_min() <= min_k,
                max_k <= self.spec_actual_max(),
                max_k == self.spec_actual_max() || max_k == sum_counts(
                    self.spec_actual_signature(),
                ),
                forall|m: int|
                    0 <= m < rcs.spec_sets().len() ==> rcs.valid_set(#[trigger] rcs.spec_sets()[m]),
                forall|m1: int, m2: int|
                    0 <= m1 < m2 < rcs.spec_sets().len() ==> rcs.spec_sets()[m1]
                        != rcs.spec_sets()[m2],
                forall|s: Seq<usize>|
                    #[trigger] rcs.valid_set(s) ==> exists|m: int|
                        0 <= m < rcs.spec_sets().len() && rcs.spec_sets()[m] == s,
                forall|t: int|
                    0 <= t < rcs.spec_values().len() ==> {
                        &&& minw <= #[trigger] rcs.spec_values()[t] <= maxw
                        &&& rcs.spec_values()[t] <= MAX_WORD_LENGTH
                        &&& self.spec_dictionary().spec_sections()[rcs.spec_values()[t] as int].spec_len()
                            > 0
                    },
                forall|l: int|
                    minw <= l <= maxw && l <= MAX_WORD_LENGTH
                        && self.spec_dictionary().spec_sections()[l].spec_len() > 0
                        ==> rcs.spec_values().contains(l as usize),
                minw as u64 == self.spec_min_wordlength(),
                maxw <= MAX_WORD_LENGTH,
                self.spec_max_wordlength() > MAX_WORD_LENGTH as u64 ==> maxw == MAX_WORD_LENGTH,
                self.spec_max_wordlength() <= MAX_WORD_LENGTH as u64 ==> maxw as u64
                    == self.spec_max_wordlength(),
                forall|s: Seq<usize>| #[trigger] self.job_ok(s) ==> seq_sum(s) >= s.len(),
            decreases jobs_number - i,
        {
            let set = self.copy_lengths(rcs.get_set(i));
            jobs.push(set);
            i = i + 1;
        }
        proof {
            assert forall|m: int| 0 <= m < jobs@.len() implies {
                &&& seq_sum((#[trigger] jobs@[m])@) == sum_counts(self.spec_actual_signature())
                &&& self.spec_actual_min() <= jobs@[m]@.len() <= self.spec_actual_max()
                &&& non_decreasing(jobs@[m]@)
                &&& forall|t: int|
                    0 <= t < jobs@[m]@.len() ==> {
                        &&& #[trigger] jobs@[m]@[t] <= MAX_WORD_LENGTH
                        &&& self.spec_min_wordlength() <= jobs@[m]@[t] as u64
                            <= self.spec_max_wordlength()
                        &&& self.spec_dictionary().spec_sections()[jobs@[m]@[t] as int].spec_len()
                            > 0
                    }
            } by {
                assert(rcs.valid_set(rcs.spec_sets()[m]));
                assert forall|t: int| 0 <= t < jobs@[m]@.len() implies {
                    &&& #[trigger] jobs@[m]@[t] <= MAX_WORD_LENGTH
                    &&& self.spec_min_wordlength() <= jobs@[m]@[t] as u64
                        <= self.spec_max_wordlength()
                    &&& self.spec_dictionary().spec_sections()[jobs@[m]@[t] as int].spec_len() > 0
                } by {
                    assert(rcs.spec_values().contains(rcs.spec_sets()[m][t]));
                    let ghost the_set = rcs.spec_sets()[m];
                    let v = choose|q: int|
                        0 <= q < rcs.spec_values().len() && rcs.spec_values()[q] == the_set[t];
                    assert(rcs.spec_values()[v] == jobs@[m]@[t]);
                }
            }
            assert forall|m: int| 0 <= m < jobs@.len() implies self.job_ok((#[trigger] jobs@[m])@)
                by {
                assert(seq_sum(jobs@[m]@) == sum_counts(self.spec_actual_signature()));
            }
            assert forall|s: Seq<usize>| #[trigger] self.job_ok(s) implies exists|m: int|
                0 <= m < jobs@.len() && jobs@[m]@ == s by {
                assert(seq_sum(s) >= s.len());
                assert(s.len() >= min_k) by {
                    if s.len() == 0 {
                        assert(seq_sum(s) == 0);
                    }
                }
                assert(s.len() <= max_k);
                assert forall|t: int| 0 <= t < s.len() implies rcs.spec_values().contains(
                    #[trigger] s[t],
                ) by {
                    assert(s[t] as u64 <= self.spec_max_wordlength());
                    assert(s[t] <= MAX_WORD_LENGTH);
                    assert(minw <= s[t] <= maxw);
                    assert(dict.spec_sections()[s[t] as int].spec_len() > 0);
                    assert(rcs.spec_values().contains(s[t] as usize));
                }
                assert(rcs.valid_set(s));
                let m0 = choose|m: int|
                    0 <= m < rcs.spec_sets().len() && rcs.spec_sets()[m] == s;
                assert(jobs@[m0]@ == s);
            }
        }
        jobs
    }

    /// Copies one job's length sequence.
    fn copy_lengths(&self, set: &Vec<usize>) -> (r: Vec<usize>)
        ensures
            r@ == set@,
    {
        let mut r: Vec<usize> = Vec::new();
        let n = set.len();
        let mut t: usize = 0;
        while t < n
            invariant
                n == set@.len(),
                t <= n,
                r@ =~= set@.take(t as int),
            decreases n - t,
        {
            r.push(set[t]);
            proof {
                assert(r@ =~= set@.take(t as int + 1));
            }
            t = t + 1;
        }
        proof {
            assert(set@.take(n as int) =~= set@);
        }
        r
    }

    /// The whole computation: builds the word index from the raw dictionary
    /// lines, enumerates the jobs and runs every search, one job after the
    /// other. Returns every anagram line found; each line is a well-formed
    /// anagram of the actual target for one of the jobs.
    #[verifier::rlimit(100)]
    pub fn anagram(&mut self, lines: &Vec<String>) -> (r: Result<Vec<String>, String>)
        requires
            old(self).spec_dictionary().inv(),
            old(self).spec_dictionary().is_empty_index(),
            lines@.len() < u64::MAX,
        ensures
            r is Ok <==> (target_ok(old(self).spec_target_text()) && forall|t: int|
                0 <= t < lines@.len() ==> line_ok(#[trigger] lines@[t]@)),
            r is Ok ==> lines_valid(*final(self), r->Ok_0@),
            r is Ok ==> lines_complete(*final(self), r->Ok_0@),
    {
        let loaded = self.load_dictionary(lines);
        match loaded {
            Err(e) => Err(e),
            Ok(_words_read) => {
                let jobs = self.generate_jobs();
                let ghost cfg = *self;
                let jobs_number = jobs.len();
                let mut found: Vec<String> = Vec::new();
                let mut i: usize = 0;
                while i < jobs_number
                    invariant
                        jobs_number == jobs@.len(),
                        i <= jobs_number,
                        *self == cfg,
                        self.spec_dictionary().inv(),
                        forall|m: int|
                            0 <= m < jobs@.len() ==> cfg.job_ok((#[trigger] jobs@[m])@),
                        forall|s: Seq<usize>|
                            #[trigger] cfg.job_ok(s) ==> exists|m: int|
                                0 <= m < jobs@.len() && jobs@[m]@ == s,
                        lines_valid(cfg, found@),
                        lines_complete_upto(cfg, jobs@, i as int, found@),
                    decreases jobs_number - i,
                {
                    let ghost found_outer0 = found@;
                    let set = self.copy_lengths(&jobs[i]);
                    let ghost set_view = set@;
                    let searcher = SearchThread::new(
                        &self.dictionary,
                        self.actual_target_signature,
                        self.included_text.clone(),
                        set,
                    );
                    proof {
                        assert(cfg.job_ok(jobs@[i as int]@));
                        assert(searcher.wf());
                    }
                    let results = searcher.run();
                    let ghost results_orig = results@;
                    let rn = results.len();
                    let mut t: usize = 0;
                    let mut results_iter = results;
                    while t < rn
                        invariant
                            rn == results_iter@.len() + t,
                            rn == results_orig.len(),
                            forall|q: int|
                                t <= q < rn ==> results_orig[q] == (#[trigger] results_iter@[q
                                    - t]),
                            searcher.spec_lengths() == set_view,
                            jobs_number == jobs@.len(),
                            i < jobs_number,
                            set_view == jobs@[i as int]@,
                            *self == cfg,
                            cfg.job_ok(set_view),
                            self.spec_dictionary().inv(),
                            searcher.spec_dict() == &self.spec_dictionary(),
                            searcher.spec_target() == self.spec_actual_signature(),
                            searcher.spec_included() == self.spec_included_text(),
                            forall|q: int|
                                0 <= q < rn ==> searcher.valid_line((#[trigger] results_orig[q])@),
                            forall|q: int|
                                0 <= q < t ==> contains_view(found@, (#[trigger] results_orig[q])@),
                            found_outer0.len() <= found@.len(),
                            forall|t0: int|
                                0 <= t0 < found_outer0.len() ==> (#[trigger] found@[t0])
                                    == found_outer0[t0],
                            lines_complete_upto(cfg, jobs@, i as int, found_outer0),
                            lines_valid(cfg, found@),
                        decreases rn - t,
                    {
                        let ghost iter_before = results_iter@;
                        let line = results_iter.remove(0);
                        let ghost found_before = found@;
                        proof {
                            assert(line == iter_before[0]);
                            assert(results_orig[t as int] == iter_before[t as int - t as int]);
                            assert(line == results_orig[t as int]);
                            assert forall|q: int|
                                t + 1 <= q < rn implies results_orig[q] == (
                            #[trigger] results_iter@[q - (t + 1)]) by {
                                assert(results_iter@[q - (t + 1)] == iter_before[q - t]);
                                assert(results_orig[q] == iter_before[q - t]);
                            }
                            assert(searcher.valid_line(line@));
                            assert(is_anagram_line(
                                &self.spec_dictionary(),
                                self.spec_actual_signature(),
                                self.spec_included_text(),
                                set_view,
                                line@,
                            ));
                        }
                        found.push(line);
                        proof {
                            assert(lines_valid(cfg, found@)) by {
                                assert forall|q: int| 0 <= q < found@.len() implies exists|
                                    lengths: Seq<usize>,
                                |
                                    {
                                        &&& cfg.job_ok(lengths)
                                        &&& is_anagram_line(
                                            &cfg.spec_dictionary(),
                                            cfg.spec_actual_signature(),
                                            cfg.spec_included_text(),
                                            lengths,
                                            (#[trigger] found@[q])@,
                                        )
                                    } by {
                                    if q < found_before.len() {
                                        assert(found@[q] == found_before[q]);
                                    } else {
                                        assert(found@[q] == line);
                                        assert(cfg.job_ok(set_view));
                                        assert(is_anagram_line(
                                            &cfg.spec_dictionary(),
                                            cfg.spec_actual_signature(),
                                            cfg.spec_included_text(),
                                            set_view,
                                            (found@[q])@,
                                        ));
                                    }
                                }
                            }
                            assert forall|q: int|
                                0 <= q < t + 1 implies contains_view(
                                found@,
                                (#[trigger] results_orig[q])@,
                            ) by {
                                if q < t {
                                    assert(contains_view(found_before, results_orig[q]@));
                                    let t0 = choose|t0: int|
                                        0 <= t0 < found_before.len() && (
                                        #[trigger] found_before[t0])@ == results_orig[q]@;
                                    assert(found@[t0]@ == results_orig[q]@);
                                } else {
                                    assert(found@[found@.len() - 1] == line);
                                }
                            }
                        }
                        t = t + 1;
                    }
                    proof {
                        assert(lines_complete_upto(cfg, jobs@, i as int + 1, found@)) by {
                        assert forall|lengths: Seq<usize>, line: Seq<char>|
                            #[trigger] engine_line(cfg, lengths, line) && (exists|m: int|
                                0 <= m < i + 1 && (#[trigger] jobs@[m])@ == lengths) implies
                            contains_view(found@, line) by {
                            let m0 = choose|m: int| 0 <= m < i + 1 && jobs@[m]@ == lengths;
                            if m0 < i {
                                assert(contains_view(found_outer0, line));
                                let t0 = choose|t0: int|
                                    0 <= t0 < found_outer0.len() && (#[trigger] found_outer0[t0])@
                                        == line;
                                assert(found@[t0]@ == line);
                            } else {
                                assert(lengths == set_view);
                                assert(searcher.valid_line(line));
                                assert(contains_view(results_orig, line));
                                let q0 = choose|q: int|
                                    0 <= q < results_orig.len() && (#[trigger] results_orig[q])@
                                        == line;
                                assert(contains_view(found@, results_orig[q0]@));
                            }
                        }
                        }
                    }
                    i = i + 1;
                }
                let r: Result<Vec<String>, String> = Ok(found);
                proof {
                    assert(r->Ok_0 == found);
                    assert(*self == cfg);
                    assert(lines_valid(*self, r->Ok_0@));
                    assert(lines_complete(cfg, found@)) by {
                        assert forall|lengths: Seq<usize>, line: Seq<char>|
                            #[trigger] engine_line(cfg, lengths, line) implies contains_view(
                            found@,
                            line,
                        ) by {
                            assert(cfg.job_ok(lengths));
                            let m0 = choose|m: int|
                                0 <= m < jobs@.len() && (#[trigger] jobs@[m])@ == lengths;
                            assert(exists|m: int| 0 <= m < i && (#[trigger] jobs@[m])@ == lengths);
                        }
                    }
                    assert(lines_complete(*self, r->Ok_0@));
                }
                r
            },
        }
    }
}

} // verus!
