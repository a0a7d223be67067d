//! The per-job search: recursive backtracking over the word index to find
//! every assignment of signatures that sums exactly to the target, expanded
//! into canonical, deduplicated anagram lines.

use crate::combinations::non_decreasing;
use crate::dictionarium::{word_matches, Dictionarium, MAX_WORD_LENGTH};
use crate::signature::{counts_of, sig_add, spec_subset, sum_counts, Signature};
use crate::text::{
    join_sp, join_spaces, lemma_join_sp_injective, lemma_map_values_multiset,
    lemma_multiset_insert_cancel, lemma_to_multiset_insert, norm_of, sort_strings, sorted_lex,
    space_free, tokens_clean, views_of,
};
use vstd::prelude::*;

verus! {

broadcast use crate::signature::lemma_signature_len;

/// The signature views of the first `k` chosen slots.
pub open spec fn prefix_sigs(sol: Seq<Signature>, k: int) -> Seq<Seq<u8>> {
    sol.take(k).map_values(|s: Signature| s@)
}

/// The total count of letter slot `j` over a list of signatures.
pub open spec fn sum_at(sigs: Seq<Seq<u8>>, j: int) -> int
    decreases sigs.len(),
{
    if sigs.len() == 0 {
        0
    } else {
        sum_at(sigs.drop_last(), j) + sigs.last()[j]
    }
}

/// A prefix of an assignment never counts more of a letter than the whole.
proof fn lemma_sum_at_take_le(sigs: Seq<Seq<u8>>, p: int, j: int)
    requires
        0 <= p <= sigs.len(),
        forall|t: int| p <= t < sigs.len() ==> 0 <= j < (#[trigger] sigs[t]).len(),
    ensures
        sum_at(sigs.take(p), j) <= sum_at(sigs, j),
    decreases sigs.len() - p,
{
    if p < sigs.len() {
        assert(sigs.take(p + 1).drop_last() =~= sigs.take(p));
        assert(sigs.take(p + 1).last() == sigs[p]);
        lemma_sum_at_take_le(sigs, p + 1, j);
    } else {
        assert(sigs.take(p) =~= sigs);
    }
}

/// The signatures sum slot by slot to exactly the target counts.
pub open spec fn sigs_sum_to(sigs: Seq<Seq<u8>>, target: Seq<u8>) -> bool {
    target.len() == 26 && forall|j: int| 0 <= j < 26 ==> sum_at(sigs, j) == target[j]
}

/// The counts `sig` are filed in the bucket of length `l`.
pub open spec fn key_in_section(d: &Dictionarium, l: int, sig: Seq<u8>) -> bool {
    0 <= l <= MAX_WORD_LENGTH && d.spec_sections()[l].has_key(sig)
}

/// `w` is a dictionary word filed in the bucket of length `l` under the
/// counts `sig`.
pub open spec fn word_in_slot(d: &Dictionarium, l: int, sig: Seq<u8>, w: Seq<char>) -> bool {
    &&& 0 <= l <= MAX_WORD_LENGTH
    &&& exists|m: int, wi: int|
        0 <= m < d.spec_sections()[l].spec_len() && d.spec_sections()[l].spec_key(m) == sig && 0
            <= wi < d.spec_sections()[l].spec_words(m).len()
            && (#[trigger] d.spec_sections()[l].spec_words(m)[wi])@ == w
}

/// The tokens of one anagram: the included text first where there is one,
/// then the chosen dictionary words.
pub open spec fn with_included(included: Seq<char>, words: Seq<Seq<char>>) -> Seq<Seq<char>> {
    if included.len() == 0 {
        words
    } else {
        seq![included] + words
    }
}

/// One expansion of a fixed signature assignment `sigs`: some choice of one
/// stored word per slot, written as the sorted, space-joined tokens.
pub open spec fn choice_line(
    d: &Dictionarium,
    included: Seq<char>,
    lengths: Seq<usize>,
    sigs: Seq<Seq<u8>>,
    line: Seq<char>,
) -> bool {
    exists|words: Seq<Seq<char>>, perm: Seq<Seq<char>>|
        {
            &&& words.len() == lengths.len()
            &&& (forall|t: int|
                0 <= t < lengths.len() ==> word_in_slot(
                    d,
                    #[trigger] lengths[t] as int,
                    sigs[t],
                    words[t],
                ))
            &&& perm.to_multiset() == with_included(included, words).to_multiset()
            &&& sorted_lex(perm)
            &&& line == join_sp(perm)
        }
}

/// One well-formed output line for a job: some choice of one stored signature
/// per slot, summing exactly to the target, and one stored word per slot,
/// written as the sorted, space-joined tokens.
pub open spec fn is_anagram_line(
    d: &Dictionarium,
    target: Seq<u8>,
    included: Seq<char>,
    lengths: Seq<usize>,
    line: Seq<char>,
) -> bool {
    exists|sigs: Seq<Seq<u8>>|
        {
            &&& sigs.len() == lengths.len()
            &&& sigs_sum_to(sigs, target)
            &&& #[trigger] choice_line(d, included, lengths, sigs, line)
        }
}

/// Some string of `v` reads as `line`.
pub open spec fn contains_view(v: Seq<String>, line: Seq<char>) -> bool {
    exists|t: int| 0 <= t < v.len() && (#[trigger] v[t])@ == line
}

/// One way to finish a partial expansion: one stored word per remaining slot,
/// and the line written as the sorted, space-joined tokens of the words
/// already picked (`base`) and the rest.
pub open spec fn rest_line_ok(
    d: &Dictionarium,
    lengths: Seq<usize>,
    sols: Seq<Seq<u8>>,
    index: int,
    base: Seq<Seq<char>>,
    rest: Seq<Seq<char>>,
    line: Seq<char>,
) -> bool {
    &&& rest.len() == lengths.len() - index
    &&& (forall|t: int|
        0 <= t < rest.len() ==> word_in_slot(
            d,
            #[trigger] lengths[index + t] as int,
            sols[index + t],
            rest[t],
        ))
    &&& exists|perm: Seq<Seq<char>>|
        {
            &&& perm.to_multiset() == (base + rest).to_multiset()
            &&& sorted_lex(perm)
            &&& line == join_sp(perm)
        }
}

/// Every word stored in the index is non-empty and holds no space, so a
/// joined output line can be split back into its tokens.
pub open spec fn index_words_clean(d: &Dictionarium) -> bool {
    forall|l: int, m: int, w: int|
        0 <= l < d.spec_sections().len() && 0 <= m < d.spec_sections()[l].spec_len() && 0 <= w
            < d.spec_sections()[l].spec_words(m).len() ==> {
            &&& (#[trigger] d.spec_sections()[l].spec_words(m)[w])@.len() > 0
            &&& space_free(d.spec_sections()[l].spec_words(m)[w]@)
        }
}

/// The normalized letter count of one token.
pub open spec fn norm_len_of(w: Seq<char>) -> usize {
    sum_counts(counts_of(norm_of(w))) as usize
}

/// Every token of a line of `lengths` is clean, and the tokens' normalized
/// letter counts recover the job: the multiset of tokens pins the length
/// multiset down.
proof fn lemma_line_tokens(
    d: &Dictionarium,
    target: Seq<u8>,
    included: Seq<char>,
    lengths: Seq<usize>,
    line: Seq<char>,
) -> (r: (Seq<Seq<char>>, Seq<Seq<char>>))
    requires
        d.inv(),
        d.entries_match(),
        index_words_clean(d),
        included.len() > 0 ==> space_free(included),
        is_anagram_line(d, target, included, lengths, line),
    ensures
        tokens_clean(r.0),
        sorted_lex(r.0),
        line == join_sp(r.0),
        r.0.to_multiset() == with_included(included, r.1).to_multiset(),
        lengths =~= r.1.map_values(|w: Seq<char>| norm_len_of(w)),
{
    let sigs = choose|sigs: Seq<Seq<u8>>|
        {
            &&& sigs.len() == lengths.len()
            &&& sigs_sum_to(sigs, target)
            &&& #[trigger] choice_line(d, included, lengths, sigs, line)
        };
    let (words, perm) = choose|words: Seq<Seq<char>>, perm: Seq<Seq<char>>|
        {
            &&& words.len() == lengths.len()
            &&& (forall|t: int|
                0 <= t < lengths.len() ==> word_in_slot(
                    d,
                    #[trigger] lengths[t] as int,
                    sigs[t],
                    words[t],
                ))
            &&& perm.to_multiset() == with_included(included, words).to_multiset()
            &&& sorted_lex(perm)
            &&& line == join_sp(perm)
        };
    let tokens = with_included(included, words);
    // every word of the line comes out of the index, with its filed counts
    assert forall|t: int| 0 <= t < words.len() implies (#[trigger] words[t]).len() > 0
        && space_free(words[t]) && norm_len_of(words[t]) == lengths[t] by {
        let l = lengths[t] as int;
        let (m, wi) = choose|m: int, wi: int|
            0 <= m < d.spec_sections()[l].spec_len() && d.spec_sections()[l].spec_key(m) == sigs[t]
                && 0 <= wi < d.spec_sections()[l].spec_words(m).len()
                && (#[trigger] d.spec_sections()[l].spec_words(m)[wi])@ == words[t];
        assert(word_matches(sigs[t], words[t]));
        assert(sum_counts(sigs[t]) == l);
        assert(sigs[t] == counts_of(norm_of(words[t])));
    }
    // so every token of the sorted line is clean
    assert forall|i: int| 0 <= i < perm.len() implies (#[trigger] perm[i]).len() > 0 && space_free(
        perm[i],
    ) by {
        perm.to_multiset_ensures();
        tokens.to_multiset_ensures();
        assert(perm.contains(perm[i]));
        assert(perm.to_multiset().count(perm[i]) > 0);
        assert(tokens.to_multiset().count(perm[i]) > 0);
        assert(tokens.contains(perm[i]));
        let q = choose|q: int| 0 <= q < tokens.len() && tokens[q] == perm[i];
        if included.len() == 0 {
            assert(tokens[q] == words[q]);
        } else {
            if q == 0 {
                assert(tokens[q] == included);
            } else {
                assert(tokens[q] == words[q - 1]);
            }
        }
    }
    assert(lengths =~= words.map_values(|w: Seq<char>| norm_len_of(w)));
    (perm, words)
}

/// Two different jobs never emit the same canonical line: the line's tokens
/// pin down the multiset of the words' normalized lengths, and a length
/// multiset has exactly one non-decreasing written form.
pub proof fn lemma_distinct_jobs_lines_differ(
    d: &Dictionarium,
    target: Seq<u8>,
    included: Seq<char>,
    lengths1: Seq<usize>,
    lengths2: Seq<usize>,
    line: Seq<char>,
)
    requires
        d.inv(),
        d.entries_match(),
        index_words_clean(d),
        included.len() > 0 ==> space_free(included),
        non_decreasing(lengths1),
        non_decreasing(lengths2),
        lengths1 != lengths2,
        is_anagram_line(d, target, included, lengths1, line),
    ensures
        !is_anagram_line(d, target, included, lengths2, line),
{
    if is_anagram_line(d, target, included, lengths2, line) {
        let (perm1, words1) = lemma_line_tokens(d, target, included, lengths1, line);
        let (perm2, words2) = lemma_line_tokens(d, target, included, lengths2, line);
        lemma_join_sp_injective(perm1, perm2);
        assert(with_included(included, words1).to_multiset() == with_included(
            included,
            words2,
        ).to_multiset());
        assert(words1.to_multiset() == words2.to_multiset()) by {
            if included.len() > 0 {
                assert(with_included(included, words1) =~= words1.insert(0, included));
                assert(with_included(included, words2) =~= words2.insert(0, included));
                lemma_to_multiset_insert(words1, 0, included);
                lemma_to_multiset_insert(words2, 0, included);
                lemma_multiset_insert_cancel(
                    words1.to_multiset(),
                    words2.to_multiset(),
                    included,
                );
            }
        }
        lemma_map_values_multiset(words1, words2, |w: Seq<char>| norm_len_of(w));
        assert(lengths1.to_multiset() == lengths2.to_multiset());
        crate::combinations::lemma_sorted_same_multiset_equal(lengths1, lengths2);
        assert(false);
    }
}

/// No two strings of the list read the same.
pub open spec fn distinct_views(v: Seq<String>) -> bool {
    forall|t1: int, t2: int| 0 <= t1 < t2 < v.len() ==> v[t1]@ != v[t2]@
}

/// Whether some string of `v` reads as `s` does.
fn contains_string(v: &Vec<String>, s: &String) -> (r: bool)
    ensures
        r == exists|t: int| 0 <= t < v@.len() && (#[trigger] v@[t])@ == s@,
{
    let n = v.len();
    let mut t: usize = 0;
    while t < n
        invariant
            n == v@.len(),
            t <= n,
            forall|q: int| 0 <= q < t ==> (#[trigger] v@[q])@ != s@,
        decreases n - t,
    {
        if v[t].eq(s) {
            return true;
        }
        t = t + 1;
    }
    false
}

/// The mutable state of one search: the running signature sum, the chosen
/// signature per slot, and the canonical lines already emitted.
struct SearchState {
    ws: Signature,
    solution: Vec<Signature>,
    anagram_set: Vec<String>,
}

/// One search job: a searcher over the shared word index for one sequence of
/// word lengths.
pub struct SearchThread<'a> {
    dictionarium: &'a Dictionarium,
    target_signature: Signature,
    included_text: String,
    word_lengths: Vec<usize>,
    words_number: usize,
}

impl<'a> SearchThread<'a> {
    /// The shared word index.
    pub closed spec fn spec_dict(&self) -> &'a Dictionarium {
        self.dictionarium
    }

    /// The counts the chosen words must sum to.
    pub closed spec fn spec_target(&self) -> Seq<u8> {
        self.target_signature@
    }

    /// The mandatory text, one unsplit token, possibly empty.
    pub closed spec fn spec_included(&self) -> Seq<char> {
        self.included_text@
    }

    /// The job: one word length per slot.
    pub closed spec fn spec_lengths(&self) -> Seq<usize> {
        self.word_lengths@
    }

    /// How many slots the job has.
    pub closed spec fn spec_words_number(&self) -> int {
        self.words_number as int
    }

    /// A searcher ready to run: a well-formed index and slot lengths the
    /// index has buckets for.
    pub open spec fn wf(&self) -> bool {
        &&& self.spec_dict().inv()
        &&& self.spec_target().len() == 26
        &&& self.spec_words_number() == self.spec_lengths().len()
        &&& forall|t: int|
            0 <= t < self.spec_lengths().len() ==> #[trigger] self.spec_lengths()[t]
                <= MAX_WORD_LENGTH
    }

    /// A line this job is allowed to emit.
    pub open spec fn valid_line(&self, line: Seq<char>) -> bool {
        is_anagram_line(
            self.spec_dict(),
            self.spec_target(),
            self.spec_included(),
            self.spec_lengths(),
            line,
        )
    }

    /// Builds a searcher for one job.
    pub fn new(
        dictionarium: &'a Dictionarium,
        target_signature: Signature,
        included_text: String,
        word_lengths: Vec<usize>,
    ) -> (r: SearchThread<'a>)
        ensures
            r.spec_dict() == dictionarium,
            r.spec_target() == target_signature@,
            r.spec_included() == included_text@,
            r.spec_lengths() == word_lengths@,
            r.spec_words_number() == r.spec_lengths().len(),
    {
        let words_number = word_lengths.len();
        SearchThread { dictionarium, target_signature, included_text, word_lengths, words_number }
    }

    /// Runs the search and returns exactly the anagram lines of this job, in
    /// the order found: each returned line is valid, every valid line is
    /// returned, and no two returned lines read the same.
    pub fn run(&self) -> (r: Vec<String>)
        requires
            self.wf(),
        ensures
            distinct_views(r@),
            forall|t: int| 0 <= t < r@.len() ==> self.valid_line((#[trigger] r@[t])@),
            forall|line: Seq<char>|
                #[trigger] self.valid_line(line) ==> contains_view(r@, line),
    {
        let mut solution: Vec<Signature> = Vec::new();
        let mut f: usize = 0;
        let n = self.word_lengths.len();
        while f < n
            invariant
                f <= n,
                solution@.len() == f,
            decreases n - f,
        {
            solution.push(Signature::new_empty());
            f = f + 1;
        }
        let mut state = SearchState {
            ws: Signature::new_empty(),
            solution,
            anagram_set: Vec::new(),
        };
        proof {
            assert(prefix_sigs(state.solution@, 0) =~= Seq::<Seq<u8>>::empty());
        }
        self.search(0, &mut state);
        proof {
            assert forall|line: Seq<char>| #[trigger] self.valid_line(line) implies contains_view(
                state.anagram_set@,
                line,
            ) by {
                let sigs = choose|sigs: Seq<Seq<u8>>|
                    {
                        &&& sigs.len() == self.spec_lengths().len()
                        &&& sigs_sum_to(sigs, self.spec_target())
                        &&& #[trigger] choice_line(
                            self.spec_dict(),
                            self.spec_included(),
                            self.spec_lengths(),
                            sigs,
                            line,
                        )
                    };
                let (cwords, perm) = choose|cwords: Seq<Seq<char>>, perm: Seq<Seq<char>>|
                    {
                        &&& cwords.len() == self.spec_lengths().len()
                        &&& (forall|t: int|
                            0 <= t < self.spec_lengths().len() ==> word_in_slot(
                                self.spec_dict(),
                                #[trigger] self.spec_lengths()[t] as int,
                                sigs[t],
                                cwords[t],
                            ))
                        &&& perm.to_multiset() == with_included(
                            self.spec_included(),
                            cwords,
                        ).to_multiset()
                        &&& sorted_lex(perm)
                        &&& line == join_sp(perm)
                    };
                assert forall|t: int| 0 <= t < sigs.len() implies key_in_section(
                    self.spec_dict(),
                    #[trigger] self.spec_lengths()[t] as int,
                    sigs[t],
                ) by {
                    assert(word_in_slot(
                        self.spec_dict(),
                        self.spec_lengths()[t] as int,
                        sigs[t],
                        cwords[t],
                    ));
                    let (mm, wwi) = choose|mm: int, wwi: int|
                        0 <= mm < self.spec_dict().spec_sections()[self.spec_lengths()[t] as int].spec_len()
                            && self.spec_dict().spec_sections()[self.spec_lengths()[t] as int].spec_key(mm)
                            == sigs[t] && 0 <= wwi
                            < self.spec_dict().spec_sections()[self.spec_lengths()[t] as int].spec_words(
                            mm,
                        ).len() && (#[trigger] self.spec_dict().spec_sections()[self.spec_lengths()[t] as int].spec_words(
                            mm,
                        )[wwi])@ == cwords[t];
                    assert(self.spec_dict().spec_sections()[self.spec_lengths()[t] as int].has_key(
                        sigs[t],
                    ));
                }
                assert(sigs.take(0) =~= Seq::<Seq<u8>>::empty());
            }
        }
        state.anagram_set
    }

    /// Tries every signature of the bucket for slot `word_index`, keeps the
    /// running sum within the target, and emits the expansions of every
    /// complete assignment that reaches it exactly.
    fn search(&self, word_index: usize, state: &mut SearchState)
        requires
            self.wf(),
            word_index <= self.words_number,
            old(state).solution@.len() == self.words_number,
            old(state).ws@.len() == 26,
            forall|j: int|
                0 <= j < 26 ==> old(state).ws@[j] == sum_at(
                    prefix_sigs(old(state).solution@, word_index as int),
                    j,
                ),
            forall|t: int|
                0 <= t < word_index ==> key_in_section(
                    self.spec_dict(),
                    #[trigger] self.spec_lengths()[t] as int,
                    old(state).solution@[t]@,
                ),
            distinct_views(old(state).anagram_set@),
            forall|t: int|
                0 <= t < old(state).anagram_set@.len() ==> self.valid_line(
                    (#[trigger] old(state).anagram_set@[t])@,
                ),
        ensures
            final(state).ws@ == old(state).ws@,
            final(state).solution@.len() == old(state).solution@.len(),
            final(state).solution@.take(word_index as int) == old(state).solution@.take(
                word_index as int,
            ),
            final(state).anagram_set@.len() >= old(state).anagram_set@.len(),
            forall|t: int|
                0 <= t < old(state).anagram_set@.len() ==> final(state).anagram_set@[t] == old(
                    state,
                ).anagram_set@[t],
            distinct_views(final(state).anagram_set@),
            forall|t: int|
                0 <= t < final(state).anagram_set@.len() ==> self.valid_line(
                    (#[trigger] final(state).anagram_set@[t])@,
                ),
            forall|sigs: Seq<Seq<u8>>, line: Seq<char>|
                #![trigger choice_line(self.spec_dict(), self.spec_included(), self.spec_lengths(), sigs, line)]
                {
                    &&& sigs.len() == self.spec_lengths().len()
                    &&& sigs.take(word_index as int) == prefix_sigs(
                        old(state).solution@,
                        word_index as int,
                    )
                    &&& (forall|t: int|
                        word_index <= t < sigs.len() ==> key_in_section(
                            self.spec_dict(),
                            #[trigger] self.spec_lengths()[t] as int,
                            sigs[t],
                        ))
                    &&& sigs_sum_to(sigs, self.spec_target())
                    &&& choice_line(
                        self.spec_dict(),
                        self.spec_included(),
                        self.spec_lengths(),
                        sigs,
                        line,
                    )
                } ==> contains_view(final(state).anagram_set@, line),
        decreases self.words_number - word_index,
    {
        if word_index == self.words_number {
            let ghost sols_leaf = prefix_sigs(old(state).solution@, self.words_number as int);
            let matched = state.ws == self.target_signature;
            if matched {
                proof {
                    assert(state.ws@ == self.spec_target());
                    assert(sigs_sum_to(
                        prefix_sigs(state.solution@, self.words_number as int),
                        self.spec_target(),
                    ));
                }
                self.compute_solution(state);
                proof {
                    assert forall|sigs: Seq<Seq<u8>>, line: Seq<char>|
                        #![trigger choice_line(self.spec_dict(), self.spec_included(), self.spec_lengths(), sigs, line)]
                        {
                            &&& sigs.len() == self.spec_lengths().len()
                            &&& sigs.take(word_index as int) == prefix_sigs(
                                old(state).solution@,
                                word_index as int,
                            )
                            &&& sigs_sum_to(sigs, self.spec_target())
                            &&& choice_line(
                                self.spec_dict(),
                                self.spec_included(),
                                self.spec_lengths(),
                                sigs,
                                line,
                            )
                        } implies contains_view(state.anagram_set@, line) by {
                        assert(sigs =~= sigs.take(word_index as int));
                        assert(sigs == sols_leaf);
                    }
                }
            } else {
                proof {
                    assert forall|sigs: Seq<Seq<u8>>, line: Seq<char>|
                        #![trigger choice_line(self.spec_dict(), self.spec_included(), self.spec_lengths(), sigs, line)]
                        {
                            &&& sigs.len() == self.spec_lengths().len()
                            &&& sigs.take(word_index as int) == prefix_sigs(
                                old(state).solution@,
                                word_index as int,
                            )
                            &&& sigs_sum_to(sigs, self.spec_target())
                            &&& choice_line(
                                self.spec_dict(),
                                self.spec_included(),
                                self.spec_lengths(),
                                sigs,
                                line,
                            )
                        } implies contains_view(state.anagram_set@, line) by {
                        assert(sigs =~= sigs.take(word_index as int));
                        assert(sigs == sols_leaf);
                        assert(state.ws@ =~= self.spec_target()) by {
                            assert(forall|j: int|
                                0 <= j < 26 ==> state.ws@[j] == sum_at(sols_leaf, j));
                        }
                        assert(false);
                    }
                }
            }
            return ;
        }

        let len = self.word_lengths[word_index];
        let section = self.dictionarium.get_section(len);
        let count = section.entry_count();
        let ghost entry_ws = old(state).ws@;
        let ghost entry_solution = old(state).solution@;
        let mut m: usize = 0;
        while m < count
            invariant
                self.wf(),
                word_index < self.words_number,
                len == self.spec_lengths()[word_index as int],
                len <= MAX_WORD_LENGTH,
                *section == self.spec_dict().spec_sections()[len as int],
                count == section.spec_len(),
                m <= count,
                state.solution@.len() == self.words_number,
                state.solution@.take(word_index as int) == entry_solution.take(word_index as int),
                entry_solution == old(state).solution@,
                entry_ws == old(state).ws@,
                state.ws@ == entry_ws,
                state.ws@.len() == 26,
                forall|j: int|
                    0 <= j < 26 ==> state.ws@[j] == sum_at(
                        prefix_sigs(state.solution@, word_index as int),
                        j,
                    ),
                forall|t: int|
                    0 <= t < word_index ==> key_in_section(
                        self.spec_dict(),
                        #[trigger] self.spec_lengths()[t] as int,
                        state.solution@[t]@,
                    ),
                state.anagram_set@.len() >= old(state).anagram_set@.len(),
                forall|t: int|
                    0 <= t < old(state).anagram_set@.len() ==> state.anagram_set@[t] == old(
                        state,
                    ).anagram_set@[t],
                distinct_views(state.anagram_set@),
                forall|t: int|
                    0 <= t < state.anagram_set@.len() ==> self.valid_line(
                        (#[trigger] state.anagram_set@[t])@,
                    ),
                forall|sigs: Seq<Seq<u8>>, line: Seq<char>|
                    #![trigger choice_line(self.spec_dict(), self.spec_included(), self.spec_lengths(), sigs, line)]
                    {
                        &&& sigs.len() == self.spec_lengths().len()
                        &&& sigs.take(word_index as int) == prefix_sigs(
                            old(state).solution@,
                            word_index as int,
                        )
                        &&& (forall|t: int|
                            word_index <= t < sigs.len() ==> key_in_section(
                                self.spec_dict(),
                                #[trigger] self.spec_lengths()[t] as int,
                                sigs[t],
                            ))
                        &&& sigs_sum_to(sigs, self.spec_target())
                        &&& choice_line(
                            self.spec_dict(),
                            self.spec_included(),
                            self.spec_lengths(),
                            sigs,
                            line,
                        )
                        &&& (exists|m0: int|
                            0 <= m0 < m && (#[trigger] section.spec_key(m0)) == sigs[word_index as int])
                    } ==> contains_view(state.anagram_set@, line),
            decreases count - m,
        {
            let ghost sol0 = state.solution@;
            let ghost set_iter0 = state.anagram_set@;
            let current_signature: Signature = *section.key_at(m);
            proof {
                assert(sum_counts(current_signature@) == len as int);
            }
            let added: bool;
            if word_index == 0 {
                proof {
                    assert(prefix_sigs(state.solution@, 0) =~= Seq::<Seq<u8>>::empty());
                    assert(forall|j: int| 0 <= j < 26 ==> state.ws@[j] == 0);
                }
                state.ws.add(&current_signature);
                added = true;
            } else {
                added = state.ws.add_if_within(&current_signature, &self.target_signature);
            }
            if added {
                state.solution[word_index] = current_signature;
                proof {
                    let pfx_old = prefix_sigs(entry_solution, word_index as int);
                    let pfx_new = prefix_sigs(state.solution@, word_index as int + 1);
                    assert(state.solution@.take(word_index as int) =~= entry_solution.take(
                        word_index as int,
                    ));
                    assert(pfx_new.drop_last() =~= prefix_sigs(state.solution@, word_index as int));
                    assert(prefix_sigs(state.solution@, word_index as int) =~= pfx_old);
                    assert(pfx_new.last() == current_signature@);
                    assert(pfx_new =~= pfx_old.push(current_signature@));
                    assert(forall|j: int|
                        0 <= j < 26 ==> state.ws@[j] == sum_at(pfx_new, j)) by {
                        assert(state.ws@ == sig_add(entry_ws, current_signature@));
                    }
                    assert(key_in_section(
                        self.spec_dict(),
                        self.spec_lengths()[word_index as int] as int,
                        state.solution@[word_index as int]@,
                    )) by {
                        assert(section.spec_key(m as int) == current_signature@);
                        assert(section.has_key(current_signature@));
                    }
                }
                let ghost pfx_rec = prefix_sigs(state.solution@, word_index as int + 1);
                self.search(word_index + 1, state);
                proof {
                    assert(state.solution@.take(word_index as int) =~= state.solution@.take(
                        word_index as int + 1,
                    ).take(word_index as int));
                    assert(state.solution@.take(word_index as int) =~= entry_solution.take(
                        word_index as int,
                    ));
                    assert(spec_subset(current_signature@, state.ws@)) by {
                        let pfx = prefix_sigs(state.solution@, word_index as int);
                        assert(pfx =~~= prefix_sigs(entry_solution, word_index as int));
                        assert forall|j: int| 0 <= j < 26 implies current_signature@[j]
                            <= state.ws@[j] by {
                            assert(state.ws@[j] == sum_at(pfx, j) + current_signature@[j]);
                            assert(sum_at(pfx, j) == entry_ws[j]);
                        }
                    }
                }
                let ghost ws_after_search = state.ws@;
                state.ws.sub(&current_signature);
                proof {
                    assert(state.ws@ =~= entry_ws) by {
                        let pfx = prefix_sigs(state.solution@, word_index as int);
                        assert(forall|j: int|
                            0 <= j < 26 ==> ws_after_search[j] == sum_at(pfx, j)
                                + current_signature@[j]);
                        assert(forall|j: int| 0 <= j < 26 ==> entry_ws[j] == sum_at(pfx, j));
                    }
                    assert forall|sigs: Seq<Seq<u8>>, line: Seq<char>|
                        #![trigger choice_line(self.spec_dict(), self.spec_included(), self.spec_lengths(), sigs, line)]
                    {
                        &&& sigs.len() == self.spec_lengths().len()
                        &&& sigs.take(word_index as int) == prefix_sigs(
                            old(state).solution@,
                            word_index as int,
                        )
                        &&& (forall|t: int|
                            word_index <= t < sigs.len() ==> key_in_section(
                                self.spec_dict(),
                                #[trigger] self.spec_lengths()[t] as int,
                                sigs[t],
                            ))
                        &&& sigs_sum_to(sigs, self.spec_target())
                        &&& choice_line(
                            self.spec_dict(),
                            self.spec_included(),
                            self.spec_lengths(),
                            sigs,
                            line,
                        )
                        &&& (exists|m0: int|
                            0 <= m0 < m + 1 && (#[trigger] section.spec_key(m0)) == sigs[word_index as int])
                    } implies contains_view(state.anagram_set@, line) by {
                    let m0 = choose|m0: int|
                        0 <= m0 < m + 1 && (#[trigger] section.spec_key(m0)) == sigs[word_index as int];
                    if m0 < m {
                        assert(contains_view(set_iter0, line));
                        let t0 = choose|t: int|
                            0 <= t < set_iter0.len() && (#[trigger] set_iter0[t])@ == line;
                        assert(state.anagram_set@[t0] == set_iter0[t0]);
                    } else {
                        assert(sigs[word_index as int] == current_signature@);
                        assert(sigs.take(word_index as int + 1) =~= prefix_sigs(
                            entry_solution,
                            word_index as int,
                        ).push(current_signature@));
                        assert(sigs.take(word_index as int + 1) == pfx_rec);
                        assert(forall|t: int|
                            word_index + 1 <= t < sigs.len() ==> key_in_section(
                                self.spec_dict(),
                                #[trigger] self.spec_lengths()[t] as int,
                                sigs[t],
                            ));
                    }
                    }
                }
            } else {
                proof {
                    assert forall|sigs: Seq<Seq<u8>>, line: Seq<char>|
                        #![trigger choice_line(self.spec_dict(), self.spec_included(), self.spec_lengths(), sigs, line)]
                    {
                        &&& sigs.len() == self.spec_lengths().len()
                        &&& sigs.take(word_index as int) == prefix_sigs(
                            old(state).solution@,
                            word_index as int,
                        )
                        &&& (forall|t: int|
                            word_index <= t < sigs.len() ==> key_in_section(
                                self.spec_dict(),
                                #[trigger] self.spec_lengths()[t] as int,
                                sigs[t],
                            ))
                        &&& sigs_sum_to(sigs, self.spec_target())
                        &&& choice_line(
                            self.spec_dict(),
                            self.spec_included(),
                            self.spec_lengths(),
                            sigs,
                            line,
                        )
                        &&& (exists|m0: int|
                            0 <= m0 < m + 1 && (#[trigger] section.spec_key(m0)) == sigs[word_index as int])
                    } implies contains_view(state.anagram_set@, line) by {
                    let m0 = choose|m0: int|
                        0 <= m0 < m + 1 && (#[trigger] section.spec_key(m0)) == sigs[word_index as int];
                    if m0 < m {
                        assert(contains_view(set_iter0, line));
                        let t0 = choose|t: int|
                            0 <= t < set_iter0.len() && (#[trigger] set_iter0[t])@ == line;
                        assert(state.anagram_set@[t0] == set_iter0[t0]);
                    } else {
                        assert(sigs[word_index as int] == current_signature@);
                        let j = choose|j: int|
                            0 <= j < 26 && !(entry_ws[j] + current_signature@[j]
                                <= self.spec_target()[j]);
                        assert(sigs.take(word_index as int + 1).drop_last() =~= sigs.take(
                            word_index as int,
                        ));
                        assert(sum_at(sigs.take(word_index as int), j) == entry_ws[j]) by {
                            assert(sigs.take(word_index as int) == prefix_sigs(
                                entry_solution,
                                word_index as int,
                            ));
                            assert(prefix_sigs(state.solution@, word_index as int) =~= prefix_sigs(
                                entry_solution,
                                word_index as int,
                            ));
                        }
                        assert(sum_at(sigs.take(word_index as int + 1), j) == entry_ws[j]
                            + current_signature@[j]);
                        assert forall|t: int|
                            word_index as int + 1 <= t < sigs.len() implies 0 <= j < (
                        #[trigger] sigs[t]).len() by {
                            assert(key_in_section(
                                self.spec_dict(),
                                self.spec_lengths()[t] as int,
                                sigs[t],
                            ));
                            let sect =
                                self.spec_dict().spec_sections()[self.spec_lengths()[t] as int];
                            let mk = choose|mk: int|
                                0 <= mk < sect.spec_len() && (#[trigger] sect.spec_key(mk))
                                    == sigs[t];
                            sect.lemma_key_len(mk);
                        }
                        lemma_sum_at_take_le(sigs, word_index as int + 1, j);
                        assert(sum_at(sigs, j) == self.spec_target()[j]);
                        assert(false);
                    }
                    }
                }
            }
            proof {
                assert forall|t: int| 0 <= t < word_index implies key_in_section(
                    self.spec_dict(),
                    #[trigger] self.spec_lengths()[t] as int,
                    state.solution@[t]@,
                ) by {
                    assert(state.solution@[t] == state.solution@.take(word_index as int)[t]);
                    assert(sol0[t] == sol0.take(word_index as int)[t]);
                    assert(sol0.take(word_index as int) == entry_solution.take(word_index as int));
                    assert(state.solution@[t] == sol0[t]);
                    assert(key_in_section(
                        self.spec_dict(),
                        self.spec_lengths()[t] as int,
                        sol0[t]@,
                    ));
                }
            }
            m = m + 1;
        }
        proof {
            assert forall|sigs: Seq<Seq<u8>>, line: Seq<char>|
                #![trigger choice_line(self.spec_dict(), self.spec_included(), self.spec_lengths(), sigs, line)]
                {
                    &&& sigs.len() == self.spec_lengths().len()
                    &&& sigs.take(word_index as int) == prefix_sigs(
                        old(state).solution@,
                        word_index as int,
                    )
                    &&& (forall|t: int|
                        word_index <= t < sigs.len() ==> key_in_section(
                            self.spec_dict(),
                            #[trigger] self.spec_lengths()[t] as int,
                            sigs[t],
                        ))
                    &&& sigs_sum_to(sigs, self.spec_target())
                    &&& choice_line(
                        self.spec_dict(),
                        self.spec_included(),
                        self.spec_lengths(),
                        sigs,
                        line,
                    )
                } implies contains_view(state.anagram_set@, line) by {
                assert(key_in_section(
                    self.spec_dict(),
                    self.spec_lengths()[word_index as int] as int,
                    sigs[word_index as int],
                ));
                assert(section.has_key(sigs[word_index as int]));
                let m0 = choose|m0: int|
                    0 <= m0 < section.spec_len() && (#[trigger] section.spec_key(m0))
                        == sigs[word_index as int];
            }
        }
    }

    /// Expands one complete signature assignment into concrete anagram lines.
    fn compute_solution(&self, state: &mut SearchState)
        requires
            self.wf(),
            old(state).solution@.len() == self.words_number,
            forall|t: int|
                0 <= t < self.words_number ==> key_in_section(
                    self.spec_dict(),
                    #[trigger] self.spec_lengths()[t] as int,
                    old(state).solution@[t]@,
                ),
            sigs_sum_to(
                prefix_sigs(old(state).solution@, self.words_number as int),
                self.spec_target(),
            ),
            distinct_views(old(state).anagram_set@),
            forall|t: int|
                0 <= t < old(state).anagram_set@.len() ==> self.valid_line(
                    (#[trigger] old(state).anagram_set@[t])@,
                ),
        ensures
            final(state).ws@ == old(state).ws@,
            final(state).solution@ == old(state).solution@,
            final(state).anagram_set@.len() >= old(state).anagram_set@.len(),
            forall|t: int|
                0 <= t < old(state).anagram_set@.len() ==> final(state).anagram_set@[t] == old(
                    state,
                ).anagram_set@[t],
            distinct_views(final(state).anagram_set@),
            forall|t: int|
                0 <= t < final(state).anagram_set@.len() ==> self.valid_line(
                    (#[trigger] final(state).anagram_set@[t])@,
                ),
            forall|sigs: Seq<Seq<u8>>, line: Seq<char>|
                #![trigger choice_line(self.spec_dict(), self.spec_included(), self.spec_lengths(), sigs, line)]
                (sigs == prefix_sigs(old(state).solution@, self.words_number as int) && choice_line(
                    self.spec_dict(),
                    self.spec_included(),
                    self.spec_lengths(),
                    sigs,
                    line,
                )) ==> contains_view(final(state).anagram_set@, line),
    {
        let mut anagram: Vec<String> = Vec::new();
        if !self.included_text.as_str().is_empty() {
            anagram.push(self.included_text.clone());
        }
        proof {
            assert(views_of(anagram@) =~= with_included(
                self.spec_included(),
                Seq::<Seq<char>>::empty(),
            ));
        }
        let ghost base0 = views_of(anagram@);
        let ghost sols = prefix_sigs(state.solution@, self.words_number as int);
        self.output_solution(&mut anagram, 0, state);
        proof {
            assert forall|sigs: Seq<Seq<u8>>, line: Seq<char>|
                #![trigger choice_line(self.spec_dict(), self.spec_included(), self.spec_lengths(), sigs, line)]
                (sigs == sols && choice_line(
                    self.spec_dict(),
                    self.spec_included(),
                    self.spec_lengths(),
                    sigs,
                    line,
                )) implies contains_view(state.anagram_set@, line) by {
                let (cwords, perm) = choose|cwords: Seq<Seq<char>>, perm: Seq<Seq<char>>|
                    {
                        &&& cwords.len() == self.spec_lengths().len()
                        &&& (forall|t: int|
                            0 <= t < self.spec_lengths().len() ==> word_in_slot(
                                self.spec_dict(),
                                #[trigger] self.spec_lengths()[t] as int,
                                sigs[t],
                                cwords[t],
                            ))
                        &&& perm.to_multiset() == with_included(
                            self.spec_included(),
                            cwords,
                        ).to_multiset()
                        &&& sorted_lex(perm)
                        &&& line == join_sp(perm)
                    };
                assert(base0 + cwords =~= with_included(self.spec_included(), cwords));
                assert(rest_line_ok(
                    self.spec_dict(),
                    self.spec_lengths(),
                    sols,
                    0,
                    base0,
                    cwords,
                    line,
                )) by {
                    assert(forall|t: int|
                        0 <= t < cwords.len() ==> word_in_slot(
                            self.spec_dict(),
                            #[trigger] self.spec_lengths()[0 + t] as int,
                            sols[0 + t],
                            cwords[t],
                        ));
                }
                assert(cwords.len() == self.spec_lengths().len());
                assert(line.len() == join_sp(perm).len());
            }
        }
    }

    /// Walks the Cartesian product of the word lists of the chosen
    /// signatures, canonicalizes each combination and emits the ones not seen
    /// before in this job.
    fn output_solution(&self, anagram: &mut Vec<String>, index: usize, state: &mut SearchState)
        requires
            self.wf(),
            index <= self.words_number,
            old(state).solution@.len() == self.words_number,
            forall|t: int|
                0 <= t < self.words_number ==> key_in_section(
                    self.spec_dict(),
                    #[trigger] self.spec_lengths()[t] as int,
                    old(state).solution@[t]@,
                ),
            sigs_sum_to(
                prefix_sigs(old(state).solution@, self.words_number as int),
                self.spec_target(),
            ),
            exists|words: Seq<Seq<char>>|
                {
                    &&& words.len() == index
                    &&& (forall|t: int|
                        0 <= t < index ==> word_in_slot(
                            self.spec_dict(),
                            #[trigger] self.spec_lengths()[t] as int,
                            old(state).solution@[t]@,
                            words[t],
                        ))
                    &&& views_of(old(anagram)@) == with_included(self.spec_included(), words)
                },
            distinct_views(old(state).anagram_set@),
            forall|t: int|
                0 <= t < old(state).anagram_set@.len() ==> self.valid_line(
                    (#[trigger] old(state).anagram_set@[t])@,
                ),
        ensures
            final(anagram)@ == old(anagram)@,
            final(state).ws@ == old(state).ws@,
            final(state).solution@ == old(state).solution@,
            final(state).anagram_set@.len() >= old(state).anagram_set@.len(),
            forall|t: int|
                0 <= t < old(state).anagram_set@.len() ==> final(state).anagram_set@[t] == old(
                    state,
                ).anagram_set@[t],
            distinct_views(final(state).anagram_set@),
            forall|t: int|
                0 <= t < final(state).anagram_set@.len() ==> self.valid_line(
                    (#[trigger] final(state).anagram_set@[t])@,
                ),
            forall|rest: Seq<Seq<char>>, line: Seq<char>|
                #![trigger rest.len(), line.len()]
                #![trigger rest_line_ok(
                    self.spec_dict(),
                    self.spec_lengths(),
                    prefix_sigs(old(state).solution@, self.words_number as int),
                    index as int,
                    views_of(old(anagram)@),
                    rest,
                    line,
                )]
                rest_line_ok(
                    self.spec_dict(),
                    self.spec_lengths(),
                    prefix_sigs(old(state).solution@, self.words_number as int),
                    index as int,
                    views_of(old(anagram)@),
                    rest,
                    line,
                ) ==> contains_view(final(state).anagram_set@, line),
        decreases self.words_number - index,
    {
        let ghost sols = prefix_sigs(old(state).solution@, self.words_number as int);
        let ghost base = views_of(old(anagram)@);
        if index == self.words_number {
            let ordered = sort_strings(anagram);
            let canonical = join_spaces(&ordered);
            proof {
                let words = choose|words: Seq<Seq<char>>|
                    {
                        &&& words.len() == index
                        &&& (forall|t: int|
                            0 <= t < index ==> word_in_slot(
                                self.spec_dict(),
                                #[trigger] self.spec_lengths()[t] as int,
                                old(state).solution@[t]@,
                                words[t],
                            ))
                        &&& views_of(old(anagram)@) == with_included(self.spec_included(), words)
                    };
                let sigs = prefix_sigs(old(state).solution@, self.words_number as int);
                assert(sigs.len() == self.spec_lengths().len());
                assert(forall|t: int|
                    0 <= t < self.spec_lengths().len() ==> #[trigger] sigs[t] == old(
                        state,
                    ).solution@[t]@);
                assert(forall|t: int|
                    0 <= t < self.spec_lengths().len() ==> word_in_slot(
                        self.spec_dict(),
                        #[trigger] self.spec_lengths()[t] as int,
                        sigs[t],
                        words[t],
                    ));
                assert(views_of(ordered@).to_multiset() == with_included(
                    self.spec_included(),
                    words,
                ).to_multiset());
                assert(canonical@ == join_sp(views_of(ordered@)));
                assert(choice_line(
                    self.spec_dict(),
                    self.spec_included(),
                    self.spec_lengths(),
                    sigs,
                    canonical@,
                ));
                assert(self.valid_line(canonical@));
            }
            let ghost canon_view = canonical@;
            let already = contains_string(&state.anagram_set, &canonical);
            if !already {
                state.anagram_set.push(canonical);
                proof {
                    assert(state.anagram_set@[state.anagram_set@.len() - 1]@ == canon_view);
                }
            } else {
                proof {
                    let t0 = choose|t: int|
                        0 <= t < state.anagram_set@.len() && (#[trigger] state.anagram_set@[t])@
                            == canon_view;
                    assert(state.anagram_set@[t0]@ == canon_view);
                }
            }
            proof {
                assert(contains_view(state.anagram_set@, canon_view));
                assert forall|rest: Seq<Seq<char>>, line: Seq<char>|
                    #![trigger rest.len(), line.len()]
                    #![trigger rest_line_ok(self.spec_dict(), self.spec_lengths(), sols, index as int, base, rest, line)]
                    rest_line_ok(
                        self.spec_dict(),
                        self.spec_lengths(),
                        sols,
                        index as int,
                        base,
                        rest,
                        line,
                    ) implies contains_view(state.anagram_set@, line) by {
                    assert(rest =~= Seq::<Seq<char>>::empty());
                    assert(base + rest =~= base);
                    let perm = choose|perm: Seq<Seq<char>>|
                        {
                            &&& perm.to_multiset() == (base + rest).to_multiset()
                            &&& sorted_lex(perm)
                            &&& line == join_sp(perm)
                        };
                    assert(views_of(ordered@).to_multiset() == base.to_multiset());
                    crate::text::lemma_sorted_lex_same_multiset_equal(perm, views_of(ordered@));
                    assert(line == canon_view);
                }
            }
            return ;
        }

        let sig: Signature = state.solution[index];
        proof {
            assert(key_in_section(
                self.spec_dict(),
                self.spec_lengths()[index as int] as int,
                sig@,
            ));
            assert(sum_counts(sig@) == self.spec_lengths()[index as int] as int);
        }
        let words = self.dictionarium.get_words(&sig);
        proof {
            assert(sols[index as int] == sig@);
        }
        let ghost found_m = choose|m: int|
            0 <= m < self.spec_dict().spec_sections()[sum_counts(sig@)].spec_len()
                && self.spec_dict().spec_sections()[sum_counts(sig@)].spec_key(m) == sig@ && words@
                == (#[trigger] self.spec_dict().spec_sections()[sum_counts(sig@)].spec_words(m));
        let wn = words.len();
        let ghost entry_anagram = old(anagram)@;
        let mut wi: usize = 0;
        while wi < wn
            invariant
                self.wf(),
                index < self.words_number,
                wn == words@.len(),
                wi <= wn,
                sig == old(state).solution@[index as int],
                forall|t: int|
                    0 <= t < wn ==> word_in_slot(
                        self.spec_dict(),
                        self.spec_lengths()[index as int] as int,
                        sig@,
                        (#[trigger] words@[t])@,
                    ),
                anagram@ == entry_anagram,
                entry_anagram == old(anagram)@,
                base == views_of(old(anagram)@),
                sols == prefix_sigs(old(state).solution@, self.words_number as int),
                state.solution@ == old(state).solution@,
                state.ws@ == old(state).ws@,
                state.solution@.len() == self.words_number,
                forall|t: int|
                    0 <= t < self.words_number ==> key_in_section(
                        self.spec_dict(),
                        #[trigger] self.spec_lengths()[t] as int,
                        state.solution@[t]@,
                    ),
                sigs_sum_to(
                    prefix_sigs(state.solution@, self.words_number as int),
                    self.spec_target(),
                ),
                exists|words0: Seq<Seq<char>>|
                    {
                        &&& words0.len() == index
                        &&& (forall|t: int|
                            0 <= t < index ==> word_in_slot(
                                self.spec_dict(),
                                #[trigger] self.spec_lengths()[t] as int,
                                state.solution@[t]@,
                                words0[t],
                            ))
                        &&& views_of(anagram@) == with_included(self.spec_included(), words0)
                    },
                state.anagram_set@.len() >= old(state).anagram_set@.len(),
                forall|t: int|
                    0 <= t < old(state).anagram_set@.len() ==> state.anagram_set@[t] == old(
                        state,
                    ).anagram_set@[t],
                distinct_views(state.anagram_set@),
                forall|t: int|
                    0 <= t < state.anagram_set@.len() ==> self.valid_line(
                        (#[trigger] state.anagram_set@[t])@,
                    ),
                forall|rest: Seq<Seq<char>>, line: Seq<char>|
                    #![trigger rest.len(), line.len()]
                    #![trigger rest_line_ok(self.spec_dict(), self.spec_lengths(), sols, index as int, base, rest, line)]
                    (rest_line_ok(
                        self.spec_dict(),
                        self.spec_lengths(),
                        sols,
                        index as int,
                        base,
                        rest,
                        line,
                    ) && (exists|wi0: int|
                        0 <= wi0 < wi && rest[0] == (#[trigger] words@[wi0])@)) ==> contains_view(
                        state.anagram_set@,
                        line,
                    ),
            decreases wn - wi,
        {
            let ghost set_iter0 = state.anagram_set@;
            let w = words[wi].clone();
            let ghost anagram_before = anagram@;
            anagram.push(w);
            proof {
                let words0 = choose|words0: Seq<Seq<char>>|
                    {
                        &&& words0.len() == index
                        &&& (forall|t: int|
                            0 <= t < index ==> word_in_slot(
                                self.spec_dict(),
                                #[trigger] self.spec_lengths()[t] as int,
                                state.solution@[t]@,
                                words0[t],
                            ))
                        &&& views_of(anagram_before) == with_included(self.spec_included(), words0)
                    };
                let words1 = words0.push(words@[wi as int]@);
                assert(w == words@[wi as int]);
                assert(views_of(anagram@) =~= views_of(anagram_before).push(words@[wi as int]@));
                assert(with_included(self.spec_included(), words1) =~= with_included(
                    self.spec_included(),
                    words0,
                ).push(words@[wi as int]@));
                assert(word_in_slot(
                    self.spec_dict(),
                    self.spec_lengths()[index as int] as int,
                    state.solution@[index as int]@,
                    words1[index as int],
                ));
                assert(views_of(anagram@) =~= with_included(self.spec_included(), words1));
                assert(views_of(anagram_before) =~= base);
                assert(words1.len() == index + 1);
                assert(forall|t: int|
                    0 <= t < index + 1 ==> word_in_slot(
                        self.spec_dict(),
                        #[trigger] self.spec_lengths()[t] as int,
                        state.solution@[t]@,
                        words1[t],
                    ));
            }
            let ghost pushed_views = views_of(anagram@);
            self.output_solution(anagram, index + 1, state);
            let _ = anagram.pop();
            proof {
                assert(anagram@ =~= entry_anagram);
                assert forall|rest: Seq<Seq<char>>, line: Seq<char>|
                    #![trigger rest.len(), line.len()]
                    #![trigger rest_line_ok(self.spec_dict(), self.spec_lengths(), sols, index as int, base, rest, line)]
                    (rest_line_ok(
                        self.spec_dict(),
                        self.spec_lengths(),
                        sols,
                        index as int,
                        base,
                        rest,
                        line,
                    ) && (exists|wi0: int|
                        0 <= wi0 < wi + 1 && rest[0] == (#[trigger] words@[wi0])@)) implies
                    contains_view(state.anagram_set@, line) by {
                    assert(rest.len() >= 0 && line.len() >= 0);
                    let wi0 = choose|wi0: int| 0 <= wi0 < wi + 1 && rest[0] == words@[wi0]@;
                    if wi0 < wi {
                        assert(contains_view(set_iter0, line));
                        let t0 = choose|t: int|
                            0 <= t < set_iter0.len() && (#[trigger] set_iter0[t])@ == line;
                        assert(state.anagram_set@[t0] == set_iter0[t0]);
                    } else {
                        assert(rest[0] == words@[wi as int]@);
                        let rest2 = rest.skip(1);
                        assert(rest2.len() == self.spec_lengths().len() - (index + 1));
                        assert forall|t: int|
                            0 <= t < rest2.len() implies word_in_slot(
                            self.spec_dict(),
                            #[trigger] self.spec_lengths()[index + 1 + t] as int,
                            sols[index + 1 + t],
                            rest2[t],
                        ) by {
                            assert(rest2[t] == rest[t + 1]);
                            assert(word_in_slot(
                                self.spec_dict(),
                                self.spec_lengths()[index + (t + 1)] as int,
                                sols[index + (t + 1)],
                                rest[t + 1],
                            ));
                        }
                        assert(base.push(words@[wi as int]@) + rest2 =~= base + rest);
                        assert(pushed_views =~= base.push(words@[wi as int]@));
                        let perm = choose|perm: Seq<Seq<char>>|
                            {
                                &&& perm.to_multiset() == (base + rest).to_multiset()
                                &&& sorted_lex(perm)
                                &&& line == join_sp(perm)
                            };
                        assert(perm.to_multiset() == (base.push(words@[wi as int]@)
                            + rest2).to_multiset());
                        assert(rest2.len() >= 0 && line.len() >= 0);
                        assert(rest_line_ok(
                            self.spec_dict(),
                            self.spec_lengths(),
                            sols,
                            index + 1,
                            pushed_views,
                            rest2,
                            line,
                        ));
                    }
                }
            }
            wi = wi + 1;
        }
        proof {
            assert forall|rest: Seq<Seq<char>>, line: Seq<char>|
                #![trigger rest.len(), line.len()]
                #![trigger rest_line_ok(self.spec_dict(), self.spec_lengths(), sols, index as int, base, rest, line)]
                rest_line_ok(
                    self.spec_dict(),
                    self.spec_lengths(),
                    sols,
                    index as int,
                    base,
                    rest,
                    line,
                ) implies contains_view(state.anagram_set@, line) by {
                assert(rest.len() >= 0 && line.len() >= 0);
                assert(rest.len() == self.spec_lengths().len() - index >= 1);
                assert(word_in_slot(
                    self.spec_dict(),
                    self.spec_lengths()[index + 0] as int,
                    sols[index + 0],
                    rest[0],
                ));
                let section = self.spec_dict().spec_sections()[self.spec_lengths()[index as int] as int];
                let (m0, wi2) = choose|m0: int, wi2: int|
                    0 <= m0 < section.spec_len() && section.spec_key(m0) == sols[index as int] && 0
                        <= wi2 < section.spec_words(m0).len()
                        && (#[trigger] section.spec_words(m0)[wi2])@ == rest[0];
                assert(sum_counts(sig@) == self.spec_lengths()[index as int] as int);
                assert(section.spec_key(found_m) == sig@);
                section.lemma_key_unique(m0, found_m);
                assert(rest[0] == words@[wi2]@);
                assert(wi2 < wn);
            }
        }
    }
}

} // verus!
