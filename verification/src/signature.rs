//! Letter-count signatures: the order-independent multiset-of-letters form of
//! a word or phrase, with the arithmetic the anagram search is built on.

use vstd::prelude::*;

verus! {

/// True iff `c` is one of the lowercase ASCII letters `a` to `z`.
pub open spec fn is_az(c: char) -> bool {
    97 <= c as u32 <= 122
}

/// The slot of letter `c` in a signature's count table.
pub open spec fn letter_index(c: char) -> int {
    c as u32 - 97
}

/// How many times the letter of slot `j` occurs in `s`.
pub open spec fn count_letter(s: Seq<char>, j: int) -> nat
    decreases s.len(),
{
    if s.len() == 0 {
        0
    } else {
        count_letter(s.drop_last(), j) + if letter_index(s.last()) == j {
            1nat
        } else {
            0nat
        }
    }
}

/// The letter-count signature of a word or phrase.
///
/// One count per letter `a` to `z`; the view is the sequence of the 26 counts.
#[derive(Clone, Copy)]
pub struct Signature {
    table: [u8; 26],
}

impl View for Signature {
    type V = Seq<u8>;

    closed spec fn view(&self) -> Seq<u8> {
        self.table@
    }
}

/// Every signature carries exactly one count per letter of the alphabet.
pub broadcast proof fn lemma_signature_len(s: Signature)
    ensures
        (#[trigger] s@).len() == 26,
{
}

/// Elementwise `a[j] <= b[j]`: the multiset `a` is contained in `b`.
pub open spec fn spec_subset(a: Seq<u8>, b: Seq<u8>) -> bool {
    a.len() == b.len() && forall|j: int| 0 <= j < a.len() ==> a[j] <= b[j]
}

/// True iff the counts `a` and `b` can be added slot by slot without leaving
/// the range of a count.
pub open spec fn spec_addable(a: Seq<u8>, b: Seq<u8>) -> bool {
    a.len() == b.len() && forall|j: int| 0 <= j < a.len() ==> a[j] + b[j] <= 255
}

/// The slot-by-slot sum of two count tables.
pub open spec fn sig_add(a: Seq<u8>, b: Seq<u8>) -> Seq<u8> {
    Seq::new(a.len(), |j: int| (a[j] + b[j]) as u8)
}

/// The slot-by-slot difference of two count tables.
pub open spec fn sig_sub(a: Seq<u8>, b: Seq<u8>) -> Seq<u8> {
    Seq::new(a.len(), |j: int| (a[j] - b[j]) as u8)
}

/// The sum of all counts of `s`.
pub open spec fn sum_counts(s: Seq<u8>) -> int
    decreases s.len(),
{
    if s.len() == 0 {
        0
    } else {
        sum_counts(s.drop_last()) + s.last()
    }
}

impl Signature {
    /// The signature of `word`, which must hold lowercase ASCII letters only,
    /// none of them more often than a count slot can hold.
    pub fn new(word: &str) -> (r: Signature)
        requires
            forall|i: int| 0 <= i < word@.len() ==> is_az(word@[i]),
            forall|j: int| 0 <= j < 26 ==> count_letter(word@, j) <= 255,
        ensures
            r@.len() == 26,
            forall|j: int| 0 <= j < 26 ==> r@[j] == count_letter(word@, j),
    {
        let mut table: [u8; 26] = [0; 26];
        let n = word.unicode_len();
        let mut i: usize = 0;
        while i < n
            invariant
                n == word@.len(),
                forall|k: int| 0 <= k < word@.len() ==> is_az(word@[k]),
                forall|j: int| 0 <= j < 26 ==> count_letter(word@, j) <= 255,
                i <= n,
                forall|j: int| 0 <= j < 26 ==> table@[j] == count_letter(word@.take(i as int), j),
            decreases n - i,
        {
            let c = word.get_char(i);
            let idx = (c as u32 - 97) as usize;
            proof {
                assert(word@.take(i as int + 1).drop_last() =~= word@.take(i as int));
                assert(count_letter(word@.take(i as int + 1), idx as int)
                    == count_letter(word@.take(i as int), idx as int) + 1);
                lemma_count_letter_take_bound(word@, idx as int, i as int + 1);
                assert(forall|j: int| 0 <= j < 26 && j != idx ==> count_letter(
                    word@.take(i as int + 1), j) == count_letter(word@.take(i as int), j));
            }
            table[idx] = table[idx] + 1;
            i = i + 1;
        }
        proof {
            assert(word@.take(n as int) =~= word@);
        }
        Signature { table }
    }

    /// The empty signature: every count zero.
    pub fn new_empty() -> (r: Signature)
        ensures
            r@.len() == 26,
            forall|j: int| 0 <= j < 26 ==> r@[j] == 0,
    {
        let table: [u8; 26] = [0; 26];
        Signature { table }
    }

    /// Adds `other` to this signature, count by count.
    pub fn add(&mut self, other: &Signature)
        requires
            spec_addable(old(self)@, other@),
        ensures
            final(self)@ == sig_add(old(self)@, other@),
            forall|j: int| 0 <= j < 26 ==> final(self)@[j] == old(self)@[j] + other@[j],
    {
        let mut i: usize = 0;
        while i < 26
            invariant
                i <= 26,
                forall|j: int| 0 <= j < 26 ==> old(self)@[j] + other@[j] <= 255,
                forall|j: int| i <= j < 26 ==> self@[j] == old(self)@[j],
                forall|j: int| 0 <= j < i ==> self@[j] == old(self)@[j] + other@[j],
            decreases 26 - i,
        {
            proof {
                assert(self@[i as int] == old(self)@[i as int]);
                assert(old(self)@[i as int] + other@[i as int] <= 255);
            }
            self.table[i] = self.table[i] + other.table[i];
            i = i + 1;
        }
        proof {
            assert(self@ =~= sig_add(old(self)@, other@));
        }
    }

    /// Subtracts `other` from this signature; `other` must be a subset.
    pub fn sub(&mut self, other: &Signature)
        requires
            spec_subset(other@, old(self)@),
        ensures
            final(self)@ == sig_sub(old(self)@, other@),
            forall|j: int| 0 <= j < 26 ==> final(self)@[j] == old(self)@[j] - other@[j],
    {
        let mut i: usize = 0;
        while i < 26
            invariant
                i <= 26,
                spec_subset(other@, old(self)@),
                forall|j: int| i <= j < 26 ==> self@[j] == old(self)@[j],
                forall|j: int| 0 <= j < i ==> self@[j] == old(self)@[j] - other@[j],
            decreases 26 - i,
        {
            self.table[i] = self.table[i] - other.table[i];
            i = i + 1;
        }
        proof {
            assert(self@ =~= sig_sub(old(self)@, other@));
        }
    }

    /// Adds `other` to this signature exactly when the sum stays within
    /// `bound`, count by count; otherwise leaves this signature as it is and
    /// reports the failure. This is the pruning step of the search: a partial
    /// sum that left `bound` can never reach it again.
    pub fn add_if_within(&mut self, other: &Signature, bound: &Signature) -> (r: bool)
        ensures
            r == (forall|j: int| 0 <= j < 26 ==> old(self)@[j] + other@[j] <= bound@[j]),
            r ==> final(self)@ == sig_add(old(self)@, other@),
            !r ==> final(self)@ == old(self)@,
    {
        let mut i: usize = 0;
        while i < 26
            invariant
                i <= 26,
                self == old(self),
                forall|j: int| 0 <= j < i ==> old(self)@[j] + other@[j] <= bound@[j],
            decreases 26 - i,
        {
            if (self.table[i] as u16) + (other.table[i] as u16) > (bound.table[i] as u16) {
                proof {
                    assert(old(self)@[i as int] + other@[i as int] > bound@[i as int]);
                }
                return false;
            }
            i = i + 1;
        }
        self.add(other);
        true
    }

    /// True iff every count of this signature is at most the matching count of
    /// `other`.
    pub fn is_subset_of(&self, other: &Signature) -> (r: bool)
        ensures
            r == spec_subset(self@, other@),
    {
        let mut i: usize = 0;
        while i < 26
            invariant
                i <= 26,
                forall|j: int| 0 <= j < i ==> self@[j] <= other@[j],
            decreases 26 - i,
        {
            if self.table[i] > other.table[i] {
                return false;
            }
            i = i + 1;
        }
        true
    }

    /// The total number of letters the signature counts.
    pub fn get_char_number(&self) -> (r: usize)
        ensures
            r == sum_counts(self@),
    {
        let mut s: usize = 0;
        let mut i: usize = 0;
        while i < 26
            invariant
                i <= 26,
                s == sum_counts(self@.take(i as int)),
                s <= i * 255,
            decreases 26 - i,
        {
            proof {
                assert(self@.take(i as int + 1).drop_last() =~= self@.take(i as int));
            }
            s = s + self.table[i] as usize;
            i = i + 1;
        }
        proof {
            assert(self@.take(26) =~= self@);
        }
        s
    }
}

/// Checks that no letter of `word` occurs more often than a count slot can
/// hold. Characters outside `a` to `z` touch no slot.
pub fn counts_fit(word: &str) -> (r: bool)
    ensures
        r == fits_counts(word@),
{
    let mut table: [usize; 26] = [0; 26];
    let n = word.unicode_len();
    let mut i: usize = 0;
    while i < n
        invariant
            n == word@.len(),
            i <= n,
            forall|j: int| 0 <= j < 26 ==> table@[j] == count_letter(word@.take(i as int), j),
            forall|j: int| 0 <= j < 26 ==> table@[j] <= i,
        decreases n - i,
    {
        let c = word.get_char(i);
        let u = c as u32;
        proof {
            assert(word@.take(i as int + 1).drop_last() =~= word@.take(i as int));
        }
        if 97 <= u && u <= 122 {
            let idx = (u - 97) as usize;
            table[idx] = table[idx] + 1;
        }
        i = i + 1;
    }
    proof {
        assert(word@.take(n as int) =~= word@);
    }
    let mut j: usize = 0;
    while j < 26
        invariant
            j <= 26,
            forall|t: int| 0 <= t < 26 ==> table@[t] == count_letter(word@, t),
            forall|t: int| 0 <= t < j ==> count_letter(word@, t) <= 255,
        decreases 26 - j,
    {
        if table[j] > 255 {
            return false;
        }
        j = j + 1;
    }
    true
}

/// The 26 lowercase letters, in order, as the counts of a signature index
/// them.
pub open spec fn alphabet() -> Seq<char> {
    seq![
        'a', 'b', 'c', 'd', 'e', 'f', 'g', 'h', 'i', 'j', 'k', 'l', 'm', 'n', 'o', 'p', 'q', 'r',
        's', 't', 'u', 'v', 'w', 'x', 'y', 'z',
    ]
}

/// `n` copies of the character `c`.
pub open spec fn repeat_char(c: char, n: nat) -> Seq<char> {
    Seq::new(n, |i: int| c)
}

/// The canonical string of the counts `s[..k]`: each letter expanded to as
/// many copies as its count, letters in alphabetical order.
pub open spec fn canon_prefix(s: Seq<u8>, k: int) -> Seq<char>
    decreases k,
{
    if k <= 0 {
        Seq::empty()
    } else {
        canon_prefix(s, k - 1) + repeat_char(alphabet()[k - 1], s[k - 1] as nat)
    }
}

/// The canonical string of a whole signature (for example counts a=2, b=1
/// give `aab`).
pub open spec fn canon_of(s: Seq<u8>) -> Seq<char> {
    canon_prefix(s, 26)
}

/// The one-letter string for count slot `i`.
fn letter_str(i: usize) -> (r: &'static str)
    requires
        i < 26,
    ensures
        r@ =~= seq![alphabet()[i as int]],
{
    let lit = "abcdefghijklmnopqrstuvwxyz";
    proof {
        reveal_strlit("abcdefghijklmnopqrstuvwxyz");
        assert(lit@ =~= alphabet());
    }
    let r = lit.substring_char(i, i + 1);
    proof {
        assert(r@ =~= seq![alphabet()[i as int]]);
    }
    r
}

impl Signature {
    /// The canonical string form of the signature: its letters in
    /// alphabetical order, each repeated as often as it is counted.
    pub fn to_string(&self) -> (r: String)
        ensures
            r@ == canon_of(self@),
    {
        let mut out = String::new();
        let mut i: usize = 0;
        while i < 26
            invariant
                i <= 26,
                out@ == canon_prefix(self@, i as int),
            decreases 26 - i,
        {
            let cnt = self.table[i];
            let piece = letter_str(i);
            let mut t: u8 = 0;
            while t < cnt
                invariant
                    t <= cnt,
                    i < 26,
                    cnt == self@[i as int],
                    piece@ =~= seq![alphabet()[i as int]],
                    out@ == canon_prefix(self@, i as int) + repeat_char(
                        alphabet()[i as int],
                        t as nat,
                    ),
                decreases cnt - t,
            {
                out.append(piece);
                proof {
                    assert(repeat_char(alphabet()[i as int], (t + 1) as nat) =~= repeat_char(
                        alphabet()[i as int],
                        t as nat,
                    ) + seq![alphabet()[i as int]]);
                }
                t = t + 1;
            }
            proof {
                assert(out@ == canon_prefix(self@, i as int + 1));
            }
            i = i + 1;
        }
        out
    }
}

impl PartialEq for Signature {
    /// Two signatures are equal exactly when every count matches.
    fn eq(&self, other: &Signature) -> (r: bool) {
        let mut i: usize = 0;
        while i < 26
            invariant
                i <= 26,
                forall|j: int| 0 <= j < i ==> self@[j] == other@[j],
            decreases 26 - i,
        {
            if self.table[i] != other.table[i] {
                return false;
            }
            i = i + 1;
        }
        proof {
            assert(self@ =~= other@);
        }
        true
    }
}

impl vstd::std_specs::cmp::PartialEqSpecImpl for Signature {
    open spec fn obeys_eq_spec() -> bool {
        true
    }

    open spec fn eq_spec(&self, other: &Signature) -> bool {
        self@ == other@
    }
}

impl Eq for Signature {

}

/// The starting state of the FNV-1a mix.
pub const FNV_OFFSET_BASIS: u64 = 0xcbf29ce484222325;

/// The FNV-1a multiplier.
pub const FNV_PRIME: u64 = 0x100000001b3;

/// One FNV-1a mixing step: fold `v` into the running state `h`.
pub open spec fn fnv_step(h: u64, v: u64) -> u64 {
    (h ^ v).wrapping_mul(FNV_PRIME)
}

/// The FNV-1a state after folding every byte of `bytes` into `h`.
pub open spec fn fnv_bytes(h: u64, bytes: Seq<u8>) -> u64
    decreases bytes.len(),
{
    if bytes.len() == 0 {
        h
    } else {
        fnv_step(fnv_bytes(h, bytes.drop_last()), bytes.last() as u64)
    }
}

/// The hash of a signature's counts: a pure function of the counts, so any
/// two equal signatures hash identically.
pub open spec fn spec_hash(s: Seq<u8>) -> u64 {
    fnv_bytes(FNV_OFFSET_BASIS, s)
}

/// An FNV-1a mixing state, folded over values one at a time.
pub struct FnvHasher {
    hash: u64,
}

impl View for FnvHasher {
    type V = u64;

    closed spec fn view(&self) -> u64 {
        self.hash
    }
}

impl Default for FnvHasher {
    /// A fresh state, at the FNV offset basis.
    fn default() -> (r: FnvHasher)
        ensures
            r@ == FNV_OFFSET_BASIS,
    {
        FnvHasher { hash: FNV_OFFSET_BASIS }
    }
}

impl FnvHasher {
    /// The state mixed so far.
    pub fn finish(&self) -> (r: u64)
        ensures
            r == self@,
    {
        self.hash
    }

    /// Folds one 64-bit value into the state.
    pub fn write_u64(&mut self, i: u64)
        ensures
            final(self)@ == fnv_step(old(self)@, i),
    {
        self.hash = (self.hash ^ i).wrapping_mul(FNV_PRIME);
    }

    /// Folds one 16-bit value into the state.
    pub fn write_u16(&mut self, i: u16)
        ensures
            final(self)@ == fnv_step(old(self)@, i as u64),
    {
        self.write_u64(i as u64);
    }

    /// Folds a run of bytes into the state, one byte at a time.
    pub fn write(&mut self, bytes: &[u8])
        ensures
            final(self)@ == fnv_bytes(old(self)@, bytes@),
    {
        let n = bytes.len();
        let mut i: usize = 0;
        while i < n
            invariant
                n == bytes@.len(),
                i <= n,
                self@ == fnv_bytes(old(self)@, bytes@.take(i as int)),
            decreases n - i,
        {
            proof {
                assert(bytes@.take(i as int + 1).drop_last() =~= bytes@.take(i as int));
            }
            self.hash = (self.hash ^ (bytes[i] as u64)).wrapping_mul(FNV_PRIME);
            i = i + 1;
        }
        proof {
            assert(bytes@.take(n as int) =~= bytes@);
        }
    }
}

impl Signature {
    /// The FNV-1a hash of the counts. Equal signatures hash identically,
    /// since the result is a function of the counts alone.
    pub fn hash_value(&self) -> (r: u64)
        ensures
            r == spec_hash(self@),
    {
        let mut hasher = FnvHasher::default();
        hasher.write(self.table.as_slice());
        hasher.finish()
    }
}

/// Adding a signature and then subtracting it again gives back the original
/// counts, whenever the addition stays in range.
pub proof fn lemma_add_sub_round_trip(a: Seq<u8>, b: Seq<u8>)
    requires
        a.len() == 26,
        b.len() == 26,
        spec_addable(a, b),
    ensures
        spec_subset(b, sig_add(a, b)),
        sig_sub(sig_add(a, b), b) == a,
{
    assert(sig_sub(sig_add(a, b), b) =~= a);
}

/// When `a` is a subset of `b`, subtracting `a` from `b` is defined and
/// yields the complement: adding `a` back restores `b`.
pub proof fn lemma_subset_sub_complement(a: Seq<u8>, b: Seq<u8>)
    requires
        a.len() == 26,
        b.len() == 26,
        spec_subset(a, b),
    ensures
        spec_subset(sig_sub(b, a), b),
        spec_addable(a, sig_sub(b, a)),
        sig_add(a, sig_sub(b, a)) == b,
{
    assert(sig_add(a, sig_sub(b, a)) =~= b);
}

/// The counts of every letter of `s`, as one table.
pub open spec fn counts_of(s: Seq<char>) -> Seq<u8> {
    Seq::new(26, |j: int| count_letter(s, j) as u8)
}

/// True iff every letter of `s` occurs few enough times for a count slot.
pub open spec fn fits_counts(s: Seq<char>) -> bool {
    forall|j: int| 0 <= j < 26 ==> count_letter(s, j) <= 255
}

/// A letter occurs at most as often as the sequence is long.
pub proof fn lemma_count_letter_le_len(s: Seq<char>, j: int)
    ensures
        count_letter(s, j) <= s.len(),
    decreases s.len(),
{
    if s.len() > 0 {
        lemma_count_letter_le_len(s.drop_last(), j);
    }
}

/// A table of zero counts sums to zero.
proof fn lemma_sum_counts_zero(a: Seq<u8>)
    requires
        forall|j: int| 0 <= j < a.len() ==> a[j] == 0,
    ensures
        sum_counts(a) == 0,
    decreases a.len(),
{
    if a.len() > 0 {
        lemma_sum_counts_zero(a.drop_last());
    }
}

/// Raising one count by one raises the sum by one.
proof fn lemma_sum_counts_bump(a: Seq<u8>, b: Seq<u8>, k: int)
    requires
        a.len() == b.len(),
        0 <= k < a.len(),
        b[k] == a[k] + 1,
        forall|j: int| 0 <= j < a.len() && j != k ==> a[j] == b[j],
    ensures
        sum_counts(b) == sum_counts(a) + 1,
    decreases a.len(),
{
    if k == a.len() - 1 {
        assert(a.drop_last() =~= b.drop_last());
    } else {
        lemma_sum_counts_bump(a.drop_last(), b.drop_last(), k);
    }
}

/// For a word of lowercase letters, the counts of its signature sum to its
/// length.
pub proof fn lemma_sum_counts_len(s: Seq<char>)
    requires
        forall|i: int| 0 <= i < s.len() ==> is_az(s[i]),
        fits_counts(s),
    ensures
        sum_counts(counts_of(s)) == s.len(),
    decreases s.len(),
{
    if s.len() == 0 {
        lemma_sum_counts_zero(counts_of(s));
    } else {
        let p = s.drop_last();
        let k = letter_index(s.last());
        assert(forall|j: int| 0 <= j < 26 ==> count_letter(p, j) <= count_letter(s, j)) by {
            assert forall|j: int| 0 <= j < 26 implies count_letter(p, j) <= count_letter(s, j) by {
                lemma_count_letter_take_bound(s, j, s.len() - 1);
                assert(s.take(s.len() - 1) =~= p);
            }
        }
        lemma_sum_counts_len(p);
        lemma_sum_counts_bump(counts_of(p), counts_of(s), k);
    }
}

/// A table of counts sums to at most 255 for each of its slots.
pub proof fn lemma_sum_counts_bound(s: Seq<u8>)
    ensures
        sum_counts(s) <= s.len() * 255,
    decreases s.len(),
{
    if s.len() > 0 {
        lemma_sum_counts_bound(s.drop_last());
    }
}

/// A prefix of `s` never holds more copies of a letter than `s` itself.
proof fn lemma_count_letter_take_bound(s: Seq<char>, j: int, i: int)
    requires
        0 <= i <= s.len(),
    ensures
        count_letter(s.take(i), j) <= count_letter(s, j),
    decreases s.len() - i,
{
    if i < s.len() {
        assert(s.take(i + 1).drop_last() =~= s.take(i));
        lemma_count_letter_take_bound(s, j, i + 1);
    } else {
        assert(s.take(i) =~= s);
    }
}

} // verus!
