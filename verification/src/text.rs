//! Text groundwork: normalization of words and phrases, lexicographic order
//! on strings, sorting and joining of token lists, and word counting.

use unicode_normalization::UnicodeNormalization;
use vstd::multiset::Multiset;
use vstd::prelude::*;

verus! {

/// The canonical decomposition (Unicode NFD) of a character sequence: a
/// function of the characters alone.
pub uninterp spec fn nfd_of(s: Seq<char>) -> Seq<char>;

/// The lowercase form of a character sequence, as full-string case folding
/// computes it: a function of the characters alone.
pub uninterp spec fn lower_of(s: Seq<char>) -> Seq<char>;

/// Whether a character counts as alphabetic: a function of the character
/// alone.
pub uninterp spec fn spec_alphabetic(c: char) -> bool;

/// Relies on `unicode_normalization::UnicodeNormalization::nfd`: the canonical
/// decomposition of the characters of `s`, in order. ASCII text is already in
/// canonical form and comes back unchanged.
#[verifier::external_body]
fn nfd_chars(s: &str) -> (r: Vec<char>)
    ensures
        r@ == nfd_of(s@),
        s@.len() == 0 ==> r@.len() == 0,
        (forall|i: int| 0 <= i < s@.len() ==> (s@[i] as u32) < 128) ==> r@ == s@,
{
    s.nfd().collect()
}

/// Relies on `char::is_alphabetic`: a predicate on the character alone; the
/// lowercase ASCII letters are alphabetic.
#[verifier::external_body]
fn char_is_alphabetic(c: char) -> (r: bool)
    ensures
        r == spec_alphabetic(c),
        crate::signature::is_az(c) ==> r,
{
    c.is_alphabetic()
}

/// Relies on `String`'s `FromIterator<char>`: the collected string holds
/// exactly the characters of `v`, in order.
#[verifier::external_body]
fn chars_to_string(v: &Vec<char>) -> (r: String)
    ensures
        r@ == v@,
{
    v.iter().collect()
}

/// Relies on `str::to_lowercase`: the lowercase form of the whole string, a
/// function of its characters alone; an empty string stays empty, and a
/// string of lowercase ASCII letters is its own lowercase form.
#[verifier::external_body]
fn to_lowercase_str(s: &str) -> (r: String)
    ensures
        r@ == lower_of(s@),
        s@.len() == 0 ==> r@.len() == 0,
        all_az(s@) ==> r@ == s@,
{
    s.to_lowercase()
}

/// The alphabetic characters of `s`, in order.
pub open spec fn keep_alphabetic(s: Seq<char>) -> Seq<char> {
    s.filter(|c: char| spec_alphabetic(c))
}

/// What normalization turns a raw word or phrase into: canonical
/// decomposition, then only the alphabetic characters, then lowercase.
pub open spec fn norm_of(s: Seq<char>) -> Seq<char> {
    lower_of(keep_alphabetic(nfd_of(s)))
}

/// Normalizes a string: canonical decomposition, alphabetic characters only,
/// lowercased. A string already in plain lowercase letters comes back
/// unchanged, so normalizing twice equals normalizing once.
pub fn normalize_string(s: &str) -> (r: String)
    ensures
        r@ == norm_of(s@),
        all_az(s@) ==> r@ == s@,
{
    proof {
        if all_az(s@) {
            assert(forall|i: int|
                0 <= i < s@.len() ==> (#[trigger] (s@[i] as u32)) < 128) by {
                assert(forall|i: int|
                    0 <= i < s@.len() ==> crate::signature::is_az(#[trigger] s@[i]));
            }
        }
    }
    let decomposed = nfd_chars(s);
    let n = decomposed.len();
    let mut kept: Vec<char> = Vec::new();
    let mut i: usize = 0;
    while i < n
        invariant
            n == decomposed@.len(),
            i <= n,
            kept@ == decomposed@.take(i as int).filter(|c: char| spec_alphabetic(c)),
            all_az(s@) ==> decomposed@ == s@,
            all_az(s@) ==> kept@ == decomposed@.take(i as int),
        decreases n - i,
    {
        let c = decomposed[i];
        proof {
            reveal(Seq::filter);
            assert(decomposed@.take(i as int + 1).drop_last() =~= decomposed@.take(i as int));
        }
        let alphabetic = char_is_alphabetic(c);
        proof {
            if all_az(s@) {
                assert(crate::signature::is_az(decomposed@[i as int]));
                assert(alphabetic);
            }
        }
        if alphabetic {
            kept.push(c);
        }
        i = i + 1;
    }
    proof {
        assert(decomposed@.take(n as int) =~= decomposed@);
    }
    let kept_str = chars_to_string(&kept);
    proof {
        if all_az(s@) {
            assert(kept_str@ == s@);
            assert(all_az(kept_str@));
        }
    }
    to_lowercase_str(kept_str.as_str())
}

/// True iff every character of `s` is a lowercase ASCII letter.
pub open spec fn all_az(s: Seq<char>) -> bool {
    forall|i: int| 0 <= i < s.len() ==> crate::signature::is_az(s[i])
}

/// Checks that every character of `s` is a lowercase ASCII letter.
pub fn check_all_az(s: &str) -> (r: bool)
    ensures
        r == all_az(s@),
{
    let n = s.unicode_len();
    let mut i: usize = 0;
    while i < n
        invariant
            n == s@.len(),
            i <= n,
            forall|j: int| 0 <= j < i ==> crate::signature::is_az(s@[j]),
        decreases n - i,
    {
        let c = s.get_char(i);
        let u = c as u32;
        if u < 97 || u > 122 {
            return false;
        }
        i = i + 1;
    }
    true
}

/// Lexicographic order on character sequences, by code point.
pub open spec fn lex_le(a: Seq<char>, b: Seq<char>) -> bool
    decreases a.len(),
{
    if a.len() == 0 {
        true
    } else if b.len() == 0 {
        false
    } else if (a[0] as u32) < (b[0] as u32) {
        true
    } else if (a[0] as u32) > (b[0] as u32) {
        false
    } else {
        lex_le(a.skip(1), b.skip(1))
    }
}

/// The lexicographic order relates every pair of sequences one way or the
/// other.
pub proof fn lemma_lex_le_total(a: Seq<char>, b: Seq<char>)
    ensures
        lex_le(a, b) || lex_le(b, a),
    decreases a.len(),
{
    if a.len() != 0 && b.len() != 0 && (a[0] as u32) == (b[0] as u32) {
        lemma_lex_le_total(a.skip(1), b.skip(1));
    }
}

/// The lexicographic order is transitive.
pub proof fn lemma_lex_le_trans(a: Seq<char>, b: Seq<char>, c: Seq<char>)
    requires
        lex_le(a, b),
        lex_le(b, c),
    ensures
        lex_le(a, c),
    decreases a.len(),
{
    if a.len() != 0 && b.len() != 0 && c.len() != 0 {
        if (a[0] as u32) == (b[0] as u32) && (b[0] as u32) == (c[0] as u32) {
            lemma_lex_le_trans(a.skip(1), b.skip(1), c.skip(1));
        }
    }
}

/// The lexicographic order is antisymmetric: sequences below one another are
/// equal.
pub proof fn lemma_lex_le_antisym(a: Seq<char>, b: Seq<char>)
    requires
        lex_le(a, b),
        lex_le(b, a),
    ensures
        a == b,
    decreases a.len(),
{
    if a.len() == 0 {
        assert(b.len() == 0);
        assert(a =~= b);
    } else {
        assert(b.len() != 0);
        assert(a[0] == b[0]) by {
            vstd::utf8::char_u32_cast(a[0], a[0] as u32);
            vstd::utf8::char_u32_cast(b[0], b[0] as u32);
        }
        lemma_lex_le_antisym(a.skip(1), b.skip(1));
        assert(a =~= b) by {
            assert(forall|t: int| 1 <= t < a.len() ==> a[t] == a.skip(1)[t - 1]);
            assert(forall|t: int| 1 <= t < b.len() ==> b[t] == b.skip(1)[t - 1]);
        }
    }
}

/// Two sorted token lists holding the same multiset of tokens are the same
/// list: a token multiset has exactly one sorted written form.
pub proof fn lemma_sorted_lex_same_multiset_equal(a: Seq<Seq<char>>, b: Seq<Seq<char>>)
    requires
        sorted_lex(a),
        sorted_lex(b),
        a.to_multiset() == b.to_multiset(),
    ensures
        a == b,
    decreases a.len(),
{
    a.to_multiset_ensures();
    b.to_multiset_ensures();
    if a.len() == 0 {
        assert(a.to_multiset().len() == b.to_multiset().len());
        assert(b.len() == 0);
        assert(a =~= b);
    } else {
        assert(a.to_multiset().len() == b.to_multiset().len());
        assert(a.len() == b.len());
        assert(a.contains(a.first()));
        assert(a.to_multiset().count(a.first()) > 0);
        assert(b.to_multiset().count(a.first()) > 0);
        assert(b.contains(a.first()));
        let ia = choose|i: int| 0 <= i < b.len() && b[i] == a.first();
        assert(lex_le(b.first(), a.first()));
        assert(b.contains(b.first()));
        assert(b.to_multiset().count(b.first()) > 0);
        assert(a.to_multiset().count(b.first()) > 0);
        assert(a.contains(b.first()));
        let ib = choose|i: int| 0 <= i < a.len() && a[i] == b.first();
        assert(lex_le(a.first(), b.first()));
        lemma_lex_le_antisym(a.first(), b.first());
        let a2 = a.drop_first();
        let b2 = b.drop_first();
        assert(a.remove(0) =~= a2);
        assert(b.remove(0) =~= b2);
        assert(a2.to_multiset() =~= a.to_multiset().remove(a.first()));
        assert(b2.to_multiset() =~= b.to_multiset().remove(b.first()));
        assert(sorted_lex(a2)) by {
            assert(forall|t: int| 0 <= t < a2.len() ==> a2[t] == a[t + 1]);
        }
        assert(sorted_lex(b2)) by {
            assert(forall|t: int| 0 <= t < b2.len() ==> b2[t] == b[t + 1]);
        }
        lemma_sorted_lex_same_multiset_equal(a2, b2);
        assert(a =~= b) by {
            assert(forall|t: int| 1 <= t < a.len() ==> a[t] == a2[t - 1] && b[t] == b2[t - 1]);
        }
    }
}

/// Compares two strings in lexicographic order, character by character.
pub fn str_lex_le(a: &str, b: &str) -> (r: bool)
    ensures
        r == lex_le(a@, b@),
{
    let na = a.unicode_len();
    let nb = b.unicode_len();
    proof {
        assert(a@.skip(0) =~= a@);
        assert(b@.skip(0) =~= b@);
    }
    let mut i: usize = 0;
    while i < na && i < nb
        invariant
            na == a@.len(),
            nb == b@.len(),
            i <= na,
            i <= nb,
            forall|j: int| 0 <= j < i ==> a@[j] == b@[j],
            lex_le(a@, b@) == lex_le(a@.skip(i as int), b@.skip(i as int)),
        decreases na - i,
    {
        let ca = a.get_char(i);
        let cb = b.get_char(i);
        let ua = ca as u32;
        let ub = cb as u32;
        if ua < ub {
            proof {
                assert(a@.skip(i as int)[0] == ca);
                assert(b@.skip(i as int)[0] == cb);
            }
            return true;
        }
        if ua > ub {
            proof {
                assert(a@.skip(i as int)[0] == ca);
                assert(b@.skip(i as int)[0] == cb);
            }
            return false;
        }
        proof {
            assert(a@.skip(i as int)[0] == ca);
            assert(b@.skip(i as int)[0] == cb);
            assert(ca == cb) by {
                vstd::utf8::char_u32_cast(ca, ua);
                vstd::utf8::char_u32_cast(cb, ub);
            }
            assert(a@.skip(i as int).skip(1) =~= a@.skip(i as int + 1));
            assert(b@.skip(i as int).skip(1) =~= b@.skip(i as int + 1));
        }
        i = i + 1;
    }
    proof {
        if i >= na {
            assert(a@.skip(i as int).len() == 0);
        } else {
            assert(b@.skip(i as int).len() == 0);
            assert(a@.skip(i as int).len() > 0);
        }
    }
    i >= na
}

/// The views of the strings of `v`, in order.
pub open spec fn views_of(v: Seq<String>) -> Seq<Seq<char>> {
    v.map_values(|s: String| s@)
}

/// Token views sorted in lexicographic order, every element kept.
pub open spec fn sorted_lex(v: Seq<Seq<char>>) -> bool {
    forall|i: int, j: int| 0 <= i <= j < v.len() ==> lex_le(v[i], v[j])
}

/// Inserting an element into a sequence inserts it into its multiset.
pub proof fn lemma_to_multiset_insert<A>(s: Seq<A>, p: int, x: A)
    requires
        0 <= p <= s.len(),
    ensures
        s.insert(p, x).to_multiset() == s.to_multiset().insert(x),
{
    let t = s.insert(p, x);
    t.to_multiset_ensures();
    assert(t.remove(p) =~= s);
    assert(t[p] == x);
    assert(t.remove(p).to_multiset() =~= t.to_multiset().remove(t[p]));
    assert(t.contains(x));
    assert(t.to_multiset().count(x) > 0);
    assert(t.to_multiset().remove(x).insert(x) =~= t.to_multiset());
}

/// Inserting the same element into two multisets keeps them apart or equal:
/// cancelling the insertion is sound.
pub proof fn lemma_multiset_insert_cancel<A>(m1: Multiset<A>, m2: Multiset<A>, x: A)
    requires
        m1.insert(x) == m2.insert(x),
    ensures
        m1 == m2,
{
    broadcast use vstd::multiset::group_multiset_axioms;

    assert forall|y: A| #[trigger] m1.count(y) == m2.count(y) by {
        assert(m1.insert(x).count(y) == m2.insert(x).count(y));
        if y == x {
            vstd::multiset::lemma_insert_increases_count_by_1(m1, x);
            vstd::multiset::lemma_insert_increases_count_by_1(m2, x);
        } else {
            vstd::multiset::lemma_insert_other_elements_unchanged(m1, x, y);
            vstd::multiset::lemma_insert_other_elements_unchanged(m2, x, y);
        }
    }
    assert(m1 =~= m2);
}

/// Applying one function to two lists with the same multiset of elements
/// gives two lists with the same multiset of results.
pub proof fn lemma_map_values_multiset<A, B>(a: Seq<A>, b: Seq<A>, f: spec_fn(A) -> B)
    requires
        a.to_multiset() == b.to_multiset(),
    ensures
        a.map_values(f).to_multiset() == b.map_values(f).to_multiset(),
    decreases a.len(),
{
    broadcast use vstd::multiset::group_multiset_axioms;

    a.to_multiset_ensures();
    b.to_multiset_ensures();
    if a.len() == 0 {
        assert(a.to_multiset().len() == b.to_multiset().len());
        assert(b.len() == 0);
        assert(a.map_values(f) =~= b.map_values(f));
    } else {
        let x = a.last();
        assert(a.contains(x));
        assert(a.to_multiset().count(x) > 0);
        assert(b.to_multiset().count(x) > 0);
        assert(b.contains(x));
        let idx = choose|i: int| 0 <= i < b.len() && b[i] == x;
        let a2 = a.drop_last();
        let b2 = b.remove(idx);
        assert(a.remove(a.len() - 1) =~= a2);
        assert(a2.to_multiset() =~= a.to_multiset().remove(x));
        assert(b2.to_multiset() =~= b.to_multiset().remove(x));
        lemma_map_values_multiset(a2, b2, f);
        a2.map_values(f).to_multiset_ensures();
        b.map_values(f).to_multiset_ensures();
        assert(a.map_values(f) =~= a2.map_values(f).push(f(x)));
        assert(a.map_values(f).to_multiset() =~= a2.map_values(f).to_multiset().insert(f(x)));
        assert(b.map_values(f).remove(idx) =~= b2.map_values(f));
        assert(b.map_values(f)[idx] == f(x));
        assert(b2.map_values(f).to_multiset() =~= b.map_values(f).to_multiset().remove(f(x)));
        assert(b.map_values(f).contains(f(x)));
        assert(b.map_values(f).to_multiset().count(f(x)) > 0);
        assert(b.map_values(f).to_multiset().remove(f(x)).insert(f(x)) =~= b.map_values(
            f,
        ).to_multiset());
        assert(a.map_values(f).to_multiset() =~= b.map_values(f).to_multiset());
    }
}

/// Sorts a list of strings in lexicographic order; the result holds exactly
/// the strings given, as a multiset of views.
pub fn sort_strings(v: &Vec<String>) -> (r: Vec<String>)
    ensures
        sorted_lex(views_of(r@)),
        views_of(r@).to_multiset() == views_of(v@).to_multiset(),
        r@.len() == v@.len(),
{
    broadcast use vstd::seq_lib::group_to_multiset_ensures;

    let n = v.len();
    let mut out: Vec<String> = Vec::new();
    let mut i: usize = 0;
    while i < n
        invariant
            n == v@.len(),
            i <= n,
            out@.len() == i,
            sorted_lex(views_of(out@)),
            views_of(out@).to_multiset() == views_of(v@.take(i as int)).to_multiset(),
        decreases n - i,
    {
        let s = v[i].clone();
        // find the first position whose element is greater than `s`
        let m = out.len();
        let mut p: usize = 0;
        while p < m && str_lex_le(out[p].as_str(), s.as_str())
            invariant
                m == out@.len(),
                p <= m,
                forall|q: int| 0 <= q < p ==> lex_le(views_of(out@)[q], s@),
            decreases m - p,
        {
            p = p + 1;
        }
        proof {
            if p < m {
                lemma_lex_le_total(views_of(out@)[p as int], s@);
            }
        }
        let ghost old_out = out@;
        out.insert(p, s);
        proof {
            assert(views_of(out@) =~= views_of(old_out).insert(p as int, s@));
            lemma_to_multiset_insert(views_of(old_out), p as int, s@);
            assert(views_of(v@.take(i as int + 1)).to_multiset() == views_of(
                v@.take(i as int),
            ).to_multiset().insert(v@[i as int]@)) by {
                let w_prev = views_of(v@.take(i as int));
                assert(views_of(v@.take(i as int + 1)) =~= w_prev.push(v@[i as int]@));
                w_prev.to_multiset_ensures();
            }
            assert(sorted_lex(views_of(out@))) by {
                let newv = views_of(out@);
                let oldv = views_of(old_out);
                assert forall|x: int, y: int| 0 <= x <= y < newv.len() implies lex_le(
                    newv[x],
                    newv[y],
                ) by {
                    if x == y {
                        lemma_lex_le_total(newv[x], newv[y]);
                    } else if y < p {
                        assert(newv[x] == oldv[x] && newv[y] == oldv[y]);
                    } else if x > p {
                        assert(newv[x] == oldv[x - 1] && newv[y] == oldv[y - 1]);
                    } else if x < p && y == p {
                        assert(newv[x] == oldv[x] && newv[y] == s@);
                    } else if x == p && y > p {
                        assert(newv[x] == s@ && newv[y] == oldv[y - 1]);
                        if p < oldv.len() {
                            lemma_lex_le_trans(s@, oldv[p as int], oldv[y - 1]);
                        }
                    } else if x < p && y > p {
                        assert(newv[x] == oldv[x] && newv[y] == oldv[y - 1]);
                    }
                }
            }
        }
        i = i + 1;
    }
    proof {
        assert(v@.take(n as int) =~= v@);
    }
    out
}

/// The tokens joined by single spaces: empty for no tokens, else the tokens
/// in order with one space between neighbours.
pub open spec fn join_sp(ts: Seq<Seq<char>>) -> Seq<char>
    decreases ts.len(),
{
    if ts.len() == 0 {
        Seq::empty()
    } else if ts.len() == 1 {
        ts[0]
    } else {
        join_sp(ts.drop_last()) + seq![' '] + ts.last()
    }
}

/// Joins the strings of `v` with single spaces.
pub fn join_spaces(v: &Vec<String>) -> (r: String)
    ensures
        r@ == join_sp(views_of(v@)),
{
    let n = v.len();
    let mut out = String::new();
    if n == 0 {
        proof {
            assert(views_of(v@).len() == 0);
        }
        return out;
    }
    out.append(v[0].as_str());
    proof {
        assert(views_of(v@.take(1)).len() == 1);
        assert(views_of(v@.take(1))[0] == v@[0]@);
        assert(out@ == join_sp(views_of(v@.take(1))));
    }
    let mut i: usize = 1;
    while i < n
        invariant
            n == v@.len(),
            1 <= i <= n,
            out@ == join_sp(views_of(v@.take(i as int))),
        decreases n - i,
    {
        out.append(" ");
        out.append(v[i].as_str());
        proof {
            reveal_strlit(" ");
            let w = views_of(v@.take(i as int + 1));
            assert(w.drop_last() =~= views_of(v@.take(i as int)));
            assert(w.len() == i + 1 >= 2);
            assert(w.last() == v@[i as int]@);
            assert(out@ =~= join_sp(w.drop_last()) + seq![' '] + w.last());
        }
        i = i + 1;
    }
    proof {
        assert(v@.take(n as int) =~= v@);
    }
    out
}

/// No character of the token is a space.
pub open spec fn space_free(t: Seq<char>) -> bool {
    forall|i: int| 0 <= i < t.len() ==> t[i] != ' '
}

/// Tokens a joined line can be split back into: none is empty, none holds a
/// space.
pub open spec fn tokens_clean(p: Seq<Seq<char>>) -> bool {
    forall|i: int| 0 <= i < p.len() ==> (#[trigger] p[i]).len() > 0 && space_free(p[i])
}

/// A line joined from two or more clean tokens holds a space right after its
/// first tokens, and none later.
proof fn lemma_join_sp_last_space(p: Seq<Seq<char>>)
    requires
        tokens_clean(p),
        p.len() >= 2,
    ensures
        join_sp(p) == join_sp(p.drop_last()) + seq![' '] + p.last(),
        join_sp(p)[join_sp(p.drop_last()).len() as int] == ' ',
        forall|r: int|
            join_sp(p.drop_last()).len() < r < join_sp(p).len() ==> join_sp(p)[r] != ' ',
{
    let d = p.drop_last();
    let line = join_sp(p);
    let q = join_sp(d).len() as int;
    assert(line[q] == ' ');
    assert forall|r: int| q < r < line.len() implies line[r] != ' ' by {
        assert(line[r] == p.last()[r - q - 1]);
        assert(p.last() == p[p.len() - 1]);
    }
}

/// Joining clean tokens with spaces loses nothing: equal lines come only from
/// equal token lists.
pub proof fn lemma_join_sp_injective(p1: Seq<Seq<char>>, p2: Seq<Seq<char>>)
    requires
        tokens_clean(p1),
        tokens_clean(p2),
        join_sp(p1) == join_sp(p2),
    ensures
        p1 == p2,
    decreases p1.len(),
{
    let line = join_sp(p1);
    if p1.len() >= 2 && p2.len() >= 2 {
        lemma_join_sp_last_space(p1);
        lemma_join_sp_last_space(p2);
        let q1 = join_sp(p1.drop_last()).len() as int;
        let q2 = join_sp(p2.drop_last()).len() as int;
        assert(q1 == q2) by {
            if q1 < q2 {
                assert(line[q2] == ' ');
            } else if q2 < q1 {
                assert(line[q1] == ' ');
            }
        }
        assert(p1.last() =~= p2.last()) by {
            assert(p1.last().len() == line.len() - q1 - 1);
            assert(p2.last().len() == line.len() - q2 - 1);
            assert(forall|t: int| 0 <= t < p1.last().len() ==> p1.last()[t] == line[q1 + 1 + t]);
            assert(forall|t: int| 0 <= t < p2.last().len() ==> p2.last()[t] == line[q2 + 1 + t]);
        }
        assert(join_sp(p1.drop_last()) =~= join_sp(p2.drop_last())) by {
            assert forall|t: int| 0 <= t < q1 implies join_sp(p1.drop_last())[t] == join_sp(
                p2.drop_last(),
            )[t] by {
                assert(join_sp(p1.drop_last())[t] == (join_sp(p1.drop_last()) + seq![' ']
                    + p1.last())[t]);
                assert(join_sp(p2.drop_last())[t] == (join_sp(p2.drop_last()) + seq![' ']
                    + p2.last())[t]);
            }
        }
        assert(tokens_clean(p1.drop_last())) by {
            assert(forall|i: int| 0 <= i < p1.len() - 1 ==> p1.drop_last()[i] == p1[i]);
        }
        assert(tokens_clean(p2.drop_last())) by {
            assert(forall|i: int| 0 <= i < p2.len() - 1 ==> p2.drop_last()[i] == p2[i]);
        }
        lemma_join_sp_injective(p1.drop_last(), p2.drop_last());
        assert(p1 =~= p1.drop_last().push(p1.last()));
        assert(p2 =~= p2.drop_last().push(p2.last()));
        assert(p1 =~= p2);
    } else if p1.len() <= 1 && p2.len() <= 1 {
        if p1.len() == 0 && p2.len() == 1 {
            assert(p2[0].len() > 0);
            assert(line.len() == 0);
        } else if p1.len() == 1 && p2.len() == 0 {
            assert(p1[0].len() > 0);
            assert(line.len() == 0);
        } else if p1.len() == 1 && p2.len() == 1 {
            assert(p1 =~= p2);
        } else {
            assert(p1 =~= p2);
        }
    } else if p1.len() >= 2 {
        // a line of two or more tokens holds a space; a shorter one does not
        lemma_join_sp_last_space(p1);
        let q1 = join_sp(p1.drop_last()).len() as int;
        assert(line[q1] == ' ');
        if p2.len() == 1 {
            assert(line == p2[0]);
            assert(space_free(p2[0]));
        } else {
            assert(line.len() == 0);
        }
        assert(false);
    } else {
        lemma_join_sp_last_space(p2);
        let q2 = join_sp(p2.drop_last()).len() as int;
        assert(line[q2] == ' ');
        if p1.len() == 1 {
            assert(line == p1[0]);
            assert(space_free(p1[0]));
        } else {
            assert(line.len() == 0);
        }
        assert(false);
    }
}

/// The number of maximal space-free runs in `s[..k]`: one word begins at each
/// position that holds a non-space preceded by a space or the start.
pub open spec fn word_count_upto(s: Seq<char>, k: int) -> int
    decreases k,
{
    if k <= 0 {
        0
    } else {
        word_count_upto(s, k - 1) + if s[k - 1] != ' ' && (k - 1 == 0 || s[k - 2] == ' ') {
            1int
        } else {
            0int
        }
    }
}

/// How many words `s` holds, split on single spaces.
pub open spec fn word_count(s: Seq<char>) -> int {
    word_count_upto(s, s.len() as int)
}

/// Counts the words of `s`: the maximal runs of non-space characters.
pub fn count_words(s: &str) -> (r: usize)
    ensures
        r == word_count(s@),
{
    let n = s.unicode_len();
    let mut count: usize = 0;
    let mut i: usize = 0;
    while i < n
        invariant
            n == s@.len(),
            i <= n,
            count == word_count_upto(s@, i as int),
            count <= i,
        decreases n - i,
    {
        let c = s.get_char(i);
        let starts = if c as u32 != 32 {
            if i == 0 {
                true
            } else {
                let prev = s.get_char(i - 1);
                prev as u32 == 32
            }
        } else {
            false
        };
        proof {
            assert(' ' as u32 == 32);
            if i > 0 {
                vstd::utf8::char_u32_cast(s@[i - 1], (s@[i - 1] as u32) as u32);
            }
            vstd::utf8::char_u32_cast(c, c as u32);
        }
        if starts {
            count = count + 1;
        }
        i = i + 1;
    }
    count
}

} // verus!
