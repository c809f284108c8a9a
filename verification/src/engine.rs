//! Recognition and substitution of branded placeholders.
//!
//! An occurrence of a family `f` at position `i` of a text is the
//! family's sentinel, preceded by a word boundary, followed by a
//! fragment: one byte of the family's opening class and then the longest
//! run of the family's continuation class, shortened so that it ends in
//! a word byte.  The byte after the fragment must not be a word byte, so
//! a match never bleeds into an adjacent word.

use vstd::prelude::*;

use crate::cases::CaseFamily;
use crate::cases::DASH;
use crate::cases::DOT;
use crate::cases::UNDERSCORE;
use crate::cases::canon;
use crate::cases::canonicalize;
use crate::cases::family_at;
use crate::cases::family_at_ord;
use crate::cases::family_ord;
use crate::cases::is_digit_byte;
use crate::cases::is_lower_byte;
use crate::cases::is_upper_byte;
use crate::cases::is_word_byte;
use crate::cases::lemma_family_ord;
use crate::cases::sentinel;
use crate::cases::sentinel_bytes;

verus! {

/// The class of the first fragment byte of family `f`.
pub open spec fn frag_first(f: CaseFamily, b: u8) -> bool {
    match f {
        CaseFamily::PascalBranded => is_upper_byte(b),
        CaseFamily::UpperSnakeBranded => is_upper_byte(b),
        CaseFamily::UpperKebabBranded => is_upper_byte(b),
        CaseFamily::UpperDotBranded => is_upper_byte(b),
        CaseFamily::LowerSnakeBranded => is_lower_byte(b),
        CaseFamily::LowerKebabBranded => is_lower_byte(b),
        CaseFamily::LowerDotBranded => is_lower_byte(b),
        CaseFamily::LowerFlatBranded => is_lower_byte(b),
        CaseFamily::UpperFlatBranded => is_upper_byte(b),
    }
}

/// The class of the following fragment bytes of family `f`.
pub open spec fn frag_rest(f: CaseFamily, b: u8) -> bool {
    match f {
        CaseFamily::PascalBranded => is_upper_byte(b) || is_lower_byte(b) || is_digit_byte(b),
        CaseFamily::UpperSnakeBranded => is_upper_byte(b) || is_digit_byte(b) || b == UNDERSCORE,
        CaseFamily::UpperKebabBranded => is_upper_byte(b) || is_digit_byte(b) || b == DASH,
        CaseFamily::UpperDotBranded => is_upper_byte(b) || is_digit_byte(b) || b == DOT,
        CaseFamily::LowerSnakeBranded => is_lower_byte(b) || is_digit_byte(b) || b == UNDERSCORE,
        CaseFamily::LowerKebabBranded => is_lower_byte(b) || is_digit_byte(b) || b == DASH,
        CaseFamily::LowerDotBranded => is_lower_byte(b) || is_digit_byte(b) || b == DOT,
        CaseFamily::LowerFlatBranded => is_lower_byte(b) || is_digit_byte(b),
        CaseFamily::UpperFlatBranded => is_upper_byte(b) || is_digit_byte(b),
    }
}

/// End of the run of continuation bytes of family `f` that starts at `j`.
pub open spec fn run_end(t: Seq<u8>, f: CaseFamily, j: int) -> int
    decreases t.len() - j,
{
    if j < 0 || j >= t.len() || !frag_rest(f, t[j]) {
        j
    } else {
        run_end(t, f, j + 1)
    }
}

/// The largest end position in `(j, k]` whose last byte is a word byte,
/// or `j` when there is none: a fragment never ends in a separator.
pub open spec fn trim_end(t: Seq<u8>, j: int, k: int) -> int
    decreases k - j,
{
    if k <= j {
        j
    } else if is_word_byte(t[k - 1]) {
        k
    } else {
        trim_end(t, j, k - 1)
    }
}

/// End of the fragment of a family-`f` match that starts at `i`.
pub open spec fn occ_end(t: Seq<u8>, f: CaseFamily, i: int) -> int {
    let j = i + sentinel(f).len();
    trim_end(t, j, run_end(t, f, j + 1))
}

/// There is an occurrence of family `f` at position `i` of `t`.
pub open spec fn is_occurrence(t: Seq<u8>, f: CaseFamily, i: int) -> bool {
    let j = i + sentinel(f).len();
    &&& 0 <= i
    &&& j < t.len()
    &&& t.subrange(i, j) == sentinel(f)
    &&& i == 0 || !is_word_byte(t[i - 1])
    &&& frag_first(f, t[j])
    &&& occ_end(t, f, i) == t.len() || !is_word_byte(t[occ_end(t, f, i)])
}

/// The fragment of the occurrence of family `f` at position `i`.
pub open spec fn occ_frag(t: Seq<u8>, f: CaseFamily, i: int) -> Seq<u8> {
    t.subrange(i + sentinel(f).len(), occ_end(t, f, i))
}

/// The set of canonical names of all placeholder occurrences in `t`.
pub open spec fn occurrence_names(t: Seq<u8>) -> Set<Seq<u8>> {
    Set::new(
        |n: Seq<u8>|
            exists|f: CaseFamily, i: int|
                is_occurrence(t, f, i) && n == canon(occ_frag(t, f, i)),
    )
}

/// `names` holds a byte string whose view is `n`.
pub open spec fn contains_name(names: Seq<Vec<u8>>, n: Seq<u8>) -> bool {
    exists|m: int| 0 <= m < names.len() && names[m]@ == n
}

fn word_byte(b: u8) -> (r: bool)
    ensures
        r == is_word_byte(b),
{
    65 <= b && b <= 90 || 97 <= b && b <= 122 || 48 <= b && b <= 57 || b == UNDERSCORE
}

fn frag_first_byte(f: CaseFamily, b: u8) -> (r: bool)
    ensures
        r == frag_first(f, b),
{
    let upper = 65 <= b && b <= 90;
    let lower = 97 <= b && b <= 122;
    match f {
        CaseFamily::PascalBranded => upper,
        CaseFamily::UpperSnakeBranded => upper,
        CaseFamily::UpperKebabBranded => upper,
        CaseFamily::UpperDotBranded => upper,
        CaseFamily::LowerSnakeBranded => lower,
        CaseFamily::LowerKebabBranded => lower,
        CaseFamily::LowerDotBranded => lower,
        CaseFamily::LowerFlatBranded => lower,
        CaseFamily::UpperFlatBranded => upper,
    }
}

fn frag_rest_byte(f: CaseFamily, b: u8) -> (r: bool)
    ensures
        r == frag_rest(f, b),
{
    let upper = 65 <= b && b <= 90;
    let lower = 97 <= b && b <= 122;
    let digit = 48 <= b && b <= 57;
    match f {
        CaseFamily::PascalBranded => upper || lower || digit,
        CaseFamily::UpperSnakeBranded => upper || digit || b == UNDERSCORE,
        CaseFamily::UpperKebabBranded => upper || digit || b == DASH,
        CaseFamily::UpperDotBranded => upper || digit || b == DOT,
        CaseFamily::LowerSnakeBranded => lower || digit || b == UNDERSCORE,
        CaseFamily::LowerKebabBranded => lower || digit || b == DASH,
        CaseFamily::LowerDotBranded => lower || digit || b == DOT,
        CaseFamily::LowerFlatBranded => lower || digit,
        CaseFamily::UpperFlatBranded => upper || digit,
    }
}

/// Matches family `f` against position `i` of `t` and returns the end of
/// the fragment when an occurrence stands there.
fn try_match(t: &[u8], f: CaseFamily, i: usize) -> (r: Option<usize>)
    requires
        i <= t.len(),
    ensures
        match r {
            Some(k) => is_occurrence(t@, f, i as int) && k == occ_end(t@, f, i as int) && i
                + sentinel(f).len() < k <= t.len(),
            None => !is_occurrence(t@, f, i as int),
        },
{
    let sent = sentinel_bytes(f);
    let sl = sent.len();
    if t.len() - i < sl + 1 {
        return None;
    }
    if i > 0 && word_byte(t[i - 1]) {
        return None;
    }
    let mut m: usize = 0;
    while m < sl
        invariant
            m <= sl,
            sl == sentinel(f).len(),
            i + sl < t.len(),
            sent@ == sentinel(f),
            forall|p: int| 0 <= p < m ==> t@[i + p] == sentinel(f)[p],
        decreases sl - m,
    {
        if t[i + m] != sent[m] {
            proof {
                assert(t@.subrange(i as int, i + sl) != sentinel(f)) by {
                    assert(t@.subrange(i as int, i + sl)[m as int] == t@[i + m]);
                }
            }
            return None;
        }
        m += 1;
    }
    proof {
        assert(t@.subrange(i as int, i + sl) =~= sentinel(f));
    }
    let j = i + sl;
    if !frag_first_byte(f, t[j]) {
        return None;
    }
    // scan the longest run of continuation bytes after the first byte
    let mut k = j + 1;
    while k < t.len() && frag_rest_byte(f, t[k])
        invariant
            j + 1 <= k <= t.len(),
            t@.len() == t.len(),
            run_end(t@, f, j + 1) == run_end(t@, f, k as int),
        decreases t.len() - k,
    {
        k += 1;
    }
    proof {
        assert(run_end(t@, f, k as int) == k);
    }
    // a fragment ends in a word byte: drop trailing separator bytes
    while k > j + 1 && !word_byte(t[k - 1])
        invariant
            j + 1 <= k,
            k <= t.len(),
            t@.len() == t.len(),
            trim_end(t@, j as int, run_end(t@, f, j + 1)) == trim_end(t@, j as int, k as int),
        decreases k,
    {
        k -= 1;
    }
    proof {
        assert(is_word_byte(t@[j as int]));
        assert(trim_end(t@, j as int, k as int) == k);
        assert(occ_end(t@, f, i as int) == k);
    }
    if k < t.len() && word_byte(t[k]) {
        return None;
    }
    Some(k)
}

/// Copies `t[from..to]` into a fresh vector.
pub fn copy_range(t: &[u8], from: usize, to: usize) -> (r: Vec<u8>)
    requires
        from <= to <= t.len(),
    ensures
        r@ == t@.subrange(from as int, to as int),
{
    let mut r: Vec<u8> = Vec::new();
    let mut p = from;
    while p < to
        invariant
            from <= p <= to <= t.len(),
            r@ == t@.subrange(from as int, p as int),
        decreases to - p,
    {
        r.push(t[p]);
        proof {
            assert(r@ =~= t@.subrange(from as int, p + 1));
        }
        p += 1;
    }
    r
}

/// Byte-string equality.
pub fn bytes_eq(a: &[u8], b: &[u8]) -> (r: bool)
    ensures
        r == (a@ == b@),
{
    if a.len() != b.len() {
        return false;
    }
    let mut p: usize = 0;
    while p < a.len()
        invariant
            p <= a.len(),
            a.len() == b.len(),
            forall|q: int| 0 <= q < p ==> a@[q] == b@[q],
        decreases a.len() - p,
    {
        if a[p] != b[p] {
            return false;
        }
        p += 1;
    }
    proof {
        assert(a@ =~= b@);
    }
    true
}

pub fn names_contain(names: &Vec<Vec<u8>>, n: &Vec<u8>) -> (r: bool)
    ensures
        r == contains_name(names@, n@),
{
    let mut m: usize = 0;
    while m < names.len()
        invariant
            m <= names.len(),
            forall|q: int| 0 <= q < m ==> names@[q]@ != n@,
        decreases names.len() - m,
    {
        if bytes_eq(names[m].as_slice(), n.as_slice()) {
            return true;
        }
        m += 1;
    }
    false
}

/// Scans `t` against all nine family patterns and returns the canonical
/// name of every occurrence, each name once, in order of first discovery
/// (by position, then by family rank).
pub fn detect_occurrences(t: &[u8]) -> (r: Vec<Vec<u8>>)
    ensures
        forall|m: int| 0 <= m < r@.len() ==> occurrence_names(t@).contains(#[trigger] r@[m]@),
        forall|f: CaseFamily, i: int|
            is_occurrence(t@, f, i) ==> contains_name(r@, canon(occ_frag(t@, f, i))),
        forall|m1: int, m2: int| 0 <= m1 < m2 < r@.len() ==> r@[m1]@ != r@[m2]@,
{
    let mut out: Vec<Vec<u8>> = Vec::new();
    let mut i: usize = 0;
    while i < t.len()
        invariant
            i <= t.len(),
            forall|m: int| 0 <= m < out@.len() ==> occurrence_names(t@).contains(#[trigger] out@[m]@),
            forall|f: CaseFamily, ii: int|
                0 <= ii < i && is_occurrence(t@, f, ii) ==> contains_name(
                    out@,
                    canon(occ_frag(t@, f, ii)),
                ),
            forall|m1: int, m2: int| 0 <= m1 < m2 < out@.len() ==> out@[m1]@ != out@[m2]@,
        decreases t.len() - i,
    {
        let mut fi: usize = 0;
        while fi < 9
            invariant
                fi <= 9,
                i < t.len(),
                forall|m: int| 0 <= m < out@.len() ==> occurrence_names(t@).contains(
                    #[trigger] out@[m]@,
                ),
                forall|f: CaseFamily, ii: int|
                    0 <= ii < i && is_occurrence(t@, f, ii) ==> contains_name(
                        out@,
                        canon(occ_frag(t@, f, ii)),
                    ),
                forall|f: CaseFamily|
                    family_ord(f) < fi && is_occurrence(t@, f, i as int) ==> contains_name(
                        out@,
                        canon(occ_frag(t@, f, i as int)),
                    ),
                forall|m1: int, m2: int| 0 <= m1 < m2 < out@.len() ==> out@[m1]@ != out@[m2]@,
            decreases 9 - fi,
        {
            let f = family_at(fi);
            match try_match(t, f, i) {
                Some(k) => {
                    let sent = sentinel_bytes(f);
                    let frag = copy_range(t, i + sent.len(), k);
                    let name = canonicalize(frag.as_slice());
                    proof {
                        assert(name@ == canon(occ_frag(t@, f, i as int)));
                    }
                    if !names_contain(&out, &name) {
                        let ghost old_out = out@;
                        out.push(name);
                        proof {
                            assert(out@[out@.len() - 1]@ == canon(occ_frag(t@, f, i as int)));
                            assert(occurrence_names(t@).contains(canon(occ_frag(t@, f, i as int))));
                            assert(forall|m: int|
                                0 <= m < old_out.len() ==> out@[m]@ == #[trigger] old_out[m]@);
                            assert(forall|n: Seq<u8>|
                                contains_name(old_out, n) ==> #[trigger] contains_name(out@, n));
                        }
                    }
                },
                None => {},
            }
            proof {
                assert forall|g: CaseFamily|
                    family_ord(g) < fi + 1 && is_occurrence(t@, g, i as int) implies contains_name(
                    out@,
                    canon(occ_frag(t@, g, i as int)),
                ) by {
                    lemma_family_ord(g);
                    if family_ord(g) == fi as int {
                        assert(g == family_at_ord(fi as int));
                    }
                }
            }
            fi += 1;
        }
        i += 1;
    }
    proof {
        assert forall|f: CaseFamily, ii: int| is_occurrence(t@, f, ii) implies contains_name(
            out@,
            canon(occ_frag(t@, f, ii)),
        ) by {
            assert(0 <= ii && ii + sentinel(f).len() < t@.len());
        }
    }
    out
}

/// `t` holds at least one placeholder occurrence.
pub open spec fn has_placeholder(t: Seq<u8>) -> bool {
    exists|f: CaseFamily, i: int| is_occurrence(t, f, i)
}

/// Does `t` hold any placeholder occurrence at all?
pub fn contains_template_variables(t: &[u8]) -> (r: bool)
    ensures
        r == has_placeholder(t@),
{
    let mut i: usize = 0;
    while i < t.len()
        invariant
            i <= t.len(),
            forall|f: CaseFamily, ii: int| 0 <= ii < i ==> !is_occurrence(t@, f, ii),
        decreases t.len() - i,
    {
        let mut fi: usize = 0;
        while fi < 9
            invariant
                fi <= 9,
                i < t.len(),
                forall|f: CaseFamily, ii: int| 0 <= ii < i ==> !is_occurrence(t@, f, ii),
                forall|f: CaseFamily|
                    family_ord(f) < fi ==> !is_occurrence(t@, f, i as int),
            decreases 9 - fi,
        {
            let f = family_at(fi);
            if let Some(_k) = try_match(t, f, i) {
                return true;
            }
            proof {
                assert forall|g: CaseFamily| family_ord(g) < fi + 1 implies !is_occurrence(
                    t@,
                    g,
                    i as int,
                ) by {
                    lemma_family_ord(g);
                    if family_ord(g) == fi as int {
                        assert(g == family_at_ord(fi as int));
                    }
                }
            }
            fi += 1;
        }
        proof {
            assert forall|g: CaseFamily| !is_occurrence(t@, g, i as int) by {
                lemma_family_ord(g);
            }
        }
        i += 1;
    }
    proof {
        assert forall|f: CaseFamily, ii: int| !is_occurrence(t@, f, ii) by {
            if 0 <= ii && ii + sentinel(f).len() < t@.len() {
                assert(0 <= ii < t@.len());
            }
        }
    }
    false
}

/// The pattern `pat` stands at the front of `t`, with a word boundary on
/// both sides.  `prev_word` tells whether the byte before `t` (in the
/// enclosing text) is a word byte; the boundary before the start of the
/// whole text always holds for a pattern that opens with a word byte.
pub open spec fn match_here(t: Seq<u8>, pat: Seq<u8>, prev_word: bool) -> bool {
    &&& 0 < pat.len() <= t.len()
    &&& t.subrange(0, pat.len() as int) == pat
    &&& is_word_byte(pat[0]) != prev_word
    &&& if t.len() == pat.len() {
        is_word_byte(pat.last())
    } else {
        is_word_byte(pat.last()) != is_word_byte(t[pat.len() as int])
    }
}

/// Left-to-right replacement of every boundary-delimited occurrence of
/// `pat` by `rep`.  The scan resumes after a replaced occurrence, so the
/// replacement text itself is never rescanned.
pub open spec fn replace_from(t: Seq<u8>, pat: Seq<u8>, rep: Seq<u8>, prev_word: bool) -> Seq<u8>
    decreases t.len(),
{
    if t.len() == 0 {
        Seq::empty()
    } else if match_here(t, pat, prev_word) {
        rep + replace_from(t.skip(pat.len() as int), pat, rep, is_word_byte(pat.last()))
    } else {
        seq![t[0]] + replace_from(t.skip(1), pat, rep, is_word_byte(t[0]))
    }
}

/// Replacement of every boundary-delimited occurrence of `pat` in `t`.
pub open spec fn replace_bounded(t: Seq<u8>, pat: Seq<u8>, rep: Seq<u8>) -> Seq<u8> {
    replace_from(t, pat, rep, false)
}

fn is_match_at(t: &[u8], pat: &[u8], i: usize, prev_word: bool) -> (r: bool)
    requires
        i <= t.len(),
    ensures
        r == match_here(t@.skip(i as int), pat@, prev_word),
{
    let ghost s = t@.skip(i as int);
    if pat.len() == 0 || t.len() - i < pat.len() {
        return false;
    }
    let mut p: usize = 0;
    while p < pat.len()
        invariant
            p <= pat.len(),
            i + pat.len() <= t.len(),
            s == t@.skip(i as int),
            forall|q: int| 0 <= q < p ==> t@[i + q] == pat@[q],
        decreases pat.len() - p,
    {
        if t[i + p] != pat[p] {
            proof {
                assert(s.subrange(0, pat@.len() as int)[p as int] == t@[i + p]);
            }
            return false;
        }
        p += 1;
    }
    proof {
        assert(s.subrange(0, pat@.len() as int) =~= pat@);
    }
    if word_byte(pat[0]) == prev_word {
        return false;
    }
    let lastw = word_byte(pat[pat.len() - 1]);
    if i + pat.len() == t.len() {
        lastw
    } else {
        let nw = word_byte(t[i + pat.len()]);
        proof {
            assert(s[pat@.len() as int] == t@[i + pat@.len()]);
        }
        lastw != nw
    }
}

pub fn push_bytes(out: &mut Vec<u8>, src: &[u8])
    ensures
        final(out)@ == old(out)@ + src@,
{
    let mut p: usize = 0;
    while p < src.len()
        invariant
            p <= src.len(),
            out@ == old(out)@ + src@.subrange(0, p as int),
        decreases src.len() - p,
    {
        out.push(src[p]);
        proof {
            assert(out@ =~= old(out)@ + src@.subrange(0, p + 1));
        }
        p += 1;
    }
    proof {
        assert(out@ =~= old(out)@ + src@);
    }
}

/// Replaces every boundary-delimited occurrence of `pat` in `t` by `rep`,
/// scanning left to right.
pub fn replace_all(t: &[u8], pat: &[u8], rep: &[u8]) -> (r: Vec<u8>)
    ensures
        r@ == replace_bounded(t@, pat@, rep@),
{
    let mut out: Vec<u8> = Vec::new();
    let mut i: usize = 0;
    let mut prev_word: bool = false;
    proof {
        assert(t@.skip(0) =~= t@);
        assert(Seq::<u8>::empty() + replace_from(t@, pat@, rep@, false) =~= replace_from(
            t@,
            pat@,
            rep@,
            false,
        ));
    }
    while i < t.len()
        invariant
            i <= t.len(),
            out@ + replace_from(t@.skip(i as int), pat@, rep@, prev_word) == replace_bounded(
                t@,
                pat@,
                rep@,
            ),
        decreases t.len() - i,
    {
        let ghost s = t@.skip(i as int);
        let ghost old_out = out@;
        if is_match_at(t, pat, i, prev_word) {
            push_bytes(&mut out, rep);
            proof {
                assert(s.skip(pat@.len() as int) =~= t@.skip(i + pat@.len()));
                assert(out@ + replace_from(t@.skip(i + pat@.len()), pat@, rep@, is_word_byte(
                    pat@.last(),
                )) =~= old_out + replace_from(s, pat@, rep@, prev_word));
            }
            i += pat.len();
            prev_word = word_byte(pat[pat.len() - 1]);
        } else {
            out.push(t[i]);
            proof {
                assert(s[0] == t@[i as int]);
                assert(s.skip(1) =~= t@.skip(i + 1));
                assert(out@ =~= old_out + seq![t@[i as int]]);
                assert(out@ + replace_from(t@.skip(i + 1), pat@, rep@, is_word_byte(t@[i as int]))
                    =~= old_out + replace_from(s, pat@, rep@, prev_word));
            }
            prev_word = word_byte(t[i]);
            i += 1;
        }
    }
    proof {
        assert(t@.skip(i as int) =~= Seq::<u8>::empty());
        assert(out@ =~= replace_bounded(t@, pat@, rep@));
    }
    out
}

/// One substitution pass for one variable, over the families of rank
/// `fi` and above, in the fixed family order.  The pattern is the
/// variable's canonical name rendered in the family; the replacement is
/// the canonicalized value rendered in the same family.
pub open spec fn subst_one_from(t: Seq<u8>, name: Seq<u8>, value: Seq<u8>, fi: int) -> Seq<u8>
    decreases 9 - fi,
{
    if fi < 0 || fi >= 9 {
        t
    } else {
        subst_one_from(
            replace_bounded(
                t,
                crate::cases::placeholder_of(family_at_ord(fi), name),
                crate::cases::placeholder_of(family_at_ord(fi), canon(value)),
            ),
            name,
            value,
            fi + 1,
        )
    }
}

/// Substitution of one variable across all nine families.
pub open spec fn subst_one(t: Seq<u8>, name: Seq<u8>, value: Seq<u8>) -> Seq<u8> {
    subst_one_from(t, name, value, 0)
}

/// Substitution of the variables from rank `vi` on, in map order.
pub open spec fn subst_all_from(t: Seq<u8>, vars: Seq<(Seq<u8>, Seq<u8>)>, vi: int) -> Seq<u8>
    decreases vars.len() - vi,
{
    if vi < 0 || vi >= vars.len() {
        t
    } else {
        subst_all_from(subst_one(t, vars[vi].0, vars[vi].1), vars, vi + 1)
    }
}

/// Substitution of a whole variable map into a text.
pub open spec fn substitute_spec(t: Seq<u8>, vars: Seq<(Seq<u8>, Seq<u8>)>) -> Seq<u8> {
    subst_all_from(t, vars, 0)
}

/// The (name, value) pairs of a variable list, as byte sequences.
pub open spec fn pairs_view(vs: Seq<(Vec<u8>, Vec<u8>)>) -> Seq<(Seq<u8>, Seq<u8>)> {
    Seq::new(vs.len(), |i: int| (vs[i].0@, vs[i].1@))
}

/// Substitutes every variable of `vars` into `text`: for each variable,
/// for every family in the fixed order, the exact surface form of the
/// variable's canonical name is replaced by the value rendered in the
/// same family.
pub fn substitute(text: &[u8], vars: &Vec<(Vec<u8>, Vec<u8>)>) -> (r: Vec<u8>)
    ensures
        r@ == substitute_spec(text@, pairs_view(vars@)),
{
    let ghost vsv = pairs_view(vars@);
    let mut cur = copy_range(text, 0, text.len());
    proof {
        assert(cur@ =~= text@);
    }
    let mut vi: usize = 0;
    while vi < vars.len()
        invariant
            vi <= vars.len(),
            vsv == pairs_view(vars@),
            subst_all_from(cur@, vsv, vi as int) == substitute_spec(text@, vsv),
        decreases vars.len() - vi,
    {
        let ghost name_v = vars@[vi as int].0@;
        let ghost value_v = vars@[vi as int].1@;
        let ghost start = cur@;
        let canon_value = canonicalize(vars[vi].1.as_slice());
        let mut fi: usize = 0;
        while fi < 9
            invariant
                fi <= 9,
                vi < vars.len(),
                vsv == pairs_view(vars@),
                name_v == vars@[vi as int].0@,
                value_v == vars@[vi as int].1@,
                canon_value@ == canon(value_v),
                subst_one_from(cur@, name_v, value_v, fi as int) == subst_one(
                    start,
                    name_v,
                    value_v,
                ),
            decreases 9 - fi,
        {
            let f = family_at(fi);
            let pat = crate::cases::render(vars[vi].0.as_slice(), f);
            let rep = crate::cases::render(canon_value.as_slice(), f);
            cur = replace_all(cur.as_slice(), pat.as_slice(), rep.as_slice());
            fi += 1;
        }
        proof {
            assert(cur@ == subst_one(start, name_v, value_v));
            assert(vsv[vi as int] == (name_v, value_v));
        }
        vi += 1;
    }
    cur
}

} // verus!
