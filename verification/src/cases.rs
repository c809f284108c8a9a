//! The case-convention engine: canonical names and the nine casing
//! families in which a placeholder fragment can be rendered.
//!
//! A canonical name is the kebab-case-or-flat identity of a variable:
//! `"MyProject"`, `"my_project"` and `"my-project"` all canonicalize to
//! `"my-project"`, while `"my.project"` keeps its dots and `"myproject"`
//! stays flat, so those three remain distinct keys.

use vstd::prelude::*;

verus! {

/// `-`
pub const DASH: u8 = 45;

/// `_`
pub const UNDERSCORE: u8 = 95;

/// `.`
pub const DOT: u8 = 46;

/// One of the nine recognized sentinel+casing combinations.
#[derive(Clone, Copy, Debug, PartialEq, Eq, Structural)]
pub enum CaseFamily {
    /// `ScfMyProject`
    PascalBranded,
    /// `SCF_MY_PROJECT`
    UpperSnakeBranded,
    /// `SCF-MY-PROJECT`
    UpperKebabBranded,
    /// `SCF.MY.PROJECT`
    UpperDotBranded,
    /// `scf_my_project`
    LowerSnakeBranded,
    /// `scf-my-project`
    LowerKebabBranded,
    /// `scf.my.project`
    LowerDotBranded,
    /// `scfmyproject`
    LowerFlatBranded,
    /// `SCFMYPROJECT`
    UpperFlatBranded,
}

pub open spec fn is_upper_byte(b: u8) -> bool {
    65 <= b && b <= 90
}

pub open spec fn is_lower_byte(b: u8) -> bool {
    97 <= b && b <= 122
}

pub open spec fn is_digit_byte(b: u8) -> bool {
    48 <= b && b <= 57
}

pub open spec fn is_lower_or_digit_byte(b: u8) -> bool {
    is_lower_byte(b) || is_digit_byte(b)
}

/// Explicit word separators recognized during canonicalization.
pub open spec fn is_separator_byte(b: u8) -> bool {
    b == DASH || b == UNDERSCORE
}

/// Word bytes in the sense of the match boundaries: ASCII letters,
/// digits and underscore.  A placeholder match may not touch a word
/// byte on either side.
pub open spec fn is_word_byte(b: u8) -> bool {
    is_upper_byte(b) || is_lower_byte(b) || is_digit_byte(b) || b == UNDERSCORE
}

pub open spec fn lower_byte_of(b: u8) -> u8 {
    if is_upper_byte(b) {
        (b + 32) as u8
    } else {
        b
    }
}

pub open spec fn upper_byte_of(b: u8) -> u8 {
    if is_lower_byte(b) {
        (b - 32) as u8
    } else {
        b
    }
}

/// Canonicalization of the suffix of `s` that starts at `i`.
///
/// `word_seen` records whether any non-separator byte stood before `i`.
/// A separator byte contributes nothing by itself; any other byte is
/// lowercased, preceded by a dash when it opens a new word: after an
/// explicit separator, or at a transition from lowercase/digit to
/// uppercase.  Dots are not boundaries and a pure lowercase run is not
/// split.
pub open spec fn canon_from(s: Seq<u8>, i: int, word_seen: bool) -> Seq<u8>
    decreases s.len() - i,
{
    if i < 0 || i >= s.len() {
        Seq::empty()
    } else if is_separator_byte(s[i]) {
        canon_from(s, i + 1, word_seen)
    } else {
        let opens_word = word_seen && (is_separator_byte(s[i - 1]) || (is_lower_or_digit_byte(
            s[i - 1],
        ) && is_upper_byte(s[i])));
        (if opens_word {
            seq![DASH]
        } else {
            Seq::<u8>::empty()
        }) + seq![lower_byte_of(s[i])] + canon_from(s, i + 1, true)
    }
}

/// The canonical name of a fragment.
pub open spec fn canon(s: Seq<u8>) -> Seq<u8> {
    canon_from(s, 0, false)
}

/// Reduces a case-family-specific fragment to its canonical name.
///
/// Word boundaries are only explicit `-`/`_` separators and transitions
/// from lowercase/digit to uppercase; dots are preserved verbatim and a
/// fragment with no detectable boundary stays flat.
pub fn canonicalize(fragment: &[u8]) -> (r: Vec<u8>)
    ensures
        r@ == canon(fragment@),
{
    let ghost s = fragment@;
    let mut out: Vec<u8> = Vec::new();
    let mut word_seen: bool = false;
    let mut prev: u8 = 0;
    let mut i: usize = 0;
    while i < fragment.len()
        invariant
            i <= fragment.len(),
            s == fragment@,
            i > 0 ==> prev == s[i - 1],
            word_seen ==> i > 0,
            out@ + canon_from(s, i as int, word_seen) == canon(s),
        decreases fragment.len() - i,
    {
        let b = fragment[i];
        if b == DASH || b == UNDERSCORE {
            proof {
                assert(out@ + canon_from(s, i + 1, word_seen) == canon(s));
            }
        } else {
            let ghost old_out = out@;
            let opens_word = word_seen && (prev == DASH || prev == UNDERSCORE || ((97 <= prev
                && prev <= 122 || 48 <= prev && prev <= 57) && 65 <= b && b <= 90));
            if opens_word {
                out.push(DASH);
            }
            let lb = if 65 <= b && b <= 90 {
                b + 32
            } else {
                b
            };
            out.push(lb);
            proof {
                let piece = (if opens_word {
                    seq![DASH]
                } else {
                    Seq::<u8>::empty()
                }) + seq![lower_byte_of(s[i as int])];
                assert(out@ =~= old_out + piece);
                assert(canon_from(s, i as int, word_seen) == piece + canon_from(s, i + 1, true));
                assert(out@ + canon_from(s, i + 1, true) =~= old_out + canon_from(
                    s,
                    i as int,
                    word_seen,
                ));
            }
            word_seen = true;
        }
        prev = b;
        i += 1;
    }
    out
}

/// The fixed substitution order of the nine families.
pub open spec fn family_ord(f: CaseFamily) -> int {
    match f {
        CaseFamily::PascalBranded => 0,
        CaseFamily::UpperSnakeBranded => 1,
        CaseFamily::UpperKebabBranded => 2,
        CaseFamily::UpperDotBranded => 3,
        CaseFamily::LowerSnakeBranded => 4,
        CaseFamily::LowerKebabBranded => 5,
        CaseFamily::LowerDotBranded => 6,
        CaseFamily::LowerFlatBranded => 7,
        CaseFamily::UpperFlatBranded => 8,
    }
}

pub open spec fn family_at_ord(i: int) -> CaseFamily {
    if i == 0 {
        CaseFamily::PascalBranded
    } else if i == 1 {
        CaseFamily::UpperSnakeBranded
    } else if i == 2 {
        CaseFamily::UpperKebabBranded
    } else if i == 3 {
        CaseFamily::UpperDotBranded
    } else if i == 4 {
        CaseFamily::LowerSnakeBranded
    } else if i == 5 {
        CaseFamily::LowerKebabBranded
    } else if i == 6 {
        CaseFamily::LowerDotBranded
    } else if i == 7 {
        CaseFamily::LowerFlatBranded
    } else {
        CaseFamily::UpperFlatBranded
    }
}

/// `family_ord` and `family_at_ord` are inverse bijections on `0..9`.
pub proof fn lemma_family_ord(f: CaseFamily)
    ensures
        0 <= family_ord(f) < 9,
        family_at_ord(family_ord(f)) == f,
{
}

/// The family whose substitution rank is `i`.
pub fn family_at(i: usize) -> (f: CaseFamily)
    requires
        i < 9,
    ensures
        f == family_at_ord(i as int),
{
    if i == 0 {
        CaseFamily::PascalBranded
    } else if i == 1 {
        CaseFamily::UpperSnakeBranded
    } else if i == 2 {
        CaseFamily::UpperKebabBranded
    } else if i == 3 {
        CaseFamily::UpperDotBranded
    } else if i == 4 {
        CaseFamily::LowerSnakeBranded
    } else if i == 5 {
        CaseFamily::LowerKebabBranded
    } else if i == 6 {
        CaseFamily::LowerDotBranded
    } else if i == 7 {
        CaseFamily::LowerFlatBranded
    } else {
        CaseFamily::UpperFlatBranded
    }
}

/// The literal sentinel rendering that opens a placeholder of family `f`:
/// `Scf`, `SCF_`, `SCF-`, `SCF.`, `scf_`, `scf-`, `scf.`, `scf` or `SCF`.
pub open spec fn sentinel(f: CaseFamily) -> Seq<u8> {
    match f {
        CaseFamily::PascalBranded => seq![83u8, 99u8, 102u8],
        CaseFamily::UpperSnakeBranded => seq![83u8, 67u8, 70u8, UNDERSCORE],
        CaseFamily::UpperKebabBranded => seq![83u8, 67u8, 70u8, DASH],
        CaseFamily::UpperDotBranded => seq![83u8, 67u8, 70u8, DOT],
        CaseFamily::LowerSnakeBranded => seq![115u8, 99u8, 102u8, UNDERSCORE],
        CaseFamily::LowerKebabBranded => seq![115u8, 99u8, 102u8, DASH],
        CaseFamily::LowerDotBranded => seq![115u8, 99u8, 102u8, DOT],
        CaseFamily::LowerFlatBranded => seq![115u8, 99u8, 102u8],
        CaseFamily::UpperFlatBranded => seq![83u8, 67u8, 70u8],
    }
}

/// The sentinel of family `f` as a byte vector.
pub fn sentinel_bytes(f: CaseFamily) -> (r: Vec<u8>)
    ensures
        r@ == sentinel(f),
{
    let mut r: Vec<u8> = Vec::new();
    match f {
        CaseFamily::PascalBranded => {
            r.push(83);
            r.push(99);
            r.push(102);
        },
        CaseFamily::UpperSnakeBranded => {
            r.push(83);
            r.push(67);
            r.push(70);
            r.push(UNDERSCORE);
        },
        CaseFamily::UpperKebabBranded => {
            r.push(83);
            r.push(67);
            r.push(70);
            r.push(DASH);
        },
        CaseFamily::UpperDotBranded => {
            r.push(83);
            r.push(67);
            r.push(70);
            r.push(DOT);
        },
        CaseFamily::LowerSnakeBranded => {
            r.push(115);
            r.push(99);
            r.push(102);
            r.push(UNDERSCORE);
        },
        CaseFamily::LowerKebabBranded => {
            r.push(115);
            r.push(99);
            r.push(102);
            r.push(DASH);
        },
        CaseFamily::LowerDotBranded => {
            r.push(115);
            r.push(99);
            r.push(102);
            r.push(DOT);
        },
        CaseFamily::LowerFlatBranded => {
            r.push(115);
            r.push(99);
            r.push(102);
        },
        CaseFamily::UpperFlatBranded => {
            r.push(83);
            r.push(67);
            r.push(70);
        },
    }
    proof {
        assert(r@ =~= sentinel(f));
    }
    r
}

/// What one byte of a canonical name contributes to the rendering of the
/// name in family `f`.  `opens_word` is true at the start of the name and
/// right after a dash.
pub open spec fn frag_piece(f: CaseFamily, b: u8, opens_word: bool) -> Seq<u8> {
    match f {
        CaseFamily::PascalBranded => if b == DASH {
            Seq::empty()
        } else if opens_word {
            seq![upper_byte_of(b)]
        } else {
            seq![b]
        },
        CaseFamily::UpperSnakeBranded => seq![
            if b == DASH {
                UNDERSCORE
            } else {
                upper_byte_of(b)
            },
        ],
        CaseFamily::UpperKebabBranded => seq![upper_byte_of(b)],
        CaseFamily::UpperDotBranded => seq![
            if b == DASH {
                DOT
            } else {
                upper_byte_of(b)
            },
        ],
        CaseFamily::LowerSnakeBranded => seq![
            if b == DASH {
                UNDERSCORE
            } else {
                b
            },
        ],
        CaseFamily::LowerKebabBranded => seq![b],
        CaseFamily::LowerDotBranded => seq![
            if b == DASH {
                DOT
            } else {
                b
            },
        ],
        CaseFamily::LowerFlatBranded => if b == DASH {
            Seq::empty()
        } else {
            seq![b]
        },
        CaseFamily::UpperFlatBranded => if b == DASH {
            Seq::empty()
        } else {
            seq![upper_byte_of(b)]
        },
    }
}

/// Rendering of the suffix of canonical name `s` that starts at `i`.
pub open spec fn render_frag_from(f: CaseFamily, s: Seq<u8>, i: int) -> Seq<u8>
    decreases s.len() - i,
{
    if i < 0 || i >= s.len() {
        Seq::empty()
    } else {
        frag_piece(f, s[i], i == 0 || s[i - 1] == DASH) + render_frag_from(f, s, i + 1)
    }
}

/// Projection of a canonical name into the surface form of family `f`,
/// without the sentinel.
pub open spec fn render_frag(f: CaseFamily, s: Seq<u8>) -> Seq<u8> {
    render_frag_from(f, s, 0)
}

/// The full surface form of a variable in family `f`: sentinel plus
/// rendered fragment.
pub open spec fn placeholder_of(f: CaseFamily, name: Seq<u8>) -> Seq<u8> {
    sentinel(f) + render_frag(f, name)
}

/// Renders a canonical name into family `f`, without the sentinel.
pub fn render_fragment(name: &[u8], f: CaseFamily) -> (r: Vec<u8>)
    ensures
        r@ == render_frag(f, name@),
{
    let ghost s = name@;
    let mut out: Vec<u8> = Vec::new();
    let mut prev: u8 = DASH;
    let mut i: usize = 0;
    while i < name.len()
        invariant
            i <= name.len(),
            s == name@,
            i > 0 ==> prev == s[i - 1],
            i == 0 ==> prev == DASH,
            out@ + render_frag_from(f, s, i as int) == render_frag(f, s),
        decreases name.len() - i,
    {
        let b = name[i];
        let ghost old_out = out@;
        let opens_word = prev == DASH;
        let up = if 97 <= b && b <= 122 {
            b - 32
        } else {
            b
        };
        match f {
            CaseFamily::PascalBranded => {
                if b != DASH {
                    if opens_word {
                        out.push(up);
                    } else {
                        out.push(b);
                    }
                }
            },
            CaseFamily::UpperSnakeBranded => {
                if b == DASH {
                    out.push(UNDERSCORE);
                } else {
                    out.push(up);
                }
            },
            CaseFamily::UpperKebabBranded => {
                out.push(up);
            },
            CaseFamily::UpperDotBranded => {
                if b == DASH {
                    out.push(DOT);
                } else {
                    out.push(up);
                }
            },
            CaseFamily::LowerSnakeBranded => {
                if b == DASH {
                    out.push(UNDERSCORE);
                } else {
                    out.push(b);
                }
            },
            CaseFamily::LowerKebabBranded => {
                out.push(b);
            },
            CaseFamily::LowerDotBranded => {
                if b == DASH {
                    out.push(DOT);
                } else {
                    out.push(b);
                }
            },
            CaseFamily::LowerFlatBranded => {
                if b != DASH {
                    out.push(b);
                }
            },
            CaseFamily::UpperFlatBranded => {
                if b != DASH {
                    out.push(up);
                }
            },
        }
        proof {
            let piece = frag_piece(f, s[i as int], i == 0 || s[i as int - 1] == DASH);
            assert(out@ =~= old_out + piece);
            assert(out@ + render_frag_from(f, s, i + 1) =~= old_out + render_frag_from(
                f,
                s,
                i as int,
            ));
        }
        prev = b;
        i += 1;
    }
    out
}

/// The shape of every canonical name: no uppercase, no underscore, and
/// every dash stands between two non-dash bytes.
pub open spec fn is_canonical(s: Seq<u8>) -> bool {
    forall|i: int|
        0 <= i < s.len() ==> (!is_upper_byte(#[trigger] s[i]) && s[i] != UNDERSCORE && (s[i] == DASH
            ==> 0 < i && i + 1 < s.len() && s[i + 1] != DASH))
}

/// Like [`is_canonical`] but a leading dash is tolerated: the shape of
/// a canonicalization suffix, which may open with a word dash.
spec fn tail_canonical(s: Seq<u8>) -> bool {
    forall|i: int|
        0 <= i < s.len() ==> (!is_upper_byte(#[trigger] s[i]) && s[i] != UNDERSCORE && (s[i] == DASH
            ==> i + 1 < s.len() && s[i + 1] != DASH))
}

proof fn lemma_canon_from_shape(s: Seq<u8>, i: int, ws: bool)
    ensures
        tail_canonical(canon_from(s, i, ws)),
        canon_from(s, i, ws).len() > 0 && canon_from(s, i, ws)[0] == DASH ==> ws,
    decreases s.len() - i,
{
    if i < 0 || i >= s.len() {
    } else if is_separator_byte(s[i]) {
        lemma_canon_from_shape(s, i + 1, ws);
    } else {
        lemma_canon_from_shape(s, i + 1, true);
        let rest = canon_from(s, i + 1, true);
        let opens_word = ws && (is_separator_byte(s[i - 1]) || (is_lower_or_digit_byte(s[i - 1])
            && is_upper_byte(s[i])));
        let pre = (if opens_word {
            seq![DASH]
        } else {
            Seq::<u8>::empty()
        }) + seq![lower_byte_of(s[i])];
        let r = canon_from(s, i, ws);
        assert(r == pre + rest);
        assert(lower_byte_of(s[i]) != DASH && lower_byte_of(s[i]) != UNDERSCORE && !is_upper_byte(
            lower_byte_of(s[i]),
        ));
        assert forall|k: int|
            0 <= k < r.len() implies (!is_upper_byte(#[trigger] r[k]) && r[k] != UNDERSCORE && (r[k]
            == DASH ==> k + 1 < r.len() && r[k + 1] != DASH)) by {
            if k >= pre.len() {
                assert(r[k] == rest[k - pre.len()]);
                if r[k] == DASH {
                    assert(rest[k - pre.len() + 1] != DASH);
                    assert(r[k + 1] == rest[k - pre.len() + 1]);
                }
            } else if k == pre.len() - 1 {
                assert(r[k] == lower_byte_of(s[i]));
            } else {
                assert(r[k] == DASH && k == 0 && opens_word);
                assert(r[k + 1] == lower_byte_of(s[i]));
            }
        }
    }
}

/// What canonicalization produces is canonical.
pub proof fn lemma_canon_canonical(s: Seq<u8>)
    ensures
        is_canonical(canon(s)),
{
    lemma_canon_from_shape(s, 0, false);
    let r = canon(s);
    assert forall|i: int|
        0 <= i < r.len() implies (!is_upper_byte(#[trigger] r[i]) && r[i] != UNDERSCORE && (r[i]
        == DASH ==> 0 < i && i + 1 < r.len() && r[i + 1] != DASH)) by {
        if r[i] == DASH && i == 0 {
            assert(false);
        }
    }
}

proof fn lemma_canon_from_of_canonical(s: Seq<u8>, i: int, ws: bool)
    requires
        is_canonical(s),
        0 <= i <= s.len(),
        ws <==> i > 0,
    ensures
        i < s.len() && s[i - 1] == DASH && i > 0 ==> canon_from(s, i, ws) == s.skip(i - 1),
        !(i < s.len() && i > 0 && s[i - 1] == DASH) ==> canon_from(s, i, ws) == s.skip(i),
    decreases s.len() - i,
{
    if i >= s.len() {
        assert(s.skip(i) =~= Seq::<u8>::empty());
    } else {
        lemma_canon_from_of_canonical(s, i + 1, true);
        if s[i] == DASH {
            // a canonical dash is surrounded by word bytes; it is skipped
            // here and re-emitted by the byte that follows it
            assert(0 < i && i + 1 < s.len() && s[i + 1] != DASH);
            assert(canon_from(s, i, ws) == canon_from(s, i + 1, true));
            assert(canon_from(s, i + 1, true) == s.skip(i));
        } else {
            let opens_word = ws && (is_separator_byte(s[i - 1]) || (is_lower_or_digit_byte(
                s[i - 1],
            ) && is_upper_byte(s[i])));
            assert(lower_byte_of(s[i]) == s[i]);
            if i > 0 && s[i - 1] == DASH {
                assert(opens_word);
                assert(canon_from(s, i, ws) == (seq![DASH] + seq![s[i]]) + canon_from(
                    s,
                    i + 1,
                    true,
                ));
                if i + 1 < s.len() && s[i] == DASH {
                    assert(false);
                }
                assert(canon_from(s, i + 1, true) == s.skip(i + 1));
                assert((seq![DASH] + seq![s[i]]) + s.skip(i + 1) =~= s.skip(i - 1));
            } else {
                if i > 0 {
                    assert(s[i - 1] != DASH && s[i - 1] != UNDERSCORE);
                    assert(!is_upper_byte(s[i]));
                    assert(!opens_word);
                } else {
                    assert(!opens_word);
                }
                assert(canon_from(s, i, ws) == (Seq::<u8>::empty() + seq![s[i]]) + canon_from(
                    s,
                    i + 1,
                    true,
                ));
                assert(canon_from(s, i + 1, true) == s.skip(i + 1));
                assert((Seq::<u8>::empty() + seq![s[i]]) + s.skip(i + 1) =~= s.skip(i));
            }
        }
    }
}

/// Canonicalization is stable: a canonical name passes through
/// unchanged.
pub proof fn lemma_canon_stable(s: Seq<u8>)
    requires
        is_canonical(s),
    ensures
        canon(s) == s,
{
    lemma_canon_from_of_canonical(s, 0, false);
    assert(s.skip(0) =~= s);
}

/// Canonicalization is idempotent: re-canonicalizing a canonical name
/// returns it unchanged.
pub proof fn lemma_canon_idempotent(s: Seq<u8>)
    ensures
        canon(canon(s)) == canon(s),
{
    lemma_canon_canonical(s);
    lemma_canon_stable(canon(s));
}

proof fn lemma_render_kebab_identity(n: Seq<u8>, i: int)
    requires
        0 <= i <= n.len(),
    ensures
        render_frag_from(CaseFamily::LowerKebabBranded, n, i) == n.skip(i),
    decreases n.len() - i,
{
    if i >= n.len() {
        assert(n.skip(i) =~= Seq::<u8>::empty());
    } else {
        lemma_render_kebab_identity(n, i + 1);
        assert(render_frag_from(CaseFamily::LowerKebabBranded, n, i) =~= seq![n[i]] + n.skip(
            i + 1,
        ));
        assert(n.skip(i) =~= seq![n[i]] + n.skip(i + 1));
    }
}

/// Canonicalization treats `-` and `_` alike, so two texts that differ
/// only in which of the two separators they use canonicalize alike.
proof fn lemma_canon_separator_agnostic(u: Seq<u8>, n: Seq<u8>, i: int, ws: bool)
    requires
        u.len() == n.len(),
        ws ==> i > 0,
        forall|j: int|
            0 <= j < n.len() ==> (#[trigger] u[j] == n[j] || (n[j] == DASH && u[j] == UNDERSCORE)),
    ensures
        canon_from(u, i, ws) == canon_from(n, i, ws),
    decreases n.len() - i,
{
    if i < 0 || i >= n.len() {
    } else {
        lemma_canon_separator_agnostic(u, n, i + 1, ws);
        lemma_canon_separator_agnostic(u, n, i + 1, true);
        assert(is_separator_byte(u[i]) == is_separator_byte(n[i]));
        if !is_separator_byte(n[i]) {
            assert(u[i] == n[i]);
            if i > 0 {
                assert(is_separator_byte(u[i - 1]) == is_separator_byte(n[i - 1]));
                assert(is_lower_or_digit_byte(u[i - 1]) == is_lower_or_digit_byte(n[i - 1]));
            }
        }
    }
}

/// The kebab family round-trips every canonical name exactly, hyphens
/// included: its rendered fragment is the name itself.
pub proof fn lemma_kebab_roundtrip(n: Seq<u8>)
    requires
        is_canonical(n),
    ensures
        canon(render_frag(CaseFamily::LowerKebabBranded, n)) == n,
{
    lemma_render_kebab_identity(n, 0);
    assert(n.skip(0) =~= n);
    lemma_canon_stable(n);
}

proof fn lemma_render_snake_shape(n: Seq<u8>, i: int)
    requires
        0 <= i <= n.len(),
    ensures
        render_frag_from(CaseFamily::LowerSnakeBranded, n, i).len() == n.len() - i,
        forall|k: int|
            0 <= k < n.len() - i ==> #[trigger] render_frag_from(
                CaseFamily::LowerSnakeBranded,
                n,
                i,
            )[k] == (if n[i + k] == DASH {
                UNDERSCORE
            } else {
                n[i + k]
            }),
    decreases n.len() - i,
{
    if i < 0 || i >= n.len() {
    } else {
        lemma_render_snake_shape(n, i + 1);
        assert forall|k: int|
            0 <= k < n.len() - i implies #[trigger] render_frag_from(
            CaseFamily::LowerSnakeBranded,
            n,
            i,
        )[k] == (if n[i + k] == DASH {
            UNDERSCORE
        } else {
            n[i + k]
        }) by {
            if k > 0 {
                assert(render_frag_from(CaseFamily::LowerSnakeBranded, n, i)[k]
                    == render_frag_from(CaseFamily::LowerSnakeBranded, n, i + 1)[k - 1]);
            }
        }
    }
}

/// The snake family round-trips every canonical name exactly: each
/// hyphen becomes an underscore and canonicalization folds it back.
pub proof fn lemma_snake_roundtrip(n: Seq<u8>)
    requires
        is_canonical(n),
    ensures
        canon(render_frag(CaseFamily::LowerSnakeBranded, n)) == n,
{
    lemma_render_snake_shape(n, 0);
    let u = render_frag(CaseFamily::LowerSnakeBranded, n);
    assert forall|j: int|
        0 <= j < n.len() implies (#[trigger] u[j] == n[j] || (n[j] == DASH && u[j]
        == UNDERSCORE)) by {
        assert(u[j] == (if n[j] == DASH {
            UNDERSCORE
        } else {
            n[j]
        }));
    }
    lemma_canon_separator_agnostic(u, n, 0, false);
    lemma_canon_stable(n);
}

/// The families whose rendering maps every byte of the name to exactly
/// one byte, independent of word position.
pub open spec fn is_bytewise_family(f: CaseFamily) -> bool {
    match f {
        CaseFamily::UpperSnakeBranded => true,
        CaseFamily::UpperKebabBranded => true,
        CaseFamily::UpperDotBranded => true,
        CaseFamily::LowerSnakeBranded => true,
        CaseFamily::LowerKebabBranded => true,
        CaseFamily::LowerDotBranded => true,
        _ => false,
    }
}

proof fn lemma_render_frag_bytewise(f: CaseFamily, n: Seq<u8>, i: int)
    requires
        is_bytewise_family(f),
        0 <= i <= n.len(),
    ensures
        render_frag_from(f, n, i).len() == n.len() - i,
        forall|k: int|
            0 <= k < n.len() - i ==> #[trigger] render_frag_from(f, n, i)[k] == frag_piece(
                f,
                n[i + k],
                true,
            )[0],
    decreases n.len() - i,
{
    if i >= n.len() {
    } else {
        lemma_render_frag_bytewise(f, n, i + 1);
        assert(frag_piece(f, n[i], i == 0 || n[i - 1] == DASH) == frag_piece(f, n[i], true));
        assert forall|k: int|
            0 <= k < n.len() - i implies #[trigger] render_frag_from(f, n, i)[k] == frag_piece(
            f,
            n[i + k],
            true,
        )[0] by {
            if k > 0 {
                assert(render_frag_from(f, n, i)[k] == render_frag_from(f, n, i + 1)[k - 1]);
            }
        }
    }
}

/// Canonicalizing a hump-free text whose separators stand exactly where
/// a canonical name has its dashes, and whose other bytes lowercase to
/// the name's bytes, recovers the name.
proof fn lemma_canon_projection(u: Seq<u8>, n: Seq<u8>, i: int, ws: bool)
    requires
        u.len() == n.len(),
        is_canonical(n),
        0 <= i <= n.len(),
        ws <==> i > 0,
        forall|j: int| 0 <= j < n.len() ==> (is_separator_byte(#[trigger] u[j]) <==> n[j] == DASH),
        forall|j: int| 0 <= j < n.len() && n[j] != DASH ==> lower_byte_of(#[trigger] u[j]) == n[j],
        forall|j: int|
            1 <= j < u.len() ==> !(is_lower_or_digit_byte(u[j - 1]) && is_upper_byte(
                #[trigger] u[j],
            )),
    ensures
        i < n.len() && i > 0 && n[i - 1] == DASH ==> canon_from(u, i, ws) == n.skip(i - 1),
        !(i < n.len() && i > 0 && n[i - 1] == DASH) ==> canon_from(u, i, ws) == n.skip(i),
    decreases n.len() - i,
{
    if i >= n.len() {
        assert(n.skip(i) =~= Seq::<u8>::empty());
    } else {
        lemma_canon_projection(u, n, i + 1, true);
        if n[i] == DASH {
            assert(0 < i && i + 1 < n.len() && n[i + 1] != DASH);
            assert(is_separator_byte(u[i]));
            assert(canon_from(u, i, ws) == canon_from(u, i + 1, true));
            assert(canon_from(u, i + 1, true) == n.skip(i));
        } else {
            assert(!is_separator_byte(u[i]));
            let opens_word = ws && (is_separator_byte(u[i - 1]) || (is_lower_or_digit_byte(
                u[i - 1],
            ) && is_upper_byte(u[i])));
            if i > 0 && n[i - 1] == DASH {
                assert(opens_word);
                assert(canon_from(u, i, ws) == (seq![DASH] + seq![n[i]]) + canon_from(
                    u,
                    i + 1,
                    true,
                ));
                assert(canon_from(u, i + 1, true) == n.skip(i + 1));
                assert((seq![DASH] + seq![n[i]]) + n.skip(i + 1) =~= n.skip(i - 1));
            } else {
                if i > 0 {
                    assert(!is_separator_byte(u[i - 1]));
                }
                assert(!opens_word);
                assert(canon_from(u, i, ws) == (Seq::<u8>::empty() + seq![n[i]]) + canon_from(
                    u,
                    i + 1,
                    true,
                ));
                assert(canon_from(u, i + 1, true) == n.skip(i + 1));
                assert((Seq::<u8>::empty() + seq![n[i]]) + n.skip(i + 1) =~= n.skip(i));
            }
        }
    }
}

/// The upper snake and upper kebab families round-trip a canonical
/// name exactly, hyphens included: their separators canonicalize back
/// to the hyphen, and lowercasing undoes the uppercasing.  (A digit
/// directly followed by a letter would read as a case hump after
/// uppercasing, so such names are left out, as in the dash-free law.)
pub proof fn lemma_upper_separated_roundtrip(n: Seq<u8>, f: CaseFamily)
    requires
        f == CaseFamily::UpperSnakeBranded || f == CaseFamily::UpperKebabBranded,
        is_canonical(n),
        forall|j: int|
            0 <= j < n.len() ==> (is_lower_byte(#[trigger] n[j]) || is_digit_byte(n[j]) || n[j]
                == DOT || n[j] == DASH),
        forall|j: int|
            0 <= j + 1 < n.len() && is_digit_byte(#[trigger] n[j]) ==> !is_lower_byte(n[j + 1]),
    ensures
        canon(render_frag(f, n)) == n,
{
    lemma_render_frag_bytewise(f, n, 0);
    let u = render_frag(f, n);
    assert forall|j: int|
        0 <= j < n.len() implies (is_separator_byte(#[trigger] u[j]) <==> n[j] == DASH) && (n[j]
        != DASH ==> lower_byte_of(u[j]) == n[j]) by {
        assert(u[j] == frag_piece(f, n[j], true)[0]);
    }
    assert forall|j: int|
        1 <= j < u.len() implies !(is_lower_or_digit_byte(u[j - 1]) && is_upper_byte(
        #[trigger] u[j],
    )) by {
        assert(u[j] == frag_piece(f, n[j], true)[0]);
        assert(u[j - 1] == frag_piece(f, n[j - 1], true)[0]);
    }
    lemma_canon_projection(u, n, 0, false);
    assert(n.skip(0) =~= n);
}

/// The byte that the rendering of a dash-free canonical name holds at
/// position `j`: uppercased at a word start for the Pascal family,
/// uppercased everywhere for the upper families, unchanged for the
/// lower families.
pub open spec fn frag_byte(f: CaseFamily, j: int, n: Seq<u8>) -> u8 {
    match f {
        CaseFamily::PascalBranded => if j == 0 {
            upper_byte_of(n[j])
        } else {
            n[j]
        },
        CaseFamily::UpperSnakeBranded => upper_byte_of(n[j]),
        CaseFamily::UpperKebabBranded => upper_byte_of(n[j]),
        CaseFamily::UpperDotBranded => upper_byte_of(n[j]),
        CaseFamily::LowerSnakeBranded => n[j],
        CaseFamily::LowerKebabBranded => n[j],
        CaseFamily::LowerDotBranded => n[j],
        CaseFamily::LowerFlatBranded => n[j],
        CaseFamily::UpperFlatBranded => upper_byte_of(n[j]),
    }
}

/// For a name without dashes every family's rendering maps the name
/// byte for byte.
proof fn lemma_render_frag_shape(f: CaseFamily, n: Seq<u8>, i: int)
    requires
        0 <= i <= n.len(),
        forall|j: int| 0 <= j < n.len() ==> #[trigger] n[j] != DASH,
    ensures
        render_frag_from(f, n, i).len() == n.len() - i,
        forall|k: int|
            0 <= k < n.len() - i ==> #[trigger] render_frag_from(f, n, i)[k] == frag_byte(
                f,
                i + k,
                n,
            ),
    decreases n.len() - i,
{
    if i >= n.len() {
    } else {
        lemma_render_frag_shape(f, n, i + 1);
        let piece = frag_piece(f, n[i], i == 0 || n[i - 1] == DASH);
        assert(piece.len() == 1);
        assert(piece[0] == frag_byte(f, i, n));
        assert forall|k: int|
            0 <= k < n.len() - i implies #[trigger] render_frag_from(f, n, i)[k] == frag_byte(
            f,
            i + k,
            n,
        ) by {
            if k > 0 {
                assert(render_frag_from(f, n, i)[k] == render_frag_from(f, n, i + 1)[k - 1]);
            }
        }
    }
}

/// Canonicalizing a text without separators and without case humps
/// lowercases it byte for byte.
proof fn lemma_canon_of_unseparated(u: Seq<u8>, n: Seq<u8>, i: int, ws: bool)
    requires
        u.len() == n.len(),
        0 <= i <= n.len(),
        ws ==> i > 0,
        forall|j: int| 0 <= j < u.len() ==> !is_separator_byte(#[trigger] u[j]),
        forall|j: int| 0 <= j < u.len() ==> lower_byte_of(#[trigger] u[j]) == n[j],
        forall|j: int|
            1 <= j < u.len() ==> !(is_lower_or_digit_byte(u[j - 1]) && is_upper_byte(
                #[trigger] u[j],
            )),
    ensures
        canon_from(u, i, ws) == n.skip(i),
    decreases n.len() - i,
{
    if i >= n.len() {
        assert(n.skip(i) =~= Seq::<u8>::empty());
    } else {
        lemma_canon_of_unseparated(u, n, i + 1, true);
        assert(canon_from(u, i, ws) == (Seq::<u8>::empty() + seq![lower_byte_of(u[i])])
            + canon_from(u, i + 1, true));
        assert(canon_from(u, i, ws) =~= seq![n[i]] + n.skip(i + 1));
        assert(n.skip(i) =~= seq![n[i]] + n.skip(i + 1));
    }
}

/// Canonicalization round-trip: rendering a canonical name that holds
/// no internal hyphen into any of the nine families, then
/// canonicalizing the rendered fragment, gives the name back.
///
/// Two exclusions are inherent.  A name with a hyphen survives only the
/// families whose separators canonicalize back to a hyphen; a dot or
/// flat rendering cannot re-express the hyphen, so those forms are
/// lossy by design.  And a digit directly followed by a letter (as in
/// `a1b`) reads as a case hump after uppercasing, so the upper families
/// split it; such names are left out here.
pub proof fn lemma_canonicalize_render_roundtrip(n: Seq<u8>, f: CaseFamily)
    requires
        n.len() > 0,
        is_lower_byte(n[0]),
        forall|j: int|
            0 <= j < n.len() ==> (is_lower_byte(#[trigger] n[j]) || is_digit_byte(n[j]) || n[j]
                == DOT),
        forall|j: int|
            0 <= j + 1 < n.len() && is_digit_byte(#[trigger] n[j]) ==> !is_lower_byte(n[j + 1]),
    ensures
        canon(render_frag(f, n)) == n,
{
    lemma_render_frag_shape(f, n, 0);
    let u = render_frag(f, n);
    assert forall|j: int| 0 <= j < u.len() implies !is_separator_byte(#[trigger] u[j])
        && lower_byte_of(u[j]) == n[j] by {
        assert(u[j] == frag_byte(f, j, n));
    }
    assert forall|j: int|
        1 <= j < u.len() implies !(is_lower_or_digit_byte(u[j - 1]) && is_upper_byte(
        #[trigger] u[j],
    )) by {
        assert(u[j] == frag_byte(f, j, n));
        assert(u[j - 1] == frag_byte(f, j - 1, n));
    }
    lemma_canon_of_unseparated(u, n, 0, false);
    assert(n.skip(0) =~= n);
}

/// The full placeholder of a variable in family `f`.
pub fn render(name: &[u8], f: CaseFamily) -> (r: Vec<u8>)
    ensures
        r@ == placeholder_of(f, name@),
{
    let mut r = sentinel_bytes(f);
    let mut frag = render_fragment(name, f);
    r.append(&mut frag);
    r
}



} // verus!
