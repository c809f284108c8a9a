//! The scaffolding configuration: template directories and named
//! template URLs, in a project-local and a user-global tier.
//!
//! Loading and saving the on-disk configuration files is I/O and stays
//! with the caller; this module holds the merge rules the resolver
//! relies on: local directories come before global ones, and a local
//! URL entry overrides a global entry of the same name.

use vstd::prelude::*;

use vstd::pervasive::VecAdditionalExecFns;

use crate::engine::bytes_eq;
use crate::engine::copy_range;
use crate::engine::pairs_view;
use crate::template::names_view;

verus! {

/// One tier of the configuration, as its on-disk file states it:
/// a list of template directories and an optional name-to-URL mapping.
pub struct ScafferConfig {
    /// Template directory paths.
    pub scaffer: Vec<Vec<u8>>,
    /// Named template URLs; `None` when the file has no such table.
    pub scaffer_template_urls: Option<Vec<(Vec<u8>, Vec<u8>)>>,
}

/// The directory paths of one tier, in file order.
pub open spec fn dirs_view(c: &ScafferConfig) -> Seq<Seq<u8>> {
    names_view(c.scaffer@)
}

/// The URL mapping of one tier as (name, url) pairs.
pub open spec fn urls_view(c: &ScafferConfig) -> Seq<(Seq<u8>, Seq<u8>)> {
    match c.scaffer_template_urls {
        Option::None => Seq::empty(),
        Option::Some(v) => pairs_view(v@),
    }
}

/// Every name owns at most one entry.
pub open spec fn urls_unique(pairs: Seq<(Seq<u8>, Seq<u8>)>) -> bool {
    forall|m1: int, m2: int| 0 <= m1 < m2 < pairs.len() ==> pairs[m1].0 != pairs[m2].0
}

/// `pairs` maps the name `n` to some URL.
pub open spec fn has_url_key(pairs: Seq<(Seq<u8>, Seq<u8>)>, n: Seq<u8>) -> bool {
    exists|m: int| 0 <= m < pairs.len() && pairs[m].0 == n
}

/// The URL of the first entry named `n`.
pub open spec fn url_lookup_spec(pairs: Seq<(Seq<u8>, Seq<u8>)>, n: Seq<u8>) -> Seq<u8>
    decreases pairs.len(),
{
    if pairs.len() == 0 {
        Seq::empty()
    } else if pairs[0].0 == n {
        pairs[0].1
    } else {
        url_lookup_spec(pairs.skip(1), n)
    }
}

/// Insertion of `(name, url)`: an existing entry of the same name is
/// overwritten in place, a new name is appended.
pub open spec fn url_insert_spec(
    pairs: Seq<(Seq<u8>, Seq<u8>)>,
    name: Seq<u8>,
    url: Seq<u8>,
) -> Seq<(Seq<u8>, Seq<u8>)>
    decreases pairs.len(),
{
    if pairs.len() == 0 {
        seq![(name, url)]
    } else if pairs[0].0 == name {
        seq![(name, url)] + pairs.skip(1)
    } else {
        seq![pairs[0]] + url_insert_spec(pairs.skip(1), name, url)
    }
}

proof fn lemma_url_insert_prefix(pairs: Seq<(Seq<u8>, Seq<u8>)>, name: Seq<u8>, url: Seq<u8>, m: int)
    requires
        0 <= m <= pairs.len(),
        forall|q: int| 0 <= q < m ==> pairs[q].0 != name,
    ensures
        url_insert_spec(pairs, name, url) == pairs.take(m) + url_insert_spec(
            pairs.skip(m),
            name,
            url,
        ),
    decreases m,
{
    if m == 0 {
        assert(pairs.skip(0) =~= pairs);
        assert(pairs.take(0) + url_insert_spec(pairs, name, url) =~= url_insert_spec(
            pairs,
            name,
            url,
        ));
    } else {
        lemma_url_insert_prefix(pairs, name, url, m - 1);
        let tail = pairs.skip(m - 1);
        assert(tail[0] == pairs[m - 1]);
        assert(tail.skip(1) =~= pairs.skip(m));
        assert(url_insert_spec(tail, name, url) == seq![tail[0]] + url_insert_spec(
            pairs.skip(m),
            name,
            url,
        ));
        assert(pairs.take(m - 1) + (seq![pairs[m - 1]] + url_insert_spec(pairs.skip(m), name, url))
            =~= pairs.take(m) + url_insert_spec(pairs.skip(m), name, url));
    }
}

/// The URL of a matching entry at a known first index is what the
/// lookup returns.
pub proof fn lemma_url_lookup_at(pairs: Seq<(Seq<u8>, Seq<u8>)>, n: Seq<u8>, m: int)
    requires
        0 <= m < pairs.len(),
        forall|q: int| 0 <= q < m ==> pairs[q].0 != n,
        pairs[m].0 == n,
    ensures
        url_lookup_spec(pairs, n) == pairs[m].1,
    decreases m,
{
    if m == 0 {
    } else {
        assert(pairs.skip(1)[m - 1] == pairs[m]);
        assert(forall|q: int| 0 <= q < m - 1 ==> pairs.skip(1)[q] == pairs[q + 1]);
        lemma_url_lookup_at(pairs.skip(1), n, m - 1);
    }
}

/// Inserts `(name, url)` into a pair list, overwriting the entry of the
/// same name when one exists.
fn url_insert(pairs: &mut Vec<(Vec<u8>, Vec<u8>)>, name: Vec<u8>, url: Vec<u8>)
    requires
        urls_unique(pairs_view(old(pairs)@)),
    ensures
        pairs_view(final(pairs)@) == url_insert_spec(pairs_view(old(pairs)@), name@, url@),
        urls_unique(pairs_view(final(pairs)@)),
{
    let ghost vars0 = pairs_view(pairs@);
    let ghost raw0 = pairs@;
    let ghost n_v = name@;
    let ghost u_v = url@;
    let mut m: usize = 0;
    while m < pairs.len()
        invariant
            m <= pairs.len(),
            vars0 == pairs_view(pairs@),
            vars0 == pairs_view(old(pairs)@),
            raw0 == pairs@,
            n_v == name@,
            u_v == url@,
            urls_unique(vars0),
            forall|q: int| 0 <= q < m ==> vars0[q].0 != n_v,
        decreases pairs.len() - m,
    {
        if bytes_eq(pairs[m].0.as_slice(), name.as_slice()) {
            proof {
                lemma_url_insert_prefix(vars0, n_v, u_v, m as int);
                let tail = vars0.skip(m as int);
                assert(tail[0] == vars0[m as int]);
                assert(tail.skip(1) =~= vars0.skip(m + 1));
            }
            pairs.set(m, (name, url));
            proof {
                let goal = vars0.take(m as int) + (seq![(n_v, u_v)] + vars0.skip(m + 1));
                assert forall|ii: int|
                    0 <= ii < pairs_view(pairs@).len() implies pairs_view(pairs@)[ii]
                    == goal[ii] by {
                    if ii != m as int {
                        assert(pairs@[ii] == raw0[ii]);
                        assert(pairs_view(pairs@)[ii] == vars0[ii]);
                    } else {
                        assert(pairs_view(pairs@)[ii] == (n_v, u_v));
                    }
                }
                assert(pairs_view(pairs@) =~= goal);
                assert(pairs_view(pairs@) == url_insert_spec(vars0, n_v, u_v));
                assert forall|m1: int, m2: int|
                    0 <= m1 < m2 < pairs_view(pairs@).len() implies pairs_view(pairs@)[m1].0
                    != pairs_view(pairs@)[m2].0 by {
                    assert(pairs_view(pairs@)[m1].0 == vars0[m1].0) by {
                        if m1 != m as int {
                            assert(pairs@[m1] == raw0[m1]);
                        } else {
                            assert(vars0[m as int].0 == n_v);
                        }
                    }
                    assert(pairs_view(pairs@)[m2].0 == vars0[m2].0) by {
                        if m2 != m as int {
                            assert(pairs@[m2] == raw0[m2]);
                        } else {
                            assert(vars0[m as int].0 == n_v);
                        }
                    }
                }
            }
            return ;
        }
        proof {
            assert(vars0[m as int] == (pairs@[m as int].0@, pairs@[m as int].1@));
            assert(vars0[m as int].0 != n_v);
        }
        m += 1;
    }
    proof {
        lemma_url_insert_prefix(vars0, n_v, u_v, vars0.len() as int);
        assert(vars0.skip(vars0.len() as int) =~= Seq::<(Seq<u8>, Seq<u8>)>::empty());
        assert(vars0.take(vars0.len() as int) =~= vars0);
    }
    pairs.push((name, url));
    proof {
        assert(pairs@ == raw0.push(pairs@[raw0.len() as int]));
        assert forall|ii: int|
            0 <= ii < pairs_view(pairs@).len() implies pairs_view(pairs@)[ii] == (vars0 + seq![
            (n_v, u_v),
        ])[ii] by {
            if ii < raw0.len() {
                assert(pairs@[ii] == raw0[ii]);
                assert(pairs_view(pairs@)[ii] == vars0[ii]);
            } else {
                assert(pairs_view(pairs@)[ii] == (n_v, u_v));
            }
        }
        assert(pairs_view(pairs@) =~= vars0 + seq![(n_v, u_v)]);
        assert(vars0 + seq![(n_v, u_v)] =~= vars0.take(vars0.len() as int) + url_insert_spec(
            vars0.skip(vars0.len() as int),
            n_v,
            u_v,
        ));
        assert forall|m1: int, m2: int|
            0 <= m1 < m2 < pairs_view(pairs@).len() implies pairs_view(pairs@)[m1].0 != pairs_view(
            pairs@,
        )[m2].0 by {
            if m2 < vars0.len() {
                assert(pairs@[m1] == raw0[m1]);
                assert(pairs@[m2] == raw0[m2]);
            } else {
                if m1 < vars0.len() {
                    assert(pairs@[m1] == raw0[m1]);
                    assert(pairs_view(pairs@)[m1] == vars0[m1]);
                    assert(pairs_view(pairs@)[m2].0 == n_v);
                }
            }
        }
    }
}

/// Appends a copy of every name of `src` to `out`.
fn push_all_names(out: &mut Vec<Vec<u8>>, src: &Vec<Vec<u8>>)
    ensures
        names_view(final(out)@) == names_view(old(out)@) + names_view(src@),
{
    let mut q: usize = 0;
    while q < src.len()
        invariant
            q <= src.len(),
            names_view(out@) == names_view(old(out)@) + names_view(src@).take(q as int),
        decreases src.len() - q,
    {
        let ghost before = out@;
        let c = copy_range(src[q].as_slice(), 0, src[q].len());
        proof {
            assert(c@ =~= src@[q as int]@);
        }
        out.push(c);
        proof {
            let goal = names_view(old(out)@) + names_view(src@).take(q + 1);
            assert(out@ == before.push(c));
            assert(names_view(before) == names_view(old(out)@) + names_view(src@).take(q as int));
            assert(names_view(before).len() == before.len());
            assert(names_view(out@).len() == out@.len());
            assert(before.len() == names_view(old(out)@).len() + q);
            assert forall|ii: int|
                0 <= ii < names_view(out@).len() implies names_view(out@)[ii] == goal[ii] by {
                if ii < before.len() {
                    assert(out@[ii] == before[ii]);
                    assert(names_view(before)[ii] == (names_view(old(out)@) + names_view(
                        src@,
                    ).take(q as int))[ii]);
                } else {
                    assert(out@[ii] == c);
                    assert(ii == names_view(old(out)@).len() + q);
                    assert(goal[ii] == names_view(src@).take(q + 1)[q as int]);
                    assert(names_view(src@)[q as int] == src@[q as int]@);
                }
            }
            assert(names_view(out@) =~= goal);
        }
        q += 1;
    }
    proof {
        assert(names_view(src@).take(src@.len() as int) =~= names_view(src@));
    }
}

/// Appends a copy of every (name, url) pair of `src` to `out`.
fn push_all_pairs(out: &mut Vec<(Vec<u8>, Vec<u8>)>, src: &Vec<(Vec<u8>, Vec<u8>)>)
    ensures
        pairs_view(final(out)@) == pairs_view(old(out)@) + pairs_view(src@),
{
    let mut q: usize = 0;
    while q < src.len()
        invariant
            q <= src.len(),
            pairs_view(out@) == pairs_view(old(out)@) + pairs_view(src@).take(q as int),
        decreases src.len() - q,
    {
        let ghost before = out@;
        let n = copy_range(src[q].0.as_slice(), 0, src[q].0.len());
        let u = copy_range(src[q].1.as_slice(), 0, src[q].1.len());
        proof {
            assert(n@ =~= src@[q as int].0@);
            assert(u@ =~= src@[q as int].1@);
        }
        out.push((n, u));
        proof {
            let goal = pairs_view(old(out)@) + pairs_view(src@).take(q + 1);
            assert(out@ == before.push((n, u)));
            assert(pairs_view(before) == pairs_view(old(out)@) + pairs_view(src@).take(q as int));
            assert(pairs_view(before).len() == before.len());
            assert(pairs_view(out@).len() == out@.len());
            assert(before.len() == pairs_view(old(out)@).len() + q);
            assert forall|ii: int|
                0 <= ii < pairs_view(out@).len() implies pairs_view(out@)[ii] == goal[ii] by {
                if ii < before.len() {
                    assert(out@[ii] == before[ii]);
                    assert(pairs_view(before)[ii] == (pairs_view(old(out)@) + pairs_view(
                        src@,
                    ).take(q as int))[ii]);
                } else {
                    assert(out@[ii] == (n, u));
                    assert(ii == pairs_view(old(out)@).len() + q);
                    assert(goal[ii] == pairs_view(src@).take(q + 1)[q as int]);
                    assert(pairs_view(src@)[q as int] == (src@[q as int].0@, src@[q as int].1@));
                }
            }
            assert(pairs_view(out@) =~= goal);
        }
        q += 1;
    }
    proof {
        assert(pairs_view(src@).take(src@.len() as int) =~= pairs_view(src@));
    }
}

/// The merged URL mapping, over the pairs of `l` from rank `vi` on.
pub open spec fn url_merge_from(
    g: Seq<(Seq<u8>, Seq<u8>)>,
    l: Seq<(Seq<u8>, Seq<u8>)>,
    vi: int,
) -> Seq<(Seq<u8>, Seq<u8>)>
    decreases l.len() - vi,
{
    if vi < 0 || vi >= l.len() {
        g
    } else {
        url_merge_from(url_insert_spec(g, l[vi].0, l[vi].1), l, vi + 1)
    }
}

/// The global mapping with every local pair inserted over it: a local
/// entry overrides the global entry of the same name.
pub open spec fn url_merge_spec(
    g: Seq<(Seq<u8>, Seq<u8>)>,
    l: Seq<(Seq<u8>, Seq<u8>)>,
) -> Seq<(Seq<u8>, Seq<u8>)> {
    url_merge_from(g, l, 0)
}

impl ScafferConfig {
    /// Names in the URL mapping of this tier are unique.
    pub open spec fn wf(&self) -> bool {
        urls_unique(urls_view(self))
    }

    /// An empty configuration tier: no directories, and no URL table
    /// at all.
    pub fn new() -> (r: Self)
        ensures
            r.scaffer@.len() == 0,
            r.scaffer_template_urls is None,
            dirs_view(&r) == Seq::<Seq<u8>>::empty(),
            urls_view(&r) == Seq::<(Seq<u8>, Seq<u8>)>::empty(),
            r.wf(),
    {
        let r = ScafferConfig { scaffer: Vec::new(), scaffer_template_urls: Option::None };
        proof {
            assert(dirs_view(&r) =~= Seq::<Seq<u8>>::empty());
        }
        r
    }

    /// Appends a template directory to this tier.
    pub fn add_template_path(&mut self, path: Vec<u8>)
        ensures
            dirs_view(final(self)) == dirs_view(old(self)).push(path@),
            final(self).scaffer_template_urls == old(self).scaffer_template_urls,
    {
        self.scaffer.push(path);
        proof {
            assert(dirs_view(self) =~= dirs_view(old(self)).push(self.scaffer@.last()@));
        }
    }

    /// Maps `name` to `url` in this tier, overwriting an existing entry
    /// of the same name.
    pub fn add_template_url(&mut self, name: Vec<u8>, url: Vec<u8>)
        requires
            old(self).wf(),
        ensures
            urls_view(final(self)) == url_insert_spec(urls_view(old(self)), name@, url@),
            final(self).scaffer == old(self).scaffer,
            final(self).wf(),
    {
        let cur = self.scaffer_template_urls.take();
        let mut v: Vec<(Vec<u8>, Vec<u8>)> = match cur {
            Option::Some(v) => v,
            Option::None => Vec::new(),
        };
        proof {
            assert(pairs_view(v@) == urls_view(old(self)));
        }
        url_insert(&mut v, name, url);
        self.scaffer_template_urls = Option::Some(v);
    }

    /// All template directories for a run: the local tier's directories
    /// followed by the global tier's, duplicates kept.
    pub fn get_template_directories(&self, global: &ScafferConfig) -> (r: Vec<Vec<u8>>)
        ensures
            names_view(r@) == dirs_view(self) + dirs_view(global),
    {
        let mut out: Vec<Vec<u8>> = Vec::new();
        proof {
            assert(names_view(out@) =~= Seq::<Seq<u8>>::empty());
        }
        push_all_names(&mut out, &self.scaffer);
        push_all_names(&mut out, &global.scaffer);
        proof {
            assert((Seq::<Seq<u8>>::empty() + dirs_view(self)) + dirs_view(global) =~= dirs_view(
                self,
            ) + dirs_view(global));
        }
        out
    }

    /// The URL mapping for a run: the global tier's entries with every
    /// local entry inserted over them, so a local name wins.
    pub fn get_template_urls(&self, global: &ScafferConfig) -> (r: Vec<(Vec<u8>, Vec<u8>)>)
        requires
            global.wf(),
        ensures
            pairs_view(r@) == url_merge_spec(urls_view(global), urls_view(self)),
            urls_unique(pairs_view(r@)),
    {
        let mut out: Vec<(Vec<u8>, Vec<u8>)> = Vec::new();
        proof {
            assert(pairs_view(out@) =~= Seq::<(Seq<u8>, Seq<u8>)>::empty());
        }
        match &global.scaffer_template_urls {
            Option::Some(g) => {
                push_all_pairs(&mut out, g);
            },
            Option::None => {},
        }
        proof {
            assert(Seq::<(Seq<u8>, Seq<u8>)>::empty() + urls_view(global) =~= urls_view(global));
            assert(pairs_view(out@) == urls_view(global));
        }
        let ghost g0 = urls_view(global);
        let ghost l0 = urls_view(self);
        match &self.scaffer_template_urls {
            Option::Some(l) => {
                let mut vi: usize = 0;
                while vi < l.len()
                    invariant
                        vi <= l.len(),
                        l0 == pairs_view(l@),
                        urls_unique(pairs_view(out@)),
                        url_merge_from(pairs_view(out@), l0, vi as int) == url_merge_spec(g0, l0),
                    decreases l.len() - vi,
                {
                    let n = copy_range(l[vi].0.as_slice(), 0, l[vi].0.len());
                    let u = copy_range(l[vi].1.as_slice(), 0, l[vi].1.len());
                    proof {
                        assert(n@ =~= l@[vi as int].0@);
                        assert(u@ =~= l@[vi as int].1@);
                        assert(l0[vi as int] == (l@[vi as int].0@, l@[vi as int].1@));
                    }
                    url_insert(&mut out, n, u);
                    vi += 1;
                }
            },
            Option::None => {},
        }
        out
    }
}







/// Strict byte-lexicographic order.
pub open spec fn lex_lt(a: Seq<u8>, b: Seq<u8>) -> bool
    decreases a.len(),
{
    if b.len() == 0 {
        false
    } else if a.len() == 0 {
        true
    } else if a[0] < b[0] {
        true
    } else if a[0] > b[0] {
        false
    } else {
        lex_lt(a.skip(1), b.skip(1))
    }
}

/// Two byte strings compare equal, or one is lexicographically below
/// the other.
proof fn lemma_lex_total(a: Seq<u8>, b: Seq<u8>)
    ensures
        a == b || lex_lt(a, b) || lex_lt(b, a),
    decreases a.len(),
{
    if b.len() == 0 || a.len() == 0 {
        if a.len() == 0 && b.len() == 0 {
            assert(a =~= b);
        }
    } else if a[0] == b[0] {
        lemma_lex_total(a.skip(1), b.skip(1));
        if a.skip(1) == b.skip(1) {
            assert(a.skip(1).len() == a.len() - 1);
            assert(b.skip(1).len() == b.len() - 1);
            assert(a.len() == b.len());
            assert forall|k: int| 0 <= k < a.len() implies a[k] == b[k] by {
                if k > 0 {
                    assert(a.skip(1)[k - 1] == a[k]);
                    assert(b.skip(1)[k - 1] == b[k]);
                }
            }
            assert(a =~= b);
        }
    }
}

/// Chopping an equal prefix off both strings keeps their order.
proof fn lemma_lex_skip(a: Seq<u8>, b: Seq<u8>, i: int)
    requires
        0 <= i <= a.len(),
        i <= b.len(),
        forall|j: int| 0 <= j < i ==> a[j] == b[j],
    ensures
        lex_lt(a, b) == lex_lt(a.skip(i), b.skip(i)),
    decreases i,
{
    if i > 0 {
        assert(a.skip(1).skip(i - 1) =~= a.skip(i));
        assert(b.skip(1).skip(i - 1) =~= b.skip(i));
        assert forall|j: int| 0 <= j < i - 1 implies a.skip(1)[j] == b.skip(1)[j] by {
            assert(a[j + 1] == b[j + 1]);
        }
        lemma_lex_skip(a.skip(1), b.skip(1), i - 1);
    } else {
        assert(a.skip(0) =~= a);
        assert(b.skip(0) =~= b);
    }
}

/// How two byte strings compare.
#[derive(Clone, Copy, Debug, PartialEq, Eq, Structural)]
pub enum Cmp {
    Less,
    Equal,
    Greater,
}

/// Byte-lexicographic comparison.
pub fn lex_cmp(a: &[u8], b: &[u8]) -> (r: Cmp)
    ensures
        r == Cmp::Less ==> lex_lt(a@, b@),
        r == Cmp::Equal ==> a@ == b@,
        r == Cmp::Greater ==> lex_lt(b@, a@),
{
    let mut i: usize = 0;
    while i < a.len() && i < b.len()
        invariant
            i <= a.len(),
            i <= b.len(),
            forall|j: int| 0 <= j < i ==> a@[j] == b@[j],
        decreases a.len() - i,
    {
        if a[i] < b[i] {
            proof {
                lemma_lex_skip(a@, b@, i as int);
            }
            return Cmp::Less;
        }
        if a[i] > b[i] {
            proof {
                lemma_lex_skip(b@, a@, i as int);
            }
            return Cmp::Greater;
        }
        i += 1;
    }
    if a.len() < b.len() {
        proof {
            lemma_lex_skip(a@, b@, a@.len() as int);
            assert(a@.skip(a@.len() as int) =~= Seq::<u8>::empty());
        }
        Cmp::Less
    } else if a.len() > b.len() {
        proof {
            lemma_lex_skip(b@, a@, b@.len() as int);
            assert(b@.skip(b@.len() as int) =~= Seq::<u8>::empty());
        }
        Cmp::Greater
    } else {
        proof {
            assert(a@ =~= b@);
        }
        Cmp::Equal
    }
}

/// Each name is strictly below its successor.
pub open spec fn strictly_sorted(rs: Seq<Vec<u8>>) -> bool {
    forall|m: int| 0 <= m && m + 1 < rs.len() ==> lex_lt(#[trigger] rs[m]@, rs[m + 1]@)
}

/// Inserts a name into a strictly sorted list, keeping it sorted;
/// a name already present is dropped.
fn insert_sorted(out: &mut Vec<Vec<u8>>, name: Vec<u8>)
    requires
        strictly_sorted(old(out)@),
    ensures
        strictly_sorted(final(out)@),
        forall|n: Seq<u8>|
            #[trigger] crate::engine::contains_name(final(out)@, n) <==> crate::engine::contains_name(
                old(out)@,
                n,
            ) || n == name@,
{
    let ghost before = out@;
    let mut p: usize = 0;
    while p < out.len()
        invariant
            p <= out.len(),
            before == out@,
            before == old(out)@,
            strictly_sorted(before),
            forall|q: int| 0 <= q < p ==> lex_lt(#[trigger] before[q]@, name@),
        decreases out.len() - p,
    {
        match lex_cmp(out[p].as_slice(), name.as_slice()) {
            Cmp::Less => {
                p += 1;
            },
            Cmp::Equal => {
                proof {
                    assert(before[p as int]@ == name@);
                    assert forall|n: Seq<u8>|
                        #[trigger] crate::engine::contains_name(out@, n)
                            <==> crate::engine::contains_name(before, n) || n == name@ by {
                        if n == name@ {
                            assert(crate::engine::contains_name(before, n));
                        }
                    }
                }
                return ;
            },
            Cmp::Greater => {
                proof {
                    lemma_lex_total(before[p as int]@, name@);
                }
                out.insert(p, name);
                proof {
                    assert(out@ == before.insert(p as int, out@[p as int]));
                    assert(out@[p as int]@ == name@);
                    assert(forall|q: int| 0 <= q < p ==> out@[q] == #[trigger] before[q]);
                    assert(forall|q: int|
                        p < q < out@.len() ==> out@[q] == #[trigger] before[q - 1]);
                    assert forall|m: int|
                        0 <= m && m + 1 < out@.len() implies lex_lt(
                        #[trigger] out@[m]@,
                        out@[m + 1]@,
                    ) by {
                        if m + 1 < p {
                            assert(lex_lt(before[m]@, before[m + 1]@));
                        } else if m + 1 == p {
                            assert(lex_lt(before[m]@, name@));
                        } else if m == p {
                            assert(lex_lt(name@, before[m]@));
                        } else {
                            assert(lex_lt(before[m - 1]@, before[m]@));
                        }
                    }
                    assert forall|n: Seq<u8>|
                        #[trigger] crate::engine::contains_name(out@, n)
                            <==> crate::engine::contains_name(before, n) || n == name@ by {
                        if crate::engine::contains_name(out@, n) {
                            let m = choose|m: int| 0 <= m < out@.len() && out@[m]@ == n;
                            if m < p {
                                assert(before[m]@ == n);
                            } else if m > p {
                                assert(before[m - 1]@ == n);
                            }
                        }
                        if crate::engine::contains_name(before, n) {
                            let m = choose|m: int| 0 <= m < before.len() && before[m]@ == n;
                            if m < p {
                                assert(out@[m]@ == n);
                            } else {
                                assert(out@[m + 1]@ == n);
                            }
                        }
                        if n == name@ {
                            assert(out@[p as int]@ == n);
                        }
                    }
                }
                return ;
            },
        }
    }
    let ghost plen = out@.len();
    out.push(name);
    proof {
        assert(out@[plen as int]@ == name@);
        assert(forall|q: int| 0 <= q < plen ==> out@[q] == #[trigger] before[q]);
        assert forall|m: int|
            0 <= m && m + 1 < out@.len() implies lex_lt(#[trigger] out@[m]@, out@[m + 1]@) by {
            if m + 1 < plen {
                assert(lex_lt(before[m]@, before[m + 1]@));
            } else {
                assert(lex_lt(before[m]@, name@));
            }
        }
        assert forall|n: Seq<u8>|
            #[trigger] crate::engine::contains_name(out@, n) <==> crate::engine::contains_name(
                before,
                n,
            ) || n == name@ by {
            if crate::engine::contains_name(out@, n) {
                let m = choose|m: int| 0 <= m < out@.len() && out@[m]@ == n;
                if m < plen {
                    assert(before[m]@ == n);
                }
            }
            if crate::engine::contains_name(before, n) {
                let m = choose|m: int| 0 <= m < before.len() && before[m]@ == n;
                assert(out@[m]@ == n);
            }
        }
    }
}

/// A strictly sorted list never names anything twice.
proof fn lemma_sorted_unique(rs: Seq<Vec<u8>>)
    requires
        strictly_sorted(rs),
    ensures
        forall|m1: int, m2: int| 0 <= m1 < m2 < rs.len() ==> rs[m1]@ != rs[m2]@,
{
    assert forall|m1: int, m2: int| 0 <= m1 < m2 < rs.len() implies rs[m1]@ != rs[m2]@ by {
        lemma_sorted_below(rs, m1, m2);
        lemma_lex_irrefl(rs[m2]@);
    }
}

/// In a strictly sorted list an earlier name is below a later one.
proof fn lemma_sorted_below(rs: Seq<Vec<u8>>, m1: int, m2: int)
    requires
        strictly_sorted(rs),
        0 <= m1 < m2 < rs.len(),
    ensures
        lex_lt(rs[m1]@, rs[m2]@),
    decreases m2 - m1,
{
    if m1 + 1 == m2 {
    } else {
        lemma_sorted_below(rs, m1 + 1, m2);
        lemma_lex_trans(rs[m1]@, rs[m1 + 1]@, rs[m2]@);
    }
}

proof fn lemma_lex_irrefl(a: Seq<u8>)
    ensures
        !lex_lt(a, a),
    decreases a.len(),
{
    if a.len() > 0 {
        lemma_lex_irrefl(a.skip(1));
    }
}

proof fn lemma_lex_trans(a: Seq<u8>, b: Seq<u8>, c: Seq<u8>)
    requires
        lex_lt(a, b),
        lex_lt(b, c),
    ensures
        lex_lt(a, c),
    decreases a.len(),
{
    if c.len() == 0 {
        assert(false);
    } else if a.len() == 0 {
    } else if b.len() == 0 {
        assert(false);
    } else {
        if a[0] == b[0] && b[0] == c[0] {
            lemma_lex_trans(a.skip(1), b.skip(1), c.skip(1));
        }
    }
}

impl ScafferConfig {
    /// All available template names, sorted and deduplicated: the
    /// subdirectory names the caller found in the configured template
    /// directories, unioned with the names of the merged URL mapping.
    pub fn find_templates(&self, global: &ScafferConfig, dir_listings: &Vec<Vec<u8>>) -> (r: Vec<
        Vec<u8>,
    >)
        requires
            global.wf(),
        ensures
            forall|n: Seq<u8>|
                #[trigger] crate::engine::contains_name(r@, n)
                    <==> crate::engine::contains_name(dir_listings@, n) || has_url_key(
                    url_merge_spec(urls_view(global), urls_view(self)),
                    n,
                ),
            strictly_sorted(r@),
            forall|m1: int, m2: int| 0 <= m1 < m2 < r@.len() ==> r@[m1]@ != r@[m2]@,
    {
        let mut out: Vec<Vec<u8>> = Vec::new();
        let mut q: usize = 0;
        while q < dir_listings.len()
            invariant
                q <= dir_listings.len(),
                strictly_sorted(out@),
                forall|n: Seq<u8>|
                    #[trigger] crate::engine::contains_name(out@, n) <==> (exists|j: int|
                        0 <= j < q && dir_listings@[j]@ == n),
            decreases dir_listings.len() - q,
        {
            let name = copy_range(dir_listings[q].as_slice(), 0, dir_listings[q].len());
            proof {
                assert(name@ =~= dir_listings@[q as int]@);
            }
            insert_sorted(&mut out, name);
            q += 1;
        }
        let urls = self.get_template_urls(global);
        let ghost upairs = pairs_view(urls@);
        let mut q: usize = 0;
        while q < urls.len()
            invariant
                q <= urls.len(),
                upairs == pairs_view(urls@),
                upairs == url_merge_spec(urls_view(global), urls_view(self)),
                strictly_sorted(out@),
                forall|n: Seq<u8>|
                    #[trigger] crate::engine::contains_name(out@, n)
                        <==> crate::engine::contains_name(dir_listings@, n) || (exists|j: int|
                        0 <= j < q && upairs[j].0 == n),
            decreases urls.len() - q,
        {
            let name = copy_range(urls[q].0.as_slice(), 0, urls[q].0.len());
            proof {
                assert(name@ =~= urls@[q as int].0@);
                assert(upairs[q as int].0 == urls@[q as int].0@);
            }
            insert_sorted(&mut out, name);
            q += 1;
        }
        proof {
            lemma_sorted_unique(out@);
        }
        out
    }
}

} // verus!
