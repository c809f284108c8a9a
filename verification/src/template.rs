//! The variable store and the text/path rewriting entry points.

use vstd::prelude::*;
use vstd::pervasive::VecAdditionalExecFns;

use crate::cases::UNDERSCORE;
use crate::cases::canon;
use crate::cases::canonicalize;
use crate::engine::contains_name;
use crate::engine::detect_occurrences;
use crate::engine::is_occurrence;
use crate::engine::occ_frag;
use crate::engine::occurrence_names;
use crate::engine::pairs_view;
use crate::engine::substitute;
use crate::engine::substitute_spec;

verus! {

/// A named variable and the value supplied for it, if any.
pub struct TemplateVariable {
    pub name: Vec<u8>,
    pub value: Option<Vec<u8>>,
}

/// The variable map driving one generation run: canonical name to value,
/// exactly one entry per canonical name.
pub struct TemplateProcessor {
    variables: Vec<(Vec<u8>, Vec<u8>)>,
}

/// `vars` holds an entry whose canonical name is `n`.
pub open spec fn has_variable(vars: Seq<(Seq<u8>, Seq<u8>)>, n: Seq<u8>) -> bool {
    exists|m: int| 0 <= m < vars.len() && vars[m].0 == n
}

/// Insertion of `(canon(name), value)` into `vars`: the value of an
/// existing entry with that canonical name is overwritten in place, and
/// a new name is appended.  Last writer wins.
pub open spec fn set_var_spec(
    vars: Seq<(Seq<u8>, Seq<u8>)>,
    name: Seq<u8>,
    value: Seq<u8>,
) -> Seq<(Seq<u8>, Seq<u8>)>
    decreases vars.len(),
{
    if vars.len() == 0 {
        seq![(canon(name), value)]
    } else if vars[0].0 == canon(name) {
        seq![(canon(name), value)] + vars.skip(1)
    } else {
        seq![vars[0]] + set_var_spec(vars.skip(1), name, value)
    }
}

proof fn lemma_set_var_prefix(
    vars: Seq<(Seq<u8>, Seq<u8>)>,
    name: Seq<u8>,
    value: Seq<u8>,
    m: int,
)
    requires
        0 <= m <= vars.len(),
        forall|q: int| 0 <= q < m ==> vars[q].0 != canon(name),
    ensures
        set_var_spec(vars, name, value) == vars.take(m) + set_var_spec(vars.skip(m), name, value),
    decreases m,
{
    if m == 0 {
        assert(vars.take(0) =~= Seq::<(Seq<u8>, Seq<u8>)>::empty());
        assert(vars.skip(0) =~= vars);
        assert(vars.take(0) + set_var_spec(vars, name, value) =~= set_var_spec(
            vars,
            name,
            value,
        ));
    } else {
        lemma_set_var_prefix(vars, name, value, m - 1);
        let tail = vars.skip(m - 1);
        assert(tail[0] == vars[m - 1]);
        assert(tail.skip(1) =~= vars.skip(m));
        assert(set_var_spec(tail, name, value) == seq![tail[0]] + set_var_spec(
            vars.skip(m),
            name,
            value,
        ));
        assert(vars.take(m - 1) + (seq![vars[m - 1]] + set_var_spec(vars.skip(m), name, value))
            =~= vars.take(m) + set_var_spec(vars.skip(m), name, value));
    }
}

impl TemplateProcessor {
    /// The variable map as (canonical name, value) pairs.
    pub closed spec fn view(&self) -> Seq<(Seq<u8>, Seq<u8>)> {
        pairs_view(self.variables@)
    }

    /// Every canonical name owns exactly one entry.
    pub open spec fn wf(&self) -> bool {
        forall|m1: int, m2: int|
            0 <= m1 < m2 < self@.len() ==> self@[m1].0 != self@[m2].0
    }

    /// An empty variable map.
    pub fn new() -> (r: Self)
        ensures
            r@ == Seq::<(Seq<u8>, Seq<u8>)>::empty(),
            r.wf(),
    {
        let r = TemplateProcessor { variables: Vec::new() };
        proof {
            assert(r@ =~= Seq::<(Seq<u8>, Seq<u8>)>::empty());
        }
        r
    }

    /// Stores `value` under the canonical form of `name`, overwriting an
    /// existing value for the same canonical name.
    pub fn set_variable(&mut self, name: Vec<u8>, value: Vec<u8>)
        requires
            old(self).wf(),
        ensures
            final(self)@ == set_var_spec(old(self)@, name@, value@),
            final(self).wf(),
    {
        let n = canonicalize(name.as_slice());
        let ghost vars0 = self@;
        let ghost raw0 = self.variables@;
        let ghost n_v = canon(name@);
        let ghost u_v = value@;
        let mut m: usize = 0;
        while m < self.variables.len()
            invariant
                m <= self.variables.len(),
                vars0 == self@,
                raw0 == self.variables@,
                n@ == n_v,
                n_v == canon(name@),
                u_v == value@,
                old(self).wf(),
                vars0 == old(self)@,
                forall|q: int| 0 <= q < m ==> vars0[q].0 != n_v,
            decreases self.variables.len() - m,
        {
            if crate::engine::bytes_eq(self.variables[m].0.as_slice(), n.as_slice()) {
                proof {
                    lemma_set_var_prefix(vars0, name@, value@, m as int);
                    let tail = vars0.skip(m as int);
                    assert(tail[0] == vars0[m as int]);
                    assert(tail.skip(1) =~= vars0.skip(m + 1));
                }
                self.variables.set(m, (n, value));
                proof {
                    let goal = vars0.take(m as int) + (seq![(n_v, u_v)] + vars0.skip(m + 1));
                    assert forall|ii: int|
                        0 <= ii < self@.len() implies self@[ii] == goal[ii] by {
                        if ii != m as int {
                            assert(self.variables@[ii] == raw0[ii]);
                            assert(self@[ii] == vars0[ii]);
                        } else {
                            assert(self@[ii] == (n_v, u_v));
                        }
                    }
                    assert(self@ =~= goal);
                    assert(self@ == set_var_spec(vars0, name@, value@));
                    assert forall|m1: int, m2: int|
                        0 <= m1 < m2 < self@.len() implies self@[m1].0 != self@[m2].0 by {
                        assert(self@[m1].0 == vars0[m1].0) by {
                            if m1 != m as int {
                                assert(self.variables@[m1] == raw0[m1]);
                            } else {
                                assert(vars0[m as int].0 == n_v);
                            }
                        }
                        assert(self@[m2].0 == vars0[m2].0) by {
                            if m2 != m as int {
                                assert(self.variables@[m2] == raw0[m2]);
                            } else {
                                assert(vars0[m as int].0 == n_v);
                            }
                        }
                    }
                }
                return ;
            }
            m += 1;
        }
        proof {
            lemma_set_var_prefix(vars0, name@, value@, vars0.len() as int);
            assert(vars0.skip(vars0.len() as int) =~= Seq::<(Seq<u8>, Seq<u8>)>::empty());
            assert(vars0.take(vars0.len() as int) =~= vars0);
        }
        self.variables.push((n, value));
        proof {
            assert forall|ii: int|
                0 <= ii < self@.len() implies self@[ii] == (vars0 + seq![(n_v, u_v)])[ii] by {
                if ii < raw0.len() {
                    assert(self.variables@[ii] == raw0[ii]);
                    assert(self@[ii] == vars0[ii]);
                } else {
                    assert(self@[ii] == (n_v, u_v));
                }
            }
            assert(self@ =~= vars0 + seq![(n_v, u_v)]);
            assert(vars0 + seq![(n_v, u_v)] =~= vars0.take(vars0.len() as int) + set_var_spec(
                vars0.skip(vars0.len() as int),
                name@,
                value@,
            ));
            assert forall|m1: int, m2: int|
                0 <= m1 < m2 < self@.len() implies self@[m1].0 != self@[m2].0 by {
                if m2 < vars0.len() {
                    assert(self.variables@[m1] == raw0[m1]);
                    assert(self.variables@[m2] == raw0[m2]);
                } else {
                    if m1 < vars0.len() {
                        assert(self.variables@[m1] == raw0[m1]);
                        assert(self@[m1] == vars0[m1]);
                        assert(self@[m2].0 == n_v);
                    }
                }
            }
        }
    }

    /// Stores every (name, value) pair, in order; later pairs overwrite
    /// earlier ones with the same canonical name.
    pub fn set_variables(&mut self, variables: Vec<(Vec<u8>, Vec<u8>)>)
        requires
            old(self).wf(),
        ensures
            final(self)@ == set_vars_spec(old(self)@, pairs_view(variables@)),
            final(self).wf(),
    {
        let ghost pvs = pairs_view(variables@);
        let mut idx: usize = 0;
        while idx < variables.len()
            invariant
                idx <= variables.len(),
                pvs == pairs_view(variables@),
                self.wf(),
                set_vars_from(self@, pvs, idx as int) == set_vars_spec(old(self)@, pvs),
            decreases variables.len() - idx,
        {
            let name_c = crate::engine::copy_range(
                variables[idx].0.as_slice(),
                0,
                variables[idx].0.len(),
            );
            let value_c = crate::engine::copy_range(
                variables[idx].1.as_slice(),
                0,
                variables[idx].1.len(),
            );
            proof {
                assert(name_c@ =~= variables@[idx as int].0@);
                assert(value_c@ =~= variables@[idx as int].1@);
                assert(pvs[idx as int] == (variables@[idx as int].0@, variables@[idx as int].1@));
            }
            self.set_variable(name_c, value_c);
            idx += 1;
        }
    }

    /// Canonical names of every placeholder occurrence in `text`, each
    /// once, in order of first discovery.
    pub fn extract_variables(&self, text: &[u8]) -> (r: Vec<Vec<u8>>)
        ensures
            forall|m: int| 0 <= m < r@.len() ==> occurrence_names(text@).contains(#[trigger] r@[m]@),
            forall|f: crate::cases::CaseFamily, i: int|
                is_occurrence(text@, f, i) ==> contains_name(r@, canon(occ_frag(text@, f, i))),
            forall|m1: int, m2: int| 0 <= m1 < m2 < r@.len() ==> r@[m1]@ != r@[m2]@,
    {
        detect_occurrences(text)
    }

    /// Rewrites `text`, replacing every surface form of every stored
    /// variable by the value rendered in the same casing family.
    pub fn process_text(&self, text: &[u8]) -> (r: Vec<u8>)
        ensures
            r@ == substitute_spec(text@, self@),
    {
        substitute(text, &self.variables)
    }

    /// Rewrites a path string like [`Self::process_text`], then replaces
    /// the filesystem-reserved bytes `< > : " | ? *` by `_`, so a value
    /// may contain characters that are invalid in a path segment.
    pub fn process_path(&self, path: &[u8]) -> (r: Vec<u8>)
        ensures
            r@ == sanitize_path_spec(substitute_spec(path@, self@)),
            forall|q: int| 0 <= q < r@.len() ==> !is_reserved_path_byte(#[trigger] r@[q]),
    {
        let substituted = self.process_text(path);
        let r = sanitize_path(substituted.as_slice());
        r
    }

    /// The required names that have no value yet, in the order given.
    pub fn get_missing_variables(&self, required_vars: &Vec<Vec<u8>>) -> (r: Vec<Vec<u8>>)
        ensures
            names_view(r@) == missing_from(self@, required_vars@, 0),
    {
        let ghost vars = self@;
        let mut out: Vec<Vec<u8>> = Vec::new();
        let mut q: usize = 0;
        proof {
            assert(names_view(out@) + missing_from(vars, required_vars@, 0) =~= missing_from(
                vars,
                required_vars@,
                0,
            ));
        }
        while q < required_vars.len()
            invariant
                q <= required_vars.len(),
                vars == self@,
                names_view(out@) + missing_from(vars, required_vars@, q as int) == missing_from(
                    vars,
                    required_vars@,
                    0,
                ),
            decreases required_vars.len() - q,
        {
            let ghost old_names = names_view(out@);
            if !self.has_value_for(&required_vars[q]) {
                let copy = crate::engine::copy_range(
                    required_vars[q].as_slice(),
                    0,
                    required_vars[q].len(),
                );
                proof {
                    assert(copy@ =~= required_vars@[q as int]@);
                }
                out.push(copy);
                proof {
                    assert(names_view(out@) =~= old_names + seq![required_vars@[q as int]@]);
                }
            }
            proof {
                let piece = if !has_variable(vars, required_vars@[q as int]@) {
                    seq![required_vars@[q as int]@]
                } else {
                    Seq::<Seq<u8>>::empty()
                };
                assert(missing_from(vars, required_vars@, q as int) == piece + missing_from(
                    vars,
                    required_vars@,
                    q + 1,
                ));
                assert(names_view(out@) + missing_from(vars, required_vars@, q + 1) =~= old_names
                    + missing_from(vars, required_vars@, q as int));
            }
            q += 1;
        }
        proof {
            assert(names_view(out@) + missing_from(vars, required_vars@, required_vars@.len() as int)
                =~= names_view(out@));
        }
        out
    }

    /// A value is stored under canonical name `n`.
    pub fn has_value_for(&self, n: &Vec<u8>) -> (r: bool)
        ensures
            r == has_variable(self@, n@),
    {
        let mut m: usize = 0;
        while m < self.variables.len()
            invariant
                m <= self.variables.len(),
                forall|q: int| 0 <= q < m ==> self@[q].0 != n@,
            decreases self.variables.len() - m,
        {
            if crate::engine::bytes_eq(self.variables[m].0.as_slice(), n.as_slice()) {
                proof {
                    assert(self@[m as int].0 == n@);
                }
                return true;
            }
            m += 1;
        }
        false
    }
}

/// Folding [`set_var_spec`] over the pairs from rank `vi` on.
pub open spec fn set_vars_from(
    vars: Seq<(Seq<u8>, Seq<u8>)>,
    pairs: Seq<(Seq<u8>, Seq<u8>)>,
    vi: int,
) -> Seq<(Seq<u8>, Seq<u8>)>
    decreases pairs.len() - vi,
{
    if vi < 0 || vi >= pairs.len() {
        vars
    } else {
        set_vars_from(set_var_spec(vars, pairs[vi].0, pairs[vi].1), pairs, vi + 1)
    }
}

/// The variable map after storing every pair of `pairs`, in order.
pub open spec fn set_vars_spec(
    vars: Seq<(Seq<u8>, Seq<u8>)>,
    pairs: Seq<(Seq<u8>, Seq<u8>)>,
) -> Seq<(Seq<u8>, Seq<u8>)> {
    set_vars_from(vars, pairs, 0)
}

/// The views of a list of byte strings.
pub open spec fn names_view(rs: Seq<Vec<u8>>) -> Seq<Seq<u8>> {
    Seq::new(rs.len(), |i: int| rs[i]@)
}

/// The required names from rank `q` on that `vars` has no entry for.
pub open spec fn missing_from(
    vars: Seq<(Seq<u8>, Seq<u8>)>,
    required: Seq<Vec<u8>>,
    q: int,
) -> Seq<Seq<u8>>
    decreases required.len() - q,
{
    if q < 0 || q >= required.len() {
        Seq::empty()
    } else {
        (if !has_variable(vars, required[q]@) {
            seq![required[q]@]
        } else {
            Seq::<Seq<u8>>::empty()
        }) + missing_from(vars, required, q + 1)
    }
}

/// Bytes a rendered path may not contain: `< > : " | ? *`.
pub open spec fn is_reserved_path_byte(b: u8) -> bool {
    b == 60 || b == 62 || b == 58 || b == 34 || b == 124 || b == 63 || b == 42
}

pub open spec fn sanitize_path_byte(b: u8) -> u8 {
    if is_reserved_path_byte(b) {
        UNDERSCORE
    } else {
        b
    }
}

/// The path with every reserved byte replaced by `_`.
pub open spec fn sanitize_path_spec(s: Seq<u8>) -> Seq<u8> {
    Seq::new(s.len(), |i: int| sanitize_path_byte(s[i]))
}

/// Replaces the filesystem-reserved bytes `< > : " | ? *` by `_`.
pub fn sanitize_path(s: &[u8]) -> (r: Vec<u8>)
    ensures
        r@ == sanitize_path_spec(s@),
        forall|q: int| 0 <= q < r@.len() ==> !is_reserved_path_byte(#[trigger] r@[q]),
{
    let mut out: Vec<u8> = Vec::new();
    let mut p: usize = 0;
    while p < s.len()
        invariant
            p <= s.len(),
            out@ =~= sanitize_path_spec(s@).take(p as int),
        decreases s.len() - p,
    {
        let b = s[p];
        let c = if b == 60 || b == 62 || b == 58 || b == 34 || b == 124 || b == 63 || b == 42 {
            UNDERSCORE
        } else {
            b
        };
        out.push(c);
        proof {
            assert(out@ =~= sanitize_path_spec(s@).take(p + 1));
        }
        p += 1;
    }
    proof {
        assert(out@ =~= sanitize_path_spec(s@));
    }
    out
}

} // verus!
