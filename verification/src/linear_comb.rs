use vstd::prelude::*;

use crate::rational::Rational;
use crate::terms::{Term, TermV, Operator, term_view, terms_view, term_wf, spec_as_fraction, lemma_terms_view_index};

verus! {

broadcast use vstd::std_specs::vec::group_vec_axioms, vstd::seq::group_seq_axioms;

/// A linear combination of non-constant terms with rational coefficients,
/// plus a constant. It doubles as one side-collected disequality: the keyed
/// part is the left side, the constant the right. Coefficients are kept as
/// raw fractions; nothing is reduced.
pub struct LinearComb {
    pub terms: Vec<(Term, Rational)>,
    pub constant: Rational,
}

/// The shape of the keyed entries: each term replaced by its view.
pub open spec fn entries_view(s: Seq<(Term, Rational)>) -> Seq<(TermV, Rational)>
    decreases s.len(),
{
    if s.len() == 0 {
        Seq::empty()
    } else {
        entries_view(s.drop_last()).push((term_view(s.last().0), s.last().1))
    }
}

pub proof fn lemma_entries_view_index(s: Seq<(Term, Rational)>)
    ensures
        entries_view(s).len() == s.len(),
        forall|i: int| 0 <= i < s.len() ==> #[trigger] entries_view(s)[i] == (
            term_view(s[i].0),
            s[i].1,
        ),
    decreases s.len(),
{
    if s.len() > 0 {
        lemma_entries_view_index(s.drop_last());
        assert forall|i: int| 0 <= i < s.len() implies #[trigger] entries_view(s)[i] == (
            term_view(s[i].0),
            s[i].1,
        ) by {
            if i < s.len() - 1 {
                assert(s.drop_last()[i] == s[i]);
                assert(entries_view(s)[i] == entries_view(s.drop_last())[i]);
            } else {
                assert(s[i] == s.last());
            }
        }
    }
}

/// The coefficient map that a sequence of entries stands for.
pub open spec fn lc_map(s: Seq<(TermV, Rational)>) -> Map<TermV, Rational>
    decreases s.len(),
{
    if s.len() == 0 {
        Map::empty()
    } else {
        lc_map(s.drop_last()).insert(s.last().0, s.last().1)
    }
}

/// No key occurs twice among the entries.
pub open spec fn unique_keys(s: Seq<(TermV, Rational)>) -> bool {
    forall|i: int, j: int| 0 <= i < j < s.len() ==> (#[trigger] s[i]).0 != (#[trigger] s[j]).0
}

/// Whether some entry of `s` carries the key `k`.
pub open spec fn has_key(s: Seq<(TermV, Rational)>, k: TermV) -> bool {
    exists|i: int| 0 <= i < s.len() && (#[trigger] s[i]).0 == k
}

/// With unique keys, the map reads back exactly the entries.
pub proof fn lemma_lc_map_props(s: Seq<(TermV, Rational)>)
    requires
        unique_keys(s),
    ensures
        forall|k: TermV| #[trigger] lc_map(s).contains_key(k) <==> has_key(s, k),
        forall|i: int| 0 <= i < s.len() ==> lc_map(s).contains_key((#[trigger] s[i]).0) && lc_map(
            s,
        )[s[i].0] == s[i].1,
    decreases s.len(),
{
    if s.len() > 0 {
        let d = s.drop_last();
        assert(forall|i: int| 0 <= i < s.len() - 1 ==> s.drop_last()[i] == s[i]);
        lemma_lc_map_props(d);
        assert forall|k: TermV| #[trigger] lc_map(s).contains_key(k) <==> has_key(s, k) by {
            if k == s.last().0 {
                assert(s[s.len() - 1].0 == k);
                assert(has_key(s, k));
            } else {
                if lc_map(s).contains_key(k) {
                    assert(lc_map(d).contains_key(k));
                    let i = choose|i: int| 0 <= i < d.len() && (#[trigger] d[i]).0 == k;
                    assert(s[i].0 == k);
                    assert(has_key(s, k));
                }
                if has_key(s, k) {
                    let i = choose|i: int| 0 <= i < s.len() && (#[trigger] s[i]).0 == k;
                    assert(i < s.len() - 1);
                    assert(d[i].0 == k);
                    assert(lc_map(d).contains_key(k));
                }
            }
        }
        assert forall|i: int| 0 <= i < s.len() implies lc_map(s).contains_key((#[trigger] s[i]).0)
            && lc_map(s)[s[i].0] == s[i].1 by {
            if i < s.len() - 1 {
                assert(s[i] == d[i]);
                assert(lc_map(d)[s[i].0] == s[i].1);
                assert(s[i].0 != s.last().0);
            } else {
                assert(s[i] == s.last());
            }
        }
    }
}

/// Updating the entry that holds a key updates the map at that key.
pub proof fn lemma_lc_map_update(s: Seq<(TermV, Rational)>, i: int, v: Rational)
    requires
        unique_keys(s),
        0 <= i < s.len(),
    ensures
        lc_map(s.update(i, (s[i].0, v))) =~= lc_map(s).insert(s[i].0, v),
        unique_keys(s.update(i, (s[i].0, v))),
    decreases s.len(),
{
    let t = s.update(i, (s[i].0, v));
    assert(forall|j: int| 0 <= j < s.len() ==> (#[trigger] t[j]).0 == s[j].0);
    if i == s.len() - 1 {
        assert(t.drop_last() =~= s.drop_last());
    } else {
        assert(t.drop_last() =~= s.drop_last().update(i, (s[i].0, v)));
        assert(forall|a: int, b: int|
            0 <= a < b < s.len() - 1 ==> (#[trigger] s.drop_last()[a]).0 != (
            #[trigger] s.drop_last()[b]).0);
        assert(s.drop_last()[i] == s[i]);
        lemma_lc_map_update(s.drop_last(), i, v);
        assert(t.last() == s.last());
        assert(s[i].0 != s.last().0);
    }
}

/// Removing the entry that holds a key removes that key from the map.
pub proof fn lemma_lc_map_remove(s: Seq<(TermV, Rational)>, i: int)
    requires
        unique_keys(s),
        0 <= i < s.len(),
    ensures
        lc_map(s.remove(i)) =~= lc_map(s).remove(s[i].0),
        unique_keys(s.remove(i)),
    decreases s.len(),
{
    let t = s.remove(i);
    assert(forall|j: int| 0 <= j < i ==> t[j] == s[j]);
    assert(forall|j: int| i <= j < s.len() - 1 ==> t[j] == s[j + 1]);
    assert(unique_keys(t));
    lemma_lc_map_props(s);
    lemma_lc_map_props(t);
    assert forall|k: TermV| true implies lc_map(t).contains_key(k) == lc_map(s).remove(
        s[i].0,
    ).contains_key(k) by {
        if k == s[i].0 {
            if lc_map(t).contains_key(k) {
                let j = choose|j: int| 0 <= j < t.len() && (#[trigger] t[j]).0 == k;
                if j < i {
                    assert(s[j].0 == k);
                } else {
                    assert(s[j + 1].0 == k);
                }
                assert(false);
            }
        } else {
            if lc_map(t).contains_key(k) {
                let j = choose|j: int| 0 <= j < t.len() && (#[trigger] t[j]).0 == k;
                if j < i {
                    assert(s[j].0 == k);
                } else {
                    assert(s[j + 1].0 == k);
                }
            }
            if lc_map(s).contains_key(k) {
                let j = choose|j: int| 0 <= j < s.len() && (#[trigger] s[j]).0 == k;
                if j < i {
                    assert(t[j].0 == k);
                } else {
                    assert(j != i);
                    assert(t[j - 1].0 == k);
                }
            }
        }
    }
    assert forall|k: TermV| lc_map(t).contains_key(k) implies lc_map(t)[k] == lc_map(s).remove(
        s[i].0,
    )[k] by {
        let j = choose|j: int| 0 <= j < t.len() && (#[trigger] t[j]).0 == k;
        if j < i {
            assert(s[j].0 == k && s[j].1 == t[j].1);
        } else {
            assert(s[j + 1].0 == k && s[j + 1].1 == t[j].1);
        }
    }
}

impl LinearComb {
    /// The coefficient map this combination stands for.
    pub open spec fn map(self) -> Map<TermV, Rational> {
        lc_map(entries_view(self.terms@))
    }

    pub open spec fn entries(self) -> Seq<(TermV, Rational)> {
        entries_view(self.terms@)
    }

    /// Well-formed: unique keys, well-formed rationals everywhere.
    pub open spec fn wf(self) -> bool {
        &&& self.constant.wf()
        &&& unique_keys(self.entries())
        &&& forall|i: int| 0 <= i < self.entries().len() ==> (#[trigger] self.entries()[i]).1.wf()
    }

    /// No entry carries a zero coefficient.
    pub open spec fn no_zeros(self) -> bool {
        forall|i: int| 0 <= i < self.entries().len() ==> (#[trigger] self.entries()[i]).1.num != 0
    }

    /// What `insert` does to the map: sum into an existing entry, dropping it
    /// if the sum's numerator is zero; store the value under a fresh key.
    pub open spec fn spec_insert_step(m: Map<TermV, Rational>, k: TermV, v: Rational) -> Map<
        TermV,
        Rational,
    > {
        if m.contains_key(k) {
            let s = m[k].spec_add(v);
            if s.0 == 0 {
                m.remove(k)
            } else {
                m.insert(k, Rational { num: s.0 as i64, den: s.1 as i64 })
            }
        } else {
            m.insert(k, v)
        }
    }

    /// Whether `insert` can fail only for want of room: it cannot when the
    /// key is fresh, and otherwise needs the raw sum to fit.
    pub open spec fn spec_insert_fits(m: Map<TermV, Rational>, k: TermV, v: Rational) -> bool {
        m.contains_key(k) ==> Rational::fits(m[k].spec_add(v).0, m[k].spec_add(v).1)
    }

    pub fn new() -> (r: LinearComb)
        ensures
            r.map() == Map::<TermV, Rational>::empty(),
            r.entries().len() == 0,
            r.constant == (Rational { num: 0int as i64, den: 1int as i64 }),
            r.wf(),
            r.no_zeros(),
    {
        LinearComb { terms: Vec::new(), constant: Rational::zero() }
    }

    /// The position of a key among the entries, when present.
    fn find_key(&self, key: &Term) -> (r: Option<usize>)
        ensures
            r matches Some(i) ==> i < self.terms@.len() && self.entries()[i as int].0 == key@
                && forall|j: int| 0 <= j < i ==> (#[trigger] self.entries()[j]).0 != key@,
            r is None ==> forall|j: int|
                0 <= j < self.entries().len() ==> (#[trigger] self.entries()[j]).0 != key@,
    {
        proof {
            lemma_entries_view_index(self.terms@);
        }
        let n = self.terms.len();
        let mut i: usize = 0;
        while i < n
            invariant
                n == self.terms@.len(),
                0 <= i <= n,
                self.entries().len() == n,
                forall|j: int| 0 <= j < n ==> #[trigger] self.entries()[j] == (
                    term_view(self.terms@[j].0),
                    self.terms@[j].1,
                ),
                forall|j: int| 0 <= j < i ==> (#[trigger] self.entries()[j]).0 != key@,
            decreases n - i,
        {
            if self.terms[i].0.term_eq(key) {
                return Some(i);
            }
            i += 1;
        }
        None
    }

    /// Whether the combination has an empty key map.
    pub fn is_empty(&self) -> (r: bool)
        requires
            self.wf(),
        ensures
            r == (self.map() =~= Map::<TermV, Rational>::empty()),
    {
        proof {
            lemma_entries_view_index(self.terms@);
            lemma_lc_map_props(self.entries());
            if self.entries().len() > 0 {
                assert(self.map().contains_key(self.entries()[0].0));
            }
        }
        self.terms.len() == 0
    }

    /// Sums `value` into the coefficient of `key`, removing the entry when
    /// the sum's numerator is zero, and storing fresh keys as given. Fails
    /// only when the raw sum leaves the `i64` range, leaving the
    /// combination unchanged.
    pub fn insert(&mut self, key: Term, value: Rational) -> (r: Result<(), ()>)
        requires
            old(self).wf(),
            value.wf(),
        ensures
            final(self).wf(),
            final(self).constant == old(self).constant,
            r is Ok <==> seq_insert_fits(old(self).entries(), key@, value),
            r is Ok ==> final(self).entries() =~= seq_insert(old(self).entries(), key@, value),
            r is Ok <==> Self::spec_insert_fits(old(self).map(), key@, value),
            r is Ok ==> final(self).map() =~= Self::spec_insert_step(
                old(self).map(),
                key@,
                value,
            ),
            r is Err ==> *final(self) == *old(self),
            old(self).no_zeros() && (value.num != 0 || old(self).map().contains_key(key@))
                ==> final(self).no_zeros(),
    {
        proof {
            lemma_entries_view_index(self.terms@);
            lemma_lc_map_props(self.entries());
        }
        let ghost m0 = self.map();
        match self.find_key(&key) {
            Some(i) => {
                proof {
                    assert(m0.contains_key(key@));
                    assert(m0[key@] == self.entries()[i as int].1);
                    assert(has_key(self.entries(), key@));
                    lemma_index_of_first(self.entries(), key@, i as int);
                }
                let c = self.terms[i].1;
                proof {
                    assert(self.entries()[i as int].1.wf());
                }
                match c.raw_add(value) {
                    Some(sum) => {
                        if sum.num == 0 {
                            proof {
                                lemma_lc_map_remove(self.entries(), i as int);
                            }
                            let ghost before = self.entries();
                            self.terms.remove(i);
                            proof {
                                lemma_entries_view_seq_remove(old(self).terms@, i as int);
                                assert(self.entries() =~= before.remove(i as int));
                                lemma_entries_view_index(self.terms@);
                            }
                        } else {
                            proof {
                                lemma_lc_map_update(self.entries(), i as int, sum);
                            }
                            let ghost before = self.entries();
                            let k2 = self.terms[i].0.deep_copy();
                            self.terms[i] = (k2, sum);
                            proof {
                                lemma_entries_view_seq_update(
                                    old(self).terms@,
                                    i as int,
                                    (k2, sum),
                                );
                                assert(self.entries() =~= before.update(
                                    i as int,
                                    (before[i as int].0, sum),
                                ));
                                lemma_entries_view_index(self.terms@);
                            }
                        }
                        Ok(())
                    },
                    None => Err(()),
                }
            },
            None => {
                proof {
                    assert(!m0.contains_key(key@));
                    if has_key(self.entries(), key@) {
                        let j = choose|j: int|
                            0 <= j < self.entries().len() && (#[trigger] self.entries()[j]).0
                                == key@;
                        assert(false);
                    }
                }
                let ghost before = self.entries();
                self.terms.push((key, value));
                proof {
                    lemma_entries_view_seq_push(old(self).terms@, (key, value));
                    assert(self.entries() =~= before.push((key@, value)));
                    lemma_entries_view_index(self.terms@);
                    assert(self.entries().drop_last() =~= before);
                    lemma_lc_map_props(self.entries());
                }
                Ok(())
            },
        }
    }
}

/// The same entries with every coefficient negated.
pub open spec fn neg_entries(s: Seq<(TermV, Rational)>) -> Seq<(TermV, Rational)> {
    Seq::new(s.len(), |i: int| (s[i].0, s[i].1.spec_neg()))
}

/// The same entries with every coefficient multiplied raw by `q`.
pub open spec fn scale_entries(s: Seq<(TermV, Rational)>, q: Rational) -> Seq<(TermV, Rational)> {
    Seq::new(
        s.len(),
        |i: int|
            (
                s[i].0,
                Rational {
                    num: s[i].1.spec_mul(q).0 as i64,
                    den: s[i].1.spec_mul(q).1 as i64,
                },
            ),
    )
}

/// Whether every raw product of a coefficient with `q` fits the range.
pub open spec fn scale_fits(s: Seq<(TermV, Rational)>, q: Rational) -> bool {
    forall|i: int|
        0 <= i < s.len() ==> Rational::fits(
            (#[trigger] s[i]).1.spec_mul(q).0,
            s[i].1.spec_mul(q).1,
        )
}

/// The map after folding every entry of `s` into `m` by `insert`.
pub open spec fn lc_merge(m: Map<TermV, Rational>, s: Seq<(TermV, Rational)>) -> Map<
    TermV,
    Rational,
>
    decreases s.len(),
{
    if s.len() == 0 {
        m
    } else {
        lc_merge(LinearComb::spec_insert_step(m, s[0].0, s[0].1), s.drop_first())
    }
}

/// Whether that fold stays within range at every step.
pub open spec fn lc_merge_ok(m: Map<TermV, Rational>, s: Seq<(TermV, Rational)>) -> bool
    decreases s.len(),
{
    if s.len() == 0 {
        true
    } else {
        LinearComb::spec_insert_fits(m, s[0].0, s[0].1) && lc_merge_ok(
            LinearComb::spec_insert_step(m, s[0].0, s[0].1),
            s.drop_first(),
        )
    }
}

/// Two entry sequences with the same keys in place stand for maps with the
/// same domain.
pub proof fn lemma_same_keys_same_dom(s1: Seq<(TermV, Rational)>, s2: Seq<(TermV, Rational)>)
    requires
        unique_keys(s1),
        s2.len() == s1.len(),
        forall|i: int| 0 <= i < s1.len() ==> (#[trigger] s2[i]).0 == s1[i].0,
    ensures
        unique_keys(s2),
        lc_map(s2).dom() =~= lc_map(s1).dom(),
{
    lemma_lc_map_props(s1);
    lemma_lc_map_props(s2);
    assert forall|k: TermV| lc_map(s2).dom().contains(k) == lc_map(s1).dom().contains(k) by {
        if lc_map(s2).contains_key(k) {
            let i = choose|i: int| 0 <= i < s2.len() && (#[trigger] s2[i]).0 == k;
            assert(s1[i].0 == k);
        }
        if lc_map(s1).contains_key(k) {
            let i = choose|i: int| 0 <= i < s1.len() && (#[trigger] s1[i]).0 == k;
            assert(s2[i].0 == k);
        }
    }
}

impl LinearComb {
    /// Negates every coefficient and the constant.
    pub fn neg(&mut self)
        requires
            old(self).wf(),
        ensures
            final(self).wf(),
            final(self).entries() =~= neg_entries(old(self).entries()),
            final(self).constant == old(self).constant.spec_neg(),
            old(self).no_zeros() ==> final(self).no_zeros(),
    {
        proof {
            lemma_entries_view_index(self.terms@);
        }
        let ghost oe = self.entries();
        let mut out: Vec<(Term, Rational)> = Vec::new();
        let n = self.terms.len();
        let mut i: usize = 0;
        while i < n
            invariant
                n == self.terms@.len(),
                0 <= i <= n,
                self.wf(),
                oe == self.entries(),
                oe.len() == n,
                forall|j: int| 0 <= j < n ==> #[trigger] self.entries()[j] == (
                    term_view(self.terms@[j].0),
                    self.terms@[j].1,
                ),
                out@.len() == i,
                forall|j: int| 0 <= j < i ==> #[trigger] entries_view(out@)[j] == (
                    oe[j].0,
                    oe[j].1.spec_neg(),
                ),
                entries_view(out@).len() == i,
            decreases n - i,
        {
            proof {
                assert(self.entries()[i as int].1.wf());
            }
            let k2 = self.terms[i].0.deep_copy();
            let c = self.terms[i].1;
            let cn = c.neg();
            let ghost before = out@;
            out.push((k2, cn));
            proof {
                lemma_entries_view_seq_push(before, (k2, cn));
                lemma_entries_view_index(out@);
            }
            i += 1;
        }
        proof {
            lemma_entries_view_index(out@);
        }
        self.terms = out;
        let c0 = self.constant;
        self.constant = c0.neg();
        proof {
            assert(self.entries() =~= neg_entries(oe));
            assert forall|i2: int, j2: int| 0 <= i2 < j2 < self.entries().len() implies (
            #[trigger] self.entries()[i2]).0 != (#[trigger] self.entries()[j2]).0 by {
                assert(oe[i2].0 != oe[j2].0);
            }
        }
    }

    /// Multiplies the whole combination raw by `scalar`: by zero it clears
    /// everything, by one it leaves the representation untouched, and
    /// otherwise every coefficient and the constant are multiplied.
    pub fn mul(&mut self, scalar: &Rational) -> (r: Result<(), ()>)
        requires
            old(self).wf(),
            scalar.wf(),
        ensures
            final(self).wf(),
            scalar.spec_is_zero() ==> r is Ok && final(self).entries() =~= Seq::<
                (TermV, Rational),
            >::empty() && final(self).constant == (Rational { num: 0int as i64, den: 1int as i64 }),
            !scalar.spec_is_zero() && scalar.spec_is_one() ==> r is Ok && *final(self) == *old(
                self,
            ),
            !scalar.spec_is_zero() && !scalar.spec_is_one() ==> {
                &&& (r is Ok <==> scale_fits(old(self).entries(), *scalar) && Rational::fits(
                    old(self).constant.spec_mul(*scalar).0,
                    old(self).constant.spec_mul(*scalar).1,
                ))
                &&& r is Ok ==> final(self).entries() =~= scale_entries(
                    old(self).entries(),
                    *scalar,
                ) && final(self).constant == (Rational {
                    num: old(self).constant.spec_mul(*scalar).0 as i64,
                    den: old(self).constant.spec_mul(*scalar).1 as i64,
                })
                &&& r is Err ==> *final(self) == *old(self)
            },
            old(self).no_zeros() && scalar.num != 0 && r is Ok ==> final(self).no_zeros(),
    {
        if scalar.is_zero() {
            self.terms = Vec::new();
            self.constant = Rational::zero();
            proof {
                assert(self.entries() =~= Seq::<(TermV, Rational)>::empty());
            }
            return Ok(());
        }
        if scalar.is_one() {
            return Ok(());
        }
        proof {
            lemma_entries_view_index(self.terms@);
        }
        let ghost oe = self.entries();
        let mut out: Vec<(Term, Rational)> = Vec::new();
        let n = self.terms.len();
        let mut i: usize = 0;
        while i < n
            invariant
                n == self.terms@.len(),
                0 <= i <= n,
                self.wf(),
                scalar.wf(),
                !scalar.spec_is_zero(),
                !scalar.spec_is_one(),
                *self == *old(self),
                oe == self.entries(),
                oe.len() == n,
                forall|j: int| 0 <= j < n ==> #[trigger] self.entries()[j] == (
                    term_view(self.terms@[j].0),
                    self.terms@[j].1,
                ),
                out@.len() == i,
                forall|j: int|
                    0 <= j < i ==> Rational::fits(oe[j].1.spec_mul(*scalar).0, (
                    #[trigger] oe[j]).1.spec_mul(*scalar).1),
                forall|j: int| 0 <= j < i ==> #[trigger] entries_view(out@)[j] == (
                    oe[j].0,
                    Rational {
                        num: oe[j].1.spec_mul(*scalar).0 as i64,
                        den: oe[j].1.spec_mul(*scalar).1 as i64,
                    },
                ),
            decreases n - i,
        {
            proof {
                assert(self.entries()[i as int].1.wf());
            }
            let k2 = self.terms[i].0.deep_copy();
            let c = self.terms[i].1;
            match c.raw_mul(*scalar) {
                Some(p) => {
                    let ghost before = out@;
                    out.push((k2, p));
                    proof {
                        lemma_entries_view_seq_push(before, (k2, p));
                        lemma_entries_view_index(out@);
                    }
                },
                None => {
                    return Err(());
                },
            }
            i += 1;
        }
        let c0 = self.constant;
        match c0.raw_mul(*scalar) {
            Some(p) => {
                proof {
                    lemma_entries_view_index(out@);
                }
                self.terms = out;
                self.constant = p;
                proof {
                    assert(self.entries() =~= scale_entries(oe, *scalar));
                    if old(self).no_zeros() && scalar.num != 0 {
                        assert forall|j: int|
                            0 <= j < self.entries().len() implies (
                        #[trigger] self.entries()[j]).1.num != 0 by {
                            assert(oe[j].1.num != 0);
                            assert(oe[j].1.spec_mul(*scalar).0 != 0) by (nonlinear_arith)
                                requires
                                    oe[j].1.num != 0,
                                    scalar.num != 0,
                                    oe[j].1.spec_mul(*scalar).0 == oe[j].1.num * scalar.num,
                            ;
                        }
                    }
                    assert forall|i2: int, j2: int|
                        0 <= i2 < j2 < self.entries().len() implies (
                    #[trigger] self.entries()[i2]).0 != (#[trigger] self.entries()[j2]).0 by {
                        assert(oe[i2].0 != oe[j2].0);
                    }
                    assert forall|j: int|
                        0 <= j < self.entries().len() implies (
                    #[trigger] self.entries()[j]).1.wf() by {
                        assert(oe[j].1.wf());
                    }
                }
                Ok(())
            },
            None => Err(()),
        }
    }

    /// Folds every entry of `other` into `self` by `insert` and adds the
    /// constants raw.
    pub fn add(self, other: LinearComb) -> (r: Result<LinearComb, ()>)
        requires
            self.wf(),
            other.wf(),
        ensures
            r is Ok <==> seq_merge_ok(self.entries(), other.entries()) && Rational::fits(
                self.constant.spec_add(other.constant).0,
                self.constant.spec_add(other.constant).1,
            ),
            r matches Ok(out) ==> out.wf() && out.entries() =~= seq_merge(
                self.entries(),
                other.entries(),
            ) && out.map() == lc_merge(self.map(), other.entries()) && out.constant == (Rational {
                num: self.constant.spec_add(other.constant).0 as i64,
                den: self.constant.spec_add(other.constant).1 as i64,
            }),
            self.no_zeros() && other.no_zeros() ==> (r matches Ok(out) ==> out.no_zeros()),
    {
        proof {
            lemma_entries_view_index(other.terms@);
        }
        let ghost m0 = self.map();
        let ghost e0 = self.entries();
        let ghost oe = other.entries();
        proof {
            assert(oe.skip(0) =~= oe);
        }
        let mut acc = self;
        let n = other.terms.len();
        let mut i: usize = 0;
        while i < n
            invariant
                n == other.terms@.len(),
                0 <= i <= n,
                acc.wf(),
                other.wf(),
                m0 == self.map(),
                oe == other.entries(),
                oe.len() == n,
                forall|j: int| 0 <= j < n ==> #[trigger] other.entries()[j] == (
                    term_view(other.terms@[j].0),
                    other.terms@[j].1,
                ),
                lc_merge(m0, oe) == lc_merge(acc.map(), oe.skip(i as int)),
                lc_merge_ok(m0, oe) == lc_merge_ok(acc.map(), oe.skip(i as int)),
                e0 == self.entries(),
                seq_merge(e0, oe) == seq_merge(acc.entries(), oe.skip(i as int)),
                seq_merge_ok(e0, oe) == seq_merge_ok(acc.entries(), oe.skip(i as int)),
                acc.constant == self.constant,
                self.no_zeros() && other.no_zeros() ==> acc.no_zeros(),
            decreases n - i,
        {
            proof {
                assert(other.entries()[i as int].1.wf());
                assert(oe.skip(i as int)[0] == oe[i as int]);
                assert(oe.skip(i as int).drop_first() =~= oe.skip(i as int + 1));
            }
            let k2 = other.terms[i].0.deep_copy();
            let v = other.terms[i].1;
            let ghost before = acc;
            match acc.insert(k2, v) {
                Ok(()) => {
                    proof {
                        assert(acc.map() == Self::spec_insert_step(
                            before.map(),
                            oe[i as int].0,
                            oe[i as int].1,
                        ));
                        if self.no_zeros() && other.no_zeros() {
                            assert(oe[i as int].1.num != 0);
                        }
                    }
                },
                Err(()) => {
                    proof {
                        assert(!Self::spec_insert_fits(
                            before.map(),
                            oe[i as int].0,
                            oe[i as int].1,
                        ));
                        assert(!lc_merge_ok(acc.map(), oe.skip(i as int)));
                        assert(!seq_insert_fits(before.entries(), oe[i as int].0, oe[i as int].1));
                        assert(!seq_merge_ok(acc.entries(), oe.skip(i as int)));
                    }
                    return Err(());
                },
            }
            i += 1;
        }
        proof {
            assert(oe.skip(n as int) =~= Seq::<(TermV, Rational)>::empty());
        }
        let c0 = acc.constant;
        match c0.raw_add(other.constant) {
            Some(c) => {
                acc.constant = c;
                Ok(acc)
            },
            None => Err(()),
        }
    }

    /// Subtraction: negate `other`, then add.
    pub fn sub(self, other: LinearComb) -> (r: Result<LinearComb, ()>)
        requires
            self.wf(),
            other.wf(),
        ensures
            r is Ok <==> seq_merge_ok(self.entries(), neg_entries(other.entries()))
                && Rational::fits(
                self.constant.spec_add(other.constant.spec_neg()).0,
                self.constant.spec_add(other.constant.spec_neg()).1,
            ),
            r matches Ok(out) ==> out.wf() && out.entries() =~= seq_merge(
                self.entries(),
                neg_entries(other.entries()),
            ) && out.map() == lc_merge(
                self.map(),
                neg_entries(other.entries()),
            ) && out.constant == (Rational {
                num: self.constant.spec_add(other.constant.spec_neg()).0 as i64,
                den: self.constant.spec_add(other.constant.spec_neg()).1 as i64,
            }),
            self.no_zeros() && other.no_zeros() ==> (r matches Ok(out) ==> out.no_zeros()),
    {
        let mut other = other;
        other.neg();
        self.add(other)
    }
}

/// The first position holding the key `k`.
pub open spec fn spec_index_of(s: Seq<(TermV, Rational)>, k: TermV) -> int
    decreases s.len(),
{
    if s.len() == 0 {
        0
    } else if s[0].0 == k {
        0
    } else {
        1 + spec_index_of(s.drop_first(), k)
    }
}

pub proof fn lemma_index_of_first(s: Seq<(TermV, Rational)>, k: TermV, i: int)
    requires
        0 <= i < s.len(),
        s[i].0 == k,
        forall|j: int| 0 <= j < i ==> (#[trigger] s[j]).0 != k,
    ensures
        spec_index_of(s, k) == i,
    decreases i,
{
    if i > 0 {
        let d = s.drop_first();
        assert(forall|j: int| 0 <= j < s.len() - 1 ==> d[j] == s[j + 1]);
        lemma_index_of_first(d, k, i - 1);
    }
}

/// What `insert` does to the entries: sum into the entry holding the key,
/// dropping it when the sum's numerator is zero, or push a fresh pair.
pub open spec fn seq_insert(s: Seq<(TermV, Rational)>, k: TermV, v: Rational) -> Seq<
    (TermV, Rational),
> {
    if !has_key(s, k) {
        s.push((k, v))
    } else {
        let i = spec_index_of(s, k);
        let sum = s[i].1.spec_add(v);
        if sum.0 == 0 {
            s.remove(i)
        } else {
            s.update(i, (k, Rational { num: sum.0 as i64, den: sum.1 as i64 }))
        }
    }
}

/// Whether that insertion stays in range.
pub open spec fn seq_insert_fits(s: Seq<(TermV, Rational)>, k: TermV, v: Rational) -> bool {
    has_key(s, k) ==> Rational::fits(
        s[spec_index_of(s, k)].1.spec_add(v).0,
        s[spec_index_of(s, k)].1.spec_add(v).1,
    )
}

/// Folding every entry of `s2` into `s1` by `insert`, in order.
pub open spec fn seq_merge(s1: Seq<(TermV, Rational)>, s2: Seq<(TermV, Rational)>) -> Seq<
    (TermV, Rational),
>
    decreases s2.len(),
{
    if s2.len() == 0 {
        s1
    } else {
        seq_merge(seq_insert(s1, s2[0].0, s2[0].1), s2.drop_first())
    }
}

/// Whether that fold stays in range at every step.
pub open spec fn seq_merge_ok(s1: Seq<(TermV, Rational)>, s2: Seq<(TermV, Rational)>) -> bool
    decreases s2.len(),
{
    if s2.len() == 0 {
        true
    } else {
        seq_insert_fits(s1, s2[0].0, s2[0].1) && seq_merge_ok(
            seq_insert(s1, s2[0].0, s2[0].1),
            s2.drop_first(),
        )
    }
}

/// The coefficient map with every value negated.
pub open spec fn map_neg(m: Map<TermV, Rational>) -> Map<TermV, Rational> {
    Map::new(|k: TermV| m.contains_key(k), |k: TermV| m[k].spec_neg())
}

/// The coefficient map with every value multiplied raw by `q`.
pub open spec fn map_scale(m: Map<TermV, Rational>, q: Rational) -> Map<TermV, Rational> {
    Map::new(
        |k: TermV| m.contains_key(k),
        |k: TermV|
            Rational { num: m[k].spec_mul(q).0 as i64, den: m[k].spec_mul(q).1 as i64 },
    )
}

/// Whether every scaled value stays in range.
pub open spec fn map_scale_ok(m: Map<TermV, Rational>, q: Rational) -> bool {
    forall|k: TermV|
        #[trigger] m.contains_key(k) ==> Rational::fits(m[k].spec_mul(q).0, m[k].spec_mul(q).1)
}

/// The pointwise sum of two coefficient maps: keys held by one side keep
/// their value, keys held by both sum raw, and a sum with numerator zero
/// drops out.
pub open spec fn map_merge(m1: Map<TermV, Rational>, m2: Map<TermV, Rational>) -> Map<
    TermV,
    Rational,
> {
    Map::new(
        |k: TermV|
            {
                if m1.contains_key(k) && m2.contains_key(k) {
                    m1[k].spec_add(m2[k]).0 != 0
                } else {
                    m1.contains_key(k) || m2.contains_key(k)
                }
            },
        |k: TermV|
            {
                if m1.contains_key(k) && m2.contains_key(k) {
                    Rational {
                        num: m1[k].spec_add(m2[k]).0 as i64,
                        den: m1[k].spec_add(m2[k]).1 as i64,
                    }
                } else if m1.contains_key(k) {
                    m1[k]
                } else {
                    m2[k]
                }
            },
    )
}

/// Whether every shared key's raw sum stays in range.
pub open spec fn map_merge_ok(m1: Map<TermV, Rational>, m2: Map<TermV, Rational>) -> bool {
    forall|k: TermV|
        m1.contains_key(k) && #[trigger] m2.contains_key(k) ==> Rational::fits(
            m1[k].spec_add(m2[k]).0,
            m1[k].spec_add(m2[k]).1,
        )
}

/// With unique keys, the map of a sequence is the map of its tail with the
/// head inserted.
pub proof fn lemma_lc_map_drop_first(s: Seq<(TermV, Rational)>)
    requires
        unique_keys(s),
        s.len() > 0,
    ensures
        unique_keys(s.drop_first()),
        !lc_map(s.drop_first()).contains_key(s[0].0),
        lc_map(s) =~= lc_map(s.drop_first()).insert(s[0].0, s[0].1),
{
    let d = s.drop_first();
    assert(forall|j: int| 0 <= j < s.len() - 1 ==> d[j] == s[j + 1]);
    lemma_lc_map_props(s);
    lemma_lc_map_props(d);
    if lc_map(d).contains_key(s[0].0) {
        let j = choose|j: int| 0 <= j < d.len() && (#[trigger] d[j]).0 == s[0].0;
        assert(s[j + 1].0 == s[0].0);
        assert(false);
    }
    assert forall|k: TermV|
        lc_map(s).contains_key(k) == lc_map(d).insert(s[0].0, s[0].1).contains_key(k) by {
        if k == s[0].0 {
            assert(lc_map(s).contains_key(k));
        } else {
            if lc_map(s).contains_key(k) {
                let j = choose|j: int| 0 <= j < s.len() && (#[trigger] s[j]).0 == k;
                assert(j >= 1);
                assert(d[j - 1].0 == k);
            }
            if lc_map(d).contains_key(k) {
                let j = choose|j: int| 0 <= j < d.len() && (#[trigger] d[j]).0 == k;
                assert(s[j + 1].0 == k);
            }
        }
    }
    assert forall|k: TermV| lc_map(s).contains_key(k) implies lc_map(s)[k] == lc_map(d).insert(
        s[0].0,
        s[0].1,
    )[k] by {
        if k == s[0].0 {
            assert(lc_map(s)[k] == s[0].1);
        } else {
            let j = choose|j: int| 0 <= j < s.len() && (#[trigger] s[j]).0 == k;
            assert(j >= 1);
            assert(d[j - 1] == s[j]);
            assert(lc_map(d)[k] == s[j].1);
        }
    }
}

/// Folding unique-keyed entries into a map by `insert` is the pointwise
/// merge with the map those entries stand for, and the fold stays in range
/// exactly when every shared key's sum does.
pub proof fn lemma_lc_merge_is_map_merge(m: Map<TermV, Rational>, s: Seq<(TermV, Rational)>)
    requires
        unique_keys(s),
    ensures
        lc_merge(m, s) =~= map_merge(m, lc_map(s)),
        lc_merge_ok(m, s) == map_merge_ok(m, lc_map(s)),
    decreases s.len(),
{
    if s.len() == 0 {
        assert(lc_map(s) =~= Map::<TermV, Rational>::empty());
        assert(lc_merge(m, s) =~= map_merge(m, lc_map(s)));
    } else {
        let k0 = s[0].0;
        let v0 = s[0].1;
        let rest = s.drop_first();
        lemma_lc_map_drop_first(s);
        let mr = lc_map(rest);
        let m1 = LinearComb::spec_insert_step(m, k0, v0);
        lemma_lc_merge_is_map_merge(m1, rest);
        assert(lc_merge(m, s) == lc_merge(m1, rest));
        assert(map_merge(m1, mr) =~= map_merge(m, mr.insert(k0, v0)));
        assert(lc_merge(m, s) =~= map_merge(m, lc_map(s)));
        assert(lc_merge_ok(m, s) == (LinearComb::spec_insert_fits(m, k0, v0) && lc_merge_ok(
            m1,
            rest,
        )));
        assert(map_merge_ok(m, lc_map(s)) == map_merge_ok(m, mr.insert(k0, v0)));
        assert(map_merge_ok(m1, mr) == map_merge_ok(m, mr)) by {
            assert forall|k: TermV|
                m1.contains_key(k) && #[trigger] mr.contains_key(k) implies m1[k] == m[k] by {
                assert(k != k0);
            }
            assert forall|k: TermV|
                m.contains_key(k) && #[trigger] mr.contains_key(k) implies m1.contains_key(k)
                    && m1[k] == m[k] by {
                assert(k != k0);
            }
        }
        if LinearComb::spec_insert_fits(m, k0, v0) {
            assert(map_merge_ok(m, mr.insert(k0, v0)) == map_merge_ok(m, mr)) by {
                if map_merge_ok(m, mr) {
                    assert forall|k: TermV|
                        m.contains_key(k) && #[trigger] mr.insert(k0, v0).contains_key(
                            k,
                        ) implies Rational::fits(
                        m[k].spec_add(mr.insert(k0, v0)[k]).0,
                        m[k].spec_add(mr.insert(k0, v0)[k]).1,
                    ) by {
                        if k != k0 {
                            assert(mr.contains_key(k));
                            assert(mr.insert(k0, v0)[k] == mr[k]);
                        }
                    }
                }
                if map_merge_ok(m, mr.insert(k0, v0)) {
                    assert forall|k: TermV|
                        m.contains_key(k) && #[trigger] mr.contains_key(k) implies Rational::fits(
                        m[k].spec_add(mr[k]).0,
                        m[k].spec_add(mr[k]).1,
                    ) by {
                        assert(k != k0);
                        assert(mr.insert(k0, v0).contains_key(k));
                        assert(mr.insert(k0, v0)[k] == mr[k]);
                    }
                }
            }
        } else {
            assert(m.contains_key(k0) && mr.insert(k0, v0).contains_key(k0));
            assert(!map_merge_ok(m, mr.insert(k0, v0)));
        }
    }
}

/// Negating the entries negates the map pointwise.
pub proof fn lemma_neg_entries_map(s: Seq<(TermV, Rational)>)
    requires
        unique_keys(s),
    ensures
        unique_keys(neg_entries(s)),
        lc_map(neg_entries(s)) =~= map_neg(lc_map(s)),
{
    let t = neg_entries(s);
    assert(forall|i: int| 0 <= i < s.len() ==> (#[trigger] t[i]).0 == s[i].0);
    lemma_same_keys_same_dom(s, t);
    lemma_lc_map_props(s);
    lemma_lc_map_props(t);
    assert forall|k: TermV| lc_map(t).contains_key(k) implies lc_map(t)[k] == map_neg(
        lc_map(s),
    ).index(k) by {
        let i = choose|i: int| 0 <= i < t.len() && (#[trigger] t[i]).0 == k;
        assert(s[i].0 == k);
        assert(lc_map(t)[k] == t[i].1);
        assert(lc_map(s)[k] == s[i].1);
    }
}

/// Scaling the entries scales the map pointwise, and the entries all fit
/// exactly when the map's values all do.
pub proof fn lemma_scale_entries_map(s: Seq<(TermV, Rational)>, q: Rational)
    requires
        unique_keys(s),
    ensures
        unique_keys(scale_entries(s, q)),
        lc_map(scale_entries(s, q)) =~= map_scale(lc_map(s), q),
        scale_fits(s, q) == map_scale_ok(lc_map(s), q),
{
    let t = scale_entries(s, q);
    assert(forall|i: int| 0 <= i < s.len() ==> (#[trigger] t[i]).0 == s[i].0);
    lemma_same_keys_same_dom(s, t);
    lemma_lc_map_props(s);
    lemma_lc_map_props(t);
    assert forall|k: TermV| lc_map(t).contains_key(k) implies lc_map(t)[k] == map_scale(
        lc_map(s),
        q,
    )[k] by {
        let i = choose|i: int| 0 <= i < t.len() && (#[trigger] t[i]).0 == k;
        assert(s[i].0 == k);
        assert(lc_map(t)[k] == t[i].1);
        assert(lc_map(s)[k] == s[i].1);
    }
    if scale_fits(s, q) {
        assert forall|k: TermV| #[trigger] lc_map(s).contains_key(k) implies Rational::fits(
            lc_map(s)[k].spec_mul(q).0,
            lc_map(s)[k].spec_mul(q).1,
        ) by {
            let i = choose|i: int| 0 <= i < s.len() && (#[trigger] s[i]).0 == k;
            assert(lc_map(s)[k] == s[i].1);
        }
    }
    if map_scale_ok(lc_map(s), q) {
        assert forall|i: int| 0 <= i < s.len() implies Rational::fits(
            (#[trigger] s[i]).1.spec_mul(q).0,
            s[i].1.spec_mul(q).1,
        ) by {
            assert(lc_map(s).contains_key(s[i].0));
            assert(lc_map(s)[s[i].0] == s[i].1);
        }
    }
}

/// Every subtraction node among the operator spine has at least one
/// argument, so flattening never looks at a missing first operand.
pub open spec fn no_empty_sub(t: TermV) -> bool
    decreases t,
{
    match t {
        TermV::Op(op, args) => (op == Operator::Sub ==> args.len() >= 1) && (forall|i: int|
            0 <= i < args.len() ==> no_empty_sub(#[trigger] args[i])),
        _ => true,
    }
}

/// What flattening one term into the combination yields: the updated map and
/// constant, or nothing when a raw value leaves the range. This is the
/// mathematical account of `add_term`.
pub open spec fn spec_add_term(
    m: Seq<(TermV, Rational)>,
    c: Rational,
    t: TermV,
    coeff: Rational,
) -> Option<(Seq<(TermV, Rational)>, Rational)>
    decreases t, 1int,
{
    match t {
        TermV::Op(op, args) => {
            if op == Operator::Add {
                spec_add_seq(m, c, args, coeff)
            } else if op == Operator::Sub && args.len() == 1 {
                spec_add_term(m, c, args[0], coeff.spec_neg())
            } else if op == Operator::Sub && args.len() >= 2 {
                match spec_add_term(m, c, args[0], coeff) {
                    Some(st) => spec_add_seq(st.0, st.1, args.drop_first(), coeff.spec_neg()),
                    None => None,
                }
            } else if op == Operator::Mult && args.len() == 2 {
                let f0 = spec_as_fraction(args[0]);
                let f1 = spec_as_fraction(args[1]);
                if f0 is None && f1 is Some {
                    spec_add_scaled(m, c, args[0], coeff, f1.unwrap())
                } else if f0 is Some {
                    spec_add_scaled(m, c, args[1], coeff, f0.unwrap())
                } else {
                    spec_add_leaf(m, c, t, coeff)
                }
            } else {
                spec_add_leaf(m, c, t, coeff)
            }
        },
        _ => spec_add_leaf(m, c, t, coeff),
    }
}

/// Recurse into `sub` with the coefficient multiplied raw by `q`.
pub open spec fn spec_add_scaled(
    m: Seq<(TermV, Rational)>,
    c: Rational,
    sub: TermV,
    coeff: Rational,
    q: Rational,
) -> Option<(Seq<(TermV, Rational)>, Rational)>
    decreases sub, 2int,
{
    if Rational::fits(coeff.spec_mul(q).0, coeff.spec_mul(q).1) {
        spec_add_term(
            m,
            c,
            sub,
            Rational { num: coeff.spec_mul(q).0 as i64, den: coeff.spec_mul(q).1 as i64 },
        )
    } else {
        None
    }
}

/// The base case of flattening: a literal folds into the constant, anything
/// else is inserted whole under its own key.
pub open spec fn spec_add_leaf(
    m: Seq<(TermV, Rational)>,
    c: Rational,
    t: TermV,
    coeff: Rational,
) -> Option<(Seq<(TermV, Rational)>, Rational)> {
    match spec_as_fraction(t) {
        Some(q) => {
            if Rational::fits(coeff.spec_mul(q).0, coeff.spec_mul(q).1) {
                let p = Rational {
                    num: coeff.spec_mul(q).0 as i64,
                    den: coeff.spec_mul(q).1 as i64,
                };
                if Rational::fits(c.spec_add(p).0, c.spec_add(p).1) {
                    Some(
                        (
                            m,
                            Rational { num: c.spec_add(p).0 as i64, den: c.spec_add(p).1 as i64 },
                        ),
                    )
                } else {
                    None
                }
            } else {
                None
            }
        },
        None => {
            if seq_insert_fits(m, t, coeff) {
                Some((seq_insert(m, t, coeff), c))
            } else {
                None
            }
        },
    }
}

/// Flattening a run of arguments in order, each with the same coefficient.
pub open spec fn spec_add_seq(
    m: Seq<(TermV, Rational)>,
    c: Rational,
    args: Seq<TermV>,
    coeff: Rational,
) -> Option<(Seq<(TermV, Rational)>, Rational)>
    decreases args, 0int,
{
    if args.len() == 0 {
        Some((m, c))
    } else {
        match spec_add_term(m, c, args[0], coeff) {
            Some(st) => spec_add_seq(st.0, st.1, args.drop_first(), coeff),
            None => None,
        }
    }
}

impl LinearComb {
    /// Flattens `term` into the combination, scaled by `coeff`: nested
    /// additions, subtractions and binary multiplications by a literal are
    /// walked, literals fold into the constant, and every other sub-term is
    /// inserted under its own key. The walk repeats work on shared sub-terms
    /// rather than caching: the terms in play are small and a cache costs
    /// more than it saves. Fails only when a raw value leaves the range; the
    /// combination is then left in some well-formed state and the caller
    /// discards it.
    pub fn add_term(&mut self, term: &Term, coeff: Rational) -> (r: Result<(), ()>)
        requires
            old(self).wf(),
            coeff.wf(),
            term_wf(term@),
            no_empty_sub(term@),
        ensures
            final(self).wf(),
            r is Ok <==> spec_add_term(old(self).entries(), old(self).constant, term@, coeff)
                is Some,
            r is Ok ==> Some((final(self).entries(), final(self).constant)) == spec_add_term(
                old(self).entries(),
                old(self).constant,
                term@,
                coeff,
            ),
        decreases *term,
    {
        let ghost m0 = self.entries();
        let ghost c0 = self.constant;
        proof {
            assert(m0 == old(self).entries());
            assert(c0 == old(self).constant);
            if let Term::Op(op, args) = term {
                lemma_terms_view_index(args@);
            }
        }
        let r = match term {
            Term::Op(op, args) => {
                let ghost argsv = terms_view(args@);
                if *op == Operator::Add {
                    proof {
                        assert(argsv.skip(0) =~= argsv);
                        assert(term@ == TermV::Op(Operator::Add, argsv));
                        assert(spec_add_term(m0, c0, term@, coeff) == spec_add_seq(
                            m0,
                            c0,
                            argsv,
                            coeff,
                        ));
                    }
                    self.add_seq(args, 0, coeff)
                } else if *op == Operator::Sub && args.len() == 1 {
                    proof {
                        assert(term_wf(argsv[0]) && no_empty_sub(argsv[0]));
                        assert(spec_add_term(m0, c0, term@, coeff) == spec_add_term(
                            m0,
                            c0,
                            argsv[0],
                            coeff.spec_neg(),
                        ));
                        assert(args@[0]@ == argsv[0]);
                    }
                    self.add_term(&args[0], coeff.neg())
                } else if *op == Operator::Sub && args.len() >= 2 {
                    proof {
                        assert(term_wf(argsv[0]) && no_empty_sub(argsv[0]));
                    }
                    match self.add_term(&args[0], coeff) {
                        Ok(()) => {
                            proof {
                                assert(argsv.drop_first() =~= argsv.skip(1));
                                assert(Some((self.entries(), self.constant)) == spec_add_term(
                                    m0,
                                    c0,
                                    argsv[0],
                                    coeff,
                                ));
                                assert(spec_add_term(m0, c0, term@, coeff) == spec_add_seq(
                                    self.entries(),
                                    self.constant,
                                    argsv.skip(1),
                                    coeff.spec_neg(),
                                ));
                            }
                            self.add_seq(args, 1, coeff.neg())
                        },
                        Err(()) => {
                            proof {
                                assert(spec_add_term(m0, c0, term@, coeff) is None);
                            }
                            Err(())
                        },
                    }
                } else if *op == Operator::Mult && args.len() == 2 {
                    proof {
                        assert(term_wf(argsv[0]) && no_empty_sub(argsv[0]));
                        assert(term_wf(argsv[1]) && no_empty_sub(argsv[1]));
                    }
                    let f0 = args[0].as_fraction();
                    let f1 = args[1].as_fraction();
                    match (f0, f1) {
                        (None, Some(q)) => {
                            proof {
                                assert(spec_add_term(m0, c0, term@, coeff) == spec_add_scaled(
                                    m0,
                                    c0,
                                    argsv[0],
                                    coeff,
                                    q,
                                ));
                            }
                            match coeff.raw_mul(q) {
                                Some(c2) => self.add_term(&args[0], c2),
                                None => Err(()),
                            }
                        },
                        (Some(q), _) => {
                            proof {
                                assert(spec_add_term(m0, c0, term@, coeff) == spec_add_scaled(
                                    m0,
                                    c0,
                                    argsv[1],
                                    coeff,
                                    q,
                                ));
                            }
                            match coeff.raw_mul(q) {
                                Some(c2) => self.add_term(&args[1], c2),
                                None => Err(()),
                            }
                        },
                        (None, None) => self.add_leaf(term, coeff),
                    }
                } else {
                    proof {
                        assert(spec_add_term(m0, c0, term@, coeff) == spec_add_leaf(
                            m0,
                            c0,
                            term@,
                            coeff,
                        ));
                    }
                    self.add_leaf(term, coeff)
                }
            },
            _ => {
                proof {
                    assert(spec_add_term(m0, c0, term@, coeff) == spec_add_leaf(
                        m0,
                        c0,
                        term@,
                        coeff,
                    ));
                }
                self.add_leaf(term, coeff)
            },
        };
        proof {
            assert(r is Ok <==> spec_add_term(m0, c0, term@, coeff) is Some);
        }
        r
    }

    /// Flattens the arguments of `term` from position `start` on, each with
    /// coefficient `coeff`; `term` must be an operator application.
    fn add_seq(&mut self, args: &Vec<Term>, start: usize, coeff: Rational) -> (r: Result<(), ()>)
        requires
            old(self).wf(),
            coeff.wf(),
            start <= args@.len(),
            forall|i: int|
                0 <= i < args@.len() ==> term_wf(terms_view(args@)[i])
                    && no_empty_sub(#[trigger] terms_view(args@)[i]),
        ensures
            final(self).wf(),
            r is Ok <==> spec_add_seq(
                old(self).entries(),
                old(self).constant,
                terms_view(args@).skip(start as int),
                coeff,
            ) is Some,
            r is Ok ==> Some((final(self).entries(), final(self).constant)) == spec_add_seq(
                old(self).entries(),
                old(self).constant,
                terms_view(args@).skip(start as int),
                coeff,
            ),
        decreases *args, 0int,
    {
        let ghost argsv = terms_view(args@);
        let ghost m0 = self.entries();
        let ghost c0 = self.constant;
        proof {
            lemma_terms_view_index(args@);
        }
        let n = args.len();
        let mut i: usize = start;
        while i < n
            invariant
                n == args@.len(),
                start <= i <= n,
                self.wf(),
                coeff.wf(),
                m0 == old(self).entries(),
                c0 == old(self).constant,
                argsv == terms_view(args@),
                argsv.len() == n,
                forall|j: int| 0 <= j < n ==> argsv[j] == term_view(#[trigger] args@[j]),
                forall|j: int|
                    0 <= j < n ==> term_wf(argsv[j]) && no_empty_sub(
                        #[trigger] argsv[j],
                    ),
                spec_add_seq(m0, c0, argsv.skip(start as int), coeff) == spec_add_seq(
                    self.entries(),
                    self.constant,
                    argsv.skip(i as int),
                    coeff,
                ),
            decreases n - i,
        {
            proof {
                assert(argsv.skip(i as int)[0] == argsv[i as int]);
                assert(argsv.skip(i as int).drop_first() =~= argsv.skip(i as int + 1));
            }
            let ghost before = *self;
            match self.add_term(&args[i], coeff) {
                Ok(()) => {},
                Err(()) => {
                    proof {
                        assert(spec_add_term(
                            before.entries(),
                            before.constant,
                            argsv[i as int],
                            coeff,
                        ) is None);
                        assert(spec_add_seq(
                            before.entries(),
                            before.constant,
                            argsv.skip(i as int),
                            coeff,
                        ) is None);
                    }
                    return Err(());
                },
            }
            i += 1;
        }
        proof {
            assert(argsv.skip(n as int) =~= Seq::<TermV>::empty());
        }
        Ok(())
    }

    /// The base case of flattening: fold a literal into the constant, or
    /// insert the whole term under its own key.
    fn add_leaf(&mut self, term: &Term, coeff: Rational) -> (r: Result<(), ()>)
        requires
            old(self).wf(),
            coeff.wf(),
            term_wf(term@),
        ensures
            final(self).wf(),
            r is Ok <==> spec_add_leaf(old(self).entries(), old(self).constant, term@, coeff)
                is Some,
            r is Ok ==> Some((final(self).entries(), final(self).constant)) == spec_add_leaf(
                old(self).entries(),
                old(self).constant,
                term@,
                coeff,
            ),
    {
        match term.as_fraction() {
            Some(q) => {
                proof {
                    lemma_literal_wf(term@, q);
                }
                match coeff.raw_mul(q) {
                    Some(p) => {
                        let c0 = self.constant;
                        match c0.raw_add(p) {
                            Some(c) => {
                                self.constant = c;
                                Ok(())
                            },
                            None => Err(()),
                        }
                    },
                    None => Err(()),
                }
            },
            None => {
                let key = term.deep_copy();
                match self.insert(key, coeff) {
                    Ok(()) => Ok(()),
                    Err(()) => Err(()),
                }
            },
        }
    }

    /// Flattens a whole term into a fresh combination with coefficient one.
    pub fn from_term(term: &Term) -> (r: Result<LinearComb, ()>)
        requires
            term_wf(term@),
            no_empty_sub(term@),
        ensures
            r is Ok <==> spec_from_term(term@) is Some,
            r matches Ok(lc) ==> lc.wf() && Some((lc.entries(), lc.constant)) == spec_from_term(
                term@,
            ),
    {
        let mut result = LinearComb::new();
        match result.add_term(term, Rational::one()) {
            Ok(()) => Ok(result),
            Err(()) => Err(()),
        }
    }

    /// The greatest common divisor of the integer values of the constant
    /// and every coefficient. Integrality is decided by divisibility of the
    /// raw numerator by the raw denominator, never by the representation
    /// being in lowest terms; a non-integral value means there is none, and
    /// an all-zero (or empty) combination yields one.
    pub fn coefficients_gcd(&self) -> (r: Option<i64>)
        requires
            self.wf(),
        ensures
            r is Some <==> self.spec_coefficients_gcd() is Some,
            r matches Some(g) ==> Some(g as int) == self.spec_coefficients_gcd(),
    {
        let cnum: u64 = if self.constant.num < 0 {
            (-self.constant.num) as u64
        } else {
            self.constant.num as u64
        };
        let cden: u64 = self.constant.den as u64;
        proof {
            crate::euclid::lemma_div_abs(self.constant.num as int, self.constant.den as int);
            vstd::arithmetic::div_mod::lemma_fundamental_div_mod(cnum as int, cden as int);
        }
        if cnum % cden != 0 {
            return None;
        }
        proof {
            lemma_entries_view_index(self.terms@);
        }
        let ghost oe = self.entries();
        let mut acc: u64 = cnum / cden;
        let ghost acc0 = acc;
        proof {
            let n = self.constant.num as int;
            let d = self.constant.den as int;
            vstd::arithmetic::div_mod::lemma_fundamental_div_mod(n, d);
            assert(n < 0 ==> n / d < 0) by (nonlinear_arith)
                requires
                    d > 0,
                    n == d * (n / d) + n % d,
                    n % d == 0,
            ;
            assert(n >= 0 ==> n / d >= 0) by (nonlinear_arith)
                requires
                    d > 0,
                    n == d * (n / d) + n % d,
                    0 <= n % d < d,
            ;
            assert(acc <= cnum) by (nonlinear_arith)
                requires
                    cnum as int == cden as int * (acc as int) + (cnum as int % cden as int),
                    cnum % cden == 0,
                    acc as int == cnum as int / cden as int,
                    cden >= 1,
                    acc >= 0,
            ;
            assert(oe.skip(0) =~= oe);
        }
        let n = self.terms.len();
        let mut i: usize = 0;
        while i < n
            invariant
                n == self.terms@.len(),
                0 <= i <= n,
                self.wf(),
                oe == self.entries(),
                oe.len() == n,
                forall|j: int| 0 <= j < n ==> #[trigger] self.entries()[j] == (
                    term_view(self.terms@[j].0),
                    self.terms@[j].1,
                ),
                acc <= i64::MAX,
                self.constant.num % self.constant.den == 0,
                acc0 as int == (if self.constant.num < 0 {
                    -(self.constant.num as int / self.constant.den as int)
                } else {
                    self.constant.num as int / self.constant.den as int
                }),
                spec_gcd_fold(oe.skip(i as int), acc as nat) == spec_gcd_fold(oe, acc0 as nat),
            decreases n - i,
        {
            proof {
                assert(oe.skip(i as int)[0] == oe[i as int]);
                assert(oe.skip(i as int).drop_first() =~= oe.skip(i as int + 1));
                assert(self.entries()[i as int].1.wf());
            }
            let q = self.terms[i].1;
            let qn: u64 = if q.num < 0 {
                (-q.num) as u64
            } else {
                q.num as u64
            };
            let qd: u64 = q.den as u64;
            proof {
                crate::euclid::lemma_div_abs(q.num as int, q.den as int);
                vstd::arithmetic::div_mod::lemma_fundamental_div_mod(qn as int, qd as int);
            }
            if qn % qd != 0 {
                proof {
                    assert(spec_gcd_fold(oe.skip(i as int), acc as nat) is None);
                }
                return None;
            }
            let a: u64 = qn / qd;
            proof {
                assert(a <= qn) by (nonlinear_arith)
                    requires
                        qn as int == qd as int * (a as int) + (qn as int % qd as int),
                        qn % qd == 0,
                        a as int == qn as int / qd as int,
                        qd >= 1,
                        a >= 0,
                ;
                crate::euclid::lemma_gcd_le(a as nat, acc as nat);
            }
            acc = crate::euclid::gcd_u64(a, acc);
            i += 1;
        }
        proof {
            assert(oe.skip(n as int) =~= Seq::<(TermV, Rational)>::empty());
        }
        if acc == 0 {
            Some(1)
        } else {
            Some(acc as i64)
        }
    }

    /// The fold behind `coefficients_gcd`, over the raw numerators.
    pub open spec fn spec_coefficients_gcd(self) -> Option<int> {
        spec_coeffs_gcd(self.entries(), self.constant)
    }
}

/// The greatest common divisor of the integer values of a constant and
/// coefficients, with integrality read by raw divisibility; an all-zero or
/// empty combination yields one.
pub open spec fn spec_coeffs_gcd(e: Seq<(TermV, Rational)>, c: Rational) -> Option<int> {
    if c.num % c.den != 0 {
        None
    } else {
        let q = c.num / c.den;
        let start = if q < 0 {
            -q
        } else {
            q
        };
        match spec_gcd_fold(e, start as nat) {
            Some(g) => Some(if g < 1 { 1int } else { g as int }),
            None => None,
        }
    }
}

/// Folding the coefficients' absolute integer values into a running
/// divisor; none when any coefficient is not an integer in value.
pub open spec fn spec_gcd_fold(s: Seq<(TermV, Rational)>, acc: nat) -> Option<nat>
    decreases s.len(),
{
    if s.len() == 0 {
        Some(acc)
    } else if s[0].1.num % s[0].1.den != 0 {
        None
    } else {
        let q = s[0].1.num / s[0].1.den;
        let a = (if q < 0 {
            -q
        } else {
            q
        }) as nat;
        spec_gcd_fold(s.drop_first(), crate::euclid::spec_gcd(a, acc))
    }
}

/// What `from_term` yields: flattening with coefficient one into an empty
/// combination.
pub open spec fn spec_from_term(t: TermV) -> Option<(Seq<(TermV, Rational)>, Rational)> {
    spec_add_term(
        Seq::empty(),
        Rational { num: 0int as i64, den: 1int as i64 },
        t,
        Rational { num: 1int as i64, den: 1int as i64 },
    )
}

/// A literal read back through `spec_as_fraction` is well-formed when the
/// term is.
pub proof fn lemma_literal_wf(t: TermV, q: Rational)
    requires
        term_wf(t),
        spec_as_fraction(t) == Some(q),
    ensures
        q.wf(),
{
}

/// No entry of the run carries a zero coefficient.
pub open spec fn entries_no_zeros(s: Seq<(TermV, Rational)>) -> bool {
    forall|i: int| 0 <= i < s.len() ==> (#[trigger] s[i]).1.num != 0
}

/// No multiplication along the term's operator spine carries a zero
/// literal, so flattening never accumulates a zero coefficient.
pub open spec fn zero_free(t: TermV) -> bool
    decreases t, 1int,
{
    match t {
        TermV::Op(op, args) => {
            if op == Operator::Mult && args.len() == 2 {
                let f0 = spec_as_fraction(args[0]);
                let f1 = spec_as_fraction(args[1]);
                if f0 is None && f1 is Some {
                    f1.unwrap().num != 0 && zero_free(args[0])
                } else if f0 is Some {
                    f0.unwrap().num != 0 && zero_free(args[1])
                } else {
                    true
                }
            } else if op == Operator::Add || op == Operator::Sub {
                zero_free_seq(args)
            } else {
                true
            }
        },
        _ => true,
    }
}

pub open spec fn zero_free_seq(s: Seq<TermV>) -> bool
    decreases s, 0int,
{
    if s.len() == 0 {
        true
    } else {
        zero_free_seq(s.drop_last()) && zero_free(s.last())
    }
}

pub proof fn lemma_zero_free_seq_index(s: Seq<TermV>)
    requires
        zero_free_seq(s),
    ensures
        forall|i: int| 0 <= i < s.len() ==> zero_free(#[trigger] s[i]),
    decreases s.len(),
{
    if s.len() > 0 {
        lemma_zero_free_seq_index(s.drop_last());
        assert forall|i: int| 0 <= i < s.len() implies zero_free(#[trigger] s[i]) by {
            if i < s.len() - 1 {
                assert(s.drop_last()[i] == s[i]);
            } else {
                assert(s[i] == s.last());
            }
        }
    }
}

/// With the key present, its first position is in range and holds it.
pub proof fn lemma_index_of_bounds(s: Seq<(TermV, Rational)>, k: TermV)
    requires
        has_key(s, k),
    ensures
        0 <= spec_index_of(s, k) < s.len(),
        s[spec_index_of(s, k)].0 == k,
    decreases s.len(),
{
    if s.len() > 0 && s[0].0 != k {
        let d = s.drop_first();
        assert(forall|j: int| 0 <= j < s.len() - 1 ==> d[j] == s[j + 1]);
        let i = choose|i: int| 0 <= i < s.len() && (#[trigger] s[i]).0 == k;
        assert(i >= 1);
        assert(d[i - 1].0 == k);
        assert(has_key(d, k));
        lemma_index_of_bounds(d, k);
    }
}

/// Inserting a non-zero coefficient keeps every coefficient non-zero.
pub proof fn lemma_seq_insert_no_zeros(s: Seq<(TermV, Rational)>, k: TermV, v: Rational)
    requires
        entries_no_zeros(s),
        v.num != 0,
        seq_insert_fits(s, k, v),
    ensures
        entries_no_zeros(seq_insert(s, k, v)),
{
    let t = seq_insert(s, k, v);
    if !has_key(s, k) {
        assert forall|i: int| 0 <= i < t.len() implies (#[trigger] t[i]).1.num != 0 by {
            if i < s.len() {
                assert(t[i] == s[i]);
            } else {
                assert(t[i] == (k, v));
            }
        }
    } else {
        lemma_index_of_bounds(s, k);
        let ix = spec_index_of(s, k);
        let sum = s[ix].1.spec_add(v);
        if sum.0 == 0 {
            assert forall|i: int| 0 <= i < t.len() implies (#[trigger] t[i]).1.num != 0 by {
                if 0 <= ix < s.len() {
                    if i < ix {
                        assert(t[i] == s[i]);
                    } else {
                        assert(t[i] == s[i + 1]);
                    }
                } else {
                    assert(t[i] == s[i]);
                }
            }
        } else {
            assert forall|i: int| 0 <= i < t.len() implies (#[trigger] t[i]).1.num != 0 by {
                if 0 <= ix < s.len() && i == ix {
                    assert(t[i] == (k, Rational { num: sum.0 as i64, den: sum.1 as i64 }));
                } else {
                    assert(t[i] == s[i]);
                }
            }
        }
    }
}

/// Flattening a zero-free term with a non-zero coefficient never stores a
/// zero coefficient.
pub proof fn lemma_add_term_no_zeros(
    e: Seq<(TermV, Rational)>,
    c: Rational,
    t: TermV,
    coeff: Rational,
)
    requires
        entries_no_zeros(e),
        coeff.wf(),
        coeff.num != 0,
        zero_free(t),
        spec_add_term(e, c, t, coeff) is Some,
    ensures
        entries_no_zeros(spec_add_term(e, c, t, coeff).unwrap().0),
    decreases t, 1int,
{
    match t {
        TermV::Op(op, args) => {
            if op == Operator::Add {
                lemma_zero_free_seq_index(args);
                lemma_add_seq_no_zeros(e, c, args, coeff);
            } else if op == Operator::Sub && args.len() == 1 {
                lemma_zero_free_seq_index(args);
                lemma_add_term_no_zeros(e, c, args[0], coeff.spec_neg());
            } else if op == Operator::Sub && args.len() >= 2 {
                lemma_zero_free_seq_index(args);
                lemma_add_term_no_zeros(e, c, args[0], coeff);
                let st = spec_add_term(e, c, args[0], coeff).unwrap();
                lemma_add_seq_no_zeros(st.0, st.1, args.drop_first(), coeff.spec_neg());
            } else if op == Operator::Mult && args.len() == 2 {
                let f0 = spec_as_fraction(args[0]);
                let f1 = spec_as_fraction(args[1]);
                if f0 is None && f1 is Some {
                    let q = f1.unwrap();
                    assert(spec_add_term(e, c, t, coeff) == spec_add_scaled(
                        e,
                        c,
                        args[0],
                        coeff,
                        q,
                    ));
                    assert(Rational::fits(coeff.spec_mul(q).0, coeff.spec_mul(q).1));
                    let c2 = Rational {
                        num: coeff.spec_mul(q).0 as i64,
                        den: coeff.spec_mul(q).1 as i64,
                    };
                    assert(coeff.spec_mul(q).0 != 0) by (nonlinear_arith)
                        requires
                            coeff.num != 0,
                            q.num != 0,
                            coeff.spec_mul(q).0 == coeff.num * q.num,
                    ;
                    lemma_add_term_no_zeros(e, c, args[0], c2);
                } else if f0 is Some {
                    let q = f0.unwrap();
                    assert(spec_add_term(e, c, t, coeff) == spec_add_scaled(
                        e,
                        c,
                        args[1],
                        coeff,
                        q,
                    ));
                    assert(Rational::fits(coeff.spec_mul(q).0, coeff.spec_mul(q).1));
                    let c2 = Rational {
                        num: coeff.spec_mul(q).0 as i64,
                        den: coeff.spec_mul(q).1 as i64,
                    };
                    assert(coeff.spec_mul(q).0 != 0) by (nonlinear_arith)
                        requires
                            coeff.num != 0,
                            q.num != 0,
                            coeff.spec_mul(q).0 == coeff.num * q.num,
                    ;
                    lemma_add_term_no_zeros(e, c, args[1], c2);
                } else {
                    lemma_seq_insert_no_zeros(e, t, coeff);
                }
            } else {
                if spec_as_fraction(t) is None {
                    lemma_seq_insert_no_zeros(e, t, coeff);
                }
            }
        },
        _ => {
            if spec_as_fraction(t) is None {
                lemma_seq_insert_no_zeros(e, t, coeff);
            }
        },
    }
}

pub proof fn lemma_add_seq_no_zeros(
    e: Seq<(TermV, Rational)>,
    c: Rational,
    args: Seq<TermV>,
    coeff: Rational,
)
    requires
        entries_no_zeros(e),
        coeff.wf(),
        coeff.num != 0,
        forall|i: int| 0 <= i < args.len() ==> zero_free(#[trigger] args[i]),
        spec_add_seq(e, c, args, coeff) is Some,
    ensures
        entries_no_zeros(spec_add_seq(e, c, args, coeff).unwrap().0),
    decreases args, 0int,
{
    if args.len() > 0 {
        lemma_add_term_no_zeros(e, c, args[0], coeff);
        let st = spec_add_term(e, c, args[0], coeff).unwrap();
        assert(forall|i: int| 0 <= i < args.len() - 1 ==> args.drop_first()[i] == args[i + 1]);
        lemma_add_seq_no_zeros(st.0, st.1, args.drop_first(), coeff);
    }
}

/// No coefficient of a combination flattened from a zero-free term is
/// zero: together with the preservation stated on `insert`, `add`, `mul`
/// and `neg`, no operation ever leaves a zero entry behind.
pub proof fn lemma_from_term_no_zeros(t: TermV)
    requires
        zero_free(t),
        spec_from_term(t) is Some,
    ensures
        entries_no_zeros(spec_from_term(t).unwrap().0),
{
    lemma_add_term_no_zeros(
        Seq::empty(),
        Rational { num: 0int as i64, den: 1int as i64 },
        t,
        Rational { num: 1int as i64, den: 1int as i64 },
    );
}

/// Entry views after a `push` are the old views plus the new pair.
pub proof fn lemma_entries_view_seq_push(s: Seq<(Term, Rational)>, p: (Term, Rational))
    ensures
        entries_view(s.push(p)) =~= entries_view(s).push((term_view(p.0), p.1)),
{
    lemma_entries_view_index(s);
    lemma_entries_view_index(s.push(p));
    let l = entries_view(s.push(p));
    let r = entries_view(s).push((term_view(p.0), p.1));
    assert(l.len() == r.len());
    assert forall|i: int| 0 <= i < l.len() implies l[i] == r[i] by {
        if i < s.len() {
            assert(s.push(p)[i] == s[i]);
        } else {
            assert(s.push(p)[i] == p);
        }
    }
}

/// Entry views after an `update` are the old views with that slot updated.
pub proof fn lemma_entries_view_seq_update(s: Seq<(Term, Rational)>, i: int, p: (Term, Rational))
    requires
        0 <= i < s.len(),
    ensures
        entries_view(s.update(i, p)) =~= entries_view(s).update(i, (term_view(p.0), p.1)),
{
    lemma_entries_view_index(s);
    lemma_entries_view_index(s.update(i, p));
    let l = entries_view(s.update(i, p));
    let r = entries_view(s).update(i, (term_view(p.0), p.1));
    assert(l.len() == r.len());
    assert forall|j: int| 0 <= j < l.len() implies l[j] == r[j] by {
        if j != i {
            assert(s.update(i, p)[j] == s[j]);
        } else {
            assert(s.update(i, p)[j] == p);
        }
    }
}

/// Entry views after a `remove` are the old views with that slot removed.
pub proof fn lemma_entries_view_seq_remove(s: Seq<(Term, Rational)>, i: int)
    requires
        0 <= i < s.len(),
    ensures
        entries_view(s.remove(i)) =~= entries_view(s).remove(i),
{
    lemma_entries_view_index(s);
    lemma_entries_view_index(s.remove(i));
    let l = entries_view(s.remove(i));
    let r = entries_view(s).remove(i);
    assert(l.len() == r.len());
    assert forall|j: int| 0 <= j < l.len() implies l[j] == r[j] by {
        if j < i {
            assert(s.remove(i)[j] == s[j]);
        } else {
            assert(s.remove(i)[j] == s[j + 1]);
        }
    }
}

} // verus!
