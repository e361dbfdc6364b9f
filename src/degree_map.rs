use vstd::prelude::*;

use crate::numeric::COEFF_MAX;

verus! {

/// Adds `c` to the coefficient of degree `e`: an entry of a nonzero degree whose
/// coefficient becomes zero leaves the map, the entry of degree zero stays.
pub open spec fn add_term(m: Map<u32, int>, e: u32, c: int) -> Map<u32, int> {
    let v = (if m.contains_key(e) {
        m[e]
    } else {
        0
    }) + c;
    if v == 0 && e != 0 {
        m.remove(e)
    } else {
        m.insert(e, v)
    }
}

/// The coefficient that `add_term` leaves at degree `e`.
pub open spec fn sum_at(m: Map<u32, int>, e: u32, c: int) -> int {
    (if m.contains_key(e) {
        m[e]
    } else {
        0
    }) + c
}

/// The invariant of a reduced equation: the degree zero is present, every other
/// degree present has a nonzero coefficient, and every coefficient is within bounds.
pub open spec fn reduced(m: Map<u32, int>) -> bool {
    &&& m.contains_key(0)
    &&& forall|e: u32| #[trigger] m.contains_key(e) && e != 0 ==> m[e] != 0
    &&& forall|e: u32| #[trigger] m.contains_key(e) ==> -COEFF_MAX <= m[e] <= COEFF_MAX
}

pub open spec fn seeded() -> Map<u32, int> {
    map![0u32 => 0int]
}

pub open spec fn has_key(s: Seq<(u32, i64)>, e: u32) -> bool {
    exists|i: int| 0 <= i < s.len() && #[trigger] s[i].0 == e
}

pub open spec fn key_index(s: Seq<(u32, i64)>, e: u32) -> int {
    choose|i: int| 0 <= i < s.len() && #[trigger] s[i].0 == e
}

pub open spec fn map_of(s: Seq<(u32, i64)>) -> Map<u32, int> {
    Map::new(|e: u32| has_key(s, e), |e: u32| s[key_index(s, e)].1 as int)
}

pub open spec fn ascending(s: Seq<(u32, i64)>) -> bool {
    forall|i: int, j: int| 0 <= i < j < s.len() ==> s[i].0 < s[j].0
}

/// The sign printed before a term of the reduced form.
#[derive(Clone, Copy, Debug, PartialEq, Eq, Structural)]
pub enum TermSign {
    /// No sign: the first term, when it is not negative.
    Leading,
    Plus,
    Minus,
}

/// A term of the reduced form as printed: its sign, the magnitude of its
/// coefficient in millionths, and its degree.
#[derive(Clone, Copy, Debug, PartialEq, Eq, Structural)]
pub struct ReducedTerm {
    pub sign: TermSign,
    pub magnitude: i64,
    pub degree: u32,
}

/// The sign of the term at position `i` whose coefficient is `v`.
pub open spec fn sign_for(i: int, v: int) -> TermSign {
    if v < 0 {
        TermSign::Minus
    } else if i == 0 {
        TermSign::Leading
    } else {
        TermSign::Plus
    }
}

/// A reduced polynomial equation, `sum of coefficient * X^degree = 0`, with the
/// coefficients in millionths. Its entries stand in ascending order of degree.
pub struct DegreeMap {
    entries: Vec<(u32, i64)>,
}

impl View for DegreeMap {
    type V = Map<u32, int>;

    closed spec fn view(&self) -> Map<u32, int> {
        map_of(self.entries@)
    }
}

proof fn lemma_index(s: Seq<(u32, i64)>, i: int)
    requires
        ascending(s),
        0 <= i < s.len(),
    ensures
        has_key(s, s[i].0),
        key_index(s, s[i].0) == i,
        map_of(s).contains_key(s[i].0),
        map_of(s)[s[i].0] == s[i].1 as int,
{
    assert(has_key(s, s[i].0));
    let j = key_index(s, s[i].0);
    if j < i {
        assert(s[j].0 < s[i].0);
    } else if j > i {
        assert(s[i].0 < s[j].0);
    }
}

impl DegreeMap {
    pub closed spec fn wf(&self) -> bool {
        let s = self.entries@;
        &&& ascending(s)
        &&& s.len() > 0
        &&& s[0].0 == 0
        &&& forall|i: int| 0 < i < s.len() ==> #[trigger] s[i].1 != 0
        &&& forall|i: int| 0 <= i < s.len() ==> -COEFF_MAX <= #[trigger] s[i].1 <= COEFF_MAX
    }

    pub proof fn lemma_reduced(&self)
        requires
            self.wf(),
        ensures
            reduced(self@),
    {
        let s = self.entries@;
        lemma_index(s, 0);
        assert forall|e: u32| #[trigger] self@.contains_key(e) implies (e != 0 ==> self@[e] != 0)
            && -COEFF_MAX <= self@[e] <= COEFF_MAX by {
            let i = choose|i: int| 0 <= i < s.len() && #[trigger] s[i].0 == e;
            lemma_index(s, i);
            if i == 0 {
                assert(e == 0);
            }
        }
    }

    /// The map of a fresh equation: degree zero with coefficient zero.
    pub fn new() -> (r: Self)
        ensures
            r.wf(),
            r@ == seeded(),
    {
        let r = DegreeMap { entries: vec![(0u32, 0i64)] };
        proof {
            let s = r.entries@;
            lemma_index(s, 0);
            assert(r@ =~= seeded()) by {
                assert forall|e: u32| #[trigger] r@.contains_key(e) implies e == 0 by {
                    let i = choose|i: int| 0 <= i < s.len() && #[trigger] s[i].0 == e;
                }
            }
        }
        r
    }

    /// Adds `coeff` to the coefficient of `degree`. Fails, leaving the map as it
    /// was, when the sum would leave the coefficient bound.
    #[verifier::spinoff_prover]
    pub fn add(&mut self, degree: u32, coeff: i64) -> (r: bool)
        requires
            old(self).wf(),
            -COEFF_MAX <= coeff <= COEFF_MAX,
        ensures
            final(self).wf(),
            r == (-COEFF_MAX <= sum_at(old(self)@, degree, coeff as int) <= COEFF_MAX),
            r ==> final(self)@ == add_term(old(self)@, degree, coeff as int),
            !r ==> final(self)@ == old(self)@,
    {
        let ghost s = self.entries@;
        let mut i: usize = 0;
        while i < self.entries.len() && self.entries[i].0 < degree
            invariant
                self.entries@ == s,
                self.wf(),
                i <= s.len(),
                forall|k: int| 0 <= k < i ==> #[trigger] s[k].0 < degree,
            decreases s.len() - i,
        {
            i = i + 1;
        }
        if i < self.entries.len() && self.entries[i].0 == degree {
            proof {
                lemma_index(s, i as int);
            }
            let v = self.entries[i].1 + coeff;
            if v < -COEFF_MAX || v > COEFF_MAX {
                return false;
            }
            if v == 0 && degree != 0 {
                self.entries.remove(i);
                proof {
                    self.lemma_removed(s, i as int);
                }
            } else {
                self.entries.set(i, (degree, v));
                proof {
                    self.lemma_updated(s, i as int, v);
                }
            }
            true
        } else {
            proof {
                assert(!old(self)@.contains_key(degree)) by {
                    if has_key(s, degree) {
                        let j = choose|j: int| 0 <= j < s.len() && #[trigger] s[j].0 == degree;
                        if j >= i {
                            assert(s[i as int].0 <= s[j].0);
                        }
                    }
                }
                assert(i > 0) by {
                    if i == 0 {
                        assert(s[0].0 == 0);
                    }
                }
            }
            if coeff == 0 {
                assert(old(self)@.remove(degree) =~= old(self)@);
                return true;
            }
            self.entries.insert(i, (degree, coeff));
            proof {
                self.lemma_inserted(s, i as int, degree, coeff);
            }
            true
        }
    }

    /// The coefficient of `degree`, if present.
    pub fn get(&self, degree: u32) -> (r: Option<i64>)
        requires
            self.wf(),
        ensures
            r matches Some(v) ==> self@.contains_key(degree) && self@[degree] == v as int,
            r is None ==> !self@.contains_key(degree),
    {
        let mut i: usize = 0;
        while i < self.entries.len()
            invariant
                self.wf(),
                i <= self.entries@.len(),
                forall|k: int| 0 <= k < i ==> #[trigger] self.entries@[k].0 != degree,
            decreases self.entries@.len() - i,
        {
            if self.entries[i].0 == degree {
                proof {
                    lemma_index(self.entries@, i as int);
                }
                return Some(self.entries[i].1);
            }
            i = i + 1;
        }
        None
    }

    /// The highest degree present.
    pub fn highest_degree(&self) -> (r: u32)
        requires
            self.wf(),
        ensures
            self@.contains_key(r),
            forall|e: u32| #[trigger] self@.contains_key(e) ==> e <= r,
    {
        let s = Ghost(self.entries@);
        let n = self.entries.len();
        proof {
            lemma_index(s@, n - 1);
            assert forall|e: u32| #[trigger] self@.contains_key(e) implies e <= s@[n - 1].0 by {
                let k = choose|k: int| 0 <= k < s@.len() && #[trigger] s@[k].0 == e;
            }
        }
        self.entries[n - 1].0
    }

    /// The entries, in ascending order of degree.
    pub fn entries(&self) -> (r: Vec<(u32, i64)>)
        requires
            self.wf(),
        ensures
            forall|i: int, j: int| 0 <= i < j < r@.len() ==> r@[i].0 < r@[j].0,
            forall|i: int|
                0 <= i < r@.len() ==> #[trigger] self@.contains_key(r@[i].0) && self@[r@[i].0]
                    == r@[i].1 as int,
            forall|e: u32|
                #[trigger] self@.contains_key(e) ==> exists|i: int|
                    0 <= i < r@.len() && #[trigger] r@[i].0 == e,
    {
        proof {
            assert forall|i: int| 0 <= i < self.entries@.len() implies #[trigger] self@.contains_key(
                self.entries@[i].0,
            ) && self@[self.entries@[i].0] == self.entries@[i].1 as int by {
                lemma_index(self.entries@, i);
            }
        }
        let mut r: Vec<(u32, i64)> = Vec::new();
        let mut i: usize = 0;
        while i < self.entries.len()
            invariant
                i <= self.entries@.len(),
                r@ == self.entries@.take(i as int),
            decreases self.entries@.len() - i,
        {
            r.push(self.entries[i]);
            i = i + 1;
            assert(r@ =~= self.entries@.take(i as int));
        }
        assert(r@ =~= self.entries@);
        r
    }

    /// The terms of the reduced form, in ascending order of degree, each with the
    /// sign that stands before it.
    #[verifier::spinoff_prover]
    pub fn reduced_form(&self) -> (r: Vec<ReducedTerm>)
        requires
            self.wf(),
        ensures
            forall|i: int, j: int| 0 <= i < j < r@.len() ==> r@[i].degree < r@[j].degree,
            forall|i: int|
                0 <= i < r@.len() ==> #[trigger] self@.contains_key(r@[i].degree) && r@[i].magnitude
                    >= 0 && r@[i].sign == sign_for(i, self@[r@[i].degree]) && (if self@[r@[i].degree]
                    < 0 {
                    self@[r@[i].degree] == -r@[i].magnitude
                } else {
                    self@[r@[i].degree] == r@[i].magnitude
                }),
            forall|e: u32|
                #[trigger] self@.contains_key(e) ==> exists|i: int|
                    0 <= i < r@.len() && #[trigger] r@[i].degree == e,
    {
        let mut r: Vec<ReducedTerm> = Vec::new();
        let mut i: usize = 0;
        let ghost s = self.entries@;
        while i < self.entries.len()
            invariant
                self.wf(),
                s == self.entries@,
                i <= s.len(),
                r@.len() == i,
                forall|k: int| 0 <= k < i ==> (#[trigger] r@[k]).degree == s[k].0,
                forall|k: int|
                    0 <= k < i ==> (#[trigger] r@[k]).sign == sign_for(k, s[k].1 as int) && r@[k].magnitude
                        >= 0 && (if s[k].1 < 0 {
                        s[k].1 == -r@[k].magnitude
                    } else {
                        s[k].1 == r@[k].magnitude
                    }),
            decreases s.len() - i,
        {
            let (degree, v) = self.entries[i];
            let sign = if v < 0 {
                TermSign::Minus
            } else if i == 0 {
                TermSign::Leading
            } else {
                TermSign::Plus
            };
            let magnitude = if v < 0 {
                -v
            } else {
                v
            };
            r.push(ReducedTerm { sign, magnitude, degree });
            i = i + 1;
        }
        proof {
            assert forall|k: int| 0 <= k < r@.len() implies #[trigger] self@.contains_key(
                r@[k].degree,
            ) && self@[r@[k].degree] == s[k].1 as int by {
                lemma_index(s, k);
            }
            assert forall|e: u32| #[trigger] self@.contains_key(e) implies exists|k: int|
                0 <= k < r@.len() && #[trigger] r@[k].degree == e by {
                let k = choose|k: int| 0 <= k < s.len() && #[trigger] s[k].0 == e;
                assert(r@[k].degree == e);
            }
        }
        r
    }

    #[verifier::spinoff_prover]
    proof fn lemma_removed(&self, s: Seq<(u32, i64)>, i: int)
        requires
            ascending(s),
            s.len() > 0,
            s[0].0 == 0,
            forall|k: int| 0 < k < s.len() ==> #[trigger] s[k].1 != 0,
            forall|k: int| 0 <= k < s.len() ==> -COEFF_MAX <= #[trigger] s[k].1 <= COEFF_MAX,
            0 < i < s.len(),
            self.entries@ == s.remove(i),
        ensures
            self.wf(),
            self@ == map_of(s).remove(s[i].0),
    {
        let t = self.entries@;
        assert(ascending(t)) by {
            assert forall|a: int, b: int| 0 <= a < b < t.len() implies t[a].0 < t[b].0 by {
                let a2 = if a < i {
                    a
                } else {
                    a + 1
                };
                let b2 = if b < i {
                    b
                } else {
                    b + 1
                };
                assert(t[a] == s[a2]);
                assert(t[b] == s[b2]);
            }
        }
        assert forall|k: int| 0 < k < t.len() implies #[trigger] t[k].1 != 0 by {
            if k >= i {
                assert(t[k] == s[k + 1]);
            }
        }
        assert forall|k: int| 0 <= k < t.len() implies -COEFF_MAX <= #[trigger] t[k].1
            <= COEFF_MAX by {
            if k >= i {
                assert(t[k] == s[k + 1]);
            }
        }
        assert(t[0] == s[0]);
        lemma_index(s, i);
        let m = map_of(s).remove(s[i].0);
        assert forall|e: u32| #[trigger] self@.contains_key(e) <==> m.contains_key(e) by {
            if self@.contains_key(e) {
                let k = choose|k: int| 0 <= k < t.len() && #[trigger] t[k].0 == e;
                let k2 = if k < i {
                    k
                } else {
                    k + 1
                };
                assert(t[k] == s[k2]);
                lemma_index(s, k2);
            }
            if m.contains_key(e) {
                let k = choose|k: int| 0 <= k < s.len() && #[trigger] s[k].0 == e;
                let k2 = if k < i {
                    k
                } else {
                    k - 1
                };
                assert(t[k2] == s[k]);
                assert(has_key(t, e));
            }
        }
        assert forall|e: u32| #[trigger] self@.contains_key(e) implies self@[e] == m[e] by {
            let k = choose|k: int| 0 <= k < t.len() && #[trigger] t[k].0 == e;
            let k2 = if k < i {
                k
            } else {
                k + 1
            };
            assert(t[k] == s[k2]);
            lemma_index(s, k2);
            lemma_index(t, k);
        }
        assert(self@ =~= m);
    }

    #[verifier::spinoff_prover]
    proof fn lemma_updated(&self, s: Seq<(u32, i64)>, i: int, v: i64)
        requires
            ascending(s),
            s.len() > 0,
            s[0].0 == 0,
            forall|k: int| 0 < k < s.len() ==> #[trigger] s[k].1 != 0,
            forall|k: int| 0 <= k < s.len() ==> -COEFF_MAX <= #[trigger] s[k].1 <= COEFF_MAX,
            0 <= i < s.len(),
            v != 0 || i == 0,
            -COEFF_MAX <= v <= COEFF_MAX,
            self.entries@ == s.update(i, (s[i].0, v)),
        ensures
            self.wf(),
            self@ == map_of(s).insert(s[i].0, v as int),
    {
        let t = self.entries@;
        assert(ascending(t));
        assert forall|k: int| 0 < k < t.len() implies #[trigger] t[k].1 != 0 by {
            if k != i {
                assert(t[k] == s[k]);
            }
        }
        assert forall|k: int| 0 <= k < t.len() implies -COEFF_MAX <= #[trigger] t[k].1
            <= COEFF_MAX by {
            if k != i {
                assert(t[k] == s[k]);
            }
        }
        lemma_index(s, i);
        lemma_index(t, i);
        let m = map_of(s).insert(s[i].0, v as int);
        assert forall|e: u32| #[trigger] self@.contains_key(e) <==> m.contains_key(e) by {
            if self@.contains_key(e) {
                let k = choose|k: int| 0 <= k < t.len() && #[trigger] t[k].0 == e;
                if k != i {
                    assert(t[k] == s[k]);
                    lemma_index(s, k);
                }
            }
            if m.contains_key(e) && e != s[i].0 {
                let k = choose|k: int| 0 <= k < s.len() && #[trigger] s[k].0 == e;
                assert(t[k] == s[k]);
                assert(has_key(t, e));
            }
        }
        assert forall|e: u32| #[trigger] self@.contains_key(e) implies self@[e] == m[e] by {
            let k = choose|k: int| 0 <= k < t.len() && #[trigger] t[k].0 == e;
            lemma_index(t, k);
            if k != i {
                assert(t[k] == s[k]);
                lemma_index(s, k);
            }
        }
        assert(self@ =~= m);
    }

    #[verifier::spinoff_prover]
    proof fn lemma_inserted(&self, s: Seq<(u32, i64)>, i: int, e0: u32, c: i64)
        requires
            ascending(s),
            s.len() > 0,
            s[0].0 == 0,
            forall|k: int| 0 < k < s.len() ==> #[trigger] s[k].1 != 0,
            forall|k: int| 0 <= k < s.len() ==> -COEFF_MAX <= #[trigger] s[k].1 <= COEFF_MAX,
            0 < i <= s.len(),
            forall|k: int| 0 <= k < i ==> #[trigger] s[k].0 < e0,
            i < s.len() ==> e0 < s[i].0,
            c != 0,
            -COEFF_MAX <= c <= COEFF_MAX,
            self.entries@ == s.insert(i, (e0, c)),
        ensures
            self.wf(),
            self@ == map_of(s).insert(e0, c as int),
    {
        let t = self.entries@;
        assert forall|k: int| 0 <= k < t.len() implies #[trigger] t[k] == (if k < i {
            s[k]
        } else if k == i {
            (e0, c)
        } else {
            s[k - 1]
        }) by {}
        assert(ascending(t)) by {
            assert forall|a: int, b: int| 0 <= a < b < t.len() implies t[a].0 < t[b].0 by {
                assert(t[a] == (if a < i {
                    s[a]
                } else if a == i {
                    (e0, c)
                } else {
                    s[a - 1]
                }));
                assert(t[b] == (if b < i {
                    s[b]
                } else if b == i {
                    (e0, c)
                } else {
                    s[b - 1]
                }));
                if a == i && b > i {
                    assert(s[i].0 <= s[b - 1].0);
                }
                if a < i && b > i {
                    assert(s[a].0 < e0);
                }
            }
        }
        assert forall|k: int| 0 < k < t.len() implies #[trigger] t[k].1 != 0 by {
            assert(t[k] == (if k < i {
                s[k]
            } else if k == i {
                (e0, c)
            } else {
                s[k - 1]
            }));
        }
        assert forall|k: int| 0 <= k < t.len() implies -COEFF_MAX <= #[trigger] t[k].1
            <= COEFF_MAX by {
            assert(t[k] == (if k < i {
                s[k]
            } else if k == i {
                (e0, c)
            } else {
                s[k - 1]
            }));
        }
        assert(t[0] == s[0]);
        assert(t[i] == (e0, c));
        lemma_index(t, i);
        let m = map_of(s).insert(e0, c as int);
        assert forall|e: u32| #[trigger] self@.contains_key(e) <==> m.contains_key(e) by {
            if self@.contains_key(e) && e != e0 {
                let k = choose|k: int| 0 <= k < t.len() && #[trigger] t[k].0 == e;
                let k2 = if k < i {
                    k
                } else {
                    k - 1
                };
                assert(t[k] == s[k2]);
                lemma_index(s, k2);
            }
            if m.contains_key(e) && e != e0 {
                let k = choose|k: int| 0 <= k < s.len() && #[trigger] s[k].0 == e;
                let k2 = if k < i {
                    k
                } else {
                    k + 1
                };
                assert(t[k2] == s[k]);
                assert(has_key(t, e));
            }
        }
        assert forall|e: u32| #[trigger] self@.contains_key(e) implies self@[e] == m[e] by {
            let k = choose|k: int| 0 <= k < t.len() && #[trigger] t[k].0 == e;
            lemma_index(t, k);
            if k != i {
                let k2 = if k < i {
                    k
                } else {
                    k - 1
                };
                assert(t[k] == s[k2]);
                lemma_index(s, k2);
            }
        }
        assert(self@ =~= m);
    }
}

} // verus!
