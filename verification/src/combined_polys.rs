//! Sums of products of evaluation tables: the object sum-check runs on.
//! A `ProductPoly` is a list of tables whose pointwise product is one term;
//! a `SumPoly` is the pointwise sum of its product terms.

use vstd::prelude::*;
use crate::field::{Fq, fadd, fmul};
use crate::error::Error;
use crate::mle::{table_view, fold_spec, is_pow2_len, num_vars};
use vstd::arithmetic::power2::pow2;

verus! {

/// The integer view of a list of tables.
pub open spec fn tables_view(polys: Seq<Vec<Fq>>) -> Seq<Seq<int>> {
    polys.map_values(|v: Vec<Fq>| table_view(v@))
}

/// One table partially evaluated at variable `v`, in its own variable count.
pub open spec fn fold_one(t: Seq<int>, v: int, r: int) -> Seq<int> {
    fold_spec(t, pow2((num_vars(t.len()) - 1 - v) as nat) as int, r)
}

/// Whether every non-constant table can be folded at variable `v`.
pub open spec fn ok_tables(l: Seq<Seq<int>>, v: int) -> bool {
    forall|k: int|
        0 <= k < l.len() && (#[trigger] l[k]).len() != 1 ==> is_pow2_len(l[k].len()) && v
            < num_vars(l[k].len())
}

/// Each non-constant table folded at variable `v`; tables already reduced
/// to a single value are dropped.
pub open spec fn fold_tables_spec(l: Seq<Seq<int>>, v: int, r: int) -> Seq<Seq<int>>
    decreases l.len(),
{
    if l.len() == 0 {
        Seq::empty()
    } else {
        fold_tables_spec(l.drop_last(), v, r) + (if l.last().len() == 1 {
            Seq::<Seq<int>>::empty()
        } else {
            seq![fold_one(l.last(), v, r)]
        })
    }
}

/// Entry `i` of the pointwise product of a list of tables, taken over the
/// tables long enough to reach it.
pub open spec fn pp_entry(l: Seq<Seq<int>>, i: int) -> int
    decreases l.len(),
{
    if l.len() == 0 {
        1
    } else {
        if 0 <= i < l.last().len() {
            fmul(pp_entry(l.drop_last(), i), l.last()[i])
        } else {
            pp_entry(l.drop_last(), i)
        }
    }
}

/// The length the pointwise product takes: the first table's, one for an
/// empty or degenerate list.
pub open spec fn pp_reduce_len(l: Seq<Seq<int>>) -> int {
    if l.len() == 0 {
        1
    } else if l[0].len() == 0 {
        1
    } else {
        l[0].len() as int
    }
}

/// The pointwise product of a list of tables.
pub open spec fn pp_reduce_spec(l: Seq<Seq<int>>) -> Seq<int> {
    Seq::new(pp_reduce_len(l) as nat, |i: int| pp_entry(l, i))
}

/// A copy of a table of field elements.
pub(crate) fn copy_table(v: &Vec<Fq>) -> (r: Vec<Fq>)
    ensures
        r@ == v@,
{
    let mut out: Vec<Fq> = Vec::new();
    let mut i: usize = 0;
    while i < v.len()
        invariant
            i <= v@.len(),
            out@ == v@.take(i as int),
        decreases v@.len() - i,
    {
        out.push(v[i]);
        proof {
            assert(v@.take(i as int + 1) =~= v@.take(i as int).push(v@[i as int]));
        }
        i += 1;
    }
    proof {
        assert(v@.take(v@.len() as int) =~= v@);
    }
    out
}

/// One term of the sum: a list of evaluation tables multiplied pointwise.
#[derive(Debug, Clone)]
pub struct ProductPoly {
    pub polys: Vec<Vec<Fq>>,
}

impl ProductPoly {
    /// The integer view of this term's tables.
    pub open spec fn view_tables(self) -> Seq<Seq<int>> {
        tables_view(self.polys@)
    }

    pub fn new(polys: Vec<Vec<Fq>>) -> (r: Self)
        ensures
            r.polys@ == polys@,
    {
        ProductPoly { polys }
    }

    /// The number of factors, the degree bound this term contributes to a
    /// round polynomial.
    pub fn degree(&self) -> (r: usize)
        ensures
            r == self.polys@.len(),
    {
        self.polys.len()
    }

    /// Partially evaluate every factor at variable `var_index`; factors
    /// already reduced to one value are dropped.
    pub fn partial_evaluate(&self, var_index: usize, var_eval_at: Fq) -> (r: Result<
        ProductPoly,
        Error,
    >)
        ensures
            r is Ok <==> ok_tables(self.view_tables(), var_index as int),
            r matches Ok(out) ==> out.view_tables() == fold_tables_spec(
                self.view_tables(),
                var_index as int,
                var_eval_at.as_int(),
            ),
    {
        let mut new_polys: Vec<Vec<Fq>> = Vec::new();
        let mut i: usize = 0;
        while i < self.polys.len()
            invariant
                i <= self.polys@.len(),
                forall|k: int|
                    0 <= k < i && (#[trigger] self.view_tables()[k]).len() != 1 ==> is_pow2_len(
                        self.view_tables()[k].len(),
                    ) && (var_index as int) < num_vars(self.view_tables()[k].len()),
                tables_view(new_polys@) == fold_tables_spec(
                    self.view_tables().take(i as int),
                    var_index as int,
                    var_eval_at.as_int(),
                ),
            decreases self.polys@.len() - i,
        {
            let table = &self.polys[i];
            if table.len() != 1 {
                let copied = copy_table(table);
                let folded = match crate::mle::interpolate_then_evaluate_at_once(
                    copied,
                    var_index,
                    var_eval_at,
                ) {
                    Ok(f) => f,
                    Err(e) => {
                        proof {
                            let tv = self.view_tables();
                            if ok_tables(tv, var_index as int) {
                                assert(tv[i as int].len() != 1);
                                assert(is_pow2_len(tv[i as int].len()) && (var_index as int)
                                    < num_vars(tv[i as int].len()));
                                assert(false);
                            }
                        }
                        return Err(e);
                    },
                };
                new_polys.push(folded);
            }
            proof {
                let tv = self.view_tables();
                assert(tv.take(i as int + 1).drop_last() =~= tv.take(i as int));
                assert(tv.take(i as int + 1).last() == tv[i as int]);
                if tv[i as int].len() != 1 {
                    assert(table_view(new_polys@.last()@) == fold_one(
                        tv[i as int],
                        var_index as int,
                        var_eval_at.as_int(),
                    ));
                }
                assert(tables_view(new_polys@) =~= fold_tables_spec(
                    tv.take(i as int + 1),
                    var_index as int,
                    var_eval_at.as_int(),
                ));
            }
            i += 1;
        }
        proof {
            assert(self.view_tables().take(self.view_tables().len() as int)
                =~= self.view_tables());
        }
        Ok(ProductPoly { polys: new_polys })
    }

    /// The pointwise product of the factors, each entry the product of the
    /// factors long enough to reach it.
    pub fn reduce(&self) -> (r: Vec<Fq>)
        ensures
            table_view(r@) == pp_reduce_spec(self.view_tables()),
    {
        if self.polys.len() == 0 {
            let out = vec![Fq::one()];
            proof {
                assert(table_view(out@) =~= pp_reduce_spec(self.view_tables()));
            }
            return out;
        }
        let arr_len = if self.polys[0].len() == 0 {
            1
        } else {
            self.polys[0].len()
        };
        let mut out: Vec<Fq> = Vec::new();
        let mut i: usize = 0;
        while i < arr_len
            invariant
                i <= arr_len,
                arr_len == pp_reduce_len(self.view_tables()),
                out@.len() == i,
                forall|m: int|
                    0 <= m < i ==> #[trigger] out@[m].as_int() == pp_entry(self.view_tables(), m),
            decreases arr_len - i,
        {
            let mut acc = Fq::one();
            let mut k: usize = 0;
            while k < self.polys.len()
                invariant
                    k <= self.polys@.len(),
                    i < arr_len,
                    acc.as_int() == pp_entry(self.view_tables().take(k as int), i as int),
                decreases self.polys@.len() - k,
            {
                let table = &self.polys[k];
                if i < table.len() {
                    acc = acc.mul(table[i]);
                }
                proof {
                    let tv = self.view_tables();
                    assert(tv.take(k as int + 1).drop_last() =~= tv.take(k as int));
                    assert(tv.take(k as int + 1).last() == tv[k as int]);
                }
                k += 1;
            }
            proof {
                assert(self.view_tables().take(self.view_tables().len() as int)
                    =~= self.view_tables());
            }
            out.push(acc);
            i += 1;
        }
        proof {
            assert(table_view(out@) =~= pp_reduce_spec(self.view_tables()));
        }
        out
    }
}

/// The integer view of a sum of product terms.
pub open spec fn sp_view(polys: Seq<ProductPoly>) -> Seq<Seq<Seq<int>>> {
    polys.map_values(|p: ProductPoly| p.view_tables())
}

/// Whether every term's tables can be folded at variable `v`.
pub open spec fn sp_ok_tables(l: Seq<Seq<Seq<int>>>, v: int) -> bool {
    forall|k: int| 0 <= k < l.len() ==> ok_tables(#[trigger] l[k], v)
}

/// Every term partially evaluated at variable `v`.
pub open spec fn sp_fold_spec(l: Seq<Seq<Seq<int>>>, v: int, r: int) -> Seq<Seq<Seq<int>>> {
    l.map_values(|pp: Seq<Seq<int>>| fold_tables_spec(pp, v, r))
}

/// Entry `i` of the pointwise sum of the reduced terms, taken over the
/// terms long enough to reach it.
pub open spec fn sp_entry(l: Seq<Seq<Seq<int>>>, i: int) -> int
    decreases l.len(),
{
    if l.len() == 0 {
        0
    } else {
        if 0 <= i < pp_reduce_spec(l.last()).len() {
            fadd(sp_entry(l.drop_last(), i), pp_reduce_spec(l.last())[i])
        } else {
            sp_entry(l.drop_last(), i)
        }
    }
}

/// The length the summed reduction takes: the first term's first table's,
/// one for a degenerate shape.
pub open spec fn sp_reduce_len(l: Seq<Seq<Seq<int>>>) -> int {
    if l.len() == 0 {
        1
    } else if l[0].len() == 0 {
        1
    } else if l[0][0].len() == 0 {
        1
    } else {
        l[0][0].len() as int
    }
}

/// The pointwise sum, across the terms, of the pointwise products.
pub open spec fn sp_reduce_spec(l: Seq<Seq<Seq<int>>>) -> Seq<int> {
    if l.len() == 0 {
        seq![0int]
    } else {
        Seq::new(sp_reduce_len(l) as nat, |i: int| sp_entry(l, i))
    }
}

/// A sum of products of evaluation tables.
#[derive(Debug, Clone)]
pub struct SumPoly {
    pub product_polys: Vec<ProductPoly>,
}

impl SumPoly {
    /// The integer view of the terms.
    pub open spec fn view_terms(self) -> Seq<Seq<Seq<int>>> {
        sp_view(self.product_polys@)
    }

    pub fn new(product_polys: Vec<ProductPoly>) -> (r: Self)
        ensures
            r.product_polys@ == product_polys@,
    {
        SumPoly { product_polys }
    }

    /// The degree bound of a round polynomial: the number of factor tables
    /// in each product term, read off the first term.
    pub fn degree(&self) -> (r: usize)
        ensures
            r == (if self.product_polys@.len() == 0 {
                0int
            } else {
                self.view_terms()[0].len() as int
            }),
    {
        if self.product_polys.len() == 0 {
            0
        } else {
            self.product_polys[0].polys.len()
        }
    }

    /// Partially evaluate every term at variable `var_index`.
    pub fn partial_evaluate(&self, var_index: usize, var_eval_at: Fq) -> (r: Result<SumPoly, Error>)
        ensures
            r is Ok <==> sp_ok_tables(self.view_terms(), var_index as int),
            r matches Ok(out) ==> out.view_terms() == sp_fold_spec(
                self.view_terms(),
                var_index as int,
                var_eval_at.as_int(),
            ),
    {
        let mut new_terms: Vec<ProductPoly> = Vec::new();
        let mut i: usize = 0;
        while i < self.product_polys.len()
            invariant
                i <= self.product_polys@.len(),
                forall|k: int| 0 <= k < i ==> ok_tables(#[trigger] self.view_terms()[k], var_index as int),
                sp_view(new_terms@) == sp_fold_spec(
                    self.view_terms().take(i as int),
                    var_index as int,
                    var_eval_at.as_int(),
                ),
            decreases self.product_polys@.len() - i,
        {
            let folded = match self.product_polys[i].partial_evaluate(var_index, var_eval_at) {
                Ok(f) => f,
                Err(e) => {
                    proof {
                        let tv = self.view_terms();
                        if sp_ok_tables(tv, var_index as int) {
                            assert(ok_tables(tv[i as int], var_index as int));
                            assert(false);
                        }
                    }
                    return Err(e);
                },
            };
            let ghost prev = new_terms@;
            new_terms.push(folded);
            proof {
                let tv = self.view_terms();
                let v = var_index as int;
                let r0 = var_eval_at.as_int();
                let target = sp_fold_spec(tv.take(i as int + 1), v, r0);
                assert(new_terms@ == prev.push(folded));
                assert(sp_view(prev).len() == prev.len());
                assert(sp_fold_spec(tv.take(i as int), v, r0).len() == i as int);
                assert(prev.len() == i as int);
                assert(new_terms@.len() == i + 1);
                assert(sp_view(new_terms@).len() == i + 1);
                assert(target.len() == i + 1);
                assert forall|k: int| 0 <= k < i + 1 implies sp_view(new_terms@)[k] == target[k] by {
                    assert(tv.take(i as int + 1)[k] == tv[k]);
                    assert(target[k] == fold_tables_spec(tv[k], v, r0));
                    assert(sp_view(new_terms@)[k] == new_terms@[k].view_tables());
                    if k < i {
                        assert(new_terms@[k] == prev[k]);
                        assert(sp_view(prev)[k] == sp_fold_spec(tv.take(i as int), v, r0)[k]);
                        assert(sp_fold_spec(tv.take(i as int), v, r0)[k] == fold_tables_spec(
                            tv.take(i as int)[k],
                            v,
                            r0,
                        ));
                        assert(tv.take(i as int)[k] == tv[k]);
                    } else {
                        assert(new_terms@[k] == folded);
                    }
                }
                assert(sp_view(new_terms@) =~= target);
            }
            i += 1;
        }
        proof {
            assert(self.view_terms().take(self.view_terms().len() as int) =~= self.view_terms());
        }
        Ok(SumPoly { product_polys: new_terms })
    }

    /// The pointwise sum of the reduced terms, entry by entry.
    pub fn reduce(&self) -> (r: Vec<Fq>)
        ensures
            table_view(r@) == sp_reduce_spec(self.view_terms()),
    {
        if self.product_polys.len() == 0 {
            let out = vec![Fq::zero()];
            proof {
                assert(table_view(out@) =~= sp_reduce_spec(self.view_terms()));
            }
            return out;
        }
        let first = &self.product_polys[0];
        let arr_len = if first.polys.len() == 0 {
            1
        } else if first.polys[0].len() == 0 {
            1
        } else {
            first.polys[0].len()
        };
        let mut out: Vec<Fq> = Vec::new();
        let mut i: usize = 0;
        while i < arr_len
            invariant
                i <= arr_len,
                self.product_polys@.len() > 0,
                arr_len == sp_reduce_len(self.view_terms()),
                out@.len() == i,
                forall|m: int| 0 <= m < i ==> #[trigger] out@[m].as_int() == 0,
            decreases arr_len - i,
        {
            out.push(Fq::zero());
            i += 1;
        }
        let mut summed = out;
        let mut k: usize = 0;
        proof {
            assert(self.view_terms().take(0) =~= Seq::<Seq<Seq<int>>>::empty());
        }
        while k < self.product_polys.len()
            invariant
                k <= self.product_polys@.len(),
                summed@.len() == arr_len,
                arr_len == sp_reduce_len(self.view_terms()),
                self.product_polys@.len() > 0,
                forall|m: int|
                    0 <= m < arr_len ==> #[trigger] summed@[m].as_int() == sp_entry(
                        self.view_terms().take(k as int),
                        m,
                    ),
            decreases self.product_polys@.len() - k,
        {
            let reduced = self.product_polys[k].reduce();
            let mut next: Vec<Fq> = Vec::new();
            let mut m: usize = 0;
            while m < summed.len()
                invariant
                    m <= summed@.len(),
                    next@.len() == m,
                    table_view(reduced@) == pp_reduce_spec(self.view_terms()[k as int]),
                    k < self.product_polys@.len(),
                    forall|t: int|
                        0 <= t < m ==> #[trigger] next@[t].as_int() == (if 0 <= t < reduced@.len() {
                            fadd(summed@[t].as_int(), table_view(reduced@)[t])
                        } else {
                            summed@[t].as_int()
                        }),
                decreases summed@.len() - m,
            {
                if m < reduced.len() {
                    next.push(summed[m].add(reduced[m]));
                } else {
                    next.push(summed[m]);
                }
                m += 1;
            }
            proof {
                let tv = self.view_terms();
                assert(tv.take(k as int + 1).drop_last() =~= tv.take(k as int));
                assert(tv.take(k as int + 1).last() == tv[k as int]);
                assert forall|t: int| 0 <= t < arr_len implies next@[t].as_int() == sp_entry(
                    tv.take(k as int + 1),
                    t,
                ) by {
                    assert(next@[t].as_int() == (if 0 <= t < reduced@.len() {
                        fadd(summed@[t].as_int(), table_view(reduced@)[t])
                    } else {
                        summed@[t].as_int()
                    }));
                }
            }
            summed = next;
            k += 1;
        }
        proof {
            assert(self.view_terms().take(self.view_terms().len() as int) =~= self.view_terms());
            assert(table_view(summed@) =~= sp_reduce_spec(self.view_terms()));
        }
        summed
    }
}

/// Folding a sum of products at variable 0, once per coordinate.
pub open spec fn sp_fold_chain(l: Seq<Seq<Seq<int>>>, pts: Seq<int>) -> Seq<Seq<Seq<int>>>
    decreases pts.len(),
{
    if pts.len() == 0 {
        l
    } else {
        sp_fold_chain(sp_fold_spec(l, 0, pts[0]), pts.drop_first())
    }
}


/// Appending one more coordinate folds the chained result once more.
pub proof fn lemma_sp_fold_chain_snoc(l: Seq<Seq<Seq<int>>>, pts: Seq<int>, r: int)
    ensures
        sp_fold_chain(l, pts.push(r)) == sp_fold_spec(sp_fold_chain(l, pts), 0, r),
    decreases pts.len(),
{
    if pts.len() == 0 {
        assert(pts.push(r).drop_first() =~= Seq::<int>::empty());
        assert(pts.push(r)[0] == r);
        assert(sp_fold_chain(l, pts.push(r)) == sp_fold_chain(
            sp_fold_spec(l, 0, r),
            pts.push(r).drop_first(),
        ));
        assert(sp_fold_chain(sp_fold_spec(l, 0, r), Seq::<int>::empty()) == sp_fold_spec(
            l,
            0,
            r,
        ));
        assert(sp_fold_chain(l, pts) == l);
    } else {
        assert(pts.push(r).drop_first() =~= pts.drop_first().push(r));
        assert(pts.push(r)[0] == pts[0]);
        assert(sp_fold_chain(l, pts.push(r)) == sp_fold_chain(
            sp_fold_spec(l, 0, pts[0]),
            pts.drop_first().push(r),
        ));
        lemma_sp_fold_chain_snoc(sp_fold_spec(l, 0, pts[0]), pts.drop_first(), r);
        assert(sp_fold_chain(l, pts) == sp_fold_chain(
            sp_fold_spec(l, 0, pts[0]),
            pts.drop_first(),
        ));
    }
}


} // verus!
