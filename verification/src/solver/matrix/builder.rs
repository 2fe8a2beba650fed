use vstd::prelude::*;

use crate::solver::matrix::csc::CscMatrix;
use crate::solver::label_sort::label_pos;
use crate::solver::label_sort::label_start;
use crate::solver::label_sort::lemma_pos_range;
use crate::solver::matrix::csc::lemma_column_of;
use crate::solver::matrix::csc::lemma_pattern_unique;
use crate::solver::matrix::csc::pattern_has;
use crate::solver::matrix::csc::pattern_wf;
use crate::solver::matrix::csr::CsrMatrix;
use crate::solver::matrix::error::{CscError, CsrError};
use crate::solver::matrix::sort::{compress, compressed, ids_are_positions_of, in_bounds, is_rearrangement, sort_by_key, stored_by, Triple};
use crate::solver::matrix::transpose::csr_entries_placed;
use crate::solver::matrix::Dim;

verus! {

/// One pushed coordinate entry.
#[derive(Debug, Clone, Copy)]
pub struct CooEntry<V> {
    pub entry: usize,
    pub final_index: usize,
    pub column: usize,
    pub row: usize,
    pub value: V,
}

/// For every pushed entry (by the number `push` returned), its position in the
/// compressed matrix.
pub struct EntryMapping(Vec<usize>);

impl View for EntryMapping {
    type V = Seq<usize>;

    closed spec fn view(&self) -> Seq<usize> {
        self.0@
    }
}

impl EntryMapping {
    /// Position in the compressed matrix of the entry numbered `index`.
    pub fn get(&self, index: usize) -> (r: usize)
        requires
            index < self@.len(),
        ensures
            r == self@[index as int],
    {
        self.0[index]
    }
}

/// Builder from triplets (COO → canonical CSC).
#[derive(Debug)]
pub struct MatrixBuilder<V> {
    dim: Dim,
    /// COO entries in insertion order.
    entries: Vec<CooEntry<V>>,
}

/// Values of the entries mapped to position `k`, in insertion order, among the first `upto`.
pub open spec fn group_values<V>(values: Seq<V>, mapping: Seq<usize>, k: int, upto: int) -> Seq<V>
    decreases upto,
{
    if upto <= 0 {
        Seq::empty()
    } else if mapping[upto - 1] == k {
        group_values(values, mapping, k, upto - 1).push(values[upto - 1])
    } else {
        group_values(values, mapping, k, upto - 1)
    }
}

/// `w` lists the running results of combining the values `s` from left to right with `f`.
pub open spec fn fold_chain<V, F: Fn(V, V) -> V>(f: F, s: Seq<V>, w: Seq<V>) -> bool {
    &&& s.len() > 0
    &&& w.len() == s.len()
    &&& w[0] == s[0]
    &&& forall|i: int| 1 <= i < s.len() ==> call_ensures(f, (w[i - 1], s[i]), #[trigger] w[i])
}

/// `r` is a possible result of combining the values `s` from left to right with `f`.
pub open spec fn folded<V, F: Fn(V, V) -> V>(f: F, s: Seq<V>, r: V) -> bool {
    exists|w: Seq<V>| #[trigger] fold_chain(f, s, w) && w.last() == r
}

impl<V> MatrixBuilder<V> {
    /// The pushed entries as (column, row, value), in insertion order.
    pub closed spec fn entries_view(&self) -> Seq<(usize, usize, V)> {
        Seq::new(
            self.entries@.len(),
            |i: int| (self.entries@[i].column, self.entries@[i].row, self.entries@[i].value),
        )
    }

    pub closed spec fn spec_dim(&self) -> Dim {
        self.dim
    }

    pub closed spec fn wf(&self) -> bool {
        forall|i: int|
            0 <= i < self.entries@.len() ==> (#[trigger] self.entries@[i]).entry == i
                && self.entries@[i].column < self.dim.ncols && self.entries@[i].row < self.dim.nrows
    }

    pub fn new(nrows: usize, ncols: usize) -> (b: Self)
        ensures
            b.wf(),
            b.spec_dim() == (Dim { nrows, ncols }),
            b.entries_view() == Seq::<(usize, usize, V)>::empty(),
    {
        let b = Self { dim: Dim { nrows, ncols }, entries: Vec::new() };
        assert(b.entries_view() =~= Seq::<(usize, usize, V)>::empty());
        b
    }

    pub fn reserve(&mut self, nnz: usize)
        requires
            old(self).wf(),
        ensures
            final(self).wf(),
            final(self).spec_dim() == old(self).spec_dim(),
            final(self).entries_view() == old(self).entries_view(),
    {
        self.entries.reserve(nnz);
    }

    /// push a COO (column, row, value) tuple; returns the number of the entry.
    pub fn push(&mut self, column: usize, row: usize, value: V) -> (r: Result<usize, CscError>)
        requires
            old(self).wf(),
        ensures
            final(self).wf(),
            final(self).spec_dim() == old(self).spec_dim(),
            column >= old(self).spec_dim().ncols ==> r == Err::<usize, CscError>(
                CscError::OutOfBoundsIndex { index: column, max: old(self).spec_dim().ncols },
            ),
            column < old(self).spec_dim().ncols && row >= old(self).spec_dim().nrows ==> r == Err::<
                usize,
                CscError,
            >(CscError::OutOfBoundsIndex { index: row, max: old(self).spec_dim().nrows }),
            r is Err ==> final(self).entries_view() == old(self).entries_view(),
            column < old(self).spec_dim().ncols && row < old(self).spec_dim().nrows ==> r == Ok::<
                usize,
                CscError,
            >(old(self).entries_view().len() as usize) && final(self).entries_view() == old(
                self,
            ).entries_view().push((column, row, value)),
    {
        if column >= self.dim.ncols {
            return Err(CscError::OutOfBoundsIndex { index: column, max: self.dim.ncols });
        }
        if row >= self.dim.nrows {
            return Err(CscError::OutOfBoundsIndex { index: row, max: self.dim.nrows });
        }
        let entry_index = self.entries.len();
        let entry = CooEntry {
            entry: entry_index,
            final_index: 0,  // will be set later
            column,
            row,
            value,
        };
        self.entries.push(entry);
        assert(self.entries_view() =~= old(self).entries_view().push((column, row, value)));
        Ok(entry_index)
    }

    /// Sorted and compressed coordinates: (major, minor) are (column, row) when
    /// `by_column`, else (row, column).
    fn compress_entries(&self, by_column: bool) -> (r: (Vec<usize>, Vec<usize>, Vec<usize>))
        requires
            self.wf(),
            by_column ==> self.dim.ncols < usize::MAX,
            !by_column ==> self.dim.nrows < usize::MAX,
        ensures
            compressed(
                self.keys(by_column),
                if by_column { self.dim.ncols as int } else { self.dim.nrows as int },
                if by_column { self.dim.nrows as int } else { self.dim.ncols as int },
                r.0@,
                r.1@,
                r.2@,
            ),
    {
        let m = self.entries.len();
        let mut v: Vec<Triple> = Vec::with_capacity(m);
        let mut i: usize = 0;
        while i < m
            invariant
                i <= m,
                m == self.entries@.len(),
                v@ == self.keys(by_column).subrange(0, i as int),
            decreases m - i,
        {
            let e = &self.entries[i];
            if by_column {
                v.push((e.column, e.row, i));
            } else {
                v.push((e.row, e.column, i));
            }
            assert(v@ =~= self.keys(by_column).subrange(0, i + 1));
            i = i + 1;
        }
        let ghost keys = v@;
        assert(keys =~= self.keys(by_column));
        let maps = sort_by_key(&mut v);
        let (nmajor, nminor) = if by_column {
            (self.dim.ncols, self.dim.nrows)
        } else {
            (self.dim.nrows, self.dim.ncols)
        };
        proof {
            let pos = maps@.0;
            let inv = maps@.1;
            assert forall|t: int| 0 <= t < v@.len() implies #[trigger] v@[t].2 < v@.len() && pos[v@[t].2 as int] == t by {
                assert(keys[inv[t]] == v@[t]);
            }
            assert forall|e: int| 0 <= e < v@.len() implies 0 <= #[trigger] pos[e] < v@.len() && v@[pos[e]].2 == e by {
                assert(v@[pos[e]] == keys[e]);
            }
            assert forall|t: int| 0 <= t < v@.len() implies #[trigger] v@[t].0 < nmajor && v@[t].1 < nminor by {
                assert(keys[inv[t]] == v@[t]);
            }
        }
        let r = compress(&v, nmajor, nminor, Ghost(maps@.0));
        proof {
            lemma_compressed_rearranged(keys, v@, maps@.0, maps@.1, nmajor as int, nminor as int, r.0@, r.1@, r.2@);
        }
        r
    }

    /// The values of the entries, in insertion order.
    pub open spec fn entry_values(&self) -> Seq<V> {
        self.entries_view().map_values(|t: (usize, usize, V)| t.2)
    }

    /// Compresses the pattern: sorts the entries by (column, row), merges
    /// duplicates, and reports where each pushed entry ended up. Every stored
    /// value is `V::default()`.
    pub fn build_csc_pattern(self) -> (r: Result<(CscMatrix<V>, EntryMapping), CscError>)
        where
            V: Default,
        requires
            self.wf(),
            self.spec_dim().ncols < usize::MAX,
        ensures
            r is Ok,
            r matches Ok((a, m)) ==> {
                &&& a.dim == self.spec_dim()
                &&& a.wf()
                &&& pattern_of_entries(
                    a.column_pointers@,
                    a.row_indices@,
                    self.entries_view(),
                    m@,
                    true,
                )
                &&& a.values@.len() == a.row_indices@.len()
                &&& forall|i: int| 0 <= i < a.values@.len() ==> call_ensures(V::default, (), #[trigger] a.values@[i])
            },
    {
        let (column_pointers, row_indices, mapping) = self.compress_entries(true);
        proof {
            self.lemma_keys_pattern(true, column_pointers@, row_indices@, mapping@);
        }
        let values = default_values(row_indices.len());
        let ghost ev = self.entries_view();
        let a = CscMatrix { dim: self.dim, column_pointers, row_indices, values };
        let em = EntryMapping(mapping);
        assert(a.wf());
        assert(pattern_of_entries(a.column_pointers@, a.row_indices@, ev, em@, true));
        Ok((a, em))
    }

    /// Builds the canonical CSC form: entries sorted by (column, row), and the
    /// values of entries at the same coordinate combined with `combine`, in the
    /// order they were pushed (for numbers, `|a, b| a + b` sums duplicates).
    /// Explicit zeros are kept.
    pub fn build_csc<F: Fn(V, V) -> V>(self, combine: F) -> (r: Result<CscMatrix<V>, CscError>)
        where
            V: Copy,
        requires
            self.wf(),
            self.spec_dim().ncols < usize::MAX,
            forall|a: V, b: V| call_requires(combine, (a, b)),
        ensures
            r is Ok,
            r matches Ok(a) ==> {
                &&& a.dim == self.spec_dim()
                &&& a.wf()
                &&& exists|m: Seq<usize>|
                    {
                        &&& #[trigger] pattern_of_entries(
                            a.column_pointers@,
                            a.row_indices@,
                            self.entries_view(),
                            m,
                            true,
                        )
                        &&& forall|k: int|
                            0 <= k < a.row_indices@.len() ==> folded(
                                combine,
                                group_values(self.entry_values(), m, k, m.len() as int),
                                #[trigger] a.values@[k],
                            )
                    }
            },
    {
        let (column_pointers, row_indices, mapping) = self.compress_entries(true);
        proof {
            self.lemma_keys_pattern(true, column_pointers@, row_indices@, mapping@);
        }
        let values = self.combine_values(&mapping, row_indices.len(), combine);
        let ghost ev = self.entries_view();
        let a = CscMatrix { dim: self.dim, column_pointers, row_indices, values };
        assert(a.wf());
        assert(pattern_of_entries(a.column_pointers@, a.row_indices@, ev, mapping@, true));
        Ok(a)
    }

    /// Builds the canonical CSR form: entries sorted by (row, column), and the
    /// values of entries at the same coordinate combined with `combine`, in the
    /// order they were pushed. Explicit zeros are kept.
    pub fn build_csr<F: Fn(V, V) -> V>(self, combine: F) -> (r: Result<CsrMatrix<V>, CsrError>)
        where
            V: Copy,
        requires
            self.wf(),
            self.spec_dim().nrows < usize::MAX,
            forall|a: V, b: V| call_requires(combine, (a, b)),
        ensures
            r is Ok,
            r matches Ok(a) ==> {
                &&& a.dim == self.spec_dim()
                &&& a.wf()
                &&& exists|m: Seq<usize>|
                    {
                        &&& #[trigger] pattern_of_entries(
                            a.row_pointers@,
                            a.column_indices@,
                            self.entries_view(),
                            m,
                            false,
                        )
                        &&& forall|k: int|
                            0 <= k < a.column_indices@.len() ==> folded(
                                combine,
                                group_values(self.entry_values(), m, k, m.len() as int),
                                #[trigger] a.values@[k],
                            )
                    }
            },
    {
        let (row_pointers, column_indices, mapping) = self.compress_entries(false);
        proof {
            self.lemma_keys_pattern(false, row_pointers@, column_indices@, mapping@);
        }
        let values = self.combine_values(&mapping, column_indices.len(), combine);
        let ghost ev = self.entries_view();
        let a = CsrMatrix { dim: self.dim, row_pointers, column_indices, values };
        assert(a.wf());
        assert(pattern_of_entries(a.row_pointers@, a.column_indices@, ev, mapping@, false));
        Ok(a)
    }

    /// Combines the values of the entries that share a position, in insertion order.
    fn combine_values<F: Fn(V, V) -> V>(&self, mapping: &Vec<usize>, nnz: usize, combine: F) -> (r: Vec<V>)
        where
            V: Copy,
        requires
            self.wf(),
            mapping@.len() == self.entries@.len(),
            forall|e: int| 0 <= e < mapping@.len() ==> #[trigger] mapping@[e] < nnz,
            forall|k: int| 0 <= k < nnz ==> #[trigger] group_values(self.entry_values(), mapping@, k, mapping@.len() as int).len() > 0,
            forall|a: V, b: V| call_requires(combine, (a, b)),
        ensures
            r@.len() == nnz,
            forall|k: int| 0 <= k < nnz ==> folded(combine, group_values(self.entry_values(), mapping@, k, mapping@.len() as int), #[trigger] r@[k]),
    {
        let m = self.entries.len();
        let ghost vals = self.entry_values();
        let mut out: Vec<V> = Vec::with_capacity(nnz);
        let mut seen: Vec<bool> = Vec::with_capacity(nnz);
        if m == 0 {
            proof {
                if nnz > 0 {
                    assert(group_values(vals, mapping@, 0, 0).len() > 0);
                }
                assert forall|k: int| 0 <= k < nnz implies folded(combine, group_values(vals, mapping@, k, 0), #[trigger] out@[k]) by {
                    assert(group_values(vals, mapping@, k, 0).len() > 0);
                }
            }
            return out;
        }
        let filler = self.entries[0].value;
        let mut k: usize = 0;
        while k < nnz
            invariant
                k <= nnz,
                out@.len() == k,
                seen@.len() == k,
                forall|t: int| 0 <= t < k ==> !#[trigger] seen@[t],
            decreases nnz - k,
        {
            out.push(filler);
            seen.push(false);
            k = k + 1;
        }
        let mut e: usize = 0;
        while e < m
            invariant
                e <= m,
                m == self.entries@.len(),
                self.wf(),
                vals == self.entry_values(),
                mapping@.len() == m,
                forall|t: int| 0 <= t < mapping@.len() ==> #[trigger] mapping@[t] < nnz,
                forall|a: V, b: V| call_requires(combine, (a, b)),
                out@.len() == nnz,
                seen@.len() == nnz,
                forall|t: int| 0 <= t < nnz ==> (#[trigger] seen@[t] <==> group_values(vals, mapping@, t, e as int).len() > 0),
                forall|t: int| 0 <= t < nnz && #[trigger] seen@[t] ==> folded(combine, group_values(vals, mapping@, t, e as int), out@[t]),
            decreases m - e,
        {
            let k = mapping[e];
            let v = self.entries[e].value;
            let ghost g = group_values(vals, mapping@, k as int, e as int);
            proof {
                assert(vals[e as int] == v);
                assert(group_values(vals, mapping@, k as int, e + 1) == g.push(v));
                assert(g.push(v).drop_last() =~= g);
            }
            if seen[k] {
                let acc = out[k];
                let next = combine(acc, v);
                out.set(k, next);
                proof {
                    lemma_folded_step(combine, g, acc, v, next);
                }
            } else {
                out.set(k, v);
                seen.set(k, true);
                proof {
                    assert(g.len() == 0);
                    assert(g.push(v) =~= seq![v]);
                    lemma_folded_single(combine, v);
                }
            }
            proof {
                assert forall|t: int| 0 <= t < nnz && t != k implies group_values(vals, mapping@, t, e + 1) == #[trigger] group_values(vals, mapping@, t, e as int) by {}
            }
            e = e + 1;
        }
        proof {
            assert forall|t: int| 0 <= t < nnz implies folded(combine, group_values(vals, mapping@, t, m as int), #[trigger] out@[t]) by {
                assert(seen@[t]);
            }
        }
        out
    }

    /// Proves that the positions found by compressing the keys describe the entries.
    proof fn lemma_keys_pattern(&self, by_column: bool, cp: Seq<usize>, ri: Seq<usize>, mapping: Seq<usize>)
        requires
            self.wf(),
            compressed(
                self.keys(by_column),
                if by_column { self.dim.ncols as int } else { self.dim.nrows as int },
                if by_column { self.dim.nrows as int } else { self.dim.ncols as int },
                cp,
                ri,
                mapping,
            ),
        ensures
            pattern_of_entries(cp, ri, self.entries_view(), mapping, by_column),
            forall|k: int| 0 <= k < ri.len() ==> #[trigger] group_values(self.entry_values(), mapping, k, mapping.len() as int).len() > 0,
            forall|e: int| 0 <= e < mapping.len() ==> #[trigger] mapping[e] < ri.len(),
    {
        let keys = self.keys(by_column);
        let ev = self.entries_view();
        assert forall|e: int| 0 <= e < ev.len() implies {
            let p = #[trigger] mapping[e] as int;
            let (maj, min) = if by_column { (ev[e].0, ev[e].1) } else { (ev[e].1, ev[e].0) };
            &&& p < ri.len()
            &&& ri[p] == min
            &&& cp[maj as int] <= p < cp[maj + 1]
        } by {
            assert(keys[e].2 == e);
            assert(mapping[keys[e].2 as int] == mapping[e]);
        }
        assert forall|p: int| 0 <= p < ri.len() implies #[trigger] entry_at(mapping, p) by {
            assert(stored_by(keys, mapping, p));
            let t = choose|t: int| 0 <= t < keys.len() && #[trigger] mapping[keys[t].2 as int] == p;
            assert(keys[t].2 == t);
        }
        assert forall|k: int| 0 <= k < ri.len() implies #[trigger] group_values(self.entry_values(), mapping, k, mapping.len() as int).len() > 0 by {
            assert(entry_at(mapping, k));
            let e = choose|e: int| 0 <= e < mapping.len() && #[trigger] mapping[e] == k;
            lemma_group_nonempty(self.entry_values(), mapping, k, e, mapping.len() as int);
        }
    }

    /// Every pushed entry lies inside the matrix.
    pub proof fn lemma_entries_in(&self)
        requires
            self.wf(),
        ensures
            entries_in(self.entries_view(), self.spec_dim().ncols as int, self.spec_dim().nrows as int),
    {
        assert forall|e: int| 0 <= e < self.entries_view().len() implies #[trigger] self.entries_view()[e].0 < self.spec_dim().ncols
            && self.entries_view()[e].1 < self.spec_dim().nrows by {
            assert(self.entries@[e].entry == e);
        }
    }

    /// The mapping of `build_csc_pattern`: pushed entry `e` is stored at a
    /// position of its column holding its row, and two pushed entries share a
    /// position exactly when they have the same coordinates.
    pub proof fn lemma_mapping_slots(&self, a: CscMatrix<V>, m: Seq<usize>, e: int, f: int)
        requires
            self.wf(),
            a.dim == self.spec_dim(),
            a.wf(),
            pattern_of_entries(a.column_pointers@, a.row_indices@, self.entries_view(), m, true),
            0 <= e < self.entries_view().len(),
            0 <= f < self.entries_view().len(),
        ensures
            ({
                let (c, r, _v) = self.entries_view()[e];
                &&& a.column_pointers@[c as int] <= m[e] < a.column_pointers@[c + 1]
                &&& a.row_indices@[m[e] as int] == r
            }),
            (self.entries_view()[e].0 == self.entries_view()[f].0 && self.entries_view()[e].1 == self.entries_view()[f].1)
                <==> m[e] == m[f],
    {
        self.lemma_entries_in();
        let ev = self.entries_view();
        assert(ev[e].0 < a.dim.ncols && ev[f].0 < a.dim.ncols);
        assert(m[e] == m[e]);
        lemma_entry_slots(a.column_pointers@, a.row_indices@, ev, m, a.dim.ncols as int, a.dim.nrows as int, e, f);
    }

    /// Builders that received the same entries give `build_csc_pattern` and
    /// `build_csc` the same pattern: the same column pointers and row indices.
    #[verifier::spinoff_prover]
    #[verifier::rlimit(100)]
    pub proof fn lemma_pattern_matches_csc(
        b1: &Self,
        b2: &Self,
        a: CscMatrix<V>,
        m: Seq<usize>,
        c: CscMatrix<V>,
    )
        requires
            b1.wf(),
            b2.wf(),
            b1.spec_dim() == b2.spec_dim(),
            b1.entries_view() == b2.entries_view(),
            a.dim == b1.spec_dim(),
            a.wf(),
            pattern_of_entries(a.column_pointers@, a.row_indices@, b1.entries_view(), m, true),
            c.dim == b2.spec_dim(),
            c.wf(),
            exists|mc: Seq<usize>| #[trigger] pattern_of_entries(c.column_pointers@, c.row_indices@, b2.entries_view(), mc, true),
        ensures
            a.column_pointers@ == c.column_pointers@,
            a.row_indices@ == c.row_indices@,
    {
        let mc = choose|mc: Seq<usize>| #[trigger] pattern_of_entries(c.column_pointers@, c.row_indices@, b2.entries_view(), mc, true);
        b1.lemma_entries_in();
        lemma_same_entries_same_pattern(
            a.column_pointers@,
            a.row_indices@,
            m,
            c.column_pointers@,
            c.row_indices@,
            mc,
            b1.entries_view(),
            true,
            a.dim.ncols as int,
            a.dim.nrows as int,
        );
    }

    /// Builders that received the same entries: the transpose of what
    /// `build_csc` gives has the pattern that `build_csr` gives (the same row
    /// pointers and column indices).
    #[verifier::spinoff_prover]
    #[verifier::rlimit(100)]
    pub proof fn lemma_transpose_matches_csr(
        b1: &Self,
        b2: &Self,
        a: CscMatrix<V>,
        t: CsrMatrix<V>,
        r: CsrMatrix<V>,
    )
        requires
            b1.wf(),
            b2.wf(),
            b1.spec_dim() == b2.spec_dim(),
            b1.entries_view() == b2.entries_view(),
            a.dim == b1.spec_dim(),
            a.wf(),
            exists|ma: Seq<usize>| #[trigger] pattern_of_entries(a.column_pointers@, a.row_indices@, b1.entries_view(), ma, true),
            t.dim == a.dim,
            t.wf(),
            forall|i: int, j: int| 0 <= i < a.dim.nrows && 0 <= j < a.dim.ncols ==> (#[trigger] t.has_entry(i, j) <==> a.has_entry(i, j)),
            r.dim == b2.spec_dim(),
            r.wf(),
            exists|mr: Seq<usize>| #[trigger] pattern_of_entries(r.row_pointers@, r.column_indices@, b2.entries_view(), mr, false),
        ensures
            t.row_pointers@ == r.row_pointers@,
            t.column_indices@ == r.column_indices@,
    {
        let ev = b1.entries_view();
        let nrows = a.dim.nrows as int;
        let ncols = a.dim.ncols as int;
        let ma = choose|ma: Seq<usize>| #[trigger] pattern_of_entries(a.column_pointers@, a.row_indices@, ev, ma, true);
        let mr = choose|mr: Seq<usize>| #[trigger] pattern_of_entries(r.row_pointers@, r.column_indices@, ev, mr, false);
        b1.lemma_entries_in();
        assert(holds_entries(a.column_pointers@, a.row_indices@, ev, ma, true, ncols, nrows)) by {
            reveal(holds_entries);
        }
        assert(holds_entries(r.row_pointers@, r.column_indices@, ev, mr, false, nrows, ncols)) by {
            reveal(holds_entries);
        }
        let tp = t.row_pointers@;
        let ti = t.column_indices@;
        assert forall|i: int, j: int| 0 <= i < nrows && 0 <= j < ncols implies (#[trigger] pattern_has(tp, ti, j, i) <==> pattern_has(a.column_pointers@, a.row_indices@, i, j)) by {
            assert(t.has_entry(i, j) <==> a.has_entry(i, j));
        }
        lemma_transposed_same_has(a.column_pointers@, a.row_indices@, ma, t.row_pointers@, t.column_indices@, r.row_pointers@, r.column_indices@, mr, ev, nrows, ncols);
        lemma_unique_from_same_has(t.row_pointers@, t.column_indices@, r.row_pointers@, r.column_indices@, nrows, ncols);
    }

    /// Builders that received the same entries, built with the same
    /// deterministic `combine`: the transpose of what `build_csc` gives (with
    /// the entry mapping `ma` of that build) has the values of what
    /// `build_csr` gives (with its entry mapping `mr`), place by place, once
    /// the two have the same pattern, as `lemma_transpose_matches_csr` shows.
    #[verifier::spinoff_prover]
    #[verifier::rlimit(100)]
    pub proof fn lemma_transpose_values_match<F: Fn(V, V) -> V>(
        b1: &Self,
        b2: &Self,
        combine: F,
        a: CscMatrix<V>,
        t: CsrMatrix<V>,
        r: CsrMatrix<V>,
        ma: Seq<usize>,
        mr: Seq<usize>,
    )
        requires
            b1.wf(),
            b2.wf(),
            b1.spec_dim() == b2.spec_dim(),
            b1.entries_view() == b2.entries_view(),
            deterministic(combine),
            a.dim == b1.spec_dim(),
            a.wf(),
            pattern_of_entries(a.column_pointers@, a.row_indices@, b1.entries_view(), ma, true),
            forall|k: int| 0 <= k < a.row_indices@.len() ==> folded(combine, group_values(b1.entry_values(), ma, k, ma.len() as int), #[trigger] a.values@[k]),
            t.dim == a.dim,
            t.wf(),
            forall|i: int, j: int| 0 <= i < a.dim.nrows && 0 <= j < a.dim.ncols ==> (#[trigger] t.has_entry(i, j) <==> a.has_entry(i, j)),
            forall|i: int| 0 <= i <= a.dim.nrows ==> #[trigger] t.row_pointers@[i] == label_start(a.row_indices@, a.spec_nnz() as int, i),
            csr_entries_placed(&a, &t),
            r.dim == b2.spec_dim(),
            r.wf(),
            pattern_of_entries(r.row_pointers@, r.column_indices@, b2.entries_view(), mr, false),
            forall|k: int| 0 <= k < r.column_indices@.len() ==> folded(combine, group_values(b2.entry_values(), mr, k, mr.len() as int), #[trigger] r.values@[k]),
            t.row_pointers@ == r.row_pointers@,
            t.column_indices@ == r.column_indices@,
        ensures
            t.values@ == r.values@,
    {
        b1.lemma_entries_in();
        let nrows = a.dim.nrows as int;
        let ncols = a.dim.ncols as int;
        assert(pattern_ok(a.column_pointers@, a.row_indices@, ncols, nrows)) by {
            reveal(pattern_ok);
        }
        assert(pattern_ok(t.row_pointers@, t.column_indices@, nrows, ncols)) by {
            reveal(pattern_ok);
        }
        assert(transposed(a, t)) by {
            reveal(transposed);
        }
        assert(stored_values(a.row_indices@.len() as int, a.values@, ma, b1.entry_values(), combine)) by {
            reveal(stored_values);
        }
        assert(stored_values(r.column_indices@.len() as int, r.values@, mr, b1.entry_values(), combine)) by {
            reveal(stored_values);
        }
        lemma_transposed_values(a, t, r, ma, mr, b1.entries_view(), b1.entry_values(), combine);
    }

    /// The (major, minor, entry number) triples of the entries.
    pub closed spec fn keys(&self, by_column: bool) -> Seq<Triple> {
        Seq::new(
            self.entries@.len(),
            |i: int|
                if by_column {
                    (self.entries@[i].column, self.entries@[i].row, i as usize)
                } else {
                    (self.entries@[i].row, self.entries@[i].column, i as usize)
                },
        )
    }
}

proof fn lemma_folded_step<V, F: Fn(V, V) -> V>(f: F, g: Seq<V>, acc: V, v: V, next: V)
    requires
        folded(f, g, acc),
        call_ensures(f, (acc, v), next),
    ensures
        folded(f, g.push(v), next),
{
    let w = choose|w: Seq<V>| #[trigger] fold_chain(f, g, w) && w.last() == acc;
    let w2 = w.push(next);
    assert(fold_chain(f, g.push(v), w2));
}

proof fn lemma_folded_single<V, F: Fn(V, V) -> V>(f: F, v: V)
    ensures
        folded(f, seq![v], v),
{
    assert(fold_chain(f, seq![v], seq![v]));
}

/// `f` gives one result for each pair of arguments.
pub open spec fn deterministic<V, F: Fn(V, V) -> V>(f: F) -> bool {
    forall|a: V, b: V, x: V, y: V| #[trigger] call_ensures(f, (a, b), x) && #[trigger] call_ensures(f, (a, b), y) ==> x == y
}

/// Two fold chains of a deterministic `f` over the same values agree.
proof fn lemma_chains_agree<V, F: Fn(V, V) -> V>(f: F, s: Seq<V>, w1: Seq<V>, w2: Seq<V>, i: int)
    requires
        deterministic(f),
        fold_chain(f, s, w1),
        fold_chain(f, s, w2),
        0 <= i < s.len(),
    ensures
        w1[i] == w2[i],
    decreases i,
{
    if i > 0 {
        lemma_chains_agree(f, s, w1, w2, i - 1);
        assert(call_ensures(f, (w1[i - 1], s[i]), w1[i]));
        assert(call_ensures(f, (w2[i - 1], s[i]), w2[i]));
    }
}

/// A deterministic `f` folds the values `s` to one result.
pub proof fn lemma_folded_unique<V, F: Fn(V, V) -> V>(f: F, s: Seq<V>, x: V, y: V)
    requires
        deterministic(f),
        folded(f, s, x),
        folded(f, s, y),
    ensures
        x == y,
{
    let w1 = choose|w: Seq<V>| #[trigger] fold_chain(f, s, w) && w.last() == x;
    let w2 = choose|w: Seq<V>| #[trigger] fold_chain(f, s, w) && w.last() == y;
    lemma_chains_agree(f, s, w1, w2, s.len() - 1);
}

/// Groups picked out by the same entries hold the same values.
proof fn lemma_group_same<V>(values: Seq<V>, m1: Seq<usize>, k1: int, m2: Seq<usize>, k2: int, upto: int)
    requires
        forall|e: int| 0 <= e < upto ==> (#[trigger] m1[e] == k1 <==> m2[e] == k2),
    ensures
        group_values(values, m1, k1, upto) == group_values(values, m2, k2, upto),
    decreases upto,
{
    if upto > 0 {
        lemma_group_same(values, m1, k1, m2, k2, upto - 1);
        assert(m1[upto - 1] == k1 <==> m2[upto - 1] == k2);
    }
}

/// An entry is stored at position `p` of major index `j` exactly when it has
/// the coordinates held there.
proof fn lemma_slot_of<V>(
    cp: Seq<usize>,
    ri: Seq<usize>,
    entries: Seq<(usize, usize, V)>,
    mapping: Seq<usize>,
    by_column: bool,
    nmaj: int,
    nmin: int,
    e: int,
    j: int,
    p: int,
)
    requires
        pattern_wf(cp, ri, nmaj, nmin),
        pattern_of_entries(cp, ri, entries, mapping, by_column),
        0 <= e < entries.len(),
        (if by_column { entries[e].0 } else { entries[e].1 }) < nmaj,
        0 <= j < nmaj,
        cp[j] <= p < cp[j + 1],
    ensures
        mapping[e] == p <==> (if by_column {
            entries[e].0 == j && entries[e].1 == ri[p]
        } else {
            entries[e].1 == j && entries[e].0 == ri[p]
        }),
{
    let q = mapping[e] as int;
    let c = if by_column { entries[e].0 as int } else { entries[e].1 as int };
    assert(cp[c] <= q < cp[c + 1]);
    if q == p {
        if c < j {
            assert(cp[c + 1] <= cp[j]);
        } else if j < c {
            assert(cp[j + 1] <= cp[c]);
        }
    }
    if c == j && ri[q] == ri[p] {
        if p < q {
            assert(ri[p] < ri[q] && cp[j] == cp[j]);
        } else if q < p {
            assert(ri[q] < ri[p] && cp[j] == cp[j]);
        }
    }
}

/// A well-formed pattern, with its definition kept out of view.
#[verifier::opaque]
spec fn pattern_ok(cp: Seq<usize>, ri: Seq<usize>, nmaj: int, nmin: int) -> bool {
    pattern_wf(cp, ri, nmaj, nmin)
}

/// The first `len` stored values each combine the values of the entries
/// stored there.
#[verifier::opaque]
spec fn stored_values<V, F: Fn(V, V) -> V>(len: int, stored: Seq<V>, mapping: Seq<usize>, values: Seq<V>, f: F) -> bool {
    forall|k: int| 0 <= k < len ==> folded(f, group_values(values, mapping, k, mapping.len() as int), #[trigger] stored[k])
}

/// `t` is what `transpose_to_csr` makes of `a`: the same entries, row by row,
/// each with its value.
#[verifier::opaque]
spec fn transposed<V>(a: CscMatrix<V>, t: CsrMatrix<V>) -> bool {
    &&& t.dim == a.dim
    &&& t.values@.len() == t.column_indices@.len()
    &&& forall|i: int, j: int| 0 <= i < a.dim.nrows && 0 <= j < a.dim.ncols ==> (#[trigger] t.has_entry(i, j) <==> a.has_entry(i, j))
    &&& forall|i: int| 0 <= i <= a.dim.nrows ==> #[trigger] t.row_pointers@[i] == label_start(a.row_indices@, a.spec_nnz() as int, i)
    &&& csr_entries_placed(&a, &t)
}

/// Position `q` lies under some major index `i`, and its minor index is in range.
proof fn lemma_major_of(cp: Seq<usize>, ri: Seq<usize>, nmaj: int, nmin: int, q: int) -> (i: int)
    requires
        0 <= nmaj,
        pattern_wf(cp, ri, nmaj, nmin),
        0 <= q < ri.len(),
    ensures
        0 <= i < nmaj,
        cp[i] <= q < cp[i + 1],
        ri[q] < nmin,
{
    lemma_column_of(cp, nmaj, q);
    let i = choose|i: int| 0 <= i < nmaj && #[trigger] cp[i] <= q < cp[i + 1];
    assert(ri[q] < nmin && cp[i] == cp[i]);
    i
}

/// Under one major index, one minor index is held at one position only.
proof fn lemma_one_place(cp: Seq<usize>, ri: Seq<usize>, nmaj: int, nmin: int, i: int, q: int, pos: int)
    requires
        pattern_wf(cp, ri, nmaj, nmin),
        0 <= i < nmaj,
        cp[i] <= q < cp[i + 1],
        cp[i] <= pos < cp[i + 1],
        ri[q] == ri[pos],
    ensures
        q == pos,
{
    if pos < q {
        assert(ri[pos] < ri[q] && cp[i] == cp[i]);
    } else if q < pos {
        assert(ri[q] < ri[pos] && cp[i] == cp[i]);
    }
}

/// The place `q` of the transpose of `a` lies in row `i` and column `j`, and
/// `a` holds row `i` at position `p` of column `j`, whose value is at `q`.
#[verifier::spinoff_prover]
#[verifier::rlimit(100)]
proof fn lemma_source_of<V>(a: CscMatrix<V>, t: CsrMatrix<V>, q: int) -> (res: (int, int, int))
    requires
        pattern_ok(a.column_pointers@, a.row_indices@, a.dim.ncols as int, a.dim.nrows as int),
        pattern_ok(t.row_pointers@, t.column_indices@, a.dim.nrows as int, a.dim.ncols as int),
        transposed(a, t),
        0 <= q < t.column_indices@.len(),
    ensures
        0 <= res.0 < a.dim.nrows,
        t.row_pointers@[res.0] <= q < t.row_pointers@[res.0 + 1],
        res.1 == t.column_indices@[q],
        0 <= res.1 < a.dim.ncols,
        a.column_pointers@[res.1] <= res.2 < a.column_pointers@[res.1 + 1],
        0 <= res.2 < a.row_indices@.len(),
        a.row_indices@[res.2] == res.0,
        t.values@[q] == a.values@[res.2],
{
    reveal(pattern_ok);
    reveal(transposed);
    let nrows = a.dim.nrows as int;
    let ncols = a.dim.ncols as int;
    let tp = t.row_pointers@;
    let tc = t.column_indices@;
    let cp = a.column_pointers@;
    let ri = a.row_indices@;
    let nnz = a.spec_nnz() as int;
    let i = lemma_major_of(tp, tc, nrows, ncols, q);
    let j = tc[q] as int;
    assert(pattern_has(tp, tc, j, i));
    assert(t.has_entry(i, j));
    assert(a.has_entry(i, j));
    let p = choose|p: int| cp[j] <= p < cp[j + 1] && #[trigger] ri[p] == i;
    assert(cp[j + 1] <= cp[ncols]);
    let pos = label_pos(ri, nnz, p);
    assert(tc[pos] == j && t.values@[pos] == a.values@[p]);
    lemma_pos_range(ri, nnz, p);
    assert(tp[i] == label_start(ri, nnz, i));
    assert(tp[i + 1] == label_start(ri, nnz, i + 1));
    lemma_one_place(tp, tc, nrows, ncols, i, q, pos);
    (i, j, p)
}

/// The entries stored at position `p` (row `i`, column `j`) of a CSC pattern
/// are those stored at place `q` (row `i`, column `j`) of a CSR pattern.
#[verifier::spinoff_prover]
#[verifier::rlimit(100)]
proof fn lemma_groups_agree<V>(
    cp: Seq<usize>,
    ri: Seq<usize>,
    rp: Seq<usize>,
    rc: Seq<usize>,
    ma: Seq<usize>,
    mr: Seq<usize>,
    entries: Seq<(usize, usize, V)>,
    nrows: int,
    ncols: int,
    i: int,
    j: int,
    p: int,
    q: int,
)
    requires
        pattern_ok(cp, ri, ncols, nrows),
        pattern_ok(rp, rc, nrows, ncols),
        pattern_of_entries(cp, ri, entries, ma, true),
        pattern_of_entries(rp, rc, entries, mr, false),
        entries_in(entries, ncols, nrows),
        0 <= j < ncols,
        cp[j] <= p < cp[j + 1],
        ri[p] == i,
        0 <= i < nrows,
        rp[i] <= q < rp[i + 1],
        rc[q] == j,
    ensures
        forall|e: int| 0 <= e < ma.len() ==> (#[trigger] ma[e] == p <==> mr[e] == q),
{
    reveal(pattern_ok);
    assert forall|e: int| 0 <= e < ma.len() implies (#[trigger] ma[e] == p <==> mr[e] == q) by {
        lemma_slot_of(cp, ri, entries, ma, true, ncols, nrows, e, j, p);
        lemma_slot_of(rp, rc, entries, mr, false, nrows, ncols, e, i, q);
    }
}

/// The value at place `q` of the transpose of a CSC matrix of the entries is
/// the value at place `q` of a CSR matrix of the same entries with the same
/// pattern, when both combine duplicates with the same deterministic `f`.
#[verifier::spinoff_prover]
#[verifier::rlimit(100)]
proof fn lemma_transposed_value<V, F: Fn(V, V) -> V>(
    a: CscMatrix<V>,
    t: CsrMatrix<V>,
    r: CsrMatrix<V>,
    ma: Seq<usize>,
    mr: Seq<usize>,
    entries: Seq<(usize, usize, V)>,
    values: Seq<V>,
    f: F,
    q: int,
)
    requires
        deterministic(f),
        pattern_ok(a.column_pointers@, a.row_indices@, a.dim.ncols as int, a.dim.nrows as int),
        pattern_ok(t.row_pointers@, t.column_indices@, a.dim.nrows as int, a.dim.ncols as int),
        t.row_pointers@ == r.row_pointers@,
        t.column_indices@ == r.column_indices@,
        entries_in(entries, a.dim.ncols as int, a.dim.nrows as int),
        pattern_of_entries(a.column_pointers@, a.row_indices@, entries, ma, true),
        pattern_of_entries(r.row_pointers@, r.column_indices@, entries, mr, false),
        stored_values(a.row_indices@.len() as int, a.values@, ma, values, f),
        stored_values(r.column_indices@.len() as int, r.values@, mr, values, f),
        transposed(a, t),
        0 <= q < t.column_indices@.len(),
    ensures
        t.values@[q] == r.values@[q],
{
    let (i, j, p) = lemma_source_of(a, t, q);
    assert(pattern_ok(r.row_pointers@, r.column_indices@, a.dim.nrows as int, a.dim.ncols as int));
    lemma_groups_agree(
        a.column_pointers@,
        a.row_indices@,
        r.row_pointers@,
        r.column_indices@,
        ma,
        mr,
        entries,
        a.dim.nrows as int,
        a.dim.ncols as int,
        i,
        j,
        p,
        q,
    );
    lemma_group_same(values, ma, p, mr, q, ma.len() as int);
    reveal(stored_values);
    assert(folded(f, group_values(values, ma, p, ma.len() as int), a.values@[p]));
    assert(folded(f, group_values(values, mr, q, mr.len() as int), r.values@[q]));
    lemma_folded_unique(f, group_values(values, ma, p, ma.len() as int), a.values@[p], r.values@[q]);
}

/// The values of the transpose of a CSC matrix of the entries are those of a
/// CSR matrix of the same entries with the same pattern, when both combine
/// duplicates with the same deterministic `f`.
#[verifier::spinoff_prover]
#[verifier::rlimit(100)]
proof fn lemma_transposed_values<V, F: Fn(V, V) -> V>(
    a: CscMatrix<V>,
    t: CsrMatrix<V>,
    r: CsrMatrix<V>,
    ma: Seq<usize>,
    mr: Seq<usize>,
    entries: Seq<(usize, usize, V)>,
    values: Seq<V>,
    f: F,
)
    requires
        deterministic(f),
        pattern_ok(a.column_pointers@, a.row_indices@, a.dim.ncols as int, a.dim.nrows as int),
        pattern_ok(t.row_pointers@, t.column_indices@, a.dim.nrows as int, a.dim.ncols as int),
        r.values@.len() == r.column_indices@.len(),
        t.row_pointers@ == r.row_pointers@,
        t.column_indices@ == r.column_indices@,
        entries_in(entries, a.dim.ncols as int, a.dim.nrows as int),
        pattern_of_entries(a.column_pointers@, a.row_indices@, entries, ma, true),
        pattern_of_entries(r.row_pointers@, r.column_indices@, entries, mr, false),
        stored_values(a.row_indices@.len() as int, a.values@, ma, values, f),
        stored_values(r.column_indices@.len() as int, r.values@, mr, values, f),
        transposed(a, t),
    ensures
        t.values@ == r.values@,
{
    assert(t.values@.len() == t.column_indices@.len()) by {
        reveal(transposed);
    }
    assert forall|q: int| 0 <= q < t.values@.len() implies t.values@[q] == r.values@[q] by {
        lemma_transposed_value(a, t, r, ma, mr, entries, values, f, q);
    }
    assert(t.values@ =~= r.values@);
}

/// `n` default values.
fn default_values<V: Default>(n: usize) -> (r: Vec<V>)
    ensures
        r@.len() == n,
        forall|i: int| 0 <= i < n ==> call_ensures(V::default, (), #[trigger] r@[i]),
{
    let mut values: Vec<V> = Vec::with_capacity(n);
    let mut k: usize = 0;
    while k < n
        invariant
            k <= n,
            values@.len() == k,
            forall|i: int| 0 <= i < k ==> call_ensures(V::default, (), #[trigger] values@[i]),
        decreases n - k,
    {
        values.push(V::default());
        k = k + 1;
    }
    values
}

/// Some entry is mapped to position `p`.
pub open spec fn entry_at(mapping: Seq<usize>, p: int) -> bool {
    exists|e: int| 0 <= e < mapping.len() && #[trigger] mapping[e] == p
}

/// The compressed pattern `(cp, ri)` stores exactly the coordinates of the
/// entries (column, row, value), and `mapping[e]` is where entry `e` is stored.
/// With `by_column`, `cp` indexes columns and `ri` holds rows; otherwise `cp`
/// indexes rows and `ri` holds columns.
pub open spec fn pattern_of_entries<V>(
    cp: Seq<usize>,
    ri: Seq<usize>,
    entries: Seq<(usize, usize, V)>,
    mapping: Seq<usize>,
    by_column: bool,
) -> bool {
    &&& mapping.len() == entries.len()
    &&& forall|e: int|
        0 <= e < entries.len() ==> {
            let p = #[trigger] mapping[e] as int;
            let (maj, min) = if by_column {
                (entries[e].0, entries[e].1)
            } else {
                (entries[e].1, entries[e].0)
            };
            &&& p < ri.len()
            &&& ri[p] == min
            &&& cp[maj as int] <= p < cp[maj + 1]
        }
    &&& forall|p: int| 0 <= p < ri.len() ==> #[trigger] entry_at(mapping, p)
}

/// The entries lie inside an `nrows`-by-`ncols` matrix.
pub open spec fn entries_in<V>(entries: Seq<(usize, usize, V)>, ncols: int, nrows: int) -> bool {
    forall|e: int| 0 <= e < entries.len() ==> #[trigger] entries[e].0 < ncols && entries[e].1 < nrows
}

/// An entry at (major, minor) index `(j, i)`: `(column, row)` by column,
/// `(row, column)` otherwise.
pub open spec fn has_coords<V>(entries: Seq<(usize, usize, V)>, by_column: bool, j: int, i: int) -> bool {
    exists|e: int|
        0 <= e < entries.len() && (if by_column {
            #[trigger] entries[e].0 == j && entries[e].1 == i
        } else {
            entries[e].1 == j && entries[e].0 == i
        })
}

/// A well-formed pattern of the entries holds exactly their coordinates.
pub proof fn lemma_pattern_holds_entries<V>(
    cp: Seq<usize>,
    ri: Seq<usize>,
    entries: Seq<(usize, usize, V)>,
    mapping: Seq<usize>,
    by_column: bool,
    nmaj: int,
    nmin: int,
    i: int,
    j: int,
)
    requires
        pattern_wf(cp, ri, nmaj, nmin),
        pattern_of_entries(cp, ri, entries, mapping, by_column),
        by_column ==> entries_in(entries, nmaj, nmin),
        !by_column ==> entries_in(entries, nmin, nmaj),
        0 <= j < nmaj,
    ensures
        pattern_has(cp, ri, i, j) <==> has_coords(entries, by_column, j, i),
{
    if has_coords(entries, by_column, j, i) {
        let e = choose|e: int|
            0 <= e < entries.len() && (if by_column {
                #[trigger] entries[e].0 == j && entries[e].1 == i
            } else {
                entries[e].1 == j && entries[e].0 == i
            });
        let p = mapping[e] as int;
        assert(cp[j] <= p < cp[j + 1] && ri[p] == i);
    }
    if pattern_has(cp, ri, i, j) {
        let p = choose|p: int| cp[j] <= p < cp[j + 1] && #[trigger] ri[p] == i;
        assert(cp[j + 1] <= cp[nmaj]);
        assert(entry_at(mapping, p));
        let e = choose|e: int| 0 <= e < mapping.len() && #[trigger] mapping[e] == p;
        let maj = if by_column { entries[e].0 as int } else { entries[e].1 as int };
        assert(cp[maj] <= p < cp[maj + 1]);
        if maj < j {
            assert(cp[maj + 1] <= cp[j]);
        } else if j < maj {
            assert(cp[j + 1] <= cp[maj]);
        }
        assert(has_coords(entries, by_column, j, i));
    }
}

/// The pattern `(cp, ri)` stores the entries, which lie inside the matrix.
#[verifier::opaque]
spec fn holds_entries<V>(
    cp: Seq<usize>,
    ri: Seq<usize>,
    entries: Seq<(usize, usize, V)>,
    mapping: Seq<usize>,
    by_column: bool,
    nmaj: int,
    nmin: int,
) -> bool {
    &&& pattern_of_entries(cp, ri, entries, mapping, by_column)
    &&& by_column ==> entries_in(entries, nmaj, nmin)
    &&& !by_column ==> entries_in(entries, nmin, nmaj)
}

/// A well-formed pattern of the entries holds exactly their coordinates,
/// at every place.
proof fn lemma_pattern_holds_all<V>(
    cp: Seq<usize>,
    ri: Seq<usize>,
    entries: Seq<(usize, usize, V)>,
    mapping: Seq<usize>,
    by_column: bool,
    nmaj: int,
    nmin: int,
)
    requires
        pattern_wf(cp, ri, nmaj, nmin),
        holds_entries(cp, ri, entries, mapping, by_column, nmaj, nmin),
    ensures
        forall|i: int, j: int| 0 <= j < nmaj ==> (#[trigger] pattern_has(cp, ri, i, j) <==> has_coords(entries, by_column, j, i)),
{
    reveal(holds_entries);
    assert forall|i: int, j: int| 0 <= j < nmaj implies (#[trigger] pattern_has(cp, ri, i, j) <==> has_coords(entries, by_column, j, i)) by {
        lemma_pattern_holds_entries(cp, ri, entries, mapping, by_column, nmaj, nmin, i, j);
    }
}

/// Two well-formed patterns storing the same entries are equal.
#[verifier::spinoff_prover]
#[verifier::rlimit(100)]
proof fn lemma_same_pattern_inner<V>(
    cp1: Seq<usize>,
    ri1: Seq<usize>,
    m1: Seq<usize>,
    cp2: Seq<usize>,
    ri2: Seq<usize>,
    m2: Seq<usize>,
    entries: Seq<(usize, usize, V)>,
    by_column: bool,
    nmaj: int,
    nmin: int,
)
    requires
        0 <= nmaj,
        pattern_wf(cp1, ri1, nmaj, nmin),
        pattern_wf(cp2, ri2, nmaj, nmin),
        holds_entries(cp1, ri1, entries, m1, by_column, nmaj, nmin),
        holds_entries(cp2, ri2, entries, m2, by_column, nmaj, nmin),
    ensures
        cp1 == cp2,
        ri1 == ri2,
{
    assert(same_has(cp1, ri1, cp2, ri2, nmaj, nmin)) by {
        reveal(same_has);
        lemma_pattern_holds_all(cp1, ri1, entries, m1, by_column, nmaj, nmin);
        lemma_pattern_holds_all(cp2, ri2, entries, m2, by_column, nmaj, nmin);
    }
    lemma_unique_from_same_has(cp1, ri1, cp2, ri2, nmaj, nmin);
}

/// The two patterns hold the same places.
#[verifier::opaque]
spec fn same_has(cp1: Seq<usize>, ri1: Seq<usize>, cp2: Seq<usize>, ri2: Seq<usize>, nmaj: int, nmin: int) -> bool {
    forall|i: int, j: int| #![trigger pattern_has(cp1, ri1, i, j)] #![trigger pattern_has(cp2, ri2, i, j)] 0 <= i < nmin && 0 <= j < nmaj ==> (pattern_has(cp1, ri1, i, j) <==> pattern_has(cp2, ri2, i, j))
}

#[verifier::spinoff_prover]
#[verifier::rlimit(100)]
proof fn lemma_unique_from_same_has(cp1: Seq<usize>, ri1: Seq<usize>, cp2: Seq<usize>, ri2: Seq<usize>, nmaj: int, nmin: int)
    requires
        0 <= nmaj,
        pattern_wf(cp1, ri1, nmaj, nmin),
        pattern_wf(cp2, ri2, nmaj, nmin),
        same_has(cp1, ri1, cp2, ri2, nmaj, nmin),
    ensures
        cp1 == cp2,
        ri1 == ri2,
{
    reveal(same_has);
    lemma_pattern_unique(cp1, ri1, cp2, ri2, nmaj, nmin);
}

/// A row-major pattern `(tp, ti)` holding the transposed places of a
/// column-major pattern of the entries holds the places of any row-major
/// pattern of the same entries.
#[verifier::spinoff_prover]
#[verifier::rlimit(100)]
proof fn lemma_transposed_same_has<V>(
    cp: Seq<usize>,
    ri: Seq<usize>,
    ma: Seq<usize>,
    tp: Seq<usize>,
    ti: Seq<usize>,
    rp: Seq<usize>,
    rc: Seq<usize>,
    mr: Seq<usize>,
    entries: Seq<(usize, usize, V)>,
    nrows: int,
    ncols: int,
)
    requires
        pattern_wf(cp, ri, ncols, nrows),
        pattern_wf(rp, rc, nrows, ncols),
        holds_entries(cp, ri, entries, ma, true, ncols, nrows),
        holds_entries(rp, rc, entries, mr, false, nrows, ncols),
        forall|i: int, j: int| 0 <= i < nrows && 0 <= j < ncols ==> (#[trigger] pattern_has(tp, ti, j, i) <==> pattern_has(cp, ri, i, j)),
    ensures
        same_has(tp, ti, rp, rc, nrows, ncols),
{
    lemma_pattern_holds_all(cp, ri, entries, ma, true, ncols, nrows);
    lemma_pattern_holds_all(rp, rc, entries, mr, false, nrows, ncols);
    reveal(same_has);
    assert forall|i: int, j: int| #![trigger pattern_has(tp, ti, i, j)] #![trigger pattern_has(rp, rc, i, j)] 0 <= i < ncols && 0 <= j < nrows implies (pattern_has(tp, ti, i, j) <==> pattern_has(rp, rc, i, j)) by {
        assert(pattern_has(tp, ti, i, j) <==> pattern_has(cp, ri, j, i));
        assert(pattern_has(cp, ri, j, i) <==> has_coords(entries, true, i, j));
        assert(pattern_has(rp, rc, i, j) <==> has_coords(entries, false, j, i));
        if has_coords(entries, true, i, j) {
            let e = choose|e: int| 0 <= e < entries.len() && #[trigger] entries[e].0 == i && entries[e].1 == j;
            assert(has_coords(entries, false, j, i));
        }
        if has_coords(entries, false, j, i) {
            let e = choose|e: int| 0 <= e < entries.len() && entries[e].1 == j && #[trigger] entries[e].0 == i;
            assert(has_coords(entries, true, i, j));
        }
    }
}

/// A compressed pattern is determined by its entries: two well-formed
/// patterns of the same entries are equal (so the pattern of
/// `build_csc_pattern` is that of `build_csc`, and those of `build_csr`
/// agree).
#[verifier::spinoff_prover]
#[verifier::rlimit(100)]
pub proof fn lemma_same_entries_same_pattern<V>(
    cp1: Seq<usize>,
    ri1: Seq<usize>,
    m1: Seq<usize>,
    cp2: Seq<usize>,
    ri2: Seq<usize>,
    m2: Seq<usize>,
    entries: Seq<(usize, usize, V)>,
    by_column: bool,
    nmaj: int,
    nmin: int,
)
    requires
        0 <= nmaj,
        pattern_wf(cp1, ri1, nmaj, nmin),
        pattern_wf(cp2, ri2, nmaj, nmin),
        pattern_of_entries(cp1, ri1, entries, m1, by_column),
        pattern_of_entries(cp2, ri2, entries, m2, by_column),
        by_column ==> entries_in(entries, nmaj, nmin),
        !by_column ==> entries_in(entries, nmin, nmaj),
    ensures
        cp1 == cp2,
        ri1 == ri2,
{
    assert(holds_entries(cp1, ri1, entries, m1, by_column, nmaj, nmin)) by {
        reveal(holds_entries);
    }
    assert(holds_entries(cp2, ri2, entries, m2, by_column, nmaj, nmin)) by {
        reveal(holds_entries);
    }
    lemma_same_pattern_inner(cp1, ri1, m1, cp2, ri2, m2, entries, by_column, nmaj, nmin);
}

/// Entries share a slot of the compressed pattern exactly when they have
/// the same coordinates (duplicates are stored once).
pub proof fn lemma_entry_slots<V>(
    cp: Seq<usize>,
    ri: Seq<usize>,
    entries: Seq<(usize, usize, V)>,
    mapping: Seq<usize>,
    ncols: int,
    nrows: int,
    e: int,
    f: int,
)
    requires
        pattern_wf(cp, ri, ncols, nrows),
        pattern_of_entries(cp, ri, entries, mapping, true),
        0 <= e < entries.len(),
        0 <= f < entries.len(),
        entries[e].0 < ncols,
        entries[f].0 < ncols,
    ensures
        (entries[e].0 == entries[f].0 && entries[e].1 == entries[f].1) <==> mapping[e] == mapping[f],
{
    let p = mapping[e] as int;
    let q = mapping[f] as int;
    let c1 = entries[e].0 as int;
    let c2 = entries[f].0 as int;
    assert(cp[c1] <= p < cp[c1 + 1] && ri[p] == entries[e].1);
    assert(cp[c2] <= q < cp[c2 + 1] && ri[q] == entries[f].1);
    if p == q {
        if c1 < c2 {
            assert(cp[c1 + 1] <= cp[c2]);
        } else if c2 < c1 {
            assert(cp[c2 + 1] <= cp[c1]);
        }
    }
    if c1 == c2 && entries[e].1 == entries[f].1 {
        if p < q {
            assert(ri[p] < ri[q] && cp[c1] == cp[c1]);
        } else if q < p {
            assert(ri[q] < ri[p] && cp[c1] == cp[c1]);
        }
    }
}

proof fn lemma_group_nonempty<V>(values: Seq<V>, mapping: Seq<usize>, k: int, e: int, upto: int)
    requires
        0 <= e < upto <= mapping.len(),
        mapping[e] == k,
    ensures
        group_values(values, mapping, k, upto).len() > 0,
    decreases upto,
{
    if e < upto - 1 {
        lemma_group_nonempty(values, mapping, k, e, upto - 1);
    }
}

proof fn lemma_compressed_rearranged(
    keys: Seq<Triple>,
    v: Seq<Triple>,
    pos: Seq<int>,
    inv: Seq<int>,
    nmajor: int,
    nminor: int,
    cp: Seq<usize>,
    ri: Seq<usize>,
    mapping: Seq<usize>,
)
    requires
        is_rearrangement(keys, v, pos, inv),
        compressed(v, nmajor, nminor, cp, ri, mapping),
    ensures
        compressed(keys, nmajor, nminor, cp, ri, mapping),
{
    assert forall|i: int| 0 <= i < keys.len() implies {
        let p = #[trigger] mapping[keys[i].2 as int] as int;
        &&& p < ri.len()
        &&& ri[p] == keys[i].1
        &&& cp[keys[i].0 as int] <= p < cp[keys[i].0 + 1]
    } by {
        assert(v[pos[i]] == keys[i]);
        let t = pos[i];
        let p = mapping[v[t].2 as int] as int;
        assert(p < ri.len());
    }
    assert forall|p: int| 0 <= p < ri.len() implies #[trigger] stored_by(keys, mapping, p) by {
        assert(stored_by(v, mapping, p));
        let t = choose|t: int| 0 <= t < v.len() && #[trigger] mapping[v[t].2 as int] == p;
        assert(keys[inv[t]] == v[t]);
        assert(mapping[keys[inv[t]].2 as int] == p);
    }
}

} // verus!
