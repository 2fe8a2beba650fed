use vstd::prelude::*;

verus! {

/// `entry` may hand back `v` for the matrix position `(a, b)`.
pub open spec fn entry_gives<F: FnMut(usize, usize) -> Result<usize, E>, E>(entry: F, a: usize, b: usize, v: usize) -> bool {
    call_ensures(entry, (a, b), Ok(v))
}

/// `entry` may fail with `e` for the matrix position `(a, b)`.
pub open spec fn entry_fails<F: FnMut(usize, usize) -> Result<usize, E>, E>(entry: F, a: usize, b: usize, e: E) -> bool {
    call_ensures(entry, (a, b), Err(e))
}

/// An optional index maps to the index that `f` may give for it.
pub open spec fn mapped<F: FnMut(usize) -> usize>(f: F, before: Option<usize>, after: Option<usize>) -> bool {
    match before {
        Some(i) => after matches Some(j) && call_ensures(f, (i,), j),
        None => after is None,
    }
}

/// An optional pair of indices maps componentwise through `f`.
pub open spec fn mapped_pair<F: FnMut(usize) -> usize>(f: F, before: Option<(usize, usize)>, after: Option<(usize, usize)>) -> bool {
    match before {
        Some((i, j)) => after matches Some((x, y)) && call_ensures(f, (i,), x) && call_ensures(f, (j,), y),
        None => after is None,
    }
}

/// A sentinel-or-index maps to the index that `f` may give for it; the
/// sentinel `usize::MAX` stays.
pub open spec fn mapped_index<F: FnMut(usize) -> usize>(f: F, before: usize, after: usize) -> bool {
    if before == usize::MAX {
        after == usize::MAX
    } else {
        call_ensures(f, (before,), after)
    }
}

/// Whatever `f` gives for an index, `g` then gives for that, `h` gives
/// for the index directly, and only that: `h` is `g` after `f`.
pub open spec fn composes<F: FnMut(usize) -> usize, G: FnMut(usize) -> usize, H: FnMut(usize) -> usize>(f: F, g: G, h: H) -> bool {
    forall|i: usize, j: usize, k: usize, r: usize|
        #[trigger] call_ensures(f, (i,), j) && #[trigger] call_ensures(g, (j,), k) && #[trigger] call_ensures(h, (i,), r) ==> r == k
}

/// `f` gives back every index unchanged.
pub open spec fn keeps_indices<F: FnMut(usize) -> usize>(f: F) -> bool {
    forall|i: usize, r: usize| #[trigger] call_ensures(f, (i,), r) ==> r == i
}

/// Mapping through `f` and then `g` is mapping through `h`, when `h` is `g` after `f`.
pub proof fn lemma_mapped_compose<F: FnMut(usize) -> usize, G: FnMut(usize) -> usize, H: FnMut(usize) -> usize>(
    f: F,
    g: G,
    h: H,
    a: Option<usize>,
    b: Option<usize>,
    c: Option<usize>,
    d: Option<usize>,
)
    requires
        composes(f, g, h),
        mapped(f, a, b),
        mapped(g, b, c),
        mapped(h, a, d),
    ensures
        c == d,
{
}

/// The pair form of `lemma_mapped_compose`.
pub proof fn lemma_mapped_pair_compose<F: FnMut(usize) -> usize, G: FnMut(usize) -> usize, H: FnMut(usize) -> usize>(
    f: F,
    g: G,
    h: H,
    a: Option<(usize, usize)>,
    b: Option<(usize, usize)>,
    c: Option<(usize, usize)>,
    d: Option<(usize, usize)>,
)
    requires
        composes(f, g, h),
        mapped_pair(f, a, b),
        mapped_pair(g, b, c),
        mapped_pair(h, a, d),
    ensures
        c == d,
{
    if a is Some {
        let (i1, i2) = a->0;
        let (j1, j2) = b->0;
        let (k1, k2) = c->0;
        let (r1, r2) = d->0;
        assert(call_ensures(f, (i1,), j1) && call_ensures(g, (j1,), k1) && call_ensures(h, (i1,), r1));
        assert(call_ensures(f, (i2,), j2) && call_ensures(g, (j2,), k2) && call_ensures(h, (i2,), r2));
    }
}

/// The sentinel-or-index form of `lemma_mapped_compose`.
pub proof fn lemma_mapped_index_compose<F: FnMut(usize) -> usize, G: FnMut(usize) -> usize, H: FnMut(usize) -> usize>(
    f: F,
    g: G,
    h: H,
    a: usize,
    b: usize,
    c: usize,
    d: usize,
)
    requires
        composes(f, g, h),
        mapped_index(f, a, b),
        a != usize::MAX ==> b != usize::MAX,
        mapped_index(g, b, c),
        mapped_index(h, a, d),
    ensures
        c == d,
{
    if a != usize::MAX {
        assert(call_ensures(f, (a,), b) && call_ensures(g, (b,), c) && call_ensures(h, (a,), d));
    }
}

/// The index at the diagonal position of an optional node, taken from `entry`.
pub open spec fn diag_from<F: FnMut(usize, usize) -> Result<usize, E>, E>(entry: F, node: Option<usize>, v: Option<usize>) -> bool {
    match node {
        Some(p) => v matches Some(x) && entry_gives(entry, p, p, x),
        None => v is None,
    }
}

/// `entry` may fail with `e` at one of the positions a node pair asks for:
/// a diagonal position of a present node, or an off-diagonal one when both are present.
pub open spec fn pair_fails<F: FnMut(usize, usize) -> Result<usize, E>, E>(entry: F, pos: Option<usize>, neg: Option<usize>, e: E) -> bool {
    ||| pos matches Some(p) && entry_fails(entry, p, p, e)
    ||| neg matches Some(q) && entry_fails(entry, q, q, e)
    ||| pos matches Some(p) && neg matches Some(q) && (entry_fails(entry, p, q, e) || entry_fails(entry, q, p, e))
}

/// Cached MNA stamp indices for a 2-terminal device (both diagonal and off-diagonal entries).
///
/// The meaning of the stored indices depends on the linear solver:
/// - **KLU (sparse)**: indices refer to the CSC `values` array (nnz indices), computed via the
///   sparsity-pattern builder and an `EntryMapping`.
/// - **BLAS (dense)**: indices refer to a dense row-major linear index into the MNA matrix buffer:
///   `idx = row * dim + col`.
#[derive(Debug, Clone)]
pub struct NodePairStamp {
    pub pos_pos: Option<usize>,
    pub neg_neg: Option<usize>,
    /// Off-diagonal entries: (pos, neg) and (neg, pos).
    pub off_diagonals: Option<(usize, usize)>,
}

impl NodePairStamp {

    /// Every index of `before` mapped through `f` gives the one of `after`.
    pub open spec fn remapped<F: FnMut(usize) -> usize>(f: F, before: Self, after: Self) -> bool {
        &&& mapped(f, before.pos_pos, after.pos_pos)
        &&& mapped(f, before.neg_neg, after.neg_neg)
        &&& mapped_pair(f, before.off_diagonals, after.off_diagonals)
    }

    /// Two calls of `set_final_indices`, with `f` and then `g`, leave the
    /// stamp as one call with `h` does, when `h` is `g` after `f`.
    pub proof fn lemma_final_indices_compose<F: FnMut(usize) -> usize, G: FnMut(usize) -> usize, H: FnMut(usize) -> usize>(
        f: F,
        g: G,
        h: H,
        s0: Self,
        s1: Self,
        s2: Self,
        t: Self,
    )
        requires
            composes(f, g, h),
            Self::remapped(f, s0, s1),
            Self::remapped(g, s1, s2),
            Self::remapped(h, s0, t),
        ensures
            s2 == t,
    {
        lemma_mapped_compose(f, g, h, s0.pos_pos, s1.pos_pos, s2.pos_pos, t.pos_pos);
        lemma_mapped_compose(f, g, h, s0.neg_neg, s1.neg_neg, s2.neg_neg, t.neg_neg);
        lemma_mapped_pair_compose(f, g, h, s0.off_diagonals, s1.off_diagonals, s2.off_diagonals, t.off_diagonals);
    }

    /// `set_final_indices` with a mapping that keeps every index leaves the
    /// stamp unchanged.
    pub proof fn lemma_final_indices_keep<F: FnMut(usize) -> usize>(f: F, s0: Self, s1: Self)
        requires
            keeps_indices(f),
            Self::remapped(f, s0, s1),
        ensures
            s1 == s0,
    {
    }
    /// Create a stamp with no indices assigned yet.
    pub fn uninitialized() -> (r: Self)
        ensures
            r.pos_pos is None,
            r.neg_neg is None,
            r.off_diagonals is None,
    {
        Self { pos_pos: None, neg_neg: None, off_diagonals: None }
    }

    /// Set the temporary indices produced during pattern construction.
    ///
    /// For sparse (KLU), these are COO entry indices returned by the pattern builder.
    /// For dense (BLAS), these can be the final dense linear indices.
    pub fn set_temp_indices(
        &mut self,
        pos_pos: Option<usize>,
        neg_neg: Option<usize>,
        off_diagonals: Option<(usize, usize)>,
    )
        ensures
            final(self).pos_pos == pos_pos,
            final(self).neg_neg == neg_neg,
            final(self).off_diagonals == off_diagonals,
    {
        self.pos_pos = pos_pos;
        self.neg_neg = neg_neg;
        self.off_diagonals = off_diagonals;
    }

    /// Compute and set temporary indices from node locations.
    ///
    /// The `entry` callback receives (column, row) to match `MatrixBuilder::push`.
    /// The first error of `entry` is returned and leaves the stamp unchanged.
    pub fn set_temp_indices_from_nodes<F, E>(
        &mut self,
        pos: Option<usize>,
        neg: Option<usize>,
        entry: F,
    ) -> (r: Result<(), E>) where F: FnMut(usize, usize) -> Result<usize, E>
        requires
            forall|a: usize, b: usize| call_requires(entry, (a, b)),
        ensures
            r is Ok ==> {
                &&& diag_from(entry, pos, final(self).pos_pos)
                &&& diag_from(entry, neg, final(self).neg_neg)
                &&& match (pos, neg) {
                    (Some(p), Some(q)) => final(self).off_diagonals matches Some((x, y))
                        && entry_gives(entry, p, q, x) && entry_gives(entry, q, p, y),
                    _ => final(self).off_diagonals is None,
                }
            },
            r is Err ==> *final(self) == *old(self),
            r is Err ==> pair_fails(entry, pos, neg, r->Err_0),
    {
        let mut call = entry;
        let mut pos_pos: Option<usize> = None;
        if let Some(p) = pos {
            match call(p, p) {
                Ok(v) => pos_pos = Some(v),
                Err(e) => {
                    assert(entry_fails(entry, p, p, e));
                    return Err(e);
                },
            }
        }
        let mut neg_neg: Option<usize> = None;
        if let Some(n) = neg {
            match call(n, n) {
                Ok(v) => neg_neg = Some(v),
                Err(e) => {
                    return Err(e);
                },
            }
        }
        let off_diagonals = if let (Some(pos), Some(neg)) = (pos, neg) {
            let a = match call(pos, neg) {
                Ok(v) => v,
                Err(e) => return Err(e),
            };
            let b = match call(neg, pos) {
                Ok(v) => v,
                Err(e) => return Err(e),
            };
            Some((a, b))
        } else {
            None
        };
        self.set_temp_indices(pos_pos, neg_neg, off_diagonals);
        Ok(())
    }

    /// Map temporary indices to their final locations using the provided mapping.
    pub fn set_final_indices<F>(&mut self, f: F) where F: FnMut(usize) -> usize
        requires
            forall|i: usize| call_requires(f, (i,)),
        ensures
            Self::remapped(f, *old(self), *final(self)),
            mapped(f, old(self).pos_pos, final(self).pos_pos),
            mapped(f, old(self).neg_neg, final(self).neg_neg),
            mapped_pair(f, old(self).off_diagonals, final(self).off_diagonals),
    {
        let mut f = f;
        self.pos_pos = match self.pos_pos {
            Some(i) => Some(f(i)),
            None => None,
        };
        self.neg_neg = match self.neg_neg {
            Some(i) => Some(f(i)),
            None => None,
        };
        self.off_diagonals = match self.off_diagonals {
            Some((pos_neg, neg_pos)) => Some((f(pos_neg), f(neg_pos))),
            None => None,
        };
    }
}

/// The index `v` for the position (row, column) of two optional nodes: taken
/// from `entry` when both are present, none otherwise.
pub open spec fn opt_entry<F: FnMut(usize, usize) -> Result<usize, E>, E>(entry: F, row: Option<usize>, col: Option<usize>, v: Option<usize>) -> bool {
    match (row, col) {
        (Some(r), Some(c)) => v matches Some(x) && entry_gives(entry, r, c, x),
        _ => v is None,
    }
}

/// `entry` may fail with `e` at the position of two present nodes.
pub open spec fn opt_fails<F: FnMut(usize, usize) -> Result<usize, E>, E>(entry: F, row: Option<usize>, col: Option<usize>, e: E) -> bool {
    row matches Some(r) && col matches Some(c) && entry_fails(entry, r, c, e)
}

/// `entry` may fail with `err` at one of the positions of a node triplet.
pub open spec fn triplet_fails<F: FnMut(usize, usize) -> Result<usize, E>, E>(entry: F, b: Option<usize>, c: Option<usize>, e: Option<usize>, err: E) -> bool {
    ||| opt_fails(entry, b, b, err)
    ||| opt_fails(entry, b, c, err)
    ||| opt_fails(entry, b, e, err)
    ||| opt_fails(entry, c, b, err)
    ||| opt_fails(entry, c, c, err)
    ||| opt_fails(entry, c, e, err)
    ||| opt_fails(entry, e, b, err)
    ||| opt_fails(entry, e, c, err)
    ||| opt_fails(entry, e, e, err)
}

/// Cached MNA stamp indices for a 3-terminal device (base/collector/emitter).
///
/// Field names use row-first notation: `bc` means row=base, col=collector.
#[derive(Debug, Clone)]
pub struct NodeTripletStamp {
    pub bb: Option<usize>,
    pub cc: Option<usize>,
    pub ee: Option<usize>,
    pub bc: Option<usize>,
    pub cb: Option<usize>,
    pub ce: Option<usize>,
    pub ec: Option<usize>,
    pub be: Option<usize>,
    pub eb: Option<usize>,
}

impl NodeTripletStamp {

    /// Every index of `before` mapped through `f` gives the one of `after`.
    pub open spec fn remapped<F: FnMut(usize) -> usize>(f: F, before: Self, after: Self) -> bool {
        &&& mapped(f, before.bb, after.bb)
        &&& mapped(f, before.bc, after.bc)
        &&& mapped(f, before.be, after.be)
        &&& mapped(f, before.cb, after.cb)
        &&& mapped(f, before.cc, after.cc)
        &&& mapped(f, before.ce, after.ce)
        &&& mapped(f, before.eb, after.eb)
        &&& mapped(f, before.ec, after.ec)
        &&& mapped(f, before.ee, after.ee)
    }

    /// Two calls of `set_final_indices`, with `f` and then `g`, leave the
    /// stamp as one call with `h` does, when `h` is `g` after `f`.
    pub proof fn lemma_final_indices_compose<F: FnMut(usize) -> usize, G: FnMut(usize) -> usize, H: FnMut(usize) -> usize>(
        f: F,
        g: G,
        h: H,
        s0: Self,
        s1: Self,
        s2: Self,
        t: Self,
    )
        requires
            composes(f, g, h),
            Self::remapped(f, s0, s1),
            Self::remapped(g, s1, s2),
            Self::remapped(h, s0, t),
        ensures
            s2 == t,
    {
        lemma_mapped_compose(f, g, h, s0.bb, s1.bb, s2.bb, t.bb);
        lemma_mapped_compose(f, g, h, s0.bc, s1.bc, s2.bc, t.bc);
        lemma_mapped_compose(f, g, h, s0.be, s1.be, s2.be, t.be);
        lemma_mapped_compose(f, g, h, s0.cb, s1.cb, s2.cb, t.cb);
        lemma_mapped_compose(f, g, h, s0.cc, s1.cc, s2.cc, t.cc);
        lemma_mapped_compose(f, g, h, s0.ce, s1.ce, s2.ce, t.ce);
        lemma_mapped_compose(f, g, h, s0.eb, s1.eb, s2.eb, t.eb);
        lemma_mapped_compose(f, g, h, s0.ec, s1.ec, s2.ec, t.ec);
        lemma_mapped_compose(f, g, h, s0.ee, s1.ee, s2.ee, t.ee);
    }

    /// `set_final_indices` with a mapping that keeps every index leaves the
    /// stamp unchanged.
    pub proof fn lemma_final_indices_keep<F: FnMut(usize) -> usize>(f: F, s0: Self, s1: Self)
        requires
            keeps_indices(f),
            Self::remapped(f, s0, s1),
        ensures
            s1 == s0,
    {
    }
    /// Create a stamp with no indices assigned yet.
    pub fn uninitialized() -> (r: Self)
        ensures
            r.bb is None,
            r.bc is None,
            r.be is None,
            r.cb is None,
            r.cc is None,
            r.ce is None,
            r.eb is None,
            r.ec is None,
            r.ee is None,
    {
        Self {
            bb: None,
            bc: None,
            be: None,
            cb: None,
            cc: None,
            ce: None,
            eb: None,
            ec: None,
            ee: None,
        }
    }

    /// Set the temporary indices produced during pattern construction.
    ///
    /// For sparse (KLU), these are COO entry indices returned by the pattern builder.
    /// For dense (BLAS), these can be the final dense linear indices.
    pub fn set_temp_indices(
        &mut self,
        bb: Option<usize>,
        bc: Option<usize>,
        be: Option<usize>,
        cb: Option<usize>,
        cc: Option<usize>,
        ce: Option<usize>,
        eb: Option<usize>,
        ec: Option<usize>,
        ee: Option<usize>,
    )
        ensures
            final(self).bb == bb,
            final(self).bc == bc,
            final(self).be == be,
            final(self).cb == cb,
            final(self).cc == cc,
            final(self).ce == ce,
            final(self).eb == eb,
            final(self).ec == ec,
            final(self).ee == ee,
    {
        self.bb = bb;
        self.bc = bc;
        self.be = be;
        self.cb = cb;
        self.cc = cc;
        self.ce = ce;
        self.eb = eb;
        self.ec = ec;
        self.ee = ee;
    }

    /// Compute and set temporary indices from node locations.
    ///
    /// The `entry` callback receives (row, column) to match the row-first field naming.
    /// The first error of `entry` is returned and leaves the stamp unchanged.
    pub fn set_temp_indices_from_nodes<F, E>(
        &mut self,
        b: Option<usize>,
        c: Option<usize>,
        e: Option<usize>,
        entry: F,
    ) -> (r: Result<(), E>) where F: FnMut(usize, usize) -> Result<usize, E>
        requires
            forall|x: usize, y: usize| call_requires(entry, (x, y)),
        ensures
            r is Ok ==> {
                &&& opt_entry(entry, b, b, final(self).bb)
                &&& opt_entry(entry, b, c, final(self).bc)
                &&& opt_entry(entry, b, e, final(self).be)
                &&& opt_entry(entry, c, b, final(self).cb)
                &&& opt_entry(entry, c, c, final(self).cc)
                &&& opt_entry(entry, c, e, final(self).ce)
                &&& opt_entry(entry, e, b, final(self).eb)
                &&& opt_entry(entry, e, c, final(self).ec)
                &&& opt_entry(entry, e, e, final(self).ee)
            },
            r is Err ==> *final(self) == *old(self),
            r is Err ==> triplet_fails(entry, b, c, e, r->Err_0),
    {
        let mut call = entry;
        let mut bb: Option<usize> = None;
        if let (Some(r), Some(c)) = (b, b) {
            match call(r, c) {
                Ok(v) => bb = Some(v),
                Err(err) => return Err(err),
            }
        }
        let mut bc: Option<usize> = None;
        if let (Some(r), Some(c)) = (b, c) {
            match call(r, c) {
                Ok(v) => bc = Some(v),
                Err(err) => return Err(err),
            }
        }
        let mut be: Option<usize> = None;
        if let (Some(r), Some(c)) = (b, e) {
            match call(r, c) {
                Ok(v) => be = Some(v),
                Err(err) => return Err(err),
            }
        }
        let mut cb: Option<usize> = None;
        if let (Some(r), Some(c)) = (c, b) {
            match call(r, c) {
                Ok(v) => cb = Some(v),
                Err(err) => return Err(err),
            }
        }
        let mut cc: Option<usize> = None;
        if let (Some(r), Some(c)) = (c, c) {
            match call(r, c) {
                Ok(v) => cc = Some(v),
                Err(err) => return Err(err),
            }
        }
        let mut ce: Option<usize> = None;
        if let (Some(r), Some(c)) = (c, e) {
            match call(r, c) {
                Ok(v) => ce = Some(v),
                Err(err) => return Err(err),
            }
        }
        let mut eb: Option<usize> = None;
        if let (Some(r), Some(c)) = (e, b) {
            match call(r, c) {
                Ok(v) => eb = Some(v),
                Err(err) => return Err(err),
            }
        }
        let mut ec: Option<usize> = None;
        if let (Some(r), Some(c)) = (e, c) {
            match call(r, c) {
                Ok(v) => ec = Some(v),
                Err(err) => return Err(err),
            }
        }
        let mut ee: Option<usize> = None;
        if let (Some(r), Some(c)) = (e, e) {
            match call(r, c) {
                Ok(v) => ee = Some(v),
                Err(err) => return Err(err),
            }
        }
        self.set_temp_indices(bb, bc, be, cb, cc, ce, eb, ec, ee);
        Ok(())
    }

    /// Map temporary indices to their final locations using the provided mapping.
    pub fn set_final_indices<F>(&mut self, f: F) where F: FnMut(usize) -> usize
        requires
            forall|i: usize| call_requires(f, (i,)),
        ensures
            Self::remapped(f, *old(self), *final(self)),
            mapped(f, old(self).bb, final(self).bb),
            mapped(f, old(self).bc, final(self).bc),
            mapped(f, old(self).be, final(self).be),
            mapped(f, old(self).cb, final(self).cb),
            mapped(f, old(self).cc, final(self).cc),
            mapped(f, old(self).ce, final(self).ce),
            mapped(f, old(self).eb, final(self).eb),
            mapped(f, old(self).ec, final(self).ec),
            mapped(f, old(self).ee, final(self).ee),
    {
        let mut f = f;
        self.bb = match self.bb {
            Some(i) => Some(f(i)),
            None => None,
        };
        self.bc = match self.bc {
            Some(i) => Some(f(i)),
            None => None,
        };
        self.be = match self.be {
            Some(i) => Some(f(i)),
            None => None,
        };
        self.cb = match self.cb {
            Some(i) => Some(f(i)),
            None => None,
        };
        self.cc = match self.cc {
            Some(i) => Some(f(i)),
            None => None,
        };
        self.ce = match self.ce {
            Some(i) => Some(f(i)),
            None => None,
        };
        self.eb = match self.eb {
            Some(i) => Some(f(i)),
            None => None,
        };
        self.ec = match self.ec {
            Some(i) => Some(f(i)),
            None => None,
        };
        self.ee = match self.ee {
            Some(i) => Some(f(i)),
            None => None,
        };
    }
}

/// The index pair at the positions (node, branch) and (branch, node) of an
/// optional node, taken from `entry`.
pub open spec fn branch_from<F: FnMut(usize, usize) -> Result<usize, E>, E>(entry: F, node: Option<usize>, branch: usize, v: Option<(usize, usize)>) -> bool {
    match node {
        Some(p) => v matches Some((x, y)) && entry_gives(entry, p, branch, x) && entry_gives(entry, branch, p, y),
        None => v is None,
    }
}

/// `entry` may fail with `e` at a position that a node-branch coupling asks for.
pub open spec fn branch_fails<F: FnMut(usize, usize) -> Result<usize, E>, E>(entry: F, node: Option<usize>, branch: usize, e: E) -> bool {
    node matches Some(p) && (entry_fails(entry, p, branch, e) || entry_fails(entry, branch, p, e))
}

/// Cached MNA stamp indices for a device with a branch current (such as an
/// inductor): the couplings of its two nodes to the branch, and the branch
/// diagonal (`usize::MAX` while unassigned).
#[derive(Debug, Clone)]
pub struct NodeBranchPairStamp {
    // (pos, branch), (branch, pos)
    pub pos_branch: Option<(usize, usize)>,
    // (neg, branch), (branch, neg)
    pub neg_branch: Option<(usize, usize)>,
    pub branch_branch: usize,
}

impl NodeBranchPairStamp {

    /// Every index of `before` mapped through `f` gives the one of `after`.
    pub open spec fn remapped<F: FnMut(usize) -> usize>(f: F, before: Self, after: Self) -> bool {
        &&& mapped_pair(f, before.pos_branch, after.pos_branch)
        &&& mapped_pair(f, before.neg_branch, after.neg_branch)
        &&& mapped_index(f, before.branch_branch, after.branch_branch)
    }

    /// Two calls of `set_final_indices`, with `f` and then `g`, leave the
    /// stamp as one call with `h` does, when `h` is `g` after `f` and `f`
    /// never gives the sentinel `usize::MAX`.
    pub proof fn lemma_final_indices_compose<F: FnMut(usize) -> usize, G: FnMut(usize) -> usize, H: FnMut(usize) -> usize>(
        f: F,
        g: G,
        h: H,
        s0: Self,
        s1: Self,
        s2: Self,
        t: Self,
    )
        requires
            composes(f, g, h),
            forall|i: usize, r: usize| #[trigger] call_ensures(f, (i,), r) ==> r != usize::MAX,
            Self::remapped(f, s0, s1),
            Self::remapped(g, s1, s2),
            Self::remapped(h, s0, t),
        ensures
            s2 == t,
    {
        lemma_mapped_pair_compose(f, g, h, s0.pos_branch, s1.pos_branch, s2.pos_branch, t.pos_branch);
        lemma_mapped_pair_compose(f, g, h, s0.neg_branch, s1.neg_branch, s2.neg_branch, t.neg_branch);
        lemma_mapped_index_compose(f, g, h, s0.branch_branch, s1.branch_branch, s2.branch_branch, t.branch_branch);
    }

    /// `set_final_indices` with a mapping that keeps every index leaves the
    /// stamp unchanged.
    pub proof fn lemma_final_indices_keep<F: FnMut(usize) -> usize>(f: F, s0: Self, s1: Self)
        requires
            keeps_indices(f),
            Self::remapped(f, s0, s1),
        ensures
            s1 == s0,
    {
    }
    /// Create a stamp with no indices assigned yet.
    pub fn uninitialized() -> (r: Self)
        ensures
            r.pos_branch is None,
            r.neg_branch is None,
            r.branch_branch == usize::MAX,
    {
        Self { pos_branch: None, neg_branch: None, branch_branch: usize::MAX }
    }

    /// Set the temporary indices produced during pattern construction.
    ///
    /// For sparse (KLU), these are COO entry indices returned by the pattern builder.
    /// For dense (BLAS), these can be the final dense linear indices.
    pub fn set_temp_indices(
        &mut self,
        pos_branch: Option<(usize, usize)>,
        neg_branch: Option<(usize, usize)>,
        branch_branch: usize,
    )
        ensures
            final(self).pos_branch == pos_branch,
            final(self).neg_branch == neg_branch,
            final(self).branch_branch == branch_branch,
    {
        self.pos_branch = pos_branch;
        self.neg_branch = neg_branch;
        self.branch_branch = branch_branch;
    }

    /// Compute and set temporary indices from node and branch locations.
    ///
    /// The `entry` callback receives (column, row) to match `MatrixBuilder::push`.
    /// The first error of `entry` is returned and leaves the stamp unchanged.
    pub fn set_temp_indices_from_nodes<F, E>(
        &mut self,
        pos: Option<usize>,
        neg: Option<usize>,
        branch: usize,
        entry: F,
    ) -> (r: Result<(), E>) where F: FnMut(usize, usize) -> Result<usize, E>
        requires
            forall|x: usize, y: usize| call_requires(entry, (x, y)),
        ensures
            r is Ok ==> {
                &&& branch_from(entry, pos, branch, final(self).pos_branch)
                &&& branch_from(entry, neg, branch, final(self).neg_branch)
                &&& entry_gives(entry, branch, branch, final(self).branch_branch)
            },
            r is Err ==> *final(self) == *old(self),
            r is Err ==> branch_fails(entry, pos, branch, r->Err_0) || branch_fails(entry, neg, branch, r->Err_0)
                || entry_fails(entry, branch, branch, r->Err_0),
    {
        let mut call = entry;
        let mut pos_branch: Option<(usize, usize)> = None;
        if let Some(p) = pos {
            let x = match call(p, branch) {
                Ok(v) => v,
                Err(err) => return Err(err),
            };
            let y = match call(branch, p) {
                Ok(v) => v,
                Err(err) => return Err(err),
            };
            pos_branch = Some((x, y));
        }
        let mut neg_branch: Option<(usize, usize)> = None;
        if let Some(n) = neg {
            let x = match call(n, branch) {
                Ok(v) => v,
                Err(err) => return Err(err),
            };
            let y = match call(branch, n) {
                Ok(v) => v,
                Err(err) => return Err(err),
            };
            neg_branch = Some((x, y));
        }
        let branch_branch = match call(branch, branch) {
            Ok(v) => v,
            Err(err) => return Err(err),
        };
        self.set_temp_indices(pos_branch, neg_branch, branch_branch);
        Ok(())
    }

    /// Map temporary indices to their final locations using the provided mapping;
    /// an unassigned branch diagonal stays unassigned.
    pub fn set_final_indices<F>(&mut self, f: F) where F: FnMut(usize) -> usize
        requires
            forall|i: usize| call_requires(f, (i,)),
        ensures
            Self::remapped(f, *old(self), *final(self)),
            mapped_pair(f, old(self).pos_branch, final(self).pos_branch),
            mapped_pair(f, old(self).neg_branch, final(self).neg_branch),
            old(self).branch_branch == usize::MAX ==> final(self).branch_branch == usize::MAX,
            old(self).branch_branch != usize::MAX ==> call_ensures(f, (old(self).branch_branch,), final(self).branch_branch),
    {
        let mut f = f;
        self.pos_branch = match self.pos_branch {
            Some((pos_branch, branch_pos)) => Some((f(pos_branch), f(branch_pos))),
            None => None,
        };
        self.neg_branch = match self.neg_branch {
            Some((neg_branch, branch_neg)) => Some((f(neg_branch), f(branch_neg))),
            None => None,
        };
        if self.branch_branch != usize::MAX {
            self.branch_branch = f(self.branch_branch);
        }
    }
}

/// Cached MNA stamp indices for a voltage source: the couplings of its two
/// nodes to its branch current.
#[derive(Debug, Clone)]
pub struct NodeVoltageSourceStamp {
    // (pos, branch), (branch, pos)
    pub pos_branch: Option<(usize, usize)>,
    // (neg, branch), (branch, neg)
    pub neg_branch: Option<(usize, usize)>,
}

impl NodeVoltageSourceStamp {

    /// Every index of `before` mapped through `f` gives the one of `after`.
    pub open spec fn remapped<F: FnMut(usize) -> usize>(f: F, before: Self, after: Self) -> bool {
        &&& mapped_pair(f, before.pos_branch, after.pos_branch)
        &&& mapped_pair(f, before.neg_branch, after.neg_branch)
    }

    /// Two calls of `set_final_indices`, with `f` and then `g`, leave the
    /// stamp as one call with `h` does, when `h` is `g` after `f`.
    pub proof fn lemma_final_indices_compose<F: FnMut(usize) -> usize, G: FnMut(usize) -> usize, H: FnMut(usize) -> usize>(
        f: F,
        g: G,
        h: H,
        s0: Self,
        s1: Self,
        s2: Self,
        t: Self,
    )
        requires
            composes(f, g, h),
            Self::remapped(f, s0, s1),
            Self::remapped(g, s1, s2),
            Self::remapped(h, s0, t),
        ensures
            s2 == t,
    {
        lemma_mapped_pair_compose(f, g, h, s0.pos_branch, s1.pos_branch, s2.pos_branch, t.pos_branch);
        lemma_mapped_pair_compose(f, g, h, s0.neg_branch, s1.neg_branch, s2.neg_branch, t.neg_branch);
    }

    /// `set_final_indices` with a mapping that keeps every index leaves the
    /// stamp unchanged.
    pub proof fn lemma_final_indices_keep<F: FnMut(usize) -> usize>(f: F, s0: Self, s1: Self)
        requires
            keeps_indices(f),
            Self::remapped(f, s0, s1),
        ensures
            s1 == s0,
    {
    }
    /// Create a stamp with no indices assigned yet.
    pub fn uninitialized() -> (r: Self)
        ensures
            r.pos_branch is None,
            r.neg_branch is None,
    {
        Self { pos_branch: None, neg_branch: None }
    }

    /// Set the temporary indices produced during pattern construction.
    ///
    /// For sparse (KLU), these are COO entry indices returned by the pattern builder.
    /// For dense (BLAS), these can be the final dense linear indices.
    pub fn set_temp_indices(&mut self, pos_branch: Option<(usize, usize)>, neg_branch: Option<(usize, usize)>)
        ensures
            final(self).pos_branch == pos_branch,
            final(self).neg_branch == neg_branch,
    {
        self.pos_branch = pos_branch;
        self.neg_branch = neg_branch;
    }

    /// Compute and set temporary indices from node and branch locations.
    ///
    /// The `entry` callback receives (column, row) to match `MatrixBuilder::push`.
    /// The first error of `entry` is returned and leaves the stamp unchanged.
    pub fn set_temp_indices_from_nodes<F, E>(
        &mut self,
        pos: Option<usize>,
        neg: Option<usize>,
        branch: usize,
        entry: F,
    ) -> (r: Result<(), E>) where F: FnMut(usize, usize) -> Result<usize, E>
        requires
            forall|x: usize, y: usize| call_requires(entry, (x, y)),
        ensures
            r is Ok ==> {
                &&& branch_from(entry, pos, branch, final(self).pos_branch)
                &&& branch_from(entry, neg, branch, final(self).neg_branch)
            },
            r is Err ==> *final(self) == *old(self),
            r is Err ==> branch_fails(entry, pos, branch, r->Err_0) || branch_fails(entry, neg, branch, r->Err_0),
    {
        let mut call = entry;
        let mut pos_branch: Option<(usize, usize)> = None;
        if let Some(p) = pos {
            let x = match call(p, branch) {
                Ok(v) => v,
                Err(err) => return Err(err),
            };
            let y = match call(branch, p) {
                Ok(v) => v,
                Err(err) => return Err(err),
            };
            pos_branch = Some((x, y));
        }
        let mut neg_branch: Option<(usize, usize)> = None;
        if let Some(n) = neg {
            let x = match call(n, branch) {
                Ok(v) => v,
                Err(err) => return Err(err),
            };
            let y = match call(branch, n) {
                Ok(v) => v,
                Err(err) => return Err(err),
            };
            neg_branch = Some((x, y));
        }
        self.set_temp_indices(pos_branch, neg_branch);
        Ok(())
    }

    /// Map temporary indices to their final locations using the provided mapping.
    pub fn set_final_indices<F>(&mut self, f: F) where F: FnMut(usize) -> usize
        requires
            forall|i: usize| call_requires(f, (i,)),
        ensures
            Self::remapped(f, *old(self), *final(self)),
            mapped_pair(f, old(self).pos_branch, final(self).pos_branch),
            mapped_pair(f, old(self).neg_branch, final(self).neg_branch),
    {
        let mut f = f;
        self.pos_branch = match self.pos_branch {
            Some((pos_branch, branch_pos)) => Some((f(pos_branch), f(branch_pos))),
            None => None,
        };
        self.neg_branch = match self.neg_branch {
            Some((neg_branch, branch_neg)) => Some((f(neg_branch), f(branch_neg))),
            None => None,
        };
    }
}

} // verus!
