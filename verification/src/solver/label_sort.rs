use vstd::prelude::*;

verus! {

// Ordering items by a label with a counting sort: item `x` of label `b` goes
// to place `label_start(b) + (number of earlier items labelled b)`.

/// Number of nodes below `upto` labelled `b`.
pub open spec fn count_label(vis: Seq<usize>, b: int, upto: int) -> nat
    decreases upto,
{
    if upto <= 0 {
        0
    } else {
        count_label(vis, b, upto - 1) + (if vis[upto - 1] == b {
            1nat
        } else {
            0nat
        })
    }
}

/// Number of nodes below `upto` labelled below `b`: where block `b` starts
/// when the nodes are ordered by label.
pub open spec fn label_start(vis: Seq<usize>, upto: int, b: int) -> nat
    decreases b,
{
    if b <= 0 {
        0
    } else {
        label_start(vis, upto, b - 1) + count_label(vis, b - 1, upto)
    }
}

/// The place of node `x` when the nodes are ordered by label, ties by number.
#[verifier::opaque]
pub open spec fn label_pos(vis: Seq<usize>, n: int, x: int) -> int {
    (label_start(vis, n, vis[x] as int) + count_label(vis, vis[x] as int, x)) as int
}

pub proof fn lemma_count_mono(vis: Seq<usize>, b: int, i: int, j: int)
    requires
        0 <= i <= j,
    ensures
        count_label(vis, b, i) <= count_label(vis, b, j),
        count_label(vis, b, j) <= count_label(vis, b, i) + (j - i),
    decreases j - i,
{
    if i < j {
        lemma_count_mono(vis, b, i, j - 1);
    }
}

/// A node labelled `b` comes after all the earlier nodes labelled `b`.
pub proof fn lemma_count_strict(vis: Seq<usize>, b: int, i: int, j: int)
    requires
        0 <= i < j,
        vis[i] == b,
    ensures
        count_label(vis, b, i) < count_label(vis, b, j),
{
    lemma_count_mono(vis, b, i + 1, j);
}

/// Every count below the total is the count before some node of the label.
pub proof fn lemma_count_hit(vis: Seq<usize>, b: int, upto: int, k: int)
    requires
        0 <= k < count_label(vis, b, upto),
    ensures
        exists|x: int| 0 <= x < upto && vis[x] == b && #[trigger] count_label(vis, b, x) == k,
    decreases upto,
{
    if upto > 0 {
        if k < count_label(vis, b, upto - 1) {
            lemma_count_hit(vis, b, upto - 1, k);
            let x = choose|x: int| 0 <= x < upto - 1 && vis[x] == b && #[trigger] count_label(vis, b, x) == k;
            assert(0 <= x < upto && vis[x] == b && count_label(vis, b, x) == k);
        } else {
            assert(count_label(vis, b, upto - 1) == k);
        }
    }
}

pub proof fn lemma_start_mono(vis: Seq<usize>, upto: int, b1: int, b2: int)
    requires
        0 <= b1 <= b2,
    ensures
        label_start(vis, upto, b1) <= label_start(vis, upto, b2),
    decreases b2 - b1,
{
    if b1 < b2 {
        lemma_start_mono(vis, upto, b1, b2 - 1);
    }
}

/// One more node moves the start of every block above its label by one.
pub proof fn lemma_start_step(vis: Seq<usize>, upto: int, b: int)
    requires
        0 <= upto,
        0 <= b,
    ensures
        label_start(vis, upto + 1, b) == label_start(vis, upto, b) + (if vis[upto] < b {
            1int
        } else {
            0int
        }),
    decreases b,
{
    if b > 0 {
        lemma_start_step(vis, upto, b - 1);
    }
}

/// With no nodes, every block starts at place 0.
pub proof fn lemma_start_zero(vis: Seq<usize>, b: int)
    requires
        0 <= b,
    ensures
        label_start(vis, 0, b) == 0,
    decreases b,
{
    if b > 0 {
        lemma_start_zero(vis, b - 1);
    }
}

/// When every label is below `nb`, the blocks fill all the places.
pub proof fn lemma_start_total(vis: Seq<usize>, upto: int, nb: int)
    requires
        0 <= upto <= vis.len(),
        0 <= nb,
        forall|x: int| 0 <= x < upto ==> #[trigger] vis[x] < nb,
    ensures
        label_start(vis, upto, nb) == upto,
    decreases upto,
{
    if upto > 0 {
        lemma_start_total(vis, upto - 1, nb);
        lemma_start_step(vis, upto - 1, nb);
        assert(vis[upto - 1] < nb);
    } else {
        lemma_start_zero(vis, nb);
    }
}

/// A place below the total lies in exactly one block.
pub proof fn lemma_start_find(vis: Seq<usize>, n: int, nb: int, k: int)
    requires
        0 <= nb,
        0 <= k < label_start(vis, n, nb),
    ensures
        exists|b: int| 0 <= b < nb && label_start(vis, n, b) <= k < #[trigger] label_start(vis, n, b + 1),
    decreases nb,
{
    if k < label_start(vis, n, nb - 1) {
        lemma_start_find(vis, n, nb - 1, k);
        let b = choose|b: int| 0 <= b < nb - 1 && label_start(vis, n, b) <= k < #[trigger] label_start(vis, n, b + 1);
        assert(0 <= b < nb && label_start(vis, n, b) <= k < label_start(vis, n, b + 1));
    } else {
        let b = nb - 1;
        assert(label_start(vis, n, b) <= k < label_start(vis, n, b + 1));
    }
}

/// The place of a node lies within its block.
pub proof fn lemma_pos_range(vis: Seq<usize>, n: int, x: int)
    requires
        0 <= x < n,
    ensures
        label_start(vis, n, vis[x] as int) <= label_pos(vis, n, x) < label_start(vis, n, vis[x] + 1),
{
    reveal(label_pos);
    lemma_count_strict(vis, vis[x] as int, x, n);
}

/// Different nodes have different places.
pub proof fn lemma_pos_distinct(vis: Seq<usize>, n: int, x: int, y: int)
    requires
        0 <= x < y < n,
    ensures
        label_pos(vis, n, x) != label_pos(vis, n, y),
{
    reveal(label_pos);
    lemma_pos_range(vis, n, x);
    lemma_pos_range(vis, n, y);
    if vis[x] == vis[y] {
        lemma_count_strict(vis, vis[x] as int, x, y);
    } else if vis[x] < vis[y] {
        lemma_start_mono(vis, n, vis[x] + 1, vis[y] as int);
    } else {
        lemma_start_mono(vis, n, vis[y] + 1, vis[x] as int);
    }
}

/// Every place below `n` is the place of some node.
pub proof fn lemma_pos_onto(vis: Seq<usize>, n: int, nb: int, k: int)
    requires
        0 <= nb,
        label_start(vis, n, nb) == n,
        0 <= k < n,
    ensures
        exists|x: int| 0 <= x < n && #[trigger] label_pos(vis, n, x) == k,
{
    reveal(label_pos);
    lemma_start_find(vis, n, nb, k);
    let b = choose|b: int| 0 <= b < nb && label_start(vis, n, b) <= k < #[trigger] label_start(vis, n, b + 1);
    let j = k - label_start(vis, n, b);
    lemma_count_hit(vis, b, n, j);
    let x = choose|x: int| 0 <= x < n && vis[x] == b && #[trigger] count_label(vis, b, x) == j;
    assert(label_pos(vis, n, x) == k);
}

/// Every place below `n` holds the node placed there.
pub proof fn lemma_place_hit(vis: Seq<usize>, rp: Seq<isize>, n: int, nb: int, k: int)
    requires
        0 <= nb,
        label_start(vis, n, nb) == n,
        0 <= k < n,
        forall|x: int| 0 <= x < n ==> #[trigger] rp[label_pos(vis, n, x)] == x,
    ensures
        exists|x: int| 0 <= x < n && label_pos(vis, n, x) == k && rp[k] == x,
{
    reveal(label_pos);
    lemma_start_find(vis, n, nb, k);
    let b = choose|b: int| 0 <= b < nb && label_start(vis, n, b) <= k < #[trigger] label_start(vis, n, b + 1);
    let j = k - label_start(vis, n, b);
    lemma_count_hit(vis, b, n, j);
    let x = choose|x: int| 0 <= x < n && vis[x] == b && #[trigger] count_label(vis, b, x) == j;
    assert(label_pos(vis, n, x) == k);
    assert(rp[label_pos(vis, n, x)] == x);
}

/// A node placed within block `b` carries label `b`.
pub proof fn lemma_place_label(vis: Seq<usize>, n: int, x: int, b: int)
    requires
        0 <= x < n,
        0 <= b,
        label_start(vis, n, b) <= label_pos(vis, n, x) < label_start(vis, n, b + 1),
    ensures
        vis[x] == b,
{
    reveal(label_pos);
    lemma_pos_range(vis, n, x);
    if vis[x] < b {
        lemma_start_mono(vis, n, vis[x] + 1, b);
    } else if vis[x] > b {
        lemma_start_mono(vis, n, b + 1, vis[x] as int);
    }
}

} // verus!
