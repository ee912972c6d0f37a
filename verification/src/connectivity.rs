//! What it means for two cells of a labelled grid to be connected.

use crate::vec_2d::Index2d;
use vstd::prelude::*;

verus! {

/// Two coordinates are side by side: one step apart along a row or a column.
pub open spec fn adjacent(a: Index2d, b: Index2d) -> bool {
    ||| a.1 == b.1 && (a.0 + 1 == b.0 || b.0 + 1 == a.0)
    ||| a.0 == b.0 && (a.1 + 1 == b.1 || b.1 + 1 == a.1)
}

/// Both coordinates are labelled, and with the same label.
pub open spec fn alike<T>(labels: Map<Index2d, T>, a: Index2d, b: Index2d) -> bool {
    labels.dom().contains(a) && labels.dom().contains(b) && labels[a] == labels[b]
}

/// Two neighbouring cells that carry the same label.
pub open spec fn joined<T>(labels: Map<Index2d, T>, a: Index2d, b: Index2d) -> bool {
    adjacent(a, b) && alike(labels, a, b)
}

/// Step `i` of a path goes between joined cells.
pub open spec fn chain_step<T>(labels: Map<Index2d, T>, path: Seq<Index2d>, i: int) -> bool {
    joined(labels, path[i], path[i + 1])
}

/// A non-empty path each of whose steps goes between joined cells.
pub open spec fn is_chain<T>(labels: Map<Index2d, T>, path: Seq<Index2d>) -> bool {
    &&& path.len() > 0
    &&& forall|i: int| 0 <= i < path.len() - 1 ==> #[trigger] chain_step(labels, path, i)
}

/// A chain that starts at `a` and ends at `b`.
pub open spec fn chain_between<T>(
    labels: Map<Index2d, T>,
    path: Seq<Index2d>,
    a: Index2d,
    b: Index2d,
) -> bool {
    is_chain(labels, path) && path[0] == a && path[path.len() - 1] == b
}

/// `a` and `b` are linked by a chain of neighbouring cells of one label.
/// Every coordinate is connected to itself.
pub open spec fn connected<T>(labels: Map<Index2d, T>, a: Index2d, b: Index2d) -> bool {
    exists|path: Seq<Index2d>| #[trigger] chain_between(labels, path, a, b)
}

/// Connectivity is reflexive.
pub proof fn lemma_connected_refl<T>(labels: Map<Index2d, T>, a: Index2d)
    ensures
        connected(labels, a, a),
{
    assert(chain_between(labels, seq![a], a, a));
}

/// Joined cells are connected.
pub proof fn lemma_connected_step<T>(labels: Map<Index2d, T>, a: Index2d, b: Index2d)
    requires
        joined(labels, a, b),
    ensures
        connected(labels, a, b),
{
    let path = seq![a, b];
    assert forall|i: int| 0 <= i < path.len() - 1 implies #[trigger] chain_step(labels, path, i) by {
        assert(i == 0);
    }
    assert(chain_between(labels, path, a, b));
}

/// Connectivity is symmetric.
pub proof fn lemma_connected_sym<T>(labels: Map<Index2d, T>, a: Index2d, b: Index2d)
    requires
        connected(labels, a, b),
    ensures
        connected(labels, b, a),
{
    let path = choose|path: Seq<Index2d>| #[trigger] chain_between(labels, path, a, b);
    let back = path.reverse();
    assert forall|i: int| 0 <= i < back.len() - 1 implies #[trigger] chain_step(labels, back, i) by {
        let j = path.len() - 2 - i;
        assert(chain_step(labels, path, j));
        assert(back[i] == path[j + 1]);
        assert(back[i + 1] == path[j]);
    }
    assert(chain_between(labels, back, b, a));
}

/// Connectivity is transitive.
pub proof fn lemma_connected_trans<T>(labels: Map<Index2d, T>, a: Index2d, b: Index2d, c: Index2d)
    requires
        connected(labels, a, b),
        connected(labels, b, c),
    ensures
        connected(labels, a, c),
{
    let first = choose|path: Seq<Index2d>| #[trigger] chain_between(labels, path, a, b);
    let second = choose|path: Seq<Index2d>| #[trigger] chain_between(labels, path, b, c);
    let rest = second.subrange(1, second.len() as int);
    let whole = first + rest;
    assert forall|i: int| 0 <= i < whole.len() - 1 implies #[trigger] chain_step(labels, whole, i) by {
        if i < first.len() - 1 {
            assert(chain_step(labels, first, i));
        } else {
            let j = i - (first.len() - 1);
            assert(chain_step(labels, second, j));
            assert(whole[i + 1] == second[j + 1]);
            assert(whole[i] == second[j]);
        }
    }
    assert(chain_between(labels, whole, a, c));
}

/// Connected cells carry the same label, unless they are one and the same.
pub proof fn lemma_connected_alike<T>(labels: Map<Index2d, T>, a: Index2d, b: Index2d)
    requires
        connected(labels, a, b),
    ensures
        a == b || alike(labels, a, b),
{
    let path = choose|path: Seq<Index2d>| #[trigger] chain_between(labels, path, a, b);
    if path.len() > 1 {
        lemma_chain_alike(labels, path, path.len() - 1);
    }
}

/// Every cell of a chain with at least one step carries the label of the first.
pub proof fn lemma_chain_alike<T>(labels: Map<Index2d, T>, path: Seq<Index2d>, i: int)
    requires
        is_chain(labels, path),
        path.len() > 1,
        0 <= i < path.len(),
    ensures
        alike(labels, path[0], path[i]),
    decreases i,
{
    if i == 0 {
        assert(chain_step(labels, path, 0));
    } else {
        lemma_chain_alike(labels, path, i - 1);
        assert(chain_step(labels, path, i - 1));
    }
}

} // verus!
