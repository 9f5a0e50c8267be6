//! All-pairs distances over the adjacency matrix, by relaxation to a fixed point.

use vstd::prelude::*;

verus! {

/// Distance recorded between two rooms that no walk joins.
pub const UNREACHABLE: i32 = 999;

/// Largest side of a board matrix.
pub const MAX_DIM: usize = 4096;

pub open spec fn square<T>(m: Seq<Vec<T>>, dim: int) -> bool {
    m.len() == dim && forall|i: int| 0 <= i < dim ==> (#[trigger] m[i])@.len() == dim
}

pub open spec fn cell<T>(m: Seq<Vec<T>>, i: int, j: int) -> T {
    m[i]@[j]
}

/// Every entry is a distance the graph supports: zero on the diagonal, one
/// along an edge, and elsewhere the sentinel or no less than a route through
/// some third room. With `relaxed` this makes every entry between rooms other
/// than room 0 the length of a shortest walk, or the sentinel.
pub open spec fn supported(adj: Seq<Vec<bool>>, d: Seq<Vec<i32>>, dim: int) -> bool {
    forall|s: int, t: int| 0 <= s < dim && 0 <= t < dim ==> supported_at(adj, d, dim, s, t)
}

pub open spec fn supported_at(adj: Seq<Vec<bool>>, d: Seq<Vec<i32>>, dim: int, s: int, t: int) -> bool {
    &&& (s == t ==> cell(d, s, t) == 0)
    &&& (s != t && cell(adj, s, t) ==> cell(d, s, t) == 1)
    &&& (s != t ==> {
        &&& 1 <= cell(d, s, t) <= UNREACHABLE
        &&& (cell(d, s, t) == UNREACHABLE
            || (cell(d, s, t) == 1 && cell(adj, s, t))
            || (cell(d, s, t) >= 2 && exists|i: int| routed_via(d, dim, s, t, i)))
    })
}

pub open spec fn routed_via(d: Seq<Vec<i32>>, dim: int, s: int, t: int, i: int) -> bool {
    1 <= i < dim && i != s && i != t && cell(d, s, i) + cell(d, i, t) <= cell(d, s, t)
}

/// No route through a third room (other than room 0) is shorter than an entry.
pub open spec fn relaxed(d: Seq<Vec<i32>>, dim: int) -> bool {
    forall|s: int, t: int, i: int|
        1 <= s < dim && 1 <= t < dim && 1 <= i < dim ==> cell(d, s, t) <= cell(d, s, i) + cell(d, i, t)
}

pub open spec fn row_sum(r: Seq<i32>) -> int
    decreases r.len(),
{
    if r.len() == 0 { 0 } else { row_sum(r.drop_last()) + r.last() as int }
}

pub open spec fn matrix_sum(m: Seq<Vec<i32>>) -> int
    decreases m.len(),
{
    if m.len() == 0 { 0 } else { matrix_sum(m.drop_last()) + row_sum(m.last()@) }
}

proof fn lemma_row_sum_update(r: Seq<i32>, j: int, v: i32)
    requires
        0 <= j < r.len(),
    ensures
        row_sum(r.update(j, v)) == row_sum(r) - r[j] + v,
    decreases r.len(),
{
    let u = r.update(j, v);
    if j == r.len() - 1 {
        assert(u.drop_last() =~= r.drop_last());
    } else {
        assert(u.drop_last() =~= r.drop_last().update(j, v));
        lemma_row_sum_update(r.drop_last(), j, v);
    }
}

proof fn lemma_matrix_sum_update(m: Seq<Vec<i32>>, i: int, row: Vec<i32>)
    requires
        0 <= i < m.len(),
    ensures
        matrix_sum(m.update(i, row)) == matrix_sum(m) - row_sum(m[i]@) + row_sum(row@),
    decreases m.len(),
{
    let u = m.update(i, row);
    if i == m.len() - 1 {
        assert(u.drop_last() =~= m.drop_last());
    } else {
        assert(u.drop_last() =~= m.drop_last().update(i, row));
        lemma_matrix_sum_update(m.drop_last(), i, row);
    }
}

proof fn lemma_row_sum_nonneg(r: Seq<i32>)
    requires
        forall|j: int| 0 <= j < r.len() ==> r[j] >= 0,
    ensures
        row_sum(r) >= 0,
    decreases r.len(),
{
    if r.len() > 0 {
        lemma_row_sum_nonneg(r.drop_last());
    }
}

proof fn lemma_matrix_sum_nonneg(m: Seq<Vec<i32>>, dim: int)
    requires
        square(m, dim),
        forall|s: int, t: int| 0 <= s < dim && 0 <= t < dim ==> cell(m, s, t) >= 0,
    ensures
        matrix_sum(m) >= 0,
{
    lemma_matrix_sum_nonneg_prefix(m, dim, dim);
}

proof fn lemma_matrix_sum_nonneg_prefix(m: Seq<Vec<i32>>, k: int, dim: int)
    requires
        m.len() == k,
        k <= dim,
        forall|i: int| 0 <= i < k ==> (#[trigger] m[i])@.len() == dim,
        forall|s: int, t: int| 0 <= s < k && 0 <= t < dim ==> cell(m, s, t) >= 0,
    ensures
        matrix_sum(m) >= 0,
    decreases m.len(),
{
    if m.len() > 0 {
        let last = m.len() - 1;
        assert forall|j: int| 0 <= j < m.last()@.len() implies m.last()@[j] >= 0 by {
            assert(cell(m, last, j) >= 0);
        }
        lemma_row_sum_nonneg(m.last()@);
        let p = m.drop_last();
        assert forall|s: int, t: int| 0 <= s < last && 0 <= t < dim implies cell(p, s, t) >= 0 by {
            assert(cell(m, s, t) >= 0);
        }
        assert forall|i: int| 0 <= i < last implies (#[trigger] p[i])@.len() == dim by {
            assert(m[i]@.len() == dim);
        }
        lemma_matrix_sum_nonneg_prefix(p, last, dim);
    }
}

proof fn lemma_lowered_supported(adj: Seq<Vec<bool>>, d: Seq<Vec<i32>>, e: Seq<Vec<i32>>, dim: int, s: int, t: int, i: int)
    requires
        square(adj, dim),
        square(d, dim),
        square(e, dim),
        supported(adj, d, dim),
        0 <= s < dim,
        0 <= t < dim,
        s != t,
        routed_via(d, dim, s, t, i),
        cell(d, s, i) + cell(d, i, t) < cell(d, s, t),
        cell(e, s, t) == cell(d, s, i) + cell(d, i, t),
        forall|a: int, b: int| 0 <= a < dim && 0 <= b < dim && (a != s || b != t) ==> cell(e, a, b) == cell(d, a, b),
    ensures
        supported(adj, e, dim),
{
    assert(supported_at(adj, d, dim, s, i));
    assert(supported_at(adj, d, dim, i, t));
    assert forall|a: int, b: int| 0 <= a < dim && 0 <= b < dim implies supported_at(adj, e, dim, a, b) by {
        assert(supported_at(adj, d, dim, a, b));
        if a == s && b == t {
            assert(routed_via(e, dim, s, t, i));
        } else if a != b && cell(d, a, b) >= 2 && cell(d, a, b) != UNREACHABLE && !(cell(d, a, b) == 1 && cell(adj, a, b)) {
            let w = choose|w: int| routed_via(d, dim, a, b, w);
            assert(cell(e, a, w) <= cell(d, a, w));
            assert(cell(e, w, b) <= cell(d, w, b));
            assert(routed_via(e, dim, a, b, w));
        }
    }
}

/// Shortest walk lengths over `adjacency`: zero on the diagonal, one along an
/// edge, `UNREACHABLE` where no walk exists. Rows and columns of room 0 are
/// never relaxed.
pub fn adjacency_to_distance(adjacency: &Vec<Vec<bool>>) -> (distance: Vec<Vec<i32>>)
    requires
        square(adjacency@, adjacency@.len() as int),
        1 <= adjacency@.len() <= MAX_DIM,
    ensures
        square(distance@, adjacency@.len() as int),
        supported(adjacency@, distance@, adjacency@.len() as int),
        relaxed(distance@, adjacency@.len() as int),
{
    let dim = adjacency.len();
    let ghost gdim = dim as int;
    let mut distance: Vec<Vec<i32>> = Vec::new();
    let mut r: usize = 0;
    while r < dim
        invariant
            r <= dim,
            dim == adjacency@.len(),
            square(adjacency@, gdim),
            distance@.len() == r,
            forall|i: int| 0 <= i < r ==> (#[trigger] distance@[i])@.len() == dim,
            forall|a: int, b: int| 0 <= a < r && 0 <= b < dim ==> cell(distance@, a, b) == (if a == b { 0i32 } else if cell(adjacency@, a, b) { 1i32 } else { UNREACHABLE }),
        decreases dim - r,
    {
        let mut row: Vec<i32> = Vec::new();
        let mut c: usize = 0;
        while c < dim
            invariant
                c <= dim,
                r < dim,
                dim == adjacency@.len(),
                square(adjacency@, gdim),
                row@.len() == c,
                forall|b: int| 0 <= b < c ==> row@[b] == (if r as int == b { 0i32 } else if cell(adjacency@, r as int, b) { 1i32 } else { UNREACHABLE }),
            decreases dim - c,
        {
            let v: i32 = if r == c { 0 } else if adjacency[r][c] { 1 } else { UNREACHABLE };
            row.push(v);
            c = c + 1;
        }
        let ghost before = distance@;
        let ghost row_view = row@;
        distance.push(row);
        proof {
            assert forall|a: int, b: int| 0 <= a <= r && 0 <= b < dim implies cell(distance@, a, b) == (if a == b { 0i32 } else if cell(adjacency@, a, b) { 1i32 } else { UNREACHABLE }) by {
                if a < r {
                    assert(distance@[a] == before[a]);
                    assert(cell(before, a, b) == (if a == b { 0i32 } else if cell(adjacency@, a, b) { 1i32 } else { UNREACHABLE }));
                } else {
                    assert(a == r);
                    assert(distance@[a]@ == row_view);
                    assert(row_view[b] == (if r as int == b { 0i32 } else if cell(adjacency@, r as int, b) { 1i32 } else { UNREACHABLE }));
                }
            }
        }
        r = r + 1;
    }
    assert(square(distance@, gdim));
    assert forall|a: int, b: int| 0 <= a < gdim && 0 <= b < gdim implies supported_at(adjacency@, distance@, gdim, a, b) by {
        assert(cell(distance@, a, b) == (if a == b { 0i32 } else if cell(adjacency@, a, b) { 1i32 } else { UNREACHABLE }));
    }

    let mut improving = true;
    assert(dim >= 1);
    proof { lemma_nonneg_from_supported(adjacency@, distance@, gdim); }
    while improving
        invariant
            dim == adjacency@.len(),
            1 <= dim <= MAX_DIM,
            square(adjacency@, gdim),
            square(distance@, gdim),
            supported(adjacency@, distance@, gdim),
            matrix_sum(distance@) >= 0,
            !improving ==> relaxed(distance@, gdim),
        decreases matrix_sum(distance@) + if improving { 1int } else { 0int },
    {
        let ghost start = distance@;
        improving = false;
        let mut source: usize = 1;
        while source < dim
            invariant
                1 <= source <= dim,
                dim == adjacency@.len(),
                1 <= dim <= MAX_DIM,
                square(adjacency@, gdim),
                square(distance@, gdim),
                supported(adjacency@, distance@, gdim),
                matrix_sum(distance@) <= matrix_sum(start),
                improving ==> matrix_sum(distance@) < matrix_sum(start),
                !improving ==> distance@ == start,
                !improving ==> forall|s: int, t: int, i: int|
                    1 <= s < source && 1 <= t < dim && 1 <= i < dim ==> cell(distance@, s, t) <= cell(distance@, s, i) + cell(distance@, i, t),
            decreases dim - source,
        {
            let mut destination: usize = 1;
            while destination < dim
                invariant
                    1 <= source < dim,
                    1 <= destination <= dim,
                    dim == adjacency@.len(),
                    1 <= dim <= MAX_DIM,
                    square(adjacency@, gdim),
                    square(distance@, gdim),
                    supported(adjacency@, distance@, gdim),
                    matrix_sum(distance@) <= matrix_sum(start),
                    improving ==> matrix_sum(distance@) < matrix_sum(start),
                    !improving ==> distance@ == start,
                    !improving ==> forall|s: int, t: int, i: int|
                        1 <= s < dim && 1 <= t < dim && 1 <= i < dim && (s < source || (s == source && t < destination))
                            ==> cell(distance@, s, t) <= cell(distance@, s, i) + cell(distance@, i, t),
                decreases dim - destination,
            {
                let mut intermediate: usize = 1;
                while intermediate < dim
                    invariant
                        1 <= source < dim,
                        1 <= destination < dim,
                        1 <= intermediate <= dim,
                        dim == adjacency@.len(),
                        1 <= dim <= MAX_DIM,
                        square(adjacency@, gdim),
                        square(distance@, gdim),
                        supported(adjacency@, distance@, gdim),
                        matrix_sum(distance@) <= matrix_sum(start),
                        improving ==> matrix_sum(distance@) < matrix_sum(start),
                        !improving ==> distance@ == start,
                        !improving ==> forall|s: int, t: int, i: int|
                            1 <= s < dim && 1 <= t < dim && 1 <= i < dim
                                && (s < source || (s == source && t < destination) || (s == source && t == destination && i < intermediate))
                                ==> cell(distance@, s, t) <= cell(distance@, s, i) + cell(distance@, i, t),
                    decreases dim - intermediate,
                {
                    if source != destination {
                        proof {
                            assert(supported_at(adjacency@, distance@, gdim, source as int, intermediate as int));
                            assert(supported_at(adjacency@, distance@, gdim, intermediate as int, destination as int));
                            assert(supported_at(adjacency@, distance@, gdim, source as int, destination as int));
                        }
                        let via = distance[source][intermediate] + distance[intermediate][destination];
                        if via < distance[source][destination] {
                            let ghost d0 = distance@;
                            let ghost old_row = distance@[source as int];
                            distance[source][destination] = via;
                            proof {
                                assert(distance@[source as int]@ =~= old_row@.update(destination as int, via));
                                assert(distance@.len() == d0.len());
                                assert forall|i: int| 0 <= i < gdim && i != source implies distance@[i] == d0[i] by {}
                                assert(distance@ =~= d0.update(source as int, distance@[source as int]));
                                assert(routed_via(d0, gdim, source as int, destination as int, intermediate as int));
                                lemma_lowered_supported(adjacency@, d0, distance@, gdim, source as int, destination as int, intermediate as int);
                                lemma_row_sum_update(old_row@, destination as int, via);
                                lemma_matrix_sum_update(d0, source as int, distance@[source as int]);
                                assert(distance@[source as int]@ =~= old_row@.update(destination as int, via));
                            }
                            improving = true;
                        }
                    } else {
                        proof {
                            assert(supported_at(adjacency@, distance@, gdim, source as int, intermediate as int));
                            assert(supported_at(adjacency@, distance@, gdim, intermediate as int, destination as int));
                            assert(supported_at(adjacency@, distance@, gdim, source as int, destination as int));
                        }
                    }
                    intermediate = intermediate + 1;
                }
                destination = destination + 1;
            }
            source = source + 1;
        }
        proof { lemma_nonneg_from_supported(adjacency@, distance@, gdim); }
    }
    distance
}

proof fn lemma_nonneg_from_supported(adj: Seq<Vec<bool>>, d: Seq<Vec<i32>>, dim: int)
    requires
        square(d, dim),
        supported(adj, d, dim),
    ensures
        matrix_sum(d) >= 0,
{
    assert forall|s: int, t: int| 0 <= s < dim && 0 <= t < dim implies cell(d, s, t) >= 0 by {
        assert(supported_at(adj, d, dim, s, t));
    }
    lemma_matrix_sum_nonneg(d, dim);
}

} // verus!
