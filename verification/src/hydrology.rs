use vstd::prelude::*;
use crate::graph::lemma_push_contains;

verus! {

/// `v` can be reached in at most `k` steps: it is a source, or it is passable and some
/// node that lists it as a neighbour can be reached in at most `k - 1` steps.
pub open spec fn reached(
    g: Seq<Vec<usize>>,
    src: Seq<bool>,
    pass: Seq<bool>,
    v: int,
    k: nat,
) -> bool
    decreases k,
{
    if k == 0 {
        0 <= v < src.len() && src[v]
    } else {
        reached(g, src, pass, v, (k - 1) as nat) || (0 <= v < pass.len() && pass[v] && exists|u: int|
            0 <= u < g.len() && #[trigger] g[u]@.contains(v as usize) && reached(
                g,
                src,
                pass,
                u,
                (k - 1) as nat,
            ))
    }
}

/// `d` is the length of a shortest walk from a source to `v` (`None`: there is none).
pub open spec fn is_hop_distance(
    g: Seq<Vec<usize>>,
    src: Seq<bool>,
    pass: Seq<bool>,
    v: int,
    d: Option<usize>,
) -> bool {
    match d {
        Some(d) => reached(g, src, pass, v, d as nat) && (d > 0 ==> !reached(
            g,
            src,
            pass,
            v,
            (d - 1) as nat,
        )),
        None => forall|k: nat| !#[trigger] reached(g, src, pass, v, k),
    }
}

/// Number of assigned entries.
pub open spec fn count_some<T>(s: Seq<Option<T>>) -> nat
    decreases s.len(),
{
    if s.len() == 0 {
        0
    } else {
        count_some(s.drop_last()) + if s.last() is Some {
            1nat
        } else {
            0nat
        }
    }
}

pub proof fn lemma_count_some_bound<T>(s: Seq<Option<T>>)
    ensures
        count_some(s) <= s.len(),
    decreases s.len(),
{
    if s.len() > 0 {
        lemma_count_some_bound(s.drop_last());
    }
}

pub proof fn lemma_count_some_push<T>(s: Seq<Option<T>>, x: Option<T>)
    ensures
        count_some(s.push(x)) == count_some(s) + if x is Some {
            1nat
        } else {
            0nat
        },
{
    assert(s.push(x).drop_last() =~= s);
}

pub proof fn lemma_count_some_update<T>(s: Seq<Option<T>>, w: int, x: T)
    requires
        0 <= w < s.len(),
        s[w] is None,
    ensures
        count_some(s.update(w, Some(x))) == count_some(s) + 1,
    decreases s.len(),
{
    let t = s.update(w, Some(x));
    if w < s.len() - 1 {
        assert(t.drop_last() =~= s.drop_last().update(w, Some(x)));
        lemma_count_some_update(s.drop_last(), w, x);
    } else {
        assert(t.drop_last() =~= s.drop_last());
    }
}

pub proof fn lemma_count_some_replace<T>(s: Seq<Option<T>>, w: int, x: T)
    requires
        0 <= w < s.len(),
        s[w] is Some,
    ensures
        count_some(s.update(w, Some(x))) == count_some(s),
    decreases s.len(),
{
    let t = s.update(w, Some(x));
    if w < s.len() - 1 {
        assert(t.drop_last() =~= s.drop_last().update(w, Some(x)));
        lemma_count_some_replace(s.drop_last(), w, x);
    } else {
        assert(t.drop_last() =~= s.drop_last());
    }
}

/// A node first reached at step `k + 1` was entered from a neighbour reached within `k`.
pub proof fn lemma_reached_witness(
    g: Seq<Vec<usize>>,
    src: Seq<bool>,
    pass: Seq<bool>,
    v: int,
    k: nat,
) -> (y: int)
    requires
        reached(g, src, pass, v, k + 1),
        !reached(g, src, pass, v, k),
    ensures
        0 <= y < g.len(),
        g[y]@.contains(v as usize),
        reached(g, src, pass, y, k),
        0 <= v < pass.len(),
        pass[v],
{
    choose|y: int|
        0 <= y < g.len() && #[trigger] g[y]@.contains(v as usize) && reached(g, src, pass, y, k)
}

/// One more step reaches every passable neighbour.
pub proof fn lemma_reached_extend(
    g: Seq<Vec<usize>>,
    src: Seq<bool>,
    pass: Seq<bool>,
    y: int,
    v: int,
    k: nat,
)
    requires
        reached(g, src, pass, y, k),
        0 <= y < g.len(),
        g[y]@.contains(v as usize),
        0 <= v < pass.len(),
        pass[v],
    ensures
        reached(g, src, pass, v, k + 1),
{
}

/// Reaching within `k` steps implies reaching within any larger budget.
pub proof fn lemma_reached_monotone(
    g: Seq<Vec<usize>>,
    src: Seq<bool>,
    pass: Seq<bool>,
    v: int,
    k: nat,
    m: nat,
)
    requires
        k <= m,
        reached(g, src, pass, v, k),
    ensures
        reached(g, src, pass, v, m),
    decreases m - k,
{
    if k < m {
        lemma_reached_monotone(g, src, pass, v, k, (m - 1) as nat);
    }
}

/// When no node needs more than `l` steps to be reached within `l + 1`, nothing ever does.
proof fn lemma_reached_stable(
    g: Seq<Vec<usize>>,
    src: Seq<bool>,
    pass: Seq<bool>,
    l: nat,
    v: int,
    k: nat,
)
    requires
        forall|u: int| #[trigger] reached(g, src, pass, u, l + 1) ==> reached(g, src, pass, u, l),
        reached(g, src, pass, v, k),
    ensures
        reached(g, src, pass, v, l),
    decreases k,
{
    if k <= l {
        lemma_reached_monotone(g, src, pass, v, k, l);
    } else {
        if reached(g, src, pass, v, (k - 1) as nat) {
            lemma_reached_stable(g, src, pass, l, v, (k - 1) as nat);
        } else {
            let u = choose|u: int|
                0 <= u < g.len() && #[trigger] g[u]@.contains(v as usize) && reached(
                    g,
                    src,
                    pass,
                    u,
                    (k - 1) as nat,
                );
            lemma_reached_stable(g, src, pass, l, u, (k - 1) as nat);
            assert(reached(g, src, pass, v, l + 1));
        }
    }
}

/// Breadth-first search from several sources at once: for every node, the number of steps
/// from the nearest source, moving only into passable nodes. Neighbour indices outside the
/// graph are ignored.
pub fn hop_distances(neighbors: &Vec<Vec<usize>>, sources: &Vec<bool>, passable: &Vec<bool>) -> (dist: Vec<Option<usize>>)
    requires
        sources@.len() == neighbors@.len(),
        passable@.len() == neighbors@.len(),
    ensures
        dist@.len() == neighbors@.len(),
        forall|v: int|
            0 <= v < dist@.len() ==> is_hop_distance(
                neighbors@,
                sources@,
                passable@,
                v,
                #[trigger] dist@[v],
            ),
{
    let ghost g = neighbors@;
    let ghost src = sources@;
    let ghost pass = passable@;
    let n = neighbors.len();
    let mut dist: Vec<Option<usize>> = Vec::new();
    let mut frontier: Vec<usize> = Vec::new();
    let mut count: usize = 0;
    let mut v: usize = 0;
    while v < n
        invariant
            n == g.len(),
            src.len() == n,
            src == sources@,
            v <= n,
            dist@.len() == v,
            count == count_some(dist@),
            count <= v,
            count == frontier@.len(),
            forall|i: int| 0 <= i < frontier@.len() ==> #[trigger] frontier@[i] < v,
            forall|u: int|
                0 <= u < v ==> (#[trigger] dist@[u] == Some(0usize) <==> frontier@.contains(
                    u as usize,
                )),
            forall|u: int| 0 <= u < v ==> (#[trigger] dist@[u] is Some <==> src[u]),
            forall|u: int| 0 <= u < v ==> #[trigger] dist@[u] is Some ==> dist@[u] == Some(0usize),
        decreases n - v,
    {
        proof {
            lemma_count_some_push(dist@, if src[v as int] { Some(0usize) } else { None });
        }
        proof {
            lemma_push_contains(frontier@, v);
        }
        if sources[v] {
            dist.push(Some(0));
            frontier.push(v);
            count += 1;
        } else {
            dist.push(None);
        }
        v += 1;
    }
    proof {
        assert forall|u: int| 0 <= u < n && #[trigger] dist@[u] is Some implies dist@[u]
            == Some(0usize) && reached(g, src, pass, u, 0) by {}
        assert forall|u: int| #[trigger] reached(g, src, pass, u, 0) implies 0 <= u < n
            && dist@[u] is Some by {}
    }
    let mut level: usize = 0;
    while frontier.len() > 0
        invariant
            n == g.len(),
            src.len() == n,
            pass.len() == n,
            g == neighbors@,
            pass == passable@,
            dist@.len() == n,
            count == count_some(dist@),
            frontier@.len() > 0 ==> level + 1 <= count,
            forall|i: int| 0 <= i < frontier@.len() ==> #[trigger] frontier@[i] < n,
            forall|u: int|
                0 <= u < n ==> (#[trigger] dist@[u] == Some(level) <==> frontier@.contains(
                    u as usize,
                )),
            forall|u: int|
                0 <= u < n && #[trigger] dist@[u] is Some ==> dist@[u].unwrap() <= level
                    && is_hop_distance(g, src, pass, u, dist@[u]),
            forall|u: int| #[trigger] reached(g, src, pass, u, level as nat) ==> 0 <= u < n
                && dist@[u] is Some,
        decreases n - count + frontier@.len(),
    {
        proof {
            lemma_count_some_bound(dist@);
        }
        let ghost start = dist@;
        let ghost start_count = count;
        let next_level = level + 1;
        let mut next: Vec<usize> = Vec::new();
        let mut i: usize = 0;
        while i < frontier.len()
            invariant
                n == g.len(),
                src.len() == n,
                pass.len() == n,
                g == neighbors@,
                pass == passable@,
                next_level == level + 1,
                start.len() == n,
                dist@.len() == n,
                i <= frontier@.len(),
                forall|f: int| 0 <= f < frontier@.len() ==> #[trigger] frontier@[f] < n,
                forall|u: int|
                    0 <= u < n ==> (#[trigger] start[u] == Some(level) <==> frontier@.contains(
                        u as usize,
                    )),
                forall|u: int|
                    0 <= u < n && #[trigger] start[u] is Some ==> start[u].unwrap() <= level
                        && is_hop_distance(g, src, pass, u, start[u]),
                forall|u: int| #[trigger] reached(g, src, pass, u, level as nat) ==> 0 <= u < n
                    && start[u] is Some,
                count == count_some(dist@),
                count == start_count + next@.len(),
                forall|u: int|
                    0 <= u < n ==> #[trigger] dist@[u] == start[u] || (start[u] is None
                        && dist@[u] == Some(next_level) && reached(
                        g,
                        src,
                        pass,
                        u,
                        next_level as nat,
                    )),
                forall|u: int|
                    0 <= u < n ==> (#[trigger] dist@[u] == Some(next_level)
                        <==> next@.contains(u as usize)),
                forall|f: int| 0 <= f < next@.len() ==> #[trigger] next@[f] < n,
                forall|f: int, j: int|
                    0 <= f < i && 0 <= j < g[frontier@[f] as int]@.len() ==> {
                        let w = #[trigger] g[frontier@[f] as int]@[j];
                        w < n && pass[w as int] ==> dist@[w as int] is Some
                    },
            decreases frontier@.len() - i,
        {
            let u = frontier[i];
            assert(frontier@.contains(u));
            assert(reached(g, src, pass, u as int, level as nat));
            let mut j: usize = 0;
            while j < neighbors[u].len()
                invariant
                    n == g.len(),
                    src.len() == n,
                    pass.len() == n,
                    g == neighbors@,
                    pass == passable@,
                    next_level == level + 1,
                    start.len() == n,
                    dist@.len() == n,
                    i < frontier@.len(),
                    u == frontier@[i as int],
                    u < n,
                    reached(g, src, pass, u as int, level as nat),
                    j <= g[u as int]@.len(),
                    forall|u: int|
                        0 <= u < n && #[trigger] start[u] is Some ==> start[u].unwrap() <= level
                            && is_hop_distance(g, src, pass, u, start[u]),
                    count == count_some(dist@),
                    count == start_count + next@.len(),
                    forall|x: int|
                        0 <= x < n ==> #[trigger] dist@[x] == start[x] || (start[x] is None
                            && dist@[x] == Some(next_level) && reached(
                            g,
                            src,
                            pass,
                            x,
                            next_level as nat,
                        )),
                    forall|x: int|
                        0 <= x < n ==> (#[trigger] dist@[x] == Some(next_level)
                            <==> next@.contains(x as usize)),
                    forall|f: int| 0 <= f < next@.len() ==> #[trigger] next@[f] < n,
                    forall|f: int, k: int|
                        0 <= f < i && 0 <= k < g[frontier@[f] as int]@.len() ==> {
                            let w = #[trigger] g[frontier@[f] as int]@[k];
                            w < n && pass[w as int] ==> dist@[w as int] is Some
                        },
                    forall|k: int|
                        0 <= k < j ==> {
                            let w = #[trigger] g[u as int]@[k];
                            w < n && pass[w as int] ==> dist@[w as int] is Some
                        },
                decreases g[u as int]@.len() - j,
            {
                let w = neighbors[u][j];
                if w < n && passable[w] && dist[w].is_none() {
                    proof {
                        assert(g[u as int]@[j as int] == w);
                        assert(g[u as int]@.contains(w));
                        assert(reached(g, src, pass, w as int, next_level as nat));
                        lemma_count_some_update(dist@, w as int, next_level);
                        lemma_count_some_bound(dist@.update(w as int, Some(next_level)));
                        lemma_push_contains(next@, w);
                        assert(start[w as int] is None);
                    }
                    dist.set(w, Some(next_level));
                    next.push(w);
                    count += 1;
                }
                j += 1;
            }
            i += 1;
        }
        proof {
            // Exactness of the new layer, and completeness up to the next level.
            assert forall|x: int|
                0 <= x < n && #[trigger] dist@[x] is Some implies dist@[x].unwrap() <= next_level
                && is_hop_distance(g, src, pass, x, dist@[x]) by {
                if dist@[x] != start[x] {
                    if reached(g, src, pass, x, level as nat) {
                        assert(start[x] is Some);
                    }
                }
            }
            assert forall|x: int| #[trigger] reached(g, src, pass, x, next_level as nat) implies 0
                <= x < n && dist@[x] is Some by {
                if reached(g, src, pass, x, level as nat) {
                    assert(start[x] is Some);
                    assert(dist@[x] == start[x] || dist@[x] is Some);
                } else {
                    let y = choose|y: int|
                        0 <= y < g.len() && #[trigger] g[y]@.contains(x as usize) && reached(
                            g,
                            src,
                            pass,
                            y,
                            level as nat,
                        );
                    assert(start[y] is Some);
                    let dy = start[y].unwrap();
                    if dy < level {
                        assert(reached(g, src, pass, x, (dy + 1) as nat));
                        lemma_reached_monotone(g, src, pass, x, (dy + 1) as nat, level as nat);
                        assert(false);
                    }
                    assert(frontier@.contains(y as usize));
                    let f = choose|f: int| 0 <= f < frontier@.len() && frontier@[f] == y as usize;
                    let k = choose|k: int| 0 <= k < g[y]@.len() && g[y]@[k] == x as usize;
                    assert(g[frontier@[f] as int]@[k] == x as usize);
                }
            }
            assert forall|x: int|
                0 <= x < n && #[trigger] dist@[x] == Some(level) implies start[x] == Some(level) by {}
        }
        frontier = next;
        level = next_level;
    }
    proof {
        // No node sits at the last level, so the reachable set stopped growing.
        assert forall|u: int| #[trigger] reached(g, src, pass, u, (level + 1) as nat) implies reached(
            g,
            src,
            pass,
            u,
            level as nat,
        ) by {
            if !reached(g, src, pass, u, level as nat) {
                let y = choose|y: int|
                    0 <= y < g.len() && #[trigger] g[y]@.contains(u as usize) && reached(
                        g,
                        src,
                        pass,
                        y,
                        level as nat,
                    );
                let dy = dist@[y].unwrap();
                if dy == level {
                    assert(frontier@.contains(y as usize));
                }
                assert(reached(g, src, pass, u, (dy + 1) as nat));
                lemma_reached_monotone(g, src, pass, u, (dy + 1) as nat, level as nat);
            }
        }
        assert forall|u: int| 0 <= u < n implies is_hop_distance(g, src, pass, u, #[trigger] dist@[u]) by {
            if dist@[u] is None {
                assert forall|k: nat| !#[trigger] reached(g, src, pass, u, k) by {
                    if reached(g, src, pass, u, k) {
                        lemma_reached_stable(g, src, pass, level as nat, u, k);
                    }
                }
            }
        }
    }
    dist
}


/// Distances to the nearest source change by at most one step along an edge: if `u` is at
/// distance `du` and lists the passable node `v`, then `v` is at distance at most `du + 1`;
/// sources are at distance 0.
pub proof fn lemma_hop_distance_edge(
    g: Seq<Vec<usize>>,
    src: Seq<bool>,
    pass: Seq<bool>,
    dist: Seq<Option<usize>>,
    u: int,
    v: int,
)
    requires
        dist.len() == g.len(),
        src.len() == g.len(),
        pass.len() == g.len(),
        forall|x: int| 0 <= x < dist.len() ==> is_hop_distance(g, src, pass, x, #[trigger] dist[x]),
        0 <= u < g.len(),
        0 <= v < g.len(),
        g[u]@.contains(v as usize),
        pass[v],
        dist[u] is Some,
    ensures
        dist[v] is Some,
        dist[v].unwrap() <= dist[u].unwrap() + 1,
        src[v] ==> dist[v] == Some(0usize),
{
    assert(is_hop_distance(g, src, pass, u, dist[u]));
    assert(is_hop_distance(g, src, pass, v, dist[v]));
    let du = dist[u].unwrap();
    lemma_reached_extend(g, src, pass, u, v, du as nat);
    if dist[v] is Some {
        let dv = dist[v].unwrap();
        if dv > du + 1 {
            lemma_reached_monotone(g, src, pass, v, (du + 1) as nat, (dv - 1) as nat);
        }
        if src[v] && dv > 0 {
            lemma_reached_monotone(g, src, pass, v, 0, (dv - 1) as nat);
        }
    }
}
} // verus!
