use vstd::prelude::*;
use crate::graph::{lemma_push_contains, lists_within};
use crate::hydrology::{
    reached, lemma_reached_monotone, lemma_reached_witness, lemma_reached_extend, count_some, lemma_count_some_bound, lemma_count_some_push,
    lemma_count_some_update, lemma_count_some_replace,
};

verus! {

/// The source set made of the seed of plate `q` alone.
pub open spec fn seed_set(n: nat, seeds: Seq<usize>, q: int) -> Seq<bool> {
    Seq::new(n, |i: int| i == seeds[q] as int)
}

/// Plate `q` can spread to center `v` in at most `k` steps through non-ghost centers.
pub open spec fn reached_by(
    g: Seq<Vec<usize>>,
    pass: Seq<bool>,
    seeds: Seq<usize>,
    q: int,
    v: int,
    k: nat,
) -> bool {
    reached(g, seed_set(g.len(), seeds, q), pass, v, k)
}

/// The label `(plate, distance)` that multi-source growth gives center `v`: the smallest
/// distance from any seed, and among the seeds at that distance, the smallest plate number.
/// `None` when no seed reaches `v`.
pub open spec fn is_plate_label(
    g: Seq<Vec<usize>>,
    pass: Seq<bool>,
    seeds: Seq<usize>,
    v: int,
    lab: Option<(usize, usize)>,
) -> bool {
    match lab {
        Some((p, d)) => {
            &&& p < seeds.len()
            &&& reached_by(g, pass, seeds, p as int, v, d as nat)
            &&& d > 0 ==> forall|q: int|
                0 <= q < seeds.len() ==> !#[trigger] reached_by(g, pass, seeds, q, v, (d - 1) as nat)
            &&& forall|q: int| 0 <= q < p ==> !#[trigger] reached_by(g, pass, seeds, q, v, d as nat)
        },
        None => forall|q: int, k: nat|
            0 <= q < seeds.len() ==> !#[trigger] reached_by(g, pass, seeds, q, v, k),
    }
}

/// Passability of the plate growth: every center but the ghosts.
pub open spec fn not_ghost(is_ghost: Seq<bool>) -> Seq<bool> {
    Seq::new(is_ghost.len(), |i: int| !is_ghost[i])
}

/// Once the last layer of the growth is empty, every center that some plate can reach
/// carries a label.
proof fn lemma_growth_complete(
    g: Seq<Vec<usize>>,
    pass: Seq<bool>,
    seeds: Seq<usize>,
    labels: Seq<Option<(usize, usize)>>,
    level: nat,
    q: int,
    v: int,
    k: nat,
)
    requires
        labels.len() == g.len(),
        0 <= q < seeds.len(),
        reached_by(g, pass, seeds, q, v, k),
        forall|u: int|
            0 <= u < labels.len() && #[trigger] labels[u] is Some ==> labels[u].unwrap().1 < level
                && is_plate_label(g, pass, seeds, u, labels[u]),
        forall|p: int, u: int|
            0 <= p < seeds.len() && #[trigger] reached_by(g, pass, seeds, p, u, level) ==> 0 <= u
                < labels.len() && labels[u] is Some,
    ensures
        0 <= v < labels.len() && labels[v] is Some,
    decreases k,
{
    if k <= level {
        lemma_reached_monotone(g, seed_set(g.len(), seeds, q), pass, v, k, level);
        assert(reached_by(g, pass, seeds, q, v, level));
    } else if reached_by(g, pass, seeds, q, v, (k - 1) as nat) {
        lemma_growth_complete(g, pass, seeds, labels, level, q, v, (k - 1) as nat);
    } else {
        let src = seed_set(g.len(), seeds, q);
        let y = lemma_reached_witness(g, src, pass, v, (k - 1) as nat);
        lemma_growth_complete(g, pass, seeds, labels, level, q, y, (k - 1) as nat);
        let (py, dy) = labels[y].unwrap();
        let psrc = seed_set(g.len(), seeds, py as int);
        assert(reached(g, psrc, pass, y, dy as nat));
        lemma_reached_extend(g, psrc, pass, y, v, dy as nat);
        lemma_reached_monotone(g, psrc, pass, v, (dy + 1) as nat, level);
        assert(reached_by(g, pass, seeds, py as int, v, level));
    }
}

/// Grows the plates from their seeds, one layer of neighbours at a time, through non-ghost
/// centers: each center gets the distance to the nearest seed and, on a tie, the smallest
/// plate number (`seeds[p]` is the seed of plate `p`). Centers that no seed reaches stay
/// unlabelled.
pub fn propagate_plates(neighbors: &Vec<Vec<usize>>, is_ghost: &Vec<bool>, seeds: &Vec<usize>) -> (labels: Vec<Option<(usize, usize)>>)
    requires
        is_ghost@.len() == neighbors@.len(),
        forall|q: int| 0 <= q < seeds@.len() ==> #[trigger] seeds@[q] < neighbors@.len(),
        seeds@.no_duplicates(),
    ensures
        labels@.len() == neighbors@.len(),
        forall|v: int|
            0 <= v < labels@.len() ==> is_plate_label(
                neighbors@,
                not_ghost(is_ghost@),
                seeds@,
                v,
                #[trigger] labels@[v],
            ),
{
    let ghost g = neighbors@;
    let ghost pass = not_ghost(is_ghost@);
    let ghost sd = seeds@;
    let n = neighbors.len();
    let mut labels: Vec<Option<(usize, usize)>> = Vec::new();
    let mut v: usize = 0;
    while v < n
        invariant
            v <= n,
            labels@.len() == v,
            count_some(labels@) == 0,
            forall|u: int| 0 <= u < v ==> #[trigger] labels@[u] is None,
        decreases n - v,
    {
        proof {
            lemma_count_some_push(labels@, None);
        }
        labels.push(None);
        v += 1;
    }
    let mut frontier: Vec<usize> = Vec::new();
    let mut count: usize = 0;
    let mut q: usize = 0;
    while q < seeds.len()
        invariant
            n == g.len(),
            sd == seeds@,
            forall|r: int| 0 <= r < sd.len() ==> #[trigger] sd[r] < n,
            sd.no_duplicates(),
            q <= sd.len(),
            labels@.len() == n,
            count == count_some(labels@),
            count == q,
            frontier@ == sd.subrange(0, q as int),
            forall|u: int|
                0 <= u < n ==> (#[trigger] labels@[u] is Some <==> frontier@.contains(u as usize)),
            forall|u: int|
                0 <= u < n && #[trigger] labels@[u] is Some ==> labels@[u].unwrap().1 == 0
                    && labels@[u].unwrap().0 < q && sd[labels@[u].unwrap().0 as int] == u,
        decreases sd.len() - q,
    {
        let s = seeds[q];
        proof {
            assert(!frontier@.contains(s)) by {
                if frontier@.contains(s) {
                    let r = choose|r: int| 0 <= r < q && frontier@[r] == s;
                    assert(sd[r] == sd[q as int]);
                }
            }
            lemma_count_some_update(labels@, s as int, (q, 0usize));
            lemma_count_some_bound(labels@.update(s as int, Some((q, 0usize))));
            lemma_push_contains(frontier@, s);
        }
        labels.set(s, Some((q, 0)));
        frontier.push(s);
        count += 1;
        assert(frontier@ =~= sd.subrange(0, q + 1));
        q += 1;
    }
    proof {
        assert forall|u: int| 0 <= u < n && #[trigger] labels@[u] is Some implies labels@[u].unwrap().1
            <= 0 && is_plate_label(g, pass, sd, u, labels@[u]) by {
            let p = labels@[u].unwrap().0;
            assert(seed_set(g.len(), sd, p as int)[u]);
            assert forall|r: int| 0 <= r < p implies !#[trigger] reached_by(g, pass, sd, r, u, 0) by {
                assert(sd[r] != sd[p as int]);
            }
        }
        assert forall|r: int, u: int|
            0 <= r < sd.len() && #[trigger] reached_by(g, pass, sd, r, u, 0) implies 0 <= u < n
            && labels@[u] is Some by {
            assert(u == sd[r]);
            assert(frontier@[r] == sd[r]);
        }
    }
    let mut level: usize = 0;
    while frontier.len() > 0
        invariant
            n == g.len(),
            pass.len() == n,
            g == neighbors@,
            pass == not_ghost(is_ghost@),
            is_ghost@.len() == n,
            sd == seeds@,
            labels@.len() == n,
            count == count_some(labels@),
            frontier@.len() > 0 ==> level + 1 <= count,
            forall|i: int| 0 <= i < frontier@.len() ==> #[trigger] frontier@[i] < n,
            forall|u: int|
                0 <= u < n ==> (#[trigger] labels@[u] is Some && labels@[u].unwrap().1 == level
                    <==> frontier@.contains(u as usize)),
            forall|u: int|
                0 <= u < n && #[trigger] labels@[u] is Some ==> labels@[u].unwrap().1 <= level
                    && is_plate_label(g, pass, sd, u, labels@[u]),
            forall|r: int, u: int|
                0 <= r < sd.len() && #[trigger] reached_by(g, pass, sd, r, u, level as nat) ==> 0
                    <= u < n && labels@[u] is Some,
        decreases n - count + frontier@.len(),
    {
        proof {
            lemma_count_some_bound(labels@);
        }
        let ghost start = labels@;
        let ghost start_count = count;
        let next_level = level + 1;
        let mut next: Vec<usize> = Vec::new();
        let mut i: usize = 0;
        while i < frontier.len()
            invariant
                n == g.len(),
                pass.len() == n,
                g == neighbors@,
                pass == not_ghost(is_ghost@),
                is_ghost@.len() == n,
                sd == seeds@,
                next_level == level + 1,
                start.len() == n,
                labels@.len() == n,
                i <= frontier@.len(),
                forall|f: int| 0 <= f < frontier@.len() ==> #[trigger] frontier@[f] < n,
                forall|u: int|
                    0 <= u < n ==> (#[trigger] start[u] is Some && start[u].unwrap().1 == level
                        <==> frontier@.contains(u as usize)),
                forall|u: int|
                    0 <= u < n && #[trigger] start[u] is Some ==> start[u].unwrap().1 <= level
                        && is_plate_label(g, pass, sd, u, start[u]),
                forall|r: int, u: int|
                    0 <= r < sd.len() && #[trigger] reached_by(g, pass, sd, r, u, level as nat)
                        ==> 0 <= u < n && start[u] is Some,
                count == count_some(labels@),
                count == start_count + next@.len(),
                forall|x: int|
                    0 <= x < n ==> #[trigger] labels@[x] == start[x] || (start[x] is None
                        && labels@[x] is Some && labels@[x].unwrap().1 == next_level
                        && labels@[x].unwrap().0 < sd.len() && reached_by(
                        g,
                        pass,
                        sd,
                        labels@[x].unwrap().0 as int,
                        x,
                        next_level as nat,
                    )),
                forall|x: int|
                    0 <= x < n ==> (#[trigger] labels@[x] is Some && labels@[x].unwrap().1
                        == next_level <==> next@.contains(x as usize)),
                forall|f: int| 0 <= f < next@.len() ==> #[trigger] next@[f] < n,
                forall|f: int, j: int|
                    0 <= f < i && 0 <= j < g[frontier@[f] as int]@.len() ==> {
                        let w = #[trigger] g[frontier@[f] as int]@[j];
                        w < n && pass[w as int] ==> labels@[w as int] is Some && (start[w as int] is None
                            ==> labels@[w as int].unwrap().0 <= start[frontier@[f] as int].unwrap().0)
                    },
            decreases frontier@.len() - i,
        {
            let u = frontier[i];
            assert(frontier@.contains(u));
            assert(labels@[u as int] == start[u as int]);
            let pu = match labels[u] {
                Some((p, _)) => p,
                None => 0,
            };
            assert(reached_by(g, pass, sd, pu as int, u as int, level as nat));
            let mut j: usize = 0;
            while j < neighbors[u].len()
                invariant
                    n == g.len(),
                    pass.len() == n,
                    g == neighbors@,
                    pass == not_ghost(is_ghost@),
                    is_ghost@.len() == n,
                    sd == seeds@,
                    next_level == level + 1,
                    start.len() == n,
                    labels@.len() == n,
                    i < frontier@.len(),
                    u == frontier@[i as int],
                    u < n,
                    start[u as int] is Some,
                    start[u as int].unwrap().0 == pu,
                    pu < sd.len(),
                    reached_by(g, pass, sd, pu as int, u as int, level as nat),
                    j <= g[u as int]@.len(),
                    forall|x: int|
                        0 <= x < n && #[trigger] start[x] is Some ==> start[x].unwrap().1 <= level,
                    count == count_some(labels@),
                    count == start_count + next@.len(),
                    forall|x: int|
                        0 <= x < n ==> #[trigger] labels@[x] == start[x] || (start[x] is None
                            && labels@[x] is Some && labels@[x].unwrap().1 == next_level
                            && labels@[x].unwrap().0 < sd.len() && reached_by(
                            g,
                            pass,
                            sd,
                            labels@[x].unwrap().0 as int,
                            x,
                            next_level as nat,
                        )),
                    forall|x: int|
                        0 <= x < n ==> (#[trigger] labels@[x] is Some && labels@[x].unwrap().1
                            == next_level <==> next@.contains(x as usize)),
                    forall|f: int| 0 <= f < next@.len() ==> #[trigger] next@[f] < n,
                    forall|f: int, k: int|
                        0 <= f < i && 0 <= k < g[frontier@[f] as int]@.len() ==> {
                            let w = #[trigger] g[frontier@[f] as int]@[k];
                            w < n && pass[w as int] ==> labels@[w as int] is Some && (start[w as int] is None
                                ==> labels@[w as int].unwrap().0 <= start[frontier@[f] as int].unwrap().0)
                        },
                    forall|k: int|
                        0 <= k < j ==> {
                            let w = #[trigger] g[u as int]@[k];
                            w < n && pass[w as int] ==> labels@[w as int] is Some && (start[w as int] is None
                                ==> labels@[w as int].unwrap().0 <= pu)
                        },
                decreases g[u as int]@.len() - j,
            {
                let w = neighbors[u][j];
                if w < n && !is_ghost[w] {
                    proof {
                        assert(g[u as int]@[j as int] == w);
                        assert(g[u as int]@.contains(w));
                        assert(pass[w as int]);
                        let src = seed_set(g.len(), sd, pu as int);
                        assert(reached(g, src, pass, u as int, level as nat));
                        assert(reached(g, src, pass, w as int, next_level as nat));
                    }
                    match labels[w] {
                        None => {
                            proof {
                                lemma_count_some_update(labels@, w as int, (pu, next_level));
                                lemma_count_some_bound(labels@.update(w as int, Some((pu, next_level))));
                                lemma_push_contains(next@, w);
                            }
                            labels.set(w, Some((pu, next_level)));
                            next.push(w);
                            count += 1;
                        },
                        Some((pw, dw)) => {
                            if dw == next_level && pu < pw {
                                proof {
                                    lemma_count_some_replace(labels@, w as int, (pu, next_level));
                                }
                                labels.set(w, Some((pu, next_level)));
                            }
                        },
                    }
                }
                j += 1;
            }
            i += 1;
        }
        proof {
            assert forall|x: int|
                0 <= x < n && #[trigger] labels@[x] is Some implies labels@[x].unwrap().1
                <= next_level && is_plate_label(g, pass, sd, x, labels@[x]) by {
                if labels@[x] != start[x] {
                    let (p, d) = labels@[x].unwrap();
                    assert forall|r: int| 0 <= r < sd.len() implies !#[trigger] reached_by(
                        g,
                        pass,
                        sd,
                        r,
                        x,
                        level as nat,
                    ) by {}
                    assert forall|r: int| 0 <= r < p implies !#[trigger] reached_by(
                        g,
                        pass,
                        sd,
                        r,
                        x,
                        d as nat,
                    ) by {
                        if reached_by(g, pass, sd, r, x, d as nat) {
                            let src = seed_set(g.len(), sd, r);
                            assert(d == next_level);
                            assert(!reached_by(g, pass, sd, r, x, level as nat));
                            let y = lemma_reached_witness(g, src, pass, x, level as nat);
                            assert(reached_by(g, pass, sd, r, y, level as nat));
                            let (py, dy) = start[y].unwrap();
                            let psrc = seed_set(g.len(), sd, py as int);
                            assert(reached(g, psrc, pass, y, dy as nat));
                            if dy < level {
                                lemma_reached_extend(g, psrc, pass, y, x, dy as nat);
                                lemma_reached_monotone(g, psrc, pass, x, (dy + 1) as nat, level as nat);
                                assert(reached_by(g, pass, sd, py as int, x, level as nat));
                            }
                            assert(frontier@.contains(y as usize));
                            let f = choose|f: int| 0 <= f < frontier@.len() && frontier@[f] == y as usize;
                            let k = choose|k: int| 0 <= k < g[y]@.len() && g[y]@[k] == x as usize;
                            assert(g[frontier@[f] as int]@[k] == x as usize);
                            if r < py {
                                assert(!reached_by(g, pass, sd, r, y, dy as nat));
                            }
                        }
                    }
                }
            }
            assert forall|r: int, x: int|
                0 <= r < sd.len() && #[trigger] reached_by(g, pass, sd, r, x, next_level as nat)
                implies 0 <= x < n && labels@[x] is Some by {
                let src = seed_set(g.len(), sd, r);
                if reached(g, src, pass, x, level as nat) {
                    assert(reached_by(g, pass, sd, r, x, level as nat));
                    assert(start[x] is Some);
                } else {
                    let y = lemma_reached_witness(g, src, pass, x, level as nat);
                    assert(reached_by(g, pass, sd, r, y, level as nat));
                    let (py, dy) = start[y].unwrap();
                    let psrc = seed_set(g.len(), sd, py as int);
                    assert(reached(g, psrc, pass, y, dy as nat));
                    if dy < level {
                        lemma_reached_extend(g, psrc, pass, y, x, dy as nat);
                        lemma_reached_monotone(g, psrc, pass, x, (dy + 1) as nat, level as nat);
                        assert(reached_by(g, pass, sd, py as int, x, level as nat));
                        assert(start[x] is Some);
                    } else {
                        assert(frontier@.contains(y as usize));
                        let f = choose|f: int| 0 <= f < frontier@.len() && frontier@[f] == y as usize;
                        let k = choose|k: int| 0 <= k < g[y]@.len() && g[y]@[k] == x as usize;
                        assert(g[frontier@[f] as int]@[k] == x as usize);
                    }
                }
            }
        }
        frontier = next;
        level = next_level;
    }
    proof {
        assert forall|x: int| 0 <= x < n implies is_plate_label(g, pass, sd, x, #[trigger] labels@[x]) by {
            if labels@[x] is None {
                assert forall|r: int, k: nat| 0 <= r < sd.len() implies !#[trigger] reached_by(
                    g,
                    pass,
                    sd,
                    r,
                    x,
                    k,
                ) by {
                    if reached_by(g, pass, sd, r, x, k) {
                        assert forall|u: int|
                            0 <= u < labels@.len() && #[trigger] labels@[u] is Some implies labels@[u].unwrap().1
                            < level && is_plate_label(g, pass, sd, u, labels@[u]) by {
                            if labels@[u].unwrap().1 == level {
                                assert(frontier@.contains(u as usize));
                            }
                        }
                        lemma_growth_complete(g, pass, sd, labels@, level as nat, r, x, k);
                    }
                }
            }
        }
    }
    labels
}

/// Plates grow as connected regions: a seed carries distance 0, and every other labelled
/// center has a neighbour (a center that lists it) with the same plate, one step closer
/// to the seed. Following these steps leads back to the seed through the plate itself.
pub proof fn lemma_plate_label_parent(
    g: Seq<Vec<usize>>,
    pass: Seq<bool>,
    seeds: Seq<usize>,
    labels: Seq<Option<(usize, usize)>>,
    v: int,
)
    requires
        labels.len() == g.len(),
        pass.len() == g.len(),
        forall|u: int| 0 <= u < labels.len() ==> is_plate_label(g, pass, seeds, u, #[trigger] labels[u]),
        0 <= v < labels.len(),
        labels[v] is Some,
    ensures
        labels[v].unwrap().1 == 0 ==> seeds[labels[v].unwrap().0 as int] == v,
        labels[v].unwrap().1 > 0 ==> exists|u: int|
            0 <= u < g.len() && #[trigger] g[u]@.contains(v as usize) && labels[u] == Some(
                (labels[v].unwrap().0, (labels[v].unwrap().1 - 1) as usize),
            ),
{
    let (p, d) = labels[v].unwrap();
    assert(is_plate_label(g, pass, seeds, v, labels[v]));
    let psrc = seed_set(g.len(), seeds, p as int);
    if d > 0 {
        assert(!reached_by(g, pass, seeds, p as int, v, (d - 1) as nat));
        let u = lemma_reached_witness(g, psrc, pass, v, (d - 1) as nat);
        assert(reached_by(g, pass, seeds, p as int, u, (d - 1) as nat));
        assert(is_plate_label(g, pass, seeds, u, labels[u]));
        // `u` is labelled, no farther than `d - 1` and by no smaller plate.
        if labels[u] is None {
            assert(false);
        }
        let (pu, du) = labels[u].unwrap();
        let usrc = seed_set(g.len(), seeds, pu as int);
        if du < d - 1 {
            lemma_reached_extend(g, usrc, pass, u, v, du as nat);
            lemma_reached_monotone(g, usrc, pass, v, (du + 1) as nat, (d - 1) as nat);
            assert(reached_by(g, pass, seeds, pu as int, v, (d - 1) as nat));
        }
        if du > d - 1 {
            assert(!reached_by(g, pass, seeds, p as int, u, (du - 1) as nat));
            lemma_reached_monotone(g, psrc, pass, u, (d - 1) as nat, (du - 1) as nat);
        }
        assert(du == d - 1);
        if pu < p {
            lemma_reached_extend(g, usrc, pass, u, v, du as nat);
            assert(reached_by(g, pass, seeds, pu as int, v, d as nat));
        }
        if pu > p {
            assert(!reached_by(g, pass, seeds, p as int, u, du as nat));
        }
        assert(labels[u] == Some((p, (d - 1) as usize)));
    } else {
        assert(psrc[v]);
    }
}

/// The source set made of center `r` alone.
pub open spec fn only(n: nat, r: int) -> Seq<bool> {
    Seq::new(n, |i: int| i == r)
}

/// Centers that may be crossed inside plate `p`: non-ghost centers of that plate.
pub open spec fn in_plate(is_ghost: Seq<bool>, plate: Seq<usize>, p: usize) -> Seq<bool> {
    Seq::new(is_ghost.len(), |i: int| !is_ghost[i] && plate[i] == p)
}

/// `v` can be reached from `r` by following neighbour lists inside the plate of `r`.
pub open spec fn plate_reaches(
    g: Seq<Vec<usize>>,
    is_ghost: Seq<bool>,
    plate: Seq<usize>,
    r: int,
    v: int,
) -> bool {
    exists|k: nat|
        #[trigger] reached(g, only(g.len(), r), in_plate(is_ghost, plate, plate[r]), v, k)
}

/// The centers among the first `s` that start a new region when the centers are scanned in
/// index order: non-ghost, and not reached from an earlier region start.
pub open spec fn region_starts(
    g: Seq<Vec<usize>>,
    is_ghost: Seq<bool>,
    plate: Seq<usize>,
    s: nat,
) -> Seq<int>
    decreases s,
{
    if s == 0 {
        seq![]
    } else {
        let prev = region_starts(g, is_ghost, plate, (s - 1) as nat);
        let c = s - 1;
        if !is_ghost[c] && !(exists|i: int|
            0 <= i < prev.len() && #[trigger] plate_reaches(g, is_ghost, plate, prev[i], c)) {
            prev.push(c)
        } else {
            prev
        }
    }
}

/// How many of the given centers belong to plate `p`.
pub open spec fn count_in_plate(starts: Seq<int>, plate: Seq<usize>, p: int) -> nat
    decreases starts.len(),
{
    if starts.len() == 0 {
        0
    } else {
        count_in_plate(starts.drop_last(), plate, p) + if plate[starts.last()] == p {
            1nat
        } else {
            0nat
        }
    }
}

proof fn lemma_count_in_plate_push(starts: Seq<int>, plate: Seq<usize>, p: int, c: int)
    ensures
        count_in_plate(starts.push(c), plate, p) == count_in_plate(starts, plate, p) + if plate[c]
            == p {
            1nat
        } else {
            0nat
        },
{
    assert(starts.push(c).drop_last() =~= starts);
}

proof fn lemma_count_in_plate_bound(starts: Seq<int>, plate: Seq<usize>, p: int)
    ensures
        count_in_plate(starts, plate, p) <= starts.len(),
    decreases starts.len(),
{
    if starts.len() > 0 {
        lemma_count_in_plate_bound(starts.drop_last(), plate, p);
    }
}

proof fn lemma_region_starts_bound(
    g: Seq<Vec<usize>>,
    is_ghost: Seq<bool>,
    plate: Seq<usize>,
    s: nat,
)
    ensures
        region_starts(g, is_ghost, plate, s).len() <= s,
        forall|i: int|
            0 <= i < region_starts(g, is_ghost, plate, s).len() ==> 0 <= #[trigger] region_starts(
                g,
                is_ghost,
                plate,
                s,
            )[i] < s,
    decreases s,
{
    if s > 0 {
        lemma_region_starts_bound(g, is_ghost, plate, (s - 1) as nat);
    }
}

/// Number of false entries.
pub open spec fn count_false(s: Seq<bool>) -> nat
    decreases s.len(),
{
    if s.len() == 0 {
        0
    } else {
        count_false(s.drop_last()) + if s.last() {
            0nat
        } else {
            1nat
        }
    }
}

proof fn lemma_count_false_set(s: Seq<bool>, w: int)
    requires
        0 <= w < s.len(),
        !s[w],
    ensures
        count_false(s.update(w, true)) + 1 == count_false(s),
    decreases s.len(),
{
    let t = s.update(w, true);
    if w < s.len() - 1 {
        assert(t.drop_last() =~= s.drop_last().update(w, true));
        lemma_count_false_set(s.drop_last(), w);
    } else {
        assert(t.drop_last() =~= s.drop_last());
    }
}

/// Reachability inside a plate composes: what a reached center reaches is reached too.
proof fn lemma_plate_reaches_extend(
    g: Seq<Vec<usize>>,
    is_ghost: Seq<bool>,
    plate: Seq<usize>,
    r: int,
    y: int,
    v: int,
)
    requires
        is_ghost.len() == g.len(),
        plate.len() == g.len(),
        plate_reaches(g, is_ghost, plate, r, y),
        0 <= y < g.len(),
        g[y]@.contains(v as usize),
        0 <= v < g.len(),
        !is_ghost[v],
        plate[v] == plate[r],
    ensures
        plate_reaches(g, is_ghost, plate, r, v),
{
    let pass = in_plate(is_ghost, plate, plate[r]);
    let k = choose|k: nat| #[trigger] reached(g, only(g.len(), r), pass, y, k);
    lemma_reached_extend(g, only(g.len(), r), pass, y, v, k);
}

/// A center reached inside the plate of `r` is `r` itself or a non-ghost center of that plate.
proof fn lemma_plate_reaches_member(
    g: Seq<Vec<usize>>,
    is_ghost: Seq<bool>,
    plate: Seq<usize>,
    r: int,
    v: int,
    k: nat,
)
    requires
        is_ghost.len() == g.len(),
        reached(g, only(g.len(), r), in_plate(is_ghost, plate, plate[r]), v, k),
    ensures
        0 <= v < g.len(),
        v == r || (!is_ghost[v] && plate[v] == plate[r]),
    decreases k,
{
    if k > 0 {
        if reached(g, only(g.len(), r), in_plate(is_ghost, plate, plate[r]), v, (k - 1) as nat) {
            lemma_plate_reaches_member(g, is_ghost, plate, r, v, (k - 1) as nat);
        }
    }
}

/// A depth-first flood from `r` that left every newly visited center with all its in-plate
/// neighbours visited has visited everything `r` reaches inside its plate.
proof fn lemma_flood_complete(
    g: Seq<Vec<usize>>,
    is_ghost: Seq<bool>,
    plate: Seq<usize>,
    before: Seq<bool>,
    visited: Seq<bool>,
    r: int,
    v: int,
    k: nat,
)
    requires
        g.len() <= usize::MAX,
        is_ghost.len() == g.len(),
        plate.len() == g.len(),
        before.len() == g.len(),
        visited.len() == g.len(),
        0 <= r < g.len(),
        visited[r],
        !before[r],
        forall|u: int| 0 <= u < g.len() && #[trigger] before[u] ==> visited[u],
        forall|u: int, j: int|
            0 <= u < g.len() && before[u] && plate[u] == plate[r] && 0 <= j < g[u]@.len() ==> {
                let x = #[trigger] g[u]@[j];
                (x < g.len() && !is_ghost[x as int] && plate[x as int] == plate[r]) ==> before[x as int]
            },
        forall|u: int, j: int|
            0 <= u < g.len() && visited[u] && !before[u] && 0 <= j < g[u]@.len() ==> {
                let x = #[trigger] g[u]@[j];
                (x < g.len() && !is_ghost[x as int] && plate[x as int] == plate[r]) ==> visited[x as int]
            },
        reached(g, only(g.len(), r), in_plate(is_ghost, plate, plate[r]), v, k),
    ensures
        0 <= v < g.len(),
        visited[v],
    decreases k,
{
    let src = only(g.len(), r);
    let pass = in_plate(is_ghost, plate, plate[r]);
    if k == 0 {
    } else if reached(g, src, pass, v, (k - 1) as nat) {
        lemma_flood_complete(g, is_ghost, plate, before, visited, r, v, (k - 1) as nat);
    } else {
        let y = lemma_reached_witness(g, src, pass, v, (k - 1) as nat);
        lemma_flood_complete(g, is_ghost, plate, before, visited, r, y, (k - 1) as nat);
        let j = choose|j: int| 0 <= j < g[y]@.len() && g[y]@[j] == v as usize;
        assert(g[y]@[j] == v as usize);
        assert(pass[v]);
        assert(!is_ghost[v] && plate[v] == plate[r]);
        assert((v as usize) as int == v);
        if before[y] {
            lemma_plate_reaches_member(g, is_ghost, plate, r, y, (k - 1) as nat);
            assert(plate[y] == plate[r]);
            assert(before[v]);
        } else {
            assert(visited[v]);
        }
    }
}

/// Number of connected regions of each plate (ghost centers excluded), found by scanning the
/// centers in index order and flooding each new region through neighbour lists. With
/// symmetric neighbour lists these are the connected components; a sound plate has one.
pub fn plate_component_counts(
    neighbors: &Vec<Vec<usize>>,
    is_ghost: &Vec<bool>,
    plate_ids: &Vec<usize>,
    num_plates: usize,
) -> (counts: Vec<usize>)
    requires
        is_ghost@.len() == neighbors@.len(),
        plate_ids@.len() == neighbors@.len(),
        lists_within(neighbors@, neighbors@.len() as int),
        forall|i: int|
            0 <= i < neighbors@.len() && !#[trigger] is_ghost@[i] ==> plate_ids@[i] < num_plates,
    ensures
        counts@.len() == num_plates,
        forall|p: int|
            0 <= p < num_plates ==> #[trigger] counts@[p] == count_in_plate(
                region_starts(neighbors@, is_ghost@, plate_ids@, neighbors@.len()),
                plate_ids@,
                p,
            ),
{
    let ghost g = neighbors@;
    let ghost gh = is_ghost@;
    let ghost pl = plate_ids@;
    let n = neighbors.len();
    let mut visited: Vec<bool> = Vec::new();
    while visited.len() < n
        invariant
            visited@.len() <= n,
            forall|i: int| 0 <= i < visited@.len() ==> !#[trigger] visited@[i],
        decreases n - visited@.len(),
    {
        visited.push(false);
    }
    let mut counts: Vec<usize> = Vec::new();
    while counts.len() < num_plates
        invariant
            counts@.len() <= num_plates,
            forall|i: int| 0 <= i < counts@.len() ==> #[trigger] counts@[i] == 0,
        decreases num_plates - counts@.len(),
    {
        counts.push(0);
    }
    let mut start: usize = 0;
    while start < n
        invariant
            n == g.len(),
            gh.len() == n,
            pl.len() == n,
            g == neighbors@,
            gh == is_ghost@,
            pl == plate_ids@,
            lists_within(g, n as int),
            forall|i: int| 0 <= i < n && !#[trigger] gh[i] ==> pl[i] < num_plates,
            start <= n,
            visited@.len() == n,
            counts@.len() == num_plates,
            forall|v: int|
                0 <= v < n ==> (#[trigger] visited@[v] <==> exists|i: int|
                    0 <= i < region_starts(g, gh, pl, start as nat).len()
                        && #[trigger] plate_reaches(
                        g,
                        gh,
                        pl,
                        region_starts(g, gh, pl, start as nat)[i],
                        v,
                    )),
            forall|p: int|
                0 <= p < num_plates ==> #[trigger] counts@[p] == count_in_plate(
                    region_starts(g, gh, pl, start as nat),
                    pl,
                    p,
                ),
        decreases n - start,
    {
        let ghost starts = region_starts(g, gh, pl, start as nat);
        proof {
            lemma_region_starts_bound(g, gh, pl, start as nat);
        }
        if visited[start] || is_ghost[start] {
            assert(region_starts(g, gh, pl, (start + 1) as nat) == starts);
        } else {
            let p = plate_ids[start];
            proof {
                lemma_count_in_plate_bound(starts, pl, p as int);
            }
            let c = counts[p];
            counts.set(p, c + 1);
            let ghost before = visited@;
            proof {
                // What was visited before is closed inside its own plate.
                assert forall|u: int, j: int|
                    0 <= u < n && before[u] && pl[u] == pl[start as int] && 0 <= j < g[u]@.len() implies {
                        let x = #[trigger] g[u]@[j];
                        (x < n && !gh[x as int] && pl[x as int] == pl[start as int]) ==> before[x as int]
                    } by {
                    let x = g[u]@[j];
                    if x < n && !gh[x as int] && pl[x as int] == pl[start as int] {
                        let i = choose|i: int|
                            0 <= i < starts.len() && #[trigger] plate_reaches(g, gh, pl, starts[i], u);
                        let r = starts[i];
                        let kk = choose|kk: nat| #[trigger] reached(g, only(g.len(), r), in_plate(gh, pl, pl[r]), u, kk);
                        lemma_plate_reaches_member(g, gh, pl, r, u, kk);
                        assert(g[u]@.contains(x));
                        lemma_plate_reaches_extend(g, gh, pl, r, u, x as int);
                    }
                }
                lemma_count_false_set(visited@, start as int);
            }
            visited.set(start, true);
            let mut stack: Vec<usize> = Vec::new();
            stack.push(start);
            proof {
                assert(reached(g, only(g.len(), start as int), in_plate(gh, pl, pl[start as int]), start as int, 0));
                assert(stack@[0] == start);
                assert(stack@.contains(start));
                assert forall|u: int| 0 <= u < n && visited@[u] && !before[u] implies u == start by {}
            }
            while stack.len() > 0
                invariant
                    n == g.len(),
                    gh.len() == n,
                    pl.len() == n,
                    g == neighbors@,
                    gh == is_ghost@,
                    pl == plate_ids@,
                    lists_within(g, n as int),
                    start < n,
                    p == pl[start as int],
                    !gh[start as int],
                    before.len() == n,
                    visited@.len() == n,
                    visited@[start as int],
                    !before[start as int],
                    forall|u: int| 0 <= u < n && #[trigger] before[u] ==> visited@[u],
                    forall|u: int|
                        0 <= u < n && #[trigger] visited@[u] && !before[u] ==> plate_reaches(
                            g,
                            gh,
                            pl,
                            start as int,
                            u,
                        ),
                    stack@.no_duplicates(),
                    forall|i: int|
                        0 <= i < stack@.len() ==> #[trigger] stack@[i] < n && visited@[stack@[i] as int]
                            && !before[stack@[i] as int],
                    forall|u: int, j: int|
                        0 <= u < n && visited@[u] && !before[u] && !stack@.contains(u as usize) && 0 <= j
                            < g[u]@.len() ==> {
                            let x = #[trigger] g[u]@[j];
                            (x < n && !gh[x as int] && pl[x as int] == p) ==> visited@[x as int]
                        },
                decreases count_false(visited@), stack@.len(),
            {
                let ghost pre_stack = stack@;
                let i = stack.pop().unwrap();
                proof {
                    assert(pre_stack == stack@.push(i));
                    assert(!stack@.contains(i)) by {
                        if stack@.contains(i) {
                            let t = choose|t: int| 0 <= t < stack@.len() && stack@[t] == i;
                            assert(pre_stack[t] == pre_stack[stack@.len() as int]);
                        }
                    }
                    assert forall|t: int| 0 <= t < stack@.len() implies #[trigger] stack@[t] == pre_stack[t] by {}
                    lemma_push_contains(stack@, i);
                }
                let ghost vis_in = visited@;
                let mut j: usize = 0;
                while j < neighbors[i].len()
                    invariant
                        n == g.len(),
                        gh.len() == n,
                        pl.len() == n,
                        g == neighbors@,
                        gh == is_ghost@,
                        pl == plate_ids@,
                        lists_within(g, n as int),
                        start < n,
                        p == pl[start as int],
                        !gh[start as int],
                        before.len() == n,
                        visited@.len() == n,
                        visited@[start as int],
                        !before[start as int],
                        i < n,
                        visited@[i as int],
                        !before[i as int],
                        !stack@.contains(i),
                        j <= g[i as int]@.len(),
                        count_false(visited@) <= count_false(vis_in),
                        (count_false(visited@) == count_false(vis_in)) ==> stack@.len() + 1
                            == pre_stack.len(),
                        forall|u: int| 0 <= u < n && #[trigger] before[u] ==> visited@[u],
                        forall|u: int|
                            0 <= u < n && #[trigger] visited@[u] && !before[u] ==> plate_reaches(
                                g,
                                gh,
                                pl,
                                start as int,
                                u,
                            ),
                        stack@.no_duplicates(),
                        forall|t: int|
                            0 <= t < stack@.len() ==> #[trigger] stack@[t] < n
                                && visited@[stack@[t] as int] && !before[stack@[t] as int],
                        forall|u: int, jj: int|
                            0 <= u < n && u != i && visited@[u] && !before[u] && !stack@.contains(
                                u as usize,
                            ) && 0 <= jj < g[u]@.len() ==> {
                                let x = #[trigger] g[u]@[jj];
                                (x < n && !gh[x as int] && pl[x as int] == p) ==> visited@[x as int]
                            },
                        forall|jj: int|
                            0 <= jj < j ==> {
                                let x = #[trigger] g[i as int]@[jj];
                                (x < n && !gh[x as int] && pl[x as int] == p) ==> visited@[x as int]
                            },
                    decreases g[i as int]@.len() - j,
                {
                    let m = neighbors[i][j];
                    proof {
                        assert(g[i as int]@[j as int] == m);
                        assert(m < n);
                    }
                    if !visited[m] && !is_ghost[m] && plate_ids[m] == p {
                        proof {
                            assert(g[i as int]@.contains(m));
                            lemma_plate_reaches_extend(g, gh, pl, start as int, i as int, m as int);
                            lemma_count_false_set(visited@, m as int);
                            lemma_push_contains(stack@, m);
                            assert(!stack@.contains(m));
                        }
                        visited.set(m, true);
                        stack.push(m);
                    }
                    j += 1;
                }
            }
            proof {
                let r = start as int;
                assert forall|v: int| 0 <= v < n implies (#[trigger] visited@[v] <==> (before[v]
                    || plate_reaches(g, gh, pl, r, v))) by {
                    if plate_reaches(g, gh, pl, r, v) {
                        let kk = choose|kk: nat| #[trigger] reached(g, only(g.len(), r), in_plate(gh, pl, pl[r]), v, kk);
                        lemma_flood_complete(g, gh, pl, before, visited@, r, v, kk);
                    }
                }
                let nstarts = region_starts(g, gh, pl, (start + 1) as nat);
                assert(!(exists|i: int|
                    0 <= i < starts.len() && #[trigger] plate_reaches(g, gh, pl, starts[i], r)));
                assert(nstarts == starts.push(r));
                assert forall|v: int| 0 <= v < n implies (#[trigger] visited@[v] <==> exists|i: int|
                    0 <= i < nstarts.len() && #[trigger] plate_reaches(g, gh, pl, nstarts[i], v)) by {
                    if visited@[v] {
                        if before[v] {
                            let i = choose|i: int|
                                0 <= i < starts.len() && #[trigger] plate_reaches(g, gh, pl, starts[i], v);
                            assert(nstarts[i] == starts[i]);
                        } else {
                            assert(nstarts[starts.len() as int] == r);
                        }
                    }
                    if exists|i: int| 0 <= i < nstarts.len() && #[trigger] plate_reaches(g, gh, pl, nstarts[i], v) {
                        let i = choose|i: int|
                            0 <= i < nstarts.len() && #[trigger] plate_reaches(g, gh, pl, nstarts[i], v);
                        if i < starts.len() {
                            assert(nstarts[i] == starts[i]);
                            assert(before[v]);
                        }
                    }
                }
                assert forall|q: int| 0 <= q < num_plates implies #[trigger] counts@[q] == count_in_plate(
                    nstarts,
                    pl,
                    q,
                ) by {
                    lemma_count_in_plate_push(starts, pl, q, r);
                }
            }
        }
        start += 1;
    }
    counts
}

/// Neighbour lists are symmetric: `v` lists `u` exactly when `u` lists `v`.
pub open spec fn symmetric_lists(g: Seq<Vec<usize>>) -> bool {
    forall|u: int, v: int|
        0 <= u < g.len() && 0 <= v < g.len() ==> (#[trigger] g[u]@.contains(v as usize) <==> #[trigger] g[v]@.contains(u as usize))
}

/// A walk from `x` can be started one step earlier, at a center `b` that lists `x`.
proof fn lemma_reached_prepend(g: Seq<Vec<usize>>, pass: Seq<bool>, b: int, x: int, v: int, k: nat)
    requires
        g.len() <= usize::MAX,
        0 <= b < g.len(),
        0 <= x < g.len(),
        pass.len() == g.len(),
        g[b]@.contains(x as usize),
        pass[x],
        reached(g, only(g.len(), x), pass, v, k),
    ensures
        reached(g, only(g.len(), b), pass, v, k + 1),
    decreases k,
{
    if k == 0 {
        assert(v == x);
        assert(reached(g, only(g.len(), b), pass, b, 0));
        lemma_reached_extend(g, only(g.len(), b), pass, b, x, 0);
    } else if reached(g, only(g.len(), x), pass, v, (k - 1) as nat) {
        lemma_reached_prepend(g, pass, b, x, v, (k - 1) as nat);
        lemma_reached_monotone(g, only(g.len(), b), pass, v, k, k + 1);
    } else {
        let y = lemma_reached_witness(g, only(g.len(), x), pass, v, (k - 1) as nat);
        lemma_reached_prepend(g, pass, b, x, y, (k - 1) as nat);
        lemma_reached_extend(g, only(g.len(), b), pass, y, v, k);
    }
}

/// Walks from a single center stay inside the passable set, apart from the start.
proof fn lemma_reached_member(g: Seq<Vec<usize>>, pass: Seq<bool>, a: int, v: int, k: nat)
    requires
        pass.len() == g.len(),
        reached(g, only(g.len(), a), pass, v, k),
    ensures
        0 <= v < g.len(),
        v == a || pass[v],
    decreases k,
{
    if k > 0 && reached(g, only(g.len(), a), pass, v, (k - 1) as nat) {
        lemma_reached_member(g, pass, a, v, (k - 1) as nat);
    }
}

/// With symmetric neighbour lists, a walk can be run backwards.
proof fn lemma_reached_reverse(g: Seq<Vec<usize>>, pass: Seq<bool>, a: int, v: int, k: nat)
    requires
        g.len() <= usize::MAX,
        symmetric_lists(g),
        pass.len() == g.len(),
        0 <= a < g.len(),
        pass[a],
        reached(g, only(g.len(), a), pass, v, k),
    ensures
        reached(g, only(g.len(), v), pass, a, k),
    decreases k,
{
    lemma_reached_member(g, pass, a, v, k);
    if k == 0 {
        assert(v == a);
    } else if reached(g, only(g.len(), a), pass, v, (k - 1) as nat) {
        lemma_reached_reverse(g, pass, a, v, (k - 1) as nat);
        lemma_reached_monotone(g, only(g.len(), v), pass, a, (k - 1) as nat, k);
    } else {
        let y = lemma_reached_witness(g, only(g.len(), a), pass, v, (k - 1) as nat);
        lemma_reached_member(g, pass, a, y, (k - 1) as nat);
        lemma_reached_reverse(g, pass, a, y, (k - 1) as nat);
        assert(g[v]@.contains(y as usize));
        lemma_reached_prepend(g, pass, v, y, a, (k - 1) as nat);
    }
}

/// Walks compose: from `a` to `s`, then from `s` to `c`.
proof fn lemma_reached_concat(g: Seq<Vec<usize>>, pass: Seq<bool>, a: int, s: int, c: int, k1: nat, k2: nat)
    requires
        pass.len() == g.len(),
        reached(g, only(g.len(), a), pass, s, k1),
        reached(g, only(g.len(), s), pass, c, k2),
    ensures
        reached(g, only(g.len(), a), pass, c, k1 + k2),
    decreases k2,
{
    if k2 == 0 {
        assert(c == s);
    } else if reached(g, only(g.len(), s), pass, c, (k2 - 1) as nat) {
        lemma_reached_concat(g, pass, a, s, c, k1, (k2 - 1) as nat);
        lemma_reached_monotone(g, only(g.len(), a), pass, c, (k1 + k2 - 1) as nat, k1 + k2);
    } else {
        let y = lemma_reached_witness(g, only(g.len(), s), pass, c, (k2 - 1) as nat);
        lemma_reached_concat(g, pass, a, s, y, k1, (k2 - 1) as nat);
        lemma_reached_extend(g, only(g.len(), a), pass, y, c, (k1 + k2 - 1) as nat);
    }
}

/// A center labelled `(p, d)` is reached from the seed of plate `p` in `d` steps without
/// leaving plate `p`.
proof fn lemma_label_path_in_plate(
    g: Seq<Vec<usize>>,
    is_ghost: Seq<bool>,
    seeds: Seq<usize>,
    labels: Seq<Option<(usize, usize)>>,
    plate: Seq<usize>,
    v: int,
    d: nat,
)
    requires
        g.len() <= usize::MAX,
        is_ghost.len() == g.len(),
        labels.len() == g.len(),
        plate.len() == g.len(),
        forall|u: int| 0 <= u < labels.len() ==> is_plate_label(g, not_ghost(is_ghost), seeds, u, #[trigger] labels[u]),
        forall|u: int| 0 <= u < g.len() && !#[trigger] is_ghost[u] ==> labels[u] is Some && plate[u] == labels[u].unwrap().0,
        forall|q: int| 0 <= q < seeds.len() ==> !#[trigger] is_ghost[seeds[q] as int],
        0 <= v < g.len(),
        labels[v] is Some,
        labels[v].unwrap().1 == d,
    ensures
        reached(
            g,
            only(g.len(), seeds[labels[v].unwrap().0 as int] as int),
            in_plate(is_ghost, plate, labels[v].unwrap().0),
            v,
            d,
        ),
        !is_ghost[v],
        plate[v] == labels[v].unwrap().0,
    decreases d,
{
    let p = labels[v].unwrap().0;
    let pass = not_ghost(is_ghost);
    let ip = in_plate(is_ghost, plate, p);
    let src = only(g.len(), seeds[p as int] as int);
    lemma_plate_label_parent(g, pass, seeds, labels, v);
    if d == 0 {
        assert(seeds[p as int] == v);
        assert(src[v]);
    } else {
        let u = choose|u: int|
            0 <= u < g.len() && #[trigger] g[u]@.contains(v as usize) && labels[u] == Some((p, (d - 1) as usize));
        lemma_label_path_in_plate(g, is_ghost, seeds, labels, plate, u, (d - 1) as nat);
        assert(is_plate_label(g, pass, seeds, v, labels[v]));
        assert(!reached_by(g, pass, seeds, p as int, v, (d - 1) as nat));
        let _entry = lemma_reached_witness(g, seed_set(g.len(), seeds, p as int), pass, v, (d - 1) as nat);
        assert(pass[v]);
        assert(!is_ghost[v]);
        lemma_reached_extend(g, src, ip, u, v, (d - 1) as nat);
    }
}

/// Region starts all lie in the first `s` centers and are real centers.
proof fn lemma_region_starts_real(g: Seq<Vec<usize>>, is_ghost: Seq<bool>, plate: Seq<usize>, s: nat)
    ensures
        forall|i: int|
            0 <= i < region_starts(g, is_ghost, plate, s).len() ==> !is_ghost[#[trigger] region_starts(
                g,
                is_ghost,
                plate,
                s,
            )[i]],
    decreases s,
{
    if s > 0 {
        lemma_region_starts_real(g, is_ghost, plate, (s - 1) as nat);
        let prev = region_starts(g, is_ghost, plate, (s - 1) as nat);
        let cur = region_starts(g, is_ghost, plate, s);
        assert forall|i: int| 0 <= i < cur.len() implies !is_ghost[#[trigger] cur[i]] by {
            if i < prev.len() {
                assert(cur[i] == prev[i]);
            }
        }
    }
}

proof fn lemma_count_in_plate_witness(starts: Seq<int>, plate: Seq<usize>, p: int)
    requires
        count_in_plate(starts, plate, p) > 0,
    ensures
        exists|i: int| 0 <= i < starts.len() && plate[#[trigger] starts[i]] == p,
    decreases starts.len(),
{
    if count_in_plate(starts.drop_last(), plate, p) > 0 {
        lemma_count_in_plate_witness(starts.drop_last(), plate, p);
        let i = choose|i: int| 0 <= i < starts.drop_last().len() && plate[#[trigger] starts.drop_last()[i]] == p;
        assert(starts[i] == starts.drop_last()[i]);
    } else {
        assert(plate[starts[starts.len() - 1]] == p);
    }
}

/// Some real center among the first `s` belongs to plate `p`.
pub open spec fn plate_present(is_ghost: Seq<bool>, plate: Seq<usize>, p: int, s: int) -> bool {
    exists|v: int| 0 <= v < s && !is_ghost[v] && #[trigger] plate[v] == p
}

/// Grown plates are connected: when the neighbour lists are symmetric and every real center
/// carries the plate that the growth from the seeds gave it, each plate that owns a center is
/// a single region (count 1), and a plate that owns none has no region.
pub proof fn lemma_grown_plates_connected(
    g: Seq<Vec<usize>>,
    is_ghost: Seq<bool>,
    seeds: Seq<usize>,
    labels: Seq<Option<(usize, usize)>>,
    plate: Seq<usize>,
    p: int,
)
    requires
        g.len() <= usize::MAX,
        is_ghost.len() == g.len(),
        labels.len() == g.len(),
        plate.len() == g.len(),
        symmetric_lists(g),
        forall|q: int| 0 <= q < seeds.len() ==> #[trigger] seeds[q] < g.len() && !is_ghost[seeds[q] as int],
        seeds.no_duplicates(),
        forall|u: int| 0 <= u < labels.len() ==> is_plate_label(g, not_ghost(is_ghost), seeds, u, #[trigger] labels[u]),
        forall|u: int| 0 <= u < g.len() && !#[trigger] is_ghost[u] ==> labels[u] is Some && plate[u] == labels[u].unwrap().0,
    ensures
        count_in_plate(region_starts(g, is_ghost, plate, g.len()), plate, p) == if plate_present(
            is_ghost,
            plate,
            p,
            g.len() as int,
        ) {
            1nat
        } else {
            0nat
        },
{
    lemma_plates_connected_upto(g, is_ghost, seeds, labels, plate, p, g.len());
}

/// Any two real centers of the same plate reach each other inside the plate.
proof fn lemma_same_plate_reaches(
    g: Seq<Vec<usize>>,
    is_ghost: Seq<bool>,
    seeds: Seq<usize>,
    labels: Seq<Option<(usize, usize)>>,
    plate: Seq<usize>,
    a: int,
    c: int,
)
    requires
        g.len() <= usize::MAX,
        is_ghost.len() == g.len(),
        labels.len() == g.len(),
        plate.len() == g.len(),
        symmetric_lists(g),
        forall|q: int| 0 <= q < seeds.len() ==> #[trigger] seeds[q] < g.len() && !is_ghost[seeds[q] as int],
        seeds.no_duplicates(),
        forall|u: int| 0 <= u < labels.len() ==> is_plate_label(g, not_ghost(is_ghost), seeds, u, #[trigger] labels[u]),
        forall|u: int| 0 <= u < g.len() && !#[trigger] is_ghost[u] ==> labels[u] is Some && plate[u] == labels[u].unwrap().0,
        0 <= a < g.len(),
        0 <= c < g.len(),
        !is_ghost[a],
        !is_ghost[c],
        plate[a] == plate[c],
    ensures
        plate_reaches(g, is_ghost, plate, a, c),
{
    let p = plate[a];
    let ip = in_plate(is_ghost, plate, p);
    assert(is_plate_label(g, not_ghost(is_ghost), seeds, a, labels[a]));
    let s = seeds[p as int] as int;
    let da = labels[a].unwrap().1;
    let dc = labels[c].unwrap().1;
    lemma_label_path_in_plate(g, is_ghost, seeds, labels, plate, a, da as nat);
    lemma_label_path_in_plate(g, is_ghost, seeds, labels, plate, c, dc as nat);
    let pass = not_ghost(is_ghost);
    assert(seed_set(g.len(), seeds, p as int)[s]);
    assert(reached_by(g, pass, seeds, p as int, s, 0));
    assert(is_plate_label(g, pass, seeds, s, labels[s]));
    assert forall|q: int| 0 <= q < p implies !#[trigger] reached_by(g, pass, seeds, q, s, 0) by {
        assert(seeds[q] != seeds[p as int]);
    }
    assert(labels[s] is Some);
    let (ps, ds) = labels[s].unwrap();
    if ds > 0 {
        lemma_reached_monotone(g, seed_set(g.len(), seeds, p as int), pass, s, 0, (ds - 1) as nat);
        assert(reached_by(g, pass, seeds, p as int, s, (ds - 1) as nat));
    }
    if ps < p {
        assert(reached_by(g, pass, seeds, ps as int, s, 0));
        assert(seeds[ps as int] == seeds[p as int]);
    }
    assert(ps == p);
    assert(ip[s]);
    lemma_reached_reverse(g, ip, s, a, da as nat);
    lemma_reached_concat(g, ip, a, s, c, da as nat, dc as nat);
    assert(reached(g, only(g.len(), a), in_plate(is_ghost, plate, plate[a]), c, (da + dc) as nat));
}

proof fn lemma_plates_connected_upto(
    g: Seq<Vec<usize>>,
    is_ghost: Seq<bool>,
    seeds: Seq<usize>,
    labels: Seq<Option<(usize, usize)>>,
    plate: Seq<usize>,
    p: int,
    s: nat,
)
    requires
        g.len() <= usize::MAX,
        s <= g.len(),
        is_ghost.len() == g.len(),
        labels.len() == g.len(),
        plate.len() == g.len(),
        symmetric_lists(g),
        forall|q: int| 0 <= q < seeds.len() ==> #[trigger] seeds[q] < g.len() && !is_ghost[seeds[q] as int],
        seeds.no_duplicates(),
        forall|u: int| 0 <= u < labels.len() ==> is_plate_label(g, not_ghost(is_ghost), seeds, u, #[trigger] labels[u]),
        forall|u: int| 0 <= u < g.len() && !#[trigger] is_ghost[u] ==> labels[u] is Some && plate[u] == labels[u].unwrap().0,
    ensures
        count_in_plate(region_starts(g, is_ghost, plate, s), plate, p) == if plate_present(
            is_ghost,
            plate,
            p,
            s as int,
        ) {
            1nat
        } else {
            0nat
        },
    decreases s,
{
    if s > 0 {
        lemma_plates_connected_upto(g, is_ghost, seeds, labels, plate, p, (s - 1) as nat);
        let prev = region_starts(g, is_ghost, plate, (s - 1) as nat);
        let c = s - 1;
        lemma_region_starts_bound(g, is_ghost, plate, (s - 1) as nat);
        lemma_region_starts_real(g, is_ghost, plate, (s - 1) as nat);
        let reached_before = exists|i: int|
            0 <= i < prev.len() && #[trigger] plate_reaches(g, is_ghost, plate, prev[i], c);
        if !is_ghost[c] && plate[c] == p {
            assert(plate_present(is_ghost, plate, p, s as int));
            if plate_present(is_ghost, plate, p, (s - 1) as int) {
                lemma_count_in_plate_witness(prev, plate, p);
                let i = choose|i: int| 0 <= i < prev.len() && plate[#[trigger] prev[i]] == p;
                lemma_same_plate_reaches(g, is_ghost, seeds, labels, plate, prev[i], c);
                assert(reached_before);
            } else {
                assert forall|i: int| 0 <= i < prev.len() implies !#[trigger] plate_reaches(
                    g,
                    is_ghost,
                    plate,
                    prev[i],
                    c,
                ) by {
                    let r = prev[i];
                    if plate_reaches(g, is_ghost, plate, r, c) {
                        let k = choose|k: nat| #[trigger] reached(g, only(g.len(), r), in_plate(is_ghost, plate, plate[r]), c, k);
                        lemma_plate_reaches_member(g, is_ghost, plate, r, c, k);
                        assert(plate_present(is_ghost, plate, p, (s - 1) as int));
                    }
                }
                lemma_count_in_plate_push(prev, plate, p, c);
            }
        } else {
            if plate_present(is_ghost, plate, p, s as int) {
                let v = choose|v: int| 0 <= v < s && !is_ghost[v] && #[trigger] plate[v] == p;
                assert(v != c);
                assert(plate_present(is_ghost, plate, p, (s - 1) as int));
            }
            if plate_present(is_ghost, plate, p, (s - 1) as int) {
                let v = choose|v: int| 0 <= v < s - 1 && !is_ghost[v] && #[trigger] plate[v] == p;
                assert(plate_present(is_ghost, plate, p, s as int));
            }
            if !is_ghost[c] && !reached_before {
                lemma_count_in_plate_push(prev, plate, p, c);
            }
        }
    }
}

/// Reaching inside a plate is transitive.
proof fn lemma_plate_reaches_trans(
    g: Seq<Vec<usize>>,
    is_ghost: Seq<bool>,
    plate: Seq<usize>,
    a: int,
    b: int,
    c: int,
)
    requires
        is_ghost.len() == g.len(),
        plate.len() == g.len(),
        plate_reaches(g, is_ghost, plate, a, b),
        plate_reaches(g, is_ghost, plate, b, c),
    ensures
        plate_reaches(g, is_ghost, plate, a, c),
{
    let k1 = choose|k: nat| #[trigger] reached(g, only(g.len(), a), in_plate(is_ghost, plate, plate[a]), b, k);
    let k2 = choose|k: nat| #[trigger] reached(g, only(g.len(), b), in_plate(is_ghost, plate, plate[b]), c, k);
    lemma_plate_reaches_member(g, is_ghost, plate, a, b, k1);
    lemma_reached_concat(g, in_plate(is_ghost, plate, plate[a]), a, b, c, k1, k2);
    assert(reached(g, only(g.len(), a), in_plate(is_ghost, plate, plate[a]), c, k1 + k2));
}

/// A real center reaches itself inside its plate.
proof fn lemma_plate_reaches_self(g: Seq<Vec<usize>>, is_ghost: Seq<bool>, plate: Seq<usize>, a: int)
    requires
        0 <= a < g.len(),
    ensures
        plate_reaches(g, is_ghost, plate, a, a),
{
    assert(reached(g, only(g.len(), a), in_plate(is_ghost, plate, plate[a]), a, 0));
}

/// With symmetric neighbour lists, reaching inside a plate between real centers goes both ways.
proof fn lemma_plate_reaches_sym(g: Seq<Vec<usize>>, is_ghost: Seq<bool>, plate: Seq<usize>, a: int, b: int)
    requires
        g.len() <= usize::MAX,
        is_ghost.len() == g.len(),
        plate.len() == g.len(),
        symmetric_lists(g),
        0 <= a < g.len(),
        !is_ghost[a],
        plate_reaches(g, is_ghost, plate, a, b),
    ensures
        plate_reaches(g, is_ghost, plate, b, a),
{
    let ip = in_plate(is_ghost, plate, plate[a]);
    let k = choose|k: nat| #[trigger] reached(g, only(g.len(), a), ip, b, k);
    lemma_plate_reaches_member(g, is_ghost, plate, a, b, k);
    lemma_reached_reverse(g, ip, a, b, k);
    assert(in_plate(is_ghost, plate, plate[b]) == ip);
    assert(reached(g, only(g.len(), b), in_plate(is_ghost, plate, plate[b]), a, k));
}

/// No smaller real center reaches `r` inside its plate.
pub open spec fn first_in_region(g: Seq<Vec<usize>>, is_ghost: Seq<bool>, plate: Seq<usize>, r: int) -> bool {
    &&& !is_ghost[r]
    &&& forall|v: int| 0 <= v < r && !is_ghost[v] ==> !#[trigger] plate_reaches(g, is_ghost, plate, v, r)
}

#[verifier::spinoff_prover]
#[verifier::rlimit(60)]
proof fn lemma_region_starts_upto(g: Seq<Vec<usize>>, is_ghost: Seq<bool>, plate: Seq<usize>, s: nat)
    requires
        s <= g.len(),
        is_ghost.len() == g.len(),
        plate.len() == g.len(),
    ensures
        forall|r: int|
            0 <= r < s ==> (#[trigger] region_starts(g, is_ghost, plate, s).contains(r) <==> first_in_region(
                g,
                is_ghost,
                plate,
                r,
            )),
        forall|v: int|
            0 <= v < s && !is_ghost[v] ==> exists|i: int|
                0 <= i < region_starts(g, is_ghost, plate, s).len() && #[trigger] plate_reaches(
                    g,
                    is_ghost,
                    plate,
                    region_starts(g, is_ghost, plate, s)[i],
                    v,
                ),
    decreases s,
{
    if s > 0 {
        lemma_region_starts_upto(g, is_ghost, plate, (s - 1) as nat);
        lemma_region_starts_bound(g, is_ghost, plate, (s - 1) as nat);
        lemma_region_starts_real(g, is_ghost, plate, (s - 1) as nat);
        let prev = region_starts(g, is_ghost, plate, (s - 1) as nat);
        let cur = region_starts(g, is_ghost, plate, s);
        let c = s - 1;
        let hit = exists|i: int| 0 <= i < prev.len() && #[trigger] plate_reaches(g, is_ghost, plate, prev[i], c);
        if !is_ghost[c] && !hit {
            assert(cur == prev.push(c));
            assert forall|r: int| 0 <= r < s implies (#[trigger] cur.contains(r) <==> first_in_region(
                g,
                is_ghost,
                plate,
                r,
            )) by {
                if r < c {
                    if cur.contains(r) {
                        let i = choose|i: int| 0 <= i < cur.len() && cur[i] == r;
                        assert(prev[i] == r);
                    }
                    if prev.contains(r) {
                        let i = choose|i: int| 0 <= i < prev.len() && prev[i] == r;
                        assert(cur[i] == r);
                    }
                } else {
                    assert(cur[prev.len() as int] == c);
                    assert forall|v: int| 0 <= v < c && !is_ghost[v] implies !#[trigger] plate_reaches(
                        g,
                        is_ghost,
                        plate,
                        v,
                        c,
                    ) by {
                        if plate_reaches(g, is_ghost, plate, v, c) {
                            let i = choose|i: int|
                                0 <= i < prev.len() && #[trigger] plate_reaches(g, is_ghost, plate, prev[i], v);
                            lemma_plate_reaches_trans(g, is_ghost, plate, prev[i], v, c);
                        }
                    }
                }
            }
            assert forall|v: int| 0 <= v < s && !is_ghost[v] implies exists|i: int|
                0 <= i < cur.len() && #[trigger] plate_reaches(g, is_ghost, plate, cur[i], v) by {
                if v < c {
                    let i = choose|i: int|
                        0 <= i < prev.len() && #[trigger] plate_reaches(g, is_ghost, plate, prev[i], v);
                    assert(cur[i] == prev[i]);
                } else {
                    lemma_plate_reaches_self(g, is_ghost, plate, c);
                    assert(cur[prev.len() as int] == c);
                }
            }
        } else {
            assert(cur == prev);
            assert(!prev.contains(c)) by {
                if prev.contains(c) {
                    let i = choose|i: int| 0 <= i < prev.len() && prev[i] == c;
                }
            }
            if !is_ghost[c] {
                let i = choose|i: int| 0 <= i < prev.len() && #[trigger] plate_reaches(g, is_ghost, plate, prev[i], c);
                assert(!first_in_region(g, is_ghost, plate, c)) by {
                    assert(plate_reaches(g, is_ghost, plate, prev[i], c));
                }
            }
        }
    }
}

/// The region scan read directly: a center starts a region exactly when it is real and no
/// smaller real center reaches it inside its plate. With symmetric neighbour lists this is
/// the least real center of each connected region of a plate: no smaller real center is
/// reachable from it inside its plate.
pub proof fn lemma_region_starts_least(g: Seq<Vec<usize>>, is_ghost: Seq<bool>, plate: Seq<usize>, r: int)
    requires
        g.len() <= usize::MAX,
        is_ghost.len() == g.len(),
        plate.len() == g.len(),
        0 <= r < g.len(),
    ensures
        region_starts(g, is_ghost, plate, g.len()).contains(r) <==> first_in_region(g, is_ghost, plate, r),
        symmetric_lists(g) ==> (region_starts(g, is_ghost, plate, g.len()).contains(r) <==> (!is_ghost[r]
            && forall|v: int|
            0 <= v < r && !is_ghost[v] ==> !#[trigger] plate_reaches(g, is_ghost, plate, r, v))),
{
    lemma_region_starts_upto(g, is_ghost, plate, g.len());
    if symmetric_lists(g) && !is_ghost[r] {
        assert forall|v: int| 0 <= v < r && !is_ghost[v] implies (plate_reaches(g, is_ghost, plate, r, v)
            <==> plate_reaches(g, is_ghost, plate, v, r)) by {
            if plate_reaches(g, is_ghost, plate, r, v) {
                lemma_plate_reaches_sym(g, is_ghost, plate, r, v);
            }
            if plate_reaches(g, is_ghost, plate, v, r) {
                lemma_plate_reaches_sym(g, is_ghost, plate, v, r);
            }
        }
    }
}
} // verus!
