use vstd::prelude::*;

verus! {

/// Fixed palette for plate maps; plate `p` gets entry `p % 16`.
pub const PLATE_PALETTE: [[u8; 3]; 16] = [
    [230, 25, 75],
    [60, 180, 75],
    [255, 225, 25],
    [0, 130, 200],
    [245, 130, 48],
    [145, 30, 180],
    [70, 240, 240],
    [240, 50, 230],
    [210, 245, 60],
    [250, 190, 190],
    [0, 128, 128],
    [230, 190, 255],
    [170, 110, 40],
    [255, 250, 200],
    [128, 0, 0],
    [170, 255, 195],
];

/// Colour of plate `plate_id` on the plate map.
pub fn plate_color(plate_id: usize) -> (rgb: [u8; 3])
    ensures
        rgb == PLATE_PALETTE@[plate_id as int % 16],
{
    PLATE_PALETTE[plate_id % 16]
}

/// Center `i` is on a coastline: it is real and some real neighbour lies on the other side of
/// the water line.
pub open spec fn is_coast(g: Seq<Vec<usize>>, is_ghost: Seq<bool>, is_water: Seq<bool>, i: int) -> bool {
    &&& !is_ghost[i]
    &&& exists|j: int|
        0 <= j < g[i]@.len() && {
            let nb = #[trigger] g[i]@[j];
            &&& nb < g.len()
            &&& !is_ghost[nb as int]
            &&& is_water[nb as int] != is_water[i]
        }
}

/// Which centers are coasts, stated over the neighbour set: a center is a coast exactly when it
/// is real and one of its neighbours, wherever it stands in the list, is a real center inside
/// the graph on the other side of the water line. Reordering or repeating neighbours therefore
/// changes nothing.
pub proof fn lemma_coast_by_neighbour_set(
    g: Seq<Vec<usize>>,
    is_ghost: Seq<bool>,
    is_water: Seq<bool>,
    i: int,
)
    ensures
        is_coast(g, is_ghost, is_water, i) <==> !is_ghost[i] && exists|nb: usize|
            #[trigger] g[i]@.contains(nb) && nb < g.len() && !is_ghost[nb as int]
                && is_water[nb as int] != is_water[i],
{
    if is_coast(g, is_ghost, is_water, i) {
        let j = choose|j: int|
            0 <= j < g[i]@.len() && {
                let nb = #[trigger] g[i]@[j];
                &&& nb < g.len()
                &&& !is_ghost[nb as int]
                &&& is_water[nb as int] != is_water[i]
            };
        assert(g[i]@.contains(g[i]@[j]));
    }
    if !is_ghost[i] && exists|nb: usize|
        #[trigger] g[i]@.contains(nb) && nb < g.len() && !is_ghost[nb as int]
            && is_water[nb as int] != is_water[i] {
        let nb = choose|nb: usize|
            #[trigger] g[i]@.contains(nb) && nb < g.len() && !is_ghost[nb as int]
                && is_water[nb as int] != is_water[i];
        let j = choose|j: int| 0 <= j < g[i]@.len() && g[i]@[j] == nb;
        assert(g[i]@[j] == nb);
    }
}

/// Two graphs whose center `i` has the same neighbours, in any order, give the same coast flag.
pub proof fn lemma_coast_ignores_neighbour_order(
    g: Seq<Vec<usize>>,
    h: Seq<Vec<usize>>,
    is_ghost: Seq<bool>,
    is_water: Seq<bool>,
    i: int,
)
    requires
        g.len() == h.len(),
        forall|nb: usize| #[trigger] g[i]@.contains(nb) <==> h[i]@.contains(nb),
    ensures
        is_coast(g, is_ghost, is_water, i) == is_coast(h, is_ghost, is_water, i),
{
    lemma_coast_by_neighbour_set(g, is_ghost, is_water, i);
    lemma_coast_by_neighbour_set(h, is_ghost, is_water, i);
    if exists|nb: usize|
        #[trigger] g[i]@.contains(nb) && nb < g.len() && !is_ghost[nb as int]
            && is_water[nb as int] != is_water[i] {
        let nb = choose|nb: usize|
            #[trigger] g[i]@.contains(nb) && nb < g.len() && !is_ghost[nb as int]
                && is_water[nb as int] != is_water[i];
        assert(h[i]@.contains(nb));
    }
    if exists|nb: usize|
        #[trigger] h[i]@.contains(nb) && nb < h.len() && !is_ghost[nb as int]
            && is_water[nb as int] != is_water[i] {
        let nb = choose|nb: usize|
            #[trigger] h[i]@.contains(nb) && nb < h.len() && !is_ghost[nb as int]
                && is_water[nb as int] != is_water[i];
        assert(g[i]@.contains(nb));
    }
}

/// Marks the coastline centers. Neighbour indices outside the graph are ignored.
pub fn coast_flags(neighbors: &Vec<Vec<usize>>, is_ghost: &Vec<bool>, is_water: &Vec<bool>) -> (coast: Vec<bool>)
    requires
        is_ghost@.len() == neighbors@.len(),
        is_water@.len() == neighbors@.len(),
    ensures
        coast@.len() == neighbors@.len(),
        forall|i: int|
            0 <= i < coast@.len() ==> #[trigger] coast@[i] == is_coast(
                neighbors@,
                is_ghost@,
                is_water@,
                i,
            ),
{
    let n = neighbors.len();
    let mut coast: Vec<bool> = Vec::new();
    let mut i: usize = 0;
    while i < n
        invariant
            n == neighbors@.len(),
            is_ghost@.len() == n,
            is_water@.len() == n,
            i <= n,
            coast@.len() == i,
            forall|k: int|
                0 <= k < i ==> #[trigger] coast@[k] == is_coast(neighbors@, is_ghost@, is_water@, k),
        decreases n - i,
    {
        let mut found = false;
        if !is_ghost[i] {
            let mut j: usize = 0;
            while j < neighbors[i].len() && !found
                invariant
                    n == neighbors@.len(),
                    is_ghost@.len() == n,
                    is_water@.len() == n,
                    i < n,
                    !is_ghost@[i as int],
                    j <= neighbors@[i as int]@.len(),
                    found ==> is_coast(neighbors@, is_ghost@, is_water@, i as int),
                    !found ==> forall|k: int|
                        0 <= k < j ==> {
                            let nb = #[trigger] neighbors@[i as int]@[k];
                            !(nb < n && !is_ghost@[nb as int] && is_water@[nb as int] != is_water@[i as int])
                        },
                decreases neighbors@[i as int]@.len() - j,
            {
                let nb = neighbors[i][j];
                if nb < n && !is_ghost[nb] && is_water[nb] != is_water[i] {
                    assert(neighbors@[i as int]@[j as int] == nb);
                    found = true;
                }
                j += 1;
            }
        }
        coast.push(found);
        i += 1;
    }
    coast
}

/// `s` with every run of equal consecutive elements cut down to one element.
pub open spec fn dedup_runs(s: Seq<(i32, i32)>) -> Seq<(i32, i32)>
    decreases s.len(),
{
    if s.len() == 0 {
        s
    } else {
        let d = dedup_runs(s.drop_last());
        if d.len() > 0 && d.last() == s.last() {
            d
        } else {
            d.push(s.last())
        }
    }
}

/// The polygon actually filled: consecutive duplicates merged, then a closing vertex that
/// repeats the first one dropped (when more than two remain).
pub open spec fn cleaned_polygon(s: Seq<(i32, i32)>) -> Seq<(i32, i32)> {
    let d = dedup_runs(s);
    if d.len() > 2 && d[0] == d.last() {
        d.drop_last()
    } else {
        d
    }
}

proof fn lemma_dedup_runs_len(s: Seq<(i32, i32)>)
    ensures
        dedup_runs(s).len() <= s.len(),
        s.len() > 0 ==> dedup_runs(s).len() > 0 && dedup_runs(s).last() == s.last(),
    decreases s.len(),
{
    if s.len() > 0 {
        lemma_dedup_runs_len(s.drop_last());
    }
}

/// Merges repeated consecutive vertices of a polygon and drops a closing vertex equal to
/// the first, as done before filling a Voronoi cell.
pub fn clean_polygon(points: Vec<(i32, i32)>) -> (r: Vec<(i32, i32)>)
    ensures
        r@ == cleaned_polygon(points@),
{
    let mut d: Vec<(i32, i32)> = Vec::new();
    let mut i: usize = 0;
    while i < points.len()
        invariant
            i <= points@.len(),
            d@ == dedup_runs(points@.subrange(0, i as int)),
        decreases points@.len() - i,
    {
        let p = points[i];
        let ghost pre = points@.subrange(0, i as int);
        proof {
            assert(points@.subrange(0, i + 1).drop_last() =~= pre);
            lemma_dedup_runs_len(pre);
        }
        let n = d.len();
        if n == 0 || d[n - 1].0 != p.0 || d[n - 1].1 != p.1 {
            d.push(p);
        }
        i += 1;
    }
    assert(points@.subrange(0, points@.len() as int) =~= points@);
    let n = d.len();
    if n > 2 && d[0].0 == d[n - 1].0 && d[0].1 == d[n - 1].1 {
        d.pop();
        assert(d@ =~= dedup_runs(points@).drop_last());
    }
    d
}


/// A cleaned polygon never repeats a vertex twice in a row.
pub proof fn lemma_cleaned_polygon_no_repeats(s: Seq<(i32, i32)>)
    ensures
        forall|i: int|
            0 <= i < cleaned_polygon(s).len() - 1 ==> #[trigger] cleaned_polygon(s)[i]
                != cleaned_polygon(s)[i + 1],
{
    lemma_dedup_runs_no_repeats(s);
}

proof fn lemma_dedup_runs_no_repeats(s: Seq<(i32, i32)>)
    ensures
        forall|i: int|
            0 <= i < dedup_runs(s).len() - 1 ==> #[trigger] dedup_runs(s)[i] != dedup_runs(s)[i + 1],
    decreases s.len(),
{
    if s.len() > 0 {
        lemma_dedup_runs_no_repeats(s.drop_last());
        let d = dedup_runs(s.drop_last());
        if !(d.len() > 0 && d.last() == s.last()) {
            let e = d.push(s.last());
            assert forall|i: int| 0 <= i < e.len() - 1 implies #[trigger] e[i] != e[i + 1] by {
                if i < d.len() - 1 {
                    assert(e[i] == d[i] && e[i + 1] == d[i + 1]);
                }
            }
        }
    }
}

/// A cleaned polygon of two or more vertices is open: its last vertex differs from its first.
pub proof fn lemma_cleaned_polygon_open(s: Seq<(i32, i32)>)
    ensures
        cleaned_polygon(s).len() >= 2 ==> cleaned_polygon(s)[0] != cleaned_polygon(s).last(),
{
    let d = dedup_runs(s);
    lemma_dedup_runs_no_repeats(s);
    if d.len() > 2 && d[0] == d.last() {
        let c = d.drop_last();
        assert(d[d.len() - 2] != d[d.len() - 1]);
        assert(c.last() == d[d.len() - 2]);
        assert(c[0] == d[0]);
    } else if d.len() == 2 {
        assert(d[0] != d[1]);
    }
}

proof fn lemma_dedup_runs_in_range(s: Seq<(i32, i32)>)
    requires
        points_in_range(s),
    ensures
        points_in_range(dedup_runs(s)),
    decreases s.len(),
{
    if s.len() > 0 {
        let t = s.drop_last();
        assert forall|k: int| 0 <= k < t.len() implies coord_in_range(#[trigger] t[k].0)
            && coord_in_range(t[k].1) by {
            assert(t[k] == s[k]);
        }
        lemma_dedup_runs_in_range(t);
        let d = dedup_runs(t);
        assert(coord_in_range(s[s.len() - 1].0));
        if !(d.len() > 0 && d.last() == s.last()) {
            let e = d.push(s.last());
            assert forall|k: int| 0 <= k < e.len() implies coord_in_range(#[trigger] e[k].0)
                && coord_in_range(e[k].1) by {
                if k < d.len() {
                    assert(e[k] == d[k]);
                }
            }
        }
    }
}

/// Cleaning a polygon keeps only vertices it had, so coordinates in range stay in range.
proof fn lemma_cleaned_polygon_in_range(s: Seq<(i32, i32)>)
    requires
        points_in_range(s),
    ensures
        points_in_range(cleaned_polygon(s)),
{
    lemma_dedup_runs_in_range(s);
    let d = dedup_runs(s);
    if d.len() > 2 && d[0] == d.last() {
        let c = d.drop_last();
        assert forall|k: int| 0 <= k < c.len() implies coord_in_range(#[trigger] c[k].0)
            && coord_in_range(c[k].1) by {
            assert(c[k] == d[k]);
        }
    }
}

/// What `imageproc::drawing::draw_polygon_mut` leaves in an image of `width` × `height`
/// pixels, given as row-major RGBA bytes, after filling the polygon `points` with `color`.
pub uninterp spec fn polygon_fill(
    width: u32,
    height: u32,
    rgba: Seq<u8>,
    points: Seq<(i32, i32)>,
    color: [u8; 4],
) -> Seq<u8>;

/// A polygon coordinate small enough that the difference of two of them fits in an `i32`.
pub open spec fn coord_in_range(c: i32) -> bool {
    -0x4000_0000 < c < 0x4000_0000
}

/// Every vertex of `s` has both coordinates in range.
pub open spec fn points_in_range(s: Seq<(i32, i32)>) -> bool {
    forall|k: int| 0 <= k < s.len() ==> coord_in_range(#[trigger] s[k].0) && coord_in_range(s[k].1)
}

/// Fills a polygon into row-major RGBA bytes with `imageproc::drawing::draw_polygon_mut`.
/// Claimed: the bytes afterwards are the call's result on these arguments, and their number is
/// unchanged (the call draws in place). The call panics on a closed path (first vertex equal to
/// the last); on an image without rows, where it still draws into row 0; on a side longer than
/// `i32::MAX`, which it turns into an `i32` and decrements; and, with overflow checks, where two
/// coordinates differ by more than `i32::MAX`. `requires` excludes all of these.
#[verifier::external_body]
fn fill_polygon_rgba(width: u32, height: u32, rgba: Vec<u8>, points: &Vec<(i32, i32)>, color: [u8; 4]) -> (r: Vec<u8>)
    requires
        rgba@.len() == width * height * 4,
        0 < height <= i32::MAX,
        width <= i32::MAX,
        points_in_range(points@),
        points@.len() > 0 ==> points@[0] != points@.last(),
    ensures
        r@ == polygon_fill(width, height, rgba@, points@, color),
        r@.len() == rgba@.len(),
{
    let mut img = image::RgbaImage::from_raw(width, height, rgba).unwrap();
    let poly: Vec<imageproc::point::Point<i32>> =
        points.iter().map(|&(x, y)| imageproc::point::Point::new(x, y)).collect();
    imageproc::drawing::draw_polygon_mut(&mut img, &poly, image::Rgba(color));
    img.into_raw()
}

/// The image after the first `k` cells are painted: each cell's polygon is cleaned, and filled
/// with the cell's colour when at least three vertices remain.
pub open spec fn cells_filled(
    width: u32,
    height: u32,
    rgba: Seq<u8>,
    cells: Seq<(Vec<(i32, i32)>, [u8; 4])>,
    k: nat,
) -> Seq<u8>
    decreases k,
{
    if k == 0 {
        rgba
    } else {
        let prev = cells_filled(width, height, rgba, cells, (k - 1) as nat);
        let poly = cleaned_polygon(cells[k - 1].0@);
        if poly.len() >= 3 {
            polygon_fill(width, height, prev, poly, cells[k - 1].1)
        } else {
            prev
        }
    }
}

/// Painting the first `k` cells looks at those cells only.
proof fn lemma_cells_filled_prefix(
    width: u32,
    height: u32,
    rgba: Seq<u8>,
    cells: Seq<(Vec<(i32, i32)>, [u8; 4])>,
    more: Seq<(Vec<(i32, i32)>, [u8; 4])>,
    k: nat,
)
    requires
        k <= cells.len(),
    ensures
        cells_filled(width, height, rgba, cells + more, k) == cells_filled(width, height, rgba, cells, k),
    decreases k,
{
    if k > 0 {
        lemma_cells_filled_prefix(width, height, rgba, cells, more, (k - 1) as nat);
        assert((cells + more)[k - 1] == cells[k - 1]);
    }
}

/// Each cell is painted on its own terms, whatever came before it: painting `cells` and then
/// one more cell `c` gives the image of `cells`, with `c`'s cleaned polygon filled in `c`'s
/// colour when it keeps at least three vertices, and unchanged otherwise.
pub proof fn lemma_cells_filled_push(
    width: u32,
    height: u32,
    rgba: Seq<u8>,
    cells: Seq<(Vec<(i32, i32)>, [u8; 4])>,
    c: (Vec<(i32, i32)>, [u8; 4]),
)
    ensures
        ({
            let before = cells_filled(width, height, rgba, cells, cells.len());
            let poly = cleaned_polygon(c.0@);
            cells_filled(width, height, rgba, cells.push(c), cells.len() + 1) == if poly.len() >= 3 {
                polygon_fill(width, height, before, poly, c.1)
            } else {
                before
            }
        }),
{
    lemma_cells_filled_prefix(width, height, rgba, cells, seq![c], cells.len());
    assert(cells + seq![c] == cells.push(c));
    assert(cells.push(c)[cells.len() as int] == c);
}

/// Painting a run of cells and then another run is painting them all: the image depends on
/// the cells in order and on nothing else.
pub proof fn lemma_cells_filled_concat(
    width: u32,
    height: u32,
    rgba: Seq<u8>,
    cells: Seq<(Vec<(i32, i32)>, [u8; 4])>,
    more: Seq<(Vec<(i32, i32)>, [u8; 4])>,
)
    ensures
        cells_filled(width, height, rgba, cells + more, (cells.len() + more.len()) as nat)
            == cells_filled(
            width,
            height,
            cells_filled(width, height, rgba, cells, cells.len()),
            more,
            more.len(),
        ),
    decreases more.len(),
{
    if more.len() == 0 {
        assert(cells + more == cells);
    } else {
        let init = more.drop_last();
        lemma_cells_filled_concat(width, height, rgba, cells, init);
        assert(cells + more == (cells + init).push(more.last()));
        assert(more == init.push(more.last()));
        lemma_cells_filled_push(width, height, rgba, cells + init, more.last());
        lemma_cells_filled_push(
            width,
            height,
            cells_filled(width, height, rgba, cells, cells.len()),
            init,
            more.last(),
        );
    }
}

/// Every cell's polygon has its coordinates in range.
pub open spec fn cells_in_range(cells: Seq<(Vec<(i32, i32)>, [u8; 4])>) -> bool {
    forall|i: int| 0 <= i < cells.len() ==> points_in_range(#[trigger] cells[i].0@)
}

fn copy_points(v: &Vec<(i32, i32)>) -> (r: Vec<(i32, i32)>)
    ensures
        r@ == v@,
{
    let mut r: Vec<(i32, i32)> = Vec::new();
    let mut i: usize = 0;
    while i < v.len()
        invariant
            i <= v@.len(),
            r@ == v@.subrange(0, i as int),
        decreases v@.len() - i,
    {
        r.push(v[i]);
        proof {
            assert(r@ =~= v@.subrange(0, i + 1));
        }
        i += 1;
    }
    assert(v@.subrange(0, v@.len() as int) =~= v@);
    r
}

/// Paints Voronoi cells, in order, into an image of `width` × `height` pixels given as
/// row-major RGBA bytes. Each cell is its polygon (corners in angular order) and colour.
pub fn fill_cells(width: u32, height: u32, rgba: Vec<u8>, cells: &Vec<(Vec<(i32, i32)>, [u8; 4])>) -> (r: Vec<u8>)
    requires
        rgba@.len() == width * height * 4,
        0 < height <= i32::MAX,
        width <= i32::MAX,
        cells_in_range(cells@),
    ensures
        r@ == cells_filled(width, height, rgba@, cells@, cells@.len()),
{
    let ghost start = rgba@;
    let mut bytes = rgba;
    let mut i: usize = 0;
    while i < cells.len()
        invariant
            i <= cells@.len(),
            bytes@.len() == width * height * 4,
            bytes@ == cells_filled(width, height, start, cells@, i as nat),
            0 < height <= i32::MAX,
            width <= i32::MAX,
            cells_in_range(cells@),
        decreases cells@.len() - i,
    {
        let poly = clean_polygon(copy_points(&cells[i].0));
        proof {
            lemma_cleaned_polygon_open(cells@[i as int].0@);
            lemma_cleaned_polygon_in_range(cells@[i as int].0@);
        }
        if poly.len() >= 3 {
            bytes = fill_polygon_rgba(width, height, bytes, &poly, cells[i].1);
        }
        i += 1;
    }
    bytes
}
} // verus!
