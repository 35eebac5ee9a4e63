use vstd::prelude::*;
use crate::mesh::lemma_concat_contains;

verus! {

/// Side length of a chunk, in blocks.
pub const CHUNK_SIZE: i32 = 16;

/// How many chunks around the player's chunk are kept loaded in each direction.
pub const RENDER_DISTANCE: i32 = 10;

/// How many missing chunks are generated per frame.
pub const CHUNKS_PER_TICK: usize = 10;

/// Integer coordinates of a chunk in the grid of chunks.
#[derive(Copy, Clone, Debug, PartialEq, Eq, Hash, Structural)]
pub struct Position {
    pub x: i32,
    pub y: i32,
    pub z: i32,
}

/// A spawned chunk, located by its position in the grid of chunks.
pub struct Chunk {
    pub position: Position,
}

/// The half-open box of chunk positions `[x_start, x_end) x [y_start, y_end) x [z_start, z_end)`.
#[derive(Copy, Clone, Debug, PartialEq, Eq, Structural)]
pub struct RenderRange {
    pub x_start: i32,
    pub x_end: i32,
    pub y_start: i32,
    pub y_end: i32,
    pub z_start: i32,
    pub z_end: i32,
}

/// Integer division rounding toward zero, as Rust's `/` on integers does.
pub open spec fn div_toward_zero(a: int, d: int) -> int {
    if a >= 0 {
        a / d
    } else {
        -((-a) / d)
    }
}

pub open spec fn position(x: int, y: int, z: int) -> Position {
    Position { x: x as i32, y: y as i32, z: z as i32 }
}

/// Whether a chunk position lies inside a render range.
pub open spec fn in_range(r: RenderRange, p: Position) -> bool {
    &&& r.x_start <= p.x < r.x_end
    &&& r.y_start <= p.y < r.y_end
    &&& r.z_start <= p.z < r.z_end
}

/// The positions `(x, y, z0..z1)`, by increasing z.
pub open spec fn row_positions(x: int, y: int, z0: int, z1: int) -> Seq<Position>
    decreases z1 - z0,
{
    if z1 <= z0 {
        seq![]
    } else {
        row_positions(x, y, z0, z1 - 1).push(position(x, y, z1 - 1))
    }
}

/// The positions `(x, y0..y1, z0..z1)`, by increasing y, then z.
pub open spec fn layer_positions(x: int, y0: int, y1: int, z0: int, z1: int) -> Seq<Position>
    decreases y1 - y0,
{
    if y1 <= y0 {
        seq![]
    } else {
        layer_positions(x, y0, y1 - 1, z0, z1) + row_positions(x, y1 - 1, z0, z1)
    }
}

/// The positions `(x0..x1, y0..y1, z0..z1)`, by increasing x, then y, then z.
pub open spec fn box_positions(x0: int, x1: int, y0: int, y1: int, z0: int, z1: int) -> Seq<Position>
    decreases x1 - x0,
{
    if x1 <= x0 {
        seq![]
    } else {
        box_positions(x0, x1 - 1, y0, y1, z0, z1) + layer_positions(x1 - 1, y0, y1, z0, z1)
    }
}

/// All positions of a render range, by increasing x, then y, then z.
pub open spec fn range_positions(r: RenderRange) -> Seq<Position> {
    box_positions(r.x_start as int, r.x_end as int, r.y_start as int, r.y_end as int, r.z_start as int, r.z_end as int)
}

/// The positions of a render range that are not in `loaded`, in range order.
pub open spec fn missing_positions(r: RenderRange, loaded: Seq<Position>) -> Seq<Position> {
    range_positions(r).filter(|p: Position| !loaded.contains(p))
}

/// The indices `0..n`.
pub open spec fn indices_upto(n: nat) -> Seq<usize> {
    Seq::new(n, |t: int| t as usize)
}

/// The indices, in increasing order, of the loaded chunks that lie outside a render range.
pub open spec fn out_of_range_indices(r: RenderRange, loaded: Seq<Position>) -> Seq<usize> {
    indices_upto(loaded.len()).filter(|t: usize| !in_range(r, loaded[t as int]))
}

/// The render range around a player standing at block `(block_x, block_y, block_z)`:
/// `RENDER_DISTANCE` chunks below and up to `RENDER_DISTANCE - 1` chunks above the
/// player's chunk in each axis, where the player's chunk coordinate is the block
/// coordinate divided by `CHUNK_SIZE`, rounded toward zero.
pub fn render_range(block_x: i32, block_y: i32, block_z: i32) -> (r: RenderRange)
    ensures
        r.x_start == div_toward_zero(block_x as int, CHUNK_SIZE as int) - RENDER_DISTANCE,
        r.x_end == div_toward_zero(block_x as int, CHUNK_SIZE as int) + RENDER_DISTANCE,
        r.y_start == div_toward_zero(block_y as int, CHUNK_SIZE as int) - RENDER_DISTANCE,
        r.y_end == div_toward_zero(block_y as int, CHUNK_SIZE as int) + RENDER_DISTANCE,
        r.z_start == div_toward_zero(block_z as int, CHUNK_SIZE as int) - RENDER_DISTANCE,
        r.z_end == div_toward_zero(block_z as int, CHUNK_SIZE as int) + RENDER_DISTANCE,
        render_span_of_block(block_x as int, r.x_start as int, r.x_end as int),
        render_span_of_block(block_y as int, r.y_start as int, r.y_end as int),
        render_span_of_block(block_z as int, r.z_start as int, r.z_end as int),
{
    let cx = block_x / CHUNK_SIZE;
    let cy = block_y / CHUNK_SIZE;
    let cz = block_z / CHUNK_SIZE;
    RenderRange {
        x_start: cx - RENDER_DISTANCE,
        x_end: cx + RENDER_DISTANCE,
        y_start: cy - RENDER_DISTANCE,
        y_end: cy + RENDER_DISTANCE,
        z_start: cz - RENDER_DISTANCE,
        z_end: cz + RENDER_DISTANCE,
    }
}

impl RenderRange {
    /// Whether a chunk position lies inside this range.
    pub fn contains(&self, p: &Position) -> (b: bool)
        ensures
            b == in_range(*self, *p),
            b == (self.x_start <= p.x < self.x_end && self.y_start <= p.y < self.y_end && self.z_start <= p.z < self.z_end),
    {
        self.x_start <= p.x && p.x < self.x_end && self.y_start <= p.y && p.y < self.y_end
            && self.z_start <= p.z && p.z < self.z_end
    }
}

/// Whether `p` occurs in `v`.
pub fn contains_position(v: &Vec<Position>, p: &Position) -> (found: bool)
    ensures
        found == v@.contains(*p),
{
    let mut t: usize = 0;
    while t < v.len()
        invariant
            t <= v.len(),
            forall|s: int| 0 <= s < t ==> v@[s] != *p,
        decreases v.len() - t,
    {
        if v[t] == *p {
            return true;
        }
        t = t + 1;
    }
    false
}

/// Splits the loaded chunks by a render range: the positions of those inside it,
/// in order, and the indices of those outside it, in increasing order.
pub fn partition_loaded(range: &RenderRange, loaded: &Vec<Position>) -> (result: (Vec<Position>, Vec<usize>))
    ensures
        result.0@ == loaded@.filter(|p: Position| in_range(*range, p)),
        result.1@ == out_of_range_indices(*range, loaded@),
        forall|p: Position| #[trigger] result.0@.contains(p) <==> (loaded@.contains(p) && range.x_start <= p.x < range.x_end && range.y_start <= p.y < range.y_end && range.z_start <= p.z < range.z_end),
        forall|t: usize| #[trigger] result.1@.contains(t) <==> (t < loaded@.len() && !({
            let p = loaded@[t as int];
            range.x_start <= p.x < range.x_end && range.y_start <= p.y < range.y_end && range.z_start <= p.z < range.z_end
        })),
        forall|s: int, t: int| 0 <= s < t < result.1@.len() ==> result.1@[s] < result.1@[t],
{
    let mut kept: Vec<Position> = Vec::new();
    let mut unload: Vec<usize> = Vec::new();
    let ghost keep_pred = |p: Position| in_range(*range, p);
    let ghost unload_pred = |t: usize| !in_range(*range, loaded@[t as int]);
    let mut t: usize = 0;
    while t < loaded.len()
        invariant
            t <= loaded.len(),
            keep_pred == (|p: Position| in_range(*range, p)),
            unload_pred == (|t: usize| !in_range(*range, loaded@[t as int])),
            kept@ == loaded@.take(t as int).filter(keep_pred),
            unload@ == indices_upto(t as nat).filter(unload_pred),
        decreases loaded.len() - t,
    {
        let p = loaded[t];
        proof {
            assert(loaded@.take(t + 1) =~= loaded@.take(t as int).push(p));
            assert(indices_upto((t + 1) as nat) =~= indices_upto(t as nat).push(t));
            loaded@.take(t as int).lemma_filter_push(p, keep_pred);
            indices_upto(t as nat).lemma_filter_push(t, unload_pred);
        }
        if range.contains(&p) {
            kept.push(p);
        } else {
            unload.push(t);
        }
        t = t + 1;
    }
    proof {
        assert(loaded@.take(loaded.len() as int) =~= loaded@);
        law_unload_out_of_range(*range, loaded@, unload@);
        assert forall|p: Position| #[trigger] kept@.contains(p) <==> (loaded@.contains(p) && in_range(*range, p)) by {
            if kept@.contains(p) {
                loaded@.lemma_filter_contains_rev(|p: Position| in_range(*range, p), p);
                let k = choose|k: int| 0 <= k < kept@.len() && kept@[k] == p;
                loaded@.lemma_filter_pred(|p: Position| in_range(*range, p), k);
            }
            if loaded@.contains(p) && in_range(*range, p) {
                let k = choose|k: int| 0 <= k < loaded@.len() && loaded@[k] == p;
                loaded@.lemma_filter_contains(|p: Position| in_range(*range, p), k);
            }
        }
    }
    (kept, unload)
}

/// The positions of a render range that are not among `loaded`, by increasing x,
/// then y, then z.
pub fn missing_chunks(range: &RenderRange, loaded: &Vec<Position>) -> (missing: Vec<Position>)
    ensures
        missing@ == missing_positions(*range, loaded@),
        forall|q: Position| #[trigger] missing@.contains(q) <==> (range.x_start <= q.x < range.x_end && range.y_start <= q.y < range.y_end && range.z_start <= q.z < range.z_end && !loaded@.contains(q)),
        forall|s: int, t: int| 0 <= s < t < missing@.len() ==> #[trigger] lex_before(missing@[s], missing@[t]),
{
    let ghost pred = |p: Position| !loaded@.contains(p);
    let ghost (x0, x1, y0, y1, z0, z1) = (
        range.x_start as int,
        range.x_end as int,
        range.y_start as int,
        range.y_end as int,
        range.z_start as int,
        range.z_end as int,
    );
    let mut missing: Vec<Position> = Vec::new();
    if range.x_start >= range.x_end {
        proof {
            assert(range_positions(*range) =~= Seq::<Position>::empty());
            assert(missing_positions(*range, loaded@) =~= missing@);
            law_missing_in_range(*range, loaded@, missing@);
        }
        return missing;
    }
    let mut i: i32 = range.x_start;
    while i < range.x_end
        invariant
            x0 <= i <= x1,
            x0 == range.x_start,
            x1 == range.x_end,
            y0 == range.y_start,
            y1 == range.y_end,
            z0 == range.z_start,
            z1 == range.z_end,
            pred == (|p: Position| !loaded@.contains(p)),
            missing@ == box_positions(x0, i as int, y0, y1, z0, z1).filter(pred),
        decreases x1 - i,
    {
        let mut j: i32 = range.y_start;
        let ghost before_layer = box_positions(x0, i as int, y0, y1, z0, z1);
        if range.y_start < range.y_end {
            while j < range.y_end
                invariant
                    x0 <= i < x1,
                    y0 <= j <= y1,
                    x0 == range.x_start,
                    x1 == range.x_end,
                    y0 == range.y_start,
                    y1 == range.y_end,
                    z0 == range.z_start,
                    z1 == range.z_end,
                    pred == (|p: Position| !loaded@.contains(p)),
                    before_layer == box_positions(x0, i as int, y0, y1, z0, z1),
                    missing@ == (before_layer + layer_positions(i as int, y0, j as int, z0, z1)).filter(pred),
                decreases y1 - j,
            {
                let ghost before_row = before_layer + layer_positions(i as int, y0, j as int, z0, z1);
                let mut k: i32 = range.z_start;
                if range.z_start < range.z_end {
                    while k < range.z_end
                        invariant
                            x0 <= i < x1,
                            y0 <= j < y1,
                            z0 <= k <= z1,
                            x0 == range.x_start,
                            x1 == range.x_end,
                            y0 == range.y_start,
                            y1 == range.y_end,
                            z0 == range.z_start,
                            z1 == range.z_end,
                            pred == (|p: Position| !loaded@.contains(p)),
                            before_row == before_layer + layer_positions(i as int, y0, j as int, z0, z1),
                            missing@ == (before_row + row_positions(i as int, j as int, z0, k as int)).filter(pred),
                        decreases z1 - k,
                    {
                        let p = Position { x: i, y: j, z: k };
                        let ghost prefix = before_row + row_positions(i as int, j as int, z0, k as int);
                        proof {
                            assert(p == position(i as int, j as int, k as int));
                            assert(before_row + row_positions(i as int, j as int, z0, k + 1) =~= prefix.push(p));
                            prefix.lemma_filter_push(p, pred);
                        }
                        if !contains_position(loaded, &p) {
                            missing.push(p);
                        }
                        k = k + 1;
                    }
                } else {
                    assert(row_positions(i as int, j as int, z0, z1) =~= Seq::<Position>::empty());
                    assert(before_row + row_positions(i as int, j as int, z0, z1) =~= before_row);
                }
                assert(before_row + row_positions(i as int, j as int, z0, z1)
                    =~= before_layer + layer_positions(i as int, y0, j + 1, z0, z1));
                j = j + 1;
            }
        } else {
            assert(layer_positions(i as int, y0, y1, z0, z1) =~= Seq::<Position>::empty());
        }
        assert(before_layer + layer_positions(i as int, y0, y1, z0, z1) =~= box_positions(x0, i + 1, y0, y1, z0, z1));
        i = i + 1;
    }
    proof {
        law_missing_in_range(*range, loaded@, missing@);
    }
    missing
}


/// Whether candidate `a` comes before candidate `b` when ordered by key, ties
/// broken by position in the candidate list.
pub open spec fn precedes(keys: Seq<u32>, a: int, b: int) -> bool {
    keys[a] < keys[b] || (keys[a] == keys[b] && a < b)
}

/// `order` lists, closest first, the `limit` candidates (or all of them, if there
/// are fewer) with the smallest keys, ties broken by position in the candidate list.
pub open spec fn is_nearest_first(keys: Seq<u32>, limit: nat, order: Seq<usize>) -> bool {
    &&& order.len() == if keys.len() < limit { keys.len() } else { limit }
    &&& forall|t: int| 0 <= t < order.len() ==> order[t] < keys.len()
    &&& forall|s: int, t: int| 0 <= s < t < order.len() ==> precedes(keys, order[s] as int, order[t] as int)
    &&& forall|t: int, u: int|
        0 <= t < order.len() && 0 <= u < keys.len() && !order.contains(u as usize)
            ==> precedes(keys, order[t] as int, u)
}

/// Orders candidates by increasing key, keeping the order of candidates with equal
/// keys, and keeps the first `limit` of them: the indices of the chosen candidates.
pub fn nearest_first(keys: &Vec<u32>, limit: usize) -> (order: Vec<usize>)
    ensures
        is_nearest_first(keys@, limit as nat, order@),
        forall|s: int, t: int| 0 <= s < t < order@.len() ==>
            keys@[order@[s] as int] <= keys@[order@[t] as int]
            && (keys@[order@[s] as int] == keys@[order@[t] as int] ==> order@[s] < order@[t]),
        forall|t: int, u: int| 0 <= t < order@.len() && 0 <= u < keys@.len() && !order@.contains(u as usize) ==>
            keys@[order@[t] as int] <= #[trigger] keys@[u]
            && (keys@[order@[t] as int] == keys@[u] ==> #[trigger] order@[t] < u),
{
    let n = keys.len();
    let mut chosen: Vec<bool> = Vec::new();
    let mut u: usize = 0;
    while u < n
        invariant
            u <= n,
            n == keys.len(),
            chosen@.len() == u,
            forall|s: int| 0 <= s < u ==> !chosen@[s],
        decreases n - u,
    {
        chosen.push(false);
        u = u + 1;
    }
    let mut order: Vec<usize> = Vec::new();
    while order.len() < limit && order.len() < n
        invariant
            n == keys.len(),
            chosen@.len() == n,
            order.len() <= limit,
            order.len() <= n,
            forall|t: int| 0 <= t < order.len() ==> order@[t] < n,
            forall|u: int| 0 <= u < n ==> (chosen@[u] <==> order@.contains(u as usize)),
            forall|s: int, t: int| 0 <= s < t < order.len() ==> precedes(keys@, order@[s] as int, order@[t] as int),
            forall|t: int, u: int|
                0 <= t < order.len() && 0 <= u < n && !chosen@[u] ==> precedes(keys@, order@[t] as int, u),
        decreases n - order.len(),
    {
        proof {
            // The chosen indices are distinct, so there are as many as chosen
            // entries; with fewer than `n` of them, an index is still free.
            lemma_some_unchosen(keys@, order@, chosen@);
        }
        let mut best: usize = n;
        let mut u: usize = 0;
        while u < n
            invariant
                n == keys.len(),
                chosen@.len() == n,
                u <= n,
                best == n || (best < u && !chosen@[best as int]),
                best == n ==> forall|v: int| 0 <= v < u ==> chosen@[v],
                best < n ==> forall|v: int| 0 <= v < u && !chosen@[v] && v != best ==> precedes(keys@, best as int, v),
            decreases n - u,
        {
            if !chosen[u] {
                if best == n || keys[u] < keys[best] {
                    best = u;
                }
            }
            u = u + 1;
        }
        proof {
            if best == n {
                let v = choose|v: int| 0 <= v < n && !chosen@[v];
                assert(chosen@[v]);
            }
        }
        let ghost old_order = order@;
        order.push(best);
        chosen.set(best, true);
        proof {
            assert forall|w: int| 0 <= w < n implies (chosen@[w] <==> order@.contains(w as usize)) by {
                if w == best {
                    assert(order@[order@.len() - 1] == best);
                } else if chosen@[w] {
                    let t = choose|t: int| 0 <= t < old_order.len() && old_order[t] == w as usize;
                    assert(order@[t] == w as usize);
                } else {
                    if order@.contains(w as usize) {
                        let t = choose|t: int| 0 <= t < order@.len() && order@[t] == w as usize;
                        assert(old_order.contains(w as usize)) by {
                            assert(old_order[t] == w as usize);
                        }
                    }
                }
            }
        }
    }
    proof {
        assert forall|t: int, u: int|
            0 <= t < order.len() && 0 <= u < keys.len() && !order@.contains(u as usize)
            implies precedes(keys@, order@[t] as int, u) by {
            assert(!chosen@[u]);
        }
        law_nearest_first_order(keys@, limit as nat, order@);
    }
    order
}

/// While fewer than all candidates are chosen, some candidate is still free.
proof fn lemma_some_unchosen(keys: Seq<u32>, order: Seq<usize>, chosen: Seq<bool>)
    requires
        keys.len() <= usize::MAX,
        chosen.len() == keys.len(),
        order.len() < keys.len(),
        forall|t: int| 0 <= t < order.len() ==> order[t] < keys.len(),
        forall|u: int| 0 <= u < keys.len() ==> (chosen[u] <==> order.contains(u as usize)),
        forall|s: int, t: int| 0 <= s < t < order.len() ==> precedes(keys, order[s] as int, order[t] as int),
    ensures
        exists|v: int| 0 <= v < keys.len() && !chosen[v],
{
    if forall|v: int| 0 <= v < keys.len() ==> chosen[v] {
        // Every index is in `order`, whose entries are distinct: too many entries.
        let n = keys.len();
        let idx = Set::new(|v: int| 0 <= v < n);
        let img = order.to_set();
        assert forall|v: int| idx.contains(v) implies img.map(|w: usize| w as int).contains(v) by {
            assert(chosen[v]);
            let t = choose|t: int| 0 <= t < order.len() && order[t] == v as usize;
            assert(img.contains(order[t]));
            let f = |w: usize| w as int;
            assert(f(order[t]) == v);
            assert(img.map(f).contains(f(order[t])));
        }
        assert(order.no_duplicates()) by {
            assert forall|s: int, t: int| 0 <= s < order.len() && 0 <= t < order.len() && s != t
                implies order[s] != order[t] by {
                if s < t {
                    assert(precedes(keys, order[s] as int, order[t] as int));
                } else {
                    assert(precedes(keys, order[t] as int, order[s] as int));
                }
            }
        }
        order.unique_seq_to_set();
        vstd::seq_lib::seq_to_set_is_finite(order);
        vstd::set_lib::lemma_int_range(0, n as int);
        assert(idx =~= vstd::set_lib::set_int_range(0, n as int));
        vstd::set_lib::lemma_map_size_bound(img, img.map(|w: usize| w as int), |w: usize| w as int);
        vstd::set_lib::lemma_len_subset(idx, img.map(|w: usize| w as int));
        assert(false);
    }
}


/// Whether `p` lies in the box `[x0, x1) x [y0, y1) x [z0, z1)`.
pub open spec fn in_box(p: Position, x0: int, x1: int, y0: int, y1: int, z0: int, z1: int) -> bool {
    &&& x0 <= p.x < x1
    &&& y0 <= p.y < y1
    &&& z0 <= p.z < z1
}

/// The positions of a row lie in its bounds, and every position in them is listed.
proof fn lemma_row_positions(x: int, y: int, z0: int, z1: int)
    requires
        i32::MIN <= x <= i32::MAX,
        i32::MIN <= y <= i32::MAX,
        i32::MIN <= z0,
        z1 <= i32::MAX + 1,
    ensures
        forall|t: int| 0 <= t < row_positions(x, y, z0, z1).len()
            ==> in_box(#[trigger] row_positions(x, y, z0, z1)[t], x, x + 1, y, y + 1, z0, z1),
        forall|p: Position| in_box(p, x, x + 1, y, y + 1, z0, z1) ==> #[trigger] row_positions(x, y, z0, z1).contains(p),
    decreases z1 - z0,
{
    if z1 > z0 {
        lemma_row_positions(x, y, z0, z1 - 1);
        let prev = row_positions(x, y, z0, z1 - 1);
        let last = position(x, y, z1 - 1);
        assert forall|p: Position| in_box(p, x, x + 1, y, y + 1, z0, z1) implies #[trigger] prev.push(last).contains(p) by {
            if p.z == z1 - 1 {
                assert(p == last);
                assert(prev.push(last)[prev.len() as int] == p);
            } else {
                assert(prev.contains(p));
                let t = choose|t: int| 0 <= t < prev.len() && prev[t] == p;
                assert(prev.push(last)[t] == p);
            }
        }
    }
}

/// The positions of a layer lie in its bounds, and every position in them is listed.
proof fn lemma_layer_positions(x: int, y0: int, y1: int, z0: int, z1: int)
    requires
        i32::MIN <= x <= i32::MAX,
        i32::MIN <= y0,
        y1 <= i32::MAX + 1,
        i32::MIN <= z0,
        z1 <= i32::MAX + 1,
    ensures
        forall|t: int| 0 <= t < layer_positions(x, y0, y1, z0, z1).len()
            ==> in_box(#[trigger] layer_positions(x, y0, y1, z0, z1)[t], x, x + 1, y0, y1, z0, z1),
        forall|p: Position| in_box(p, x, x + 1, y0, y1, z0, z1) ==> #[trigger] layer_positions(x, y0, y1, z0, z1).contains(p),
    decreases y1 - y0,
{
    if y1 > y0 {
        lemma_layer_positions(x, y0, y1 - 1, z0, z1);
        lemma_row_positions(x, y1 - 1, z0, z1);
        let a = layer_positions(x, y0, y1 - 1, z0, z1);
        let b = row_positions(x, y1 - 1, z0, z1);
        assert forall|t: int| 0 <= t < (a + b).len() implies in_box(#[trigger] (a + b)[t], x, x + 1, y0, y1, z0, z1) by {
            if t < a.len() {
                assert(in_box(a[t], x, x + 1, y0, y1 - 1, z0, z1));
            } else {
                assert(in_box(b[t - a.len()], x, x + 1, y1 - 1, y1, z0, z1));
            }
        }
        assert forall|p: Position| in_box(p, x, x + 1, y0, y1, z0, z1) implies #[trigger] (a + b).contains(p) by {
            if p.y == y1 - 1 {
                assert(in_box(p, x, x + 1, y1 - 1, y1, z0, z1));
                assert(b.contains(p));
                let t = choose|t: int| 0 <= t < b.len() && b[t] == p;
                assert((a + b)[a.len() + t] == p);
            } else {
                assert(in_box(p, x, x + 1, y0, y1 - 1, z0, z1));
                assert(a.contains(p));
                let t = choose|t: int| 0 <= t < a.len() && a[t] == p;
                assert((a + b)[t] == p);
            }
        }
    }
}

/// The positions of a box lie in its bounds, and every position in them is listed.
pub proof fn lemma_box_positions(x0: int, x1: int, y0: int, y1: int, z0: int, z1: int)
    requires
        i32::MIN <= x0,
        x1 <= i32::MAX + 1,
        i32::MIN <= y0,
        y1 <= i32::MAX + 1,
        i32::MIN <= z0,
        z1 <= i32::MAX + 1,
    ensures
        forall|t: int| 0 <= t < box_positions(x0, x1, y0, y1, z0, z1).len()
            ==> in_box(#[trigger] box_positions(x0, x1, y0, y1, z0, z1)[t], x0, x1, y0, y1, z0, z1),
        forall|p: Position| in_box(p, x0, x1, y0, y1, z0, z1) ==> #[trigger] box_positions(x0, x1, y0, y1, z0, z1).contains(p),
    decreases x1 - x0,
{
    if x1 > x0 {
        lemma_box_positions(x0, x1 - 1, y0, y1, z0, z1);
        lemma_layer_positions(x1 - 1, y0, y1, z0, z1);
        let a = box_positions(x0, x1 - 1, y0, y1, z0, z1);
        let b = layer_positions(x1 - 1, y0, y1, z0, z1);
        assert forall|t: int| 0 <= t < (a + b).len() implies in_box(#[trigger] (a + b)[t], x0, x1, y0, y1, z0, z1) by {
            if t < a.len() {
                assert(in_box(a[t], x0, x1 - 1, y0, y1, z0, z1));
            } else {
                assert(in_box(b[t - a.len()], x1 - 1, x1, y0, y1, z0, z1));
            }
        }
        assert forall|p: Position| in_box(p, x0, x1, y0, y1, z0, z1) implies #[trigger] (a + b).contains(p) by {
            if p.x == x1 - 1 {
                assert(in_box(p, x1 - 1, x1, y0, y1, z0, z1));
                assert(b.contains(p));
                let t = choose|t: int| 0 <= t < b.len() && b[t] == p;
                assert((a + b)[a.len() + t] == p);
            } else {
                assert(in_box(p, x0, x1 - 1, y0, y1, z0, z1));
                assert(a.contains(p));
                let t = choose|t: int| 0 <= t < a.len() && a[t] == p;
                assert((a + b)[t] == p);
            }
        }
    }
}

/// Exactly the positions inside a render range are listed by `range_positions`.
pub proof fn lemma_range_positions(r: RenderRange, p: Position)
    ensures
        range_positions(r).contains(p) <==> in_range(r, p),
{
    lemma_box_positions(r.x_start as int, r.x_end as int, r.y_start as int, r.y_end as int, r.z_start as int, r.z_end as int);
    if range_positions(r).contains(p) {
        let t = choose|t: int| 0 <= t < range_positions(r).len() && range_positions(r)[t] == p;
        assert(in_box(range_positions(r)[t], r.x_start as int, r.x_end as int, r.y_start as int, r.y_end as int, r.z_start as int, r.z_end as int));
    }
}

/// Filtering by two predicates that agree on every element gives the same sequence.
proof fn lemma_filter_congruent(s: Seq<Position>, p1: spec_fn(Position) -> bool, p2: spec_fn(Position) -> bool)
    requires
        forall|t: int| 0 <= t < s.len() ==> p1(#[trigger] s[t]) == p2(s[t]),
    ensures
        s.filter(p1) == s.filter(p2),
    decreases s.len(),
{
    if s.len() > 0 {
        let init = s.drop_last();
        assert forall|t: int| 0 <= t < init.len() implies p1(#[trigger] init[t]) == p2(init[t]) by {
            assert(init[t] == s[t]);
        }
        lemma_filter_congruent(init, p1, p2);
        assert(init.push(s.last()) =~= s);
        init.lemma_filter_push(s.last(), p1);
        init.lemma_filter_push(s.last(), p2);
        assert(p1(s[s.len() - 1]) == p2(s[s.len() - 1]));
    }
}

/// Which positions of a render range are missing does not depend on the loaded
/// chunks that lie outside the range.
pub proof fn lemma_missing_ignores_out_of_range(r: RenderRange, loaded: Seq<Position>)
    ensures
        missing_positions(r, loaded.filter(|p: Position| in_range(r, p))) == missing_positions(r, loaded),
{
    let inside = loaded.filter(|p: Position| in_range(r, p));
    let s = range_positions(r);
    assert forall|t: int| 0 <= t < s.len() implies
        (|p: Position| !inside.contains(p))(#[trigger] s[t]) == (|p: Position| !loaded.contains(p))(s[t]) by {
        let q = s[t];
        assert(s.contains(q));
        lemma_range_positions(r, q);
        if loaded.contains(q) {
            let u = choose|u: int| 0 <= u < loaded.len() && loaded[u] == q;
            loaded.lemma_filter_contains(|p: Position| in_range(r, p), u);
        }
        if inside.contains(q) {
            loaded.lemma_filter_contains_rev(|p: Position| in_range(r, p), q);
        }
    }
    lemma_filter_congruent(s, |p: Position| !inside.contains(p), |p: Position| !loaded.contains(p));
}

/// The render range of a player standing at block `(block_x, block_y, block_z)`.
pub open spec fn player_render_range(block_x: i32, block_y: i32, block_z: i32) -> RenderRange {
    RenderRange {
        x_start: (div_toward_zero(block_x as int, CHUNK_SIZE as int) - RENDER_DISTANCE) as i32,
        x_end: (div_toward_zero(block_x as int, CHUNK_SIZE as int) + RENDER_DISTANCE) as i32,
        y_start: (div_toward_zero(block_y as int, CHUNK_SIZE as int) - RENDER_DISTANCE) as i32,
        y_end: (div_toward_zero(block_y as int, CHUNK_SIZE as int) + RENDER_DISTANCE) as i32,
        z_start: (div_toward_zero(block_z as int, CHUNK_SIZE as int) - RENDER_DISTANCE) as i32,
        z_end: (div_toward_zero(block_z as int, CHUNK_SIZE as int) + RENDER_DISTANCE) as i32,
    }
}

/// What a frame must do to the loaded chunks: the render range, the loaded
/// chunks to unload, and the chunk positions still to be generated.
pub struct RenderPlan {
    pub range: RenderRange,
    pub unload: Vec<usize>,
    pub missing: Vec<Position>,
}

/// Plans a frame of chunk streaming for a player standing at block
/// `(block_x, block_y, block_z)`: the loaded chunks outside the render range are
/// unloaded, and the positions of the range that are not loaded are listed, by
/// increasing x, then y, then z.
pub fn plan_render(block_x: i32, block_y: i32, block_z: i32, loaded: &Vec<Position>) -> (plan: RenderPlan)
    ensures
        plan.range == player_render_range(block_x, block_y, block_z),
        plan.unload@ == out_of_range_indices(plan.range, loaded@),
        plan.missing@ == missing_positions(plan.range, loaded@),
        render_span_of_block(block_x as int, plan.range.x_start as int, plan.range.x_end as int),
        render_span_of_block(block_y as int, plan.range.y_start as int, plan.range.y_end as int),
        render_span_of_block(block_z as int, plan.range.z_start as int, plan.range.z_end as int),
        forall|t: usize| #[trigger] plan.unload@.contains(t) <==> (t < loaded@.len() && !({
            let p = loaded@[t as int];
            plan.range.x_start <= p.x < plan.range.x_end && plan.range.y_start <= p.y < plan.range.y_end && plan.range.z_start <= p.z < plan.range.z_end
        })),
        forall|s: int, t: int| 0 <= s < t < plan.unload@.len() ==> plan.unload@[s] < plan.unload@[t],
        forall|q: Position| #[trigger] plan.missing@.contains(q) <==> (plan.range.x_start <= q.x < plan.range.x_end && plan.range.y_start <= q.y < plan.range.y_end && plan.range.z_start <= q.z < plan.range.z_end && !loaded@.contains(q)),
        forall|s: int, t: int| 0 <= s < t < plan.missing@.len() ==> #[trigger] lex_before(plan.missing@[s], plan.missing@[t]),
{
    let range = render_range(block_x, block_y, block_z);
    let (kept, unload) = partition_loaded(&range, loaded);
    let missing = missing_chunks(&range, &kept);
    proof {
        lemma_missing_ignores_out_of_range(range, loaded@);
        law_player_render_range(block_x, block_y, block_z, range);
        law_missing_in_range(range, loaded@, missing@);
    }
    RenderPlan { range, unload, missing }
}


/// Law: after a frame's plan, a position is listed as missing exactly when it lies
/// in the render range and is not loaded; so every position of the range ends up
/// loaded or scheduled, never both, and nothing outside the range is scheduled.
pub proof fn lemma_missing_exactly_unloaded_in_range(r: RenderRange, loaded: Seq<Position>, p: Position)
    ensures
        missing_positions(r, loaded).contains(p) <==> (in_range(r, p) && !loaded.contains(p)),
{
    let pred = |q: Position| !loaded.contains(q);
    let s = range_positions(r);
    lemma_range_positions(r, p);
    if missing_positions(r, loaded).contains(p) {
        s.lemma_filter_contains_rev(pred, p);
        let t = choose|t: int| 0 <= t < s.filter(pred).len() && s.filter(pred)[t] == p;
        s.lemma_filter_pred(pred, t);
    }
    if in_range(r, p) && !loaded.contains(p) {
        let t = choose|t: int| 0 <= t < s.len() && s[t] == p;
        s.lemma_filter_contains(pred, t);
    }
}

/// Law: a loaded chunk is listed for unloading exactly when it lies outside the
/// render range.
pub proof fn lemma_unload_exactly_out_of_range(r: RenderRange, loaded: Seq<Position>, t: usize)
    requires
        loaded.len() <= usize::MAX,
    ensures
        out_of_range_indices(r, loaded).contains(t) <==> (t < loaded.len() && !in_range(r, loaded[t as int])),
{
    let pred = |u: usize| !in_range(r, loaded[u as int]);
    let s = indices_upto(loaded.len());
    if out_of_range_indices(r, loaded).contains(t) {
        s.lemma_filter_contains_rev(pred, t);
        let k = choose|k: int| 0 <= k < s.filter(pred).len() && s.filter(pred)[k] == t;
        s.lemma_filter_pred(pred, k);
    }
    if t < loaded.len() && !in_range(r, loaded[t as int]) {
        assert(s[t as int] == t);
        s.lemma_filter_contains(pred, t as int);
    }
}

/// The grid planner tracks chunk positions `-GRID_HALF..=GRID_HALF` in each axis.
pub const GRID_HALF: i32 = 32;

/// Loaded chunks with a coordinate above this bound are ignored by the grid planner.
pub const GRID_TRACKED_MAX: i32 = 65;

/// The grid planner schedules at most this many chunks per frame.
pub const GRID_SPAWN_LIMIT: usize = 11;

/// Whether the grid planner looks at a loaded chunk.
pub open spec fn grid_tracked(p: Position) -> bool {
    p.x <= GRID_TRACKED_MAX && p.y <= GRID_TRACKED_MAX && p.z <= GRID_TRACKED_MAX
}

/// Whether a position lies on the grid of the grid planner.
pub open spec fn on_grid(p: Position) -> bool {
    &&& -GRID_HALF <= p.x <= GRID_HALF
    &&& -GRID_HALF <= p.y <= GRID_HALF
    &&& -GRID_HALF <= p.z <= GRID_HALF
}

/// The positions within `RENDER_DISTANCE` of the player's chunk in every axis.
pub open spec fn grid_range(player: Position) -> RenderRange {
    RenderRange {
        x_start: (player.x - RENDER_DISTANCE) as i32,
        x_end: (player.x + RENDER_DISTANCE + 1) as i32,
        y_start: (player.y - RENDER_DISTANCE) as i32,
        y_end: (player.y + RENDER_DISTANCE + 1) as i32,
        z_start: (player.z - RENDER_DISTANCE) as i32,
        z_end: (player.z + RENDER_DISTANCE + 1) as i32,
    }
}

/// The first `n` elements of `s`, or all of them if there are fewer.
pub open spec fn first_n<A>(s: Seq<A>, n: nat) -> Seq<A> {
    if s.len() <= n {
        s
    } else {
        s.take(n as int)
    }
}

/// Plans a frame of chunk streaming on a fixed grid around the origin, for a
/// player in chunk `player`: the tracked loaded chunks farther than
/// `RENDER_DISTANCE` from the player's chunk in some axis are unloaded (by index,
/// in increasing order), and the first `GRID_SPAWN_LIMIT` positions within that
/// distance that are not loaded, by increasing x, then y, then z, are scheduled.
pub fn plan_render_grid(player: Position, loaded: &Vec<Position>) -> (result: (Vec<usize>, Vec<Position>))
    requires
        -(GRID_HALF - RENDER_DISTANCE) <= player.x <= GRID_HALF - RENDER_DISTANCE,
        -(GRID_HALF - RENDER_DISTANCE) <= player.y <= GRID_HALF - RENDER_DISTANCE,
        -(GRID_HALF - RENDER_DISTANCE) <= player.z <= GRID_HALF - RENDER_DISTANCE,
        forall|t: int| 0 <= t < loaded.len() && grid_tracked(#[trigger] loaded@[t]) ==> on_grid(loaded@[t]),
    ensures
        result.0@ == indices_upto(loaded.len() as nat).filter(
            |t: usize| grid_tracked(loaded@[t as int]) && !in_range(grid_range(player), loaded@[t as int]),
        ),
        result.1@ == first_n(missing_positions(grid_range(player), loaded@), GRID_SPAWN_LIMIT as nat),
        forall|t: usize| #[trigger] result.0@.contains(t) <==> (t < loaded.len() && ({
            let p = loaded@[t as int];
            p.x <= GRID_TRACKED_MAX && p.y <= GRID_TRACKED_MAX && p.z <= GRID_TRACKED_MAX && !within_reach(player, p)
        })),
        result.1@.len() <= GRID_SPAWN_LIMIT,
        forall|t: int| 0 <= t < result.1@.len() ==> within_reach(player, #[trigger] result.1@[t]) && !loaded@.contains(result.1@[t]),
        lex_sorted(result.1@),
        forall|q: Position| within_reach(player, q) && !loaded@.contains(q) && !result.1@.contains(q) ==>
            result.1@.len() == GRID_SPAWN_LIMIT && forall|t: int| 0 <= t < result.1@.len() ==> lex_before(#[trigger] result.1@[t], q),
{
    let range = RenderRange {
        x_start: player.x - RENDER_DISTANCE,
        x_end: player.x + RENDER_DISTANCE + 1,
        y_start: player.y - RENDER_DISTANCE,
        y_end: player.y + RENDER_DISTANCE + 1,
        z_start: player.z - RENDER_DISTANCE,
        z_end: player.z + RENDER_DISTANCE + 1,
    };
    let ghost pred = |t: usize| grid_tracked(loaded@[t as int]) && !in_range(grid_range(player), loaded@[t as int]);
    let mut unload: Vec<usize> = Vec::new();
    let mut t: usize = 0;
    while t < loaded.len()
        invariant
            t <= loaded.len(),
            range == grid_range(player),
            pred == (|t: usize| grid_tracked(loaded@[t as int]) && !in_range(grid_range(player), loaded@[t as int])),
            unload@ == indices_upto(t as nat).filter(pred),
        decreases loaded.len() - t,
    {
        let p = loaded[t];
        proof {
            assert(indices_upto((t + 1) as nat) =~= indices_upto(t as nat).push(t));
            indices_upto(t as nat).lemma_filter_push(t, pred);
        }
        if p.x <= GRID_TRACKED_MAX && p.y <= GRID_TRACKED_MAX && p.z <= GRID_TRACKED_MAX && !range.contains(&p) {
            unload.push(t);
        }
        t = t + 1;
    }
    let mut spawn = missing_chunks(&range, loaded);
    if spawn.len() > GRID_SPAWN_LIMIT {
        spawn.truncate(GRID_SPAWN_LIMIT);
    }
    proof {
        law_plan_render_grid(player, loaded@, unload@, spawn@);
    }
    (unload, spawn)
}


/// Two sequences without duplicates whose elements are told apart by `sep`
/// concatenate to a sequence without duplicates.
proof fn lemma_concat_no_duplicates(a: Seq<Position>, b: Seq<Position>, sep: spec_fn(Position) -> bool)
    requires
        a.no_duplicates(),
        b.no_duplicates(),
        forall|t: int| 0 <= t < a.len() ==> !sep(#[trigger] a[t]),
        forall|t: int| 0 <= t < b.len() ==> sep(#[trigger] b[t]),
    ensures
        (a + b).no_duplicates(),
{
    let c = a + b;
    assert forall|s: int, t: int| 0 <= s < c.len() && 0 <= t < c.len() && s != t implies c[s] != c[t] by {
        if s < a.len() && t >= a.len() {
            assert(!sep(a[s]) && sep(b[t - a.len()]));
        } else if t < a.len() && s >= a.len() {
            assert(!sep(a[t]) && sep(b[s - a.len()]));
        } else if s < a.len() {
            assert(c[s] == a[s] && c[t] == a[t]);
        } else {
            assert(c[s] == b[s - a.len()] && c[t] == b[t - a.len()]);
        }
    }
}

proof fn lemma_row_no_duplicates(x: int, y: int, z0: int, z1: int)
    requires
        i32::MIN <= x <= i32::MAX,
        i32::MIN <= y <= i32::MAX,
        i32::MIN <= z0,
        z1 <= i32::MAX + 1,
    ensures
        row_positions(x, y, z0, z1).no_duplicates(),
    decreases z1 - z0,
{
    if z1 > z0 {
        lemma_row_no_duplicates(x, y, z0, z1 - 1);
        lemma_row_positions(x, y, z0, z1 - 1);
        let prev = row_positions(x, y, z0, z1 - 1);
        lemma_concat_no_duplicates(prev, seq![position(x, y, z1 - 1)], |p: Position| p.z == z1 - 1);
        assert(prev.push(position(x, y, z1 - 1)) =~= prev + seq![position(x, y, z1 - 1)]);
    }
}

proof fn lemma_layer_no_duplicates(x: int, y0: int, y1: int, z0: int, z1: int)
    requires
        i32::MIN <= x <= i32::MAX,
        i32::MIN <= y0,
        y1 <= i32::MAX + 1,
        i32::MIN <= z0,
        z1 <= i32::MAX + 1,
    ensures
        layer_positions(x, y0, y1, z0, z1).no_duplicates(),
    decreases y1 - y0,
{
    if y1 > y0 {
        lemma_layer_no_duplicates(x, y0, y1 - 1, z0, z1);
        lemma_row_no_duplicates(x, y1 - 1, z0, z1);
        lemma_layer_positions(x, y0, y1 - 1, z0, z1);
        lemma_row_positions(x, y1 - 1, z0, z1);
        lemma_concat_no_duplicates(
            layer_positions(x, y0, y1 - 1, z0, z1),
            row_positions(x, y1 - 1, z0, z1),
            |p: Position| p.y == y1 - 1,
        );
    }
}

proof fn lemma_box_no_duplicates(x0: int, x1: int, y0: int, y1: int, z0: int, z1: int)
    requires
        i32::MIN <= x0,
        x1 <= i32::MAX + 1,
        i32::MIN <= y0,
        y1 <= i32::MAX + 1,
        i32::MIN <= z0,
        z1 <= i32::MAX + 1,
    ensures
        box_positions(x0, x1, y0, y1, z0, z1).no_duplicates(),
    decreases x1 - x0,
{
    if x1 > x0 {
        lemma_box_no_duplicates(x0, x1 - 1, y0, y1, z0, z1);
        lemma_layer_no_duplicates(x1 - 1, y0, y1, z0, z1);
        lemma_box_positions(x0, x1 - 1, y0, y1, z0, z1);
        lemma_layer_positions(x1 - 1, y0, y1, z0, z1);
        lemma_concat_no_duplicates(
            box_positions(x0, x1 - 1, y0, y1, z0, z1),
            layer_positions(x1 - 1, y0, y1, z0, z1),
            |p: Position| p.x == x1 - 1,
        );
    }
}

/// Filtering keeps a sequence free of duplicates.
proof fn lemma_filter_no_duplicates(s: Seq<Position>, pred: spec_fn(Position) -> bool)
    requires
        s.no_duplicates(),
    ensures
        s.filter(pred).no_duplicates(),
    decreases s.len(),
{
    if s.len() > 0 {
        let init = s.drop_last();
        let last = s.last();
        assert(init.no_duplicates()) by {
            assert forall|a: int, b: int| 0 <= a < init.len() && 0 <= b < init.len() && a != b implies init[a] != init[b] by {
                assert(init[a] == s[a] && init[b] == s[b]);
            }
        }
        lemma_filter_no_duplicates(init, pred);
        assert(init.push(last) =~= s);
        init.lemma_filter_push(last, pred);
        if pred(last) {
            let f = init.filter(pred);
            if f.contains(last) {
                init.lemma_filter_contains_rev(pred, last);
                let t = choose|t: int| 0 <= t < init.len() && init[t] == last;
                assert(s[t] == s[s.len() - 1]);
            }
            assert forall|a: int, b: int| 0 <= a < f.push(last).len() && 0 <= b < f.push(last).len() && a != b
                implies f.push(last)[a] != f.push(last)[b] by {
                if a == f.len() {
                    assert(f[b] != last) by {
                        assert(f.contains(f[b]));
                    }
                } else if b == f.len() {
                    assert(f[a] != last) by {
                        assert(f.contains(f[a]));
                    }
                }
            }
        }
    }
}

/// Law: no chunk position is scheduled twice by a frame's plan.
pub proof fn lemma_missing_no_duplicates(r: RenderRange, loaded: Seq<Position>)
    ensures
        missing_positions(r, loaded).no_duplicates(),
{
    lemma_box_no_duplicates(r.x_start as int, r.x_end as int, r.y_start as int, r.y_end as int, r.z_start as int, r.z_end as int);
    lemma_filter_no_duplicates(range_positions(r), |p: Position| !loaded.contains(p));
}


/// The loaded chunks once a plan for `loaded` has been carried out: those inside
/// the range stay, and the missing positions are added.
pub open spec fn loaded_after(r: RenderRange, loaded: Seq<Position>) -> Seq<Position> {
    loaded.filter(|p: Position| in_range(r, p)) + missing_positions(r, loaded)
}

/// Law: carrying out a frame's plan leaves nothing to do: planning again for the
/// same render range unloads nothing and finds no position missing.
pub proof fn lemma_plan_then_nothing_to_do(r: RenderRange, loaded: Seq<Position>)
    requires
        loaded.len() + missing_positions(r, loaded).len() <= usize::MAX,
    ensures
        out_of_range_indices(r, loaded_after(r, loaded)).len() == 0,
        missing_positions(r, loaded_after(r, loaded)).len() == 0,
{
    let after = loaded_after(r, loaded);
    let kept = loaded.filter(|p: Position| in_range(r, p));
    let missing = missing_positions(r, loaded);
    // Every chunk loaded afterwards lies in the range.
    assert forall|t: int| 0 <= t < after.len() implies in_range(r, #[trigger] after[t]) by {
        if t < kept.len() {
            loaded.lemma_filter_pred(|p: Position| in_range(r, p), t);
        } else {
            assert(missing.contains(after[t]) ) by {
                assert(missing[t - kept.len()] == after[t]);
            }
            lemma_missing_exactly_unloaded_in_range(r, loaded, after[t]);
        }
    }
    let s = indices_upto(after.len());
    let unload_pred = |u: usize| !in_range(r, after[u as int]);
    assert(s.all(|u: usize| !unload_pred(u))) by {
        assert forall|k: int| 0 <= k < s.len() implies (|u: usize| !unload_pred(u))(#[trigger] s[k]) by {
            assert(s[k] as int == k);
        }
    }
    s.lemma_all_neg_filter_empty(unload_pred);
    // Every position of the range is loaded afterwards.
    let rp = range_positions(r);
    let missing_pred = |p: Position| !after.contains(p);
    assert(rp.all(|p: Position| !missing_pred(p))) by {
        assert forall|k: int| 0 <= k < rp.len() implies (|p: Position| !missing_pred(p))(#[trigger] rp[k]) by {
            let q = rp[k];
            assert(rp.contains(q));
            lemma_range_positions(r, q);
            lemma_missing_exactly_unloaded_in_range(r, loaded, q);
            if loaded.contains(q) {
                let u = choose|u: int| 0 <= u < loaded.len() && loaded[u] == q;
                loaded.lemma_filter_contains(|p: Position| in_range(r, p), u);
                lemma_concat_contains(kept, missing, q);
            } else {
                lemma_concat_contains(kept, missing, q);
            }
        }
    }
    rp.lemma_all_neg_filter_empty(missing_pred);
}


/// Whether chunk coordinate `c` is block coordinate `b` divided by `CHUNK_SIZE`
/// rounded toward zero: `b` lies within the first `CHUNK_SIZE - 1` blocks from
/// `c * CHUNK_SIZE` away from zero.
pub open spec fn chunk_of_block(b: int, c: int) -> bool {
    &&& b >= 0 ==> 0 <= b - 16 * c < 16
    &&& b < 0 ==> -16 < b - 16 * c <= 0
}

/// Whether `[start, end)` is the render span around block coordinate `b`:
/// `RENDER_DISTANCE` chunks on either side of the chunk holding `b`.
pub open spec fn render_span_of_block(b: int, start: int, end: int) -> bool {
    &&& chunk_of_block(b, start + 10)
    &&& end == start + 20
}

/// Law: the render range of a player is taken axis by axis from the player's
/// block: the x span from `block_x`, the y span from `block_y`, the z span from
/// `block_z`, each `RENDER_DISTANCE` chunks around the chunk holding that coordinate.
pub proof fn law_player_render_range(block_x: i32, block_y: i32, block_z: i32, r: RenderRange)
    requires
        r == player_render_range(block_x, block_y, block_z),
    ensures
        RENDER_DISTANCE == 10 && CHUNK_SIZE == 16,
        render_span_of_block(block_x as int, r.x_start as int, r.x_end as int),
        render_span_of_block(block_y as int, r.y_start as int, r.y_end as int),
        render_span_of_block(block_z as int, r.z_start as int, r.z_end as int),
{
}

/// Law: `nearest_first` orders the chosen candidates by their full key, ties by
/// their position in the list, and chooses no key larger than a key left out.
pub proof fn law_nearest_first_order(keys: Seq<u32>, limit: nat, order: Seq<usize>)
    requires
        is_nearest_first(keys, limit, order),
    ensures
        order.len() == if keys.len() < limit { keys.len() } else { limit },
        forall|t: int| 0 <= t < order.len() ==> order[t] < keys.len(),
        forall|s: int, t: int| 0 <= s < t < order.len() ==>
            keys[order[s] as int] <= keys[order[t] as int]
            && (keys[order[s] as int] == keys[order[t] as int] ==> order[s] < order[t]),
        forall|t: int, u: int| 0 <= t < order.len() && 0 <= u < keys.len() && !order.contains(u as usize) ==>
            keys[order[t] as int] <= #[trigger] keys[u]
            && (keys[order[t] as int] == keys[u] ==> #[trigger] order[t] < u),
{
    assert forall|s: int, t: int| 0 <= s < t < order.len() implies
        keys[order[s] as int] <= keys[order[t] as int]
        && (keys[order[s] as int] == keys[order[t] as int] ==> order[s] < order[t]) by {
        assert(precedes(keys, order[s] as int, order[t] as int));
    }
    assert forall|t: int, u: int| 0 <= t < order.len() && 0 <= u < keys.len() && !order.contains(u as usize) implies
        keys[order[t] as int] <= #[trigger] keys[u]
        && (keys[order[t] as int] == keys[u] ==> #[trigger] order[t] < u) by {
        assert(precedes(keys, order[t] as int, u));
    }
}

/// Whether a position is within `RENDER_DISTANCE` chunks of `player` in every axis.
pub open spec fn within_reach(player: Position, p: Position) -> bool {
    &&& player.x - RENDER_DISTANCE <= p.x <= player.x + RENDER_DISTANCE
    &&& player.y - RENDER_DISTANCE <= p.y <= player.y + RENDER_DISTANCE
    &&& player.z - RENDER_DISTANCE <= p.z <= player.z + RENDER_DISTANCE
}

/// Whether `a` comes before `b` ordered by x, then y, then z.
pub open spec fn lex_before(a: Position, b: Position) -> bool {
    a.x < b.x || (a.x == b.x && (a.y < b.y || (a.y == b.y && a.z < b.z)))
}

pub open spec fn lex_sorted(s: Seq<Position>) -> bool {
    forall|i: int, j: int| 0 <= i < j < s.len() ==> lex_before(s[i], s[j])
}

proof fn lemma_concat_lex_sorted(a: Seq<Position>, b: Seq<Position>)
    requires
        lex_sorted(a),
        lex_sorted(b),
        forall|i: int, j: int| 0 <= i < a.len() && 0 <= j < b.len() ==> lex_before(a[i], b[j]),
    ensures
        lex_sorted(a + b),
{
    let c = a + b;
    assert forall|i: int, j: int| 0 <= i < j < c.len() implies lex_before(c[i], c[j]) by {
        if j < a.len() {
            assert(c[i] == a[i] && c[j] == a[j]);
        } else if i >= a.len() {
            assert(c[i] == b[i - a.len()] && c[j] == b[j - a.len()]);
        } else {
            assert(c[i] == a[i] && c[j] == b[j - a.len()]);
        }
    }
}

proof fn lemma_row_sorted(x: int, y: int, z0: int, z1: int)
    requires
        i32::MIN <= x <= i32::MAX,
        i32::MIN <= y <= i32::MAX,
        i32::MIN <= z0,
        z1 <= i32::MAX + 1,
    ensures
        lex_sorted(row_positions(x, y, z0, z1)),
    decreases z1 - z0,
{
    if z1 > z0 {
        lemma_row_sorted(x, y, z0, z1 - 1);
        lemma_row_positions(x, y, z0, z1 - 1);
        let prev = row_positions(x, y, z0, z1 - 1);
        let last = position(x, y, z1 - 1);
        assert forall|i: int, j: int| 0 <= i < prev.len() && 0 <= j < 1 implies lex_before(prev[i], seq![last][j]) by {
            assert(in_box(prev[i], x, x + 1, y, y + 1, z0, z1 - 1));
        }
        lemma_concat_lex_sorted(prev, seq![last]);
        assert(prev.push(last) =~= prev + seq![last]);
    }
}

proof fn lemma_layer_sorted(x: int, y0: int, y1: int, z0: int, z1: int)
    requires
        i32::MIN <= x <= i32::MAX,
        i32::MIN <= y0,
        y1 <= i32::MAX + 1,
        i32::MIN <= z0,
        z1 <= i32::MAX + 1,
    ensures
        lex_sorted(layer_positions(x, y0, y1, z0, z1)),
    decreases y1 - y0,
{
    if y1 > y0 {
        lemma_layer_sorted(x, y0, y1 - 1, z0, z1);
        lemma_row_sorted(x, y1 - 1, z0, z1);
        lemma_layer_positions(x, y0, y1 - 1, z0, z1);
        lemma_row_positions(x, y1 - 1, z0, z1);
        let a = layer_positions(x, y0, y1 - 1, z0, z1);
        let b = row_positions(x, y1 - 1, z0, z1);
        assert forall|i: int, j: int| 0 <= i < a.len() && 0 <= j < b.len() implies lex_before(a[i], b[j]) by {
            assert(in_box(a[i], x, x + 1, y0, y1 - 1, z0, z1));
            assert(in_box(b[j], x, x + 1, y1 - 1, y1, z0, z1));
        }
        lemma_concat_lex_sorted(a, b);
    }
}

proof fn lemma_box_sorted(x0: int, x1: int, y0: int, y1: int, z0: int, z1: int)
    requires
        i32::MIN <= x0,
        x1 <= i32::MAX + 1,
        i32::MIN <= y0,
        y1 <= i32::MAX + 1,
        i32::MIN <= z0,
        z1 <= i32::MAX + 1,
    ensures
        lex_sorted(box_positions(x0, x1, y0, y1, z0, z1)),
    decreases x1 - x0,
{
    if x1 > x0 {
        lemma_box_sorted(x0, x1 - 1, y0, y1, z0, z1);
        lemma_layer_sorted(x1 - 1, y0, y1, z0, z1);
        lemma_box_positions(x0, x1 - 1, y0, y1, z0, z1);
        lemma_layer_positions(x1 - 1, y0, y1, z0, z1);
        let a = box_positions(x0, x1 - 1, y0, y1, z0, z1);
        let b = layer_positions(x1 - 1, y0, y1, z0, z1);
        assert forall|i: int, j: int| 0 <= i < a.len() && 0 <= j < b.len() implies lex_before(a[i], b[j]) by {
            assert(in_box(a[i], x0, x1 - 1, y0, y1, z0, z1));
            assert(in_box(b[j], x1 - 1, x1, y0, y1, z0, z1));
        }
        lemma_concat_lex_sorted(a, b);
    }
}

/// Filtering keeps a sequence sorted by `lt`.
proof fn lemma_filter_sorted<A>(s: Seq<A>, pred: spec_fn(A) -> bool, lt: spec_fn(A, A) -> bool)
    requires
        forall|i: int, j: int| 0 <= i < j < s.len() ==> lt(s[i], s[j]),
    ensures
        forall|i: int, j: int| 0 <= i < j < s.filter(pred).len() ==> lt(s.filter(pred)[i], s.filter(pred)[j]),
    decreases s.len(),
{
    if s.len() > 0 {
        let init = s.drop_last();
        let last = s.last();
        assert forall|i: int, j: int| 0 <= i < j < init.len() implies lt(init[i], init[j]) by {
            assert(init[i] == s[i] && init[j] == s[j]);
        }
        lemma_filter_sorted(init, pred, lt);
        assert(init.push(last) =~= s);
        init.lemma_filter_push(last, pred);
        let f = init.filter(pred);
        if pred(last) {
            assert forall|i: int, j: int| 0 <= i < j < f.push(last).len() implies lt(f.push(last)[i], f.push(last)[j]) by {
                if j == f.len() {
                    assert(f.contains(f[i]));
                    init.lemma_filter_contains_rev(pred, f[i]);
                    let k = choose|k: int| 0 <= k < init.len() && init[k] == f[i];
                    assert(s[k] == f[i] && s[s.len() - 1] == last);
                } else {
                    assert(f.push(last)[i] == f[i] && f.push(last)[j] == f[j]);
                }
            }
        }
    }
}

/// Law: the grid planner unloads a tracked loaded chunk exactly when it is more
/// than `RENDER_DISTANCE` chunks from the player's chunk in some axis, listing
/// indices in increasing order; and it schedules, by increasing x, then y, then z,
/// at most `GRID_SPAWN_LIMIT` free positions within `RENDER_DISTANCE` of the
/// player's chunk in every axis, leaving out a free position within reach only
/// when the limit is reached and the position comes after every scheduled one.
pub proof fn law_plan_render_grid(player: Position, loaded: Seq<Position>, unload: Seq<usize>, spawn: Seq<Position>)
    requires
        -(GRID_HALF - RENDER_DISTANCE) <= player.x <= GRID_HALF - RENDER_DISTANCE,
        -(GRID_HALF - RENDER_DISTANCE) <= player.y <= GRID_HALF - RENDER_DISTANCE,
        -(GRID_HALF - RENDER_DISTANCE) <= player.z <= GRID_HALF - RENDER_DISTANCE,
        loaded.len() <= usize::MAX,
        unload == indices_upto(loaded.len()).filter(
            |t: usize| grid_tracked(loaded[t as int]) && !in_range(grid_range(player), loaded[t as int]),
        ),
        spawn == first_n(missing_positions(grid_range(player), loaded), GRID_SPAWN_LIMIT as nat),
    ensures
        RENDER_DISTANCE == 10 && GRID_SPAWN_LIMIT == 11 && GRID_TRACKED_MAX == 65,
        forall|t: usize| #[trigger] unload.contains(t) <==> (t < loaded.len() && ({
            let p = loaded[t as int];
            p.x <= GRID_TRACKED_MAX && p.y <= GRID_TRACKED_MAX && p.z <= GRID_TRACKED_MAX && !within_reach(player, p)
        })),
        forall|s: int, t: int| 0 <= s < t < unload.len() ==> unload[s] < unload[t],
        spawn.len() <= GRID_SPAWN_LIMIT,
        forall|t: int| 0 <= t < spawn.len() ==> within_reach(player, #[trigger] spawn[t]) && !loaded.contains(spawn[t]),
        lex_sorted(spawn),
        forall|q: Position| within_reach(player, q) && !loaded.contains(q) && !spawn.contains(q) ==>
            spawn.len() == GRID_SPAWN_LIMIT && forall|t: int| 0 <= t < spawn.len() ==> lex_before(#[trigger] spawn[t], q),
{
    let r = grid_range(player);
    let pred = |t: usize| grid_tracked(loaded[t as int]) && !in_range(r, loaded[t as int]);
    let idx = indices_upto(loaded.len());
    assert forall|t: usize| #[trigger] unload.contains(t) <==> (t < loaded.len() && ({
        let p = loaded[t as int];
        p.x <= GRID_TRACKED_MAX && p.y <= GRID_TRACKED_MAX && p.z <= GRID_TRACKED_MAX && !within_reach(player, p)
    })) by {
        if unload.contains(t) {
            idx.lemma_filter_contains_rev(pred, t);
            let k = choose|k: int| 0 <= k < unload.len() && unload[k] == t;
            idx.lemma_filter_pred(pred, k);
        }
        if t < loaded.len() && pred(t) {
            assert(idx[t as int] == t);
            idx.lemma_filter_contains(pred, t as int);
        }
    }
    lemma_filter_sorted(idx, pred, |a: usize, b: usize| a < b);
    let m = missing_positions(r, loaded);
    let rp = range_positions(r);
    lemma_box_sorted(r.x_start as int, r.x_end as int, r.y_start as int, r.y_end as int, r.z_start as int, r.z_end as int);
    lemma_filter_sorted(rp, |p: Position| !loaded.contains(p), |a: Position, b: Position| lex_before(a, b));
    assert(lex_sorted(m));
    assert forall|t: int| 0 <= t < spawn.len() implies within_reach(player, #[trigger] spawn[t]) && !loaded.contains(spawn[t]) by {
        assert(spawn[t] == m[t]);
        assert(m.contains(m[t]));
        lemma_missing_exactly_unloaded_in_range(r, loaded, m[t]);
    }
    assert(lex_sorted(spawn)) by {
        assert forall|i: int, j: int| 0 <= i < j < spawn.len() implies lex_before(spawn[i], spawn[j]) by {
            assert(spawn[i] == m[i] && spawn[j] == m[j]);
        }
    }
    assert forall|q: Position| within_reach(player, q) && !loaded.contains(q) && !spawn.contains(q) implies
        spawn.len() == GRID_SPAWN_LIMIT && forall|t: int| 0 <= t < spawn.len() ==> lex_before(#[trigger] spawn[t], q) by {
        lemma_missing_exactly_unloaded_in_range(r, loaded, q);
        let k = choose|k: int| 0 <= k < m.len() && m[k] == q;
        if k < GRID_SPAWN_LIMIT {
            assert(spawn[k] == q);
        }
        assert forall|t: int| 0 <= t < spawn.len() implies lex_before(#[trigger] spawn[t], q) by {
            assert(spawn[t] == m[t]);
        }
    }
}

/// Law: the loaded chunks listed for unloading, by index in increasing order, are
/// exactly those that lie outside the render range in some axis.
pub proof fn law_unload_out_of_range(r: RenderRange, loaded: Seq<Position>, unload: Seq<usize>)
    requires
        loaded.len() <= usize::MAX,
        unload == out_of_range_indices(r, loaded),
    ensures
        forall|t: usize| #[trigger] unload.contains(t) <==> (t < loaded.len() && !({
            let p = loaded[t as int];
            r.x_start <= p.x < r.x_end && r.y_start <= p.y < r.y_end && r.z_start <= p.z < r.z_end
        })),
        forall|s: int, t: int| 0 <= s < t < unload.len() ==> unload[s] < unload[t],
{
    assert forall|t: usize| #[trigger] unload.contains(t) <==> (t < loaded.len() && !({
        let p = loaded[t as int];
        r.x_start <= p.x < r.x_end && r.y_start <= p.y < r.y_end && r.z_start <= p.z < r.z_end
    })) by {
        lemma_unload_exactly_out_of_range(r, loaded, t);
    }
    lemma_filter_sorted(indices_upto(loaded.len()), |t: usize| !in_range(r, loaded[t as int]), |a: usize, b: usize| a < b);
}

/// Law: the positions listed as missing, by increasing x, then y, then z, are
/// exactly the positions inside the render range in every axis that are not loaded.
pub proof fn law_missing_in_range(r: RenderRange, loaded: Seq<Position>, missing: Seq<Position>)
    requires
        missing == missing_positions(r, loaded),
    ensures
        forall|q: Position| #[trigger] missing.contains(q) <==> (
            r.x_start <= q.x < r.x_end && r.y_start <= q.y < r.y_end && r.z_start <= q.z < r.z_end
                && !loaded.contains(q)),
        forall|s: int, t: int| 0 <= s < t < missing.len() ==> #[trigger] lex_before(missing[s], missing[t]),
{
    assert forall|q: Position| #[trigger] missing.contains(q) <==> (
        r.x_start <= q.x < r.x_end && r.y_start <= q.y < r.y_end && r.z_start <= q.z < r.z_end
            && !loaded.contains(q)) by {
        lemma_missing_exactly_unloaded_in_range(r, loaded, q);
    }
    lemma_box_sorted(r.x_start as int, r.x_end as int, r.y_start as int, r.y_end as int, r.z_start as int, r.z_end as int);
    lemma_filter_sorted(range_positions(r), |p: Position| !loaded.contains(p), |a: Position, b: Position| lex_before(a, b));
}

} // verus!
