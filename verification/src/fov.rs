//! Per-observer visibility state.  The computation itself lives here too: a
//! deterministic, symmetric line-of-sight over the grid, respecting each
//! tile's transparency flag.

use vstd::prelude::*;

use crate::actor::{occupancy_preserved_by_being_edit, Position};
use crate::map::WorldMap;
use crate::state::{cache_ok_preserved, State};
use crate::world::{Being, World};

verus! {

/// Visibility state of one observer.  `visible_tiles` is only trustworthy
/// while `dirty` is false; whoever moves the observer or changes what the map
/// lets light through must set `dirty` again.
pub struct ViewShed {
    pub range: u32,
    pub visible_tiles: Vec<Position>,
    pub dirty: bool,
}

impl ViewShed {
    pub fn new(range: u32) -> (r: ViewShed)
        ensures
            r.range == range,
            r.visible_tiles@.len() == 0,
            r.dirty,
    {
        ViewShed { range, visible_tiles: Vec::new(), dirty: true }
    }
}

pub open spec fn abs_of(v: int) -> int {
    if v < 0 {
        -v
    } else {
        v
    }
}

pub open spec fn max_of(a: int, b: int) -> int {
    if a >= b {
        a
    } else {
        b
    }
}

pub open spec fn sq(v: int) -> int {
    v * v
}

/// Squared Euclidean distance between two cells.
pub open spec fn dist2(a: Position, b: Position) -> int {
    sq(b.x - a.x) + sq(b.y - a.y)
}

/// How many steps the digital ray between two cells takes.
pub open spec fn ray_steps(a: Position, b: Position) -> int {
    max_of(abs_of(b.x - a.x), abs_of(b.y - a.y))
}

/// The rounded fraction `k/n` of a displacement `d`.
pub open spec fn interp(d: int, k: int, n: int) -> int {
    if d >= 0 {
        (k * d + n / 2) / n
    } else {
        -((k * (-d) + n / 2) / n)
    }
}

/// The `k`-th cell of the digital ray from `a` towards `b`.
pub open spec fn ray_cell(a: Position, b: Position, k: int) -> Position {
    let n = ray_steps(a, b);
    Position {
        x: (a.x + interp(b.x - a.x, k, n)) as i32,
        y: (a.y + interp(b.y - a.y, k, n)) as i32,
    }
}

/// Every cell strictly between the two endpoints lets light through.  The
/// endpoints themselves do not matter: an opaque wall is itself visible, but
/// blocks anything past it.
pub open spec fn ray_clear(m: WorldMap, a: Position, b: Position) -> bool {
    forall|k: int|
        0 < k < ray_steps(a, b) ==> {
            let c = #[trigger] ray_cell(a, b, k);
            m.in_bounds(c) && m.tiles@[m.index_of(c)].is_transparent
        }
}

/// A cell is visible from an origin when it lies on the map, within the
/// observer's Euclidean range, and a clear ray connects the two in at least
/// one direction — taking the better of the two directions makes visibility
/// symmetric by construction.
pub open spec fn visible_from(m: WorldMap, origin: Position, range: int, c: Position) -> bool {
    &&& m.in_bounds(c)
    &&& dist2(origin, c) <= range * range
    &&& (ray_clear(m, origin, c) || ray_clear(m, c, origin))
}

/// Visibility is symmetric: what an observer here sees from there, an
/// observer there sees from here, on the same map with the same range.
pub proof fn lemma_visibility_symmetric(m: WorldMap, a: Position, b: Position, range: int)
    requires
        m.in_bounds(a),
        m.in_bounds(b),
    ensures
        visible_from(m, a, range, b) == visible_from(m, b, range, a),
{
    assert(sq(b.x - a.x) == sq(a.x - b.x)) by (nonlinear_arith);
    assert(sq(b.y - a.y) == sq(a.y - b.y)) by (nonlinear_arith);
}

/// The rounded interpolation stays between zero and the displacement.
proof fn lemma_interp_bounds(d: int, k: int, n: int)
    requires
        n >= 1,
        0 <= k <= n,
        0 <= d <= n,
    ensures
        0 <= (k * d + n / 2) / n <= d,
{
    let num = k * d + n / 2;
    vstd::arithmetic::div_mod::lemma_fundamental_div_mod(num, n);
    let q = num / n;
    let r = num % n;
    vstd::arithmetic::div_mod::lemma_mod_bound(num, n);
    assert(k * d >= 0) by (nonlinear_arith)
        requires
            k >= 0,
            d >= 0,
    ;
    assert(k * d <= n * d) by (nonlinear_arith)
        requires
            k <= n,
            d >= 0,
    ;
    assert(num == n * q + r);
    assert(n * q <= n * d + n / 2) by {
        assert(n * q == num - r);
        assert(r >= 0);
    }
    assert(q <= d) by (nonlinear_arith)
        requires
            n >= 1,
            n * q <= n * d + n / 2,
            n / 2 < n,
    ;
    assert(q >= 0) by (nonlinear_arith)
        requires
            n >= 1,
            n * q + r >= 0,
            0 <= r < n,
    ;
}

/// One interpolation step of the ray walk, bounded by the displacement.
fn interp_step(d: i64, k: i64, n: i64) -> (r: i64)
    requires
        1 <= n <= 0x7fff_ffff,
        1 <= k <= n,
        -0x7fff_ffff <= d <= 0x7fff_ffff,
        -n <= d <= n,
    ensures
        r == interp(d as int, k as int, n as int),
        if d >= 0 {
            0 <= r <= d
        } else {
            d <= r <= 0
        },
{
    proof {
        assert(-0x4000_0000_0000_0000 < k * d < 0x4000_0000_0000_0000) by (nonlinear_arith)
            requires
                1 <= k <= 0x7fff_ffff,
                -0x7fff_ffff <= d <= 0x7fff_ffff,
        ;
        assert(-0x4000_0000_0000_0000 < k * (-d) < 0x4000_0000_0000_0000) by (nonlinear_arith)
            requires
                1 <= k <= 0x7fff_ffff,
                -0x7fff_ffff <= d <= 0x7fff_ffff,
        ;
        if d >= 0 {
            lemma_interp_bounds(d as int, k as int, n as int);
        } else {
            lemma_interp_bounds(-d as int, k as int, n as int);
        }
    }
    if d >= 0 {
        (k * d + n / 2) / n
    } else {
        -((k * (-d) + n / 2) / n)
    }
}

/// Whether the digital ray between the two cells is unobstructed strictly
/// between them.
fn line_clear(map: &WorldMap, a: Position, b: Position) -> (r: bool)
    requires
        map.wf(),
        map.in_bounds(a),
        map.in_bounds(b),
    ensures
        r == ray_clear(*map, a, b),
{
    let dx: i64 = b.x as i64 - a.x as i64;
    let dy: i64 = b.y as i64 - a.y as i64;
    let adx: i64 = if dx < 0 {
        -dx
    } else {
        dx
    };
    let ady: i64 = if dy < 0 {
        -dy
    } else {
        dy
    };
    let n: i64 = if adx >= ady {
        adx
    } else {
        ady
    };
    proof {
        assert(n == ray_steps(a, b));
    }
    let mut k: i64 = 1;
    while k < n
        invariant
            map.wf(),
            map.in_bounds(a),
            map.in_bounds(b),
            1 <= k,
            n == ray_steps(a, b),
            dx == b.x - a.x,
            dy == b.y - a.y,
            n <= i32::MAX,
            -0x7fff_ffff <= dx <= 0x7fff_ffff,
            -0x7fff_ffff <= dy <= 0x7fff_ffff,
            -n <= dx <= n,
            -n <= dy <= n,
            k <= if n > 1 {
                n
            } else {
                1
            },
            forall|j: int|
                0 < j < k ==> {
                    let c = #[trigger] ray_cell(a, b, j);
                    map.in_bounds(c) && map.tiles@[map.index_of(c)].is_transparent
                },
        decreases n - k,
    {
        let ox: i64 = interp_step(dx, k, n);
        let oy: i64 = interp_step(dy, k, n);
        let c = Position { x: (a.x as i64 + ox) as i32, y: (a.y as i64 + oy) as i32 };
        proof {
            assert(c == ray_cell(a, b, k as int));
        }
        if !map.within_bounds(c) {
            return false;
        }
        let idx = map.index(c);
        if !map.tile_at(idx).is_transparent {
            proof {
                assert(!ray_clear(*map, a, b)) by {
                    assert(ray_cell(a, b, k as int) == c);
                }
            }
            return false;
        }
        k = k + 1;
    }
    true
}

/// A square bound follows from a squared bound.
proof fn lemma_sq_bound(d: int, r: int)
    requires
        r >= 0,
        d * d <= r * r,
    ensures
        -r <= d <= r,
{
    assert(d > r ==> d * d > r * r) by (nonlinear_arith)
        requires
            r >= 0,
    ;
    assert(d < -r ==> d * d > r * r) by (nonlinear_arith)
        requires
            r >= 0,
    ;
}

/// Computes the set of cells visible from the origin within the given range:
/// deterministic in map, origin and range, clipped at the map edge, walls
/// themselves visible but blocking.
pub fn compute_visible(map: &WorldMap, origin: Position, range: u32) -> (r: Vec<Position>)
    requires
        map.wf(),
        map.in_bounds(origin),
        range <= 0x7fff_ffff,
    ensures
        forall|c: Position| #[trigger]
            r@.contains(c) <==> visible_from(*map, origin, range as int, c),
{
    broadcast use vstd::seq_lib::lemma_seq_contains_after_push;

    let rng = range as i64;
    let ox = origin.x as i64;
    let oy = origin.y as i64;
    let x0: i64 = if ox - rng < 0 {
        0
    } else {
        ox - rng
    };
    let y0: i64 = if oy - rng < 0 {
        0
    } else {
        oy - rng
    };
    let x1: i64 = if ox + rng > map.width as i64 - 1 {
        map.width as i64 - 1
    } else {
        ox + rng
    };
    let y1: i64 = if oy + rng > map.height as i64 - 1 {
        map.height as i64 - 1
    } else {
        oy + rng
    };
    proof {
        assert forall|c: Position| visible_from(*map, origin, range as int, c) implies x0 <= c.x
            <= x1 && y0 <= c.y <= y1 by {
            assert(sq(c.x - origin.x) <= range as int * range as int) by {
                assert(sq(c.y - origin.y) >= 0) by (nonlinear_arith);
            }
            assert(sq(c.y - origin.y) <= range as int * range as int) by {
                assert(sq(c.x - origin.x) >= 0) by (nonlinear_arith);
            }
            lemma_sq_bound(c.x - origin.x, range as int);
            lemma_sq_bound(c.y - origin.y, range as int);
        }
    }
    let mut res: Vec<Position> = Vec::new();
    let mut y: i64 = y0;
    while y <= y1
        invariant
            map.wf(),
            map.in_bounds(origin),
            range <= 0x7fff_ffff,
            rng == range,
            ox == origin.x,
            oy == origin.y,
            0 <= x0 <= x1,
            0 <= y0 <= y,
            y0 <= y1,
            x1 < map.width,
            y1 < map.height,
            y <= y1 + 1,
            forall|c: Position|
                visible_from(*map, origin, range as int, c) ==> x0 <= c.x <= x1 && y0 <= c.y <= y1,
            forall|c: Position| #[trigger]
                res@.contains(c) <==> (visible_from(*map, origin, range as int, c) && c.y < y),
        decreases y1 + 1 - y,
    {
        let mut x: i64 = x0;
        while x <= x1
            invariant
                map.wf(),
                map.in_bounds(origin),
                range <= 0x7fff_ffff,
                rng == range,
                ox == origin.x,
                oy == origin.y,
                0 <= x0 <= x,
                x0 <= x1,
                0 <= y0 <= y <= y1 < map.height,
                x1 < map.width,
                x <= x1 + 1,
                forall|c: Position|
                    visible_from(*map, origin, range as int, c) ==> x0 <= c.x <= x1 && y0 <= c.y
                        <= y1,
                forall|c: Position| #[trigger]
                    res@.contains(c) <==> (visible_from(*map, origin, range as int, c) && (c.y < y
                        || (c.y == y && c.x < x))),
            decreases x1 + 1 - x,
        {
            let c = Position { x: x as i32, y: y as i32 };
            let ddx: i64 = c.x as i64 - ox;
            let ddy: i64 = c.y as i64 - oy;
            proof {
                assert(ddx * ddx <= 0x3fff_ffff_0000_0001 && ddx * ddx >= 0) by (nonlinear_arith)
                    requires
                        -0x7fff_ffff <= ddx <= 0x7fff_ffff,
                ;
                assert(ddy * ddy <= 0x3fff_ffff_0000_0001 && ddy * ddy >= 0) by (nonlinear_arith)
                    requires
                        -0x7fff_ffff <= ddy <= 0x7fff_ffff,
                ;
                assert(rng * rng <= 0x3fff_ffff_0000_0001 && rng * rng >= 0) by (nonlinear_arith)
                    requires
                        0 <= rng <= 0x7fff_ffff,
                ;
            }
            let d2: i64 = ddx * ddx + ddy * ddy;
            let ghost prev = res@;
            if d2 <= rng * rng && (line_clear(map, origin, c) || line_clear(map, c, origin)) {
                res.push(c);
                proof {
                    assert(visible_from(*map, origin, range as int, c));
                    assert forall|c2: Position| #[trigger]
                        res@.contains(c2) <==> (prev.contains(c2) || c2 == c) by {
                        vstd::seq_lib::lemma_seq_contains_after_push(prev, c, c2);
                    }
                }
            } else {
                proof {
                    assert(!visible_from(*map, origin, range as int, c));
                }
            }
            x = x + 1;
        }
        y = y + 1;
    }
    proof {
        assert forall|c: Position| #[trigger]
            res@.contains(c) <==> visible_from(*map, origin, range as int, c) by {}
    }
    res
}

/// Whether a vector of positions holds the given one.
pub fn contains_pos(v: &Vec<Position>, p: Position) -> (r: bool)
    ensures
        r == v@.contains(p),
{
    let n = v.len();
    let mut i: usize = 0;
    while i < n
        invariant
            n == v@.len(),
            i <= n,
            forall|j: int| 0 <= j < i ==> v@[j] != p,
        decreases n - i,
    {
        let c = v[i];
        if c.x == p.x && c.y == p.y {
            return true;
        }
        i = i + 1;
    }
    false
}

/// The range actually used for a viewshed: clipped so that its square stays
/// computable.
pub open spec fn eff_range(r: u32) -> int {
    if r > 0x7fff_ffff {
        0x7fff_ffff
    } else {
        r as int
    }
}

/// The whole effect of one continuous vision pass: everything but the
/// player's viewshed, the seen-ever flags and the visible raster stands
/// still; the viewshed is recomputed exactly when it was stale; the raster
/// mirrors it and the seen-ever flags grow by exactly the cells now seen.
pub open spec fn vision_pass_outcome(pre: State, post: State) -> bool {
    &&& post.map.tiles@ == pre.map.tiles@
    &&& post.map.destructibles@ == pre.map.destructibles@
    &&& post.map.beings@ == pre.map.beings@
    &&& post.map.width == pre.map.width
    &&& post.map.height == pre.map.height
    &&& post.map.depth == pre.map.depth
    &&& post.map.rooms@ == pre.map.rooms@
    &&& post.message_log == pre.message_log
    &&& post.runstate == pre.runstate
    &&& post.turn_counter == pre.turn_counter
    &&& post.config == pre.config
    &&& post.generated_maps == pre.generated_maps
    &&& match pre.world.first_player() {
        None => post == pre,
        Some(p) => {
            let b = pre.world.being(p);
            if b.pos is None || b.view is None {
                post == pre
            } else {
                let ov = b.view.unwrap();
                let nv = post.world.being(p).view.unwrap();
                &&& World::only_being_changed(pre.world, post.world, p)
                &&& (!ov.dirty ==> post.world == pre.world)
                &&& (ov.dirty ==> {
                    &&& post.world.being(p) == (Being { view: Some(nv), ..b })
                    &&& !nv.dirty
                    &&& nv.range == ov.range
                    &&& forall|c: Position| #[trigger]
                        nv.visible_tiles@.contains(c) <==> visible_from(
                            pre.map,
                            b.pos.unwrap(),
                            eff_range(ov.range),
                            c,
                        )
                })
                &&& forall|i: int|
                    0 <= i < pre.map.discovered@.len() ==> #[trigger] post.map.discovered@[i] == (
                    pre.map.discovered@[i] || post.visible@[i])
                &&& post.visible@.len() == pre.map.tiles@.len()
                &&& forall|i: int|
                    0 <= i < post.visible@.len() ==> #[trigger] post.visible@[i]
                        == post.world.being(p).view.unwrap().visible_tiles@.contains(
                        pre.map.spec_pos_of_idx(i),
                    )
            }
        },
    }
}

/// Refreshes the player's viewshed — only if it is dirty, this being the
/// system's one cache — and rebuilds the global player-visible cell set and
/// the seen-ever flags from it.  The viewshed's content is untouched across
/// any pass where it was not dirty.
pub fn update_vision(state: &mut State)
    requires
        old(state).wf(),
    ensures
        final (state).wf(),
        vision_pass_outcome(*old(state), *final (state)),
        final (state).map.tiles@ == old(state).map.tiles@,
        final (state).map.destructibles@ == old(state).map.destructibles@,
        final (state).map.beings@ == old(state).map.beings@,
        final (state).map.width == old(state).map.width,
        final (state).map.height == old(state).map.height,
        final (state).map.depth == old(state).map.depth,
        final (state).map.rooms@ == old(state).map.rooms@,
        final (state).message_log == old(state).message_log,
        final (state).runstate == old(state).runstate,
        final (state).turn_counter == old(state).turn_counter,
        final (state).config == old(state).config,
        final (state).generated_maps == old(state).generated_maps,
        match old(state).world.first_player() {
            None => *final (state) == *old(state),
            Some(p) => {
                let b = old(state).world.being(p);
                if b.pos is None || b.view is None {
                    *final (state) == *old(state)
                } else {
                    let ov = b.view.unwrap();
                    let pos = b.pos.unwrap();
                    let nv = final (state).world.being(p).view.unwrap();
                    &&& World::only_being_changed(
                        old(state).world,
                        final (state).world,
                        p,
                    )
                    // the cache is honoured: an up-to-date viewshed is not recomputed
                    &&& (!ov.dirty ==> final (state).world == old(state).world)
                    &&& (ov.dirty ==> {
                        &&& final (state).world.being(p) == (Being {
                            view: Some(nv),
                            ..b
                        })
                        &&& !nv.dirty
                        &&& nv.range == ov.range
                        &&& forall|c: Position| #[trigger]
                            nv.visible_tiles@.contains(c) <==> visible_from(
                                old(state).map,
                                pos,
                                eff_range(ov.range),
                                c,
                            )
                    })
                    // the seen-ever flags grow by exactly the cells now seen
                    &&& forall|i: int|
                        0 <= i < old(state).map.discovered@.len()
                            ==> #[trigger] final (state).map.discovered@[i] == (old(
                            state).map.discovered@[i] || final (state).visible@[i])
                    // the raster mirrors the (current) viewshed cell by cell
                    &&& final (state).visible@.len() == old(state).map.tiles@.len()
                    &&& forall|i: int|
                        0 <= i < final (state).visible@.len() ==> (#[trigger] final (state).visible@[i]
                            == final (state).world.being(p).view.unwrap().visible_tiles@.contains(
                            old(state).map.spec_pos_of_idx(i),
                        ))
                }
            },
        },
{
    let pe = match state.world.player_entity() {
        Some(pe) => pe,
        None => {
            return ;
        },
    };
    let (pos, vinfo) = match state.world.lookup(pe) {
        Some(b) => (
            b.pos,
            match &b.view {
                Some(v) => Some((v.dirty, v.range)),
                None => None,
            },
        ),
        None => (None, None),
    };
    let pos = match pos {
        Some(p) => p,
        None => {
            return ;
        },
    };
    let (dirty, range) = match vinfo {
        Some(t) => t,
        None => {
            return ;
        },
    };
    if dirty {
        let rg = if range > 0x7fff_ffff {
            0x7fff_ffff
        } else {
            range
        };
        proof {
            assert(old(state).map.in_bounds(pos));
        }
        let tiles = compute_visible(&state.map, pos, rg);
        state.world.set_view_computed(pe, tiles);
        proof {
            occupancy_preserved_by_being_edit(old(state).world, state.world, state.map, pe);
            cache_ok_preserved(
                old(state).world,
                state.world,
                state.generated_maps,
                state.map.depth as int,
            );
        }
    }
    let ghost w2 = state.world;
    let ghost m2 = state.map;
    let n = state.map.tiles.len();
    let mut vis: Vec<bool> = Vec::new();
    let mut i: usize = 0;
    while i < n
        invariant
            state.wf(),
            state.world == w2,
            w2.wf(),
            w2.live(pe),
            w2.being(pe).view is Some,
            state.map.tiles@ == m2.tiles@,
            state.map.width == m2.width,
            state.map.height == m2.height,
            state.map.depth == m2.depth,
            state.map.beings@ == m2.beings@,
            state.map.destructibles@ == m2.destructibles@,
            state.map.rooms@ == m2.rooms@,
            state.map.discovered@.len() == m2.discovered@.len(),
            state.runstate == old(state).runstate,
            state.message_log == old(state).message_log,
            state.turn_counter == old(state).turn_counter,
            state.config == old(state).config,
            state.generated_maps == old(state).generated_maps,
            state.visible == old(state).visible,
            n == state.map.tiles@.len(),
            i <= n,
            vis@.len() == i,
            forall|j: int|
                0 <= j < i ==> #[trigger] vis@[j] == w2.being(
                    pe,
                ).view.unwrap().visible_tiles@.contains(m2.spec_pos_of_idx(j)),
            forall|j: int|
                0 <= j < state.map.discovered@.len() ==> #[trigger] state.map.discovered@[j] == (
                m2.discovered@[j] || (j < i && vis@[j])),
        decreases n - i,
    {
        proof {
            assert(state.map.width > 0) by (nonlinear_arith)
                requires
                    state.map.tiles@.len() == state.map.width * state.map.height,
                    state.map.tiles@.len() > 0,
            ;
        }
        let p = state.map.idx_to_pos(i);
        let flag = match state.world.lookup(pe) {
            Some(b) => match &b.view {
                Some(v) => contains_pos(&v.visible_tiles, p),
                None => false,
            },
            None => false,
        };
        vis.push(flag);
        if flag {
            state.map.discovered[i] = true;
        }
        i = i + 1;
    }
    state.visible = vis;
}

} // verus!
