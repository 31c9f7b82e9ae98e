//! Classification of a tile's average colour into a phase, and the board built from the
//! colours of all tiles.
use vstd::prelude::*;

use crate::board::{at, in_bounds, scan_index, MonolithMap, Tile, HEIGHT, WIDTH};

verus! {

/// A colour as red, green, blue.
pub type Color = (u8, u8, u8);

/// `c` lies strictly within 15% (rounded down) of the reference `r`.
pub open spec fn near(c: u8, r: u8) -> bool {
    let delta = (r as int * 15) / 100;
    (r as int) - delta < (c as int) && (c as int) < (r as int) + delta
}

/// Every channel of `c` is near the same channel of `r`.
pub open spec fn near_color(c: Color, r: Color) -> bool {
    near(c.0, r.0) && near(c.1, r.1) && near(c.2, r.2)
}

/// The reference colour of each phase, in the order they are tried: 1, 2, 3, 4, then
/// empty.
pub open spec fn reference_colors() -> Seq<(u8, Color)> {
    seq![(1u8, (189u8, 187u8, 187u8)), (2u8, (236u8, 145u8, 187u8)), (3u8, (211u8, 171u8, 110u8)),
        (4u8, (99u8, 166u8, 184u8)), (0u8, (174u8, 131u8, 93u8))]
}

/// The phase of the first reference colour that `c` is near, if any.
pub open spec fn classify(c: Color) -> Option<u8> {
    let refs = reference_colors();
    if near_color(c, refs[0].1) {
        Some(refs[0].0)
    } else if near_color(c, refs[1].1) {
        Some(refs[1].0)
    } else if near_color(c, refs[2].1) {
        Some(refs[2].0)
    } else if near_color(c, refs[3].1) {
        Some(refs[3].0)
    } else if near_color(c, refs[4].1) {
        Some(refs[4].0)
    } else {
        None
    }
}

fn channel_near(c: u8, r: u8) -> (b: bool)
    ensures
        b == near(c, r),
{
    let c1 = c as u32;
    let c2 = r as u32;
    let delta = (c2 * 15) / 100;
    c1 > c2 - delta && c1 < c2 + delta
}

/// The phase whose reference colour `color` is near, trying phases 1 to 4 and then
/// empty; `None` for a colour near none of them.
pub fn get_tile_group(color: Color) -> (r: Option<u8>)
    ensures
        r == classify(color),
{
    let groups: [(u8, Color); 5] = [
        (1, (189, 187, 187)),
        (2, (236, 145, 187)),
        (3, (211, 171, 110)),
        (4, (99, 166, 184)),
        (0, (174, 131, 93)),
    ];
    let ghost refs = reference_colors();
    assert(groups@ =~= refs);
    let mut i: usize = 0;
    while i < 5
        invariant
            0 <= i <= 5,
            groups@ == refs,
            refs == reference_colors(),
            forall|k: int| 0 <= k < i ==> !near_color(color, #[trigger] refs[k].1),
        decreases 5 - i,
    {
        let (group_type, group_color) = groups[i];
        if channel_near(color.0, group_color.0) && channel_near(color.1, group_color.1) && channel_near(
            color.2,
            group_color.2,
        ) {
            return Some(group_type);
        }
        i += 1;
    }
    None
}

/// The board whose tile at `(x, y)` has the phase of `colors[x * 11 + y]` (the colours
/// in column-major order); `None` when some colour has no phase.
pub fn generate_monolith_map(colors: &Vec<Color>) -> (r: Option<MonolithMap>)
    requires
        colors@.len() == WIDTH * HEIGHT,
    ensures
        r is None <==> exists|k: int| 0 <= k < colors@.len() && classify(#[trigger] colors@[k]) is None,
        r matches Some(m) ==> m.wf() && forall|t: Tile| in_bounds(t) ==> Some(#[trigger] at(m@, t)) == classify(
            colors@[scan_index(t)],
        ),
{
    let mut map = MonolithMap::default();
    let mut k: usize = 0;
    while k < WIDTH * HEIGHT
        invariant
            colors@.len() == WIDTH * HEIGHT,
            0 <= k <= WIDTH * HEIGHT,
            map.wf(),
            forall|j: int| 0 <= j < k ==> classify(#[trigger] colors@[j]) is Some,
            forall|t: Tile| in_bounds(t) ==> #[trigger] at(map@, t) == if scan_index(t) < k {
                classify(colors@[scan_index(t)])->Some_0
            } else {
                0
            },
        decreases WIDTH * HEIGHT - k,
    {
        let x = k / HEIGHT;
        let y = k % HEIGHT;
        assert(scan_index((x, y)) == k);
        match get_tile_group(colors[k]) {
            Some(v) => {
                proof {
                    assert(classify(colors@[k as int]) == Some(v));
                    assert(v <= 4);
                }
                map.set(x, y, v);
                proof {
                    assert forall|t: Tile| in_bounds(t) implies #[trigger] at(map@, t) == if scan_index(t) < k + 1 {
                        classify(colors@[scan_index(t)])->Some_0
                    } else {
                        0
                    } by {
                        if t != (x, y) {
                            assert(scan_index(t) != k);
                        }
                    }
                }
            },
            None => {
                return None;
            },
        }
        k += 1;
    }
    proof {
        assert forall|t: Tile| in_bounds(t) implies Some(#[trigger] at(map@, t)) == classify(colors@[scan_index(t)]) by {
            assert(classify(colors@[scan_index(t)]) is Some);
        }
    }
    Some(map)
}

} // verus!
