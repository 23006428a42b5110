use vstd::prelude::*;

use vstd::string::StringExecFns;

use crate::snapshot::LevelBounds;
use crate::traffic::{hex_digit, hex_digit_chars};

verus! {

/// Feet per metre, times 100000: the level heights in hundredths of a kilometre
/// become feet through it.
pub const FEET_PER_KM_HUNDREDTHS_SCALED: u64 = 328084;

/// The heights of the 33 reflectivity levels, in hundredths of a kilometre.
pub open spec fn level_heights_spec() -> Seq<u32> {
    seq![
        50u32, 75, 100, 125, 150, 175, 200, 225, 250, 275, 300, 350, 400, 450, 500, 550, 600,
        650, 700, 750, 800, 850, 900, 1000, 1100, 1200, 1300, 1400, 1500, 1600, 1700, 1800, 1900,
    ]
}

/// The object-store tag of a level height in hundredths of a kilometre: the
/// kilometres in two digits, a point, and two decimals (`00.50`, `19.00`).
pub open spec fn level_tag_text(h: int) -> Seq<char> {
    seq![
        hex_digit_chars()[(h / 1000) % 10],
        hex_digit_chars()[(h / 100) % 10],
        '.',
        hex_digit_chars()[(h / 10) % 10],
        hex_digit_chars()[h % 10],
    ]
}

/// The level tags of the object store, in level order.
pub fn level_tags() -> (r: Vec<String>)
    ensures
        r@.len() == 33,
        forall|i: int| 0 <= i < 33 ==> (#[trigger] r@[i])@ == level_tag_text(level_heights_spec()[i] as int),
{
    let heights = level_heights_hundredths_km();
    let mut tags: Vec<String> = Vec::new();
    let mut i: usize = 0;
    while i < heights.len()
        invariant
            heights@ == level_heights_spec(),
            0 <= i <= heights@.len(),
            tags@.len() == i,
            forall|k: int| 0 <= k < i ==> (#[trigger] tags@[k])@ == level_tag_text(level_heights_spec()[k] as int),
        decreases heights@.len() - i,
    {
        let h = heights[i];
        proof {
            reveal_strlit(".");
        }
        let mut s = String::new();
        s.append(hex_digit((h / 1000) % 10));
        s.append(hex_digit((h / 100) % 10));
        s.append(".");
        s.append(hex_digit((h / 10) % 10));
        s.append(hex_digit(h % 10));
        assert(s@ =~= level_tag_text(h as int));
        tags.push(s);
        i = i + 1;
    }
    tags
}

/// The level heights in hundredths of a kilometre, in level order.
pub fn level_heights_hundredths_km() -> (r: Vec<u32>)
    ensures
        r@ == level_heights_spec(),
{
    let r: Vec<u32> = vec![
        50, 75, 100, 125, 150, 175, 200, 225, 250, 275, 300, 350, 400, 450, 500, 550, 600, 650,
        700, 750, 800, 850, 900, 1000, 1100, 1200, 1300, 1400, 1500, 1600, 1700, 1800, 1900,
    ];
    assert(r@ =~= level_heights_spec());
    r
}

/// Twice a bound's height in hundredths of a kilometre, converted to feet and
/// rounded half up, saturating at zero and `u16::MAX`.
pub open spec fn feet_of_double_hundredths(x2: int) -> int {
    let f = (x2 * FEET_PER_KM_HUNDREDTHS_SCALED + 10000) / 20000;
    if x2 <= 0 {
        0
    } else if f > u16::MAX {
        u16::MAX as int
    } else {
        f
    }
}

/// Twice the bottom of level `i`: the midpoint to the level below, or the level
/// mirrored against the one above (at least zero) for the lowest level.
pub open spec fn bottom_x2(h: Seq<u32>, i: int) -> int {
    if i > 0 {
        h[i - 1] + h[i]
    } else {
        let next = if h.len() > 1 {
            h[1] as int
        } else {
            h[0] + 50
        };
        let v = 3 * h[0] - next;
        if v < 0 {
            0
        } else {
            v
        }
    }
}

/// Twice the top of level `i`: the midpoint to the level above, or the level
/// mirrored against the one below for the highest level.
pub open spec fn top_x2(h: Seq<u32>, i: int) -> int {
    if i + 1 < h.len() {
        h[i] + h[i + 1]
    } else {
        let prev = if i > 0 {
            h[i - 1] as int
        } else {
            h[i] - 50
        };
        3 * h[i] - prev
    }
}

pub open spec fn level_bounds_spec(h: Seq<u32>, i: int) -> LevelBounds {
    LevelBounds {
        bottom_feet: feet_of_double_hundredths(bottom_x2(h, i)) as u16,
        top_feet: feet_of_double_hundredths(top_x2(h, i)) as u16,
    }
}

fn feet_from_double_hundredths(x2: i64) -> (r: u16)
    requires
        x2 <= 0x4_0000_0000,
    ensures
        r as int == feet_of_double_hundredths(x2 as int),
{
    if x2 <= 0 {
        return 0;
    }
    let x2 = x2 as u64;
    let f = (x2 * FEET_PER_KM_HUNDREDTHS_SCALED + 10000) / 20000;
    if f > u16::MAX as u64 {
        u16::MAX
    } else {
        f as u16
    }
}

/// Bottom and top, in feet, of each level whose height is given in hundredths of
/// a kilometre: each bound is the midpoint to the neighbouring level, mirrored at
/// the ends, and rounded to the nearest foot.
pub fn compute_level_bounds(heights: &Vec<u32>) -> (r: Vec<LevelBounds>)
    ensures
        r@.len() == heights@.len(),
        forall|i: int| 0 <= i < heights@.len() ==> #[trigger] r@[i] == level_bounds_spec(heights@, i),
{
    let n = heights.len();
    let mut r: Vec<LevelBounds> = Vec::new();
    let mut i: usize = 0;
    while i < n
        invariant
            n == heights@.len(),
            0 <= i <= n,
            r@.len() == i,
            forall|k: int| 0 <= k < i ==> #[trigger] r@[k] == level_bounds_spec(heights@, k),
        decreases n - i,
    {
        let level = heights[i] as i64;
        let bottom: i64 = if i > 0 {
            heights[i - 1] as i64 + level
        } else {
            let next: i64 = if n > 1 {
                heights[1] as i64
            } else {
                level + 50
            };
            let v = 3 * level - next;
            if v < 0 {
                0
            } else {
                v
            }
        };
        let top: i64 = if i + 1 < n {
            level + heights[i + 1] as i64
        } else {
            let prev: i64 = if i > 0 {
                heights[i - 1] as i64
            } else {
                level - 50
            };
            3 * level - prev
        };
        assert(bottom == bottom_x2(heights@, i as int));
        assert(top == top_x2(heights@, i as int));
        let bounds = LevelBounds {
            bottom_feet: feet_from_double_hundredths(bottom),
            top_feet: feet_from_double_hundredths(top),
        };
        r.push(bounds);
        i = i + 1;
    }
    r
}

proof fn lemma_feet_monotonic(a: int, b: int)
    requires
        0 <= a <= b,
    ensures
        feet_of_double_hundredths(a) <= feet_of_double_hundredths(b),
{
    assert((a * 328084 + 10000) / 20000 <= (b * 328084 + 10000) / 20000) by (nonlinear_arith)
        requires
            0 <= a <= b,
    ;
}

/// For ascending level heights, the tops of consecutive levels never decrease,
/// and each level's bottom lies at or below its top.
pub proof fn lemma_level_bounds_ordered(h: Seq<u32>)
    requires
        forall|i: int| 0 <= i && i + 1 < h.len() ==> #[trigger] h[i] < h[i + 1],
    ensures
        forall|i: int|
            0 <= i && i + 1 < h.len() ==> (#[trigger] level_bounds_spec(h, i)).top_feet
                <= level_bounds_spec(h, i + 1).top_feet,
        forall|i: int|
            0 <= i < h.len() ==> (#[trigger] level_bounds_spec(h, i)).bottom_feet
                <= level_bounds_spec(h, i).top_feet,
{
    assert forall|i: int| 0 <= i && i + 1 < h.len() implies (#[trigger] level_bounds_spec(
        h,
        i,
    )).top_feet <= level_bounds_spec(h, i + 1).top_feet by {
        assert(h[i] < h[i + 1]);
        if i + 2 < h.len() {
            assert(h[i + 1] < h[i + 2]);
        }
        lemma_feet_monotonic(top_x2(h, i), top_x2(h, i + 1));
    }
    assert forall|i: int| 0 <= i < h.len() implies (#[trigger] level_bounds_spec(
        h,
        i,
    )).bottom_feet <= level_bounds_spec(h, i).top_feet by {
        if i > 0 {
            assert(h[i - 1] < h[i]);
        }
        if i + 1 < h.len() {
            assert(h[i] < h[i + 1]);
        }
        lemma_feet_monotonic(bottom_x2(h, i), top_x2(h, i));
    }
}

/// The bounds of the fixed 33 levels: each level's top is at or below the next
/// level's top, and each bottom at or below its top.
pub proof fn lemma_fixed_level_bounds_ordered()
    ensures
        forall|i: int|
            0 <= i < 32 ==> (#[trigger] level_bounds_spec(level_heights_spec(), i)).top_feet
                <= level_bounds_spec(level_heights_spec(), i + 1).top_feet,
        forall|i: int|
            0 <= i < 33 ==> (#[trigger] level_bounds_spec(level_heights_spec(), i)).bottom_feet
                <= level_bounds_spec(level_heights_spec(), i).top_feet,
{
    let h = level_heights_spec();
    assert(h.len() == 33);
    assert forall|i: int| 0 <= i && i + 1 < h.len() implies #[trigger] h[i] < h[i + 1] by {
        assert(h[0] < h[1] && h[1] < h[2] && h[2] < h[3] && h[3] < h[4] && h[4] < h[5]);
        assert(h[5] < h[6] && h[6] < h[7] && h[7] < h[8] && h[8] < h[9] && h[9] < h[10]);
        assert(h[10] < h[11] && h[11] < h[12] && h[12] < h[13] && h[13] < h[14] && h[14] < h[15]);
        assert(h[15] < h[16] && h[16] < h[17] && h[17] < h[18] && h[18] < h[19] && h[19] < h[20]);
        assert(h[20] < h[21] && h[21] < h[22] && h[22] < h[23] && h[23] < h[24] && h[24] < h[25]);
        assert(h[25] < h[26] && h[26] < h[27] && h[27] < h[28] && h[28] < h[29] && h[29] < h[30]);
        assert(h[30] < h[31] && h[31] < h[32]);
    }
    lemma_level_bounds_ordered(h);
}

} // verus!
