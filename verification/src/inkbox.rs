//! Ink locator: a single full scan of the high-resolution buffer that finds
//! the tightest axis-aligned bounding box of all marked pixels. In the binary
//! coverage buffer a marked pixel has full intensity, which is above the
//! fixed ink threshold, so "ink" simply means "marked".

use vstd::prelude::*;

verus! {

/// The pixel at `(x, y)` carries ink.
pub open spec fn ink_at(hi: Seq<bool>, x: int, y: int) -> bool {
    hi[y * 280 + x]
}

/// Column `x` carries ink somewhere.
pub open spec fn col_has_ink(hi: Seq<bool>, x: int) -> bool {
    exists|y: int| 0 <= y < 280 && #[trigger] ink_at(hi, x, y)
}

/// Row `y` carries ink somewhere.
pub open spec fn row_has_ink(hi: Seq<bool>, y: int) -> bool {
    exists|x: int| 0 <= x < 280 && #[trigger] ink_at(hi, x, y)
}

/// The buffer carries any ink at all.
pub open spec fn has_ink(hi: Seq<bool>) -> bool {
    exists|x: int, y: int| 0 <= x < 280 && 0 <= y < 280 && #[trigger] ink_at(hi, x, y)
}

/// `m` is the leftmost inked column.
pub open spec fn is_min_col(hi: Seq<bool>, m: int) -> bool {
    &&& 0 <= m < 280
    &&& col_has_ink(hi, m)
    &&& forall|x: int| 0 <= x < m ==> !col_has_ink(hi, x)
}

/// `m` is the rightmost inked column.
pub open spec fn is_max_col(hi: Seq<bool>, m: int) -> bool {
    &&& 0 <= m < 280
    &&& col_has_ink(hi, m)
    &&& forall|x: int| m < x < 280 ==> !col_has_ink(hi, x)
}

/// `m` is the topmost inked row.
pub open spec fn is_min_row(hi: Seq<bool>, m: int) -> bool {
    &&& 0 <= m < 280
    &&& row_has_ink(hi, m)
    &&& forall|y: int| 0 <= y < m ==> !row_has_ink(hi, y)
}

/// `m` is the bottommost inked row.
pub open spec fn is_max_row(hi: Seq<bool>, m: int) -> bool {
    &&& 0 <= m < 280
    &&& row_has_ink(hi, m)
    &&& forall|y: int| m < y < 280 ==> !row_has_ink(hi, y)
}

/// The leftmost inked column, as a function.
pub open spec fn min_col(hi: Seq<bool>) -> int {
    choose|m: int| is_min_col(hi, m)
}

/// The rightmost inked column, as a function.
pub open spec fn max_col(hi: Seq<bool>) -> int {
    choose|m: int| is_max_col(hi, m)
}

/// The topmost inked row, as a function.
pub open spec fn min_row(hi: Seq<bool>) -> int {
    choose|m: int| is_min_row(hi, m)
}

/// The bottommost inked row, as a function.
pub open spec fn max_row(hi: Seq<bool>) -> int {
    choose|m: int| is_max_row(hi, m)
}

/// The tightest bounding box of all inked pixels, in buffer pixel
/// coordinates, all four edges attained.
#[derive(Clone, Copy, PartialEq, Eq, Structural, Debug)]
pub struct BBox {
    pub min_x: usize,
    pub min_y: usize,
    pub max_x: usize,
    pub max_y: usize,
}

/// Pixel `(px, py)` was already visited by a row-major scan standing at row
/// `y`, column `x`.
pub open spec fn scanned(px: int, py: int, y: int, x: int) -> bool {
    &&& 0 <= px < 280
    &&& 0 <= py < 280
    &&& (py < y || (py == y && px < x))
}

/// Every inked pixel visited so far lies inside the running box.
pub open spec fn ink_bounded(
    hi: Seq<bool>,
    y: int,
    x: int,
    minx: int,
    miny: int,
    maxx: int,
    maxy: int,
) -> bool {
    forall|px: int, py: int|
        scanned(px, py, y, x) && #[trigger] ink_at(hi, px, py) ==> minx <= px <= maxx && miny <= py
            <= maxy
}

/// No pixel visited so far is inked.
pub open spec fn none_scanned(hi: Seq<bool>, y: int, x: int) -> bool {
    forall|px: int, py: int| scanned(px, py, y, x) ==> !#[trigger] ink_at(hi, px, py)
}

/// Column `c` holds a visited inked pixel.
pub open spec fn col_attained(hi: Seq<bool>, c: int, y: int, x: int) -> bool {
    exists|py: int| #[trigger] scanned(c, py, y, x) && ink_at(hi, c, py)
}

/// Row `rw` holds a visited inked pixel.
pub open spec fn row_attained(hi: Seq<bool>, rw: int, y: int, x: int) -> bool {
    exists|px: int| #[trigger] scanned(px, rw, y, x) && ink_at(hi, px, rw)
}

/// There is at most one leftmost inked column.
pub proof fn lemma_min_col_unique(hi: Seq<bool>, a: int, b: int)
    requires
        is_min_col(hi, a),
        is_min_col(hi, b),
    ensures
        a == b,
{
    if a < b {
        assert(!col_has_ink(hi, a));
    }
    if b < a {
        assert(!col_has_ink(hi, b));
    }
}

/// There is at most one rightmost inked column.
pub proof fn lemma_max_col_unique(hi: Seq<bool>, a: int, b: int)
    requires
        is_max_col(hi, a),
        is_max_col(hi, b),
    ensures
        a == b,
{
    if a < b {
        assert(!col_has_ink(hi, b));
    }
    if b < a {
        assert(!col_has_ink(hi, a));
    }
}

/// There is at most one topmost inked row.
pub proof fn lemma_min_row_unique(hi: Seq<bool>, a: int, b: int)
    requires
        is_min_row(hi, a),
        is_min_row(hi, b),
    ensures
        a == b,
{
    if a < b {
        assert(!row_has_ink(hi, a));
    }
    if b < a {
        assert(!row_has_ink(hi, b));
    }
}

/// There is at most one bottommost inked row.
pub proof fn lemma_max_row_unique(hi: Seq<bool>, a: int, b: int)
    requires
        is_max_row(hi, a),
        is_max_row(hi, b),
    ensures
        a == b,
{
    if a < b {
        assert(!row_has_ink(hi, b));
    }
    if b < a {
        assert(!row_has_ink(hi, a));
    }
}

/// Scan the whole buffer and return the tightest bounding box of all inked
/// pixels, or `None` when the buffer is blank.
#[verifier::loop_isolation(false)]
pub fn bbox_of_hi(hi: &Vec<bool>) -> (r: Option<BBox>)
    requires
        hi@.len() == 78400,
    ensures
        r is Some <==> has_ink(hi@),
        r matches Some(b) ==> {
            &&& b.min_x as int == min_col(hi@)
            &&& b.max_x as int == max_col(hi@)
            &&& b.min_y as int == min_row(hi@)
            &&& b.max_y as int == max_row(hi@)
            &&& b.min_x <= b.max_x < 280
            &&& b.min_y <= b.max_y < 280
        },
{
    let mut found: bool = false;
    let mut minx: usize = 0;
    let mut miny: usize = 0;
    let mut maxx: usize = 0;
    let mut maxy: usize = 0;
    let mut y: usize = 0;
    while y < 280
        invariant
            0 <= y <= 280,
            found ==> minx <= maxx < 280 && miny <= maxy < 280,
            found ==> ink_bounded(
                hi@,
                y as int,
                0,
                minx as int,
                miny as int,
                maxx as int,
                maxy as int,
            ),
            found ==> col_attained(hi@, minx as int, y as int, 0),
            found ==> col_attained(hi@, maxx as int, y as int, 0),
            found ==> row_attained(hi@, miny as int, y as int, 0),
            found ==> row_attained(hi@, maxy as int, y as int, 0),
            !found ==> none_scanned(hi@, y as int, 0),
        decreases 280 - y,
    {
        let mut x: usize = 0;
        while x < 280
            invariant
                0 <= x <= 280,
                y < 280,
                found ==> minx <= maxx < 280 && miny <= maxy < 280,
                found ==> ink_bounded(
                    hi@,
                    y as int,
                    x as int,
                    minx as int,
                    miny as int,
                    maxx as int,
                    maxy as int,
                ),
                found ==> col_attained(hi@, minx as int, y as int, x as int),
                found ==> col_attained(hi@, maxx as int, y as int, x as int),
                found ==> row_attained(hi@, miny as int, y as int, x as int),
                found ==> row_attained(hi@, maxy as int, y as int, x as int),
                !found ==> none_scanned(hi@, y as int, x as int),
            decreases 280 - x,
        {
            let idx: usize = y * 280 + x;
            let ink = hi[idx];
            proof {
                assert(ink == ink_at(hi@, x as int, y as int));
            }
            if ink && !found {
                found = true;
                minx = x;
                maxx = x;
                miny = y;
                maxy = y;
                proof {
                    assert(scanned(x as int, y as int, y as int, x as int + 1));
                    assert(col_attained(hi@, x as int, y as int, x as int + 1));
                    assert(row_attained(hi@, y as int, y as int, x as int + 1));
                }
            } else if ink {
                let ghost minx0 = minx as int;
                let ghost maxx0 = maxx as int;
                let ghost miny0 = miny as int;
                let ghost maxy0 = maxy as int;
                if x < minx {
                    minx = x;
                }
                if x > maxx {
                    maxx = x;
                }
                if y < miny {
                    miny = y;
                }
                if y > maxy {
                    maxy = y;
                }
                proof {
                    assert(scanned(x as int, y as int, y as int, x as int + 1));
                    if minx as int == x as int {
                        assert(col_attained(hi@, minx as int, y as int, x as int + 1));
                    } else {
                        let pw = choose|py: int|
                            #[trigger] scanned(minx0, py, y as int, x as int) && ink_at(
                                hi@,
                                minx0,
                                py,
                            );
                        assert(scanned(minx0, pw, y as int, x as int + 1));
                    }
                    if maxx as int == x as int {
                        assert(col_attained(hi@, maxx as int, y as int, x as int + 1));
                    } else {
                        let pw = choose|py: int|
                            #[trigger] scanned(maxx0, py, y as int, x as int) && ink_at(
                                hi@,
                                maxx0,
                                py,
                            );
                        assert(scanned(maxx0, pw, y as int, x as int + 1));
                    }
                    if miny as int == y as int {
                        assert(row_attained(hi@, miny as int, y as int, x as int + 1));
                    } else {
                        let pw = choose|px: int|
                            #[trigger] scanned(px, miny0, y as int, x as int) && ink_at(
                                hi@,
                                px,
                                miny0,
                            );
                        assert(scanned(pw, miny0, y as int, x as int + 1));
                    }
                    if maxy as int == y as int {
                        assert(row_attained(hi@, maxy as int, y as int, x as int + 1));
                    } else {
                        let pw = choose|px: int|
                            #[trigger] scanned(px, maxy0, y as int, x as int) && ink_at(
                                hi@,
                                px,
                                maxy0,
                            );
                        assert(scanned(pw, maxy0, y as int, x as int + 1));
                    }
                }
            } else {
                proof {
                    if found {
                        let p1 = choose|py: int|
                            #[trigger] scanned(minx as int, py, y as int, x as int) && ink_at(
                                hi@,
                                minx as int,
                                py,
                            );
                        assert(scanned(minx as int, p1, y as int, x as int + 1));
                        let p2 = choose|py: int|
                            #[trigger] scanned(maxx as int, py, y as int, x as int) && ink_at(
                                hi@,
                                maxx as int,
                                py,
                            );
                        assert(scanned(maxx as int, p2, y as int, x as int + 1));
                        let p3 = choose|px: int|
                            #[trigger] scanned(px, miny as int, y as int, x as int) && ink_at(
                                hi@,
                                px,
                                miny as int,
                            );
                        assert(scanned(p3, miny as int, y as int, x as int + 1));
                        let p4 = choose|px: int|
                            #[trigger] scanned(px, maxy as int, y as int, x as int) && ink_at(
                                hi@,
                                px,
                                maxy as int,
                            );
                        assert(scanned(p4, maxy as int, y as int, x as int + 1));
                    }
                }
            }
            x = x + 1;
        }
        proof {
            if found {
                let p1 = choose|py: int|
                    #[trigger] scanned(minx as int, py, y as int, 280) && ink_at(
                        hi@,
                        minx as int,
                        py,
                    );
                assert(scanned(minx as int, p1, y as int + 1, 0));
                let p2 = choose|py: int|
                    #[trigger] scanned(maxx as int, py, y as int, 280) && ink_at(
                        hi@,
                        maxx as int,
                        py,
                    );
                assert(scanned(maxx as int, p2, y as int + 1, 0));
                let p3 = choose|px: int|
                    #[trigger] scanned(px, miny as int, y as int, 280) && ink_at(
                        hi@,
                        px,
                        miny as int,
                    );
                assert(scanned(p3, miny as int, y as int + 1, 0));
                let p4 = choose|px: int|
                    #[trigger] scanned(px, maxy as int, y as int, 280) && ink_at(
                        hi@,
                        px,
                        maxy as int,
                    );
                assert(scanned(p4, maxy as int, y as int + 1, 0));
            }
        }
        y = y + 1;
    }
    if found {
        proof {
            let pw1 = choose|py: int|
                #[trigger] scanned(minx as int, py, 280, 0) && ink_at(hi@, minx as int, py);
            assert(ink_at(hi@, minx as int, pw1) && 0 <= pw1 < 280);
            let pw2 = choose|py: int|
                #[trigger] scanned(maxx as int, py, 280, 0) && ink_at(hi@, maxx as int, py);
            assert(ink_at(hi@, maxx as int, pw2) && 0 <= pw2 < 280);
            let pw3 = choose|px: int|
                #[trigger] scanned(px, miny as int, 280, 0) && ink_at(hi@, px, miny as int);
            assert(ink_at(hi@, pw3, miny as int) && 0 <= pw3 < 280);
            let pw4 = choose|px: int|
                #[trigger] scanned(px, maxy as int, 280, 0) && ink_at(hi@, px, maxy as int);
            assert(ink_at(hi@, pw4, maxy as int) && 0 <= pw4 < 280);
            assert(is_min_col(hi@, minx as int)) by {
                assert(col_has_ink(hi@, minx as int));
                assert forall|x2: int| 0 <= x2 < minx as int implies !col_has_ink(hi@, x2) by {
                    if col_has_ink(hi@, x2) {
                        let y2 = choose|y2: int| 0 <= y2 < 280 && #[trigger] ink_at(hi@, x2, y2);
                        assert(scanned(x2, y2, 280, 0));
                        assert(ink_at(hi@, x2, y2));
                    }
                }
            }
            assert(is_max_col(hi@, maxx as int)) by {
                assert(col_has_ink(hi@, maxx as int));
                assert forall|x2: int| (maxx as int) < x2 < 280 implies !col_has_ink(hi@, x2) by {
                    if col_has_ink(hi@, x2) {
                        let y2 = choose|y2: int| 0 <= y2 < 280 && #[trigger] ink_at(hi@, x2, y2);
                        assert(scanned(x2, y2, 280, 0));
                        assert(ink_at(hi@, x2, y2));
                    }
                }
            }
            assert(is_min_row(hi@, miny as int)) by {
                assert(row_has_ink(hi@, miny as int));
                assert forall|y2: int| 0 <= y2 < miny as int implies !row_has_ink(hi@, y2) by {
                    if row_has_ink(hi@, y2) {
                        let x2 = choose|x2: int| 0 <= x2 < 280 && #[trigger] ink_at(hi@, x2, y2);
                        assert(scanned(x2, y2, 280, 0));
                        assert(ink_at(hi@, x2, y2));
                    }
                }
            }
            assert(is_max_row(hi@, maxy as int)) by {
                assert(row_has_ink(hi@, maxy as int));
                assert forall|y2: int| (maxy as int) < y2 < 280 implies !row_has_ink(hi@, y2) by {
                    if row_has_ink(hi@, y2) {
                        let x2 = choose|x2: int| 0 <= x2 < 280 && #[trigger] ink_at(hi@, x2, y2);
                        assert(scanned(x2, y2, 280, 0));
                        assert(ink_at(hi@, x2, y2));
                    }
                }
            }
            lemma_min_col_unique(hi@, min_col(hi@), minx as int);
            lemma_max_col_unique(hi@, max_col(hi@), maxx as int);
            lemma_min_row_unique(hi@, min_row(hi@), miny as int);
            lemma_max_row_unique(hi@, max_row(hi@), maxy as int);
        }
        Some(BBox { min_x: minx, min_y: miny, max_x: maxx, max_y: maxy })
    } else {
        proof {
            if has_ink(hi@) {
                let (x2, y2) = choose|x2: int, y2: int|
                    0 <= x2 < 280 && 0 <= y2 < 280 && #[trigger] ink_at(hi@, x2, y2);
                assert(scanned(x2, y2, 280, 0));
                assert(ink_at(hi@, x2, y2));
            }
        }
        None
    }
}

} // verus!
