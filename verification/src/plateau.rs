use vstd::prelude::*;

verus! {

/// The `width` points of `flat` starting at `start` are all flat.
pub open spec fn flat_window(flat: Seq<bool>, start: int, width: int) -> bool {
    &&& 0 <= start
    &&& start + width <= flat.len()
    &&& forall|j: int| start <= j < start + width ==> #[trigger] flat[j]
}

/// How many consecutive flat points make a plateau; asking for none counts as one.
pub open spec fn run_width(min_flat_points: usize) -> int {
    if min_flat_points == 0 {
        1
    } else {
        min_flat_points as int
    }
}

/// Given, for each step between consecutive scales, whether its growth is below the
/// threshold, find where the first run of `min_flat_points` flat steps starts.
/// `None` when no such run exists.
pub fn find_flat_run(flat: &[bool], min_flat_points: usize) -> (start: Option<usize>)
    ensures
        match start {
            Some(s) => {
                &&& flat_window(flat@, s as int, run_width(min_flat_points))
                &&& forall|t: int| 0 <= t < s ==> !flat_window(flat@, t, run_width(min_flat_points))
            },
            None => forall|t: int| !flat_window(flat@, t, run_width(min_flat_points)),
        },
        ({
            let w: int = if min_flat_points == 0 { 1 } else { min_flat_points as int };
            match start {
                Some(s) => {
                    &&& s + w <= flat@.len()
                    &&& !flat@.subrange(s as int, s + w).contains(false)
                    &&& forall|t: int| 0 <= t < s ==> #[trigger] flat@.subrange(t, t + w).contains(false)
                },
                None => forall|t: int|
                    0 <= t && t + w <= flat@.len() ==> #[trigger] flat@.subrange(t, t + w).contains(false),
            }
        }),
{
    let ghost w = run_width(min_flat_points);
    let mut consecutive: usize = 0;
    let mut i: usize = 0;
    while i < flat.len()
        invariant
            i <= flat@.len(),
            w == run_width(min_flat_points),
            consecutive <= i,
            consecutive < w,
            forall|j: int| i - consecutive <= j < i ==> #[trigger] flat@[j],
            i > consecutive ==> !flat@[i - consecutive - 1],
            forall|t: int| 0 <= t && t + w <= i ==> !flat_window(flat@, t, w),
        decreases flat@.len() - i,
    {
        if flat[i] {
            consecutive = consecutive + 1;
            if consecutive >= min_flat_points {
                assert(flat_window(flat@, i + 1 - consecutive, w));
                assert forall|t: int| 0 <= t < i + 1 - consecutive implies !flat_window(flat@, t, w) by {
                    if t + w > i {
                        assert(!flat@[i - consecutive]);
                    }
                }
                proof {
                    lemma_window_is_unbroken_run(flat@, (i + 1 - consecutive) as int, w);
                    assert forall|t: int| 0 <= t < i + 1 - consecutive implies #[trigger] flat@.subrange(t, t + w).contains(false) by {
                        lemma_window_is_unbroken_run(flat@, t, w);
                    }
                }
                return Some(i + 1 - consecutive);
            }
        } else {
            assert forall|t: int| 0 <= t && t + w <= i + 1 implies !flat_window(flat@, t, w) by {
                if t + w == i + 1 {
                    assert(!flat@[i as int]);
                }
            }
            consecutive = 0;
        }
        assert forall|t: int| 0 <= t && t + w <= i + 1 implies !flat_window(flat@, t, w) by {
            if t + w == i + 1 && flat_window(flat@, t, w) {
                assert(!flat@[i - consecutive]);
            }
        }
        i = i + 1;
    }
    proof {
        assert forall|t: int| 0 <= t && t + w <= flat@.len() implies #[trigger] flat@.subrange(t, t + w).contains(false) by {
            lemma_window_is_unbroken_run(flat@, t, w);
        }
    }
    None
}

/// A window of flat points is a stretch of the series, inside it, in which no point
/// fails to be flat.
pub proof fn lemma_window_is_unbroken_run(flat: Seq<bool>, start: int, width: int)
    requires
        0 <= start,
        0 <= width,
        start + width <= flat.len(),
    ensures
        flat_window(flat, start, width) == !flat.subrange(start, start + width).contains(false),
{
    let sub = flat.subrange(start, start + width);
    if flat_window(flat, start, width) {
        if sub.contains(false) {
            let k = choose|k: int| 0 <= k < sub.len() && sub[k] == false;
            assert(flat[start + k]);
        }
    } else {
        let j = choose|j: int| start <= j < start + width && !#[trigger] flat[j];
        assert(sub[j - start] == false);
    }
}

} // verus!
