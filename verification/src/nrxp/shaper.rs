//! The lengths of records. The length of a record travels in the clear, so records are
//! rounded up to boundaries that every connection draws for itself: many sizes become one
//! length, and no arithmetic relation between the lengths gives a connection away.

use vstd::prelude::*;

use crate::crypto::primitives::TAG_LEN;
use crate::entropy::{from_range, number_between};
use crate::nrxp::frame::MAX_RECORD_PLAINTEXT;

verus! {

/// The longest record, its tag included.
pub const MAX_RECORD_LEN: usize = 16401;

/// The range of the lowest boundary.
pub const FLOOR_LOW: usize = 64;

pub const FLOOR_HIGH: usize = 256;

/// The smallest distance between two boundaries.
pub const MIN_GAP: usize = 16;

/// The distance to the next boundary is a part of the boundary, in millionths between these.
pub const GAP_RATIO_LOW: usize = 50_000;

pub const GAP_RATIO_HIGH: usize = 250_000;

/// The range of the largest distance between two boundaries.
pub const GAP_CAP_LOW: usize = 128;

pub const GAP_CAP_HIGH: usize = 320;

/// The boundary behind `current`: a part of it further, but no nearer than the smallest and no
/// farther than the largest distance, nor beyond the longest record.
pub open spec fn boundary_after(current: int, ratio: int, cap: int) -> int {
    let part = current * ratio / 1_000_000;
    let gap = if part < MIN_GAP {
        MIN_GAP as int
    } else if part > cap {
        cap
    } else {
        part
    };
    if current + gap < MAX_RECORD_LEN {
        current + gap
    } else {
        MAX_RECORD_LEN as int
    }
}

/// Whether `next` can be drawn behind `current`.
pub open spec fn can_follow(current: usize, next: usize) -> bool {
    exists|ratio: usize, cap: usize|
        GAP_RATIO_LOW <= ratio <= GAP_RATIO_HIGH && GAP_CAP_LOW <= cap <= GAP_CAP_HIGH && next
            == #[trigger] boundary_after(current as int, ratio as int, cap as int)
}

/// Whether the boundaries are some that a connection can draw.
pub open spec fn drawn(boundaries: Seq<usize>) -> bool {
    &&& boundaries.len() >= 2
    &&& FLOOR_LOW <= boundaries[0] <= FLOOR_HIGH
    &&& boundaries.last() == MAX_RECORD_LEN
    &&& forall|i: int|
        0 <= i < boundaries.len() - 1 ==> can_follow(#[trigger] boundaries[i], boundaries[i + 1])
    &&& forall|i: int, j: int|
        0 <= i < j < boundaries.len() ==> #[trigger] boundaries[i] < #[trigger] boundaries[j]
}

/// Whether `next` was drawn behind `current`, by a draw of its own: both its distance and the
/// limit to it.
pub open spec fn drawn_behind(current: usize, next: usize) -> bool {
    &&& call_ensures(PadShaper::draw_boundary, (current,), next)
    &&& exists|ratio: usize, cap: usize|
        from_range(GAP_RATIO_LOW, GAP_RATIO_HIGH, ratio) && from_range(
            GAP_CAP_LOW,
            GAP_CAP_HIGH,
            cap,
        ) && next == #[trigger] boundary_after(current as int, ratio as int, cap as int)
}

/// Whether every boundary was drawn, and none is a fixed one but the last.
pub open spec fn drawn_here(boundaries: Seq<usize>) -> bool {
    &&& from_range(FLOOR_LOW, FLOOR_HIGH, boundaries[0])
    &&& forall|i: int|
        0 <= i < boundaries.len() - 1 ==> drawn_behind(#[trigger] boundaries[i], boundaries[i + 1])
}

/// The first boundary that is not below `n`; `n` itself above all of them.
pub open spec fn ceiling(boundaries: Seq<usize>, n: int) -> int
    decreases boundaries.len(),
{
    if boundaries.len() == 0 {
        n
    } else if boundaries[0] >= n {
        boundaries[0] as int
    } else {
        ceiling(boundaries.drop_first(), n)
    }
}

/// The length of the record of a plaintext: the next boundary, unless it is the longest
/// record already.
pub open spec fn target_len(boundaries: Seq<usize>, plain: int) -> int {
    let record = plain + TAG_LEN;
    if record >= MAX_RECORD_LEN {
        record
    } else {
        ceiling(boundaries, record)
    }
}

/// The padding of a plaintext.
pub open spec fn shaped_padding(boundaries: Seq<usize>, plain: int) -> int {
    let wanted = target_len(boundaries, plain) - (plain + TAG_LEN);
    if wanted < MAX_RECORD_PLAINTEXT - plain {
        wanted
    } else {
        MAX_RECORD_PLAINTEXT - plain
    }
}

/// The first boundary that is not below `n` stands at `i` when the one in front of it is.
proof fn lemma_ceiling_at(boundaries: Seq<usize>, n: int, i: int)
    requires
        0 <= i < boundaries.len(),
        boundaries[i] >= n,
        forall|k: int| 0 <= k < i ==> boundaries[k] < n,
    ensures
        ceiling(boundaries, n) == boundaries[i],
    decreases i,
{
    if i > 0 {
        assert(boundaries[0] < n);
        lemma_ceiling_at(boundaries.drop_first(), n, i - 1);
    }
}

/// Where the first boundary stands that is not below `n`.
pub proof fn lemma_ceiling_place(boundaries: Seq<usize>, n: int) -> (i: int)
    requires
        drawn(boundaries),
        n <= MAX_RECORD_LEN,
    ensures
        0 <= i < boundaries.len(),
        boundaries[i] >= n,
        forall|k: int| 0 <= k < i ==> boundaries[k] < n,
        ceiling(boundaries, n) == boundaries[i],
{
    let i = lemma_first_not_below(boundaries, n, 0);
    lemma_ceiling_at(boundaries, n, i);
    i
}

proof fn lemma_first_not_below(boundaries: Seq<usize>, n: int, from: int) -> (i: int)
    requires
        0 <= from < boundaries.len(),
        boundaries.last() >= n,
        forall|k: int| 0 <= k < from ==> boundaries[k] < n,
    ensures
        0 <= i < boundaries.len(),
        boundaries[i] >= n,
        forall|k: int| 0 <= k < i ==> boundaries[k] < n,
    decreases boundaries.len() - from,
{
    if boundaries[from] >= n {
        from
    } else {
        lemma_first_not_below(boundaries, n, from + 1)
    }
}

/// A record is never made shorter, never longer than the longest of TLS, and never padded by
/// more than the largest distance between boundaries.
pub proof fn lemma_target_bounds(boundaries: Seq<usize>, plain: int)
    requires
        drawn(boundaries),
        plain >= 0,
    ensures
        plain + TAG_LEN <= target_len(boundaries, plain),
        target_len(boundaries, plain) <= MAX_RECORD_LEN || target_len(boundaries, plain) == plain
            + TAG_LEN,
        target_len(boundaries, plain) - (plain + TAG_LEN) <= GAP_CAP_HIGH,
        plain <= MAX_RECORD_PLAINTEXT ==> {
            &&& 0 <= shaped_padding(boundaries, plain) <= GAP_CAP_HIGH
            &&& plain + shaped_padding(boundaries, plain) <= MAX_RECORD_PLAINTEXT
            &&& plain + TAG_LEN + shaped_padding(boundaries, plain) == target_len(
                boundaries,
                plain,
            )
        },
{
    let record = plain + TAG_LEN;
    if record < MAX_RECORD_LEN {
        let i = lemma_ceiling_place(boundaries, record);
        if i > 0 {
            assert(can_follow(boundaries[i - 1], boundaries[i - 1 + 1]));
            let (ratio, cap) = choose|ratio: usize, cap: usize|
                GAP_RATIO_LOW <= ratio <= GAP_RATIO_HIGH && GAP_CAP_LOW <= cap <= GAP_CAP_HIGH
                    && boundaries[i] == #[trigger] boundary_after(
                    boundaries[i - 1] as int,
                    ratio as int,
                    cap as int,
                );
            assert(boundaries[i] - boundaries[i - 1] <= GAP_CAP_HIGH);
            assert(boundaries[i - 1] < record);
        }
        if i < boundaries.len() - 1 {
            assert(boundaries[i] < boundaries[boundaries.len() - 1]);
        }
    }
}

/// All plaintexts between two boundaries get records of one length: the upper boundary.
pub proof fn lemma_one_length_per_gap(boundaries: Seq<usize>, i: int, plain: int)
    requires
        drawn(boundaries),
        0 < i < boundaries.len(),
        boundaries[i - 1] < plain + TAG_LEN <= boundaries[i],
    ensures
        target_len(boundaries, plain) == boundaries[i],
{
    let record = plain + TAG_LEN;
    assert forall|k: int| 0 <= k < i implies boundaries[k] < record by {
        if k < i - 1 {
            assert(boundaries[k] < boundaries[i - 1]);
        }
    }
    if i < boundaries.len() - 1 {
        assert(boundaries[i] < boundaries[boundaries.len() - 1]);
    }
    lemma_ceiling_at(boundaries, record, i);
}

/// The boundaries of one connection.
pub struct PadShaper {
    boundaries: Vec<usize>,
}

impl PadShaper {
    /// The boundaries.
    pub closed spec fn limits(self) -> Seq<usize> {
        self.boundaries@
    }

    /// Whether the boundaries are some that a connection can draw.
    pub open spec fn wf(self) -> bool {
        drawn(self.limits())
    }

    /// Fresh boundaries.
    pub fn new() -> (r: Self)
        ensures
            r.wf(),
            drawn_here(r.limits()),
    {
        let floor: usize = number_between(FLOOR_LOW, FLOOR_HIGH);
        let mut boundaries: Vec<usize> = Vec::new();
        let mut current: usize = floor;
        while current < MAX_RECORD_LEN
            invariant
                FLOOR_LOW <= current <= MAX_RECORD_LEN,
                boundaries@.len() == 0 ==> current <= FLOOR_HIGH && from_range(
                    FLOOR_LOW,
                    FLOOR_HIGH,
                    current,
                ),
                boundaries@.len() > 0 ==> {
                    &&& FLOOR_LOW <= boundaries@[0] <= FLOOR_HIGH
                    &&& from_range(FLOOR_LOW, FLOOR_HIGH, boundaries@[0])
                    &&& can_follow(boundaries@.last(), current)
                    &&& drawn_behind(boundaries@.last(), current)
                },
                forall|i: int|
                    0 <= i < boundaries@.len() - 1 ==> drawn_behind(
                        #[trigger] boundaries@[i],
                        boundaries@[i + 1],
                    ),
                forall|i: int|
                    0 <= i < boundaries@.len() - 1 ==> can_follow(
                        #[trigger] boundaries@[i],
                        boundaries@[i + 1],
                    ),
                forall|i: int, j: int|
                    0 <= i < j < boundaries@.len() ==> #[trigger] boundaries@[i]
                        < #[trigger] boundaries@[j],
                forall|i: int| 0 <= i < boundaries@.len() ==> #[trigger] boundaries@[i] < current,
            decreases MAX_RECORD_LEN - current,
        {
            boundaries.push(current);
            let next: usize = Self::draw_boundary(current);
            assert(call_ensures(PadShaper::draw_boundary, (current,), next));
            assert(drawn_behind(current, next));
            current = next;
        }
        boundaries.push(MAX_RECORD_LEN);
        Self { boundaries }
    }

    /// A boundary behind `current`, drawn in this call.
    pub fn draw_boundary(current: usize) -> (r: usize)
        requires
            current < MAX_RECORD_LEN,
        ensures
            can_follow(current, r),
            current < r <= MAX_RECORD_LEN,
            exists|ratio: usize, cap: usize|
                from_range(GAP_RATIO_LOW, GAP_RATIO_HIGH, ratio) && from_range(
                    GAP_CAP_LOW,
                    GAP_CAP_HIGH,
                    cap,
                ) && r == #[trigger] boundary_after(current as int, ratio as int, cap as int),
    {
        let ratio: usize = number_between(GAP_RATIO_LOW, GAP_RATIO_HIGH);
        let cap: usize = number_between(GAP_CAP_LOW, GAP_CAP_HIGH);
        Self::next_boundary(current, ratio, cap)
    }

    /// The boundary behind `current` for one draw.
    pub fn next_boundary(current: usize, ratio: usize, cap: usize) -> (r: usize)
        requires
            current < MAX_RECORD_LEN,
            GAP_RATIO_LOW <= ratio <= GAP_RATIO_HIGH,
            GAP_CAP_LOW <= cap <= GAP_CAP_HIGH,
        ensures
            r == boundary_after(current as int, ratio as int, cap as int),
            current < r <= MAX_RECORD_LEN,
    {
        assert(current * ratio <= 16401 * 250_000) by (nonlinear_arith)
            requires
                current <= 16401,
                ratio <= 250_000,
        ;
        let product: u64 = (current as u64) * (ratio as u64);
        let part: usize = (product / 1_000_000) as usize;
        let gap: usize = if part < MIN_GAP {
            MIN_GAP
        } else if part > cap {
            cap
        } else {
            part
        };
        if current + gap < MAX_RECORD_LEN {
            current + gap
        } else {
            MAX_RECORD_LEN
        }
    }

    /// The length of the record of a plaintext.
    pub fn target_record_len(&self, plaintext_len: usize) -> (r: usize)
        requires
            self.wf(),
            plaintext_len + TAG_LEN <= usize::MAX,
        ensures
            r == target_len(self.limits(), plaintext_len as int),
    {
        let record_len: usize = plaintext_len + TAG_LEN;
        if record_len >= MAX_RECORD_LEN {
            return record_len;
        }
        let mut low: usize = 0;
        let mut high: usize = self.boundaries.len() - 1;
        while low < high
            invariant
                forall|i: int, j: int|
                    0 <= i < j < self.boundaries@.len() ==> #[trigger] self.boundaries@[i]
                        < #[trigger] self.boundaries@[j],
                low <= high < self.boundaries@.len(),
                record_len < MAX_RECORD_LEN,
                self.boundaries@[high as int] >= record_len,
                forall|k: int| 0 <= k < low ==> self.boundaries@[k] < record_len,
            decreases high - low,
        {
            let mid: usize = low + (high - low) / 2;
            if self.boundaries[mid] < record_len {
                assert forall|k: int| 0 <= k < mid + 1 implies self.boundaries@[k]
                    < record_len by {
                    if k < mid {
                        assert(self.boundaries@[k] < self.boundaries@[mid as int]);
                    }
                }
                low = mid + 1;
            } else {
                high = mid;
            }
        }
        proof {
            lemma_ceiling_at(self.boundaries@, record_len as int, low as int);
        }
        self.boundaries[low]
    }
}

/// Every boundary of a connection was drawn: the first between 64 and 256, and each distance in
/// a draw of its own, by a part between 50000 and 250000 millionths and a limit between 128 and 320.
pub proof fn lemma_drawn_here(boundaries: Seq<usize>, i: int)
    requires
        drawn_here(boundaries),
        0 <= i < boundaries.len() - 1,
    ensures
        from_range(64, 256, boundaries[0]),
        call_ensures(PadShaper::draw_boundary, (boundaries[i],), boundaries[i + 1]),
        exists|ratio: usize, cap: usize|
            from_range(50_000, 250_000, ratio) && from_range(128, 320, cap) && boundaries[i + 1]
                == #[trigger] boundary_after(boundaries[i] as int, ratio as int, cap as int),
{
    assert(drawn_behind(boundaries[i], boundaries[i + 1]));
}

} // verus!
