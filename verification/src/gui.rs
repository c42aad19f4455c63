use vstd::prelude::*;

verus! {

/// A scissor rectangle in framebuffer pixels.
#[derive(Debug, Clone, Copy, PartialEq, Eq, Structural)]
pub struct ScissorRect {
    pub x: i32,
    pub y: i32,
    pub width: u32,
    pub height: u32,
}

/// Where one paint job's geometry lies in the frame's shared vertex and
/// index buffers.
#[derive(Debug, Clone, Copy, PartialEq, Eq, Structural)]
pub struct JobOffsets {
    pub vertex_offset: i32,
    pub index_offset: u32,
    pub index_count: u32,
}

/// The larger of two integers.
pub open spec fn int_max(a: int, b: int) -> int {
    if a >= b {
        a
    } else {
        b
    }
}

/// The smaller of two integers.
pub open spec fn int_min(a: int, b: int) -> int {
    if a <= b {
        a
    } else {
        b
    }
}

/// The scissor of a clip rectangle (already in physical pixels, rounded),
/// clamped to `[0, extent]` on both axes: the clip rectangle intersected
/// with the swapchain extent. `None` when that intersection is empty.
pub fn scissor_rect(
    min_x: i32,
    min_y: i32,
    max_x: i32,
    max_y: i32,
    extent_width: u32,
    extent_height: u32,
) -> (r: Option<ScissorRect>)
    ensures
        ({
            let x0 = int_max(min_x as int, 0);
            let y0 = int_max(min_y as int, 0);
            let w = int_max(int_min(max_x as int, extent_width as int) - x0, 0);
            let h = int_max(int_min(max_y as int, extent_height as int) - y0, 0);
            match r {
                None => w == 0 || h == 0,
                Some(s) => {
                    &&& w > 0 && h > 0
                    &&& s.x == x0
                    &&& s.y == y0
                    &&& s.width == w
                    &&& s.height == h
                },
            }
        }),
        r matches Some(s) ==> {
            &&& 0 <= s.x
            &&& 0 <= s.y
            &&& s.width > 0
            &&& s.height > 0
            &&& s.x + s.width <= extent_width
            &&& s.y + s.height <= extent_height
            &&& min_x <= s.x
            &&& min_y <= s.y
            &&& s.x + s.width <= max_x
            &&& s.y + s.height <= max_y
        },
{
    let x0: i64 = if min_x >= 0 {
        min_x as i64
    } else {
        0
    };
    let y0: i64 = if min_y >= 0 {
        min_y as i64
    } else {
        0
    };
    let ew = extent_width as i64;
    let eh = extent_height as i64;
    let cx: i64 = if (max_x as i64) <= ew {
        max_x as i64
    } else {
        ew
    };
    let cy: i64 = if (max_y as i64) <= eh {
        max_y as i64
    } else {
        eh
    };
    let dw = cx - x0;
    let dh = cy - y0;
    if dw <= 0 || dh <= 0 {
        return None;
    }
    Some(ScissorRect { x: x0 as i32, y: y0 as i32, width: dw as u32, height: dh as u32 })
}

/// Total of the first `n` counts.
pub open spec fn prefix_sum(counts: Seq<usize>, n: int) -> int
    decreases n,
{
    if n <= 0 {
        0
    } else {
        prefix_sum(counts, n - 1) + counts[n - 1]
    }
}

/// Lays the meshes of a frame's paint jobs one after another in shared
/// vertex and index buffers: each job starts where the previous ones end.
/// Offsets and counts are truncated to their 32-bit fields.
pub fn layout_paint_jobs(vertex_counts: &[usize], index_counts: &[usize]) -> (r: Vec<JobOffsets>)
    requires
        vertex_counts@.len() == index_counts@.len(),
        prefix_sum(vertex_counts@, vertex_counts@.len() as int) <= usize::MAX,
        prefix_sum(index_counts@, index_counts@.len() as int) <= usize::MAX,
    ensures
        r@.len() == vertex_counts@.len(),
        forall|i: int|
            0 <= i < r@.len() ==> {
                &&& (#[trigger] r@[i]).vertex_offset == prefix_sum(vertex_counts@, i) as i32
                &&& r@[i].index_offset == prefix_sum(index_counts@, i) as u32
                &&& r@[i].index_count == index_counts@[i] as u32
            },
{
    let mut offsets: Vec<JobOffsets> = Vec::new();
    let mut vertex_total: usize = 0;
    let mut index_total: usize = 0;
    let mut i: usize = 0;
    while i < vertex_counts.len()
        invariant
            i <= vertex_counts@.len(),
            vertex_counts@.len() == index_counts@.len(),
            prefix_sum(vertex_counts@, vertex_counts@.len() as int) <= usize::MAX,
            prefix_sum(index_counts@, index_counts@.len() as int) <= usize::MAX,
            vertex_total == prefix_sum(vertex_counts@, i as int),
            index_total == prefix_sum(index_counts@, i as int),
            offsets@.len() == i,
            forall|j: int|
                0 <= j < i ==> {
                    &&& (#[trigger] offsets@[j]).vertex_offset == prefix_sum(vertex_counts@, j) as i32
                    &&& offsets@[j].index_offset == prefix_sum(index_counts@, j) as u32
                    &&& offsets@[j].index_count == index_counts@[j] as u32
                },
        decreases vertex_counts@.len() - i,
    {
        offsets.push(
            JobOffsets {
                vertex_offset: vertex_total as i32,
                index_offset: index_total as u32,
                index_count: index_counts[i] as u32,
            },
        );
        proof {
            lemma_prefix_sum_monotone(vertex_counts@, i + 1, vertex_counts@.len() as int);
            lemma_prefix_sum_monotone(index_counts@, i + 1, index_counts@.len() as int);
        }
        vertex_total = vertex_total + vertex_counts[i];
        index_total = index_total + index_counts[i];
        i = i + 1;
    }
    offsets
}

/// Prefix sums of counts never decrease.
proof fn lemma_prefix_sum_monotone(counts: Seq<usize>, a: int, b: int)
    requires
        0 <= a <= b <= counts.len(),
    ensures
        prefix_sum(counts, a) <= prefix_sum(counts, b),
    decreases b - a,
{
    if a < b {
        lemma_prefix_sum_monotone(counts, a, b - 1);
    }
}

} // verus!
