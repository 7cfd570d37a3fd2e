use vstd::prelude::*;
use vstd::arithmetic::div_mod::{lemma_add_mod_noop, lemma_mul_mod_noop_left};
use crate::paths::{extension, extension_spec, LibPath};
use crate::text::{ascii_lower, chars_eq_str, to_ascii_lowercase};

verus! {

// ---------------------------------------------------------------------------
// Fixed-width integers inside byte buffers
// ---------------------------------------------------------------------------

/// Big-endian value of the four bytes at `i`.
pub open spec fn be_u32_at(data: Seq<u8>, i: int) -> int {
    data[i] * 0x1000000 + data[i + 1] * 0x10000 + data[i + 2] * 0x100 + data[i + 3]
}

/// Big-endian value of the eight bytes at `i`.
pub open spec fn be_u64_at(data: Seq<u8>, i: int) -> int {
    be_u32_at(data, i) * 0x1_0000_0000 + be_u32_at(data, i + 4)
}

/// Little-endian value of the four bytes at `i`.
pub open spec fn le_u32_at(data: Seq<u8>, i: int) -> int {
    data[i] + data[i + 1] * 0x100 + data[i + 2] * 0x10000 + data[i + 3] * 0x1000000
}

proof fn lemma_u32_bounds(b0: u8, b1: u8, b2: u8, b3: u8)
    ensures
        0 <= b0 * 0x1000000 + b1 * 0x10000 + b2 * 0x100 + b3 <= 0xffff_ffff,
{
    assert(0 <= b0 * 0x1000000 <= 0xff * 0x1000000) by (nonlinear_arith)
        requires b0 <= 0xff;
    assert(0 <= b1 * 0x10000 <= 0xff * 0x10000) by (nonlinear_arith)
        requires b1 <= 0xff;
    assert(0 <= b2 * 0x100 <= 0xff * 0x100) by (nonlinear_arith)
        requires b2 <= 0xff;
}

/// Reads a big-endian `u32` at `offset`, or `None` when fewer than four bytes remain.
pub fn read_be_u32(data: &[u8], offset: usize) -> (r: Option<u32>)
    requires
        offset <= usize::MAX - 4,
    ensures
        r == (if offset + 4 <= data@.len() {
            Some(be_u32_at(data@, offset as int) as u32)
        } else {
            None::<u32>
        }),
        r matches Some(v) ==> v == be_u32_at(data@, offset as int),
{
    if offset + 4 > data.len() {
        return None;
    }
    let b0 = data[offset];
    let b1 = data[offset + 1];
    let b2 = data[offset + 2];
    let b3 = data[offset + 3];
    proof {
        lemma_u32_bounds(b0, b1, b2, b3);
    }
    let v = (b0 as u32) * 0x1000000 + (b1 as u32) * 0x10000 + (b2 as u32) * 0x100 + (b3 as u32);
    Some(v)
}

/// Reads a big-endian `u64` at `offset`, or `None` when fewer than eight bytes remain.
pub fn read_be_u64(data: &[u8], offset: usize) -> (r: Option<u64>)
    requires
        offset <= usize::MAX - 8,
    ensures
        r == (if offset + 8 <= data@.len() {
            Some(be_u64_at(data@, offset as int) as u64)
        } else {
            None::<u64>
        }),
        r matches Some(v) ==> v == be_u64_at(data@, offset as int),
{
    if offset + 8 > data.len() {
        return None;
    }
    let high = read_be_u32(data, offset).unwrap();
    let low = read_be_u32(data, offset + 4).unwrap();
    assert(0 <= high * 0x1_0000_0000 <= 0xffff_ffff * 0x1_0000_0000) by (nonlinear_arith)
        requires high <= 0xffff_ffff;
    let v = (high as u64) * 0x1_0000_0000 + (low as u64);
    Some(v)
}

/// Reads a little-endian `u32` at `offset`, or `None` when fewer than four bytes remain.
pub fn read_le_u32(data: &[u8], offset: usize) -> (r: Option<u32>)
    requires
        offset <= usize::MAX - 4,
    ensures
        r == (if offset + 4 <= data@.len() {
            Some(le_u32_at(data@, offset as int) as u32)
        } else {
            None::<u32>
        }),
        r matches Some(v) ==> v == le_u32_at(data@, offset as int),
{
    if offset + 4 > data.len() {
        return None;
    }
    let b0 = data[offset];
    let b1 = data[offset + 1];
    let b2 = data[offset + 2];
    let b3 = data[offset + 3];
    proof {
        lemma_u32_bounds(b3, b2, b1, b0);
    }
    let v = (b0 as u32) + (b1 as u32) * 0x100 + (b2 as u32) * 0x10000 + (b3 as u32) * 0x1000000;
    Some(v)
}


// ---------------------------------------------------------------------------
// ISO base media (MP4 / MOV) boxes
// ---------------------------------------------------------------------------

/// A box as the scanner reports it: where its content starts, where it ends, and its
/// four-byte type.
pub open spec fn box_view(b: (usize, usize, [u8; 4])) -> (int, int, Seq<u8>) {
    (b.0 as int, b.1 as int, b.2@)
}

pub open spec fn min_int(a: int, b: int) -> int {
    if a <= b { a } else { b }
}

pub open spec fn max_int(a: int, b: int) -> int {
    if a >= b { a } else { b }
}

/// `a.saturating_add(b)` on `usize`.
pub open spec fn sat_add_usize(a: int, b: int) -> int {
    if a + b > usize::MAX { usize::MAX as int } else { a + b }
}

/// Declared size of the box whose header starts at `cursor`: the 32-bit size field, the
/// 64-bit extended size when the 32-bit field is 1, or "up to `end`" when it is 0.
pub open spec fn mp4_box_size(data: Seq<u8>, cursor: int, end: int) -> int {
    let size32 = be_u32_at(data, cursor);
    if size32 == 1 {
        be_u64_at(data, cursor + 8)
    } else if size32 == 0 {
        end - cursor
    } else {
        size32
    }
}

pub open spec fn mp4_header_size(data: Seq<u8>, cursor: int) -> int {
    if be_u32_at(data, cursor) == 1 { 16 } else { 8 }
}

/// End of the box at `cursor`, clipped to `end` and to the buffer.
pub open spec fn mp4_box_end(data: Seq<u8>, cursor: int, end: int) -> int {
    min_int(
        min_int(
            sat_add_usize(cursor, ((mp4_box_size(data, cursor, end) as u64) as usize) as int),
            end,
        ),
        data.len() as int,
    )
}

/// The sequence of boxes found by walking headers from `cursor` up to `end`: each box
/// contributes (content start, clipped end, type); the walk stops at the first header that
/// does not fit, declares a size smaller than its header, or has no content.
pub open spec fn mp4_boxes_from(data: Seq<u8>, cursor: int, end: int) -> Seq<(int, int, Seq<u8>)>
    decreases data.len() - cursor,
{
    if cursor >= 0 && cursor + 8 <= end && cursor + 8 <= data.len() {
        if be_u32_at(data, cursor) == 1 && cursor + 16 > data.len() {
            Seq::empty()
        } else if mp4_box_size(data, cursor, end) < mp4_header_size(data, cursor) {
            Seq::empty()
        } else if mp4_box_end(data, cursor, end) <= cursor + mp4_header_size(data, cursor) {
            Seq::empty()
        } else {
            seq![
                (
                    cursor + mp4_header_size(data, cursor),
                    mp4_box_end(data, cursor, end),
                    data.subrange(cursor + 4, cursor + 8),
                ),
            ] + mp4_boxes_from(data, mp4_box_end(data, cursor, end), end)
        }
    } else {
        Seq::empty()
    }
}

/// Every box of `mp4_boxes_from` lies inside the buffer and is non-empty.
pub proof fn lemma_mp4_boxes_in_bounds(data: Seq<u8>, cursor: int, end: int)
    requires
        cursor >= 0,
    ensures
        forall|k: int|
            0 <= k < mp4_boxes_from(data, cursor, end).len() ==> {
                let b = #[trigger] mp4_boxes_from(data, cursor, end)[k];
                &&& cursor < b.0 < b.1
                &&& b.1 <= data.len()
                &&& b.1 <= end
                &&& b.2.len() == 4
            },
    decreases data.len() - cursor,
{
    if cursor + 8 <= end && cursor + 8 <= data.len() && !(be_u32_at(data, cursor) == 1
        && cursor + 16 > data.len()) && mp4_box_size(data, cursor, end) >= mp4_header_size(
        data,
        cursor,
    ) && mp4_box_end(data, cursor, end) > cursor + mp4_header_size(data, cursor) {
        let next = mp4_box_end(data, cursor, end);
        lemma_mp4_boxes_in_bounds(data, next, end);
        let head = seq![(cursor + mp4_header_size(data, cursor), next, data.subrange(cursor + 4, cursor + 8))];
        let rest = mp4_boxes_from(data, next, end);
        assert(mp4_boxes_from(data, cursor, end) == head + rest);
        assert forall|k: int| 0 <= k < mp4_boxes_from(data, cursor, end).len() implies {
            let b = #[trigger] mp4_boxes_from(data, cursor, end)[k];
            &&& cursor < b.0 < b.1
            &&& b.1 <= data.len()
            &&& b.1 <= end
            &&& b.2.len() == 4
        } by {
            if k > 0 {
                assert(mp4_boxes_from(data, cursor, end)[k] == rest[k - 1]);
            }
        }
    }
}

/// Walks the box headers of `data[start..end]` and returns, for each box, the range of
/// its content and its type.
pub fn mp4_box_bounds(data: &[u8], start: usize, end: usize) -> (boxes: Vec<(usize, usize, [u8; 4])>)
    requires
        data@.len() <= isize::MAX,
    ensures
        boxes@.map_values(|b: (usize, usize, [u8; 4])| box_view(b)) == mp4_boxes_from(
            data@,
            start as int,
            end as int,
        ),
{
    if start > data.len() {
        let empty: Vec<(usize, usize, [u8; 4])> = Vec::new();
        assert(empty@.map_values(|b: (usize, usize, [u8; 4])| box_view(b)) =~= Seq::empty());
        return empty;
    }
    assert(isize::MAX as int + 16 <= usize::MAX as int);
    let mut boxes: Vec<(usize, usize, [u8; 4])> = Vec::new();
    let mut cursor = start;
    loop
        invariant
            cursor <= usize::MAX - 16,
            data@.len() <= isize::MAX,
            boxes@.map_values(|b: (usize, usize, [u8; 4])| box_view(b)) + mp4_boxes_from(
                data@,
                cursor as int,
                end as int,
            ) == mp4_boxes_from(data@, start as int, end as int),
        ensures
            boxes@.map_values(|b: (usize, usize, [u8; 4])| box_view(b)) == mp4_boxes_from(
                data@,
                start as int,
                end as int,
            ),
        decreases data@.len() - cursor,
    {
        let ghost before = mp4_boxes_from(data@, cursor as int, end as int);
        let ghost prefix = boxes@.map_values(|b: (usize, usize, [u8; 4])| box_view(b));
        if !(cursor + 8 <= end && cursor + 8 <= data.len()) {
            assert(before == Seq::<(int, int, Seq<u8>)>::empty());
            assert(prefix + before == prefix);
            break;
        }
        let size32 = read_be_u32(data, cursor).unwrap();
        let kind: [u8; 4] = [data[cursor + 4], data[cursor + 5], data[cursor + 6], data[cursor + 7]];
        let mut header_size: usize = 8;
        let mut box_size: u64 = size32 as u64;
        if size32 == 1 {
            let size64 = match read_be_u64(data, cursor + 8) {
                Some(v) => v,
                None => {
                    assert(before == Seq::<(int, int, Seq<u8>)>::empty());
                    assert(prefix + before == prefix);
                    break;
                },
            };
            header_size = 16;
            box_size = size64;
        } else if size32 == 0 {
            box_size = (end - cursor) as u64;
        }
        if box_size < header_size as u64 {
            assert(before == Seq::<(int, int, Seq<u8>)>::empty());
            assert(prefix + before == prefix);
            break;
        }
        let mut box_end = cursor.saturating_add(#[verifier::truncate] (box_size as usize));
        if box_end > end {
            box_end = end;
        }
        if box_end > data.len() {
            box_end = data.len();
        }
        assert(box_end == mp4_box_end(data@, cursor as int, end as int));
        if box_end <= cursor + header_size {
            assert(before == Seq::<(int, int, Seq<u8>)>::empty());
            assert(prefix + before == prefix);
            break;
        }
        let entry = (cursor + header_size, box_end, kind);
        assert(kind@ == data@.subrange(cursor + 4, cursor + 8));
        boxes.push(entry);
        let ghost rest = mp4_boxes_from(data@, box_end as int, end as int);
        assert(before == seq![box_view(entry)] + rest);
        assert(boxes@.map_values(|b: (usize, usize, [u8; 4])| box_view(b)) == prefix.push(box_view(entry)));
        assert(prefix.push(box_view(entry)) + rest == prefix + before);
        cursor = box_end;
    }
    boxes
}


/// The content ranges of the boxes in `boxes` whose type is `target`, in order.
pub open spec fn boxes_of_kind(boxes: Seq<(int, int, Seq<u8>)>, target: Seq<u8>) -> Seq<(int, int)>
    decreases boxes.len(),
{
    if boxes.len() == 0 {
        Seq::empty()
    } else {
        let last = boxes.last();
        let rest = boxes_of_kind(boxes.drop_last(), target);
        if last.2 == target {
            rest.push((last.0, last.1))
        } else {
            rest
        }
    }
}

/// The content ranges of the boxes of type `target` directly inside `data[start..end]`.
pub open spec fn find_boxes_spec(data: Seq<u8>, start: int, end: int, target: Seq<u8>) -> Seq<(int, int)> {
    boxes_of_kind(mp4_boxes_from(data, start, end), target)
}

proof fn lemma_boxes_of_kind_bounds(boxes: Seq<(int, int, Seq<u8>)>, target: Seq<u8>, lo: int, hi: int)
    requires
        forall|k: int| 0 <= k < boxes.len() ==> lo < #[trigger] boxes[k].0 < boxes[k].1 <= hi,
    ensures
        forall|k: int|
            0 <= k < boxes_of_kind(boxes, target).len() ==> lo < #[trigger] boxes_of_kind(
                boxes,
                target,
            )[k].0 < boxes_of_kind(boxes, target)[k].1 <= hi,
    decreases boxes.len(),
{
    if boxes.len() > 0 {
        let rest = boxes.drop_last();
        assert forall|k: int| 0 <= k < rest.len() implies lo < #[trigger] rest[k].0 < rest[k].1 <= hi by {
            assert(rest[k] == boxes[k]);
        }
        lemma_boxes_of_kind_bounds(rest, target, lo, hi);
        assert(boxes.last() == boxes[boxes.len() - 1]);
        let r = boxes_of_kind(rest, target);
        let res = boxes_of_kind(boxes, target);
        assert forall|k: int| 0 <= k < res.len() implies lo < #[trigger] res[k].0 < res[k].1 <= hi by {
            if k < r.len() {
                assert(res[k] == r[k]);
            }
        }
    }
}

/// Every range found by `find_boxes_spec` lies strictly after `start`, inside the buffer and
/// before `end`.
pub proof fn lemma_find_boxes_bounds(data: Seq<u8>, start: int, end: int, target: Seq<u8>)
    requires
        start >= 0,
    ensures
        forall|k: int|
            0 <= k < find_boxes_spec(data, start, end, target).len() ==> {
                let r = #[trigger] find_boxes_spec(data, start, end, target)[k];
                &&& start < r.0 < r.1
                &&& r.1 <= data.len()
                &&& r.1 <= end
            },
{
    lemma_mp4_boxes_in_bounds(data, start, end);
    let boxes = mp4_boxes_from(data, start, end);
    let hi = min_int(data.len() as int, end);
    assert forall|k: int| 0 <= k < boxes.len() implies start < #[trigger] boxes[k].0 < boxes[k].1 <= hi by {
        let b = boxes[k];
        assert(b.1 <= data.len() && b.1 <= end);
    }
    lemma_boxes_of_kind_bounds(boxes, target, start, hi);
}

fn same_kind(a: &[u8; 4], b: &[u8; 4]) -> (r: bool)
    ensures
        r == (a@ == b@),
{
    let r = a[0] == b[0] && a[1] == b[1] && a[2] == b[2] && a[3] == b[3];
    if r {
        assert(a@ =~= b@);
    }
    r
}

/// The content ranges of the boxes of type `target` directly inside `data[start..end]`.
pub fn find_mp4_boxes(data: &[u8], start: usize, end: usize, target: [u8; 4]) -> (found: Vec<(usize, usize)>)
    requires
        data@.len() <= isize::MAX,
    ensures
        found@.map_values(|r: (usize, usize)| (r.0 as int, r.1 as int)) == find_boxes_spec(
            data@,
            start as int,
            end as int,
            target@,
        ),
{
    let boxes = mp4_box_bounds(data, start, end);
    let ghost all = boxes@.map_values(|b: (usize, usize, [u8; 4])| box_view(b));
    let mut found: Vec<(usize, usize)> = Vec::new();
    let mut i: usize = 0;
    while i < boxes.len()
        invariant
            i <= boxes@.len(),
            all == boxes@.map_values(|b: (usize, usize, [u8; 4])| box_view(b)),
            found@.map_values(|r: (usize, usize)| (r.0 as int, r.1 as int)) == boxes_of_kind(
                all.take(i as int),
                target@,
            ),
        decreases boxes.len() - i,
    {
        let (content_start, content_end, kind) = boxes[i];
        assert(all.take(i as int + 1).drop_last() == all.take(i as int));
        assert(all.take(i as int + 1).last() == box_view(boxes@[i as int]));
        if same_kind(&kind, &target) {
            found.push((content_start, content_end));
            assert(found@.map_values(|r: (usize, usize)| (r.0 as int, r.1 as int)) =~= boxes_of_kind(
                all.take(i as int),
                target@,
            ).push((content_start as int, content_end as int)));
        }
        i += 1;
    }
    assert(all.take(boxes@.len() as int) == all);
    found
}


pub open spec fn kind_hdlr() -> Seq<u8> { seq![0x68u8, 0x64u8, 0x6cu8, 0x72u8] }
pub open spec fn kind_tkhd() -> Seq<u8> { seq![0x74u8, 0x6bu8, 0x68u8, 0x64u8] }
pub open spec fn kind_moov() -> Seq<u8> { seq![0x6du8, 0x6fu8, 0x6fu8, 0x76u8] }
pub open spec fn kind_trak() -> Seq<u8> { seq![0x74u8, 0x72u8, 0x61u8, 0x6bu8] }
pub open spec fn kind_mdia() -> Seq<u8> { seq![0x6du8, 0x64u8, 0x69u8, 0x61u8] }
pub open spec fn kind_vide() -> Seq<u8> { seq![0x76u8, 0x69u8, 0x64u8, 0x65u8] }

/// Handler type of the first `hdlr` box in `ranges` that is long enough to hold one.
pub open spec fn first_handler(data: Seq<u8>, ranges: Seq<(int, int)>) -> Option<Seq<u8>>
    decreases ranges.len(),
{
    if ranges.len() == 0 {
        None
    } else if ranges[0].0 + 12 <= ranges[0].1 {
        Some(data.subrange(ranges[0].0 + 8, ranges[0].0 + 12))
    } else {
        first_handler(data, ranges.drop_first())
    }
}

pub open spec fn mp4_handler_spec(data: Seq<u8>, start: int, end: int) -> Option<Seq<u8>> {
    first_handler(data, find_boxes_spec(data, start, end, kind_hdlr()))
}

pub open spec fn option_kind_view(o: Option<[u8; 4]>) -> Option<Seq<u8>> {
    match o {
        Some(k) => Some(k@),
        None => None,
    }
}

fn four_cc(a: u8, b: u8, c: u8, d: u8) -> (k: [u8; 4])
    ensures
        k@ == seq![a, b, c, d],
{
    let k = [a, b, c, d];
    assert(k@ =~= seq![a, b, c, d]);
    k
}

/// Handler type (such as `vide`) declared by the `hdlr` box inside `data[mdia_start..mdia_end]`.
pub fn mp4_handler_type(data: &[u8], mdia_start: usize, mdia_end: usize) -> (r: Option<[u8; 4]>)
    requires
        data@.len() <= isize::MAX,
    ensures
        option_kind_view(r) == mp4_handler_spec(data@, mdia_start as int, mdia_end as int),
{
    let found = find_mp4_boxes(data, mdia_start, mdia_end, four_cc(0x68, 0x64, 0x6c, 0x72));
    let ghost ranges = found@.map_values(|r: (usize, usize)| (r.0 as int, r.1 as int));
    proof {
        lemma_find_boxes_bounds(data@, mdia_start as int, mdia_end as int, kind_hdlr());
    }
    assert(ranges.skip(0) == ranges);
    let mut i: usize = 0;
    while i < found.len()
        invariant
            i <= found@.len(),
            ranges == found@.map_values(|r: (usize, usize)| (r.0 as int, r.1 as int)),
            ranges == find_boxes_spec(data@, mdia_start as int, mdia_end as int, kind_hdlr()),
            forall|k: int|
                0 <= k < ranges.len() ==> #[trigger] ranges[k].0 < ranges[k].1 && ranges[k].1 <= data@.len(),
            first_handler(data@, ranges) == first_handler(data@, ranges.skip(i as int)),
        decreases found.len() - i,
    {
        let (hdlr_start, hdlr_end) = found[i];
        assert(ranges.skip(i as int)[0] == ranges[i as int]);
        assert(ranges.skip(i as int).drop_first() == ranges.skip(i as int + 1));
        if hdlr_start <= usize::MAX - 12 && hdlr_start + 12 <= hdlr_end {
            let k = four_cc(data[hdlr_start + 8], data[hdlr_start + 9], data[hdlr_start + 10], data[hdlr_start + 11]);
            assert(k@ =~= data@.subrange(hdlr_start + 8, hdlr_start + 12));
            return Some(k);
        }
        i += 1;
    }
    None
}

/// Width and height (16.16 fixed point, integer part) of the first `tkhd` box in `ranges`
/// that holds non-zero dimensions.
pub open spec fn first_tkhd_dims(data: Seq<u8>, ranges: Seq<(int, int)>) -> Option<(int, int)>
    decreases ranges.len(),
{
    if ranges.len() == 0 {
        None
    } else {
        let s = ranges[0].0;
        let e = ranges[0].1;
        let off: int = if data[s] == 1 { 96 } else { 76 };
        if s + off + 8 > e {
            first_tkhd_dims(data, ranges.drop_first())
        } else {
            let w = be_u32_at(data, s + off) / 0x10000;
            let h = be_u32_at(data, s + off + 4) / 0x10000;
            if w > 0 && h > 0 {
                Some((w, h))
            } else {
                first_tkhd_dims(data, ranges.drop_first())
            }
        }
    }
}

pub open spec fn mp4_tkhd_spec(data: Seq<u8>, start: int, end: int) -> Option<(int, int)> {
    first_tkhd_dims(data, find_boxes_spec(data, start, end, kind_tkhd()))
}

pub open spec fn option_dims_view(o: Option<(u32, u32)>) -> Option<(int, int)> {
    match o {
        Some(d) => Some((d.0 as int, d.1 as int)),
        None => None,
    }
}

/// Dimensions declared by the track header (`tkhd`) inside `data[trak_start..trak_end]`.
pub fn mp4_tkhd_dimensions(data: &[u8], trak_start: usize, trak_end: usize) -> (r: Option<(u32, u32)>)
    requires
        data@.len() <= isize::MAX,
    ensures
        option_dims_view(r) == mp4_tkhd_spec(data@, trak_start as int, trak_end as int),
{
    let found = find_mp4_boxes(data, trak_start, trak_end, four_cc(0x74, 0x6b, 0x68, 0x64));
    let ghost ranges = found@.map_values(|r: (usize, usize)| (r.0 as int, r.1 as int));
    proof {
        lemma_find_boxes_bounds(data@, trak_start as int, trak_end as int, kind_tkhd());
    }
    assert(ranges.skip(0) == ranges);
    let mut i: usize = 0;
    while i < found.len()
        invariant
            i <= found@.len(),
            data@.len() <= isize::MAX,
            ranges == found@.map_values(|r: (usize, usize)| (r.0 as int, r.1 as int)),
            ranges == find_boxes_spec(data@, trak_start as int, trak_end as int, kind_tkhd()),
            forall|k: int|
                0 <= k < ranges.len() ==> #[trigger] ranges[k].0 < ranges[k].1 && ranges[k].1 <= data@.len(),
            first_tkhd_dims(data@, ranges) == first_tkhd_dims(data@, ranges.skip(i as int)),
        decreases found.len() - i,
    {
        let (tkhd_start, tkhd_end) = found[i];
        assert(ranges.skip(i as int)[0] == ranges[i as int]);
        assert(ranges.skip(i as int).drop_first() == ranges.skip(i as int + 1));
        assert(ranges[i as int].0 < ranges[i as int].1);
        let version = data[tkhd_start];
        let dimensions_offset: usize = if version == 1 { 96 } else { 76 };
        if tkhd_start + dimensions_offset + 8 > tkhd_end {
            i += 1;
            continue;
        }
        let width = read_be_u32(data, tkhd_start + dimensions_offset).unwrap() / 0x10000;
        let height = read_be_u32(data, tkhd_start + dimensions_offset + 4).unwrap() / 0x10000;
        if width > 0 && height > 0 {
            return Some((width, height));
        }
        i += 1;
    }
    None
}

/// Whether some `mdia` box in `ranges` declares the `vide` handler.
pub open spec fn any_video_media(data: Seq<u8>, ranges: Seq<(int, int)>) -> bool
    decreases ranges.len(),
{
    if ranges.len() == 0 {
        false
    } else {
        mp4_handler_spec(data, ranges[0].0, ranges[0].1) == Some(kind_vide())
            || any_video_media(data, ranges.drop_first())
    }
}

pub open spec fn trak_is_video(data: Seq<u8>, trak: (int, int)) -> bool {
    any_video_media(data, find_boxes_spec(data, trak.0, trak.1, kind_mdia()))
}

/// Dimensions of the first video track in `traks` whose header holds dimensions.
pub open spec fn first_video_track_dims(data: Seq<u8>, traks: Seq<(int, int)>) -> Option<(int, int)>
    decreases traks.len(),
{
    if traks.len() == 0 {
        None
    } else if trak_is_video(data, traks[0]) && mp4_tkhd_spec(data, traks[0].0, traks[0].1) is Some {
        mp4_tkhd_spec(data, traks[0].0, traks[0].1)
    } else {
        first_video_track_dims(data, traks.drop_first())
    }
}

/// Dimensions found in the first `moov` box of `moovs` that holds a sized video track.
pub open spec fn first_movie_dims(data: Seq<u8>, moovs: Seq<(int, int)>) -> Option<(int, int)>
    decreases moovs.len(),
{
    if moovs.len() == 0 {
        None
    } else {
        let d = first_video_track_dims(data, find_boxes_spec(data, moovs[0].0, moovs[0].1, kind_trak()));
        if d is Some {
            d
        } else {
            first_movie_dims(data, moovs.drop_first())
        }
    }
}

/// Width and height of the first video track of an MP4/MOV buffer.
pub open spec fn mp4_dimensions_spec(data: Seq<u8>) -> Option<(int, int)> {
    first_movie_dims(data, find_boxes_spec(data, 0, data.len() as int, kind_moov()))
}

fn mp4_trak_is_video(data: &[u8], trak_start: usize, trak_end: usize) -> (r: bool)
    requires
        data@.len() <= isize::MAX,
    ensures
        r == trak_is_video(data@, (trak_start as int, trak_end as int)),
{
    let found = find_mp4_boxes(data, trak_start, trak_end, four_cc(0x6d, 0x64, 0x69, 0x61));
    let ghost ranges = found@.map_values(|r: (usize, usize)| (r.0 as int, r.1 as int));
    proof {
        lemma_find_boxes_bounds(data@, trak_start as int, trak_end as int, kind_mdia());
    }
    let vide = four_cc(0x76, 0x69, 0x64, 0x65);
    assert(ranges.skip(0) == ranges);
    let mut i: usize = 0;
    while i < found.len()
        invariant
            i <= found@.len(),
            data@.len() <= isize::MAX,
            vide@ == kind_vide(),
            ranges == found@.map_values(|r: (usize, usize)| (r.0 as int, r.1 as int)),
            ranges == find_boxes_spec(data@, trak_start as int, trak_end as int, kind_mdia()),
            forall|k: int|
                0 <= k < ranges.len() ==> #[trigger] ranges[k].0 < ranges[k].1 && ranges[k].1 <= data@.len(),
            any_video_media(data@, ranges) == any_video_media(data@, ranges.skip(i as int)),
        decreases found.len() - i,
    {
        let (mdia_start, mdia_end) = found[i];
        assert(ranges.skip(i as int)[0] == ranges[i as int]);
        assert(ranges[i as int].0 < ranges[i as int].1);
        assert(ranges.skip(i as int).drop_first() == ranges.skip(i as int + 1));
        let handler = mp4_handler_type(data, mdia_start, mdia_end);
        let is_video = match handler {
            Some(k) => same_kind(&k, &vide),
            None => false,
        };
        if is_video {
            return true;
        }
        i += 1;
    }
    false
}

fn mp4_video_track_dimensions(data: &[u8], moov_start: usize, moov_end: usize) -> (r: Option<(u32, u32)>)
    requires
        data@.len() <= isize::MAX,
    ensures
        option_dims_view(r) == first_video_track_dims(
            data@,
            find_boxes_spec(data@, moov_start as int, moov_end as int, kind_trak()),
        ),
{
    let found = find_mp4_boxes(data, moov_start, moov_end, four_cc(0x74, 0x72, 0x61, 0x6b));
    let ghost ranges = found@.map_values(|r: (usize, usize)| (r.0 as int, r.1 as int));
    proof {
        lemma_find_boxes_bounds(data@, moov_start as int, moov_end as int, kind_trak());
    }
    assert(ranges.skip(0) == ranges);
    let mut i: usize = 0;
    while i < found.len()
        invariant
            i <= found@.len(),
            data@.len() <= isize::MAX,
            ranges == found@.map_values(|r: (usize, usize)| (r.0 as int, r.1 as int)),
            ranges == find_boxes_spec(data@, moov_start as int, moov_end as int, kind_trak()),
            forall|k: int|
                0 <= k < ranges.len() ==> #[trigger] ranges[k].0 < ranges[k].1 && ranges[k].1 <= data@.len(),
            first_video_track_dims(data@, ranges) == first_video_track_dims(data@, ranges.skip(i as int)),
        decreases found.len() - i,
    {
        let (trak_start, trak_end) = found[i];
        assert(ranges.skip(i as int)[0] == ranges[i as int]);
        assert(ranges[i as int].0 < ranges[i as int].1);
        assert(ranges.skip(i as int).drop_first() == ranges.skip(i as int + 1));
        if mp4_trak_is_video(data, trak_start, trak_end) {
            if let Some(dimensions) = mp4_tkhd_dimensions(data, trak_start, trak_end) {
                return Some(dimensions);
            }
        }
        i += 1;
    }
    None
}

/// Width and height of the first video track of an MP4/MOV buffer, found by walking
/// `moov` → `trak` → `mdia`/`hdlr` and reading the track header.
pub fn mp4_dimensions(data: &[u8]) -> (r: Option<(u32, u32)>)
    requires
        data@.len() <= isize::MAX,
    ensures
        option_dims_view(r) == mp4_dimensions_spec(data@),
{
    let found = find_mp4_boxes(data, 0, data.len(), four_cc(0x6d, 0x6f, 0x6f, 0x76));
    let ghost ranges = found@.map_values(|r: (usize, usize)| (r.0 as int, r.1 as int));
    proof {
        lemma_find_boxes_bounds(data@, 0, data@.len() as int, kind_moov());
    }
    assert(ranges.skip(0) == ranges);
    let mut i: usize = 0;
    while i < found.len()
        invariant
            i <= found@.len(),
            data@.len() <= isize::MAX,
            ranges == found@.map_values(|r: (usize, usize)| (r.0 as int, r.1 as int)),
            ranges == find_boxes_spec(data@, 0, data@.len() as int, kind_moov()),
            forall|k: int|
                0 <= k < ranges.len() ==> #[trigger] ranges[k].0 < ranges[k].1 && ranges[k].1 <= data@.len(),
            first_movie_dims(data@, ranges) == first_movie_dims(data@, ranges.skip(i as int)),
        decreases found.len() - i,
    {
        let (moov_start, moov_end) = found[i];
        assert(ranges.skip(i as int)[0] == ranges[i as int]);
        assert(ranges[i as int].0 < ranges[i as int].1);
        assert(ranges.skip(i as int).drop_first() == ranges.skip(i as int + 1));
        if let Some(dimensions) = mp4_video_track_dimensions(data, moov_start, moov_end) {
            return Some(dimensions);
        }
        i += 1;
    }
    None
}


// ---------------------------------------------------------------------------
// EBML (Matroska / WebM)
// ---------------------------------------------------------------------------

/// Big-endian value of a byte sequence.
pub open spec fn be_value(s: Seq<u8>) -> nat
    decreases s.len(),
{
    if s.len() == 0 {
        0
    } else {
        be_value(s.drop_last()) * 256 + s.last() as nat
    }
}

pub open spec fn pow256(n: nat) -> nat
    decreases n,
{
    if n == 0 { 1 } else { 256 * pow256((n - 1) as nat) }
}

pub proof fn lemma_be_value_bound(s: Seq<u8>)
    ensures
        be_value(s) < pow256(s.len()),
    decreases s.len(),
{
    if s.len() > 0 {
        lemma_be_value_bound(s.drop_last());
        let v = be_value(s.drop_last());
        let p = pow256((s.len() - 1) as nat);
        assert(v * 256 + s.last() < 256 * p) by (nonlinear_arith)
            requires v < p, s.last() < 256;
    }
}

/// Length in bytes of an EBML variable-length integer, from the number of leading zero
/// bits of its first byte (9 when the first byte is zero).
pub open spec fn vint_length(first: u8) -> int {
    if first >= 0x80 { 1 }
    else if first >= 0x40 { 2 }
    else if first >= 0x20 { 3 }
    else if first >= 0x10 { 4 }
    else if first >= 0x08 { 5 }
    else if first >= 0x04 { 6 }
    else if first >= 0x02 { 7 }
    else if first >= 0x01 { 8 }
    else { 9 }
}

/// Mask that clears the length marker bit of a first byte of the given length.
pub open spec fn vint_marker_mask(length: int) -> u8 {
    if length == 8 { 0 } else { (0xffu8 >> (length as u8)) }
}

/// The EBML variable-length integer at `offset`: its value (with the length marker kept, or
/// cleared when `strip_marker`) and its length, or `None` when it is longer than eight bytes
/// or runs past the buffer.
pub open spec fn ebml_vint(data: Seq<u8>, offset: int, strip_marker: bool) -> Option<(int, int)> {
    if offset < 0 || offset >= data.len() {
        None
    } else {
        let first = data[offset];
        let length = vint_length(first);
        if length > 8 || offset + length > data.len() {
            None
        } else {
            let lead: u8 = if strip_marker { first & vint_marker_mask(length) } else { first };
            Some((be_value(seq![lead] + data.subrange(offset + 1, offset + length)) as int, length))
        }
    }
}

/// Reads the EBML variable-length integer at `offset`.
pub fn read_ebml_vint(data: &[u8], offset: usize, strip_marker: bool) -> (r: Option<(u64, usize)>)
    requires
        data@.len() <= isize::MAX,
    ensures
        match r {
            Some(v) => ebml_vint(data@, offset as int, strip_marker) == Some((v.0 as int, v.1 as int)),
            None => ebml_vint(data@, offset as int, strip_marker) is None,
        },
{
    if offset >= data.len() {
        return None;
    }
    let first = data[offset];
    let length: usize = if first >= 0x80 { 1 }
        else if first >= 0x40 { 2 }
        else if first >= 0x20 { 3 }
        else if first >= 0x10 { 4 }
        else if first >= 0x08 { 5 }
        else if first >= 0x04 { 6 }
        else if first >= 0x02 { 7 }
        else if first >= 0x01 { 8 }
        else { 9 };
    if length > 8 || offset + length > data.len() {
        return None;
    }
    let lead: u8 = if strip_marker {
        let marker_mask: u8 = if length == 8 { 0 } else { 0xffu8 >> (length as u8) };
        first & marker_mask
    } else {
        first
    };
    let ghost head: Seq<u8> = seq![lead];
    let mut value: u64 = lead as u64;
    let mut j: usize = offset + 1;
    assert(head + data@.subrange(offset + 1, offset + 1) =~= head);
    assert(be_value(head) == lead) by {
        assert(head.drop_last() =~= Seq::<u8>::empty());
        reveal_with_fuel(be_value, 2);
    }
    let stop = offset + length;
    while j < stop
        invariant
            stop == offset + length,
            offset + 1 <= j <= offset + length,
            offset + length <= data@.len(),
            length <= 8,
            head == seq![lead],
            value == be_value(head + data@.subrange(offset + 1, j as int)),
        decreases offset + length - j,
    {
        let ghost prefix = head + data@.subrange(offset + 1, j as int);
        proof {
            lemma_be_value_bound(prefix);
            assert(prefix.len() <= 7);
            assert(pow256(7) == 0x100000000000000) by {
                reveal_with_fuel(pow256, 8);
            }
            if prefix.len() < 7 {
                lemma_pow256_monotone(prefix.len(), 7);
            }
        }
        let ghost next = head + data@.subrange(offset + 1, j as int + 1);
        assert(next.drop_last() =~= prefix);
        assert(next.last() == data@[j as int]);
        value = value * 256 + (data[j] as u64);
        j += 1;
    }
    Some((value, length))
}

pub proof fn lemma_pow256_monotone(a: nat, b: nat)
    requires
        a <= b,
    ensures
        pow256(a) <= pow256(b),
    decreases b - a,
{
    if a < b {
        lemma_pow256_monotone(a, (b - 1) as nat);
        assert(pow256(b) == 256 * pow256((b - 1) as nat));
    }
}

proof fn lemma_shift_in_byte(v: u32, b: u8)
    ensures
        (((v << 8u32) | (b as u32)) as int) == ((v as int) * 256 + (b as int)) % 0x1_0000_0000,
{
    assert((((v << 8u32) | (b as u32)) as int) == ((v as int) * 256 + (b as int)) % 0x1_0000_0000)
        by (bit_vector);
}

/// Big-endian value of `data`, keeping its low 32 bits.
pub fn read_ebml_uint(data: &[u8]) -> (r: u32)
    ensures
        r as int == be_value(data@) % 0x1_0000_0000,
{
    let mut value: u32 = 0;
    let mut i: usize = 0;
    while i < data.len()
        invariant
            i <= data@.len(),
            value as int == be_value(data@.take(i as int)) % 0x1_0000_0000,
        decreases data.len() - i,
    {
        let b = data[i];
        let ghost x = be_value(data@.take(i as int)) as int;
        proof {
            let t = data@.take(i as int + 1);
            assert(t.drop_last() =~= data@.take(i as int));
            assert(t.last() == b);
            lemma_shift_in_byte(value, b);
            lemma_mul_mod_noop_left(x, 256, 0x1_0000_0000);
            lemma_add_mod_noop((x % 0x1_0000_0000) * 256, b as int, 0x1_0000_0000);
            lemma_add_mod_noop(x * 256, b as int, 0x1_0000_0000);
        }
        value = (value << 8u32) | (b as u32);
        i += 1;
    }
    assert(data@.take(data@.len() as int) =~= data@);
    value
}

/// State of the EBML scan: from `cursor`, with the width and height seen so far, the first
/// position where both are known and non-zero yields them. Elements whose header cannot be
/// read, or whose value runs past the buffer, are stepped over one byte at a time.
pub open spec fn ebml_scan(data: Seq<u8>, cursor: int, width: Option<int>, height: Option<int>) -> Option<(int, int)>
    decreases data.len() - cursor,
{
    if cursor < 0 || cursor >= data.len() {
        None
    } else {
        match ebml_vint(data, cursor, false) {
            None => ebml_scan(data, cursor + 1, width, height),
            Some((id, id_len)) => {
                let size_offset = cursor + id_len;
                match ebml_vint(data, size_offset, true) {
                    None => ebml_scan(data, cursor + 1, width, height),
                    Some((size, size_len)) => {
                        let value_start = size_offset + size_len;
                        let value_end = sat_add_usize(value_start, ((size as u64) as usize) as int);
                        if value_end > data.len() {
                            ebml_scan(data, cursor + 1, width, height)
                        } else {
                            let v = be_value(data.subrange(value_start, value_end)) % 0x1_0000_0000;
                            let w2 = if id == 0xb0 && size <= 4 { Some(v as int) } else { width };
                            let h2 = if !(id == 0xb0 && size <= 4) && id == 0xba && size <= 4 {
                                Some(v as int)
                            } else {
                                height
                            };
                            if w2 is Some && h2 is Some && w2->0 > 0 && h2->0 > 0 {
                                Some((w2->0, h2->0))
                            } else {
                                ebml_scan(data, max_int(value_end, cursor + 1), w2, h2)
                            }
                        }
                    },
                }
            },
        }
    }
}

/// Width (`PixelWidth`, id 0xB0) and height (`PixelHeight`, id 0xBA) of a Matroska/WebM
/// buffer.
pub open spec fn ebml_dimensions_spec(data: Seq<u8>) -> Option<(int, int)> {
    ebml_scan(data, 0, None, None)
}

pub open spec fn option_u32_view(o: Option<u32>) -> Option<int> {
    match o {
        Some(v) => Some(v as int),
        None => None,
    }
}

/// Scans a Matroska/WebM buffer for the first pair of non-zero `PixelWidth`/`PixelHeight`
/// elements.
pub fn ebml_dimensions(data: &[u8]) -> (r: Option<(u32, u32)>)
    requires
        data@.len() <= isize::MAX,
    ensures
        option_dims_view(r) == ebml_dimensions_spec(data@),
{
    let mut cursor: usize = 0;
    let mut width: Option<u32> = None;
    let mut height: Option<u32> = None;
    while cursor < data.len()
        invariant
            data@.len() <= isize::MAX,
            ebml_scan(data@, cursor as int, option_u32_view(width), option_u32_view(height))
                == ebml_dimensions_spec(data@),
        decreases data@.len() - cursor,
    {
        let (id, id_len) = match read_ebml_vint(data, cursor, false) {
            Some(v) => v,
            None => {
                cursor += 1;
                continue;
            },
        };
        let size_offset = cursor + id_len;
        let (size, size_len) = match read_ebml_vint(data, size_offset, true) {
            Some(v) => v,
            None => {
                cursor += 1;
                continue;
            },
        };
        let value_start = size_offset + size_len;
        let value_end = value_start.saturating_add(#[verifier::truncate] (size as usize));
        if value_end > data.len() {
            cursor += 1;
            continue;
        }
        if id == 0xb0 && size <= 4 {
            width = Some(read_ebml_uint(&data[value_start..value_end]));
        } else if id == 0xba && size <= 4 {
            height = Some(read_ebml_uint(&data[value_start..value_end]));
        }
        match (width, height) {
            (Some(w), Some(h)) => {
                if w > 0 && h > 0 {
                    return Some((w, h));
                }
            },
            _ => {},
        }
        cursor = if value_end > cursor + 1 { value_end } else { cursor + 1 };
    }
    None
}

// ---------------------------------------------------------------------------
// RIFF / AVI
// ---------------------------------------------------------------------------

pub open spec fn kind_riff() -> Seq<u8> { seq![0x52u8, 0x49u8, 0x46u8, 0x46u8] }
pub open spec fn kind_avi() -> Seq<u8> { seq![0x41u8, 0x56u8, 0x49u8, 0x20u8] }
pub open spec fn kind_avih() -> Seq<u8> { seq![0x61u8, 0x76u8, 0x69u8, 0x68u8] }

/// Walks RIFF chunks from `cursor` (chunks are padded to even sizes) until an `avih` main
/// header with non-zero width and height.
pub open spec fn avi_scan(data: Seq<u8>, cursor: int) -> Option<(int, int)>
    decreases data.len() + 1 - cursor,
{
    if cursor < 0 || cursor + 8 > data.len() || data.len() > usize::MAX {
        None
    } else {
        let size = le_u32_at(data, cursor + 4);
        let content_start = cursor + 8;
        let content_end = min_int(sat_add_usize(content_start, size), data.len() as int);
        if data.subrange(cursor, cursor + 4) == kind_avih() && content_start + 40 <= content_end
            && le_u32_at(data, content_start + 32) > 0 && le_u32_at(data, content_start + 36) > 0 {
            Some((le_u32_at(data, content_start + 32), le_u32_at(data, content_start + 36)))
        } else {
            proof {
                assert(size >= 0);
                assert(content_end >= content_start);
            }
            avi_scan(data, content_end + size % 2)
        }
    }
}

/// Width and height from the `avih` header of a RIFF `AVI ` buffer.
pub open spec fn avi_dimensions_spec(data: Seq<u8>) -> Option<(int, int)> {
    if data.len() >= 12 && data.subrange(0, 4) == kind_riff() && data.subrange(8, 12) == kind_avi() {
        avi_scan(data, 12)
    } else {
        None
    }
}

fn bytes_equal_at(data: &[u8], offset: usize, k: &[u8; 4]) -> (r: bool)
    requires
        offset + 4 <= data@.len(),
    ensures
        r == (data@.subrange(offset as int, offset + 4) == k@),
{
    let r = data[offset] == k[0] && data[offset + 1] == k[1] && data[offset + 2] == k[2]
        && data[offset + 3] == k[3];
    if r {
        assert(data@.subrange(offset as int, offset + 4) =~= k@);
    } else {
        assert(data@.subrange(offset as int, offset + 4) != k@) by {
            if data@.subrange(offset as int, offset + 4) == k@ {
                assert(data@.subrange(offset as int, offset + 4)[0] == k@[0]);
                assert(data@.subrange(offset as int, offset + 4)[1] == k@[1]);
                assert(data@.subrange(offset as int, offset + 4)[2] == k@[2]);
                assert(data@.subrange(offset as int, offset + 4)[3] == k@[3]);
            }
        }
    }
    r
}

/// Width and height from the `avih` main header of a RIFF `AVI ` buffer.
pub fn avi_dimensions(data: &[u8]) -> (r: Option<(u32, u32)>)
    requires
        data@.len() <= isize::MAX,
    ensures
        option_dims_view(r) == avi_dimensions_spec(data@),
{
    if data.len() < 12 {
        return None;
    }
    if !bytes_equal_at(data, 0, &four_cc(0x52, 0x49, 0x46, 0x46))
        || !bytes_equal_at(data, 8, &four_cc(0x41, 0x56, 0x49, 0x20)) {
        return None;
    }
    let avih = four_cc(0x61, 0x76, 0x69, 0x68);
    let mut cursor: usize = 12;
    while cursor + 8 <= data.len()
        invariant
            data@.len() <= isize::MAX,
            avih@ == kind_avih(),
            cursor <= data@.len() + 1,
            avi_scan(data@, cursor as int) == avi_dimensions_spec(data@),
        decreases data@.len() + 1 - cursor,
    {
        let size = read_le_u32(data, cursor + 4).unwrap() as usize;
        let content_start = cursor + 8;
        let mut content_end = content_start.saturating_add(size);
        if content_end > data.len() {
            content_end = data.len();
        }
        if bytes_equal_at(data, cursor, &avih) && content_start + 40 <= content_end {
            let width = read_le_u32(data, content_start + 32).unwrap();
            let height = read_le_u32(data, content_start + 36).unwrap();
            if width > 0 && height > 0 {
                return Some((width, height));
            }
        }
        cursor = content_end + (size % 2);
    }
    None
}


// ---------------------------------------------------------------------------
// Reading the top-level boxes of an MP4 file piece by piece
// ---------------------------------------------------------------------------

/// What to do after reading the eight-byte header of the top-level box at `cursor`.
#[derive(Debug)]
pub enum TopLevelStep {
    /// The file cannot be walked further.
    Stop,
    /// The next top-level box starts at this offset.
    Next(u64),
    /// This box is `moov`: read `size` bytes of content starting at `offset`.
    ReadMoov { offset: u64, size: u64 },
}

/// Largest `moov` content read from a file.
pub const MOOV_READ_LIMIT: u64 = 134217728;

/// Whether the header at hand declares a 64-bit size that follows it.
pub fn mp4_header_has_large_size(header: &[u8]) -> (r: bool)
    requires
        header@.len() >= 8,
    ensures
        r == (be_u32_at(header@, 0) == 1),
{
    read_be_u32(header, 0).unwrap() == 1
}

pub open spec fn top_level_step_spec(cursor: int, file_len: int, header: Seq<u8>, large_size: Option<u64>) -> TopLevelStep {
    let size32 = be_u32_at(header, 0);
    let header_size: int = if size32 == 1 { 16 } else { 8 };
    let box_size: int = if size32 == 1 {
        large_size->0 as int
    } else if size32 == 0 {
        if file_len >= cursor { file_len - cursor } else { 0 }
    } else {
        size32
    };
    if box_size < header_size {
        TopLevelStep::Stop
    } else if header.subrange(4, 8) == kind_moov() {
        if box_size - header_size > MOOV_READ_LIMIT {
            TopLevelStep::Stop
        } else {
            TopLevelStep::ReadMoov { offset: (cursor + header_size) as u64, size: (box_size - header_size) as u64 }
        }
    } else {
        TopLevelStep::Next(
            if cursor + box_size > u64::MAX { u64::MAX } else { (cursor + box_size) as u64 },
        )
    }
}

/// Decides, from the header of the top-level box at `cursor` (and its 64-bit size when it
/// declares one), where the walk goes next.
pub fn mp4_top_level_step(cursor: u64, file_len: u64, header: &[u8], large_size: Option<u64>) -> (r: TopLevelStep)
    requires
        header@.len() >= 8,
        cursor <= u64::MAX - 16,
        be_u32_at(header@, 0) == 1 ==> large_size is Some,
    ensures
        r == top_level_step_spec(cursor as int, file_len as int, header@, large_size),
{
    let size32 = read_be_u32(header, 0).unwrap();
    let mut header_size: u64 = 8;
    let mut box_size: u64 = size32 as u64;
    if size32 == 1 {
        box_size = large_size.unwrap();
        header_size = 16;
    } else if size32 == 0 {
        box_size = file_len.saturating_sub(cursor);
    }
    if box_size < header_size {
        return TopLevelStep::Stop;
    }
    if bytes_equal_at(header, 4, &four_cc(0x6d, 0x6f, 0x6f, 0x76)) {
        let content_size = box_size - header_size;
        if content_size > MOOV_READ_LIMIT {
            return TopLevelStep::Stop;
        }
        return TopLevelStep::ReadMoov { offset: cursor + header_size, size: content_size };
    }
    TopLevelStep::Next(cursor.saturating_add(box_size))
}

/// The buffer `mp4_dimensions` reads for a `moov` box read out of a file: a fresh box
/// header (total length, big-endian, then `moov`) followed by the content.
pub open spec fn moov_buffer_spec(content: Seq<u8>) -> Seq<u8> {
    let total = content.len() + 8;
    seq![
        (total / 0x1000000) as u8,
        ((total / 0x10000) % 0x100) as u8,
        ((total / 0x100) % 0x100) as u8,
        (total % 0x100) as u8,
        0x6du8, 0x6fu8, 0x6fu8, 0x76u8,
    ] + content
}

/// Wraps `moov` content read from a file in a box header of its own.
pub fn mp4_moov_buffer(content: &Vec<u8>) -> (r: Vec<u8>)
    requires
        content@.len() + 8 <= 0xffff_ffff,
    ensures
        r@ == moov_buffer_spec(content@),
{
    let total = (content.len() + 8) as u32;
    let mut r: Vec<u8> = Vec::new();
    r.push((total / 0x1000000) as u8);
    r.push(((total / 0x10000) % 0x100) as u8);
    r.push(((total / 0x100) % 0x100) as u8);
    r.push((total % 0x100) as u8);
    r.push(0x6d);
    r.push(0x6f);
    r.push(0x6f);
    r.push(0x76);
    let ghost head = r@;
    let mut i: usize = 0;
    while i < content.len()
        invariant
            i <= content@.len(),
            r@ == head + content@.take(i as int),
        decreases content.len() - i,
    {
        r.push(content[i]);
        assert(content@.take(i as int + 1) == content@.take(i as int).push(content@[i as int]));
        i += 1;
    }
    assert(content@.take(content@.len() as int) == content@);
    r
}

/// Video dimensions, trying in turn: the `moov` box read from the file, then the first
/// bytes of the file as MP4, as Matroska/WebM and as AVI.
pub open spec fn video_dimensions_spec(from_file: Option<(int, int)>, header: Seq<u8>) -> Option<(int, int)> {
    if from_file is Some {
        from_file
    } else if mp4_dimensions_spec(header) is Some {
        mp4_dimensions_spec(header)
    } else if ebml_dimensions_spec(header) is Some {
        ebml_dimensions_spec(header)
    } else {
        avi_dimensions_spec(header)
    }
}

/// Video dimensions from what the file walk found and from the first bytes of the file.
pub fn video_dimensions(from_file: Option<(u32, u32)>, header: &[u8]) -> (r: Option<(u32, u32)>)
    requires
        header@.len() <= isize::MAX,
    ensures
        option_dims_view(r) == video_dimensions_spec(option_dims_view(from_file), header@),
{
    if from_file.is_some() {
        return from_file;
    }
    let mp4 = mp4_dimensions(header);
    if mp4.is_some() {
        return mp4;
    }
    let ebml = ebml_dimensions(header);
    if ebml.is_some() {
        return ebml;
    }
    avi_dimensions(header)
}

// ---------------------------------------------------------------------------
// Content hash (64-bit FNV-1a)
// ---------------------------------------------------------------------------

/// FNV-1a offset basis: the hash of no bytes.
pub const FNV_OFFSET_BASIS: u64 = 0xcbf29ce484222325;

/// FNV-1a prime.
pub const FNV_PRIME: u64 = 0x100000001b3;

pub open spec fn fnv_step(hash: u64, byte: u8) -> u64 {
    (((hash ^ (byte as u64)) as nat * (FNV_PRIME as nat)) % 0x1_0000_0000_0000_0000) as u64
}

/// FNV-1a hash of `data`, continuing from `hash`.
pub open spec fn fnv1a(hash: u64, data: Seq<u8>) -> u64
    decreases data.len(),
{
    if data.len() == 0 {
        hash
    } else {
        fnv_step(fnv1a(hash, data.drop_last()), data.last())
    }
}

/// Hashing a file chunk by chunk gives the hash of the whole content: continuing the hash
/// of `a` over `b` is hashing `a + b`.
pub proof fn lemma_fnv1a_concat(hash: u64, a: Seq<u8>, b: Seq<u8>)
    ensures
        fnv1a(fnv1a(hash, a), b) == fnv1a(hash, a + b),
    decreases b.len(),
{
    if b.len() > 0 {
        lemma_fnv1a_concat(hash, a, b.drop_last());
        assert((a + b).drop_last() == a + b.drop_last());
        assert((a + b).last() == b.last());
    } else {
        assert(a + b == a);
    }
}

/// Continues an FNV-1a hash over `bytes` (one read of the content hash loop).
pub fn fnv1a_update(hash: u64, bytes: &[u8]) -> (r: u64)
    ensures
        r == fnv1a(hash, bytes@),
{
    let mut h = hash;
    let mut i: usize = 0;
    while i < bytes.len()
        invariant
            i <= bytes@.len(),
            h == fnv1a(hash, bytes@.take(i as int)),
        decreases bytes.len() - i,
    {
        let ghost t = bytes@.take(i as int + 1);
        assert(t.drop_last() == bytes@.take(i as int));
        h = (h ^ (bytes[i] as u64)).wrapping_mul(FNV_PRIME);
        i += 1;
    }
    assert(bytes@.take(bytes@.len() as int) == bytes@);
    h
}

// ---------------------------------------------------------------------------
// Media types
// ---------------------------------------------------------------------------

pub open spec fn is_image_extension(e: Seq<char>) -> bool {
    e == "jpg"@ || e == "jpeg"@ || e == "png"@ || e == "webp"@ || e == "gif"@ || e == "bmp"@
        || e == "tif"@ || e == "tiff"@
}

pub open spec fn is_video_extension(e: Seq<char>) -> bool {
    e == "mp4"@ || e == "m4v"@ || e == "mov"@ || e == "webm"@ || e == "ogv"@ || e == "mkv"@
        || e == "avi"@
}

/// The path has an image extension (case-insensitive).
pub open spec fn is_supported_image_spec(p: Seq<crate::paths::PartView>) -> bool {
    match extension_spec(p) {
        Some(e) => is_image_extension(ascii_lower(e)),
        None => false,
    }
}

/// The path has a video extension (case-insensitive).
pub open spec fn is_supported_video_spec(p: Seq<crate::paths::PartView>) -> bool {
    match extension_spec(p) {
        Some(e) => is_video_extension(ascii_lower(e)),
        None => false,
    }
}

fn lower_extension(path: &LibPath) -> (r: Option<Vec<char>>)
    ensures
        match r {
            Some(e) => extension_spec(path@) matches Some(x) && e@ == ascii_lower(x),
            None => extension_spec(path@) is None,
        },
{
    match extension(path) {
        Some(e) => Some(to_ascii_lowercase(&e)),
        None => None,
    }
}

/// Whether `path` names an image the library indexes (by extension).
pub fn is_supported_image(path: &LibPath) -> (r: bool)
    ensures
        r == is_supported_image_spec(path@),
{
    match lower_extension(path) {
        Some(e) => chars_eq_str(&e, "jpg") || chars_eq_str(&e, "jpeg") || chars_eq_str(&e, "png")
            || chars_eq_str(&e, "webp") || chars_eq_str(&e, "gif") || chars_eq_str(&e, "bmp")
            || chars_eq_str(&e, "tif") || chars_eq_str(&e, "tiff"),
        None => false,
    }
}

/// Whether `path` names a video the library indexes (by extension).
pub fn is_supported_video(path: &LibPath) -> (r: bool)
    ensures
        r == is_supported_video_spec(path@),
{
    match lower_extension(path) {
        Some(e) => chars_eq_str(&e, "mp4") || chars_eq_str(&e, "m4v") || chars_eq_str(&e, "mov")
            || chars_eq_str(&e, "webm") || chars_eq_str(&e, "ogv") || chars_eq_str(&e, "mkv")
            || chars_eq_str(&e, "avi"),
        None => false,
    }
}

/// Kind of media the library indexes.
#[derive(Debug, PartialEq, Eq, Structural, Clone, Copy)]
pub enum MediaKind {
    Image,
    Video,
}

impl MediaKind {
    /// The name stored in the `media_type` column.
    pub fn name(&self) -> (r: &'static str)
        ensures
            *self == MediaKind::Image ==> r@ == "image"@,
            *self == MediaKind::Video ==> r@ == "video"@,
    {
        match self {
            MediaKind::Image => "image",
            MediaKind::Video => "video",
        }
    }
}

/// Media kind of a path by extension: images first, then videos.
pub open spec fn media_kind_spec(p: Seq<crate::paths::PartView>) -> Option<MediaKind> {
    if is_supported_image_spec(p) {
        Some(MediaKind::Image)
    } else if is_supported_video_spec(p) {
        Some(MediaKind::Video)
    } else {
        None
    }
}

/// Media kind of `path`, or `None` when the library does not index it.
pub fn supported_media_type(path: &LibPath) -> (r: Option<MediaKind>)
    ensures
        r == media_kind_spec(path@),
{
    if is_supported_image(path) {
        Some(MediaKind::Image)
    } else if is_supported_video(path) {
        Some(MediaKind::Video)
    } else {
        None
    }
}

/// An image format as the image decoder names it.
#[derive(Debug, PartialEq, Eq, Structural, Clone, Copy)]
pub enum ImageFormatKind {
    Jpeg,
    Png,
    WebP,
    Gif,
    Bmp,
    Tiff,
    /// Any format the library does not handle.
    Other,
}

/// Canonical file extension of a format.
pub fn image_format_extension(format: ImageFormatKind) -> (r: Option<&'static str>)
    ensures
        match format {
            ImageFormatKind::Jpeg => r matches Some(e) && e@ == "jpeg"@,
            ImageFormatKind::Png => r matches Some(e) && e@ == "png"@,
            ImageFormatKind::WebP => r matches Some(e) && e@ == "webp"@,
            ImageFormatKind::Gif => r matches Some(e) && e@ == "gif"@,
            ImageFormatKind::Bmp => r matches Some(e) && e@ == "bmp"@,
            ImageFormatKind::Tiff => r matches Some(e) && e@ == "tiff"@,
            ImageFormatKind::Other => r is None,
        },
{
    match format {
        ImageFormatKind::Jpeg => Some("jpeg"),
        ImageFormatKind::Png => Some("png"),
        ImageFormatKind::WebP => Some("webp"),
        ImageFormatKind::Gif => Some("gif"),
        ImageFormatKind::Bmp => Some("bmp"),
        ImageFormatKind::Tiff => Some("tiff"),
        ImageFormatKind::Other => None,
    }
}

/// MIME type of a format.
pub fn image_mime_type(format: ImageFormatKind) -> (r: Option<&'static str>)
    ensures
        match format {
            ImageFormatKind::Jpeg => r matches Some(e) && e@ == "image/jpeg"@,
            ImageFormatKind::Png => r matches Some(e) && e@ == "image/png"@,
            ImageFormatKind::WebP => r matches Some(e) && e@ == "image/webp"@,
            ImageFormatKind::Gif => r matches Some(e) && e@ == "image/gif"@,
            ImageFormatKind::Bmp => r matches Some(e) && e@ == "image/bmp"@,
            ImageFormatKind::Tiff => r matches Some(e) && e@ == "image/tiff"@,
            ImageFormatKind::Other => r is None,
        },
{
    match format {
        ImageFormatKind::Jpeg => Some("image/jpeg"),
        ImageFormatKind::Png => Some("image/png"),
        ImageFormatKind::WebP => Some("image/webp"),
        ImageFormatKind::Gif => Some("image/gif"),
        ImageFormatKind::Bmp => Some("image/bmp"),
        ImageFormatKind::Tiff => Some("image/tiff"),
        ImageFormatKind::Other => None,
    }
}

/// Extensions accepted for a format, compared case-insensitively.
pub open spec fn extension_matches_spec(format: ImageFormatKind, extension: Seq<char>) -> bool {
    let e = ascii_lower(extension);
    match format {
        ImageFormatKind::Jpeg => e == "jpg"@ || e == "jpeg"@,
        ImageFormatKind::Png => e == "png"@,
        ImageFormatKind::WebP => e == "webp"@,
        ImageFormatKind::Gif => e == "gif"@,
        ImageFormatKind::Bmp => e == "bmp"@,
        ImageFormatKind::Tiff => e == "tif"@ || e == "tiff"@,
        ImageFormatKind::Other => false,
    }
}

/// Whether a file's extension fits its detected format.
pub fn image_extension_matches(format: ImageFormatKind, extension: &str) -> (r: bool)
    ensures
        r == extension_matches_spec(format, extension@),
{
    let v = crate::text::chars_of(extension);
    let e = to_ascii_lowercase(&v);
    match format {
        ImageFormatKind::Jpeg => chars_eq_str(&e, "jpg") || chars_eq_str(&e, "jpeg"),
        ImageFormatKind::Png => chars_eq_str(&e, "png"),
        ImageFormatKind::WebP => chars_eq_str(&e, "webp"),
        ImageFormatKind::Gif => chars_eq_str(&e, "gif"),
        ImageFormatKind::Bmp => chars_eq_str(&e, "bmp"),
        ImageFormatKind::Tiff => chars_eq_str(&e, "tif") || chars_eq_str(&e, "tiff"),
        ImageFormatKind::Other => false,
    }
}

/// The format the image decoder recognises from the first bytes of a file, if any;
/// formats the library does not handle are `Other`.
pub uninterp spec fn image_magic_format(header: Seq<u8>) -> Option<ImageFormatKind>;

pub open spec fn starts_with_bytes(data: Seq<u8>, prefix: Seq<u8>) -> bool {
    prefix.len() <= data.len() && data.subrange(0, prefix.len() as int) == prefix
}

/// `image::guess_format(header).ok()`: the format whose signature starts `header`.
/// Of the signature table only the entries for the formats the library handles are
/// restated (PNG, JPEG, both GIF forms, WebP as `RIFF`, any four bytes, `WEBP`, both TIFF
/// byte orders, BMP), and the signatures of the formats it does not handle give `Other`
/// (DDS, ICO, Radiance HDR, AVIF as two zero bytes, any two, `ftypavif`, OpenEXR, QOI,
/// PNM `P1` to `P7`, farbfeld). A header with no signature is only named.
#[verifier::external_body]
fn guess_image_format(header: &[u8]) -> (r: Option<ImageFormatKind>)
    ensures
        r == image_magic_format(header@),
        starts_with_bytes(header@, seq![0x89u8, 0x50, 0x4e, 0x47, 0x0d, 0x0a, 0x1a, 0x0a]) ==> r == Some(ImageFormatKind::Png),
        starts_with_bytes(header@, seq![0xffu8, 0xd8, 0xff]) ==> r == Some(ImageFormatKind::Jpeg),
        starts_with_bytes(header@, seq![0x47u8, 0x49, 0x46, 0x38, 0x39, 0x61]) ==> r == Some(ImageFormatKind::Gif),
        starts_with_bytes(header@, seq![0x47u8, 0x49, 0x46, 0x38, 0x37, 0x61]) ==> r == Some(ImageFormatKind::Gif),
        header@.len() >= 12 && starts_with_bytes(header@, seq![0x52u8, 0x49, 0x46, 0x46])
            && header@.subrange(8, 12) == seq![0x57u8, 0x45, 0x42, 0x50] ==> r == Some(ImageFormatKind::WebP),
        starts_with_bytes(header@, seq![0x4du8, 0x4d, 0x00, 0x2a]) ==> r == Some(ImageFormatKind::Tiff),
        starts_with_bytes(header@, seq![0x49u8, 0x49, 0x2a, 0x00]) ==> r == Some(ImageFormatKind::Tiff),
        starts_with_bytes(header@, seq![0x42u8, 0x4d]) ==> r == Some(ImageFormatKind::Bmp),
        starts_with_bytes(header@, seq![0x44u8, 0x44, 0x53, 0x20]) ==> r == Some(ImageFormatKind::Other),
        starts_with_bytes(header@, seq![0x00u8, 0x00, 0x01, 0x00]) ==> r == Some(ImageFormatKind::Other),
        starts_with_bytes(header@, seq![0x23u8, 0x3f, 0x52, 0x41, 0x44, 0x49, 0x41, 0x4e, 0x43, 0x45]) ==> r
            == Some(ImageFormatKind::Other),
        header@.len() >= 12 && header@[0] == 0 && header@[1] == 0 && header@.subrange(4, 12) == seq![
            0x66u8,
            0x74,
            0x79,
            0x70,
            0x61,
            0x76,
            0x69,
            0x66,
        ] ==> r == Some(ImageFormatKind::Other),
        starts_with_bytes(header@, seq![0x76u8, 0x2f, 0x31, 0x01]) ==> r == Some(ImageFormatKind::Other),
        starts_with_bytes(header@, seq![0x71u8, 0x6f, 0x69, 0x66]) ==> r == Some(ImageFormatKind::Other),
        header@.len() >= 2 && header@[0] == 0x50 && 0x31 <= header@[1] <= 0x37 ==> r == Some(
            ImageFormatKind::Other,
        ),
        starts_with_bytes(header@, seq![0x66u8, 0x61, 0x72, 0x62, 0x66, 0x65, 0x6c, 0x64]) ==> r == Some(
            ImageFormatKind::Other,
        ),
{
    match image::guess_format(header) {
        Ok(image::ImageFormat::Jpeg) => Some(ImageFormatKind::Jpeg),
        Ok(image::ImageFormat::Png) => Some(ImageFormatKind::Png),
        Ok(image::ImageFormat::WebP) => Some(ImageFormatKind::WebP),
        Ok(image::ImageFormat::Gif) => Some(ImageFormatKind::Gif),
        Ok(image::ImageFormat::Bmp) => Some(ImageFormatKind::Bmp),
        Ok(image::ImageFormat::Tiff) => Some(ImageFormatKind::Tiff),
        Ok(_) => Some(ImageFormatKind::Other),
        Err(_) => None,
    }
}

/// The format the image decoder associates with a file extension (case-insensitive).
pub open spec fn extension_format_spec(extension: Seq<char>) -> Option<ImageFormatKind> {
    let e = ascii_lower(extension);
    if e == "jpg"@ || e == "jpeg"@ || e == "jfif"@ {
        Some(ImageFormatKind::Jpeg)
    } else if e == "png"@ || e == "apng"@ {
        Some(ImageFormatKind::Png)
    } else if e == "gif"@ {
        Some(ImageFormatKind::Gif)
    } else if e == "webp"@ {
        Some(ImageFormatKind::WebP)
    } else if e == "tif"@ || e == "tiff"@ {
        Some(ImageFormatKind::Tiff)
    } else if e == "bmp"@ {
        Some(ImageFormatKind::Bmp)
    } else if e == "avif"@ || e == "tga"@ || e == "dds"@ || e == "ico"@ || e == "hdr"@ || e
        == "exr"@ || e == "pbm"@ || e == "pam"@ || e == "ppm"@ || e == "pgm"@ || e == "pnm"@ || e
        == "ff"@ || e == "qoi"@ {
        Some(ImageFormatKind::Other)
    } else {
        None
    }
}

/// `image::ImageFormat::from_extension(extension)`: the format its (lower-cased)
/// extension table gives.
#[verifier::external_body]
fn format_from_extension(extension: &str) -> (r: Option<ImageFormatKind>)
    ensures
        r == extension_format_spec(extension@),
{
    match image::ImageFormat::from_extension(extension) {
        Some(image::ImageFormat::Jpeg) => Some(ImageFormatKind::Jpeg),
        Some(image::ImageFormat::Png) => Some(ImageFormatKind::Png),
        Some(image::ImageFormat::WebP) => Some(ImageFormatKind::WebP),
        Some(image::ImageFormat::Gif) => Some(ImageFormatKind::Gif),
        Some(image::ImageFormat::Bmp) => Some(ImageFormatKind::Bmp),
        Some(image::ImageFormat::Tiff) => Some(ImageFormatKind::Tiff),
        Some(_) => Some(ImageFormatKind::Other),
        None => None,
    }
}

/// The format of an image file as the decoder settles it: the one its first (at most
/// sixteen) bytes show, else the one its non-empty extension names.
pub open spec fn image_format_spec(header: Seq<u8>, path: Seq<crate::paths::PartView>) -> Option<
    ImageFormatKind,
> {
    match image_magic_format(header) {
        Some(f) => Some(f),
        None => match extension_spec(path) {
            Some(e) => if e.len() > 0 {
                extension_format_spec(e)
            } else {
                None
            },
            None => None,
        },
    }
}

/// The format of the image file at `path`, whose first bytes (the decoder reads
/// sixteen) are `header`.
pub fn image_format(header: &[u8], path: &LibPath) -> (r: Option<ImageFormatKind>)
    ensures
        r == image_format_spec(header@, path@),
{
    match guess_image_format(header) {
        Some(f) => Some(f),
        None => match extension(path) {
            Some(e) => if e.len() > 0 {
                let text = crate::text::string_from_chars(&e);
                format_from_extension(text.as_str())
            } else {
                None
            },
            None => None,
        },
    }
}

// ---------------------------------------------------------------------------
// Incremental indexing
// ---------------------------------------------------------------------------

/// What the index already holds about a file.
#[derive(Debug)]
pub struct ExistingMediaRecord {
    pub media_type: String,
    pub modified: i64,
    pub size: i64,
}

/// A file needs no new metadata when its type, modification time and size are those
/// already recorded.
pub fn record_unchanged(existing: &ExistingMediaRecord, media_type: MediaKind, modified: i64, size: i64) -> (r: bool)
    ensures
        r == ((media_type == MediaKind::Image ==> existing.media_type@ == "image"@)
            && (media_type == MediaKind::Video ==> existing.media_type@ == "video"@)
            && existing.modified == modified && existing.size == size),
{
    crate::text::str_eq(existing.media_type.as_str(), media_type.name()) && existing.modified == modified
        && existing.size == size
}

} // verus!
