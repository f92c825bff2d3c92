//! Which boxes a search comes by, told by the bytes of the file.
use crate::mp4::box_ops::{
    boxes_here, boxes_in, skip_box, whole_box_at, CO64, FTYP, MDAT, SKIP, STCO,
};
use crate::utils::{box_size, box_type};
use vstd::prelude::*;

verus! {

/// The number that the four bytes from index `at` on are, the highest first.
pub open spec fn word_at(data: Seq<u8>, at: int) -> int {
    0x100_0000 * data[at] + 0x1_0000 * data[at + 1] + 0x100 * data[at + 2] + data[at + 3]
}

/// The four bytes behind the first four bytes of a box.
pub open spec fn kind_at(data: Seq<u8>, at: int) -> Seq<u8> {
    seq![data[at + 4], data[at + 5], data[at + 6], data[at + 7]]
}

/// Whether a box stands at index `at` and ends at `end` at the latest.
pub open spec fn stands(data: Seq<u8>, at: int, end: int) -> bool {
    &&& 0 <= at
    &&& at + 8 <= data.len()
    &&& 8 <= word_at(data, at)
    &&& at + word_at(data, at) <= end
}

/// Whether boxes stand at the indices of the walk, the first at `lo`, and each
/// other where the one before it ends, all of them before `hi`.
pub open spec fn is_walk(data: Seq<u8>, lo: int, hi: int, walk: Seq<int>) -> bool {
    &&& 0 < walk.len()
    &&& walk[0] == lo
    &&& forall|i: int| 0 <= i < walk.len() ==> stands(data, #[trigger] walk[i], hi)
    &&& forall|i: int|
        0 < i < walk.len() ==> #[trigger] walk[i] == walk[i - 1] + word_at(data, walk[i - 1])
}

/// Whether each walk of the path, but for the first, which goes from `lo` to
/// `hi`, goes over what stands in the box at which the walk before it ends. Only
/// the last of these boxes has the type `target`, and none has the type `mdat`
/// or `skip`, unless it is the last one.
pub open spec fn is_path(
    data: Seq<u8>,
    lo: int,
    hi: int,
    target: Seq<u8>,
    path: Seq<Seq<int>>,
) -> bool
    decreases path.len(),
{
    &&& 0 < path.len()
    &&& is_walk(data, lo, hi, path[0])
    &&& if path.len() == 1 {
        kind_at(data, path[0].last()) == target
    } else {
        let at = path[0].last();
        &&& kind_at(data, at) != target
        &&& kind_at(data, at) != seq![0x6du8, 0x64, 0x61, 0x74]
        &&& kind_at(data, at) != seq![0x73u8, 0x6b, 0x69, 0x70]
        &&& is_path(data, at + 8, at + word_at(data, at), target, path.drop_first())
    }
}

/// The size and the type of a box are the number in its first four bytes and the
/// four bytes behind them.
pub proof fn law_box_header(data: Seq<u8>, at: int)
    requires
        0 <= at,
        at + 8 <= data.len(),
    ensures
        box_size(data, at) == word_at(data, at),
        box_type(data, at) == kind_at(data, at),
{
    assert(box_type(data, at) =~= kind_at(data, at));
}

/// The box types, as text.
pub proof fn law_box_types()
    ensures
        FTYP@ == seq![0x66u8, 0x74, 0x79, 0x70],
        MDAT@ == seq![0x6du8, 0x64, 0x61, 0x74],
        SKIP@ == seq![0x73u8, 0x6b, 0x69, 0x70],
        STCO@ == seq![0x73u8, 0x74, 0x63, 0x6f],
        CO64@ == seq![0x63u8, 0x6f, 0x36, 0x34],
{
    assert(FTYP@ =~= seq![0x66u8, 0x74, 0x79, 0x70]);
    assert(MDAT@ =~= seq![0x6du8, 0x64, 0x61, 0x74]);
    assert(SKIP@ =~= seq![0x73u8, 0x6b, 0x69, 0x70]);
    assert(STCO@ =~= seq![0x73u8, 0x74, 0x63, 0x6f]);
    assert(CO64@ =~= seq![0x63u8, 0x6f, 0x36, 0x34]);
}

/// A search is complete: every box of the type searched for that a path leads to
/// is found, whatever the types of the boxes on the way are, with its size and
/// its index.
pub proof fn law_search_complete(
    data: Seq<u8>,
    lo: int,
    hi: int,
    target: Seq<u8>,
    path: Seq<Seq<int>>,
) -> (k: int)
    requires
        0 <= lo,
        hi <= data.len() <= usize::MAX,
        is_path(data, lo, hi, target, path),
    ensures
        ({
            let found = boxes_in(data, lo, hi, target);
            let at = path.last().last();
            &&& 0 <= k < found.len()
            &&& found[k].0 == word_at(data, at)
            &&& found[k].1 == at
        }),
    decreases hi - lo,
{
    let walk = path[0];
    let size = word_at(data, lo);
    let here = boxes_here(data, lo, hi, target);
    assert(stands(data, walk[0], hi));
    law_box_header(data, lo);
    law_box_types();
    assert(whole_box_at(data, lo, hi));
    if walk.len() > 1 {
        let rest = walk.drop_first();
        let other = path.update(0, rest);
        assert(walk[1] == lo + size);
        assert(is_walk(data, lo + size, hi, rest)) by {
            assert forall|i: int| 0 <= i < rest.len() implies stands(data, #[trigger] rest[i], hi) by {
                assert(rest[i] == walk[i + 1]);
            }
            assert forall|i: int| 0 < i < rest.len() implies #[trigger] rest[i] == rest[i - 1]
                + word_at(data, rest[i - 1]) by {
                assert(rest[i] == walk[i + 1] && rest[i - 1] == walk[i]);
            }
        }
        assert(rest.last() == walk.last());
        assert(other.drop_first() =~= path.drop_first());
        assert(is_path(data, lo + size, hi, target, other));
        let k = law_search_complete(data, lo + size, hi, target, other);
        assert(boxes_in(data, lo, hi, target)[here.len() + k] == boxes_in(
            data,
            lo + size,
            hi,
            target,
        )[k]);
        here.len() + k
    } else if path.len() == 1 {
        assert(here[0].1 == lo);
        0
    } else {
        let inner = path.drop_first();
        assert(walk.last() == lo);
        assert(is_path(data, lo + 8, lo + size, target, inner));
        reveal_with_fuel(is_path, 2);
        assert(is_walk(data, lo + 8, lo + size, inner[0]));
        assert(stands(data, inner[0][0], lo + size));
        let k = law_search_complete(data, lo + 8, lo + size, target, inner);
        assert(inner.last() == path.last());
        assert(here == boxes_in(data, lo + 8, lo + size, target));
        assert(boxes_in(data, lo, hi, target)[k] == here[k]);
        k
    }
}

/// A search comes by nothing else: a path leads to every box that is found.
pub proof fn law_search_sound(data: Seq<u8>, lo: int, hi: int, target: Seq<u8>, k: int) -> (path:
    Seq<Seq<int>>)
    requires
        0 <= lo,
        hi <= data.len() <= usize::MAX,
        0 <= k < boxes_in(data, lo, hi, target).len(),
    ensures
        is_path(data, lo, hi, target, path),
        boxes_in(data, lo, hi, target)[k].0 == word_at(data, path.last().last()),
        boxes_in(data, lo, hi, target)[k].1 == path.last().last(),
    decreases hi - lo,
{
    let size = word_at(data, lo);
    let here = boxes_here(data, lo, hi, target);
    assert(whole_box_at(data, lo, hi));
    law_box_header(data, lo);
    law_box_types();
    assert(stands(data, lo, hi));
    let first = seq![lo];
    assert(is_walk(data, lo, hi, first));
    if k >= here.len() {
        let other = law_search_sound(data, lo + size, hi, target, k - here.len());
        let walk = first + other[0];
        let path = other.update(0, walk);
        assert(boxes_in(data, lo, hi, target)[k] == boxes_in(data, lo + size, hi, target)[k
            - here.len()]);
        assert(is_walk(data, lo, hi, walk)) by {
            assert forall|i: int| 0 <= i < walk.len() implies stands(data, #[trigger] walk[i], hi) by {
                if i > 0 {
                    assert(walk[i] == other[0][i - 1]);
                }
            }
            assert forall|i: int| 0 < i < walk.len() implies #[trigger] walk[i] == walk[i - 1]
                + word_at(data, walk[i - 1]) by {
                assert(walk[i] == other[0][i - 1]);
                if i > 1 {
                    assert(walk[i - 1] == other[0][i - 2]);
                }
            }
        }
        assert(walk.last() == other[0].last());
        assert(path.drop_first() =~= other.drop_first());
        path
    } else if box_type(data, lo) == target {
        let path = seq![first];
        assert(boxes_in(data, lo, hi, target)[k] == here[0]);
        path
    } else {
        let inner = law_search_sound(data, lo + 8, lo + size, target, k);
        let path = seq![first] + inner;
        assert(boxes_in(data, lo, hi, target)[k] == here[k]);
        assert(path.drop_first() =~= inner);
        assert(path.last() == inner.last());
        path
    }
}

/// The `skip` box holds, behind its size and its type, the HTML part and then
/// the image, and nothing else.
pub proof fn law_skip_box(html: Seq<u8>, png: Seq<u8>)
    requires
        8 + html.len() + png.len() <= u32::MAX,
    ensures
        ({
            let b = skip_box(html, png);
            &&& b.len() == 8 + html.len() + png.len()
            &&& word_at(b, 0) == b.len()
            &&& kind_at(b, 0) == seq![0x73u8, 0x6b, 0x69, 0x70]
            &&& b.subrange(8, 8 + html.len() as int) == html
            &&& b.skip(8 + html.len() as int) == png
        }),
{
    let b = skip_box(html, png);
    crate::laws::lemma_skip_box_head(html, png);
    law_box_types();
    assert(kind_at(b, 0) =~= b.subrange(4, 8));
    assert(b.subrange(8, 8 + html.len() as int) =~= html);
    assert(b.skip(8 + html.len() as int) =~= png);
}

} // verus!
