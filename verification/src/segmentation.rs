//! Grapheme clusters: what a reader takes for one character.
use crate::text::{boundary, byte_len, slice, span, text_len};
use unicode_segmentation::UnicodeSegmentation;
use vstd::prelude::*;

verus! {

/// The byte offsets at which the extended grapheme clusters of `text` start.
pub uninterp spec fn grapheme_starts(text: Seq<char>) -> Seq<usize>;

/// Whether `starts` cut a text into clusters that follow each other from its
/// first byte to its last and are never empty.
pub open spec fn starts_tile(text: Seq<char>, starts: Seq<usize>) -> bool {
    &&& byte_len(text) > 0 <==> starts.len() > 0
    &&& starts.len() > 0 ==> starts[0] == 0
    &&& forall|i: int|
        0 <= i < starts.len() ==> boundary(text, (#[trigger] starts[i]) as int) && starts[i]
            < byte_len(text)
    &&& forall|i: int, j: int|
        #![trigger starts[i], starts[j]]
        0 <= i < j < starts.len() ==> starts[i] < starts[j]
}

/// `UnicodeSegmentation::grapheme_indices(text, true)` of `unicode-segmentation`
/// walks the extended grapheme clusters of `text` with their byte offsets. The
/// contract names the offsets and claims that the clusters tile the text: the
/// first starts at byte 0, each is cut off at character boundaries where the
/// one before it ends, and none is empty.
#[verifier::external_body]
pub(crate) fn cluster_starts(text: &str) -> (r: Vec<usize>)
    ensures
        r@ == grapheme_starts(text@),
        starts_tile(text@, r@),
{
    text.grapheme_indices(true).map(|(start, _)| start).collect()
}

/// Where the cluster that starts at `starts[i]` ends.
pub open spec fn cluster_end(starts: Seq<usize>, len: int, i: int) -> int {
    if i + 1 < starts.len() {
        starts[i + 1] as int
    } else {
        len
    }
}

/// The cluster to delete at `position`: the first one that ends behind it, or
/// the last one that starts before it.
pub open spec fn cluster_at(starts: Seq<usize>, len: int, position: int, forward: bool, i: int)
    -> bool {
    &&& 0 <= i < starts.len()
    &&& if forward {
        cluster_end(starts, len, i) > position && forall|k: int|
            0 <= k < i ==> #[trigger] cluster_end(starts, len, k) <= position
    } else {
        starts[i] < position && forall|k: int|
            i < k < starts.len() ==> (#[trigger] starts[k]) >= position
    }
}

/// Finds the cluster to delete at `position` among clusters that start at
/// `starts` in a text of `len` bytes, and gives its first and last byte offset.
pub fn find_cluster(starts: &Vec<usize>, len: usize, position: usize, forward: bool) -> (r: Option<
    (usize, usize),
>)
    ensures
        match r {
            Some((start, end)) => exists|i: int| #[trigger]
                cluster_at(starts@, len as int, position as int, forward, i) && start == starts@[i]
                    && end == cluster_end(starts@, len as int, i),
            None => forall|i: int| !#[trigger]
                cluster_at(starts@, len as int, position as int, forward, i),
        },
{
    if forward {
        let mut i: usize = 0;
        while i < starts.len()
            invariant
                forward,
                i <= starts@.len(),
                forall|k: int|
                    0 <= k < i ==> #[trigger] cluster_end(starts@, len as int, k) <= position,
            decreases starts@.len() - i,
        {
            let end: usize = if i + 1 < starts.len() {
                starts[i + 1]
            } else {
                len
            };
            assert(end == cluster_end(starts@, len as int, i as int));
            if end > position {
                assert(cluster_at(starts@, len as int, position as int, true, i as int));
                return Some((starts[i], end));
            }
            i += 1;
        }
        return None;
    }
    let mut i: usize = starts.len();
    while i > 0
        invariant
            !forward,
            i <= starts@.len(),
            forall|k: int| i <= k < starts@.len() ==> (#[trigger] starts@[k]) >= position,
        decreases i,
    {
        let end: usize = if i < starts.len() {
            starts[i]
        } else {
            len
        };
        if starts[i - 1] < position {
            assert(cluster_at(starts@, len as int, position as int, false, i - 1));
            return Some((starts[i - 1], end));
        }
        i -= 1;
    }
    assert forall|k: int| !#[trigger]
        cluster_at(starts@, len as int, position as int, false, k) by {}
    None
}

/// The cluster of `text` to delete at byte `position`.
pub fn grapheme_at(text: &str, position: usize, forward: bool) -> (r: Option<(usize, usize)>)
    ensures
        match r {
            Some((start, end)) => {
                &&& exists|i: int| #[trigger]
                    cluster_at(
                        grapheme_starts(text@),
                        byte_len(text@),
                        position as int,
                        forward,
                        i,
                    ) && start == grapheme_starts(text@)[i] && end == cluster_end(
                        grapheme_starts(text@),
                        byte_len(text@),
                        i,
                    )
                &&& start < end <= byte_len(text@)
                &&& boundary(text@, start as int)
                &&& boundary(text@, end as int)
            },
            None => if forward {
                position >= byte_len(text@)
            } else {
                position == 0 || byte_len(text@) == 0
            },
        },
{
    let starts = cluster_starts(text);
    let len = text_len(text);
    let found = find_cluster(&starts, len, position, forward);
    proof {
        crate::text::lemma_boundary_ends(text@);
        if found is None && starts@.len() > 0 {
            if forward && position < len {
                lemma_forward_exists(starts@, len as int, position as int);
            }
            if !forward && position > 0 {
                lemma_backward_exists(starts@, len as int, position as int);
            }
        }
    }
    found
}

/// The clusters of `text`, in order.
pub fn graphemes(text: &str) -> (r: Vec<String>)
    ensures
        r@.len() == grapheme_starts(text@).len(),
        forall|i: int|
            0 <= i < r@.len() ==> (#[trigger] r@[i])@ == span(
                text@,
                grapheme_starts(text@)[i] as int,
                cluster_end(grapheme_starts(text@), byte_len(text@), i),
            ),
{
    let starts = cluster_starts(text);
    let len = text_len(text);
    let mut out: Vec<String> = Vec::new();
    let mut i: usize = 0;
    proof {
        crate::text::lemma_boundary_ends(text@);
    }
    while i < starts.len()
        invariant
            i <= starts@.len(),
            starts@ == grapheme_starts(text@),
            starts_tile(text@, starts@),
            boundary(text@, len as int),
            len == byte_len(text@),
            out@.len() == i,
            forall|k: int|
                0 <= k < i ==> (#[trigger] out@[k])@ == span(
                    text@,
                    starts@[k] as int,
                    cluster_end(starts@, len as int, k),
                ),
        decreases starts@.len() - i,
    {
        let end: usize = if i + 1 < starts.len() {
            starts[i + 1]
        } else {
            len
        };
        proof {
            assert(boundary(text@, starts@[i as int] as int));
            if i + 1 < starts@.len() {
                assert(boundary(text@, starts@[i + 1] as int));
                assert(starts@[i as int] < starts@[i + 1]);
            }
        }
        out.push(slice(text, starts[i], end).to_owned());
        i += 1;
    }
    out
}

proof fn lemma_forward_exists(starts: Seq<usize>, len: int, position: int)
    requires
        starts.len() > 0,
        position < len,
    ensures
        exists|i: int| #[trigger] cluster_at(starts, len, position, true, i),
{
    let last = starts.len() - 1;
    lemma_first_reaching(starts, len, position, last);
}

proof fn lemma_first_reaching(starts: Seq<usize>, len: int, position: int, i: int)
    requires
        0 <= i < starts.len(),
        cluster_end(starts, len, i) > position,
    ensures
        exists|i: int| #[trigger] cluster_at(starts, len, position, true, i),
    decreases i,
{
    if exists|k: int| 0 <= k < i && #[trigger] cluster_end(starts, len, k) > position {
        let k = choose|k: int| 0 <= k < i && #[trigger] cluster_end(starts, len, k) > position;
        lemma_first_reaching(starts, len, position, k);
    } else {
        assert(cluster_at(starts, len, position, true, i));
    }
}

proof fn lemma_backward_exists(starts: Seq<usize>, len: int, position: int)
    requires
        starts.len() > 0,
        starts[0] == 0,
        position > 0,
    ensures
        exists|i: int| #[trigger] cluster_at(starts, len, position, false, i),
{
    lemma_last_before(starts, len, position, 0);
}

proof fn lemma_last_before(starts: Seq<usize>, len: int, position: int, i: int)
    requires
        0 <= i < starts.len(),
        starts[i] < position,
    ensures
        exists|i: int| #[trigger] cluster_at(starts, len, position, false, i),
    decreases starts.len() - i,
{
    if exists|k: int| i < k < starts.len() && (#[trigger] starts[k]) < position {
        let k = choose|k: int| i < k < starts.len() && (#[trigger] starts[k]) < position;
        lemma_last_before(starts, len, position, k);
    } else {
        assert(cluster_at(starts, len, position, false, i));
    }
}

/// A deletion takes the cluster next to the position on its side, or the one around it:
/// forward, the one that holds the byte at the position; backward, the one that holds the
/// byte before it. No other cluster does.
pub proof fn law_deleted_cluster_is_at_the_position(
    text: Seq<char>,
    starts: Seq<usize>,
    position: int,
    i: int,
)
    requires
        starts_tile(text, starts),
        0 <= i < starts.len(),
        0 <= position,
    ensures
        cluster_at(starts, byte_len(text), position, true, i) <==> starts[i] <= position
            < cluster_end(starts, byte_len(text), i),
        cluster_at(starts, byte_len(text), position, false, i) && position <= byte_len(text)
            <==> starts[i] <= position - 1 < cluster_end(starts, byte_len(text), i),
{
    let len = byte_len(text);
    if cluster_at(starts, len, position, true, i) && i > 0 {
        assert(cluster_end(starts, len, i - 1) <= position);
    }
    if starts[i] <= position < cluster_end(starts, len, i) {
        assert forall|k: int| 0 <= k < i implies #[trigger] cluster_end(starts, len, k)
            <= position by {
            assert(starts[k + 1] <= starts[i]) by {
                if k + 1 < i {
                    assert(starts[k + 1] < starts[i]);
                }
            }
        }
    }
    if cluster_at(starts, len, position, false, i) && i + 1 < starts.len() {
        assert(starts[i + 1] >= position);
    }
    if starts[i] <= position - 1 < cluster_end(starts, len, i) {
        assert forall|k: int| i < k < starts.len() implies (#[trigger] starts[k]) >= position by {
            if i + 1 < k {
                assert(starts[i + 1] < starts[k]);
            }
        }
        if i + 1 < starts.len() {
            assert(starts[i + 1] < len);
        }
    }
}

} // verus!
