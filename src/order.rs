use vstd::prelude::*;

verus! {

/// What a composited item of the object pass draws.
#[derive(Debug, Clone, Copy, PartialEq, Eq, Structural)]
pub enum ItemKind {
    /// A sprite placement, by its index among the placements.
    Sprite,
    /// A tiled-object stack, by its index among the stacks.
    TiledObject,
}

/// One item of the object pass: its ground-anchor Y, what it draws, and its
/// position `seq` in the list before ordering.
#[derive(Debug, Clone, Copy, PartialEq, Eq, Structural)]
pub struct RenderItem {
    pub ground_y: i64,
    pub kind: ItemKind,
    pub index: usize,
    pub seq: usize,
}

/// `a` is painted before `b`: a lower anchor first, equal anchors in list order.
pub open spec fn paints_before(a: RenderItem, b: RenderItem) -> bool {
    a.ground_y < b.ground_y || (a.ground_y == b.ground_y && a.seq < b.seq)
}

/// Items in strictly increasing paint order.
pub open spec fn in_paint_order(s: Seq<RenderItem>) -> bool {
    forall|i: int, j: int| 0 <= i < j < s.len() ==> paints_before(#[trigger] s[i], #[trigger] s[j])
}

/// Items listed with increasing `seq`.
pub open spec fn seq_increasing(s: Seq<RenderItem>) -> bool {
    forall|i: int, j: int| 0 <= i < j < s.len() ==> (#[trigger] s[i]).seq < (#[trigger] s[j]).seq
}

/// Orders the items of the object pass by ground anchor, ascending; items with
/// equal anchors keep their order. The result holds the same items.
pub fn order_by_anchor(items: &Vec<RenderItem>) -> (r: Vec<RenderItem>)
    requires
        seq_increasing(items@),
    ensures
        r@.len() == items@.len(),
        in_paint_order(r@),
        r@.to_set() == items@.to_set(),
{
    let mut out: Vec<RenderItem> = Vec::new();
    let mut k: usize = 0;
    while k < items.len()
        invariant
            k <= items@.len(),
            seq_increasing(items@),
            out@.len() == k,
            in_paint_order(out@),
            out@.to_set() == items@.subrange(0, k as int).to_set(),
            forall|i: int| 0 <= i < out@.len() ==> exists|j: int| 0 <= j < k && #[trigger] out@[i] == items@[j],
        decreases items@.len() - k,
    {
        let item = items[k];
        let mut j: usize = 0;
        while j < out.len() && out[j].ground_y <= item.ground_y
            invariant
                j <= out@.len(),
                forall|q: int| 0 <= q < j ==> (#[trigger] out@[q]).ground_y <= item.ground_y,
            decreases out@.len() - j,
        {
            j = j + 1;
        }
        proof {
            assert forall|q: int| 0 <= q < out@.len() implies (#[trigger] out@[q]).seq < item.seq by {
                let w = choose|w: int| 0 <= w < k && out@[q] == items@[w];
                assert(items@[w].seq < items@[k as int].seq);
            }
            if j < out@.len() {
                assert(out@[j as int].ground_y > item.ground_y);
                assert forall|q: int| j <= q < out@.len() implies (#[trigger] out@[q]).ground_y > item.ground_y by {
                    if q > j {
                        assert(paints_before(out@[j as int], out@[q]));
                    }
                }
            }
        }
        let ghost before = out@;
        out.insert(j, item);
        proof {
            assert(out@ == before.insert(j as int, item));
            assert forall|a: int, b: int| 0 <= a < b < out@.len() implies paints_before(#[trigger] out@[a], #[trigger] out@[b]) by {
                if a < j && b < j {
                    assert(paints_before(before[a], before[b]));
                } else if a < j && b == j {
                } else if a < j && b > j {
                    assert(paints_before(before[a], before[b - 1]));
                } else if a == j {
                } else {
                    assert(paints_before(before[a - 1], before[b - 1]));
                }
            }
            assert(items@.subrange(0, k as int + 1) == items@.subrange(0, k as int).push(item));
            items@.subrange(0, k as int).lemma_push_to_set_commute(item);
            assert(out@.to_set() =~= before.to_set().insert(item)) by {
                assert forall|x: RenderItem| out@.to_set().contains(x) implies before.to_set().insert(item).contains(x) by {
                    let w = choose|w: int| 0 <= w < out@.len() && out@[w] == x;
                    if w < j {
                        assert(before[w] == x);
                    } else if w > j {
                        assert(before[w - 1] == x);
                    }
                }
                assert forall|x: RenderItem| before.to_set().insert(item).contains(x) implies out@.to_set().contains(x) by {
                    if x == item {
                        assert(out@[j as int] == x);
                    } else {
                        let w = choose|w: int| 0 <= w < before.len() && before[w] == x;
                        if w < j {
                            assert(out@[w] == x);
                        } else {
                            assert(out@[w + 1] == x);
                        }
                    }
                }
            }
            assert forall|i: int| 0 <= i < out@.len() implies exists|w: int| 0 <= w < k + 1 && #[trigger] out@[i] == items@[w] by {
                if i < j {
                    assert(out@[i] == before[i]);
                } else if i == j {
                    assert(out@[i] == items@[k as int]);
                } else {
                    assert(out@[i] == before[i - 1]);
                }
            }
        }
        k = k + 1;
    }
    proof {
        assert(items@.subrange(0, items@.len() as int) == items@);
    }
    out
}

/// Painting order never decreases in ground anchor: of any two items, the one
/// painted earlier does not stand lower on the map than the one painted later.
pub proof fn lemma_paint_order_anchor_monotone(s: Seq<RenderItem>, i: int, j: int)
    requires
        in_paint_order(s),
        0 <= i < j < s.len(),
    ensures
        s[i].ground_y <= s[j].ground_y,
{
    assert(paints_before(s[i], s[j]));
}

/// Of two items whose anchors differ, the one with the lower anchor is painted
/// first, so the nearer item covers it.
pub proof fn lemma_lower_anchor_painted_first(s: Seq<RenderItem>, i: int, j: int)
    requires
        in_paint_order(s),
        0 <= i < s.len(),
        0 <= j < s.len(),
        s[i].ground_y < s[j].ground_y,
    ensures
        i < j,
{
    if j < i {
        assert(paints_before(s[j], s[i]));
    }
}

} // verus!
