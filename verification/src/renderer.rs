//! Draw submission: cameras registered for the frame and a queue of textured
//! quads, handed out in a deterministic order.
//!
//! Every queued command carries a [`RenderOrder`]; `present` sorts by
//! `(layer, order, seq)` where `seq` is the insertion sequence within the
//! frame, so commands with equal layer and order keep their submission order.

use vstd::prelude::*;
use crate::image::Frame;
use crate::math::{Rect, Transform};

verus! {

/// An RGBA color with 8-bit channels.
#[derive(Clone, Copy, Debug, PartialEq, Eq, Structural)]
pub struct Color {
    pub r: u8,
    pub g: u8,
    pub b: u8,
    pub a: u8,
}

impl Color {
    pub fn new(r: u8, g: u8, b: u8, a: u8) -> (c: Color)
        ensures
            c == (Color { r, g, b, a }),
    {
        Color { r, g, b, a }
    }

    /// Opaque black, the default camera background.
    pub fn black() -> (c: Color)
        ensures
            c == (Color { r: 0u8, g: 0u8, b: 0u8, a: 255u8 }),
    {
        Color { r: 0, g: 0, b: 0, a: 255 }
    }
}

/// The sort key of a draw command. `seq` is assigned by the queue at
/// submission time and breaks ties between equal `(layer, order)` keys.
#[derive(Clone, Copy, Debug, PartialEq, Eq, Structural)]
pub struct RenderOrder {
    pub layer: i32,
    pub order: i32,
    pub seq: u64,
}

impl RenderOrder {
    pub fn new(layer: i32, order: i32) -> (r: RenderOrder)
        ensures
            r == (RenderOrder { layer, order, seq: 0u64 }),
    {
        RenderOrder { layer, order, seq: 0 }
    }
}

/// The total order draw commands are submitted in: by layer, then order,
/// then insertion sequence.
pub open spec fn order_le(a: RenderOrder, b: RenderOrder) -> bool {
    if a.layer != b.layer {
        a.layer < b.layer
    } else if a.order != b.order {
        a.order < b.order
    } else {
        a.seq <= b.seq
    }
}

fn order_le_exec(a: &RenderOrder, b: &RenderOrder) -> (r: bool)
    ensures
        r == order_le(*a, *b),
{
    if a.layer != b.layer {
        a.layer < b.layer
    } else if a.order != b.order {
        a.order < b.order
    } else {
        a.seq <= b.seq
    }
}

/// A camera registered for the current frame: the world region it shows, the
/// clear color behind it, and the view transform (the inverse of the camera
/// entity's world transform).
pub struct RenderCamera {
    pub region: Rect,
    pub background: Color,
    pub transform: Transform,
}

impl RenderCamera {
    pub fn new(region: Rect) -> (c: RenderCamera)
        ensures
            c.region == region,
            c.background == (Color { r: 0u8, g: 0u8, b: 0u8, a: 255u8 }),
            c.transform == (Transform { pos: crate::math::Vector { x: 0i64, y: 0i64 } }),
    {
        RenderCamera { region, background: Color::black(), transform: Transform::identity() }
    }

    pub fn region(&self) -> (r: &Rect)
        ensures
            r == self.region,
    {
        &self.region
    }

    pub fn set_region(&mut self, region: Rect)
        ensures
            *final(self) == (RenderCamera { region, ..*old(self) }),
    {
        self.region = region;
    }

    pub fn background(&self) -> (r: Color)
        ensures
            r == self.background,
    {
        self.background
    }

    pub fn set_background(&mut self, background: Color)
        ensures
            *final(self) == (RenderCamera { background, ..*old(self) }),
    {
        self.background = background;
    }

    pub fn transform(&self) -> (r: Transform)
        ensures
            r == self.transform,
    {
        self.transform
    }

    pub fn set_transform(&mut self, transform: Transform)
        ensures
            *final(self) == (RenderCamera { transform, ..*old(self) }),
    {
        self.transform = transform;
    }
}

/// One textured quad: where it goes in the world, the destination rectangle
/// relative to that placement, and the frame to texture it with.
pub struct DrawCommand {
    pub transform: Transform,
    pub dst: Rect,
    pub frame: Frame,
}

/// Per-frame render state: the cameras seen this frame and the queued draw
/// commands, not yet ordered.
pub struct RenderContext {
    pub cameras: Vec<RenderCamera>,
    pub drawables: Vec<(RenderOrder, DrawCommand)>,
}

impl RenderContext {
    /// Sequence numbers record submission order within the frame.
    pub open spec fn seq_wf(self) -> bool {
        forall|i: int| 0 <= i < self.drawables@.len() ==> #[trigger] self.drawables@[i].0.seq == i
    }

    pub fn new() -> (c: RenderContext)
        ensures
            c.cameras@.len() == 0,
            c.drawables@.len() == 0,
            c.seq_wf(),
    {
        RenderContext { cameras: Vec::new(), drawables: Vec::new() }
    }

    pub fn add_camera(&mut self, camera: RenderCamera)
        ensures
            final(self).cameras@ == old(self).cameras@.push(camera),
            final(self).drawables@ == old(self).drawables@,
    {
        self.cameras.push(camera);
    }

    /// Forgets the previous frame's cameras.
    pub fn clear_camera(&mut self)
        ensures
            final(self).cameras@.len() == 0,
            final(self).drawables@ == old(self).drawables@,
    {
        self.cameras.clear();
    }

    pub fn cameras(&self) -> (r: &Vec<RenderCamera>)
        ensures
            r == self.cameras,
    {
        &self.cameras
    }

    /// Queues a draw command; the order's sequence number is replaced by the
    /// command's position in the submission sequence of this frame.
    pub fn push(&mut self, order: RenderOrder, cmd: DrawCommand)
        requires
            old(self).seq_wf(),
        ensures
            final(self).seq_wf(),
            final(self).cameras@ == old(self).cameras@,
            final(self).drawables@ == old(self).drawables@.push(
                (
                    RenderOrder {
                        layer: order.layer,
                        order: order.order,
                        seq: old(self).drawables@.len() as u64,
                    },
                    cmd,
                ),
            ),
    {
        let seq = self.drawables.len() as u64;
        let stamped = RenderOrder { layer: order.layer, order: order.order, seq };
        self.drawables.push((stamped, cmd));
    }

    /// Empties the queue and hands the commands out sorted by their render
    /// order; with the sequence numbers distinct, this order is unique, so
    /// commands sharing a layer and order come out in submission order.
    pub fn present(&mut self) -> (out: Vec<(RenderOrder, DrawCommand)>)
        ensures
            final(self).cameras@ == old(self).cameras@,
            final(self).drawables@.len() == 0,
            final(self).seq_wf(),
            out@.to_multiset() == old(self).drawables@.to_multiset(),
            forall|a: int, b: int|
                0 <= a < b < out@.len() ==> order_le(#[trigger] out@[a].0, #[trigger] out@[b].0),
    {

        let mut src: Vec<(RenderOrder, DrawCommand)> = Vec::new();
        core::mem::swap(&mut self.drawables, &mut src);
        let mut out: Vec<(RenderOrder, DrawCommand)> = Vec::new();
        proof {
            broadcast use vstd::multiset::group_multiset_axioms;

            out@.to_multiset_ensures();
            vstd::multiset::lemma_multiset_empty_len(out@.to_multiset());
            assert(out@.to_multiset().add(src@.to_multiset()) =~= src@.to_multiset());
        }
        loop
            invariant
                forall|a: int, b: int|
                    0 <= a < b < out@.len() ==> order_le(#[trigger] out@[a].0, #[trigger] out@[b].0),
                out@.to_multiset().add(src@.to_multiset()) == old(self).drawables@.to_multiset(),
            ensures
                forall|a: int, b: int|
                    0 <= a < b < out@.len() ==> order_le(#[trigger] out@[a].0, #[trigger] out@[b].0),
                out@.to_multiset() == old(self).drawables@.to_multiset(),
            decreases src@.len(),
        {
            let ghost pre_src = src@;
            let item = match src.pop() {
                None => {
                    proof {
                        broadcast use vstd::multiset::group_multiset_axioms;

                        src@.to_multiset_ensures();
                        vstd::multiset::lemma_multiset_empty_len(src@.to_multiset());
                        assert(out@.to_multiset().add(src@.to_multiset()) =~= out@.to_multiset());
                    }
                    break ;
                },
                Some(item) => item,
            };
            proof {
                broadcast use vstd::multiset::group_multiset_axioms;

                assert(pre_src =~= src@.push(item));
                vstd::seq_lib::to_multiset_build(src@, item);
                assert(out@.to_multiset().add(src@.to_multiset().insert(item))
                    =~= out@.to_multiset().insert(item).add(src@.to_multiset()));
            }
            let pos = insert_position(&out, &item.0);
            let ghost pre_out = out@;
            out.insert(pos, item);
            proof {
                vstd::seq_lib::to_multiset_insert(pre_out, pos as int, item);
                let s = pre_out.insert(pos as int, item);
                assert forall|a: int, b: int| 0 <= a < b < s.len() implies order_le(
                    #[trigger] s[a].0,
                    #[trigger] s[b].0,
                ) by {
                    if a == pos && pos < pre_out.len() {
                        assert(order_le(item.0, pre_out[pos as int].0));
                        assert(s[b] == pre_out[b - 1]);
                        if b - 1 > pos {
                            assert(order_le(pre_out[pos as int].0, pre_out[b - 1].0));
                        }
                    } else if b == pos {
                        assert(s[a] == pre_out[a]);
                        assert(order_le(pre_out[a].0, item.0));
                    }
                }
            }
        }
        out
    }
}

/// The position where `key` belongs in a queue sorted by `order_le`: all
/// earlier entries are at or below it, the entry at the position (if any) is
/// strictly above it.
fn insert_position(out: &Vec<(RenderOrder, DrawCommand)>, key: &RenderOrder) -> (pos: usize)
    requires
        forall|a: int, b: int|
            0 <= a < b < out@.len() ==> order_le(#[trigger] out@[a].0, #[trigger] out@[b].0),
    ensures
        pos <= out@.len(),
        forall|k: int| 0 <= k < pos ==> order_le(#[trigger] out@[k].0, *key),
        pos < out@.len() ==> order_le(*key, out@[pos as int].0),
{
    let mut pos: usize = 0;
    while pos < out.len()
        invariant
            pos <= out@.len(),
            forall|k: int| 0 <= k < pos ==> order_le(#[trigger] out@[k].0, *key),
        decreases out@.len() - pos,
    {
        if !order_le_exec(&out[pos].0, key) {
            return pos;
        }
        pos = pos + 1;
    }
    pos
}

/// Commands that share a layer and an order keep their submission order: in a
/// sorted queue whose sequence numbers are distinct, the earlier-submitted
/// command sits strictly before the later one.
pub proof fn lemma_draw_order_stable(
    s: Seq<(RenderOrder, DrawCommand)>,
    i: int,
    j: int,
)
    requires
        forall|a: int, b: int|
            0 <= a < b < s.len() ==> order_le(#[trigger] s[a].0, #[trigger] s[b].0),
        0 <= i < j < s.len(),
        s[i].0.layer == s[j].0.layer,
        s[i].0.order == s[j].0.order,
        s[i].0.seq != s[j].0.seq,
    ensures
        s[i].0.seq < s[j].0.seq,
{
    assert(order_le(s[i].0, s[j].0));
}

} // verus!
