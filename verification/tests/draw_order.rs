use hammer_core::asset::AssetRef;
use hammer_core::image::{Frame, Image};
use hammer_core::math::{Rect, Transform, Vector};
use hammer_core::renderer::{DrawCommand, RenderCamera, RenderContext, RenderOrder};

fn command(tag: i64) -> DrawCommand {
    let image = AssetRef::new(Image::new(tag as u64, 1, 1, vec![0u8; 4]));
    DrawCommand {
        transform: Transform { pos: Vector { x: tag, y: 0 } },
        dst: Rect::with_min_size(Vector { x: 0, y: 0 }, Vector { x: 1, y: 1 }),
        frame: Frame::new(image, Rect::with_min_size(Vector { x: 0, y: 0 }, Vector { x: 1, y: 1 })),
    }
}

#[test]
fn present_sorts_by_layer_then_order() {
    let mut ctx = RenderContext::new();
    ctx.push(RenderOrder::new(1, 0), command(10));
    ctx.push(RenderOrder::new(0, 5), command(20));
    ctx.push(RenderOrder::new(0, 2), command(30));
    let out = ctx.present();
    let tags: Vec<i64> = out.iter().map(|p| p.1.transform.pos.x).collect();
    assert_eq!(tags, vec![30, 20, 10]);
    assert!(ctx.drawables.is_empty());
}

#[test]
fn equal_keys_keep_submission_order() {
    let mut ctx = RenderContext::new();
    ctx.push(RenderOrder::new(0, 0), command(1));
    ctx.push(RenderOrder::new(0, 0), command(2));
    ctx.push(RenderOrder::new(0, 0), command(3));
    let out = ctx.present();
    let tags: Vec<i64> = out.iter().map(|p| p.1.transform.pos.x).collect();
    assert_eq!(tags, vec![1, 2, 3]);
    // the stamped sequence numbers are the submission positions
    let seqs: Vec<u64> = out.iter().map(|p| p.0.seq).collect();
    assert_eq!(seqs, vec![0, 1, 2]);
}

#[test]
fn sequence_numbering_restarts_each_frame() {
    let mut ctx = RenderContext::new();
    ctx.push(RenderOrder::new(0, 0), command(1));
    ctx.present();
    ctx.push(RenderOrder::new(0, 0), command(2));
    assert_eq!(ctx.drawables[0].0.seq, 0);
}

#[test]
fn camera_list_is_cleared_and_rebuilt() {
    let mut ctx = RenderContext::new();
    ctx.add_camera(RenderCamera::new(Rect::with_min_size(
        Vector { x: 0, y: 0 },
        Vector { x: 100, y: 100 },
    )));
    assert_eq!(ctx.cameras().len(), 1);
    ctx.clear_camera();
    assert_eq!(ctx.cameras().len(), 0);
}
