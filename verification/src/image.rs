//! Decoded images and the frames cut out of them. Decoding itself is the
//! codec's business; the engine receives finished pixel data.

use vstd::prelude::*;

use crate::asset::AssetRef;
use crate::math::{Rect, Vector};

verus! {

/// An asset type names itself for diagnostics.
pub trait Asset {
    fn name() -> &'static str;
}

/// A decoded image: its pixel data, four bytes per pixel, rows bottom-up.
pub struct Image {
    pub id: u64,
    pub w: i64,
    pub h: i64,
    pub data: Vec<u8>,
}

impl Image {
    /// The dimensions are non-negative and the data holds exactly four bytes
    /// per pixel.
    pub open spec fn wf(self) -> bool {
        0 <= self.w && 0 <= self.h && self.data@.len() == 4 * self.w * self.h
    }

    pub fn new(id: u64, w: i64, h: i64, data: Vec<u8>) -> (img: Image)
        requires
            0 <= w,
            0 <= h,
            data@.len() == 4 * w * h,
        ensures
            img == (Image { id, w, h, data }),
            img.wf(),
    {
        Image { id, w, h, data }
    }

    pub fn id(&self) -> (r: u64)
        ensures
            r == self.id,
    {
        self.id
    }

    pub fn size(&self) -> (r: (i64, i64))
        ensures
            r == (self.w, self.h),
    {
        (self.w, self.h)
    }

    pub fn data(&self) -> (r: &[u8])
        ensures
            r@ == self.data@,
    {
        self.data.as_slice()
    }
}

impl Asset for Image {
    fn name() -> &'static str {
        "Image"
    }
}

/// A rectangular cut of a shared image, with the anchor the renderer should
/// pin it by.
pub struct Frame {
    pub image: AssetRef<Image>,
    pub region: Rect,
    pub anchor: Vector,
}

impl Frame {
    pub fn new(image: AssetRef<Image>, region: Rect) -> (f: Frame)
        ensures
            f.image == image,
            f.region == region,
            f.anchor == (Vector { x: 0i64, y: 0i64 }),
    {
        Frame { image, region, anchor: Vector { x: 0, y: 0 } }
    }

    pub fn image(&self) -> (r: &AssetRef<Image>)
        ensures
            r == self.image,
    {
        &self.image
    }

    pub fn region(&self) -> (r: &Rect)
        ensures
            r == self.region,
    {
        &self.region
    }

    pub fn set_region(&mut self, region: Rect)
        ensures
            *final(self) == (Frame { region, ..*old(self) }),
    {
        self.region = region;
    }

    pub fn anchor(&self) -> (r: Vector)
        ensures
            r == self.anchor,
    {
        self.anchor
    }

    pub fn set_anchor(&mut self, anchor: Vector)
        ensures
            *final(self) == (Frame { anchor, ..*old(self) }),
    {
        self.anchor = anchor;
    }
}

impl Clone for Frame {
    fn clone(&self) -> (r: Self)
        ensures
            r == *self,
    {
        Frame { image: self.image.clone(), region: self.region, anchor: self.anchor }
    }
}

} // verus!
