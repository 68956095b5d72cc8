//! The buffers of a frame: how large they are, when they are made anew, and how they are filled.

use super::frame;
use crate::math;
use crate::math::UVec2;
use crate::shaders::pyramid;
use crate::shaders::pyramid::DepthPyramidMip;
use crate::shaders::pyramid::DepthPyramidPushConstants;
use vstd::prelude::*;

verus! {

/// The number of nodes that rays are traced through at most.
pub const MAX_RT_NODES: usize = 65536;

/// The number of primitives that rays are traced through at most.
pub const MAX_RT_PRIMITIVES: usize = 65536;

/// The number of bytes of a cluster.
pub const VISIBLE_CLUSTER_SIZE: u64 = 48;

/// The number of bytes of the arguments of a draw.
pub const INDIRECT_BUFFER_SIZE: u64 = 16;

/// The number of bytes of a depth.
pub const DEPTH_PYRAMID_TEXEL_SIZE: u64 = 4;

/// The number of bytes of a parameter set.
pub const MESH_UNIFORM_SIZE: u64 = 176;

/// The number of bytes of a model that rays meet.
pub const RT_MODEL_SIZE: u64 = 112;

/// The number of bytes of a node.
pub const RT_NODE_SIZE: u64 = 80;

/// The number of bytes that are written to a buffer without staging, at most.
pub const MAX_INLINE_UPLOAD: usize = 65536;

/// What becomes of the buffers once the image has an extent.
#[derive(Clone, Copy, Debug, PartialEq, Eq, Structural)]
pub enum ResourceAction {
    /// There are none: they are made.
    Create,
    /// They are for another extent: those that depend on it are made anew.
    Resize,
    /// They stay.
    Keep,
}

/// What becomes of the buffers, given the extent they are for, where there are some.
pub fn ensure_mesh_resources(current: Option<UVec2>, extent: UVec2) -> (r: ResourceAction)
    ensures
        r == ResourceAction::Create <==> current is None,
        r == ResourceAction::Keep <==> current == Some(extent),
{
    match current {
        None => ResourceAction::Create,
        Some(known) => {
            if known == extent {
                ResourceAction::Keep
            } else {
                ResourceAction::Resize
            }
        },
    }
}

/// The number of bytes of each buffer.
#[derive(Clone, Copy, Debug, PartialEq, Eq, Structural)]
pub struct BufferSizes {
    pub clusters: u64,
    pub indirect: u64,
    pub params: u64,
    pub rt_nodes: u64,
    pub rt_primitive_to_model: u64,
    pub rt_models: u64,
    pub depth_pyramid: u64,
}

/// The number of bytes of each buffer, given the levels of the depth pyramid.
pub fn buffer_sizes(mips: &Vec<DepthPyramidMip>) -> (r: BufferSizes)
    requires
        mips@.len() > 0 ==> mips@.last().offset + mips@.last().width * mips@.last().height
            <= 0x3fff_ffff_ffff_ffff,
    ensures
        r.clusters == 2097152 * 48,
        r.indirect == 16,
        r.params == 4096 * 176,
        r.rt_nodes == 65536 * 80,
        r.rt_primitive_to_model == 65536 * 4,
        r.rt_models == 4096 * 112,
        r.depth_pyramid == (if mips@.len() == 0 {
            4int
        } else {
            (mips@.last().offset + mips@.last().width * mips@.last().height) * 4
        }),
{
    let depth_pyramid: u64 = if mips.len() == 0 {
        DEPTH_PYRAMID_TEXEL_SIZE
    } else {
        let mip: DepthPyramidMip = mips[mips.len() - 1];
        proof {
            assert(0 <= mip.width * mip.height) by (nonlinear_arith);
        }
        (mip.offset as u64 + mip.width as u64 * mip.height as u64) * DEPTH_PYRAMID_TEXEL_SIZE
    };
    BufferSizes {
        clusters: frame::MAX_VISIBLE_CLUSTERS as u64 * VISIBLE_CLUSTER_SIZE,
        indirect: INDIRECT_BUFFER_SIZE,
        params: frame::MAX_MESH_PARAMS as u64 * MESH_UNIFORM_SIZE,
        rt_nodes: MAX_RT_NODES as u64 * RT_NODE_SIZE,
        rt_primitive_to_model: MAX_RT_PRIMITIVES as u64 * 4,
        rt_models: frame::MAX_MESH_PARAMS as u64 * RT_MODEL_SIZE,
        depth_pyramid,
    }
}

/// All levels of a pyramid lie in its buffer, as long as the depths can be counted.
pub proof fn law_pyramid_buffer_holds_levels(mips: Seq<DepthPyramidMip>, extent: UVec2, k: int)
    requires
        0 <= k < mips.len(),
        forall|i: int|
            0 <= i < mips.len() ==> {
                &&& (#[trigger] mips[i]).width == pyramid::level_axis(
                    math::max_of(extent.x, 1),
                    i as nat,
                )
                &&& mips[i].height == pyramid::level_axis(math::max_of(extent.y, 1), i as nat)
                &&& mips[i].offset == pyramid::capped_start(
                    math::max_of(extent.x, 1),
                    math::max_of(extent.y, 1),
                    i as nat,
                )
            },
        pyramid::level_start(
            math::max_of(extent.x, 1),
            math::max_of(extent.y, 1),
            mips.len(),
        ) <= u32::MAX,
    ensures
        mips[k].offset + mips[k].width * mips[k].height <= mips.last().offset + mips.last().width
            * mips.last().height,
{
    let w = math::max_of(extent.x, 1);
    let h = math::max_of(extent.y, 1);
    let last = (mips.len() - 1) as nat;
    pyramid::lemma_level_start_grows(w, h, (k + 1) as nat, mips.len());
    pyramid::lemma_level_start_grows(w, h, k as nat, mips.len());
    pyramid::lemma_level_start_grows(w, h, last, mips.len());
    pyramid::law_level_starts_agree(w, h, k as nat);
    pyramid::law_level_starts_agree(w, h, last);
}

/// The dispatch that fills a level of the pyramid from the one before.
#[derive(Clone, Copy, Debug, PartialEq, Eq, Structural)]
pub struct MipDispatch {
    pub constants: DepthPyramidPushConstants,
    pub groups: UVec2,
}

/// The dispatch that fills level `dst` from level `src`, with a group for each eight by eight
/// depths.
pub open spec fn mip_dispatch(handle: u32, src: DepthPyramidMip, dst: DepthPyramidMip) -> MipDispatch {
    MipDispatch {
        constants: DepthPyramidPushConstants {
            pyramid_handle: handle,
            src_offset: src.offset,
            dst_offset: dst.offset,
            src_width: src.width,
            src_height: src.height,
            dst_width: dst.width,
            dst_height: dst.height,
            _pad: 0,
        },
        groups: UVec2 { x: ((dst.width + 7) / 8) as u32, y: ((dst.height + 7) / 8) as u32 },
    }
}

/// The dispatch for a level reads the level before it and writes the level, and its groups of eight
/// by eight cover the level with none to spare.
pub proof fn law_dispatch_covers_level(handle: u32, src: DepthPyramidMip, dst: DepthPyramidMip)
    ensures
        ({
            let r = mip_dispatch(handle, src, dst);
            &&& r.constants.pyramid_handle == handle
            &&& r.constants.src_offset == src.offset && r.constants.dst_offset == dst.offset
            &&& r.constants.src_width == src.width && r.constants.src_height == src.height
            &&& r.constants.dst_width == dst.width && r.constants.dst_height == dst.height
            &&& dst.width <= r.groups.x * 8 < dst.width + 8
            &&& dst.height <= r.groups.y * 8 < dst.height + 8
        }),
{
}

fn groups_of_eight(n: u32) -> (r: u32)
    ensures
        r == (n + 7) / 8,
{
    if n % 8 == 0 {
        n / 8
    } else {
        n / 8 + 1
    }
}

/// The dispatches that fill the levels of the pyramid, each from the one before.
pub fn mip_dispatches(handle: u32, mips: &Vec<DepthPyramidMip>) -> (r: Vec<MipDispatch>)
    ensures
        r@.len() == (if mips@.len() == 0 {
            0
        } else {
            mips@.len() - 1
        }),
        forall|k: int|
            0 <= k < r@.len() ==> #[trigger] r@[k] == mip_dispatch(handle, mips@[k], mips@[k + 1]),
{
    let mut dispatches: Vec<MipDispatch> = Vec::new();
    let mut mip_index: usize = 1;
    while mip_index < mips.len()
        invariant
            1 <= mip_index,
            mip_index == 1 || mip_index <= mips@.len(),
            dispatches@.len() == mip_index - 1,
            forall|k: int|
                0 <= k < dispatches@.len() ==> #[trigger] dispatches@[k] == mip_dispatch(
                    handle,
                    mips@[k],
                    mips@[k + 1],
                ),
        decreases mips@.len() - mip_index,
    {
        let src: DepthPyramidMip = mips[mip_index - 1];
        let dst: DepthPyramidMip = mips[mip_index];
        dispatches.push(
            MipDispatch {
                constants: DepthPyramidPushConstants {
                    pyramid_handle: handle,
                    src_offset: src.offset,
                    dst_offset: dst.offset,
                    src_width: src.width,
                    src_height: src.height,
                    dst_width: dst.width,
                    dst_height: dst.height,
                    _pad: 0,
                },
                groups: UVec2 { x: groups_of_eight(dst.width), y: groups_of_eight(dst.height) },
            },
        );
        mip_index += 1;
    }
    dispatches
}

/// How a buffer is filled.
#[derive(Clone, Copy, Debug, PartialEq, Eq, Structural)]
pub enum UploadAction {
    /// With zeros, as many as given.
    Clear(usize),
    /// With the data, written at once.
    Inline,
    /// With the data, by way of a staging buffer.
    Staged,
}

/// How a buffer is filled with data of a length.
pub fn upload_params_buffer(len: usize) -> (r: UploadAction)
    ensures
        r == (if len <= MAX_INLINE_UPLOAD {
            UploadAction::Inline
        } else {
            UploadAction::Staged
        }),
        r == UploadAction::Inline <==> len <= 65536,
        r == UploadAction::Staged <==> len > 65536,
{
    if len <= MAX_INLINE_UPLOAD {
        UploadAction::Inline
    } else {
        UploadAction::Staged
    }
}

/// How a buffer is filled with data of a length, or cleared where there is none.
pub fn upload_or_clear_buffer(len: usize, clear_bytes: usize) -> (r: UploadAction)
    ensures
        r == (if len == 0 {
            UploadAction::Clear(clear_bytes)
        } else if len <= MAX_INLINE_UPLOAD {
            UploadAction::Inline
        } else {
            UploadAction::Staged
        }),
{
    if len == 0 {
        UploadAction::Clear(clear_bytes)
    } else {
        upload_params_buffer(len)
    }
}

/// Whether the depths of the frame before may be used, and for which camera they were. The camera's
/// numbers are held as the bits of `f32`s.
#[derive(Clone, Copy, Debug, PartialEq, Eq)]
pub struct DepthHistory {
    pub valid: bool,
    pub camera_axes: Option<[[u32; 4]; 3]>,
}

impl DepthHistory {
    /// No depths may be used.
    pub fn none() -> (r: DepthHistory)
        ensures
            !r.valid,
            r.camera_axes is None,
    {
        DepthHistory { valid: false, camera_axes: None }
    }

    /// Notes the camera of a frame whose depths have been kept.
    pub fn record(&mut self, camera_axes: [[u32; 4]; 3])
        ensures
            final(self).valid,
            final(self).camera_axes == Some(camera_axes),
    {
        self.valid = true;
        self.camera_axes = Some(camera_axes);
    }

    /// Whether the depths may be used, given whether the camera they were for, where it is known,
    /// has hardly moved.
    pub fn usable(&self, camera_matches: bool) -> (r: bool)
        ensures
            r == (self.valid && self.camera_axes is Some && camera_matches),
    {
        self.valid && self.camera_axes.is_some() && camera_matches
    }
}

/// What a frame needs before it can be drawn.
#[derive(Clone, Copy, Debug, PartialEq, Eq, Structural)]
pub struct FrameNeeds {
    /// The extent of the image to draw into, where there is an image.
    pub image_extent: Option<UVec2>,
    /// Whether there is a camera.
    pub camera: bool,
    /// Whether the pipelines that every frame needs are loaded.
    pub pipelines: bool,
    /// Whether the picture is drawn over once more.
    pub pixel_art: bool,
    /// Whether the pipeline for that is loaded.
    pub post_pipeline: bool,
}

/// Whether a frame can be drawn with resources of the given extent. An image of another extent
/// makes the depths of the frame before useless.
pub fn begin_frame(needs: &FrameNeeds, extent: UVec2, history: &mut DepthHistory) -> (r: bool)
    ensures
        r == (needs.image_extent == Some(extent) && needs.camera && needs.pipelines && (
        needs.pixel_art ==> needs.post_pipeline)),
        needs.image_extent is Some && needs.image_extent != Some(extent) ==> !final(history).valid
            && final(history).camera_axes is None,
        needs.image_extent is None || needs.image_extent == Some(extent) ==> *final(history)
            == *old(history),
{
    match needs.image_extent {
        None => false,
        Some(current_extent) => {
            if current_extent != extent {
                *history = DepthHistory::none();
                return false;
            }
            needs.camera && needs.pipelines && (!needs.pixel_art || needs.post_pipeline)
        },
    }
}

} // verus!
