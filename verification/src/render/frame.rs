//! The models, instances and dispatches of a frame.

use super::bounds;
use crate::dense::geometry::DenseVoxelGeometry;
use crate::dense::layout;
use crate::dense::material::DenseVoxelMaterial;
use crate::dense::model::DenseVoxelGpu;
use crate::dense::model::DenseVoxelModel;
use crate::math::UVec2;
use crate::math::UVec3;
use crate::math::UVec4;
use crate::shaders::dense;
use crate::shaders::mesh;
use crate::shaders::mesh::RenderParams;
use crate::shaders::mesh_main;
use crate::shaders::mesh_render::RtDenseModel;
use vstd::prelude::*;

verus! {

/// The number of clusters that a frame has room for.
pub const MAX_VISIBLE_CLUSTERS: u32 = 2097152;

/// The number of parameter sets that a frame has room for.
pub const MAX_MESH_PARAMS: usize = 4096;

/// The number of parameter sets of a frame that are not those of instances.
pub const DISPATCH_PARAMS: usize = 8;

/// The number of vertices of a cluster.
pub const CLUSTER_VERTICES: u32 = 36;

/// The number of blocks that a group of threads looks at.
pub const BLOCKS_PER_GROUP: u32 = 64;

/// The instances of a frame, the models that its rays meet, and how many blocks there are to look
/// at.
pub struct FramePlan {
    pub instances: Vec<RenderParams>,
    pub rt_models: Vec<RtDenseModel>,
    pub total_blocks: u32,
}

/// The number of blocks of the first `n` instances, as far as it can be told.
pub open spec fn block_base(instances: Seq<RenderParams>, n: nat) -> u32
    decreases n,
{
    if n == 0 {
        0
    } else {
        bounds::saturated(
            block_base(instances, (n - 1) as nat) + instances[n - 1].mesh_params.x,
        )
    }
}

/// The number of blocks of the first `n` instances.
pub open spec fn block_sum(instances: Seq<RenderParams>, n: nat) -> nat
    decreases n,
{
    if n == 0 {
        0
    } else {
        block_sum(instances, (n - 1) as nat) + instances[n - 1].mesh_params.x as nat
    }
}

/// The parameters that nothing has been noted in.
pub open spec fn base_params() -> RenderParams {
    RenderParams {
        mesh_params: UVec4 { x: 0, y: MAX_VISIBLE_CLUSTERS, z: 0, w: 0 },
        resource_handles: UVec4 { x: 0, y: 0, z: 0, w: 0 },
        cull_min: UVec4 { x: 0, y: 0, z: 0, w: 0 },
        cull_max: UVec4 { x: u32::MAX, y: u32::MAX, z: u32::MAX, w: u32::MAX },
    }
}

/// The parameters that nothing has been noted in.
pub fn empty_params() -> (r: RenderParams)
    ensures
        r == base_params(),
        r.mesh_params == (UVec4 { x: 0, y: 2097152, z: 0, w: 0 }),
        r.resource_handles == (UVec4 { x: 0, y: 0, z: 0, w: 0 }),
        forall|x: u32, y: u32, z: u32|
            x < u32::MAX && y < u32::MAX && z < u32::MAX ==> #[trigger] mesh::shown(
                r,
                UVec3 { x, y, z },
            ),
{
    RenderParams {
        mesh_params: UVec4 { x: 0, y: MAX_VISIBLE_CLUSTERS, z: 0, w: 0 },
        resource_handles: UVec4 { x: 0, y: 0, z: 0, w: 0 },
        cull_min: UVec4 { x: 0, y: 0, z: 0, w: 0 },
        cull_max: UVec4 { x: u32::MAX, y: u32::MAX, z: u32::MAX, w: u32::MAX },
    }
}

/// The parameters of an instance of a model whose blocks start at `base`.
pub open spec fn instance_params(gpu: DenseVoxelGpu, model: DenseVoxelModel, base: u32) -> RenderParams {
    let size = [gpu.size@[0], gpu.size@[1], gpu.size@[2]];
    RenderParams {
        mesh_params: UVec4 {
            x: layout::block_count_spec(size) as u32,
            y: MAX_VISIBLE_CLUSTERS,
            z: 0,
            w: base,
        },
        resource_handles: UVec4 {
            x: gpu.occupancy_handle,
            y: gpu.material_refs_handle,
            z: gpu.material_pages_handle,
            w: mesh::packed_size(size) as u32,
        },
        cull_min: UVec4 {
            x: model.cull_min.x,
            y: model.cull_min.y,
            z: model.cull_min.z,
            w: gpu.material_params_handle,
        },
        cull_max: UVec4 { x: model.cull_max.x, y: model.cull_max.y, z: model.cull_max.z, w: 0 },
    }
}

/// What rays read of a model.
pub open spec fn rt_model_of(gpu: DenseVoxelGpu, model: DenseVoxelModel) -> RtDenseModel {
    RtDenseModel {
        size: UVec4 { x: gpu.size@[0], y: gpu.size@[1], z: gpu.size@[2], w: 0 },
        resource_handles: UVec4 {
            x: gpu.occupancy_handle,
            y: gpu.material_refs_handle,
            z: gpu.material_pages_handle,
            w: 0,
        },
        cull_min: UVec4 { x: model.cull_min.x, y: model.cull_min.y, z: model.cull_min.z, w: 0 },
        cull_max: UVec4 { x: model.cull_max.x, y: model.cull_max.y, z: model.cull_max.z, w: 0 },
    }
}

/// Whether a descriptor is of a model of a valid size.
pub open spec fn valid_gpu(gpu: DenseVoxelGpu) -> bool {
    layout::valid_size([gpu.size@[0], gpu.size@[1], gpu.size@[2]])
}

impl FramePlan {
    /// Whether the parameter sets have room, the blocks of each instance start where those of the
    /// one before end, and there are as many of them as its model has.
    pub open spec fn wf(&self) -> bool {
        &&& self.instances@.len() + DISPATCH_PARAMS <= MAX_MESH_PARAMS
        &&& self.rt_models@.len() <= MAX_MESH_PARAMS
        &&& self.total_blocks == block_base(self.instances@, self.instances@.len())
        &&& forall|i: int|
            0 <= i < self.instances@.len() ==> (#[trigger] self.instances@[i]).mesh_params.w
                == block_base(self.instances@, i as nat)
        &&& forall|i: int|
            0 <= i < self.instances@.len() ==> (#[trigger] self.instances@[i]).mesh_params.x
                == layout::block_count_spec(
                dense::coords(mesh_main::instance_size(self.instances@[i])),
            )
    }

    /// A frame without instances.
    pub fn new() -> (r: FramePlan)
        ensures
            r.wf(),
            r.instances@.len() == 0,
            r.rt_models@.len() == 0,
            r.total_blocks == 0,
    {
        FramePlan { instances: Vec::new(), rt_models: Vec::new(), total_blocks: 0 }
    }

    /// Adds a model for rays to meet, where there is room, and returns its place.
    pub fn add_rt_model(&mut self, gpu: &DenseVoxelGpu, model: &DenseVoxelModel) -> (r: Option<u32>)
        requires
            old(self).wf(),
        ensures
            final(self).wf(),
            final(self).instances@ == old(self).instances@,
            final(self).total_blocks == old(self).total_blocks,
            old(self).rt_models@.len() < MAX_MESH_PARAMS ==> r == Some(
                old(self).rt_models@.len() as u32,
            ) && final(self).rt_models@ == old(self).rt_models@.push(rt_model_of(*gpu, *model)),
            old(self).rt_models@.len() >= MAX_MESH_PARAMS ==> r is None && final(self).rt_models@
                == old(self).rt_models@,
            r is Some <==> old(self).rt_models@.len() < 4096,
    {
        if self.rt_models.len() < MAX_MESH_PARAMS {
            let index: u32 = self.rt_models.len() as u32;
            self.rt_models.push(
                RtDenseModel {
                    size: UVec4 { x: gpu.size[0], y: gpu.size[1], z: gpu.size[2], w: 0 },
                    resource_handles: UVec4 {
                        x: gpu.occupancy_handle,
                        y: gpu.material_refs_handle,
                        z: gpu.material_pages_handle,
                        w: 0,
                    },
                    cull_min: UVec4 {
                        x: model.cull_min.x,
                        y: model.cull_min.y,
                        z: model.cull_min.z,
                        w: 0,
                    },
                    cull_max: UVec4 {
                        x: model.cull_max.x,
                        y: model.cull_max.y,
                        z: model.cull_max.z,
                        w: 0,
                    },
                },
            );
            Some(index)
        } else {
            None
        }
    }

    /// Takes a model into the frame that has everything a frame needs of it: geometry and
    /// materials of one size, a handle for each part, and voxels to show. Returns its descriptor,
    /// and its place among the models that rays meet.
    pub fn add_model(
        &mut self,
        geometry: &DenseVoxelGeometry,
        material: &DenseVoxelMaterial,
        model: &DenseVoxelModel,
        has_bounds: bool,
    ) -> (r: Option<(DenseVoxelGpu, Option<u32>)>)
        requires
            old(self).wf(),
            geometry.wf(),
        ensures
            final(self).wf(),
            final(self).instances@ == old(self).instances@,
            final(self).total_blocks == old(self).total_blocks,
            r is Some <==> geometry.extents()@ == material.extents()@ && has_bounds
                && geometry.handle() is Some && material.handles().0 is Some
                && material.handles().1 is Some && material.handles().2 is Some,
            r is None ==> final(self).rt_models@ == old(self).rt_models@,
            r matches Some((gpu, index)) ==> {
                &&& valid_gpu(gpu)
                &&& gpu.size@ == geometry.extents()@.push(material.page_count() as u32)
                &&& Some(gpu.occupancy_handle) == geometry.handle()
                &&& Some(gpu.material_refs_handle) == material.handles().0
                &&& Some(gpu.material_pages_handle) == material.handles().1
                &&& Some(gpu.material_params_handle) == material.handles().2
                &&& old(self).rt_models@.len() < MAX_MESH_PARAMS ==> index == Some(
                    old(self).rt_models@.len() as u32,
                ) && final(self).rt_models@ == old(self).rt_models@.push(rt_model_of(gpu, *model))
                &&& old(self).rt_models@.len() >= MAX_MESH_PARAMS ==> index is None
                    && final(self).rt_models@ == old(self).rt_models@
            },
    {
        if !same_size(geometry, material) {
            return None;
        }
        proof {
            layout::lemma_block_count_bound(geometry.extents());
            assert(geometry.extents() =~= material.extents());
        }
        if bounds::dense_block_count(geometry.size()) == 0 || !has_bounds {
            return None;
        }
        match DenseVoxelModel::gpu_descriptor(geometry, material) {
            Some(gpu) => {
                let index: Option<u32> = self.add_rt_model(&gpu, model);
                Some((gpu, index))
            },
            None => None,
        }
    }

    /// Adds an instance of a model that is in view, where there is room.
    pub fn add_instance(&mut self, gpu: &DenseVoxelGpu, model: &DenseVoxelModel) -> (r: bool)
        requires
            old(self).wf(),
            valid_gpu(*gpu),
        ensures
            final(self).wf(),
            final(self).rt_models@ == old(self).rt_models@,
            r == (old(self).instances@.len() + DISPATCH_PARAMS < MAX_MESH_PARAMS),
            r <==> old(self).instances@.len() < 4088,
            r ==> final(self).instances@ == old(self).instances@.push(
                instance_params(*gpu, *model, old(self).total_blocks),
            ) && final(self).total_blocks == bounds::saturated(
                old(self).total_blocks + instance_params(
                    *gpu,
                    *model,
                    old(self).total_blocks,
                ).mesh_params.x,
            ),
            !r ==> final(self).instances@ == old(self).instances@ && final(self).total_blocks
                == old(self).total_blocks,
    {
        if self.instances.len() + DISPATCH_PARAMS >= MAX_MESH_PARAMS {
            return false;
        }
        let size: [u32; 3] = [gpu.size[0], gpu.size[1], gpu.size[2]];
        proof {
            layout::lemma_block_count_bound(size);
        }
        let block_count: u32 = bounds::dense_block_count(size);
        let params: RenderParams = RenderParams {
            mesh_params: UVec4 {
                x: block_count,
                y: MAX_VISIBLE_CLUSTERS,
                z: 0,
                w: self.total_blocks,
            },
            resource_handles: UVec4 {
                x: gpu.occupancy_handle,
                y: gpu.material_refs_handle,
                z: gpu.material_pages_handle,
                w: mesh::pack_dense_size(size),
            },
            cull_min: UVec4 {
                x: model.cull_min.x,
                y: model.cull_min.y,
                z: model.cull_min.z,
                w: gpu.material_params_handle,
            },
            cull_max: UVec4 { x: model.cull_max.x, y: model.cull_max.y, z: model.cull_max.z, w: 0 },
        };
        let ghost before = self.instances@;
        self.instances.push(params);
        self.total_blocks = self.total_blocks.saturating_add(block_count);
        proof {
            assert(size =~= [gpu.size@[0], gpu.size@[1], gpu.size@[2]]);
            mesh::law_dense_size(size, params.resource_handles.w);
            assert forall|i: nat| i <= before.len() implies #[trigger] block_base(self.instances@, i)
                == block_base(before, i) by {
                lemma_block_base_prefix(before, params, i);
            }
            assert forall|i: int| 0 <= i < self.instances@.len() implies (
            #[trigger] self.instances@[i]).mesh_params.w == block_base(self.instances@, i as nat) by {
                assert(block_base(self.instances@, i as nat) == block_base(before, i as nat));
            }
            assert(block_base(self.instances@, before.len()) == block_base(before, before.len()));
        }
        true
    }
}

/// Whether geometry and materials have one size.
pub fn same_size(geometry: &DenseVoxelGeometry, material: &DenseVoxelMaterial) -> (r: bool)
    ensures
        r == (geometry.extents()@ == material.extents()@),
{
    let a: [u32; 3] = geometry.size();
    let b: [u32; 3] = material.size();
    let r: bool = a[0] == b[0] && a[1] == b[1] && a[2] == b[2];
    proof {
        if r {
            assert(a@ =~= b@);
        }
    }
    r
}

proof fn lemma_block_base_prefix(instances: Seq<RenderParams>, last: RenderParams, n: nat)
    requires
        n <= instances.len(),
    ensures
        block_base(instances.push(last), n) == block_base(instances, n),
    decreases n,
{
    if n > 0 {
        lemma_block_base_prefix(instances, last, (n - 1) as nat);
    }
}

/// The blocks of instances start no earlier than those of the instances before.
pub proof fn lemma_block_base_grows(instances: Seq<RenderParams>, a: nat, b: nat)
    requires
        a <= b,
    ensures
        block_base(instances, a) <= block_base(instances, b),
    decreases b,
{
    if a < b {
        lemma_block_base_grows(instances, a, (b - 1) as nat);
    }
}

/// As long as the blocks can be counted, they start where those before end.
pub proof fn lemma_block_base_exact(instances: Seq<RenderParams>, n: nat, all: nat)
    requires
        n <= all,
        block_sum(instances, all) <= u32::MAX,
    ensures
        block_base(instances, n) == block_sum(instances, n),
        block_sum(instances, n) <= block_sum(instances, all),
    decreases all,
{
    if n < all {
        lemma_block_base_exact(instances, n, (all - 1) as nat);
    } else if n > 0 {
        lemma_block_base_exact(instances, (n - 1) as nat, (n - 1) as nat);
    }
}

/// The handles and counts that the dispatches of a frame speak of.
#[derive(Clone, Copy, Debug, PartialEq, Eq, Structural)]
pub struct FrameInputs {
    /// Whether the depths of the frame before may be used to leave clusters out.
    pub previous_depth_valid: bool,
    pub previous_depth_pyramid_handle: u32,
    pub depth_pyramid_handle: u32,
    pub extent: UVec2,
    pub mip_count: u32,
    pub rt_nodes_handle: u32,
    pub rt_primitive_to_model_handle: u32,
    pub rt_models_handle: u32,
    pub rt_node_count: u32,
    pub rt_primitive_count: u32,
}

/// The parameter sets of a frame, and where those of each dispatch stand.
pub struct DispatchPlan {
    pub params: Vec<RenderParams>,
    pub init_prepass_index: u32,
    pub emit_prepass_index: u32,
    pub first_instance_index: u32,
    pub finalize_prepass_index: u32,
    pub draw_prepass_index: u32,
    pub init_final_index: u32,
    pub emit_final_index: u32,
    pub finalize_final_index: u32,
    pub draw_final_index: u32,
}

/// The parameters of a dispatch in a mode.
pub open spec fn mode_params(count: u32, mode: u32, first: u32) -> RenderParams {
    RenderParams {
        mesh_params: UVec4 { x: count, y: MAX_VISIBLE_CLUSTERS, z: mode, w: first },
        ..base_params()
    }
}

/// The parameters of the dispatch that looks at all blocks before the depths are known.
pub open spec fn emit_prepass_params(inputs: FrameInputs, count: u32) -> RenderParams {
    if inputs.previous_depth_valid {
        RenderParams {
            resource_handles: UVec4 {
                x: inputs.previous_depth_pyramid_handle,
                y: inputs.extent.x,
                z: inputs.extent.y,
                w: inputs.mip_count,
            },
            ..mode_params(count, 5, 2)
        }
    } else {
        mode_params(count, 1, 2)
    }
}

/// The parameters of the dispatch that looks at all blocks once the depths are known.
pub open spec fn emit_final_params(inputs: FrameInputs, count: u32) -> RenderParams {
    RenderParams {
        resource_handles: UVec4 {
            x: inputs.depth_pyramid_handle,
            y: inputs.extent.x,
            z: inputs.extent.y,
            w: inputs.mip_count,
        },
        ..mode_params(count, 4, 2)
    }
}

/// The parameters of the last draw.
pub open spec fn draw_final_params(inputs: FrameInputs, rt_model_count: u32) -> RenderParams {
    RenderParams {
        resource_handles: UVec4 {
            x: inputs.rt_nodes_handle,
            y: inputs.rt_primitive_to_model_handle,
            z: inputs.rt_models_handle,
            w: inputs.rt_node_count,
        },
        cull_min: UVec4 { x: inputs.rt_primitive_count, y: rt_model_count, z: 0, w: 0 },
        ..mode_params(CLUSTER_VERTICES, 3, 0)
    }
}

/// All parameter sets of a frame, in order: two dispatches, the instances, and six more dispatches
/// and draws.
pub open spec fn frame_params(plan: FramePlan, inputs: FrameInputs) -> Seq<RenderParams> {
    let count = plan.instances@.len() as u32;
    seq![mode_params(0, 0, 0), emit_prepass_params(inputs, count)] + plan.instances@ + seq![
        mode_params(0, 2, 0),
        mode_params(CLUSTER_VERTICES, 3, 0),
        mode_params(0, 0, 0),
        emit_final_params(inputs, count),
        mode_params(0, 2, 0),
        draw_final_params(inputs, plan.rt_models@.len() as u32),
    ]
}

fn with_mode(count: u32, mode: u32, first: u32) -> (r: RenderParams)
    ensures
        r == mode_params(count, mode, first),
{
    let mut params: RenderParams = empty_params();
    params.mesh_params = UVec4 { x: count, y: MAX_VISIBLE_CLUSTERS, z: mode, w: first };
    params
}

impl FramePlan {
    /// Lays out the parameter sets of the frame.
    pub fn dispatches(&self, inputs: &FrameInputs) -> (r: DispatchPlan)
        requires
            self.wf(),
        ensures
            r.params@ == frame_params(*self, *inputs),
            r.params@.len() == self.instances@.len() + DISPATCH_PARAMS,
            r.params@.len() <= MAX_MESH_PARAMS,
            r.init_prepass_index == 0,
            r.emit_prepass_index == 1,
            r.first_instance_index == 2,
            r.finalize_prepass_index == self.instances@.len() + 2,
            r.draw_prepass_index == self.instances@.len() + 3,
            r.init_final_index == self.instances@.len() + 4,
            r.emit_final_index == self.instances@.len() + 5,
            r.finalize_final_index == self.instances@.len() + 6,
            r.draw_final_index == self.instances@.len() + 7,
    {
        let count: u32 = self.instances.len() as u32;
        let mut params: Vec<RenderParams> = Vec::new();
        let init_prepass_index: u32 = params.len() as u32;
        params.push(with_mode(0, 0, 0));
        let emit_prepass_index: u32 = params.len() as u32;
        let mut emit_prepass: RenderParams = with_mode(
            count,
            if inputs.previous_depth_valid {
                5
            } else {
                1
            },
            2,
        );
        if inputs.previous_depth_valid {
            emit_prepass.resource_handles = UVec4 {
                x: inputs.previous_depth_pyramid_handle,
                y: inputs.extent.x,
                z: inputs.extent.y,
                w: inputs.mip_count,
            };
        }
        params.push(emit_prepass);
        let first_instance_index: u32 = params.len() as u32;
        let mut i: usize = 0;
        let ghost head = params@;
        while i < self.instances.len()
            invariant
                i <= self.instances@.len(),
                head.len() == 2,
                params@ == head + self.instances@.take(i as int),
            decreases self.instances@.len() - i,
        {
            params.push(self.instances[i]);
            i += 1;
            assert(params@ =~= head + self.instances@.take(i as int));
        }
        assert(self.instances@.take(i as int) =~= self.instances@);
        let finalize_prepass_index: u32 = params.len() as u32;
        params.push(with_mode(0, 2, 0));
        let draw_prepass_index: u32 = params.len() as u32;
        params.push(with_mode(CLUSTER_VERTICES, 3, 0));
        let init_final_index: u32 = params.len() as u32;
        params.push(with_mode(0, 0, 0));
        let emit_final_index: u32 = params.len() as u32;
        let mut emit_final: RenderParams = with_mode(count, 4, first_instance_index);
        emit_final.resource_handles = UVec4 {
            x: inputs.depth_pyramid_handle,
            y: inputs.extent.x,
            z: inputs.extent.y,
            w: inputs.mip_count,
        };
        params.push(emit_final);
        let finalize_final_index: u32 = params.len() as u32;
        params.push(with_mode(0, 2, 0));
        let draw_final_index: u32 = params.len() as u32;
        let mut draw_final: RenderParams = with_mode(CLUSTER_VERTICES, 3, 0);
        draw_final.resource_handles = UVec4 {
            x: inputs.rt_nodes_handle,
            y: inputs.rt_primitive_to_model_handle,
            z: inputs.rt_models_handle,
            w: inputs.rt_node_count,
        };
        draw_final.cull_min = UVec4 {
            x: inputs.rt_primitive_count,
            y: self.rt_models.len() as u32,
            z: 0,
            w: 0,
        };
        params.push(draw_final);
        assert(params@ =~= frame_params(*self, *inputs));
        DispatchPlan {
            params,
            init_prepass_index,
            emit_prepass_index,
            first_instance_index,
            finalize_prepass_index,
            draw_prepass_index,
            init_final_index,
            emit_final_index,
            finalize_final_index,
            draw_final_index,
        }
    }

    /// The number of groups of threads that look at all blocks, where there are some.
    pub fn block_groups(&self) -> (r: Option<u32>)
        ensures
            r is Some <==> self.total_blocks > 0 && self.instances@.len() > 0,
            r matches Some(groups) ==> groups == (self.total_blocks + 63) / 64,
    {
        if self.total_blocks > 0 && self.instances.len() > 0 {
            let groups: u32 = if self.total_blocks % BLOCKS_PER_GROUP == 0 {
                self.total_blocks / BLOCKS_PER_GROUP
            } else {
                self.total_blocks / BLOCKS_PER_GROUP + 1
            };
            Some(groups)
        } else {
            None
        }
    }
}

/// Where the parameter sets of a frame stand.
proof fn lemma_frame_params(plan: FramePlan, inputs: FrameInputs)
    ensures
        ({
            let params = frame_params(plan, inputs);
            let n = plan.instances@.len() as int;
            &&& params.len() == n + 8
            &&& params[0] == mode_params(0, 0, 0)
            &&& params[1] == emit_prepass_params(inputs, n as u32)
            &&& params[n + 2] == mode_params(0, 2, 0)
            &&& params[n + 3] == mode_params(CLUSTER_VERTICES, 3, 0)
            &&& params[n + 4] == mode_params(0, 0, 0)
            &&& params[n + 5] == emit_final_params(inputs, n as u32)
            &&& params[n + 6] == mode_params(0, 2, 0)
            &&& params[n + 7] == draw_final_params(inputs, plan.rt_models@.len() as u32)
            &&& forall|i: int| 2 <= i < n + 2 ==> #[trigger] params[i] == plan.instances@[i - 2]
        }),
{
}

/// Both dispatches that look at all blocks find the instances where they stand, in the order that
/// their search relies on.
pub proof fn law_instances_are_searchable(plan: FramePlan, inputs: FrameInputs)
    requires
        plan.wf(),
    ensures
        ({
            let params = frame_params(plan, inputs);
            let count = plan.instances@.len() as int;
            &&& mesh::bases_sorted(params, 2, count)
            &&& params[1].mesh_params.x == count
            &&& params[1].mesh_params.w == 2
            &&& params[count + 5].mesh_params.x == count
            &&& params[count + 5].mesh_params.w == 2
            &&& forall|i: int| 0 <= i < count ==> params[2 + i] == #[trigger] plan.instances@[i]
        }),
{
    let params = frame_params(plan, inputs);
    let count = plan.instances@.len() as int;
    lemma_frame_params(plan, inputs);
    assert forall|i: int| 0 <= i < count implies params[2 + i] == #[trigger] plan.instances@[i] by {
        assert(params[2 + i] == plan.instances@[2 + i - 2]);
    }
    assert forall|i: int, j: int| 2 <= i <= j < 2 + count implies #[trigger] params[i].mesh_params.w
        <= #[trigger] params[j].mesh_params.w by {
        lemma_block_base_grows(plan.instances@, (i - 2) as nat, (j - 2) as nat);
        assert(params[i] == plan.instances@[i - 2]);
        assert(params[j] == plan.instances@[j - 2]);
    }
}

/// Both dispatches that look at all blocks are given what their threads rely on.
pub proof fn law_threads_find_their_blocks(plan: FramePlan, inputs: FrameInputs)
    requires
        plan.wf(),
    ensures
        ({
            let params = frame_params(plan, inputs);
            &&& mesh_main::instances_ok(params, params[1])
            &&& mesh_main::instances_ok(params, params[plan.instances@.len() as int + 5])
        }),
{
    let params = frame_params(plan, inputs);
    let count = plan.instances@.len() as int;
    law_instances_are_searchable(plan, inputs);
    assert forall|i: int| 2 <= i < 2 + count implies (#[trigger] params[i]).mesh_params.x
        <= layout::block_count_spec(dense::coords(mesh_main::instance_size(params[i]))) by {
        assert(params[i] == plan.instances@[i - 2]);
    }
}

/// As long as the blocks can be counted, each block that is looked at is one of an instance.
pub proof fn law_every_block_has_an_instance(plan: FramePlan, inputs: FrameInputs, block: u32)
    requires
        plan.wf(),
        block_sum(plan.instances@, plan.instances@.len()) <= u32::MAX,
        block < plan.total_blocks,
    ensures
        exists|index: int|
            #[trigger] mesh::instance_of(
                frame_params(plan, inputs),
                2,
                plan.instances@.len() as int,
                block,
                index,
            ),
{
    let params = frame_params(plan, inputs);
    let all = plan.instances@.len();
    law_instances_are_searchable(plan, inputs);
    let i = last_base(plan.instances@, block, all);
    assert forall|n: nat| n <= all implies #[trigger] block_base(plan.instances@, n) == block_sum(
        plan.instances@,
        n,
    ) by {
        lemma_block_base_exact(plan.instances@, n, all);
    }
    lemma_last_base(plan.instances@, block, all);
    assert(block_base(plan.instances@, i) == block_sum(plan.instances@, i));
    assert(block_base(plan.instances@, (i + 1) as nat) == block_sum(
        plan.instances@,
        (i + 1) as nat,
    ));
    assert(params[2 + i as int] == plan.instances@[i as int]);
    assert forall|j: int| 2 + i < j < 2 + all implies #[trigger] params[j].mesh_params.w > block by {
        assert(params[j] == plan.instances@[j - 2]);
        lemma_block_base_grows(plan.instances@, (i + 1) as nat, (j - 2) as nat);
    }
    assert(mesh::instance_of(params, 2, all as int, block, 2 + i as int));
}

/// The blocks of each instance start where those of the instance before end, and the blocks of the
/// last end where all do, as long as they can be counted.
pub proof fn law_blocks_are_adjacent(plan: FramePlan, i: int)
    requires
        plan.wf(),
        0 <= i < plan.instances@.len(),
        plan.instances@[i].mesh_params.w + plan.instances@[i].mesh_params.x <= u32::MAX,
    ensures
        plan.instances@[0].mesh_params.w == 0,
        i + 1 < plan.instances@.len() ==> plan.instances@[i + 1].mesh_params.w
            == plan.instances@[i].mesh_params.w + plan.instances@[i].mesh_params.x,
        i + 1 == plan.instances@.len() ==> plan.total_blocks == plan.instances@[i].mesh_params.w
            + plan.instances@[i].mesh_params.x,
{
    assert(plan.instances@[0].mesh_params.w == block_base(plan.instances@, 0));
}

/// An instance tells the handles of its model, where its blocks start and how many there are, the
/// part of the model that is shown, and its size: the number that stands for it holds each axis,
/// less one, in ten bits.
pub proof fn law_instance_tells_model(gpu: DenseVoxelGpu, model: DenseVoxelModel, base: u32)
    requires
        valid_gpu(gpu),
    ensures
        ({
            let params = instance_params(gpu, model, base);
            let packed = params.resource_handles.w;
            &&& params.mesh_params.x == ((gpu.size@[0] + 3) / 4) * ((gpu.size@[1] + 3) / 4) * ((
            gpu.size@[2] + 3) / 4)
            &&& params.mesh_params.y == 2097152
            &&& params.mesh_params.z == 0
            &&& params.mesh_params.w == base
            &&& params.resource_handles.x == gpu.occupancy_handle
            &&& params.resource_handles.y == gpu.material_refs_handle
            &&& params.resource_handles.z == gpu.material_pages_handle
            &&& params.cull_min.w == gpu.material_params_handle
            &&& packed % 1024 + 1 == gpu.size@[0]
            &&& packed / 1024 % 1024 + 1 == gpu.size@[1]
            &&& packed / 1048576 + 1 == gpu.size@[2]
            &&& params.cull_min.x == model.cull_min.x && params.cull_max.x == model.cull_max.x
            &&& params.cull_min.y == model.cull_min.y && params.cull_max.y == model.cull_max.y
            &&& params.cull_min.z == model.cull_min.z && params.cull_max.z == model.cull_max.z
        }),
{
    layout::lemma_block_count_bound([gpu.size@[0], gpu.size@[1], gpu.size@[2]]);
}

/// What rays read of a model is its size, its handles, and the part of it that is shown.
pub proof fn law_ray_model_tells_model(gpu: DenseVoxelGpu, model: DenseVoxelModel)
    ensures
        ({
            let r = rt_model_of(gpu, model);
            &&& r.size.x == gpu.size@[0] && r.size.y == gpu.size@[1] && r.size.z == gpu.size@[2]
            &&& r.resource_handles.x == gpu.occupancy_handle
            &&& r.resource_handles.y == gpu.material_refs_handle
            &&& r.resource_handles.z == gpu.material_pages_handle
            &&& r.cull_min.x == model.cull_min.x && r.cull_max.x == model.cull_max.x
            &&& r.cull_min.y == model.cull_min.y && r.cull_max.y == model.cull_max.y
            &&& r.cull_min.z == model.cull_min.z && r.cull_max.z == model.cull_max.z
        }),
{
}

/// Whether a parameter set tells a count, a mode and a first place, and how many clusters there is
/// room for.
pub open spec fn told(params: Seq<RenderParams>, k: int, count: int, mode: int, first: int) -> bool {
    &&& params[k].mesh_params.x == count
    &&& params[k].mesh_params.y == 2097152
    &&& params[k].mesh_params.z == mode
    &&& params[k].mesh_params.w == first
}

/// Whether a parameter set tells four handles or counts.
pub open spec fn handed(params: Seq<RenderParams>, k: int, x: u32, y: u32, z: u32, w: u32) -> bool {
    &&& params[k].resource_handles.x == x
    &&& params[k].resource_handles.y == y
    &&& params[k].resource_handles.z == z
    &&& params[k].resource_handles.w == w
}

/// The dispatches of a frame, by what each is told: first the arguments of a draw are set, then all
/// blocks are looked at, then the clusters are counted and drawn, and then all this once more with
/// the depths that are known by then. A dispatch that looks at blocks is told where the instances
/// stand and how many there are, and one that draws is told how many vertices a cluster has. The
/// depths of the frame before are used where they may be, and the last draw is told of the scene
/// that rays are traced through.
pub proof fn law_dispatches_of_frame(plan: FramePlan, inputs: FrameInputs)
    requires
        plan.wf(),
    ensures
        ({
            let params = frame_params(plan, inputs);
            let n = plan.instances@.len() as int;
            &&& params.len() == n + 8
            &&& told(params, 0, 0, 0, 0)
            &&& told(params, 1, n, if inputs.previous_depth_valid { 5 } else { 1 }, 2)
            &&& inputs.previous_depth_valid ==> handed(
                params,
                1,
                inputs.previous_depth_pyramid_handle,
                inputs.extent.x,
                inputs.extent.y,
                inputs.mip_count,
            )
            &&& !inputs.previous_depth_valid ==> handed(params, 1, 0, 0, 0, 0)
            &&& told(params, n + 2, 0, 2, 0)
            &&& told(params, n + 3, 36, 3, 0)
            &&& handed(params, n + 3, 0, 0, 0, 0)
            &&& told(params, n + 4, 0, 0, 0)
            &&& told(params, n + 5, n, 4, 2)
            &&& handed(
                params,
                n + 5,
                inputs.depth_pyramid_handle,
                inputs.extent.x,
                inputs.extent.y,
                inputs.mip_count,
            )
            &&& told(params, n + 6, 0, 2, 0)
            &&& told(params, n + 7, 36, 3, 0)
            &&& handed(
                params,
                n + 7,
                inputs.rt_nodes_handle,
                inputs.rt_primitive_to_model_handle,
                inputs.rt_models_handle,
                inputs.rt_node_count,
            )
            &&& params[n + 7].cull_min.x == inputs.rt_primitive_count
            &&& params[n + 7].cull_min.y == plan.rt_models@.len()
        }),
{
    lemma_frame_params(plan, inputs);
}

/// As long as the blocks can be counted, each block of each instance is looked at, by the thread that
/// is as many past the first of the instance.
pub proof fn law_every_block_is_looked_at(
    plan: FramePlan,
    inputs: FrameInputs,
    i: int,
    block: u32,
)
    requires
        plan.wf(),
        block_sum(plan.instances@, plan.instances@.len()) <= u32::MAX,
        0 <= i < plan.instances@.len(),
        block < plan.instances@[i].mesh_params.x,
    ensures
        ({
            let thread = plan.instances@[i].mesh_params.w + block;
            &&& thread < plan.total_blocks
            &&& mesh::instance_of(
                frame_params(plan, inputs),
                2,
                plan.instances@.len() as int,
                thread as u32,
                2 + i,
            )
        }),
{
    let all = plan.instances@.len();
    let params = frame_params(plan, inputs);
    let thread = plan.instances@[i].mesh_params.w + block;
    lemma_block_base_exact(plan.instances@, i as nat, all);
    lemma_block_base_exact(plan.instances@, (i + 1) as nat, all);
    lemma_block_base_exact(plan.instances@, all, all);
    lemma_frame_params(plan, inputs);
    assert(params[2 + i] == plan.instances@[i]);
    assert forall|j: int| 2 + i < j < 2 + all implies #[trigger] params[j].mesh_params.w > thread by {
        assert(params[j] == plan.instances@[j - 2]);
        lemma_block_base_grows(plan.instances@, (i + 1) as nat, (j - 2) as nat);
    }
}

/// The last of the first `n` instances whose blocks start no later than `block`.
spec fn last_base(instances: Seq<RenderParams>, block: u32, n: nat) -> nat
    decreases n,
{
    if n == 0 {
        0
    } else if block_base(instances, (n - 1) as nat) <= block {
        (n - 1) as nat
    } else {
        last_base(instances, block, (n - 1) as nat)
    }
}

proof fn lemma_last_base(instances: Seq<RenderParams>, block: u32, n: nat)
    requires
        block < block_base(instances, n),
    ensures
        last_base(instances, block, n) < n,
        block_base(instances, last_base(instances, block, n)) <= block,
        block < block_base(instances, (last_base(instances, block, n) + 1) as nat),
    decreases n,
{
    if n > 0 && block_base(instances, (n - 1) as nat) > block {
        lemma_last_base(instances, block, (n - 1) as nat);
    }
}

} // verus!
