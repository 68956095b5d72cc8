//! The colors and the parameters of the materials of a file.

use super::file::FileMaterial;
use super::loader;
use crate::bytes;
use crate::dense::material::HALF_BITS;
use crate::dense::material::ONE_BITS;
use crate::dense::material::SIX_TENTHS_BITS;
use vstd::prelude::*;

verus! {

/// The colors of a file, and the handle under which shaders find them.
pub struct VoxPalette {
    buffer: Vec<u8>,
    handle: Option<u32>,
}

impl VoxPalette {
    /// The bytes of the colors.
    pub closed spec fn bytes(&self) -> Seq<u8> {
        self.buffer@
    }

    /// The handle, where there is one.
    pub closed spec fn registered(&self) -> Option<u32> {
        self.handle
    }

    /// The colors that the bytes stand for.
    pub open spec fn colors_are(&self, colors: Seq<[u8; 4]>) -> bool {
        self.bytes() == loader::color_bytes(colors)
    }

    /// Colors, given by their bytes.
    pub fn from_buffer(buffer: Vec<u8>) -> (r: VoxPalette)
        ensures
            r.bytes() == buffer@,
            r.registered() is None,
    {
        VoxPalette { buffer, handle: None }
    }

    /// The colors.
    pub fn colors(&self) -> (r: &[[u8; 4]])
        requires
            self.bytes().len() % 4 == 0,
        ensures
            self.colors_are(r@),
    {
        let colors: &[[u8; 4]] = bytes::colors_of_bytes(self.buffer.as_slice());
        proof {
            let written = loader::color_bytes(colors@);
            assert forall|k: int| 0 <= k < self.bytes().len() implies self.bytes()[k]
                == #[trigger] written[k] by {
                assert(colors@[k / 4]@[k % 4] == self.buffer@[(k / 4) * 4 + k % 4]);
            }
            assert(self.bytes() =~= written);
        }
        colors
    }

    /// The colors, to be changed.
    pub fn colors_mut(&mut self) -> (r: &mut [[u8; 4]])
        requires
            old(self).bytes().len() % 4 == 0,
        ensures
            old(self).colors_are(r@),
            final(self).registered() == old(self).registered(),
            final(r)@.len() == r@.len() ==> final(self).bytes() =~= loader::color_bytes(
                final(r)@,
            ),
    {
        let ghost before = self.buffer@;
        let colors: &mut [[u8; 4]] = bytes::colors_of_bytes_mut(self.buffer.as_mut_slice());
        proof {
            let written = loader::color_bytes(colors@);
            assert forall|k: int| 0 <= k < before.len() implies before[k] == #[trigger] written[k] by {
                assert(colors@[k / 4]@[k % 4] == before[(k / 4) * 4 + k % 4]);
            }
            assert(before =~= written);
        }
        colors
    }

    /// Notes the handle, unless there is one already.
    pub fn register_bindless(&mut self, handle: u32)
        ensures
            final(self).bytes() == old(self).bytes(),
            final(self).registered() == (match old(self).registered() {
                Some(known) => Some(known),
                None => Some(handle),
            }),
    {
        if self.handle.is_none() {
            self.handle = Some(handle);
        }
    }

    /// The handle, where there is one.
    pub fn bindless_handle(&self) -> (r: Option<u32>)
        ensures
            r == self.registered(),
    {
        self.handle
    }
}

/// The parameters of one material, each number as the bits of an `f32`.
#[derive(Clone, Copy, Debug, PartialEq, Eq)]
pub struct VoxMaterialParam {
    pub base_color: [u32; 4],
    /// Metallic, roughness, specular strength and emissive strength.
    pub pbr: [u32; 4],
}

impl Default for VoxMaterialParam {
    fn default() -> (r: VoxMaterialParam)
        ensures
            r == (VoxMaterialParam {
                base_color: [ONE_BITS, ONE_BITS, ONE_BITS, ONE_BITS],
                pbr: [0, SIX_TENTHS_BITS, HALF_BITS, 0],
            }),
    {
        VoxMaterialParam {
            base_color: [ONE_BITS, ONE_BITS, ONE_BITS, ONE_BITS],
            pbr: [0, SIX_TENTHS_BITS, HALF_BITS, 0],
        }
    }
}

/// How a material is lit.
#[derive(Clone, Copy, Debug, PartialEq, Eq, Structural)]
pub enum MaterialKind {
    Metal,
    Emit,
    Other,
}

/// How a material with the given text for its kind is lit.
pub open spec fn kind_of(text: Option<Seq<char>>) -> MaterialKind {
    if text == Some("_metal"@) {
        MaterialKind::Metal
    } else if text == Some("_emit"@) {
        MaterialKind::Emit
    } else {
        MaterialKind::Other
    }
}

/// A material is lit as a metal or as a light just where the text of its kind says so.
pub proof fn law_material_kind(text: Option<Seq<char>>)
    ensures
        kind_of(text) == MaterialKind::Metal <==> text == Some("_metal"@),
        kind_of(text) == MaterialKind::Emit <==> text == Some("_emit"@),
{
    reveal_strlit("_metal");
    reveal_strlit("_emit");
    assert("_metal"@.len() != "_emit"@.len());
}

/// How a material is lit.
pub fn material_kind(material: &FileMaterial) -> (r: MaterialKind)
    ensures
        r == kind_of(material@.kind),
        r == MaterialKind::Metal <==> material@.kind == Some("_metal"@),
        r == MaterialKind::Emit <==> material@.kind == Some("_emit"@),
{
    let metal: String = "_metal".to_owned();
    let emit: String = "_emit".to_owned();
    proof {
        reveal_strlit("_metal");
        reveal_strlit("_emit");
        assert("_metal"@.len() != "_emit"@.len());
    }
    match &material.kind {
        Some(text) => {
            if *text == metal {
                MaterialKind::Metal
            } else if *text == emit {
                MaterialKind::Emit
            } else {
                MaterialKind::Other
            }
        },
        None => MaterialKind::Other,
    }
}

/// The numbers that the texts of a material stand for, as the bits of an `f32`, where they stand for
/// one.
#[derive(Clone, Copy, Debug, PartialEq, Eq, Structural)]
pub struct MaterialNumbers {
    pub weight: Option<u32>,
    pub metal: Option<u32>,
    pub rough: Option<u32>,
    pub spec: Option<u32>,
    pub sp: Option<u32>,
    pub ior: Option<u32>,
    pub emit: Option<u32>,
    pub flux: Option<u32>,
}

/// A number to start from, as the bits of an `f32`.
#[derive(Clone, Copy, Debug, PartialEq, Eq, Structural)]
pub enum Input {
    /// The weight of the material.
    Weight,
    /// A number.
    Number(u32),
    /// The larger of the weight of the material and a number.
    WeightOr(u32),
    /// What follows from an index of refraction.
    Refraction(u32),
}

/// What the parameters of a material are worked out from, numbers as the bits of an `f32`.
#[derive(Clone, Copy, Debug, PartialEq, Eq, Structural)]
pub struct MaterialInputs {
    pub weight: u32,
    pub metallic: Input,
    pub roughness: u32,
    pub specular: Input,
    pub emission: Input,
    pub flux: u32,
}

/// A number, or another where there is none.
pub open spec fn number_or(number: Option<u32>, other: u32) -> u32 {
    match number {
        Some(bits) => bits,
        None => other,
    }
}

/// A number that there is counts, whatever the other is.
pub proof fn law_number_or(bits: u32, other: u32)
    ensures
        number_or(Some(bits), other) == bits,
        number_or(None, other) == other,
{
}

fn or_number(number: Option<u32>, other: u32) -> (r: u32)
    ensures
        r == number_or(number, other),
{
    match number {
        Some(bits) => bits,
        None => other,
    }
}

/// What the parameters of a material are worked out from, given those it has so far: a metal is as
/// metallic, and a light as bright, as its weight says, and a specular strength gives way to an
/// index of refraction.
pub fn material_inputs(
    kind: MaterialKind,
    numbers: MaterialNumbers,
    param: VoxMaterialParam,
) -> (r: MaterialInputs)
    ensures
        r.weight == number_or(numbers.weight, ONE_BITS),
        r.metallic == (if kind == MaterialKind::Metal {
            Input::Weight
        } else {
            Input::Number(number_or(numbers.metal, 0))
        }),
        r.roughness == number_or(numbers.rough, param.pbr@[1]),
        r.specular == (match numbers.ior {
            Some(ior) => Input::Refraction(ior),
            None => Input::Number(number_or(numbers.spec, number_or(numbers.sp, param.pbr@[2]))),
        }),
        r.emission == (if kind == MaterialKind::Emit {
            Input::WeightOr(number_or(numbers.emit, 0))
        } else {
            Input::Number(number_or(numbers.emit, 0))
        }),
        r.flux == number_or(numbers.flux, ONE_BITS),
        numbers.weight is Some ==> r.weight == numbers.weight->0,
        numbers.weight is None ==> r.weight == ONE_BITS,
        numbers.rough is Some ==> r.roughness == numbers.rough->0,
        numbers.rough is None ==> r.roughness == param.pbr@[1],
        numbers.flux is Some ==> r.flux == numbers.flux->0,
        numbers.flux is None ==> r.flux == ONE_BITS,
        kind != MaterialKind::Metal && numbers.metal is Some ==> r.metallic == Input::Number(
            numbers.metal->0,
        ),
        kind != MaterialKind::Metal && numbers.metal is None ==> r.metallic == Input::Number(0),
        numbers.ior is None && numbers.spec is Some ==> r.specular == Input::Number(
            numbers.spec->0,
        ),
        numbers.ior is None && numbers.spec is None && numbers.sp is Some ==> r.specular
            == Input::Number(numbers.sp->0),
        numbers.ior is None && numbers.spec is None && numbers.sp is None ==> r.specular
            == Input::Number(param.pbr@[2]),
        numbers.emit is Some && kind == MaterialKind::Emit ==> r.emission == Input::WeightOr(
            numbers.emit->0,
        ),
        numbers.emit is Some && kind != MaterialKind::Emit ==> r.emission == Input::Number(
            numbers.emit->0,
        ),
        numbers.emit is None && kind == MaterialKind::Emit ==> r.emission == Input::WeightOr(0),
        numbers.emit is None && kind != MaterialKind::Emit ==> r.emission == Input::Number(0),
{
    MaterialInputs {
        weight: or_number(numbers.weight, ONE_BITS),
        metallic: match kind {
            MaterialKind::Metal => Input::Weight,
            _ => Input::Number(or_number(numbers.metal, 0)),
        },
        roughness: or_number(numbers.rough, param.pbr[1]),
        specular: match numbers.ior {
            Some(ior) => Input::Refraction(ior),
            None => Input::Number(or_number(numbers.spec, or_number(numbers.sp, param.pbr[2]))),
        },
        emission: match kind {
            MaterialKind::Emit => Input::WeightOr(or_number(numbers.emit, 0)),
            _ => Input::Number(or_number(numbers.emit, 0)),
        },
        flux: or_number(numbers.flux, ONE_BITS),
    }
}

/// The parameters of all materials, and the handle under which shaders find them.
pub struct VoxMaterialTable {
    params: Vec<VoxMaterialParam>,
    handle: Option<u32>,
}

impl VoxMaterialTable {
    /// The parameters.
    pub closed spec fn params(&self) -> Seq<VoxMaterialParam> {
        self.params@
    }

    /// The handle, where there is one.
    pub closed spec fn registered(&self) -> Option<u32> {
        self.handle
    }

    /// The given parameters.
    pub fn from_entries(entries: Vec<VoxMaterialParam>) -> (r: VoxMaterialTable)
        ensures
            r.params() == entries@,
            r.registered() is None,
    {
        VoxMaterialTable { params: entries, handle: None }
    }

    /// The parameters.
    pub fn entries(&self) -> (r: &Vec<VoxMaterialParam>)
        ensures
            r@ == self.params(),
    {
        &self.params
    }

    /// Notes the handle, unless there is one already.
    pub fn register_bindless(&mut self, handle: u32)
        ensures
            final(self).params() == old(self).params(),
            final(self).registered() == (match old(self).registered() {
                Some(known) => Some(known),
                None => Some(handle),
            }),
    {
        if self.handle.is_none() {
            self.handle = Some(handle);
        }
    }

    /// The handle, where there is one.
    pub fn bindless_handle(&self) -> (r: Option<u32>)
        ensures
            r == self.registered(),
    {
        self.handle
    }
}

} // verus!
