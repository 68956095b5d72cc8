use dust::math::IVec3;
use dust::math::UVec3;
use dust::vox;
use dust::vox::file::FileMaterial;
use dust::vox::file::FileModel;
use dust::vox::file::FileVoxel;
use dust::vox::loader;
use dust::vox::loader::VoxLoadingError;
use dust::vox::model;
use dust::vox::palette;
use dust::vox::palette::Input;
use dust::vox::palette::MaterialKind;
use dust::vox::palette::MaterialNumbers;
use dust::vox::palette::VoxMaterialParam;
use dust::vox::palette::VoxMaterialTable;
use dust::vox::palette::VoxPalette;
use dust::vox::scene::EntityKind;

fn le(n: i32) -> Vec<u8> {
    n.to_le_bytes().to_vec()
}

fn text(s: &str) -> Vec<u8> {
    [le(s.len() as i32), s.as_bytes().to_vec()].concat()
}

fn dict(entries: &[(&str, &str)]) -> Vec<u8> {
    let mut bytes = le(entries.len() as i32);
    for (key, value) in entries {
        bytes.extend(text(key));
        bytes.extend(text(value));
    }
    bytes
}

fn chunk(id: &str, content: Vec<u8>, children: Vec<u8>) -> Vec<u8> {
    [
        id.as_bytes().to_vec(),
        le(content.len() as i32),
        le(children.len() as i32),
        content,
        children,
    ]
    .concat()
}

fn model_chunks(size: [i32; 3], voxels: &[[u8; 4]]) -> Vec<u8> {
    let size = chunk("SIZE", [le(size[0]), le(size[1]), le(size[2])].concat(), Vec::new());
    let mut content = le(voxels.len() as i32);
    for voxel in voxels {
        content.extend(voxel);
    }
    [size, chunk("XYZI", content, Vec::new())].concat()
}

fn transform(id: i32, child: i32, frame: &[(&str, &str)]) -> Vec<u8> {
    let content =
        [le(id), dict(&[]), le(child), le(-1), le(0), le(1), dict(frame)].concat();
    chunk("nTRN", content, Vec::new())
}

fn group(id: i32, children: &[i32]) -> Vec<u8> {
    let mut content = [le(id), dict(&[]), le(children.len() as i32)].concat();
    for child in children {
        content.extend(le(*child));
    }
    chunk("nGRP", content, Vec::new())
}

fn shape(id: i32, model: i32) -> Vec<u8> {
    chunk("nSHP", [le(id), dict(&[]), le(1), le(model), dict(&[])].concat(), Vec::new())
}

fn file(chunks: Vec<Vec<u8>>) -> Vec<u8> {
    [b"VOX ".to_vec(), le(150), chunk("MAIN", Vec::new(), chunks.concat())].concat()
}

fn castle() -> Vec<u8> {
    file(vec![
        model_chunks([3, 4, 5], &[[0, 0, 0, 1], [2, 3, 4, 2]]),
        model_chunks([1, 1, 1], &[[0, 0, 0, 7]]),
        model_chunks([2, 2, 2], &[]),
        transform(0, 1, &[]),
        group(1, &[2, 4, 6, 8]),
        transform(2, 3, &[("_t", "10 -20 30")]),
        shape(3, 0),
        transform(4, 5, &[("_t", "1 2 3"), ("_r", "40")]),
        shape(5, 1),
        transform(6, 7, &[]),
        shape(7, 0),
        transform(8, 9, &[]),
        shape(9, 2),
    ])
}

#[test]
fn files_become_scenes() {
    let loaded = loader::load(&castle()).ok().unwrap();
    let entities = &loaded.scene.entities;
    assert_eq!(entities.len(), 4);
    assert_eq!(entities[0].kind, EntityKind::Group);
    assert_eq!(entities[0].parent, None);
    assert_eq!(entities[1].kind, EntityKind::Instance(0));
    assert_eq!(entities[1].parent, Some(0));
    assert_eq!(entities[1].translation, IVec3 { x: 10, y: -20, z: 30 });
    assert_eq!(entities[1].size, UVec3::new(3, 4, 5));
    assert_eq!(entities[2].kind, EntityKind::Instance(1));
    assert_eq!(entities[2].translation, IVec3 { x: 1, y: 2, z: 3 });
    assert_eq!(entities[2].rotation.as_deref(), Some("40"));
    assert_eq!(entities[3].kind, EntityKind::Instance(0));
    assert_eq!(loaded.instances, vec![(0, 1), (1, 2), (0, 3)]);
}

#[test]
fn only_models_that_are_shown_are_loaded() {
    let loaded = loader::load(&castle()).ok().unwrap();
    let ids: Vec<u32> = loaded.models.iter().map(|model| model.id).collect();
    assert_eq!(ids, vec![0, 1]);
    assert_eq!(loaded.models[0].tree.get_value(UVec3::new(0, 0, 3)), Some(1));
    assert_eq!(loaded.models[0].tree.get_value(UVec3::new(2, 4, 0)), Some(2));
    assert_eq!(loaded.models[0].tree.iter().len(), 2);
    assert_eq!(loaded.models[1].tree.get_value(UVec3::new(0, 0, 0)), Some(7));
}

#[test]
fn colors_have_four_bytes() {
    let loaded = loader::load(&castle()).ok().unwrap();
    assert_eq!(loaded.palette.len(), 1024);
    let palette = VoxPalette::from_buffer(loaded.palette.clone());
    assert_eq!(palette.colors().len(), 256);
    assert_eq!(palette.colors()[1][2], loaded.palette[6]);
}

#[test]
fn one_model_needs_no_scene() {
    let bytes = file(vec![model_chunks([2, 2, 2], &[[1, 0, 0, 9]])]);
    let loaded = loader::load(&bytes).ok().unwrap();
    assert_eq!(loaded.models.len(), 1);
    assert_eq!(loaded.instances.len(), 1);
    assert_eq!(loaded.models[0].tree.get_value(UVec3::new(1, 0, 1)), Some(9));
}

#[test]
fn files_hold_materials() {
    let properties = [
        ("_type", "_metal"),
        ("_weight", "0.1"),
        ("_metal", "0.2"),
        ("_rough", "0.3"),
        ("_spec", "0.4"),
        ("_sp", "0.5"),
        ("_ior", "0.6"),
        ("_emit", "0.7"),
        ("_flux", "0.8"),
    ];
    let bytes = file(vec![
        model_chunks([2, 2, 2], &[[1, 0, 0, 9]]),
        chunk("MATL", [le(3), dict(&properties)].concat(), Vec::new()),
        chunk("MATL", [le(5), dict(&[("_rough", "0.9")])].concat(), Vec::new()),
    ]);
    let data = dot_vox::load_bytes(&bytes).unwrap();
    let materials = vox::file::materials(&data);
    assert_eq!(materials.len(), 2);
    let full = &materials[0];
    assert_eq!(full.id, 3);
    assert_eq!(full.kind.as_deref(), Some("_metal"));
    assert_eq!(full.weight.as_deref(), Some("0.1"));
    assert_eq!(full.metal.as_deref(), Some("0.2"));
    assert_eq!(full.rough.as_deref(), Some("0.3"));
    assert_eq!(full.spec.as_deref(), Some("0.4"));
    assert_eq!(full.sp.as_deref(), Some("0.5"));
    assert_eq!(full.ior.as_deref(), Some("0.6"));
    assert_eq!(full.emit.as_deref(), Some("0.7"));
    assert_eq!(full.flux.as_deref(), Some("0.8"));
    let sparse = &materials[1];
    assert_eq!(sparse.id, 5);
    assert_eq!(sparse.rough.as_deref(), Some("0.9"));
    assert_eq!(sparse.kind, None);
    assert_eq!(sparse.flux, None);
    assert_eq!(loader::load(&bytes).ok().unwrap().materials.len(), 2);
}

#[test]
fn other_bytes_are_no_file() {
    assert!(matches!(loader::load(b"nothing"), Err(VoxLoadingError::ParseError(_))));
}

#[test]
fn shapes_of_missing_models_are_not_supported() {
    let bytes = file(vec![
        model_chunks([1, 1, 1], &[[0, 0, 0, 7]]),
        transform(0, 1, &[]),
        shape(1, 5),
    ]);
    assert!(matches!(loader::load(&bytes), Err(VoxLoadingError::Unsupported)));
}

#[test]
fn cycles_are_not_supported() {
    let bytes = file(vec![
        model_chunks([1, 1, 1], &[[0, 0, 0, 7]]),
        transform(0, 1, &[]),
        group(1, &[0]),
    ]);
    assert!(matches!(loader::load(&bytes), Err(VoxLoadingError::Unsupported)));
}

#[test]
fn voxels_are_turned() {
    let file_model = FileModel {
        size: UVec3::new(3, 4, 5),
        voxels: vec![FileVoxel { x: 2, y: 1, z: 4, i: 6 }],
    };
    let voxels = model::model_voxels(&file_model).unwrap();
    assert_eq!(voxels[0].coords, UVec3::new(2, 4, 2));
    assert_eq!(voxels[0].value, 7);
    let outside = FileModel {
        size: UVec3::new(3, 4, 5),
        voxels: vec![FileVoxel { x: 0, y: 4, z: 0, i: 6 }],
    };
    assert!(model::model_to_tree(&outside).is_none());
    let past = FileModel {
        size: UVec3::new(3, 4, 5),
        voxels: vec![FileVoxel { x: 0, y: 0, z: 0, i: 255 }],
    };
    assert!(model::model_to_tree(&past).is_none());
}

#[test]
fn materials_have_places() {
    assert_eq!(loader::material_table_index(0), Some(0));
    assert_eq!(loader::material_table_index(1), Some(0));
    assert_eq!(loader::material_table_index(256), Some(255));
    assert_eq!(loader::material_table_index(257), None);
}

fn material(kind: Option<&str>) -> FileMaterial {
    FileMaterial {
        id: 3,
        kind: kind.map(|s| s.to_string()),
        weight: None,
        metal: None,
        rough: None,
        spec: None,
        sp: None,
        ior: None,
        emit: None,
        flux: None,
    }
}

#[test]
fn kinds_of_materials() {
    assert_eq!(palette::material_kind(&material(Some("_metal"))), MaterialKind::Metal);
    assert_eq!(palette::material_kind(&material(Some("_emit"))), MaterialKind::Emit);
    assert_eq!(palette::material_kind(&material(Some("_glass"))), MaterialKind::Other);
    assert_eq!(palette::material_kind(&material(None)), MaterialKind::Other);
}

#[test]
fn inputs_of_materials() {
    let bare = MaterialNumbers {
        weight: None,
        metal: Some(5),
        rough: None,
        spec: None,
        sp: Some(6),
        ior: None,
        emit: Some(7),
        flux: None,
    };
    let param = VoxMaterialParam::default();
    let inputs = palette::material_inputs(MaterialKind::Other, bare, param);
    assert_eq!(f32::from_bits(inputs.weight), 1.0);
    assert_eq!(inputs.metallic, Input::Number(5));
    assert_eq!(f32::from_bits(inputs.roughness), 0.6);
    assert_eq!(inputs.specular, Input::Number(6));
    assert_eq!(inputs.emission, Input::Number(7));
    let metal = palette::material_inputs(MaterialKind::Metal, bare, param);
    assert_eq!(metal.metallic, Input::Weight);
    let light = palette::material_inputs(MaterialKind::Emit, bare, param);
    assert_eq!(light.emission, Input::WeightOr(7));
    let glass = palette::material_inputs(
        MaterialKind::Other,
        MaterialNumbers { ior: Some(9), spec: Some(8), ..bare },
        param,
    );
    assert_eq!(glass.specular, Input::Refraction(9));
}

#[test]
fn colors_are_written() {
    let mut palette = VoxPalette::from_buffer(vec![1, 2, 3, 4, 5, 6, 7, 8]);
    assert_eq!(palette.colors(), &[[1, 2, 3, 4], [5, 6, 7, 8]]);
    palette.colors_mut()[1] = [9, 9, 9, 9];
    assert_eq!(palette.colors(), &[[1, 2, 3, 4], [9, 9, 9, 9]]);
    assert_eq!(palette.bindless_handle(), None);
    palette.register_bindless(3);
    palette.register_bindless(4);
    assert_eq!(palette.bindless_handle(), Some(3));
}

#[test]
fn tables_hold_parameters() {
    let mut table = VoxMaterialTable::from_entries(vec![VoxMaterialParam::default(); 256]);
    assert_eq!(table.entries().len(), 256);
    assert_eq!(f32::from_bits(table.entries()[0].pbr[2]), 0.5);
    table.register_bindless(8);
    assert_eq!(table.bindless_handle(), Some(8));
}
