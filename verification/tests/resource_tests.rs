use vulkano_template::game_objects::movement::PlayerWalkerController;
use vulkano_template::game_objects::{MaterialSwapper, NameComponent, TransformTracker};
use vulkano_template::models::mesh::Mesh;
use vulkano_template::render::mesh_cache::MeshCache;
use vulkano_template::models::traits::Model;
use vulkano_template::render::resource_manager::{
    material_set, mesh_file, shader_for, sub_mesh_id, texture_path, MaterialID, MaterialSet, MeshID,
    ShaderStages, TextureID, LOST_EMPIRE_MESH_COUNT,
};

#[test]
fn mesh_files() {
    assert_eq!(mesh_file(MeshID::Square), None);
    assert_eq!(mesh_file(MeshID::Cube), Some("models/default_cube.obj"));
    assert_eq!(mesh_file(MeshID::Suzanne), Some("models/suzanne.obj"));
    assert_eq!(mesh_file(MeshID::InaHead), Some("models/ina/ReadyToRigINA.obj"));
    assert_eq!(mesh_file(MeshID::LostEmpire(44)), Some("models/lost_empire.obj"));
    assert_eq!(mesh_file(MeshID::Engine), Some("models/engine.obj"));
    assert_eq!(mesh_file(MeshID::Gun), Some("models/gun.obj"));
    assert_eq!(LOST_EMPIRE_MESH_COUNT, 45);
}

#[test]
fn sub_mesh_ids() {
    assert_eq!(sub_mesh_id(MeshID::InaBody, 0), None);
    assert_eq!(sub_mesh_id(MeshID::InaBody, 1), None);
    assert_eq!(sub_mesh_id(MeshID::InaBody, 2), Some(MeshID::InaHair));
    assert_eq!(sub_mesh_id(MeshID::InaHair, 3), Some(MeshID::InaCloth));
    assert_eq!(sub_mesh_id(MeshID::InaHair, 4), Some(MeshID::InaBody));
    assert_eq!(sub_mesh_id(MeshID::InaHair, 5), Some(MeshID::InaHead));
    assert_eq!(sub_mesh_id(MeshID::InaHair, 6), None);
    assert_eq!(sub_mesh_id(MeshID::LostEmpire(3), 7), Some(MeshID::LostEmpire(7)));
    assert_eq!(sub_mesh_id(MeshID::LostEmpire(3), 300), Some(MeshID::LostEmpire(44)));
    assert_eq!(sub_mesh_id(MeshID::Gun, 0), Some(MeshID::Gun));
    assert_eq!(sub_mesh_id(MeshID::Gun, 1), None);
    assert_eq!(sub_mesh_id(MeshID::Square, 0), None);
}

#[test]
fn texture_paths() {
    assert_eq!(texture_path(TextureID::InaBody), "models/ina/Body_Base_Color.png");
    assert_eq!(texture_path(TextureID::InaCloth), "models/ina/Cloth_Base_Color.png");
    assert_eq!(texture_path(TextureID::InaHair), "models/ina/Hair_Base_Color.png");
    assert_eq!(texture_path(TextureID::InaHead), "models/ina/Head_Base_Color.png");
    assert_eq!(texture_path(TextureID::LostEmpire), "models/lost_empire-RGBA.png");
    assert_eq!(MaterialID::Texture(TextureID::LostEmpire), MaterialID::Texture(TextureID::LostEmpire));
    assert_ne!(MaterialID::Color([0, 0, 0, 0]), MaterialID::Color([1, 0, 0, 0]));
}

#[test]
fn material_swapper_cycles() {
    let mut s = MaterialSwapper::new(vec![10u32, 20, 30]);
    assert_eq!(s.swap_material(), 20);
    assert_eq!(s.swap_material(), 30);
    assert_eq!(s.swap_material(), 10);
    assert_eq!(s.swap_material(), 20);
}

#[test]
fn components_hold_their_values() {
    let n = NameComponent(String::from("player"));
    assert_eq!(n.0, "player");
    let t = TransformTracker("camera");
    assert_eq!(t.0, "camera");
    let _ = PlayerWalkerController;
}

#[test]
fn mesh_from_flat_lists() {
    let positions = vec![3.0f32, 6.0, 9.0, 0.0, 3.0, -3.0];
    let normals = vec![0.0f32, 0.0, 1.0, 0.0, 1.0, 0.0];
    let mesh = Mesh::from_obj_data(&positions, &normals, vec![0, 1, 0], |p: (f32, f32, f32), n: (f32, f32, f32)| {
        ([p.0 / 3., p.1 / 3., p.2 / 3.], [n.0, n.1, n.2])
    });
    let v = mesh.get_vertices();
    assert_eq!(v.len(), 2);
    assert_eq!(v[0], ([1.0, 2.0, 3.0], [0.0, 0.0, 1.0]));
    assert_eq!(v[1], ([0.0, 1.0, -1.0], [0.0, 1.0, 0.0]));
    assert_eq!(mesh.get_indicies(), vec![0, 1, 0]);
}

struct Triangle;

impl Model<u8, ()> for Triangle {
    fn get_indices() -> Vec<u32> {
        vec![0, 1, 2]
    }
    fn get_vertices() -> Vec<u8> {
        vec![7, 8, 9]
    }
    fn get_initial_uniform_data() {}
}

#[test]
fn mesh_from_model() {
    let mesh: Mesh<u8> = Mesh::from_model::<(), Triangle>();
    assert_eq!(mesh.get_vertices(), vec![7, 8, 9]);
    assert_eq!(mesh.get_indicies(), vec![0, 1, 2]);
}

#[test]
fn material_dispatch() {
    assert_eq!(shader_for(MaterialID::Texture(TextureID::InaBody)), None);
    assert_eq!(
        shader_for(MaterialID::Color([9, 8, 7, 6])),
        Some((MaterialID::Color([0, 0, 0, 0]), ShaderStages::BasicSolid))
    );
    assert_eq!(shader_for(MaterialID::UV), Some((MaterialID::UV, ShaderStages::BasicUv)));
    assert_eq!(shader_for(MaterialID::Gradient), Some((MaterialID::Gradient, ShaderStages::BasicGradient)));
    assert_eq!(shader_for(MaterialID::Billboard), Some((MaterialID::Billboard, ShaderStages::BillboardSolid)));
    assert_eq!(material_set(MaterialID::Texture(TextureID::InaHair)), MaterialSet::Texture(TextureID::InaHair));
    assert_eq!(material_set(MaterialID::Color([1, 2, 3, 4])), MaterialSet::Color([1, 2, 3, 4]));
    assert_eq!(material_set(MaterialID::Billboard), MaterialSet::Color([255, 0, 255, 255]));
    assert_eq!(material_set(MaterialID::UV), MaterialSet::Nothing);
}

fn tagged_mesh(tag: u32) -> Mesh<u32> {
    let positions = vec![tag, 0, 0];
    let normals = vec![0u32, 0, 1];
    Mesh::from_obj_data(&positions, &normals, vec![0], |p: (u32, u32, u32), _n: (u32, u32, u32)| p.0)
}

#[test]
fn mesh_cache_loads_each_file_once() {
    let mut cache: MeshCache<u32> = MeshCache::new();
    assert!(cache.get(MeshID::InaHead).is_none());
    let mut calls = 0;
    cache.load_missing(MeshID::InaHead, || {
        calls += 1;
        vec![(MeshID::InaHair, tagged_mesh(1)), (MeshID::InaHead, tagged_mesh(2)), (MeshID::InaHead, tagged_mesh(3))]
    });
    assert_eq!(calls, 1);
    // a later mesh under the same id replaces the earlier one
    assert_eq!(cache.get(MeshID::InaHead).unwrap().get_vertices(), vec![3]);
    assert_eq!(cache.get(MeshID::InaHair).unwrap().get_vertices(), vec![1]);
    // the hair came with the head: asking for it loads nothing
    cache.load_missing(MeshID::InaHair, || {
        calls += 1;
        Vec::new()
    });
    assert_eq!(calls, 1);
    assert!(cache.get(MeshID::Cube).is_none());
}
