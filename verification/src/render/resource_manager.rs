use vstd::prelude::*;

verus! {

/// Meshes that the renderer can load.
#[derive(PartialEq, Eq, Hash, Clone, Copy, Debug, Structural)]
pub enum MeshID {
    Square,
    Cube,
    Suzanne,
    InaBody,
    InaCloth,
    InaHair,
    InaHead,
    LostEmpire(u8),
    Engine,
    Gun,
}

/// Number of sub-meshes of the lost empire model.
pub const LOST_EMPIRE_MESH_COUNT: u8 = 45;

/// Materials that the renderer can build.
#[derive(PartialEq, Eq, Hash, Clone, Copy, Debug)]
pub enum MaterialID {
    Texture(TextureID),
    Color([u8; 4]),
    UV,
    Gradient,
    Billboard,
}

/// Textures that the renderer can load.
#[derive(PartialEq, Eq, Hash, Clone, Copy, Debug, Structural)]
pub enum TextureID {
    InaBody,
    InaCloth,
    InaHair,
    InaHead,
    LostEmpire,
}

/// The model file that holds mesh `id`; `None` for the square, which is built in.
pub open spec fn spec_mesh_file(id: MeshID) -> Option<Seq<char>> {
    match id {
        MeshID::Square => None,
        MeshID::Cube => Some("models/default_cube.obj"@),
        MeshID::Suzanne => Some("models/suzanne.obj"@),
        MeshID::InaBody | MeshID::InaCloth | MeshID::InaHair | MeshID::InaHead => Some(
            "models/ina/ReadyToRigINA.obj"@,
        ),
        MeshID::LostEmpire(_) => Some("models/lost_empire.obj"@),
        MeshID::Engine => Some("models/engine.obj"@),
        MeshID::Gun => Some("models/gun.obj"@),
    }
}

/// The mesh under which the sub-mesh `i` of the file holding `id` is kept, if it is kept.
///
/// The character file holds two sub-meshes that are skipped and then hair, cloth, body and
/// head; every sub-mesh of the lost empire file is kept under its index (as a byte); of the
/// other files only the first sub-mesh is kept.
pub open spec fn spec_sub_mesh_id(id: MeshID, i: int) -> Option<MeshID> {
    match id {
        MeshID::Square => None,
        MeshID::InaBody | MeshID::InaCloth | MeshID::InaHair | MeshID::InaHead => if i == 2 {
            Some(MeshID::InaHair)
        } else if i == 3 {
            Some(MeshID::InaCloth)
        } else if i == 4 {
            Some(MeshID::InaBody)
        } else if i == 5 {
            Some(MeshID::InaHead)
        } else {
            None
        },
        MeshID::LostEmpire(_) => Some(MeshID::LostEmpire((i % 256) as u8)),
        _ => if i == 0 {
            Some(id)
        } else {
            None
        },
    }
}

/// The image file of texture `id`.
pub open spec fn spec_texture_path(id: TextureID) -> Seq<char> {
    match id {
        TextureID::InaBody => "models/ina/Body_Base_Color.png"@,
        TextureID::InaCloth => "models/ina/Cloth_Base_Color.png"@,
        TextureID::InaHair => "models/ina/Hair_Base_Color.png"@,
        TextureID::InaHead => "models/ina/Head_Base_Color.png"@,
        TextureID::LostEmpire => "models/lost_empire-RGBA.png"@,
    }
}

/// Every mesh but the built-in square comes from a model file, and the four parts of the
/// character (body, cloth, hair, head) all come from the one character model file.
pub proof fn law_mesh_files(id: MeshID)
    ensures
        spec_mesh_file(id) is None <==> id == MeshID::Square,
        spec_mesh_file(MeshID::InaBody) == spec_mesh_file(MeshID::InaHead),
        spec_mesh_file(MeshID::InaCloth) == spec_mesh_file(MeshID::InaHead),
        spec_mesh_file(MeshID::InaHair) == spec_mesh_file(MeshID::InaHead),
        spec_mesh_file(MeshID::InaHead) == Some("models/ina/ReadyToRigINA.obj"@),
{
}

/// The model file to load for mesh `id`; `None` for the square, which is built in.
///
/// The lost empire model has `LOST_EMPIRE_MESH_COUNT` sub-meshes: no other index names one.
pub fn mesh_file(id: MeshID) -> (r: Option<&'static str>)
    requires
        id matches MeshID::LostEmpire(n) ==> n < LOST_EMPIRE_MESH_COUNT,
    ensures
        match r {
            Some(path) => spec_mesh_file(id) == Some(path@),
            None => spec_mesh_file(id) is None,
        },
{
    match id {
        MeshID::Square => None,
        MeshID::Cube => Some("models/default_cube.obj"),
        MeshID::Suzanne => Some("models/suzanne.obj"),
        MeshID::InaBody | MeshID::InaCloth | MeshID::InaHair | MeshID::InaHead => Some(
            "models/ina/ReadyToRigINA.obj",
        ),
        MeshID::LostEmpire(_) => Some("models/lost_empire.obj"),
        MeshID::Engine => Some("models/engine.obj"),
        MeshID::Gun => Some("models/gun.obj"),
    }
}

/// The mesh under which sub-mesh `i` of the file loaded for `id` is kept, if it is kept.
pub fn sub_mesh_id(id: MeshID, i: usize) -> (r: Option<MeshID>)
    ensures
        r == spec_sub_mesh_id(id, i as int),
{
    match id {
        MeshID::Square => None,
        MeshID::InaBody | MeshID::InaCloth | MeshID::InaHair | MeshID::InaHead => {
            if i == 2 {
                Some(MeshID::InaHair)
            } else if i == 3 {
                Some(MeshID::InaCloth)
            } else if i == 4 {
                Some(MeshID::InaBody)
            } else if i == 5 {
                Some(MeshID::InaHead)
            } else {
                None
            }
        },
        MeshID::LostEmpire(_) => Some(MeshID::LostEmpire((i % 256) as u8)),
        _ => {
            if i == 0 {
                Some(id)
            } else {
                None
            }
        },
    }
}

/// The image file to load for texture `id`.
pub fn texture_path(id: TextureID) -> (r: &'static str)
    ensures
        r@ == spec_texture_path(id),
{
    match id {
        TextureID::InaBody => "models/ina/Body_Base_Color.png",
        TextureID::InaCloth => "models/ina/Cloth_Base_Color.png",
        TextureID::InaHair => "models/ina/Hair_Base_Color.png",
        TextureID::InaHead => "models/ina/Head_Base_Color.png",
        TextureID::LostEmpire => "models/lost_empire-RGBA.png",
    }
}

/// The vertex and fragment shaders of a material's pipeline.
#[derive(PartialEq, Eq, Clone, Copy, Debug, Structural)]
pub enum ShaderStages {
    /// basic vertex shader, solid colour fragment shader
    BasicSolid,
    /// basic vertex shader, UV fragment shader
    BasicUv,
    /// basic vertex shader, gradient fragment shader
    BasicGradient,
    /// billboard vertex shader, solid colour fragment shader
    BillboardSolid,
}

/// The descriptor set a material binds (set 2).
#[derive(PartialEq, Eq, Clone, Copy, Debug)]
pub enum MaterialSet {
    /// the texture, sampled linearly
    Texture(TextureID),
    /// a solid colour, one byte per channel (RGBA)
    Color([u8; 4]),
    /// no descriptor set
    Nothing,
}

/// The shader to build for material `id` when it is not loaded yet, and the key it is kept
/// under: all solid colours share one shader. Textured materials have no entry: their shader
/// is loaded with the renderer.
pub fn shader_for(id: MaterialID) -> (r: Option<(MaterialID, ShaderStages)>)
    ensures
        r == match id {
            MaterialID::Texture(_) => None,
            MaterialID::Color(_) => Some((MaterialID::Color([0u8, 0u8, 0u8, 0u8]), ShaderStages::BasicSolid)),
            MaterialID::UV => Some((MaterialID::UV, ShaderStages::BasicUv)),
            MaterialID::Gradient => Some((MaterialID::Gradient, ShaderStages::BasicGradient)),
            MaterialID::Billboard => Some((MaterialID::Billboard, ShaderStages::BillboardSolid)),
        },
{
    match id {
        MaterialID::Texture(_) => None,
        MaterialID::Color(_) => Some((MaterialID::Color([0, 0, 0, 0]), ShaderStages::BasicSolid)),
        MaterialID::UV => Some((MaterialID::UV, ShaderStages::BasicUv)),
        MaterialID::Gradient => Some((MaterialID::Gradient, ShaderStages::BasicGradient)),
        MaterialID::Billboard => Some((MaterialID::Billboard, ShaderStages::BillboardSolid)),
    }
}

/// The descriptor set of material `id`: its texture, its colour (billboards are magenta), or
/// none.
pub fn material_set(id: MaterialID) -> (r: MaterialSet)
    ensures
        r == match id {
            MaterialID::Texture(t) => MaterialSet::Texture(t),
            MaterialID::Color(c) => MaterialSet::Color(c),
            MaterialID::Billboard => MaterialSet::Color([255u8, 0u8, 255u8, 255u8]),
            MaterialID::UV | MaterialID::Gradient => MaterialSet::Nothing,
        },
{
    match id {
        MaterialID::Texture(t) => MaterialSet::Texture(t),
        MaterialID::Color(c) => MaterialSet::Color(c),
        MaterialID::Billboard => MaterialSet::Color([255, 0, 255, 255]),
        MaterialID::UV | MaterialID::Gradient => MaterialSet::Nothing,
    }
}

/// Loading the file of any mesh keeps that mesh: some sub-mesh of its file is kept under it.
pub proof fn law_requested_mesh_is_kept(id: MeshID)
    requires
        id != MeshID::Square,
    ensures
        exists|i: int| 0 <= i && #[trigger] spec_sub_mesh_id(id, i) == Some(id),
{
    match id {
        MeshID::InaHair => assert(spec_sub_mesh_id(id, 2) == Some(id)),
        MeshID::InaCloth => assert(spec_sub_mesh_id(id, 3) == Some(id)),
        MeshID::InaBody => assert(spec_sub_mesh_id(id, 4) == Some(id)),
        MeshID::InaHead => assert(spec_sub_mesh_id(id, 5) == Some(id)),
        MeshID::LostEmpire(n) => {
            assert((n as int) % 256 == n);
            assert(spec_sub_mesh_id(id, n as int) == Some(id));
        },
        _ => assert(spec_sub_mesh_id(id, 0) == Some(id)),
    }
}

} // verus!
