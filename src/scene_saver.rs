use vstd::prelude::*;
use vstd::string::StringExecFns;

verus! {

/// Directory that holds saved scenes.
pub const SCENE_FOLDER: &'static str = "scenes";

/// Path of the record file of scene `name`: `scenes/<name>_voxel_data.bin`.
pub open spec fn voxel_data_path_spec(name: Seq<char>) -> Seq<char> {
    "scenes"@ + "/"@ + name + "_voxel_data.bin"@
}

/// Path of the palette file of scene `name`: `scenes/<name>_material_data.bin`.
pub open spec fn material_data_path_spec(name: Seq<char>) -> Seq<char> {
    "scenes"@ + "/"@ + name + "_material_data.bin"@
}

/// Path of the file that holds the records of scene `scene_name`.
pub fn voxel_data_path(scene_name: &str) -> (r: String)
    ensures
        r@ == voxel_data_path_spec(scene_name@),
{
    let mut p = String::from_str(SCENE_FOLDER);
    p.append("/");
    p.append(scene_name);
    p.append("_voxel_data.bin");
    p
}

/// Path of the file that holds the palette of scene `scene_name`.
pub fn material_data_path(scene_name: &str) -> (r: String)
    ensures
        r@ == material_data_path_spec(scene_name@),
{
    let mut p = String::from_str(SCENE_FOLDER);
    p.append("/");
    p.append(scene_name);
    p.append("_material_data.bin");
    p
}

/// Relies on `std::path::Path::exists`: whether something exists at `path`.
/// What is on disk can change at any time, so nothing is promised of the result.
#[verifier::external_body]
fn path_exists(path: &str) -> bool {
    std::path::Path::new(path).exists()
}

/// Whether the record file of scene `scene_name` exists.
pub fn does_scene_exist(scene_name: &str) -> bool {
    let path = voxel_data_path(scene_name);
    path_exists(path.as_str())
}

} // verus!
