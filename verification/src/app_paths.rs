//! Where the application keeps its data: a folder of its own holding the
//! spell-book file and a folder of images.

use vstd::prelude::*;

verus! {

/// The name of the application's own data folder.
pub const APP_DIR_NAME: &'static str = "type-animal";

/// The name of the spell-book file in the data folder.
pub const JSON_FILE: &'static str = "list.json";

/// The name of the image folder in the data folder.
pub const IMAGE_DIR: &'static str = "images";

/// The file name of the sample image of the default data.
pub const DEFAULT_IMAGE_FILE: &'static str = "cat_1.jpeg";

/// A path component with no separator and no drive prefix in it, and not made
/// of dots only (so neither `.` nor `..`).
pub open spec fn plain_name(name: Seq<char>) -> bool {
    &&& name.len() > 0
    &&& forall|i: int| 0 <= i < name.len() ==> #[trigger] name[i] != '/' && name[i] != '\\' && name[i] != ':'
    &&& exists|i: int| 0 <= i < name.len() && #[trigger] name[i] != '.'
}

/// A path that starts with the verbatim prefix `\\?\`.
pub open spec fn verbatim(base: Seq<char>) -> bool {
    &&& base.len() >= 4
    &&& base[0] == '\\'
    &&& base[1] == '\\'
    &&& base[2] == '?'
    &&& base[3] == '\\'
}

/// `res` is `base` and `name` with one path separator (`/` or `\\`) between.
pub open spec fn separated(base: Seq<char>, name: Seq<char>, res: Seq<char>) -> bool {
    ||| res == base + seq!['/'] + name
    ||| res == base + seq!['\\'] + name
}

/// `res` is the path `base` extended by the relative name `name`: the name
/// alone where the base is empty; appended directly where the base ends in
/// `/`; after a separator where the base ends in anything but `/`, `\\` or
/// `:`. Where it ends in `\\` (a separator only on some platforms) or `:` (a
/// drive such as `C:` on some platforms), either may be.
pub open spec fn joined(base: Seq<char>, name: Seq<char>, res: Seq<char>) -> bool {
    if base.len() == 0 {
        res == name
    } else if base.last() == '/' {
        res == base + name
    } else if base.last() == '\\' {
        res == base + name || res == base + seq!['/'] + name
    } else if base.last() == ':' {
        res == base + name || separated(base, name, res)
    } else {
        separated(base, name, res)
    }
}

/// `s` ends with `t`.
pub open spec fn ends_with(s: Seq<char>, t: Seq<char>) -> bool {
    t.len() <= s.len() && s.subrange(s.len() - t.len(), s.len() as int) == t
}

/// `res` is the path `base` extended by the relative name `name`: as `joined`
/// says; for a base with a verbatim prefix (which the join normalises), a path
/// that ends with the name.
pub open spec fn extended(base: Seq<char>, name: Seq<char>, res: Seq<char>) -> bool {
    if verbatim(base) {
        ends_with(res, name)
    } else {
        joined(base, name, res)
    }
}

/// `Path::join` of a plain file name onto a base path, as text. Claimed: a
/// relative name extends the base path as `extended` says: the base kept as
/// it is, then a separator where the base does not end in one, then the name.
/// Which separator is put is the platform's (`/`, or `\\` on Windows) and is
/// not stated. For a base with a verbatim prefix, whose joined path is
/// normalised, only that the path ends with the name is claimed.
#[verifier::external_body]
fn join_path(base: &str, name: &str) -> (res: String)
    requires
        plain_name(name@),
    ensures
        extended(base@, name@, res@),
{
    std::path::Path::new(base).join(name).to_string_lossy().into_owned()
}

/// Records the application's data folder.
pub fn initialize_app_data_path(app_data_path: &mut Option<String>, app_dir: String)
    ensures
        *final(app_data_path) == Some(app_dir),
{
    *app_data_path = Some(app_dir);
}

/// The path of the spell-book file: `list.json` in the data folder, which must
/// have been recorded.
pub fn get_json_path(app_data_path: &Option<String>) -> (res: String)
    requires
        app_data_path is Some,
    ensures
        extended(app_data_path->0@, JSON_FILE@, res@),
{
    proof {
        reveal_strlit("list.json");
        assert(JSON_FILE@[0] != '.');
    }
    match app_data_path {
        Some(dir) => join_path(dir.as_str(), JSON_FILE),
        None => String::new(),
    }
}

/// The application's data folder inside the user's data folder.
pub fn app_dir_for(data_dir: &str) -> (res: String)
    ensures
        extended(data_dir@, APP_DIR_NAME@, res@),
{
    proof {
        reveal_strlit("type-animal");
        assert(APP_DIR_NAME@[0] != '.');
    }
    join_path(data_dir, APP_DIR_NAME)
}

/// The paths inside the data folder that the default data fills.
pub struct DataLayout {
    /// The spell-book file.
    pub json_path: String,
    /// The image folder.
    pub image_dir: String,
    /// The sample image inside the image folder.
    pub image_path: String,
}

/// The spell-book file, the image folder and the sample image of a data folder.
pub fn data_layout(app_dir: &str) -> (res: DataLayout)
    ensures
        extended(app_dir@, JSON_FILE@, res.json_path@),
        extended(app_dir@, IMAGE_DIR@, res.image_dir@),
        extended(res.image_dir@, DEFAULT_IMAGE_FILE@, res.image_path@),
{
    proof {
        reveal_strlit("list.json");
        reveal_strlit("images");
        reveal_strlit("cat_1.jpeg");
        assert(JSON_FILE@[0] != '.');
        assert(IMAGE_DIR@[0] != '.');
        assert(DEFAULT_IMAGE_FILE@[0] != '.');
    }
    let json_path = join_path(app_dir, JSON_FILE);
    let image_dir = join_path(app_dir, IMAGE_DIR);
    let image_path = join_path(image_dir.as_str(), DEFAULT_IMAGE_FILE);
    DataLayout { json_path, image_dir, image_path }
}

} // verus!
