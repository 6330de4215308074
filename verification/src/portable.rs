//! Portable mode: when a `portable.flag` file lies beside the executable,
//! all data lives in a `data` folder beside it; otherwise in the
//! application's data folder.

use vstd::prelude::*;

use crate::error::{AppError, AppResult};

verus! {

/// The path that `std::path::Path::join` makes of a folder and a relative
/// part.
pub uninterp spec fn spec_path_join(base: Seq<char>, part: Seq<char>) -> Seq<char>;

/// Calls `std::path::Path::join` and turns the result back into text.
/// Claimed: the result is the named path.
#[verifier::external_body]
fn path_join(base: &str, part: &str) -> (r: String)
    ensures
        r@ == spec_path_join(base@, part@),
{
    std::path::Path::new(base).join(part).to_string_lossy().into_owned()
}

/// The flag file whose presence beside the executable turns portable mode on.
pub fn portable_flag_path(exe_dir: &str) -> (r: String)
    ensures
        r@ == spec_path_join(exe_dir@, "portable.flag"@),
{
    path_join(exe_dir, "portable.flag")
}

/// Portable mode is on when the executable's folder is known and the flag
/// file exists in it (`flag_exists`).
pub fn is_portable(exe_dir: &Option<String>, flag_exists: bool) -> (r: bool)
    ensures
        r == (exe_dir is Some && flag_exists),
{
    exe_dir.is_some() && flag_exists
}

/// The data folder of portable mode, `<executable folder>/data`; none
/// outside portable mode.
pub fn portable_data_dir(exe_dir: &Option<String>, flag_exists: bool) -> (r: Option<String>)
    ensures
        (exe_dir is Some && flag_exists) ==> r is Some && r->0@ == spec_path_join(exe_dir->0@, "data"@),
        !(exe_dir is Some && flag_exists) ==> r is None,
{
    if is_portable(exe_dir, flag_exists) {
        match exe_dir {
            Some(d) => Some(path_join(d.as_str(), "data")),
            None => None,
        }
    } else {
        None
    }
}

/// The web view's data folder of portable mode, `<data folder>/webview`.
pub fn portable_webview_dir(exe_dir: &Option<String>, flag_exists: bool) -> (r: Option<String>)
    ensures
        (exe_dir is Some && flag_exists) ==> r is Some && r->0@ == spec_path_join(
            spec_path_join(exe_dir->0@, "data"@),
            "webview"@,
        ),
        !(exe_dir is Some && flag_exists) ==> r is None,
{
    match portable_data_dir(exe_dir, flag_exists) {
        Some(d) => Some(path_join(d.as_str(), "webview")),
        None => None,
    }
}

/// The application's data folder: the portable one when portable mode is
/// on, otherwise the installed application's (`app_data_dir`, or the error
/// met looking it up).
pub fn resolve_app_dir(exe_dir: &Option<String>, flag_exists: bool, app_data_dir: &Result<String, String>) -> (r: AppResult<String>)
    ensures
        (exe_dir is Some && flag_exists) ==> r is Ok && r->Ok_0@ == spec_path_join(exe_dir->0@, "data"@),
        !(exe_dir is Some && flag_exists) && app_data_dir is Ok ==> r is Ok && r->Ok_0 == app_data_dir->Ok_0,
        !(exe_dir is Some && flag_exists) && app_data_dir is Err ==> r is Err && r->Err_0 is Internal
            && r->Err_0->Internal_0@ == "获取应用数据目录失败: "@ + app_data_dir->Err_0@,
{
    match portable_data_dir(exe_dir, flag_exists) {
        Some(d) => Ok(d),
        None => match app_data_dir {
            Ok(d) => Ok(d.clone()),
            Err(e) => Err(AppError::Internal(String::from_str("获取应用数据目录失败: ").concat(e.as_str()))),
        },
    }
}

} // verus!
