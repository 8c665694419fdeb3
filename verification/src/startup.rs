//! Environment defaults applied at start-up on Linux, to work around
//! rendering problems of the WebKit web view.
use vstd::prelude::*;

verus! {

pub const DMABUF_RENDERER: &'static str = "WEBKIT_DISABLE_DMABUF_RENDERER";

pub const COMPOSITING_MODE: &'static str = "WEBKIT_DISABLE_COMPOSITING_MODE";

pub const GDK_BACKEND: &'static str = "GDK_BACKEND";

pub const LIBGL_SOFTWARE: &'static str = "LIBGL_ALWAYS_SOFTWARE";

/// The environment variables to give a default value, in order, with that
/// value: the WebKit switches always, and the X11 and software-rendering
/// switches when running from an AppImage.  A variable that is already set
/// keeps its value.
pub open spec fn env_defaults(is_appimage: bool) -> Seq<(Seq<char>, Seq<char>)> {
    let always = seq![(DMABUF_RENDERER@, "1"@), (COMPOSITING_MODE@, "1"@)];
    if is_appimage {
        always + seq![(GDK_BACKEND@, "x11"@), (LIBGL_SOFTWARE@, "1"@)]
    } else {
        always
    }
}

/// The environment defaults for start-up (the decisions of
/// `apply_linux_startup_workarounds`).
pub fn startup_env_defaults(is_appimage: bool) -> (r: Vec<(String, String)>)
    ensures
        r.deep_view() == env_defaults(is_appimage),
{
    let mut r: Vec<(String, String)> = Vec::new();
    r.push((DMABUF_RENDERER.to_owned(), "1".to_owned()));
    r.push((COMPOSITING_MODE.to_owned(), "1".to_owned()));
    if is_appimage {
        r.push((GDK_BACKEND.to_owned(), "x11".to_owned()));
        r.push((LIBGL_SOFTWARE.to_owned(), "1".to_owned()));
    }
    assert(r.deep_view() =~= env_defaults(is_appimage));
    r
}

} // verus!
