//! The host of web views, which the front end provides.
use vstd::prelude::*;

verus! {

/// Makes web views for plugins that are web pages. No windowing framework is
/// presumed.
pub trait WebviewHost {
    /// Makes or shows a web view, which may be hidden.
    fn spawn_plugin_webview(&self, label: &str, url: &str, init_js: &str) -> Result<(), String>;

    /// Closes a web view, if it can be done.
    fn close_webview(&self, _label: &str) -> (r: Result<(), String>)
        default_ensures
            r is Ok,
    {
        Ok(())
    }

    /// Shows a web view, if it can be done.
    fn show_webview(&self, _label: &str) -> (r: Result<(), String>)
        default_ensures
            r is Ok,
    {
        Ok(())
    }

    /// Opens the developer tools of a web view, if it has any.
    fn open_devtools(&self, _label: &str) -> (r: Result<(), String>)
        default_ensures
            r is Ok,
    {
        Ok(())
    }
}

/// Sets the host of web views. Only the first call has an effect.
pub fn init_webview_host<H: WebviewHost>(cell: &mut Option<H>, host: H)
    ensures
        *final(cell) == match *old(cell) {
            Some(h) => Some(h),
            None => Some(host),
        },
{
    if cell.is_none() {
        *cell = Some(host);
    }
}

/// The host of web views, once it is set.
pub fn webview_host<H: WebviewHost>(cell: &Option<H>) -> (r: Option<&H>)
    ensures
        match r {
            Some(h) => *cell == Some(*h),
            None => *cell is None,
        },
{
    match cell {
        Some(h) => Some(h),
        None => None,
    }
}

} // verus!
