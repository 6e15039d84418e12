//! The window-facing edge, modeled on plain values: the per-frame window
//! extraction that feeds the renderer, the surface-reconfiguration rule,
//! and the close-request handling. The windowing and GPU calls
//! themselves live in the embedding application.

use vstd::prelude::*;

verus! {

/// Marks a system that must run on the main thread.
pub struct NonSendMarker;

/// An event that indicates the app should exit.
#[derive(Clone, Copy, PartialEq, Eq, Structural, Debug)]
pub struct AppExit;

/// An event raised when a window's close button was pressed.
#[derive(Clone, Copy, PartialEq, Eq, Structural, Debug)]
pub struct WindowCloseRequested {
    pub id: u32,
}

/// Turns any pending close request into an exit event.
pub struct ExitOnWindowCloseSystem;

impl ExitOnWindowCloseSystem {
    /// One exit event is sent exactly when a close was requested.
    pub fn run(
        &mut self,
        window_close_requested_events: &Vec<WindowCloseRequested>,
        app_exit_events: &mut Vec<AppExit>,
    )
        ensures
            window_close_requested_events@.len() > 0 ==> final(app_exit_events)@
                == old(app_exit_events)@.push(AppExit),
            window_close_requested_events@.len() == 0 ==> final(app_exit_events)@
                == old(app_exit_events)@,
    {
        if window_close_requested_events.len() > 0 {
            app_exit_events.push(AppExit);
        }
    }
}

/// Configuration of the windowing plugin; the event loop itself runs in
/// the embedding application.
pub struct WinitPlugin {
    pub add_primary_window: bool,
    pub exit_on_close: bool,
}

impl Default for WinitPlugin {
    /// By default a primary window is requested and closing it exits.
    fn default() -> (d: Self)
        ensures
            d.add_primary_window,
            d.exit_on_close,
    {
        WinitPlugin { add_primary_window: true, exit_on_close: true }
    }
}

/// The per-frame snapshot of one window the renderer works from.
#[derive(Clone, Copy, PartialEq, Eq, Structural, Debug)]
pub struct ExtractedWindow {
    pub id: u32,
    pub physical_width: u32,
    pub physical_height: u32,
    pub size_changed: bool,
}

/// Marks the window-render plugin; its surface systems run against the
/// GPU in the embedding application.
pub struct WindowRenderPlugin;

/// Extracts the live windows into renderer-side snapshots each frame.
pub struct ExtractWindowSystem;

impl ExtractWindowSystem {
    /// Fold one window into the snapshot list: sizes are clamped to at
    /// least one, a new window gets a fresh entry, and a known one is
    /// marked changed exactly when its clamped size differs.
    #[verifier::loop_isolation(false)]
    pub fn extract_window(extracted: &mut Vec<ExtractedWindow>, id: u32, width: u32, height: u32)
        requires
            forall|i1: int, i2: int|
                0 <= i1 < i2 < old(extracted)@.len() ==> (#[trigger] old(extracted)@[i1]).id != (
                #[trigger] old(extracted)@[i2]).id,
        ensures
            forall|i1: int, i2: int|
                0 <= i1 < i2 < final(extracted)@.len() ==> (#[trigger] final(extracted)@[i1]).id
                    != (#[trigger] final(extracted)@[i2]).id,
            (forall|i: int|
                0 <= i < old(extracted)@.len() ==> (#[trigger] old(extracted)@[i]).id != id)
                ==> final(extracted)@ == old(extracted)@.push(
                ExtractedWindow {
                    id,
                    physical_width: if width > 0 { width } else { 1u32 },
                    physical_height: if height > 0 { height } else { 1u32 },
                    size_changed: false,
                },
            ),
            forall|i: int|
                0 <= i < old(extracted)@.len() && (#[trigger] old(extracted)@[i]).id == id
                    ==> final(extracted)@ == old(extracted)@.update(
                    i,
                    ExtractedWindow {
                        id,
                        physical_width: if width > 0 { width } else { 1u32 },
                        physical_height: if height > 0 { height } else { 1u32 },
                        size_changed: (if width > 0 { width } else { 1u32 })
                            != old(extracted)@[i].physical_width || (if height > 0 {
                            height
                        } else {
                            1u32
                        }) != old(extracted)@[i].physical_height,
                    },
                ),
    {
        let new_width = if width > 0 { width } else { 1 };
        let new_height = if height > 0 { height } else { 1 };
        let mut i: usize = 0;
        while i < extracted.len()
            invariant
                0 <= i <= extracted@.len(),
                extracted@ == old(extracted)@,
                forall|k: int| 0 <= k < i ==> (#[trigger] extracted@[k]).id != id,
            decreases extracted@.len() - i,
        {
            if extracted[i].id == id {
                let previous = extracted[i];
                let size_changed = new_width != previous.physical_width || new_height
                    != previous.physical_height;
                extracted.set(
                    i,
                    ExtractedWindow {
                        id,
                        physical_width: new_width,
                        physical_height: new_height,
                        size_changed,
                    },
                );
                proof {
                    let ii = i as int;
                    assert forall|k1: int, k2: int|
                        0 <= k1 < k2 < extracted@.len() implies (#[trigger] extracted@[k1]).id
                        != (#[trigger] extracted@[k2]).id by {
                        if k1 != ii {
                            assert(extracted@[k1] == old(extracted)@[k1]);
                        }
                        if k2 != ii {
                            assert(extracted@[k2] == old(extracted)@[k2]);
                        }
                        assert(old(extracted)@[k1].id != old(extracted)@[k2].id);
                    }
                    assert forall|k: int|
                        0 <= k < old(extracted)@.len() && (#[trigger] old(extracted)@[k]).id
                            == id implies extracted@ == old(extracted)@.update(
                        k,
                        ExtractedWindow {
                            id,
                            physical_width: new_width,
                            physical_height: new_height,
                            size_changed: new_width != old(extracted)@[k].physical_width
                                || new_height != old(extracted)@[k].physical_height,
                        },
                    ) by {
                        if k != ii {
                            if k < ii {
                                assert(old(extracted)@[k].id != old(extracted)@[ii].id);
                            } else {
                                assert(old(extracted)@[ii].id != old(extracted)@[k].id);
                            }
                        }
                    }
                }
                return ;
            }
            i = i + 1;
        }
        extracted.push(
            ExtractedWindow {
                id,
                physical_width: new_width,
                physical_height: new_height,
                size_changed: false,
            },
        );
    }
}

/// The physical size of the window a camera's render target names, if
/// that window is among the extracted snapshots.
#[verifier::loop_isolation(false)]
pub fn get_physical_size(extracted: &Vec<ExtractedWindow>, id: u32) -> (r: Option<(u32, u32)>)
    requires
        forall|i1: int, i2: int|
            0 <= i1 < i2 < extracted@.len() ==> (#[trigger] extracted@[i1]).id != (
            #[trigger] extracted@[i2]).id,
    ensures
        (forall|i: int| 0 <= i < extracted@.len() ==> (#[trigger] extracted@[i]).id != id) ==> r
            is None,
        forall|i: int|
            0 <= i < extracted@.len() && (#[trigger] extracted@[i]).id == id ==> r == Some(
                (extracted@[i].physical_width, extracted@[i].physical_height),
            ),
{
    let mut i: usize = 0;
    while i < extracted.len()
        invariant
            0 <= i <= extracted@.len(),
            forall|k: int| 0 <= k < i ==> (#[trigger] extracted@[k]).id != id,
        decreases extracted@.len() - i,
    {
        if extracted[i].id == id {
            proof {
                let ii = i as int;
                assert forall|k: int|
                    0 <= k < extracted@.len() && (#[trigger] extracted@[k]).id == id
                    implies k == ii by {
                    if k < ii {
                        assert(extracted@[k].id != extracted@[ii].id);
                    } else if k > ii {
                        assert(extracted@[ii].id != extracted@[k].id);
                    }
                }
            }
            return Some((extracted[i].physical_width, extracted[i].physical_height));
        }
        i = i + 1;
    }
    None
}

/// Prepares window surfaces for the frame; the GPU work runs in the
/// embedding application, driven by the rule below.
pub struct PrepareWindowsSystem;

impl PrepareWindowsSystem {
    /// A surface is (re)configured on its first use and whenever the
    /// window's size changed.
    pub fn needs_configure(first_configuration: bool, size_changed: bool) -> (r: bool)
        ensures
            r == (first_configuration || size_changed),
    {
        first_configuration || size_changed
    }
}

} // verus!
