//! The one startup hook: setting the wallpaper through the external `feh`
//! program. The hook only decides the command line; launching it detached
//! is the shell's process-spawn collaborator.

use vstd::prelude::*;

verus! {

/// How the wallpaper is drawn at startup.
pub enum Feh {
    /// Scale the configured background image to the screen.
    Center,
}

impl Feh {
    /// The command line the process-spawn collaborator should launch,
    /// fire-and-forget, when the event loop starts.
    pub fn command(&self) -> (r: &'static str)
        ensures
            r@ == "feh --no-fehbg --bg-scale ~/.config/feh/bg.png"@,
    {
        "feh --no-fehbg --bg-scale ~/.config/feh/bg.png"
    }
}

} // verus!
