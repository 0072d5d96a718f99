use vstd::prelude::*;

verus! {

/// How the host draws the caret.
#[derive(Clone, Copy, Debug, PartialEq, Eq, Structural)]
pub enum CursorShape {
    /// A thin line caret.
    Bar,
    /// A wide block caret.
    WideBar,
}

/// Events of the editor surface that the controller reacts to.
#[derive(Clone, Copy, Debug, PartialEq, Eq, Structural)]
pub enum EditorEvent {
    Focused,
    FocusedIn,
    Other,
}

/// The name of the mode drawn with a line caret.
pub open spec fn default_mode_name() -> Seq<char> {
    seq!['d', 'e', 'f', 'a', 'u', 'l', 't']
}

/// The name of the mode a full editing surface starts in.
pub open spec fn action_mode_name() -> Seq<char> {
    seq!['a', 'c', 't', 'i', 'o', 'n']
}

/// The mode named `default` has a line caret; every other name a block caret.
pub open spec fn shape_for(mode: Seq<char>) -> CursorShape {
    if mode == default_mode_name() { CursorShape::Bar } else { CursorShape::WideBar }
}

/// The caret shape of a mode.
pub fn cursor_shape_for(mode: &String) -> (shape: CursorShape)
    ensures
        shape == shape_for(mode@),
{
    let default_name = "default".to_owned();
    proof {
        reveal_strlit("default");
    }
    assert(default_name@ =~= default_mode_name());
    if *mode == default_name {
        CursorShape::Bar
    } else {
        CursorShape::WideBar
    }
}

/// The mode of one editor surface. The name is free-form: any string is a mode.
#[derive(Clone, Debug)]
pub struct ModeController {
    mode: String,
}

impl ModeController {
    pub closed spec fn spec_mode(&self) -> Seq<char> {
        self.mode@
    }

    /// A full editing surface starts in `action`, any other in `default`.
    pub fn new(full_editor: bool) -> (c: ModeController)
        ensures
            c.spec_mode() == (if full_editor { action_mode_name() } else { default_mode_name() }),
    {
        let mode = if full_editor { "action".to_owned() } else { "default".to_owned() };
        proof {
            reveal_strlit("action");
            reveal_strlit("default");
        }
        assert(mode@ =~= (if full_editor { action_mode_name() } else { default_mode_name() }));
        ModeController { mode }
    }

    /// The current mode's name, as exposed to the host's key context.
    pub fn mode(&self) -> (m: &String)
        ensures
            m@ == self.spec_mode(),
    {
        &self.mode
    }

    /// The caret shape of the current mode.
    pub fn cursor_shape(&self) -> (shape: CursorShape)
        ensures
            shape == shape_for(self.spec_mode()),
    {
        cursor_shape_for(&self.mode)
    }

    /// Switches to the mode `mode` and returns the caret shape to draw.
    pub fn switch_mode(&mut self, mode: String) -> (shape: CursorShape)
        ensures
            final(self).spec_mode() == mode@,
            shape == shape_for(mode@),
    {
        self.mode = mode;
        cursor_shape_for(&self.mode)
    }

    /// On focus, the caret shape of the current mode is drawn again, since
    /// another surface may have changed it; other events ask for nothing.
    pub fn on_event(&self, event: EditorEvent) -> (shape: Option<CursorShape>)
        ensures
            shape == (match event {
                EditorEvent::Focused | EditorEvent::FocusedIn => Some(shape_for(self.spec_mode())),
                EditorEvent::Other => None,
            }),
    {
        match event {
            EditorEvent::Focused | EditorEvent::FocusedIn => Some(self.cursor_shape()),
            EditorEvent::Other => None,
        }
    }
}

} // verus!
