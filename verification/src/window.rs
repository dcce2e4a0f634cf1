//! The decisions of the window loop: what to do when the window system
//! resumes the application, when a window event arrives and when drawing a
//! frame fails. The caller owns the window, the GPU and the clock, performs
//! the action and comes back with the next event.
use vstd::prelude::*;

verus! {

/// A window event, with what the engine reads of it.
#[derive(Clone, Copy, Debug, PartialEq, Eq, Structural)]
pub enum WindowEvent {
    CloseRequested,
    Resized { width: u32, height: u32 },
    /// A keyboard key with a known physical key code went down or up.
    Key { code: u32, pressed: bool },
    /// A mouse button went down or up.
    MouseButton { button: u32, pressed: bool },
    /// The cursor moved; the position is read by the caller.
    CursorMoved,
    RedrawRequested,
    /// Anything else, which the engine ignores.
    Other,
}

/// What to do about a window event.
#[derive(Clone, Copy, Debug, PartialEq, Eq, Structural)]
pub enum WindowAction {
    /// Leave the event loop.
    Exit,
    /// Resize the drawing surface.
    ResizeSurface { width: u32, height: u32 },
    /// Record a key press in the keyboard input state.
    PressKey(u32),
    /// Record a key release in the keyboard input state.
    ReleaseKey(u32),
    /// Record a button press in the mouse input state.
    PressButton(u32),
    /// Record a button release in the mouse input state.
    ReleaseButton(u32),
    /// Store the new cursor position.
    MoveCursor,
    /// Run one frame, with the steps that `frame_steps` lists.
    RunFrame,
    /// Nothing to do.
    Ignore,
}

/// The action for each window event.
pub open spec fn action_for(event: WindowEvent) -> WindowAction {
    match event {
        WindowEvent::CloseRequested => WindowAction::Exit,
        WindowEvent::Resized { width, height } => WindowAction::ResizeSurface { width, height },
        WindowEvent::Key { code, pressed } => if pressed {
            WindowAction::PressKey(code)
        } else {
            WindowAction::ReleaseKey(code)
        },
        WindowEvent::MouseButton { button, pressed } => if pressed {
            WindowAction::PressButton(button)
        } else {
            WindowAction::ReleaseButton(button)
        },
        WindowEvent::CursorMoved => WindowAction::MoveCursor,
        WindowEvent::RedrawRequested => WindowAction::RunFrame,
        WindowEvent::Other => WindowAction::Ignore,
    }
}

/// Decides what to do about a window event.
pub fn window_action(event: WindowEvent) -> (r: WindowAction)
    ensures
        r == action_for(event),
        forall|button: u32, pressed: bool|
            event == (WindowEvent::MouseButton { button, pressed }) ==> r == if pressed {
                WindowAction::PressButton(button)
            } else {
                WindowAction::ReleaseButton(button)
            },
        forall|code: u32, pressed: bool|
            event == (WindowEvent::Key { code, pressed }) ==> r == if pressed {
                WindowAction::PressKey(code)
            } else {
                WindowAction::ReleaseKey(code)
            },
        forall|width: u32, height: u32|
            event == (WindowEvent::Resized { width, height }) ==> r == (WindowAction::ResizeSurface {
                width,
                height,
            }),
        event == WindowEvent::CloseRequested ==> r == WindowAction::Exit,
        event == WindowEvent::RedrawRequested ==> r == WindowAction::RunFrame,
        event == WindowEvent::CursorMoved ==> r == WindowAction::MoveCursor,
        event == WindowEvent::Other ==> r == WindowAction::Ignore,
{
    proof {
        law_press_and_release_are_symmetric();
    }
    match event {
        WindowEvent::CloseRequested => WindowAction::Exit,
        WindowEvent::Resized { width, height } => WindowAction::ResizeSurface { width, height },
        WindowEvent::Key { code, pressed } => {
            if pressed {
                WindowAction::PressKey(code)
            } else {
                WindowAction::ReleaseKey(code)
            }
        },
        WindowEvent::MouseButton { button, pressed } => {
            if pressed {
                WindowAction::PressButton(button)
            } else {
                WindowAction::ReleaseButton(button)
            }
        },
        WindowEvent::CursorMoved => WindowAction::MoveCursor,
        WindowEvent::RedrawRequested => WindowAction::RunFrame,
        WindowEvent::Other => WindowAction::Ignore,
    }
}

/// Every button and every key is recorded both ways: whatever the button
/// or key code, going down records a press of it and coming up records a
/// release of that same button or key, so nothing stays held after it is
/// let go.
pub proof fn law_press_and_release_are_symmetric()
    ensures
        forall|button: u32, pressed: bool|
            #[trigger] action_for(WindowEvent::MouseButton { button, pressed }) == if pressed {
                WindowAction::PressButton(button)
            } else {
                WindowAction::ReleaseButton(button)
            },
        forall|code: u32, pressed: bool|
            #[trigger] action_for(WindowEvent::Key { code, pressed }) == if pressed {
                WindowAction::PressKey(code)
            } else {
                WindowAction::ReleaseKey(code)
            },
        forall|button: u32|
            #[trigger] action_for(WindowEvent::MouseButton { button, pressed: false })
                == WindowAction::ReleaseButton(button),
        forall|code: u32|
            #[trigger] action_for(WindowEvent::Key { code, pressed: false }) == WindowAction::ReleaseKey(code),
{
}

/// One step of a frame.
#[derive(Clone, Copy, Debug, PartialEq, Eq, Structural)]
pub enum FrameStep {
    /// Advance the frame clock, when there is one.
    UpdateClock,
    /// Apply the asset reloads that are ready.
    ReloadAssets,
    /// Run the game systems.
    RunSystems,
    /// Clear the keys and buttons that went down or up this frame.
    ClearInput,
    /// Draw the frame.
    Draw,
    /// Ask the window for the next redraw.
    RequestRedraw,
}

/// The steps of a frame, in order: the clock, the asset reloads, the
/// systems and the input state always; drawing when there is a GPU
/// context; the next redraw when there is a window.
pub open spec fn frame_plan(has_gpu: bool, has_window: bool) -> Seq<FrameStep> {
    let always = seq![
        FrameStep::UpdateClock,
        FrameStep::ReloadAssets,
        FrameStep::RunSystems,
        FrameStep::ClearInput,
    ];
    let drawn = if has_gpu {
        always.push(FrameStep::Draw)
    } else {
        always
    };
    if has_window {
        drawn.push(FrameStep::RequestRedraw)
    } else {
        drawn
    }
}

/// The steps that `RunFrame` stands for, in the order they run.
pub fn frame_steps(has_gpu: bool, has_window: bool) -> (r: Vec<FrameStep>)
    ensures
        r@ == frame_plan(has_gpu, has_window),
{
    let mut r: Vec<FrameStep> = Vec::new();
    r.push(FrameStep::UpdateClock);
    r.push(FrameStep::ReloadAssets);
    r.push(FrameStep::RunSystems);
    r.push(FrameStep::ClearInput);
    if has_gpu {
        r.push(FrameStep::Draw);
    }
    if has_window {
        r.push(FrameStep::RequestRedraw);
    }
    proof {
        let always = seq![
            FrameStep::UpdateClock,
            FrameStep::ReloadAssets,
            FrameStep::RunSystems,
            FrameStep::ClearInput,
        ];
        assert(always =~= Seq::empty().push(FrameStep::UpdateClock).push(FrameStep::ReloadAssets).push(
            FrameStep::RunSystems,
        ).push(FrameStep::ClearInput));
    }
    r
}

/// How drawing a frame ended.
#[derive(Clone, Copy, Debug, PartialEq, Eq, Structural)]
pub enum FrameOutcome {
    Drawn,
    /// The surface was lost and must be configured again.
    SurfaceLost,
    /// The surface no longer matches the window and must be configured again.
    SurfaceOutdated,
    /// The GPU ran out of memory.
    OutOfMemory,
    /// Any other surface error, such as a timeout.
    OtherError,
}

/// What to do after drawing a frame.
#[derive(Clone, Copy, Debug, PartialEq, Eq, Structural)]
pub enum FrameAction {
    Continue,
    /// Configure the surface again at its current size.
    ReconfigureSurface,
    /// Report the error and leave the event loop.
    Exit,
    /// Report the error and go on.
    Warn,
}

/// What to do after drawing a frame: a lost or outdated surface is
/// configured again, running out of GPU memory ends the program, other
/// errors are reported and skipped.
pub fn frame_action(outcome: FrameOutcome) -> (r: FrameAction)
    ensures
        r == match outcome {
            FrameOutcome::Drawn => FrameAction::Continue,
            FrameOutcome::SurfaceLost => FrameAction::ReconfigureSurface,
            FrameOutcome::SurfaceOutdated => FrameAction::ReconfigureSurface,
            FrameOutcome::OutOfMemory => FrameAction::Exit,
            FrameOutcome::OtherError => FrameAction::Warn,
        },
{
    match outcome {
        FrameOutcome::Drawn => FrameAction::Continue,
        FrameOutcome::SurfaceLost => FrameAction::ReconfigureSurface,
        FrameOutcome::SurfaceOutdated => FrameAction::ReconfigureSurface,
        FrameOutcome::OutOfMemory => FrameAction::Exit,
        FrameOutcome::OtherError => FrameAction::Warn,
    }
}

/// The application's own part of the window loop's state: whether its
/// window exists and whether the startup systems have run.
#[derive(Clone, Copy, Debug, PartialEq, Eq, Structural)]
pub struct LoopState {
    pub window_open: bool,
    pub started: bool,
}

/// What to do when the window system resumes the application.
#[derive(Clone, Copy, Debug, PartialEq, Eq, Structural)]
pub struct ResumeAction {
    /// Create the window and the GPU context.
    pub create_window: bool,
    /// Run the startup systems.
    pub run_startup: bool,
}

/// The state and the action after a resume from `s`: the window is
/// created if there is none yet, and the startup systems run if they have
/// not run before.
pub open spec fn resume_of(s: LoopState) -> (LoopState, ResumeAction) {
    (
        LoopState { window_open: true, started: true },
        ResumeAction { create_window: !s.window_open, run_startup: !s.started },
    )
}

impl LoopState {
    /// Before the first resume: no window, nothing run.
    pub fn new() -> (r: Self)
        ensures
            !r.window_open,
            !r.started,
    {
        LoopState { window_open: false, started: false }
    }

    /// On resume the window is created if there is none yet, and the
    /// startup systems run if they have not run before.
    pub fn resumed(&mut self) -> (r: ResumeAction)
        ensures
            (*final(self), r) == resume_of(*old(self)),
    {
        let r = ResumeAction { create_window: !self.window_open, run_startup: !self.started };
        self.window_open = true;
        self.started = true;
        r
    }
}

/// Startup systems run once: the first resume of a fresh loop runs them
/// and creates the window, and no later resume does either again.
pub proof fn law_startup_runs_once(s: LoopState)
    ensures
        resume_of(LoopState { window_open: false, started: false }).1 == (ResumeAction {
            create_window: true,
            run_startup: true,
        }),
        !resume_of(resume_of(s).0).1.run_startup,
        !resume_of(resume_of(s).0).1.create_window,
        resume_of(resume_of(s).0).0 == resume_of(s).0,
{
}

} // verus!
