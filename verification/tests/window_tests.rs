use dreki::window::{
    frame_action, window_action, FrameAction, FrameOutcome, LoopState, ResumeAction, WindowAction,
    WindowEvent, frame_steps, FrameStep,
};

#[test]
fn close_request_exits() {
    assert_eq!(window_action(WindowEvent::CloseRequested), WindowAction::Exit);
}

#[test]
fn resize_resizes_surface() {
    assert_eq!(
        window_action(WindowEvent::Resized { width: 800, height: 600 }),
        WindowAction::ResizeSurface { width: 800, height: 600 }
    );
}

#[test]
fn keys_and_buttons_go_to_input() {
    assert_eq!(window_action(WindowEvent::Key { code: 17, pressed: true }), WindowAction::PressKey(17));
    assert_eq!(window_action(WindowEvent::Key { code: 17, pressed: false }), WindowAction::ReleaseKey(17));
    assert_eq!(
        window_action(WindowEvent::MouseButton { button: 0, pressed: true }),
        WindowAction::PressButton(0)
    );
    assert_eq!(
        window_action(WindowEvent::MouseButton { button: 1, pressed: false }),
        WindowAction::ReleaseButton(1)
    );
}

#[test]
fn redraw_runs_a_frame() {
    assert_eq!(window_action(WindowEvent::RedrawRequested), WindowAction::RunFrame);
    assert_eq!(window_action(WindowEvent::CursorMoved), WindowAction::MoveCursor);
    assert_eq!(window_action(WindowEvent::Other), WindowAction::Ignore);
}

#[test]
fn surface_errors() {
    assert_eq!(frame_action(FrameOutcome::Drawn), FrameAction::Continue);
    assert_eq!(frame_action(FrameOutcome::SurfaceLost), FrameAction::ReconfigureSurface);
    assert_eq!(frame_action(FrameOutcome::SurfaceOutdated), FrameAction::ReconfigureSurface);
    assert_eq!(frame_action(FrameOutcome::OutOfMemory), FrameAction::Exit);
    assert_eq!(frame_action(FrameOutcome::OtherError), FrameAction::Warn);
}

#[test]
fn startup_runs_once() {
    let mut s = LoopState::new();
    assert_eq!(s.resumed(), ResumeAction { create_window: true, run_startup: true });
    assert_eq!(s.resumed(), ResumeAction { create_window: false, run_startup: false });
    assert_eq!(s.resumed(), ResumeAction { create_window: false, run_startup: false });
}

#[test]
fn frame_runs_its_steps_in_order() {
    let base = vec![FrameStep::UpdateClock, FrameStep::ReloadAssets, FrameStep::RunSystems, FrameStep::ClearInput];
    let mut all = base.clone();
    all.push(FrameStep::Draw);
    all.push(FrameStep::RequestRedraw);
    assert_eq!(frame_steps(true, true), all);
    let mut no_gpu = base.clone();
    no_gpu.push(FrameStep::RequestRedraw);
    assert_eq!(frame_steps(false, true), no_gpu);
    let mut no_window = base.clone();
    no_window.push(FrameStep::Draw);
    assert_eq!(frame_steps(true, false), no_window);
    assert_eq!(frame_steps(false, false), base);
}
