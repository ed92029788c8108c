use cacti::display::{
    fullscreen_styles, next_loop_step, resizable_style, size_hints, to_cstring,
    translate_win32_message, translate_x11_event, win32_answers_itself, ConnectionCount,
    ControlFlow, LoopStep, PhysicalPosition, PhysicalSize, SizeHints, WindowEvent,
};
use cacti::dyn_lib::{DynLibError, UnsupportedDynLib};
use cacti::hot_reload::{after_update, before_update, HostAction, HostState, Loop};
use cacti::naming::{fd_link_path, reload_extension, temp_file_name, until_nul, written_prefix};
use cacti::temp::{LinuxDirectory, LinuxTemp, TempError, UnsupportedTemp};
use cacti::watch::{
    initial_node, initial_time, node_update, should_update, NodeChange, NodeKind, NodeUpdate,
    NullWatch, Observed, Recursion,
};

#[test]
fn physical_position_and_size() {
    let p = PhysicalPosition::new(-3, 7);
    assert_eq!((p.x, p.y), (-3, 7));
    let s = PhysicalSize::new(640, 480);
    assert_eq!((s.width, s.height), (640, 480));
}

#[test]
fn x11_events() {
    assert_eq!(translate_x11_event(16, true, 0, 0), Some(WindowEvent::Created));
    assert_eq!(translate_x11_event(16, false, 0, 0), None);
    assert_eq!(translate_x11_event(17, true, 0, 0), Some(WindowEvent::Closed));
    assert_eq!(translate_x11_event(9, false, 0, 0), Some(WindowEvent::FocusChanged(true)));
    assert_eq!(translate_x11_event(10, false, 0, 0), Some(WindowEvent::FocusChanged(false)));
    assert_eq!(
        translate_x11_event(25, false, 800, 600),
        Some(WindowEvent::Resized(PhysicalSize::new(800, 600)))
    );
    assert_eq!(translate_x11_event(12, true, 0, 0), None);
}

#[test]
fn win32_messages() {
    let sizing = PhysicalSize::new(3, 4);
    assert_eq!(translate_win32_message(0x0001, 0, sizing), Some(WindowEvent::Created));
    assert_eq!(translate_win32_message(0x0010, 0, sizing), Some(WindowEvent::CloseRequested));
    assert_eq!(translate_win32_message(0x0002, 0, sizing), Some(WindowEvent::Closed));
    assert_eq!(translate_win32_message(0x0007, 0, sizing), Some(WindowEvent::FocusChanged(true)));
    assert_eq!(translate_win32_message(0x0008, 0, sizing), Some(WindowEvent::FocusChanged(false)));
    assert_eq!(translate_win32_message(0x0214, 0, sizing), Some(WindowEvent::Resized(sizing)));
    assert_eq!(
        translate_win32_message(0x0005, (480 << 16) | 640, sizing),
        Some(WindowEvent::Resized(PhysicalSize::new(640, 480)))
    );
    assert_eq!(translate_win32_message(0x0100, 0, sizing), None);
}

#[test]
fn resizable_styles() {
    assert_eq!(resizable_style(0x00C00000, true), 0x00C50000);
    assert_eq!(resizable_style(0x00CF0000, false), 0x00CA0000);
}

#[test]
fn x11_size_hints() {
    let size = PhysicalSize::new(640, 480);
    assert_eq!(
        size_hints(true, size),
        SizeHints { flags: 0, min_width: 0, min_height: 0, max_width: 0, max_height: 0 }
    );
    assert_eq!(
        size_hints(false, size),
        SizeHints { flags: 0x30, min_width: 640, min_height: 480, max_width: 640, max_height: 480 }
    );
}

#[test]
fn connection_opens_for_first_user_and_closes_after_last() {
    let mut count = ConnectionCount::new();
    assert_eq!(count.count(), 0);
    assert!(count.acquire());
    assert!(!count.acquire());
    assert_eq!(count.count(), 2);
    assert!(!count.release());
    assert!(count.release());
    assert_eq!(count.count(), 0);
    assert!(count.acquire());
}

#[test]
fn win32_answered_messages() {
    for msg in [0x0001u32, 0x0010, 0x0007, 0x0008] {
        assert!(win32_answers_itself(msg));
    }
    for msg in [0x0002u32, 0x0005, 0x0214, 0x0100] {
        assert!(!win32_answers_itself(msg));
    }
}

#[test]
fn loop_steps_and_styles() {
    assert_eq!(next_loop_step(ControlFlow::Exit), LoopStep::Leave);
    assert_eq!(next_loop_step(ControlFlow::Poll), LoopStep::PollAgain);
    assert_eq!(next_loop_step(ControlFlow::Wait), LoopStep::WaitForEvent);
    assert_eq!(fullscreen_styles(0x10CF0000, 0x00020301), (0x100B0000, 0));
    assert_eq!(to_cstring(b"ab"), vec![b'a', b'b', 0]);
}

#[test]
fn loop_codes() {
    assert_eq!(Loop::Continue.to_u32(), 0);
    assert_eq!(Loop::Stop.to_u32(), 1);
    assert_eq!(Loop::from_u32(0), Loop::Continue);
    assert_eq!(Loop::from_u32(7), Loop::Stop);
    for l in [Loop::Continue, Loop::Stop] {
        assert_eq!(Loop::from_u32(l.to_u32()), l);
    }
}

#[test]
fn host_update_plans() {
    let fresh = HostState { has_state: false, counter: 0 };
    let (s, actions) = before_update(fresh, false);
    assert_eq!(s, HostState { has_state: true, counter: 0 });
    assert_eq!(
        actions,
        vec![HostAction::NewState, HostAction::Initialize, HostAction::Reload, HostAction::Update]
    );
    let (s, actions) = before_update(s, true);
    assert_eq!(s, HostState { has_state: true, counter: 1 });
    assert_eq!(
        actions,
        vec![
            HostAction::Unload,
            HostAction::SwapLibrary(1),
            HostAction::MigrateState,
            HostAction::Reload,
            HostAction::Update,
        ]
    );
    let (s2, l, actions) = after_update(s, 0);
    assert_eq!((s2, l), (s, Loop::Continue));
    assert!(actions.is_empty());
    let (s3, l, actions) = after_update(s, 1);
    assert_eq!(l, Loop::Stop);
    assert_eq!(s3, HostState { has_state: false, counter: 1 });
    assert_eq!(actions, vec![HostAction::Unload, HostAction::Terminate, HostAction::DropState]);
}

#[test]
fn temp_names() {
    assert_eq!(temp_file_name(1234, 0, 77, Some("txt")), "tmp_12340_77.txt");
    assert_eq!(temp_file_name(0, 4095, 0, None), "tmp_04095_0");
    assert_eq!(reload_extension(12), "tmp_12");
    assert_eq!(fd_link_path(3), "/proc/self/fd/3");
    assert_eq!(until_nul(b"abc\0def"), Some(b"abc".to_vec()));
    assert_eq!(until_nul(b"abc"), None);
    assert_eq!(LinuxTemp::temp_path(), "/tmp");
    assert_eq!(UnsupportedTemp::temp_path(), Err(TempError::Unsupported));
    assert_eq!(LinuxDirectory::new("/tmp/x").path(), "/tmp/x");
}

#[test]
fn null_watch_reports_nothing() {
    let mut w = NullWatch::new();
    w.watch("foo", Recursion::Recursive);
    w.set_interval(0);
    assert!(w.poll_event().is_none());
    w.unwatch("foo");
    assert!(w.poll_event().is_none());
}

#[test]
fn watch_decisions() {
    let rec = Recursion::Recursive;
    assert_eq!(
        node_update(NodeKind::NotExisting, rec, Observed::Missing, None),
        NodeUpdate { change: NodeChange::Keep, scan_children: false }
    );
    assert_eq!(
        node_update(NodeKind::NotExisting, rec, Observed::File, Some(5)).change,
        NodeChange::Appeared
    );
    assert_eq!(
        node_update(NodeKind::ExistingFile(5), rec, Observed::Missing, None).change,
        NodeChange::Vanished
    );
    assert_eq!(
        node_update(NodeKind::ExistingFile(5), rec, Observed::Directory, Some(9)).change,
        NodeChange::Replaced
    );
    assert_eq!(
        node_update(NodeKind::ExistingFile(5), rec, Observed::File, Some(9)).change,
        NodeChange::Modified(9)
    );
    assert_eq!(
        node_update(NodeKind::ExistingFile(5), rec, Observed::File, Some(5)).change,
        NodeChange::Keep
    );
    assert_eq!(
        node_update(NodeKind::ExistingDirectory(5), rec, Observed::Directory, Some(6)),
        NodeUpdate { change: NodeChange::Modified(6), scan_children: true }
    );
    assert_eq!(
        node_update(NodeKind::ExistingDirectory(5), Recursion::NotRecursive, Observed::Directory, None),
        NodeUpdate { change: NodeChange::Keep, scan_children: false }
    );
    assert_eq!(initial_node(Observed::Missing, rec, 1), (NodeKind::NotExisting, false));
    assert_eq!(initial_node(Observed::File, rec, 1), (NodeKind::ExistingFile(1), false));
    assert_eq!(initial_node(Observed::Directory, rec, 1), (NodeKind::ExistingDirectory(1), true));
    assert_eq!(initial_time(true, Some(3), None, 10), 3);
    assert_eq!(initial_time(false, Some(3), None, 10), 10);
    assert_eq!(initial_time(false, Some(3), Some(4), 10), 4);
    assert_eq!(should_update(100, 50, 60), (false, 50));
    assert_eq!(should_update(110, 50, 60), (true, 110));
    assert_eq!(should_update(40, 50, 60), (false, 40));
}

#[test]
fn written_prefix_of_buffer() {
    let buffer = [0x43u16, 0x3a, 0x5c, 0x61, 0];
    assert_eq!(written_prefix(&buffer, 4), Some(vec![0x43, 0x3a, 0x5c, 0x61]));
    assert_eq!(written_prefix(&buffer, 5), Some(buffer.to_vec()));
    assert_eq!(written_prefix(&buffer, 0), None);
    assert_eq!(written_prefix(&buffer, 6), None);
}

#[test]
fn unsupported_library_loading() {
    assert!(matches!(UnsupportedDynLib::load("libfoo.so"), Err(DynLibError::Unsupported)));
}
