use xswallow::context::{find_window_with_pid, Context, Event, Geometry, Request, ThreadEvent};
use xswallow::state::{Atoms, WindowState};

fn atoms() -> Atoms {
    Atoms {
        active_window: 1,
        client_list: 2,
        pid: 3,
        desktop: 4,
        change_state: 5,
        state: 6,
        state_max_vert: 7,
        state_max_horz: 8,
        state_sticky: 9,
        state_shaded: 10,
        state_hidden: 11,
        state_fullscreen: 12,
        state_above: 13,
        state_below: 14,
    }
}

const ROOT: u32 = 900;

#[test]
fn classify_client_list_change_on_root() {
    let cx = Context::new(atoms(), ROOT);
    let e = cx.next_event(ThreadEvent::PropertyNotify { window: ROOT, atom: 2 });
    assert_eq!(e, Event::WindowList);
    // the same property on another window is uninteresting
    let e = cx.next_event(ThreadEvent::PropertyNotify { window: 77, atom: 2 });
    assert_eq!(e, Event::Interrupted);
}

#[test]
fn classify_property_updates() {
    let cx = Context::new(atoms(), ROOT);
    let e = cx.next_event(ThreadEvent::PropertyNotify { window: 42, atom: 4 });
    assert_eq!(e, Event::Update(42));
    let e = cx.next_event(ThreadEvent::PropertyNotify { window: 42, atom: 6 });
    assert_eq!(e, Event::Update(42));
    let e = cx.next_event(ThreadEvent::PropertyNotify { window: 42, atom: 1 });
    assert_eq!(e, Event::Interrupted);
}

#[test]
fn classify_structural_events() {
    let cx = Context::new(atoms(), ROOT);
    assert_eq!(cx.next_event(ThreadEvent::ConfigureNotify { window: 5 }), Event::Update(5));
    assert_eq!(cx.next_event(ThreadEvent::DestroyNotify { window: 5 }), Event::Close(5));
    assert_eq!(cx.next_event(ThreadEvent::Quit), Event::Quit);
    assert_eq!(cx.next_event(ThreadEvent::Error), Event::Interrupted);
    assert_eq!(cx.next_event(ThreadEvent::Other), Event::Interrupted);
}

#[test]
fn geometry_requests_shape() {
    let mut cx = Context::new(atoms(), ROOT);
    let g = Geometry { x: 10, y: -20, w: 640, h: 480, d: 2, s: WindowState(0x01) };
    cx.set_window_geometry(33, g);
    let reqs = cx.take_requests();
    assert!(cx.queue.is_empty());
    assert_eq!(reqs.len(), 7);
    assert_eq!(reqs[0], Request::Configure { window: 33, x: 10, y: -20, w: 640, h: 480 });
    // desktop message
    match reqs[1] {
        Request::Message { window, kind, data } => {
            assert_eq!((window, kind), (33, 4));
            assert_eq!((data.d0, data.d1), (2, 2));
        },
        _ => panic!("expected the desktop message"),
    }
    // four state messages: one add, three removes
    for k in 2..6 {
        match reqs[k] {
            Request::Message { window, kind, data } => {
                assert_eq!((window, kind), (33, 6));
                assert_eq!(data.d0, if k == 2 { 1 } else { 0 });
            },
            _ => panic!("expected a state message"),
        }
    }
    // change-state message: activate, since the hidden flag is clear
    match reqs[6] {
        Request::Message { window, kind, data } => {
            assert_eq!((window, kind), (33, 5));
            assert_eq!(data.d0, 1);
        },
        _ => panic!("expected the change-state message"),
    }
}

#[test]
fn hidden_state_sends_iconify() {
    let mut cx = Context::new(atoms(), ROOT);
    let g = Geometry { x: 0, y: 0, w: 1, h: 1, d: 0, s: WindowState(0x10) };
    cx.set_window_geometry(33, g);
    let reqs = cx.take_requests();
    match reqs[6] {
        Request::Message { kind, data, .. } => {
            assert_eq!(kind, 5);
            assert_eq!(data.d0, 3);
        },
        _ => panic!("expected the change-state message"),
    }
}

#[test]
fn queue_methods_append_in_order() {
    let mut cx = Context::new(atoms(), ROOT);
    cx.hide_window(1);
    cx.show_window(2);
    cx.subscribe(3);
    cx.set_window_active_if(4, 5);
    cx.flush();
    cx.flush_hard();
    let reqs = cx.take_requests();
    assert_eq!(
        reqs,
        vec![
            Request::UnmapWindow { window: 1 },
            Request::MapWindow { window: 2 },
            Request::Subscribe { window: 3 },
            Request::ActiveIf { check: 4, window: 5 },
            Request::Flush,
            Request::FlushHard,
        ]
    );
}

#[test]
fn find_window_first_match() {
    let windows = vec![10u32, 20, 30];
    let pids = vec![Some(100u32), Some(200), Some(200)];
    assert_eq!(find_window_with_pid(200, &windows, &pids), Some(20));
    assert_eq!(find_window_with_pid(100, &windows, &pids), Some(10));
    assert_eq!(find_window_with_pid(300, &windows, &pids), None);
    let failed = vec![None, None, None];
    assert_eq!(find_window_with_pid(100, &windows, &failed), None);
}

#[test]
fn geometry_from_replies_composes() {
    let a = atoms();
    let g = Geometry::from_replies(&a, 100, 200, 2, 3, 640, 480, &[7], &[11, 12]);
    assert_eq!((g.x, g.y, g.w, g.h, g.d), (98, 197, 640, 480, 7));
    assert_eq!(g.s.0, 0x30);
    // an absent desktop property defaults to zero
    let g = Geometry::from_replies(&a, 0, 0, 0, 0, 1, 1, &[], &[]);
    assert_eq!(g.d, 0);
    assert_eq!(g.s.0, 0);
}
