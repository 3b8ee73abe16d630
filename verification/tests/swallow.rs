use xswallow::context::{Context, Geometry, Request};
use xswallow::state::{Atoms, WindowState};
use xswallow::swallow::{env_iter, find_parent_step, list_diff, PidInfo, Swallow, WalkStep};

fn atoms() -> Atoms {
    Atoms {
        active_window: 1,
        client_list: 2,
        pid: 3,
        desktop: 4,
        change_state: 5,
        state: 6,
        state_max_vert: 7,
        state_max_horz: 8,
        state_sticky: 9,
        state_shaded: 10,
        state_hidden: 11,
        state_fullscreen: 12,
        state_above: 13,
        state_below: 14,
    }
}

const ROOT: u32 = 900;

fn geom(x: i16, y: i16, w: u16, h: u16) -> Geometry {
    Geometry { x, y, w, h, d: 0, s: WindowState(0) }
}

fn names(list: &[&str]) -> Vec<Vec<u8>> {
    list.iter().map(|n| n.as_bytes().to_vec()).collect()
}

#[test]
fn differ_reports_new_entry_once() {
    let mut known = vec![1u32, 2, 3];
    let new_list = vec![2u32, 3, 4];
    let added = list_diff(&mut known, &new_list);
    assert_eq!(added, vec![4]);
    assert_eq!(known, vec![2, 3, 4]);
}

#[test]
fn differ_is_idempotent() {
    let mut known = vec![1u32, 2, 3];
    let new_list = vec![2u32, 3, 4];
    list_diff(&mut known, &new_list);
    let added = list_diff(&mut known, &new_list);
    assert_eq!(added, Vec::<u32>::new());
    assert_eq!(known, vec![2, 3, 4]);
}

#[test]
fn differ_handles_disjoint_lists() {
    let mut known = vec![1u32, 2];
    let new_list = vec![3u32, 4, 5];
    let added = list_diff(&mut known, &new_list);
    assert_eq!(added, vec![3, 4, 5]);
    assert_eq!(known, vec![3, 4, 5]);
    let mut known = Vec::new();
    let added = list_diff(&mut known, &new_list);
    assert_eq!(added, vec![3, 4, 5]);
    let added = list_diff(&mut known, &Vec::new());
    assert_eq!(added, Vec::<u32>::new());
    assert_eq!(known, Vec::<u32>::new());
}

#[test]
fn walk_stops_on_immune_without_going_further() {
    let immune = names(&["shell", "xterm"]);
    let terminals = names(&["xterm"]);
    // pid 4's parent is pid 3; its name is only immune: abort, pid 2 is
    // never consulted because the step already decides
    let step = find_parent_step(
        3,
        Some(PidInfo { ppid: 2, name: b"shell".to_vec() }),
        &immune,
        &terminals,
    );
    assert_eq!(step, WalkStep::NoMatch);
}

#[test]
fn walk_finds_terminal_before_immune_test() {
    let immune = names(&["shell", "xterm"]);
    let terminals = names(&["xterm"]);
    // "xterm" is in both sets; the terminal test comes first
    let step = find_parent_step(
        3,
        Some(PidInfo { ppid: 2, name: b"xterm".to_vec() }),
        &immune,
        &terminals,
    );
    assert_eq!(step, WalkStep::Found { pid: 3, name: b"xterm".to_vec() });
}

#[test]
fn walk_continues_and_ends() {
    let immune = names(&["xterm"]);
    let terminals = names(&["xterm"]);
    let step = find_parent_step(
        4,
        Some(PidInfo { ppid: 3, name: b"make".to_vec() }),
        &immune,
        &terminals,
    );
    assert_eq!(step, WalkStep::Next { pid: 3 });
    // pid zero and failed lookups end the walk unmatched
    assert_eq!(find_parent_step(0, None, &immune, &terminals), WalkStep::NoMatch);
    assert_eq!(find_parent_step(5, None, &immune, &terminals), WalkStep::NoMatch);
}

#[test]
fn env_iter_splits_on_colons() {
    assert_eq!(env_iter(b""), Vec::<Vec<u8>>::new());
    assert_eq!(env_iter(b"st"), vec![b"st".to_vec()]);
    assert_eq!(env_iter(b"st:kitty"), vec![b"st".to_vec(), b"kitty".to_vec()]);
    assert_eq!(
        env_iter(b"a::b"),
        vec![b"a".to_vec(), Vec::new(), b"b".to_vec()]
    );
    assert_eq!(env_iter(b"a:"), vec![b"a".to_vec(), Vec::new()]);
}

#[test]
fn engine_terminal_names_become_immune() {
    let sw = Swallow::new(
        b"xterm".to_vec(),
        names(&["kitty"]),
        names(&["surf"]),
        Vec::new(),
    );
    assert!(sw.is_swallow_candidate(&b"surf".to_vec()));
    assert!(sw.is_swallow_candidate(&b"xterm".to_vec()));
    assert!(sw.is_swallow_candidate(&b"kitty".to_vec()));
    assert!(!sw.is_swallow_candidate(&b"firefox".to_vec()));
}

#[test]
fn engine_window_list_reports_new_windows() {
    let mut sw = Swallow::new(b"xterm".to_vec(), Vec::new(), Vec::new(), vec![10, 20]);
    let added = sw.window_list(&vec![20, 30]);
    assert_eq!(added, vec![30]);
    assert_eq!(sw.all_windows, vec![20, 30]);
    // a second pass over the same list reports nothing
    let added = sw.window_list(&vec![20, 30]);
    assert_eq!(added, Vec::<u32>::new());
}

const W0: u32 = 100;
const W1: u32 = 101;
const W2: u32 = 102;

/// Builds an engine and swallows child window `child` (owner pid 100 + n)
/// into terminal pid 50 whose window is `W0`, as the reconciliation driver
/// would after its queries.
fn swallow_child(sw: &mut Swallow, cx: &mut Context, child: u32, child_pid: u32, g: Geometry) {
    let target = sw.swallow_probe(50, child, W0);
    // the driver reads the geometry of `target`; the caller passes it in
    let _ = target;
    sw.swallow_commit(cx, child, child_pid, 50, W0, g);
}

#[test]
fn end_to_end_swallow_and_restore() {
    let mut cx = Context::new(atoms(), ROOT);
    let mut sw = Swallow::new(b"xterm".to_vec(), Vec::new(), names(&["surf"]), vec![W0]);
    let added = sw.window_list(&vec![W0, W1]);
    assert_eq!(added, vec![W1]);
    assert!(sw.is_swallow_candidate(&b"surf".to_vec()));
    let step = find_parent_step(
        50,
        Some(PidInfo { ppid: 2, name: b"xterm".to_vec() }),
        &sw.immune_names,
        &sw.terminal_names,
    );
    assert_eq!(step, WalkStep::Found { pid: 50, name: b"xterm".to_vec() });
    // the terminal's window resolves to W0; no record yet, so the probe
    // asks for the terminal window's own geometry
    assert_eq!(sw.swallow_probe(50, W1, W0), W0);
    let g0 = geom(5, 6, 640, 480);
    sw.swallow_commit(&mut cx, W1, 100, 50, W0, g0);
    let reqs = cx.take_requests();
    // the terminal is hidden, the child moves into its place
    assert_eq!(reqs.len(), 10);
    assert_eq!(reqs[0], Request::UnmapWindow { window: W0 });
    assert_eq!(reqs[1], Request::Configure { window: W1, x: 5, y: 6, w: 640, h: 480 });
    assert_eq!(reqs[8], Request::Subscribe { window: W1 });
    assert_eq!(reqs[9], Request::Flush);
    // one relationship pair exists
    assert_eq!(sw.parents.len(), 1);
    assert_eq!(sw.children.len(), 1);
    assert_eq!((sw.parents[0].pid, sw.parents[0].window), (50, W0));
    assert_eq!((sw.children[0].window, sw.children[0].pid, sw.children[0].parent_pid), (W1, 100, 50));
    assert!(sw.has_parent(50));
    assert!(sw.is_child(W1));
    // the child closes: the terminal is restored at the child's last place
    sw.close(&mut cx, W1);
    let reqs = cx.take_requests();
    assert_eq!(reqs.len(), 17);
    assert_eq!(reqs[0], Request::Configure { window: W0, x: 5, y: 6, w: 640, h: 480 });
    assert_eq!(reqs[7], Request::MapWindow { window: W0 });
    assert_eq!(reqs[8], Request::ActiveIf { check: W1, window: W0 });
    assert_eq!(reqs[9], Request::Configure { window: W0, x: 5, y: 6, w: 640, h: 480 });
    assert_eq!(reqs[16], Request::Flush);
    assert_eq!(sw.parents.len(), 0);
    assert_eq!(sw.children.len(), 0);
}

#[test]
fn update_refreshes_child_geometry() {
    let mut cx = Context::new(atoms(), ROOT);
    let mut sw = Swallow::new(b"xterm".to_vec(), Vec::new(), Vec::new(), vec![W0]);
    sw.window_list(&vec![W0, W1]);
    swallow_child(&mut sw, &mut cx, W1, 100, geom(0, 0, 10, 10));
    let g2 = geom(3, 4, 300, 200);
    sw.update(W1, g2);
    assert_eq!(sw.children[0].position, g2);
    // a plain window is silently ignored
    sw.update(W2, geom(9, 9, 9, 9));
    assert_eq!(sw.children[0].position, g2);
    assert_eq!(sw.children.len(), 1);
}

#[test]
fn two_children_share_one_parent() {
    let mut cx = Context::new(atoms(), ROOT);
    let mut sw = Swallow::new(b"xterm".to_vec(), Vec::new(), Vec::new(), vec![W0]);
    sw.window_list(&vec![W0, W1, W2]);
    swallow_child(&mut sw, &mut cx, W1, 100, geom(1, 1, 11, 11));
    // the record is live now, so the second probe asks for the child's own
    // geometry
    assert_eq!(sw.swallow_probe(50, W2, W0), W2);
    sw.swallow_commit(&mut cx, W2, 110, 50, W0, geom(2, 2, 22, 22));
    cx.take_requests();
    assert_eq!(sw.parents.len(), 1);
    assert_eq!(sw.count_children_of(50), 2);
    // closing the first child leaves the parent hidden
    sw.close(&mut cx, W1);
    assert_eq!(cx.take_requests(), Vec::<Request>::new());
    assert_eq!(sw.count_children_of(50), 1);
    assert!(sw.has_parent(50));
    // closing the second restores and shows the parent
    sw.close(&mut cx, W2);
    let reqs = cx.take_requests();
    assert_eq!(reqs.len(), 17);
    assert_eq!(reqs[7], Request::MapWindow { window: W0 });
    assert!(!sw.has_parent(50));
    assert_eq!(sw.children.len(), 0);
}

#[test]
fn quit_restores_and_flushes_synchronously() {
    let mut cx = Context::new(atoms(), ROOT);
    let mut sw = Swallow::new(b"xterm".to_vec(), Vec::new(), Vec::new(), vec![W0]);
    sw.window_list(&vec![W0, W1]);
    let g0 = geom(5, 6, 640, 480);
    sw.swallow_commit(&mut cx, W1, 100, 50, W0, g0);
    cx.take_requests();
    sw.quit(&mut cx);
    let reqs = cx.take_requests();
    // the parent window is shown at its stored geometry, and the hard
    // flush is the last request, completing before quit returns
    assert_eq!(reqs.len(), 16);
    assert_eq!(reqs[0], Request::Configure { window: W0, x: 5, y: 6, w: 640, h: 480 });
    assert_eq!(reqs[7], Request::MapWindow { window: W0 });
    assert_eq!(reqs[8], Request::Configure { window: W0, x: 5, y: 6, w: 640, h: 480 });
    assert_eq!(reqs[15], Request::FlushHard);
    // the relationship table stays; only the program's exit ends it
    assert_eq!(sw.parents.len(), 1);
}

#[test]
fn reswallow_of_tracked_child_replaces_record() {
    let mut cx = Context::new(atoms(), ROOT);
    let mut sw = Swallow::new(b"xterm".to_vec(), Vec::new(), Vec::new(), vec![W0]);
    sw.window_list(&vec![W0, W1]);
    swallow_child(&mut sw, &mut cx, W1, 100, geom(1, 1, 11, 11));
    swallow_child(&mut sw, &mut cx, W1, 100, geom(2, 2, 22, 22));
    assert_eq!(sw.children.len(), 1);
    assert_eq!(sw.parents.len(), 1);
    assert_eq!(sw.count_children_of(50), 1);
}
