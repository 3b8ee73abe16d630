//! The engine's side of the windowing protocol: classified events, the
//! outbound request queue, and the helpers that turn protocol replies into
//! the library's plain values. The surrounding program owns the connection;
//! it hands raw events and query replies in and performs the queued
//! requests in order.
use vstd::prelude::*;

use crate::state::{decode_messages, encode, Atoms, MessageData, WindowState};

verus! {

/// A classified protocol event, as the consumer loop dispatches it.
#[derive(Clone, Copy, PartialEq, Eq, Structural, Debug)]
pub enum Event {
    /// An unimportant event.
    Interrupted,
    Quit,
    WindowList,
    Update(u32),
    Close(u32),
}

/// An event as the background wait thread hands it over, reduced to plain
/// values.
#[derive(Clone, Copy, PartialEq, Eq, Structural, Debug)]
pub enum ThreadEvent {
    Quit,
    Error,
    PropertyNotify { window: u32, atom: u32 },
    ConfigureNotify { window: u32 },
    DestroyNotify { window: u32 },
    Other,
}

/// Where a window is: the on-screen placement, the desktop index and the
/// protocol-visible state.
#[derive(Clone, Copy, PartialEq, Eq, Structural, Debug)]
pub struct Geometry {
    pub x: i16,
    pub y: i16,
    pub w: u16,
    pub h: u16,
    pub d: u32,
    pub s: WindowState,
}

/// An outbound protocol request, queued by the engine and performed by the
/// surrounding program in order.
#[derive(Clone, Copy, PartialEq, Eq, Structural, Debug)]
pub enum Request {
    /// Subscribe the window to property-change and structure notifications.
    Subscribe { window: u32 },
    /// Move and resize the window.
    Configure { window: u32, x: i16, y: i16, w: u16, h: u16 },
    /// Send a client message to the root window with substructure
    /// redirect-and-notify semantics.
    Message { window: u32, kind: u32, data: MessageData },
    /// Map (show) the window.
    MapWindow { window: u32 },
    /// Unmap (hide) the window.
    UnmapWindow { window: u32 },
    /// Focus `window`, but only when `check` still holds the input focus,
    /// so that a focus the user already moved away is never stolen.
    ActiveIf { check: u32, window: u32 },
    /// Flush buffered requests to the server.
    Flush,
    /// Flush and wait until all outstanding requests are acknowledged.
    FlushHard,
}

/// The request sequence that applies `g` to `window`: a configure, the
/// desktop message, the four state messages, and the change-state message.
pub open spec fn geometry_requests(atoms: Atoms, window: u32, g: Geometry) -> Seq<Request> {
    seq![
        Request::Configure { window, x: g.x, y: g.y, w: g.w, h: g.h },
        Request::Message {
            window,
            kind: atoms.desktop,
            data: MessageData { d0: g.d, d1: 2, d2: 0, d3: 0, d4: 0 },
        },
    ] + decode_messages(atoms, g.s.0).map_values(
        |m: MessageData| Request::Message { window, kind: atoms.state, data: m },
    ) + seq![
        Request::Message {
            window,
            kind: atoms.change_state,
            data: MessageData {
                d0: if g.s.spec_is_hidden() {
                    3
                } else {
                    1
                },
                d1: 0,
                d2: 0,
                d3: 0,
                d4: 0,
            },
        },
    ]
}

/// The engine's gateway to the windowing protocol: the interned atoms, the
/// root window, and the queue of outbound requests.
pub struct Context {
    pub atoms: Atoms,
    pub root: u32,
    pub queue: Vec<Request>,
}

impl Context {
    /// The configuration part of the gateway is untouched.
    pub open spec fn same_config(self, other: Context) -> bool {
        &&& self.atoms == other.atoms
        &&& self.root == other.root
    }

    /// A fresh gateway with an empty request queue.
    pub fn new(atoms: Atoms, root: u32) -> (cx: Context)
        ensures
            cx.atoms == atoms,
            cx.root == root,
            cx.queue@ == Seq::<Request>::empty(),
    {
        Context { atoms, root, queue: Vec::new() }
    }

    /// The classification of one raw thread event, exactly as the consumer
    /// loop dispatches it: a client-list change on the root refreshes the
    /// window list, desktop, state and configure changes update a window,
    /// a destroy closes it, and everything else is uninteresting.
    pub open spec fn spec_classify(self, raw: ThreadEvent) -> Event {
        match raw {
            ThreadEvent::Quit => Event::Quit,
            ThreadEvent::Error => Event::Interrupted,
            ThreadEvent::PropertyNotify { window, atom } => if atom == self.atoms.client_list
                && window == self.root {
                Event::WindowList
            } else if atom == self.atoms.desktop || atom == self.atoms.state {
                Event::Update(window)
            } else {
                Event::Interrupted
            },
            ThreadEvent::ConfigureNotify { window } => Event::Update(window),
            ThreadEvent::DestroyNotify { window } => Event::Close(window),
            ThreadEvent::Other => Event::Interrupted,
        }
    }

    /// Classifies a raw event from the background wait thread.
    pub fn next_event(&self, raw: ThreadEvent) -> (e: Event)
        ensures
            e == self.spec_classify(raw),
    {
        match raw {
            ThreadEvent::Quit => Event::Quit,
            ThreadEvent::Error => Event::Interrupted,
            ThreadEvent::PropertyNotify { window, atom } => {
                if atom == self.atoms.client_list && window == self.root {
                    Event::WindowList
                } else if atom == self.atoms.desktop || atom == self.atoms.state {
                    Event::Update(window)
                } else {
                    Event::Interrupted
                }
            },
            ThreadEvent::ConfigureNotify { window } => Event::Update(window),
            ThreadEvent::DestroyNotify { window } => Event::Close(window),
            ThreadEvent::Other => Event::Interrupted,
        }
    }

    /// Queues a subscription of `window` to change notifications.
    pub fn subscribe(&mut self, window: u32)
        ensures
            final(self).queue@ == old(self).queue@ + seq![Request::Subscribe { window }],
            final(self).same_config(*old(self)),
    {
        self.queue.push(Request::Subscribe { window });
    }

    /// Queues a map request: shows the window.
    pub fn show_window(&mut self, window: u32)
        ensures
            final(self).queue@ == old(self).queue@ + seq![Request::MapWindow { window }],
            final(self).same_config(*old(self)),
    {
        self.queue.push(Request::MapWindow { window });
    }

    /// Queues an unmap request: hides the window.
    pub fn hide_window(&mut self, window: u32)
        ensures
            final(self).queue@ == old(self).queue@ + seq![Request::UnmapWindow { window }],
            final(self).same_config(*old(self)),
    {
        self.queue.push(Request::UnmapWindow { window });
    }

    /// Queues the conditional refocus: move the focus to `window` only if it
    /// still rests on `check`.
    pub fn set_window_active_if(&mut self, check: u32, window: u32)
        ensures
            final(self).queue@ == old(self).queue@ + seq![Request::ActiveIf { check, window }],
            final(self).same_config(*old(self)),
    {
        self.queue.push(Request::ActiveIf { check, window });
    }

    /// Queues a flush of the buffered requests.
    pub fn flush(&mut self)
        ensures
            final(self).queue@ == old(self).queue@ + seq![Request::Flush],
            final(self).same_config(*old(self)),
    {
        self.queue.push(Request::Flush);
    }

    /// Queues a flush that waits for all replies, so nothing is left
    /// unapplied if the process exits right after.
    pub fn flush_hard(&mut self)
        ensures
            final(self).queue@ == old(self).queue@ + seq![Request::FlushHard],
            final(self).same_config(*old(self)),
    {
        self.queue.push(Request::FlushHard);
    }

    /// Queues the full application of `geometry` to `window`: position and
    /// size, desktop, the four state messages, and the change-state message
    /// that applies or clears the hidden flag.
    pub fn set_window_geometry(&mut self, window: u32, geometry: Geometry)
        ensures
            final(self).queue@ == old(self).queue@ + geometry_requests(
                old(self).atoms,
                window,
                geometry,
            ),
            final(self).same_config(*old(self)),
    {
        let ghost base = self.queue@;
        let atoms = self.atoms;
        self.queue.push(Request::Configure {
            window,
            x: geometry.x,
            y: geometry.y,
            w: geometry.w,
            h: geometry.h,
        });
        self.queue.push(Request::Message {
            window,
            kind: atoms.desktop,
            data: MessageData { d0: geometry.d, d1: 2, d2: 0, d3: 0, d4: 0 },
        });
        let ghost head = self.queue@;
        let ghost to_msg = |m: MessageData| Request::Message { window, kind: atoms.state, data: m };
        let msgs = geometry.s.events(&atoms);
        let mut i: usize = 0;
        proof {
            assert(msgs@.take(0).map_values(to_msg) =~= Seq::<Request>::empty());
            assert(head + Seq::<Request>::empty() =~= head);
        }
        while i < msgs.len()
            invariant
                i <= msgs.len(),
                self.atoms == atoms,
                self.root == old(self).root,
                msgs@ == decode_messages(atoms, geometry.s.0),
                to_msg == (|m: MessageData| Request::Message { window, kind: atoms.state, data: m }),
                self.queue@ == head + msgs@.take(i as int).map_values(to_msg),
            decreases msgs.len() - i,
        {
            let ghost prev = self.queue@;
            self.queue.push(Request::Message { window, kind: atoms.state, data: msgs[i] });
            proof {
                assert(msgs@.take(i + 1).map_values(to_msg) =~= msgs@.take(i as int).map_values(
                    to_msg,
                ) + seq![to_msg(msgs@[i as int])]);
                assert(self.queue@ =~= head + msgs@.take(i + 1).map_values(to_msg));
            }
            i = i + 1;
        }
        proof {
            assert(msgs@.take(msgs@.len() as int) =~= msgs@);
        }
        self.queue.push(Request::Message {
            window,
            kind: atoms.change_state,
            data: MessageData {
                d0: if geometry.s.is_hidden() {
                    3
                } else {
                    1
                },
                d1: 0,
                d2: 0,
                d3: 0,
                d4: 0,
            },
        });
        proof {
            assert(final(self).queue@ =~= base + geometry_requests(atoms, window, geometry));
        }
    }

    /// Hands the queued requests over for execution, leaving the queue
    /// empty.
    pub fn take_requests(&mut self) -> (r: Vec<Request>)
        ensures
            r@ == old(self).queue@,
            final(self).queue@ == Seq::<Request>::empty(),
            final(self).same_config(*old(self)),
    {
        let mut out: Vec<Request> = Vec::new();
        core::mem::swap(&mut self.queue, &mut out);
        out
    }
}

/// The owned top-level window of `pid` within a window list whose owner
/// pids have been queried: the first window whose reply matches.
pub open spec fn find_owner(windows: Seq<u32>, pids: Seq<Option<u32>>, pid: u32) -> Option<u32>
    decreases windows.len(),
{
    if windows.len() == 0 || pids.len() == 0 {
        None
    } else if pids[0] == Some(pid) {
        Some(windows[0])
    } else {
        find_owner(windows.skip(1), pids.skip(1), pid)
    }
}

/// Resolves the top-level window owned by `pid`: `windows` is the candidate
/// list and `pids` holds each candidate's queried owner pid, `None` where
/// the query failed. Returns the first match, as a process is assumed to
/// own one top-level window.
pub fn find_window_with_pid(pid: u32, windows: &Vec<u32>, pids: &Vec<Option<u32>>) -> (r: Option<
    u32,
>)
    requires
        windows@.len() == pids@.len(),
    ensures
        r == find_owner(windows@, pids@, pid),
{
    let mut i: usize = 0;
    proof {
        assert(windows@.skip(0) =~= windows@);
        assert(pids@.skip(0) =~= pids@);
    }
    while i < windows.len()
        invariant
            i <= windows@.len(),
            windows@.len() == pids@.len(),
            find_owner(windows@, pids@, pid) == find_owner(
                windows@.skip(i as int),
                pids@.skip(i as int),
                pid,
            ),
        decreases windows.len() - i,
    {
        proof {
            assert(windows@.skip(i as int)[0] == windows@[i as int]);
            assert(pids@.skip(i as int)[0] == pids@[i as int]);
            assert(windows@.skip(i as int).skip(1) =~= windows@.skip(i + 1));
            assert(pids@.skip(i as int).skip(1) =~= pids@.skip(i + 1));
        }
        let matched = match pids[i] {
            Some(p) => p == pid,
            None => false,
        };
        if matched {
            return Some(windows[i]);
        }
        i = i + 1;
    }
    None
}

impl Geometry {
    /// Builds a geometry from protocol replies: the absolute position is
    /// the translated coordinate minus the frame offset, the desktop index
    /// defaults to 0 when the property is absent, and the state atoms fold
    /// into the flag byte.
    pub fn from_replies(
        atoms: &Atoms,
        dst_x: i16,
        dst_y: i16,
        frame_x: i16,
        frame_y: i16,
        w: u16,
        h: u16,
        desktop: &[u32],
        state_atoms: &[u32],
    ) -> (g: Geometry)
        requires
            i16::MIN <= dst_x - frame_x <= i16::MAX,
            i16::MIN <= dst_y - frame_y <= i16::MAX,
        ensures
            g.x == dst_x - frame_x,
            g.y == dst_y - frame_y,
            g.w == w,
            g.h == h,
            g.d == if desktop@.len() > 0 {
                desktop@[0]
            } else {
                0
            },
            g.s.0 == encode(*atoms, state_atoms@),
    {
        let d: u32 = if desktop.len() > 0 {
            desktop[0]
        } else {
            0
        };
        Geometry {
            x: dst_x - frame_x,
            y: dst_y - frame_y,
            w,
            h,
            d,
            s: WindowState::new(atoms, state_atoms),
        }
    }
}

} // verus!
