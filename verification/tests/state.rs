use xswallow::output::MiniDebug;
use xswallow::state::{Atoms, WindowState};

fn atoms() -> Atoms {
    Atoms {
        active_window: 1,
        client_list: 2,
        pid: 3,
        desktop: 4,
        change_state: 5,
        state: 6,
        state_max_vert: 7,
        state_max_horz: 8,
        state_sticky: 9,
        state_shaded: 10,
        state_hidden: 11,
        state_fullscreen: 12,
        state_above: 13,
        state_below: 14,
    }
}

#[test]
fn decode_always_four_messages() {
    let a = atoms();
    for s in 0..=255u8 {
        let msgs = WindowState(s).events(&a);
        assert_eq!(msgs.len(), 4, "state {:#x}", s);
    }
}

#[test]
fn decode_no_flags() {
    let a = atoms();
    let msgs = WindowState(0).events(&a);
    // all four are remove messages pairing up the seven non-hidden atoms
    assert_eq!(msgs[0].d0, 0);
    assert_eq!((msgs[0].d1, msgs[0].d2), (7, 8));
    assert_eq!((msgs[1].d1, msgs[1].d2), (9, 10));
    assert_eq!((msgs[2].d1, msgs[2].d2), (12, 13));
    assert_eq!((msgs[3].d1, msgs[3].d2), (14, 0));
    for m in msgs {
        assert_eq!(m.d0, 0);
        assert_eq!(m.d3, 2);
        assert_eq!(m.d4, 0);
    }
}

#[test]
fn decode_one_flag() {
    let a = atoms();
    let msgs = WindowState(0x01).events(&a);
    // one add message padded with the null atom, then three removes
    assert_eq!((msgs[0].d0, msgs[0].d1, msgs[0].d2), (1, 7, 0));
    assert_eq!((msgs[1].d0, msgs[1].d1, msgs[1].d2), (0, 8, 9));
    assert_eq!((msgs[2].d0, msgs[2].d1, msgs[2].d2), (0, 10, 12));
    assert_eq!((msgs[3].d0, msgs[3].d1, msgs[3].d2), (0, 13, 14));
}

#[test]
fn decode_ignores_hidden_bit() {
    let a = atoms();
    // the hidden flag joins neither the add group nor the remove group
    let with_hidden = WindowState(0x10).events(&a);
    let without = WindowState(0x00).events(&a);
    assert_eq!(with_hidden, without);
    for m in with_hidden {
        assert_ne!(m.d1, 11);
        assert_ne!(m.d2, 11);
    }
}

#[test]
fn encode_folds_recognized_atoms() {
    let a = atoms();
    assert_eq!(WindowState::new(&a, &[]).0, 0);
    assert_eq!(WindowState::new(&a, &[7]).0, 0x01);
    assert_eq!(WindowState::new(&a, &[14, 7]).0, 0x81);
    assert_eq!(WindowState::new(&a, &[11]).0, 0x10);
    // unrecognized atoms contribute nothing
    assert_eq!(WindowState::new(&a, &[99, 7, 100]).0, 0x01);
}

#[test]
fn single_flag_hidden_only_for_hidden_atom() {
    let a = atoms();
    let flags = [7u32, 8, 9, 10, 11, 12, 13, 14];
    for &atom in flags.iter() {
        let st = WindowState::new(&a, &[atom]);
        assert_eq!(st.is_hidden(), atom == 11, "atom {}", atom);
    }
}

#[test]
fn take_one_walks_ascending_bits() {
    let mut st = WindowState(0b0010_1000);
    assert_eq!(st.take_one(), 3);
    assert_eq!(st.0, 0b0010_0000);
    assert_eq!(st.take_one(), 5);
    assert_eq!(st.0, 0);
    assert_eq!(st.take_one(), 8);
    assert_eq!(st.0, 0);
}

#[test]
fn names_lists_codes_in_bit_order() {
    let names = WindowState(0b0001_0011).names();
    assert_eq!(names, vec!["+V", "+H", "-M"]);
    assert_eq!(WindowState(0).names().len(), 0);
    assert_eq!(WindowState(0x80).names(), vec!["-O"]);
}

#[test]
fn xid_renders_hexadecimal() {
    assert_eq!(MiniDebug(0).xid(), "0x0");
    assert_eq!(MiniDebug(255).xid(), "0xff");
    assert_eq!(MiniDebug(0x1a2b3c4d).xid(), "0x1a2b3c4d");
    assert_eq!(MiniDebug(u32::MAX).xid(), "0xffffffff");
}
