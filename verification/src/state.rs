//! The window-state codec: the EWMH state flag byte, its encoding from a
//! list of protocol state atoms, and its decoding into the fixed-length
//! sequence of state-change protocol messages.
use vstd::prelude::*;

verus! {

/// The interned protocol atoms that the codec and the event classifier work
/// with, held as plain atom identifiers.
#[derive(Clone, Copy, PartialEq, Eq, Structural, Debug)]
pub struct Atoms {
    pub active_window: u32,
    pub client_list: u32,
    pub pid: u32,
    pub desktop: u32,
    pub change_state: u32,
    pub state: u32,
    pub state_max_vert: u32,
    pub state_max_horz: u32,
    pub state_sticky: u32,
    pub state_shaded: u32,
    pub state_hidden: u32,
    pub state_fullscreen: u32,
    pub state_above: u32,
    pub state_below: u32,
}

impl Atoms {
    /// The atom that carries flag bit `i`; any index past the eight flags
    /// stands for the null atom, which pads unused message slots.
    pub open spec fn flag_atom(self, i: int) -> u32 {
        if i == 0 {
            self.state_max_vert
        } else if i == 1 {
            self.state_max_horz
        } else if i == 2 {
            self.state_sticky
        } else if i == 3 {
            self.state_shaded
        } else if i == 4 {
            self.state_hidden
        } else if i == 5 {
            self.state_fullscreen
        } else if i == 6 {
            self.state_above
        } else if i == 7 {
            self.state_below
        } else {
            0
        }
    }

    /// The eight state atoms are pairwise distinct and none is the null
    /// atom, as protocol atom interning guarantees for distinct names.
    pub open spec fn wf(self) -> bool {
        &&& forall|i: int, j: int|
            #![auto]
            0 <= i < 8 && 0 <= j < 8 && i != j ==> self.flag_atom(i) != self.flag_atom(j)
        &&& forall|i: int| #![auto] 0 <= i < 8 ==> self.flag_atom(i) != 0
    }

    /// The atom that carries flag bit `i`, with the null atom past the flags.
    pub fn flag_atom_at(&self, i: usize) -> (r: u32)
        ensures
            r == self.flag_atom(i as int),
    {
        match i {
            0 => self.state_max_vert,
            1 => self.state_max_horz,
            2 => self.state_sticky,
            3 => self.state_shaded,
            4 => self.state_hidden,
            5 => self.state_fullscreen,
            6 => self.state_above,
            7 => self.state_below,
            _ => 0,
        }
    }
}

/// The window state as a flag byte: bits 0 through 7 are maximized-vertical,
/// maximized-horizontal, sticky, shaded, hidden, fullscreen, above, below.
/// Bit 4, hidden, travels through a separate change-state request rather
/// than through the state-atom messages.
#[derive(Debug, Clone, Copy, PartialEq, Eq, Structural)]
pub struct WindowState(pub u8);

/// Whether flag bit `i` is set in `s`.
pub open spec fn flag_set(s: u8, i: int) -> bool {
    &&& 0 <= i < 8
    &&& (s >> (i as u8)) & 1u8 == 1u8
}

/// The indices of the set flags of `s` at bit `i` and above, ascending.
pub open spec fn flags_from(s: u8, i: int) -> Seq<int>
    decreases 8 - i,
{
    if i < 0 || i >= 8 {
        Seq::empty()
    } else if flag_set(s, i) {
        seq![i] + flags_from(s, i + 1)
    } else {
        flags_from(s, i + 1)
    }
}

/// The indices of the set flags of `s`, in ascending bit order.
pub open spec fn flags(s: u8) -> Seq<int> {
    flags_from(s, 0)
}

/// A flag-index vector as a sequence of mathematical indices.
pub open spec fn index_ints(v: Seq<usize>) -> Seq<int> {
    v.map_values(|i: usize| i as int)
}

/// The least set flag of `s`, or 8 when none is set.
pub open spec fn lowest_flag(s: u8) -> int {
    if flags(s).len() == 0 {
        8
    } else {
        flags(s)[0]
    }
}

/// The five 32-bit data words of one state-change client message.
#[derive(Clone, Copy, PartialEq, Eq, Structural, Debug)]
pub struct MessageData {
    pub d0: u32,
    pub d1: u32,
    pub d2: u32,
    pub d3: u32,
    pub d4: u32,
}

/// The messages of one action group: the flags of `idxs` two atoms per
/// message, the unused slot of an odd last message padded by the null atom.
pub open spec fn pair_messages(atoms: Atoms, action: u32, idxs: Seq<int>) -> Seq<MessageData>
    decreases idxs.len(),
{
    if idxs.len() == 0 {
        Seq::empty()
    } else if idxs.len() == 1 {
        seq![MessageData { d0: action, d1: atoms.flag_atom(idxs[0]), d2: 0, d3: 2, d4: 0 }]
    } else {
        seq![
            MessageData {
                d0: action,
                d1: atoms.flag_atom(idxs[0]),
                d2: atoms.flag_atom(idxs[1]),
                d3: 2,
                d4: 0,
            },
        ] + pair_messages(atoms, action, idxs.skip(2))
    }
}

/// The state messages that bring a window into state `s`: add messages for
/// the set flags, then remove messages for the unset ones, the hidden flag
/// excluded from both groups.
pub open spec fn decode_messages(atoms: Atoms, s: u8) -> Seq<MessageData> {
    pair_messages(atoms, 1, flags(s & 0xef)) + pair_messages(atoms, 0, flags(!s & 0xef))
}

/// The bit that one recognized state atom contributes to the flag byte;
/// an unrecognized atom contributes nothing.
pub open spec fn atom_flag(atoms: Atoms, a: u32) -> u8 {
    if a == atoms.state_max_vert {
        0x01
    } else if a == atoms.state_max_horz {
        0x02
    } else if a == atoms.state_sticky {
        0x04
    } else if a == atoms.state_shaded {
        0x08
    } else if a == atoms.state_hidden {
        0x10
    } else if a == atoms.state_fullscreen {
        0x20
    } else if a == atoms.state_above {
        0x40
    } else if a == atoms.state_below {
        0x80
    } else {
        0
    }
}

/// The flag byte that a list of state atoms folds into.
pub open spec fn encode(atoms: Atoms, list: Seq<u32>) -> u8
    decreases list.len(),
{
    if list.len() == 0 {
        0
    } else {
        encode(atoms, list.drop_last()) | atom_flag(atoms, list.last())
    }
}

impl WindowState {
    /// Whether the hidden/minimized flag, bit 4, is set.
    pub open spec fn spec_is_hidden(self) -> bool {
        self.0 & 0x10 != 0
    }

    /// Folds each recognized atom of `list` into its flag bit.
    pub fn new(atoms: &Atoms, list: &[u32]) -> (r: Self)
        ensures
            r.0 == encode(*atoms, list@),
    {
        let mut out: u8 = 0;
        let mut i: usize = 0;
        while i < list.len()
            invariant
                i <= list.len(),
                out == encode(*atoms, list@.take(i as int)),
            decreases list.len() - i,
        {
            let a = list[i];
            let bit: u8 = if a == atoms.state_max_vert {
                0x01
            } else if a == atoms.state_max_horz {
                0x02
            } else if a == atoms.state_sticky {
                0x04
            } else if a == atoms.state_shaded {
                0x08
            } else if a == atoms.state_hidden {
                0x10
            } else if a == atoms.state_fullscreen {
                0x20
            } else if a == atoms.state_above {
                0x40
            } else if a == atoms.state_below {
                0x80
            } else {
                0
            };
            proof {
                assert(list@.take(i + 1).drop_last() =~= list@.take(i as int));
                assert(list@.take(i + 1).last() == list@[i as int]);
            }
            out = out | bit;
            i = i + 1;
        }
        proof {
            assert(list@.take(list@.len() as int) =~= list@);
        }
        WindowState(out)
    }

    /// Tests the hidden bit.
    pub fn is_hidden(self) -> (r: bool)
        ensures
            r == self.spec_is_hidden(),
    {
        self.0 & 0x10 != 0
    }
}

/// Flag bytes with the same bits from `j` up have the same flag sequence
/// from `j`.
proof fn lemma_flags_from_congruent(a: u8, b: u8, j: int)
    requires
        forall|k: int| j <= k < 8 ==> (flag_set(a, k) <==> flag_set(b, k)),
    ensures
        flags_from(a, j) == flags_from(b, j),
    decreases 8 - j,
{
    if 0 <= j && j < 8 {
        lemma_flags_from_congruent(a, b, j + 1);
    }
}

/// When no flag below `m` is set, the flag sequence starts at `m`.
proof fn lemma_flags_from_skip_below(s: u8, j: int, m: int)
    requires
        0 <= j <= m <= 8,
        forall|k: int| j <= k < m ==> !flag_set(s, k),
    ensures
        flags_from(s, j) == flags_from(s, m),
    decreases m - j,
{
    if j < m {
        lemma_flags_from_skip_below(s, j + 1, m);
    }
}

/// The set flag indices of `s` in ascending order, as an index vector.
fn flag_indices(s: u8) -> (v: Vec<usize>)
    ensures
        index_ints(v@) == flags(s),
        forall|k: int| 0 <= k < v@.len() ==> v@[k] < 8,
{
    let mut v: Vec<usize> = Vec::new();
    let mut i: usize = 0;
    proof {
        assert(index_ints(v@) =~= Seq::<int>::empty());
    }
    while i < 8
        invariant
            i <= 8,
            index_ints(v@) + flags_from(s, i as int) == flags(s),
            forall|k: int| 0 <= k < v@.len() ==> v@[k] < 8,
        decreases 8 - i,
    {
        let ghost prev = v@;
        if (s >> (i as u8)) & 1 == 1 {
            proof {
                assert(flag_set(s, i as int));
            }
            v.push(i);
            proof {
                assert(index_ints(v@) =~= index_ints(prev) + seq![i as int]);
                assert(flags_from(s, i as int) == seq![i as int] + flags_from(s, i + 1));
                assert(index_ints(v@) + flags_from(s, i + 1) =~= index_ints(prev) + flags_from(
                    s,
                    i as int,
                ));
            }
        } else {
            proof {
                assert(!flag_set(s, i as int));
                assert(flags_from(s, i as int) == flags_from(s, i + 1));
            }
        }
        i = i + 1;
    }
    proof {
        assert(flags_from(s, 8) =~= Seq::<int>::empty());
        assert(index_ints(v@) + Seq::<int>::empty() =~= index_ints(v@));
    }
    v
}

impl WindowState {
    /// Removes the least set flag and returns its index, or returns 8 and
    /// leaves the state unchanged when no flag is set.
    pub fn take_one(&mut self) -> (index: usize)
        ensures
            index as int == lowest_flag(old(self).0),
            index <= 8,
            flags(final(self).0) == if flags(old(self).0).len() == 0 {
                flags(old(self).0)
            } else {
                flags(old(self).0).skip(1)
            },
            index == 8 ==> final(self).0 == old(self).0,
    {
        let s = self.0;
        let mut i: usize = 0;
        while i < 8
            invariant
                i <= 8,
                self.0 == s,
                s == old(self).0,
                forall|k: int| 0 <= k < i ==> !flag_set(s, k),
            decreases 8 - i,
        {
            if (s >> (i as u8)) & 1 == 1 {
                let ib = i as u8;
                let cleared = s & !(1u8 << ib);
                self.0 = cleared;
                proof {
                    assert(flag_set(s, i as int));
                    lemma_flags_from_skip_below(s, 0, i as int);
                    assert(flags(s) == seq![i as int] + flags_from(s, i + 1));
                    assert(lowest_flag(s) == i as int);
                    assert(forall|k: u8|
                        k < 8 && k != ib ==> ((cleared >> k) & 1u8 == (s >> k)
                            & 1u8)) by (bit_vector)
                        requires
                            cleared == s & !(1u8 << ib),
                            ib < 8,
                    ;
                    assert((cleared >> ib) & 1u8 == 0) by (bit_vector)
                        requires
                            cleared == s & !(1u8 << ib),
                            ib < 8,
                    ;
                    assert forall|k: int| 0 <= k < 8 implies (flag_set(cleared, k) <==> (flag_set(
                        s,
                        k,
                    ) && k != i as int)) by {
                        let kb = k as u8;
                        assert(kb == k);
                        if kb != ib {
                            assert((cleared >> kb) & 1u8 == (s >> kb) & 1u8);
                        } else {
                            assert((cleared >> ib) & 1u8 == 0);
                            assert(k == i as int);
                        }
                    }
                    lemma_flags_from_congruent(cleared, s, i + 1);
                    lemma_flags_from_skip_below(cleared, 0, i + 1);
                    assert(flags(cleared) == flags_from(s, i + 1));
                    assert(flags(s).skip(1) =~= flags_from(s, i + 1));
                }
                return i;
            }
            i = i + 1;
        }
        proof {
            lemma_flags_from_skip_below(s, 0, 8);
            assert(flags(s) =~= Seq::<int>::empty());
        }
        8
    }

    /// The list of state messages needed to make a window enter this state:
    /// always exactly four. The hidden flag travels through the separate
    /// change-state request and appears in neither group.
    pub fn events(self, atoms: &Atoms) -> (r: Vec<MessageData>)
        ensures
            r@ == decode_messages(*atoms, self.0),
            r@.len() == 4,
    {
        let add = flag_indices(self.0 & 0xef);
        let rem = flag_indices(!self.0 & 0xef);
        let mut r = emit_pairs(atoms, 1, &add);
        let mut tail = emit_pairs(atoms, 0, &rem);
        r.append(&mut tail);
        proof {
            lemma_decode_messages_len(*atoms, self.0);
        }
        r
    }
}

/// Builds the message vector of one action group, two flags per message.
fn emit_pairs(atoms: &Atoms, action: u32, idxs: &Vec<usize>) -> (r: Vec<MessageData>)
    ensures
        r@ == pair_messages(*atoms, action, index_ints(idxs@)),
{
    let ghost ids = index_ints(idxs@);
    let mut r: Vec<MessageData> = Vec::new();
    let mut m: usize = 0;
    proof {
        assert(ids.skip(0) =~= ids);
    }
    while m < idxs.len()
        invariant
            m <= idxs.len(),
            ids == index_ints(idxs@),
            pair_messages(*atoms, action, ids) == r@ + pair_messages(
                *atoms,
                action,
                ids.skip(m as int),
            ),
        decreases idxs.len() - m,
    {
        let ghost prev = r@;
        let ghost rest = ids.skip(m as int);
        proof {
            assert(rest.len() == ids.len() - m);
            assert(rest[0] == ids[m as int]);
        }
        if m + 1 < idxs.len() {
            let msg = MessageData {
                d0: action,
                d1: atoms.flag_atom_at(idxs[m]),
                d2: atoms.flag_atom_at(idxs[m + 1]),
                d3: 2,
                d4: 0,
            };
            r.push(msg);
            proof {
                assert(rest[1] == ids[m + 1]);
                assert(rest.skip(2) =~= ids.skip(m + 2));
                assert(pair_messages(*atoms, action, rest) == seq![msg] + pair_messages(
                    *atoms,
                    action,
                    rest.skip(2),
                ));
                assert(prev + pair_messages(*atoms, action, rest) =~= r@ + pair_messages(
                    *atoms,
                    action,
                    ids.skip(m + 2),
                ));
            }
            m = m + 2;
        } else {
            let msg = MessageData {
                d0: action,
                d1: atoms.flag_atom_at(idxs[m]),
                d2: 0,
                d3: 2,
                d4: 0,
            };
            r.push(msg);
            proof {
                assert(rest.len() == 1);
                assert(pair_messages(*atoms, action, rest) == seq![msg]);
                assert(rest.skip(1) =~= ids.skip(m + 1));
                assert(pair_messages(*atoms, action, ids.skip(m + 1)) == Seq::<
                    MessageData,
                >::empty());
                assert(prev + pair_messages(*atoms, action, rest) =~= r@);
            }
            m = m + 1;
        }
    }
    proof {
        assert(ids.skip(ids.len() as int) =~= Seq::<int>::empty());
        assert(pair_messages(*atoms, action, Seq::<int>::empty()) == Seq::<MessageData>::empty());
        assert(r@ + Seq::<MessageData>::empty() =~= r@);
    }
    r
}

/// Each action group holds one message per two flags, rounded up.
proof fn lemma_pair_messages_len(atoms: Atoms, action: u32, idxs: Seq<int>)
    ensures
        pair_messages(atoms, action, idxs).len() == (idxs.len() + 1) / 2,
    decreases idxs.len(),
{
    if idxs.len() >= 2 {
        lemma_pair_messages_len(atoms, action, idxs.skip(2));
    }
}

/// Away from the hidden bit, every flag position is set in exactly one of
/// the add mask and the remove mask.
proof fn lemma_flag_count_from(s: u8, j: int)
    requires
        0 <= j <= 8,
    ensures
        flags_from(s & 0xef, j).len() + flags_from(!s & 0xef, j).len() == 8 - j - (if j <= 4 {
            1int
        } else {
            0int
        }),
    decreases 8 - j,
{
    if j < 8 {
        lemma_flag_count_from(s, j + 1);
        let jb = j as u8;
        let x = s & 0xef;
        let y = !s & 0xef;
        if j == 4 {
            assert((x >> 4u8) & 1u8 != 1 && (y >> 4u8) & 1u8 != 1) by (bit_vector)
                requires
                    x == s & 0xef,
                    y == !s & 0xef,
            ;
            assert(!flag_set(x, j) && !flag_set(y, j));
        } else {
            assert(jb != 4 && jb < 8 ==> (((x >> jb) & 1u8 == 1) <==> !((y >> jb) & 1u8
                == 1))) by (bit_vector)
                requires
                    x == s & 0xef,
                    y == !s & 0xef,
            ;
            assert(flag_set(x, j) <==> !flag_set(y, j));
        }
    }
}

/// The decode of any state yields exactly four messages: with `n` flags to
/// add outside the hidden bit, the groups pair up to
/// `ceil(n / 2) + ceil((7 - n) / 2) == 4` messages.
proof fn lemma_decode_messages_len(atoms: Atoms, s: u8)
    ensures
        decode_messages(atoms, s).len() == 4,
{
    lemma_flag_count_from(s, 0);
    lemma_pair_messages_len(atoms, 1, flags(s & 0xef));
    lemma_pair_messages_len(atoms, 0, flags(!s & 0xef));
    let a = flags(s & 0xef).len();
    let b = flags(!s & 0xef).len();
    assert(a + b == 7);
    assert((a + 1) / 2 + (b + 1) / 2 == 4);
}

/// The two-character diagnostic code of flag `i`.
pub open spec fn flag_code(i: int) -> Seq<char> {
    if i == 0 {
        "+V"@
    } else if i == 1 {
        "+H"@
    } else if i == 2 {
        "+S"@
    } else if i == 3 {
        "-S"@
    } else if i == 4 {
        "-M"@
    } else if i == 5 {
        "+M"@
    } else if i == 6 {
        "+O"@
    } else {
        "-O"@
    }
}

/// The two-character diagnostic code of flag `i`.
fn code_at(i: usize) -> (r: &'static str)
    requires
        i < 8,
    ensures
        r@ == flag_code(i as int),
{
    match i {
        0 => "+V",
        1 => "+H",
        2 => "+S",
        3 => "-S",
        4 => "-M",
        5 => "+M",
        6 => "+O",
        _ => "-O",
    }
}

impl WindowState {
    /// One two-character code per set flag, in ascending bit order; for
    /// diagnostics only.
    pub fn names(self) -> (r: Vec<&'static str>)
        ensures
            r@.len() == flags(self.0).len(),
            forall|k: int| 0 <= k < flags(self.0).len() ==> r@[k]@ == flag_code(flags(self.0)[k]),
    {
        let idxs = flag_indices(self.0);
        let mut r: Vec<&'static str> = Vec::new();
        let mut k: usize = 0;
        while k < idxs.len()
            invariant
                k <= idxs.len(),
                index_ints(idxs@) == flags(self.0),
                forall|t: int| 0 <= t < idxs@.len() ==> idxs@[t] < 8,
                r@.len() == k,
                forall|t: int| 0 <= t < k ==> r@[t]@ == flag_code(flags(self.0)[t]),
            decreases idxs.len() - k,
        {
            proof {
                assert(flags(self.0)[k as int] == index_ints(idxs@)[k as int]);
            }
            let code = code_at(idxs[k]);
            r.push(code);
            k = k + 1;
        }
        r
    }
}

/// The hidden flag is the only flag whose bit the hidden test sees: a list
/// holding the single atom of flag `i` encodes to a hidden state exactly
/// when `i` is the hidden flag's bit.
pub proof fn lemma_single_flag_hidden(atoms: Atoms, i: int)
    requires
        atoms.wf(),
        0 <= i < 8,
    ensures
        WindowState(encode(atoms, seq![atoms.flag_atom(i)])).spec_is_hidden() <==> i == 4,
{
    let a = atoms.flag_atom(i);
    let single = seq![a];
    assert(single.drop_last() =~= Seq::<u32>::empty());
    assert(encode(atoms, Seq::<u32>::empty()) == 0);
    assert(single.last() == a);
    assert(encode(atoms, single) == 0u8 | atom_flag(atoms, a));
    let f = atom_flag(atoms, a);
    assert(0u8 | f == f) by (bit_vector);
    assert forall|j: int| 0 <= j < 8 && j != i implies atoms.flag_atom(j) != a by {
        assert(atoms.flag_atom(j) != atoms.flag_atom(i));
    }
    assert(atoms.flag_atom(0) == atoms.state_max_vert);
    assert(atoms.flag_atom(1) == atoms.state_max_horz);
    assert(atoms.flag_atom(2) == atoms.state_sticky);
    assert(atoms.flag_atom(3) == atoms.state_shaded);
    assert(atoms.flag_atom(4) == atoms.state_hidden);
    assert(atoms.flag_atom(5) == atoms.state_fullscreen);
    assert(atoms.flag_atom(6) == atoms.state_above);
    assert(atoms.flag_atom(7) == atoms.state_below);
    assert(f == if i == 0 {
        0x01u8
    } else if i == 1 {
        0x02u8
    } else if i == 2 {
        0x04u8
    } else if i == 3 {
        0x08u8
    } else if i == 4 {
        0x10u8
    } else if i == 5 {
        0x20u8
    } else if i == 6 {
        0x40u8
    } else {
        0x80u8
    });
    assert(0x01u8 & 0x10 == 0 && 0x02u8 & 0x10 == 0 && 0x04u8 & 0x10 == 0 && 0x08u8 & 0x10 == 0
        && 0x10u8 & 0x10 != 0 && 0x20u8 & 0x10 == 0 && 0x40u8 & 0x10 == 0 && 0x80u8 & 0x10
        == 0) by (bit_vector);
}

} // verus!
