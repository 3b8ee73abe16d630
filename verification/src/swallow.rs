//! The swallow engine's pure logic: the window-list differ, the name sets,
//! the ancestor-walk decision, and the relationship graph that drives the
//! hide, move, restore and refocus decisions.
use vstd::prelude::*;
use vstd::seq_lib::group_seq_properties;

use crate::context::{geometry_requests, Context, Geometry, Request};
use crate::state::Atoms;

verus! {

/// The elements of `source` that are absent from `before`, in the order
/// `source` presents them: the newly appeared windows of a reconciliation.
pub open spec fn new_entries(before: Seq<u32>, source: Seq<u32>) -> Seq<u32> {
    source.filter(|v: u32| !before.contains(v))
}

/// Swapping two positions of a sequence changes no membership and keeps it
/// free of duplicates.
proof fn lemma_swap_preserves(s: Seq<u32>, i: int, j: int)
    requires
        0 <= i < s.len(),
        0 <= j < s.len(),
    ensures
        forall|x: u32| (#[trigger] s.update(i, s[j]).update(j, s[i]).contains(x)) <==> s.contains(
            x,
        ),
        s.no_duplicates() ==> s.update(i, s[j]).update(j, s[i]).no_duplicates(),
{
    let t = s.update(i, s[j]).update(j, s[i]);
    assert forall|x: u32| #[trigger] t.contains(x) implies s.contains(x) by {
        let k = choose|k: int| 0 <= k < t.len() && t[k] == x;
        if k == j {
            assert(s[i] == x);
        } else if k == i {
            assert(s[j] == x);
        } else {
            assert(s[k] == x);
        }
    }
    assert forall|x: u32| s.contains(x) implies #[trigger] t.contains(x) by {
        let k = choose|k: int| 0 <= k < s.len() && s[k] == x;
        if k == i {
            assert(t[j] == x);
        } else if k == j {
            assert(t[i] == x);
        } else {
            assert(t[k] == x);
        }
    }
    if s.no_duplicates() {
        assert forall|k: int, l: int|
            0 <= k < t.len() && 0 <= l < t.len() && k != l implies t[k] != t[l] by {
            if k == i || k == j || l == i || l == j {
                assert(t[i] == s[if i == j {
                    i
                } else {
                    j
                }]);
            }
        }
    }
}

/// The first position of `val` in `v` at or after `from`.
fn find_from(v: &Vec<u32>, from: usize, val: u32) -> (r: Option<usize>)
    ensures
        match r {
            Some(j) => from <= j < v@.len() && v@[j as int] == val && forall|k: int|
                from <= k < j ==> v@[k] != val,
            None => forall|k: int| from <= k < v@.len() ==> v@[k] != val,
        },
{
    let mut j: usize = from;
    if j >= v.len() {
        return None;
    }
    while j < v.len()
        invariant
            from <= j <= v@.len(),
            forall|k: int| from <= k < j ==> v@[k] != val,
        decreases v@.len() - j,
    {
        if v[j] == val {
            return Some(j);
        }
        j = j + 1;
    }
    None
}

/// Reconciles the tracked window list in `target` against the
/// authoritative `source` list, swapping matches into place, and returns
/// the values that were absent from `target`, in the order `source`
/// presents them. Linear when the two lists share a prefix, as successive
/// client lists do.
pub fn list_diff(target: &mut Vec<u32>, source: &Vec<u32>) -> (added: Vec<u32>)
    requires
        old(target)@.no_duplicates(),
        source@.no_duplicates(),
    ensures
        final(target)@ == source@,
        final(target)@.no_duplicates(),
        added@ == new_entries(old(target)@, source@),
{
    let ghost orig = old(target)@;
    let ghost pred = |v: u32| !orig.contains(v);
    let mut added: Vec<u32> = Vec::new();
    let mut i: usize = 0;
    proof {
        assert(source@.take(0) =~= Seq::<u32>::empty());
        assert(target@.take(0) =~= Seq::<u32>::empty());
        reveal_with_fuel(Seq::<_>::filter, 2);
        assert(new_entries(orig, source@.take(0)) =~= Seq::<u32>::empty());
    }
    while i < source.len()
        invariant
            i <= source@.len(),
            i <= target@.len(),
            source@.no_duplicates(),
            target@.no_duplicates(),
            pred == (|v: u32| !orig.contains(v)),
            target@.take(i as int) == source@.take(i as int),
            forall|x: u32| (#[trigger] target@.contains(x)) <==> (orig.contains(x)
                || added@.contains(x)),
            forall|x: u32| (#[trigger] added@.contains(x)) ==> source@.take(i as int).contains(x),
            added@ == new_entries(orig, source@.take(i as int)),
        decreases source@.len() - i,
    {
        let val = source[i];
        proof {
            assert forall|k: int| 0 <= k < i implies source@[k] != val by {
                assert(source@[k] != source@[i as int]);
            }
            assert(source@.take(i + 1) =~= source@.take(i as int).push(val));
            Seq::lemma_filter_push(source@.take(i as int), val, pred);
        }
        let found = find_from(target, i, val);
        let j: usize;
        match found {
            Some(at) => {
                j = at;
                proof {
                    assert(target@.contains(val));
                    if added@.contains(val) {
                        let k = choose|k: int|
                            0 <= k < source@.take(i as int).len() && source@.take(i as int)[k]
                                == val;
                        assert(source@[k] == val);
                        assert(false);
                    }
                    assert(orig.contains(val));
                    assert(!pred(val));
                    assert(added@ == new_entries(orig, source@.take(i + 1)));
                }
            },
            None => {
                proof {
                    if target@.contains(val) {
                        let k = choose|k: int|
                            0 <= k < target@.len() && target@[k] == val;
                        if k < i {
                            assert(target@[k] == source@.take(i as int)[k]);
                            assert(source@[k] == val);
                        }
                        assert(false);
                    }
                    assert(!orig.contains(val) && !added@.contains(val));
                    assert(pred(val));
                }
                let ghost added_before = added@;
                added.push(val);
                proof {
                    assert(added@ =~= added_before.push(val));
                    assert(added@ == new_entries(orig, source@.take(i + 1)));
                }
                let ghost t = target@;
                target.push(val);
                j = target.len() - 1;
                proof {
                    assert forall|k: int, l: int|
                        0 <= k < target@.len() && 0 <= l < target@.len() && k
                            != l implies target@[k] != target@[l] by {
                        if l == t.len() {
                            assert(target@[k] == t[k]);
                        } else if k == t.len() {
                            assert(target@[l] == t[l]);
                        }
                    }
                    assert(target@.take(i as int) =~= t.take(i as int));
                    assert(target@[j as int] == val);
                }
            },
        }
        let ghost t = target@;
        let vi = target[i];
        let vj = target[j];
        target[i] = vj;
        target[j] = vi;
        proof {
            broadcast use group_seq_properties;

            lemma_swap_preserves(t, i as int, j as int);
            assert(forall|x: u32|
                (#[trigger] target@.contains(x)) <==> (orig.contains(x) || added@.contains(x)));
            assert(forall|x: u32|
                (#[trigger] added@.contains(x)) ==> source@.take(i + 1).contains(x));
            assert(target@ == t.update(i as int, t[j as int]).update(j as int, t[i as int]));
            assert(target@.take(i + 1) =~= source@.take(i + 1));
        }
        i = i + 1;
    }
    proof {
        assert(source@.take(source@.len() as int) =~= source@);
        assert(target@.take(i as int) == source@.take(i as int));
    }
    target.truncate(source.len());
    proof {
        assert(target@ =~= source@);
    }
    added
}

/// Reconciling twice against the same authoritative list reports nothing
/// new the second time: every entry of a list is already contained in it,
/// so the differ leaves the list unchanged and fires no callback.
pub proof fn lemma_diff_idempotent(s: Seq<u32>)
    ensures
        new_entries(s, s) == Seq::<u32>::empty(),
{
    let pred = |v: u32| !s.contains(v);
    assert forall|k: int| 0 <= k < s.len() implies !pred(#[trigger] s[k]) by {
        assert(s.contains(s[k]));
    }
    assert(s.all(|x: u32| !pred(x)));
    s.lemma_all_neg_filter_empty(pred);
    assert(new_entries(s, s) =~= Seq::<u32>::empty());
}

/// The byte sequences of a name vector.
pub open spec fn byte_views(names: Seq<Vec<u8>>) -> Seq<Seq<u8>> {
    names.map_values(|v: Vec<u8>| v@)
}

/// A byte-for-byte copy of a name.
fn bytes_copy(a: &Vec<u8>) -> (r: Vec<u8>)
    ensures
        r@ == a@,
{
    let mut r: Vec<u8> = Vec::new();
    let mut i: usize = 0;
    while i < a.len()
        invariant
            i <= a@.len(),
            r@ == a@.take(i as int),
        decreases a@.len() - i,
    {
        r.push(a[i]);
        proof {
            assert(r@ =~= a@.take(i + 1));
        }
        i = i + 1;
    }
    proof {
        assert(a@.take(a@.len() as int) =~= a@);
    }
    r
}

/// Byte-for-byte equality of two names.
fn bytes_equal(a: &Vec<u8>, b: &Vec<u8>) -> (r: bool)
    ensures
        r == (a@ == b@),
{
    if a.len() != b.len() {
        return false;
    }
    let mut i: usize = 0;
    while i < a.len()
        invariant
            i <= a@.len(),
            a@.len() == b@.len(),
            forall|k: int| 0 <= k < i ==> a@[k] == b@[k],
        decreases a@.len() - i,
    {
        if a[i] != b[i] {
            return false;
        }
        i = i + 1;
    }
    proof {
        assert(a@ =~= b@);
    }
    true
}

/// Whether `name` is one of `names`.
pub fn names_contain(names: &Vec<Vec<u8>>, name: &Vec<u8>) -> (r: bool)
    ensures
        r == byte_views(names@).contains(name@),
{
    let mut i: usize = 0;
    while i < names.len()
        invariant
            i <= names@.len(),
            forall|k: int| 0 <= k < i ==> byte_views(names@)[k] != name@,
        decreases names@.len() - i,
    {
        if bytes_equal(&names[i], name) {
            proof {
                assert(byte_views(names@)[i as int] == name@);
            }
            return true;
        }
        proof {
            assert(byte_views(names@)[i as int] == names@[i as int]@);
        }
        i = i + 1;
    }
    false
}

/// The process information one ancestor lookup returns: the parent pid and
/// the executable name.
#[derive(PartialEq, Eq, Debug)]
pub struct PidInfo {
    pub ppid: u32,
    pub name: Vec<u8>,
}

/// The decision one ancestor-walk step takes.
#[derive(PartialEq, Eq, Debug)]
pub enum WalkStep {
    /// The ancestor is a terminal process: swallow into it.
    Found { pid: u32, name: Vec<u8> },
    /// The chain ends, fails, or reaches an immune name: no swallow target.
    NoMatch,
    /// Keep walking at this ancestor's own parent pid.
    Next { pid: u32 },
}

/// The ancestor-walk decision for process `pid` whose lookup returned
/// `info`. A pid of zero or a failed lookup ends the walk unmatched. A
/// terminal name is the swallow target, and that test comes before the
/// immune test: every terminal name is also in the immune set, so the
/// other order would make terminal detection unreachable. An immune name
/// ends the walk unmatched; any other name walks on to the parent pid.
pub open spec fn walk_decision(
    pid: u32,
    info: Option<PidInfo>,
    immune: Seq<Seq<u8>>,
    terminals: Seq<Seq<u8>>,
) -> WalkStep {
    if pid == 0 {
        WalkStep::NoMatch
    } else {
        match info {
            Option::None => WalkStep::NoMatch,
            Option::Some(pi) => if terminals.contains(pi.name@) {
                WalkStep::Found { pid, name: pi.name }
            } else if immune.contains(pi.name@) {
                WalkStep::NoMatch
            } else {
                WalkStep::Next { pid: pi.ppid }
            },
        }
    }
}

/// One step of the ancestor walk. The walk's driving loop performs the
/// process lookups and feeds each result in; a step never consults any
/// process beyond the one it decides on.
pub fn find_parent_step(
    pid: u32,
    info: Option<PidInfo>,
    immune_names: &Vec<Vec<u8>>,
    terminal_names: &Vec<Vec<u8>>,
) -> (step: WalkStep)
    ensures
        step == walk_decision(pid, info, byte_views(immune_names@), byte_views(terminal_names@)),
{
    if pid == 0 {
        return WalkStep::NoMatch;
    }
    match info {
        None => WalkStep::NoMatch,
        Some(pi) => {
            if names_contain(terminal_names, &pi.name) {
                WalkStep::Found { pid, name: pi.name }
            } else if names_contain(immune_names, &pi.name) {
                WalkStep::NoMatch
            } else {
                WalkStep::Next { pid: pi.ppid }
            }
        },
    }
}

/// `pieces` with `prefix` glued onto its first entry.
pub open spec fn prepend_first(prefix: Seq<u8>, pieces: Seq<Seq<u8>>) -> Seq<Seq<u8>> {
    seq![prefix + pieces[0]] + pieces.skip(1)
}

/// The colon-separated pieces of `text`: one more piece than separators,
/// empty pieces included.
pub open spec fn split_colon(text: Seq<u8>) -> Seq<Seq<u8>>
    decreases text.len(),
{
    if text.len() == 0 {
        seq![Seq::<u8>::empty()]
    } else if text[0] == 58 {
        seq![Seq::<u8>::empty()] + split_colon(text.skip(1))
    } else {
        prepend_first(seq![text[0]], split_colon(text.skip(1)))
    }
}

/// A split is never empty: there is one more piece than separators.
proof fn lemma_split_colon_len(text: Seq<u8>)
    ensures
        split_colon(text).len() >= 1,
    decreases text.len(),
{
    if text.len() > 0 {
        lemma_split_colon_len(text.skip(1));
    }
}

/// The name entries of a colon-separated byte list; an empty value yields
/// no entries at all.
pub open spec fn env_entries(text: Seq<u8>) -> Seq<Seq<u8>> {
    if text.len() == 0 {
        Seq::empty()
    } else {
        split_colon(text)
    }
}

/// Splits a colon-separated configuration value into its name entries; an
/// empty value yields none.
pub fn env_iter(text: &[u8]) -> (r: Vec<Vec<u8>>)
    ensures
        byte_views(r@) == env_entries(text@),
{
    let mut r: Vec<Vec<u8>> = Vec::new();
    if text.len() == 0 {
        proof {
            assert(byte_views(r@) =~= Seq::<Seq<u8>>::empty());
        }
        return r;
    }
    let mut cur: Vec<u8> = Vec::new();
    let mut p: usize = 0;
    proof {
        lemma_split_colon_len(text@);
        assert(text@.skip(0) =~= text@);
        assert(byte_views(r@) =~= Seq::<Seq<u8>>::empty());
        assert(prepend_first(cur@, split_colon(text@)) =~~= split_colon(text@));
    }
    while p < text.len()
        invariant
            p <= text@.len(),
            text@.len() > 0,
            split_colon(text@) == byte_views(r@) + prepend_first(
                cur@,
                split_colon(text@.skip(p as int)),
            ),
        decreases text@.len() - p,
    {
        let ghost rest = text@.skip(p as int);
        let ghost rest1 = text@.skip(p + 1);
        proof {
            lemma_split_colon_len(rest1);
            assert(rest.len() == text@.len() - p);
            assert(rest[0] == text@[p as int]);
            assert(rest.skip(1) =~= rest1);
        }
        let c = text[p];
        if c == 58 {
            let ghost r_before = r@;
            let ghost cur_before = cur@;
            r.push(cur);
            cur = Vec::new();
            proof {
                assert(split_colon(rest) == seq![Seq::<u8>::empty()] + split_colon(rest1));
                assert(prepend_first(cur_before, split_colon(rest)) =~~= seq![cur_before]
                    + split_colon(rest1));
                assert(byte_views(r@) =~~= byte_views(r_before) + seq![cur_before]);
                assert(prepend_first(cur@, split_colon(rest1)) =~~= split_colon(rest1));
                assert(byte_views(r@) + prepend_first(cur@, split_colon(rest1))
                    =~~= byte_views(r_before) + prepend_first(cur_before, split_colon(rest)));
            }
        } else {
            let ghost cur_before = cur@;
            cur.push(c);
            proof {
                assert(split_colon(rest) == prepend_first(seq![c], split_colon(rest1)));
                lemma_split_colon_len(rest1);
                assert(prepend_first(cur_before, prepend_first(seq![c], split_colon(rest1)))
                    =~~= prepend_first(cur_before + seq![c], split_colon(rest1)));
                assert(cur@ =~= cur_before + seq![c]);
            }
        }
        p = p + 1;
    }
    proof {
        assert(text@.skip(text@.len() as int) =~= Seq::<u8>::empty());
        assert(split_colon(Seq::<u8>::empty()) == seq![Seq::<u8>::empty()]);
        assert(prepend_first(cur@, seq![Seq::<u8>::empty()]) =~~= seq![cur@]);
    }
    let ghost r_before = r@;
    let ghost cur_final = cur@;
    r.push(cur);
    proof {
        assert(byte_views(r@) =~~= byte_views(r_before) + seq![cur_final]);
        assert(byte_views(r@) =~~= split_colon(text@));
    }
    r
}

/// One still-hidden terminal window: the swallow target of one or more
/// children. The stored position is not updated while children live; it
/// is what a final restore applies.
#[derive(Clone, Copy, PartialEq, Eq, Structural, Debug)]
pub struct Parent {
    pub pid: u32,
    pub window: u32,
    pub position: Geometry,
}

/// One currently swallowed window, keyed by its window id and holding a
/// reference to its parent record by owning pid.
#[derive(Clone, Copy, PartialEq, Eq, Structural, Debug)]
pub struct Child {
    pub window: u32,
    pub pid: u32,
    pub parent_pid: u32,
    pub position: Geometry,
}

/// The number of child records that reference the parent record of `pid`.
pub open spec fn child_count(children: Seq<Child>, pid: u32) -> nat {
    children.filter(|c: Child| c.parent_pid == pid).len()
}

/// The child record of window `w`, if one exists (the first, and by the
/// engine's invariant the only one).
pub open spec fn find_child(children: Seq<Child>, w: u32) -> Option<Child>
    decreases children.len(),
{
    if children.len() == 0 {
        Option::None
    } else if children[0].window == w {
        Option::Some(children[0])
    } else {
        find_child(children.skip(1), w)
    }
}

/// The parent record of owning pid `pid`, if one exists (the first, and by
/// the engine's invariant the only one).
pub open spec fn find_parent_in(parents: Seq<Parent>, pid: u32) -> Option<Parent>
    decreases parents.len(),
{
    if parents.len() == 0 {
        Option::None
    } else if parents[0].pid == pid {
        Option::Some(parents[0])
    } else {
        find_parent_in(parents.skip(1), pid)
    }
}

/// A scan that finds no match means the finder returns nothing.
proof fn lemma_find_child_none(s: Seq<Child>, w: u32)
    requires
        forall|l: int| 0 <= l < s.len() ==> (#[trigger] s[l]).window != w,
    ensures
        find_child(s, w) == Option::<Child>::None,
    decreases s.len(),
{
    if s.len() > 0 {
        assert(s.skip(1)[0] == s[1] || s.len() == 1);
        assert forall|l: int| 0 <= l < s.skip(1).len() implies (#[trigger] s.skip(1)[l]).window
            != w by {
            assert(s.skip(1)[l] == s[l + 1]);
        }
        lemma_find_child_none(s.skip(1), w);
    }
}

/// The finder returns the first match of a scan.
proof fn lemma_find_child_at(s: Seq<Child>, w: u32, k: int)
    requires
        0 <= k < s.len(),
        s[k].window == w,
        forall|l: int| 0 <= l < k ==> (#[trigger] s[l]).window != w,
    ensures
        find_child(s, w) == Option::Some(s[k]),
    decreases s.len(),
{
    if k > 0 {
        assert forall|l: int| 0 <= l < k - 1 implies (#[trigger] s.skip(1)[l]).window != w by {
            assert(s.skip(1)[l] == s[l + 1]);
        }
        assert(s.skip(1)[k - 1] == s[k]);
        lemma_find_child_at(s.skip(1), w, k - 1);
    }
}

/// A scan that finds no match means the finder returns nothing.
proof fn lemma_find_parent_none(s: Seq<Parent>, pid: u32)
    requires
        forall|l: int| 0 <= l < s.len() ==> (#[trigger] s[l]).pid != pid,
    ensures
        find_parent_in(s, pid) == Option::<Parent>::None,
    decreases s.len(),
{
    if s.len() > 0 {
        assert forall|l: int| 0 <= l < s.skip(1).len() implies (#[trigger] s.skip(1)[l]).pid
            != pid by {
            assert(s.skip(1)[l] == s[l + 1]);
        }
        lemma_find_parent_none(s.skip(1), pid);
    }
}

/// The finder returns the first match of a scan.
proof fn lemma_find_parent_at(s: Seq<Parent>, pid: u32, k: int)
    requires
        0 <= k < s.len(),
        s[k].pid == pid,
        forall|l: int| 0 <= l < k ==> (#[trigger] s[l]).pid != pid,
    ensures
        find_parent_in(s, pid) == Option::Some(s[k]),
    decreases s.len(),
{
    if k > 0 {
        assert forall|l: int| 0 <= l < k - 1 implies (#[trigger] s.skip(1)[l]).pid != pid by {
            assert(s.skip(1)[l] == s[l + 1]);
        }
        assert(s.skip(1)[k - 1] == s[k]);
        lemma_find_parent_at(s.skip(1), pid, k - 1);
    }
}

/// Any position holding `pid` means the finder succeeds, with a record of
/// that pid.
proof fn lemma_find_parent_some(s: Seq<Parent>, pid: u32, k: int)
    requires
        0 <= k < s.len(),
        s[k].pid == pid,
    ensures
        find_parent_in(s, pid) is Some,
        find_parent_in(s, pid).unwrap().pid == pid,
    decreases s.len(),
{
    if s[0].pid != pid {
        assert(s.skip(1)[k - 1] == s[k]);
        lemma_find_parent_some(s.skip(1), pid, k - 1);
    }
}

/// The swallow engine: the name sets, fixed after startup; the tracked
/// window list; and the relationship graph of parent and child records.
pub struct Swallow {
    pub immune_names: Vec<Vec<u8>>,
    pub terminal_names: Vec<Vec<u8>>,
    pub all_windows: Vec<u32>,
    pub parents: Vec<Parent>,
    pub children: Vec<Child>,
}

impl Swallow {
    /// A parent record for owning pid `pid` is live.
    pub open spec fn spec_has_parent(self, pid: u32) -> bool {
        find_parent_in(self.parents@, pid) is Some
    }

    /// A child record for window `win` is live.
    pub open spec fn spec_is_child(self, win: u32) -> bool {
        exists|k: int| 0 <= k < self.children@.len() && (#[trigger] self.children@[k]).window
            == win
    }

    /// The engine's invariant: the tracked list holds no duplicates; one
    /// child record per window and one parent record per pid; a parent
    /// record is live exactly while at least one child references it; and
    /// every terminal name is also immune.
    pub open spec fn wf(self) -> bool {
        &&& self.all_windows@.no_duplicates()
        &&& forall|k: int, l: int|
            0 <= k < self.children@.len() && 0 <= l < self.children@.len() && k != l ==> (
            #[trigger] self.children@[k]).window != (#[trigger] self.children@[l]).window
        &&& forall|k: int, l: int|
            0 <= k < self.parents@.len() && 0 <= l < self.parents@.len() && k != l ==> (
            #[trigger] self.parents@[k]).pid != (#[trigger] self.parents@[l]).pid
        &&& forall|k: int|
            0 <= k < self.children@.len() ==> find_parent_in(
                self.parents@,
                (#[trigger] self.children@[k]).parent_pid,
            ) is Some
        &&& forall|k: int|
            0 <= k < self.parents@.len() ==> child_count(
                self.children@,
                (#[trigger] self.parents@[k]).pid,
            ) >= 1
        &&& forall|n: Seq<u8>|
            #[trigger] byte_views(self.terminal_names@).contains(n) ==> byte_views(
                self.immune_names@,
            ).contains(n)
    }

    /// Builds the engine. The terminal set holds the primary terminal name
    /// and the extra names; the immune set holds the given immune names
    /// and, after them, every terminal name, since swallowing a terminal
    /// into a terminal would make no sense. The initial window snapshot is
    /// tracked without any callback.
    #[verifier::rlimit(50)]
    pub fn new(
        primary_terminal: Vec<u8>,
        extra_terminals: Vec<Vec<u8>>,
        immune: Vec<Vec<u8>>,
        initial_windows: Vec<u32>,
    ) -> (sw: Swallow)
        requires
            initial_windows@.no_duplicates(),
        ensures
            sw.wf(),
            byte_views(sw.terminal_names@) == seq![primary_terminal@] + byte_views(
                extra_terminals@,
            ),
            byte_views(sw.immune_names@) == byte_views(immune@) + byte_views(sw.terminal_names@),
            sw.all_windows@ == initial_windows@,
            sw.parents@ == Seq::<Parent>::empty(),
            sw.children@ == Seq::<Child>::empty(),
    {
        let ghost prim = primary_terminal@;
        let mut terminal_names: Vec<Vec<u8>> = Vec::new();
        terminal_names.push(primary_terminal);
        proof {
            assert(byte_views(terminal_names@) =~= seq![prim]);
            assert(byte_views(extra_terminals@).take(0) =~= Seq::<Seq<u8>>::empty());
            assert(byte_views(terminal_names@) =~= seq![prim] + byte_views(
                extra_terminals@,
            ).take(0));
        }
        let mut k: usize = 0;
        while k < extra_terminals.len()
            invariant
                k <= extra_terminals@.len(),
                byte_views(terminal_names@) == seq![prim] + byte_views(extra_terminals@).take(
                    k as int,
                ),
            decreases extra_terminals@.len() - k,
        {
            let ghost prev = terminal_names@;
            let ghost extras = byte_views(extra_terminals@);
            let copied = bytes_copy(&extra_terminals[k]);
            terminal_names.push(copied);
            proof {
                assert(byte_views(prev.push(terminal_names@.last())) =~= byte_views(prev).push(
                    terminal_names@.last()@,
                ));
                assert(terminal_names@.last()@ == extras[k as int]);
                assert(extras.take(k + 1) =~= extras.take(k as int).push(extras[k as int]));
                assert(byte_views(terminal_names@) =~= seq![prim] + extras.take(k + 1));
            }
            k = k + 1;
        }
        proof {
            assert(byte_views(extra_terminals@).take(byte_views(extra_terminals@).len() as int)
                =~= byte_views(extra_terminals@));
        }
        let ghost terms = byte_views(terminal_names@);
        let mut immune_names: Vec<Vec<u8>> = immune;
        let ghost immune0 = byte_views(immune_names@);
        proof {
            assert(terms.take(0) =~= Seq::<Seq<u8>>::empty());
            assert(byte_views(immune_names@) =~= immune0 + terms.take(0));
        }
        let mut k2: usize = 0;
        while k2 < terminal_names.len()
            invariant
                k2 <= terminal_names@.len(),
                terms == byte_views(terminal_names@),
                byte_views(immune_names@) == immune0 + terms.take(k2 as int),
            decreases terminal_names@.len() - k2,
        {
            let ghost prev = immune_names@;
            let copied = bytes_copy(&terminal_names[k2]);
            immune_names.push(copied);
            proof {
                assert(byte_views(prev.push(immune_names@.last())) =~= byte_views(prev).push(
                    immune_names@.last()@,
                ));
                assert(immune_names@.last()@ == terms[k2 as int]);
                assert(terms.take(k2 + 1) =~= terms.take(k2 as int).push(terms[k2 as int]));
                assert(byte_views(immune_names@) =~= immune0 + terms.take(k2 + 1));
            }
            k2 = k2 + 1;
        }
        proof {
            assert(terms.take(terms.len() as int) =~= terms);
        }
        let sw = Swallow {
            immune_names,
            terminal_names,
            all_windows: initial_windows,
            parents: Vec::new(),
            children: Vec::new(),
        };
        proof {
            assert forall|n: Seq<u8>|
                #[trigger] byte_views(sw.terminal_names@).contains(n) implies byte_views(
                sw.immune_names@,
            ).contains(n) by {
                let k3 = choose|k3: int|
                    0 <= k3 < byte_views(sw.terminal_names@).len() && byte_views(
                        sw.terminal_names@,
                    )[k3] == n;
                assert(byte_views(sw.immune_names@)[immune0.len() + k3] == n);
            }
        }
        sw
    }

    /// Reconciles the tracked window list against the authoritative list
    /// and returns the newly appeared windows, in list order, each still
    /// to be examined for swallowing.
    pub fn window_list(&mut self, new_windows: &Vec<u32>) -> (added: Vec<u32>)
        requires
            old(self).wf(),
            new_windows@.no_duplicates(),
        ensures
            final(self).wf(),
            final(self).all_windows@ == new_windows@,
            added@ == new_entries(old(self).all_windows@, new_windows@),
            final(self).immune_names@ == old(self).immune_names@,
            final(self).terminal_names@ == old(self).terminal_names@,
            final(self).parents@ == old(self).parents@,
            final(self).children@ == old(self).children@,
    {
        let added = list_diff(&mut self.all_windows, new_windows);
        added
    }

    /// A newly appeared window is examined further only when its own
    /// process name is in the immune set.
    pub fn is_swallow_candidate(&self, child_name: &Vec<u8>) -> (r: bool)
        ensures
            r == byte_views(self.immune_names@).contains(child_name@),
    {
        names_contain(&self.immune_names, child_name)
    }

    /// The position of the parent record of `pid`.
    fn parent_pos(&self, pid: u32) -> (r: Option<usize>)
        ensures
            match r {
                Some(k) => k < self.parents@.len() && self.parents@[k as int].pid == pid
                    && forall|l: int| 0 <= l < k ==> (#[trigger] self.parents@[l]).pid != pid,
                None => forall|l: int|
                    0 <= l < self.parents@.len() ==> (#[trigger] self.parents@[l]).pid != pid,
            },
    {
        let mut k: usize = 0;
        while k < self.parents.len()
            invariant
                k <= self.parents@.len(),
                forall|l: int| 0 <= l < k ==> (#[trigger] self.parents@[l]).pid != pid,
            decreases self.parents@.len() - k,
        {
            if self.parents[k].pid == pid {
                return Some(k);
            }
            k = k + 1;
        }
        None
    }

    /// The position of the child record of window `win`.
    fn child_pos(&self, win: u32) -> (r: Option<usize>)
        ensures
            match r {
                Some(k) => k < self.children@.len() && self.children@[k as int].window == win
                    && forall|l: int| 0 <= l < k ==> (#[trigger] self.children@[l]).window != win,
                None => forall|l: int|
                    0 <= l < self.children@.len() ==> (#[trigger] self.children@[l]).window != win,
            },
    {
        let mut k: usize = 0;
        while k < self.children.len()
            invariant
                k <= self.children@.len(),
                forall|l: int| 0 <= l < k ==> (#[trigger] self.children@[l]).window != win,
            decreases self.children@.len() - k,
        {
            if self.children[k].window == win {
                return Some(k);
            }
            k = k + 1;
        }
        None
    }

    /// A parent record for owning pid `pid` is live.
    pub fn has_parent(&self, pid: u32) -> (r: bool)
        ensures
            r == self.spec_has_parent(pid),
    {
        match self.parent_pos(pid) {
            Some(k) => {
                proof {
                    lemma_find_parent_some(self.parents@, pid, k as int);
                }
                true
            },
            None => {
                proof {
                    lemma_find_parent_none(self.parents@, pid);
                }
                false
            },
        }
    }

    /// A child record for window `win` is live.
    pub fn is_child(&self, win: u32) -> (r: bool)
        ensures
            r == self.spec_is_child(win),
    {
        match self.child_pos(win) {
            Some(_) => true,
            None => {
                proof {
                    if self.spec_is_child(win) {
                        let k = choose|k: int|
                            0 <= k < self.children@.len() && self.children@[k].window == win;
                        assert(false);
                    }
                }
                false
            },
        }
    }

    /// The window whose current geometry seeds the new child record: the
    /// child's own window when the terminal already has a parent record (a
    /// sibling is already swallowed into it), else the terminal's window,
    /// whose place the child is about to take.
    pub fn swallow_probe(&self, parent_pid: u32, child_window: u32, parent_window: u32) -> (target:
        u32)
        ensures
            target == if self.spec_has_parent(parent_pid) {
                child_window
            } else {
                parent_window
            },
    {
        if self.has_parent(parent_pid) {
            child_window
        } else {
            parent_window
        }
    }
}

/// A filter every element passes is the identity.
proof fn lemma_filter_all_pass<A>(s: Seq<A>, pred: spec_fn(A) -> bool)
    requires
        forall|k: int| 0 <= k < s.len() ==> pred(#[trigger] s[k]),
    ensures
        s.filter(pred) == s,
    decreases s.len(),
{
    reveal(Seq::filter);
    if s.len() > 0 {
        lemma_filter_all_pass(s.drop_last(), pred);
        assert(s.drop_last().push(s.last()) =~= s);
    }
}

/// Removing the one failing element of a filter is the whole filter.
proof fn lemma_remove_unique_filter<A>(s: Seq<A>, pred: spec_fn(A) -> bool, k: int)
    requires
        0 <= k < s.len(),
        !pred(s[k]),
        forall|l: int| 0 <= l < s.len() && l != k ==> pred(#[trigger] s[l]),
    ensures
        s.filter(pred) == s.remove(k),
    decreases s.len(),
{
    reveal(Seq::filter);
    if k == s.len() - 1 {
        lemma_filter_all_pass(s.drop_last(), pred);
        assert(s.remove(k) =~= s.drop_last());
    } else {
        lemma_remove_unique_filter(s.drop_last(), pred, k);
        assert(s.drop_last().remove(k).push(s.last()) =~= s.remove(k));
    }
}

/// How removal at one position changes a reference count.
proof fn lemma_count_remove(s: Seq<Child>, k: int, pid: u32)
    requires
        0 <= k < s.len(),
    ensures
        child_count(s.remove(k), pid) as int == child_count(s, pid) as int - (if s[k].parent_pid
            == pid {
            1int
        } else {
            0int
        }),
{
    let p = |c: Child| c.parent_pid == pid;
    assert(s =~= s.take(k) + (seq![s[k]] + s.skip(k + 1)));
    Seq::filter_distributes_over_add(s.take(k), seq![s[k]] + s.skip(k + 1), p);
    Seq::filter_distributes_over_add(seq![s[k]], s.skip(k + 1), p);
    assert(s.remove(k) =~= s.take(k) + s.skip(k + 1));
    Seq::filter_distributes_over_add(s.take(k), s.skip(k + 1), p);
    reveal_with_fuel(Seq::<_>::filter, 2);
    assert(seq![s[k]].drop_last() =~= Seq::<Child>::empty());
    assert(seq![s[k]].filter(p).len() == (if p(s[k]) {
        1int
    } else {
        0int
    }));
}

/// How appending one child changes a reference count.
proof fn lemma_count_push(s: Seq<Child>, c: Child, pid: u32)
    ensures
        child_count(s.push(c), pid) as int == child_count(s, pid) as int + (if c.parent_pid == pid {
            1int
        } else {
            0int
        }),
{
    let p = |x: Child| x.parent_pid == pid;
    Seq::lemma_filter_push(s, c, p);
}

/// A reference count is positive exactly when some child references the
/// record.
proof fn lemma_count_pos(s: Seq<Child>, pid: u32)
    ensures
        (child_count(s, pid) >= 1) <==> (exists|k: int|
            0 <= k < s.len() && (#[trigger] s[k]).parent_pid == pid),
{
    let p = |c: Child| c.parent_pid == pid;
    if child_count(s, pid) >= 1 {
        Seq::lemma_filter_pred(s, p, 0);
        assert(s.filter(p).contains(s.filter(p)[0]));
        Seq::lemma_filter_contains_rev(s, p, s.filter(p)[0]);
        let k = choose|k: int| 0 <= k < s.len() && s[k] == s.filter(p)[0];
        assert(s[k].parent_pid == pid);
    }
    if exists|k: int| 0 <= k < s.len() && (#[trigger] s[k]).parent_pid == pid {
        let k = choose|k: int| 0 <= k < s.len() && (#[trigger] s[k]).parent_pid == pid;
        Seq::lemma_filter_contains(s, p, k);
        assert(s.filter(p).len() >= 1);
    }
}

/// The child table after a swallow: any earlier record of the same window
/// is replaced, and the new record is appended.
pub open spec fn commit_children(children: Seq<Child>, child: Child) -> Seq<Child> {
    children.filter(|c: Child| c.window != child.window) + seq![child]
}

/// The parent table after a swallow: the terminal's record is created when
/// none was live, and a record orphaned by a replaced child is evicted.
pub open spec fn commit_parents(
    parents: Seq<Parent>,
    children_after: Seq<Child>,
    had: bool,
    added: Parent,
) -> Seq<Parent> {
    (if had {
        parents
    } else {
        parents + seq![added]
    }).filter(|p: Parent| child_count(children_after, p.pid) >= 1)
}

impl Swallow {
    /// The number of child records that reference the parent record of
    /// `pid`.
    pub fn count_children_of(&self, pid: u32) -> (n: usize)
        ensures
            n == child_count(self.children@, pid),
    {
        let mut n: usize = 0;
        let mut i: usize = 0;
        proof {
            reveal_with_fuel(Seq::<_>::filter, 2);
            assert(self.children@.take(0) =~= Seq::<Child>::empty());
        }
        while i < self.children.len()
            invariant
                i <= self.children@.len(),
                n <= i,
                n == child_count(self.children@.take(i as int), pid),
            decreases self.children@.len() - i,
        {
            proof {
                assert(self.children@.take(i + 1) =~= self.children@.take(i as int).push(
                    self.children@[i as int],
                ));
                lemma_count_push(self.children@.take(i as int), self.children@[i as int], pid);
            }
            if self.children[i].parent_pid == pid {
                n = n + 1;
            }
            i = i + 1;
        }
        proof {
            assert(self.children@.take(self.children@.len() as int) =~= self.children@);
        }
        n
    }

    /// Replaces the window's child record by `newchild` and updates the
    /// parent table: when `had` is false a record for the terminal is
    /// created, and a record orphaned by the replaced child is evicted.
    #[verifier::spinoff_prover]
    #[verifier::rlimit(100)]
    fn record_swallow(&mut self, newchild: Child, parent_window: u32, had: bool)
        requires
            old(self).wf(),
            had == old(self).spec_has_parent(newchild.parent_pid),
        ensures
            final(self).wf(),
            final(self).immune_names@ == old(self).immune_names@,
            final(self).terminal_names@ == old(self).terminal_names@,
            final(self).all_windows@ == old(self).all_windows@,
            final(self).children@ == commit_children(old(self).children@, newchild),
            final(self).parents@ == commit_parents(
                old(self).parents@,
                final(self).children@,
                had,
                Parent {
                    pid: newchild.parent_pid,
                    window: parent_window,
                    position: newchild.position,
                },
            ),
    {
        let ghost s0 = *old(self);
        if !had {
            self.parents.push(
                Parent {
                    pid: newchild.parent_pid,
                    window: parent_window,
                    position: newchild.position,
                },
            );
        }
        let ghost parents1 = self.parents@;
        proof {
            if !had {
                assert forall|l: int|
                    0 <= l < s0.parents@.len() implies (#[trigger] s0.parents@[l]).pid
                    != newchild.parent_pid by {
                    if s0.parents@[l].pid == newchild.parent_pid {
                        lemma_find_parent_some(s0.parents@, newchild.parent_pid, l);
                    }
                }
            }
            assert forall|k: int, l: int|
                0 <= k < parents1.len() && 0 <= l < parents1.len() && k
                    != l implies (#[trigger] parents1[k]).pid != (#[trigger] parents1[l]).pid by {
                if k >= s0.parents@.len() || l >= s0.parents@.len() {
                    assert(parents1.last().pid == newchild.parent_pid);
                }
            }
        }
        // replace any earlier record of this window, then append the new one
        let old_pos = self.child_pos(newchild.window);
        let ghost wpred = |c: Child| c.window != newchild.window;
        let mut removed: Option<Child> = None;
        let ghost rk: int = 0;
        match old_pos {
            Some(k) => {
                let c = self.children[k];
                proof {
                    rk = k as int;
                    assert(s0.children@ == self.children@);
                    assert(s0.children@[k as int].window == newchild.window);
                    assert(s0.children@[rk] == c);
                }
                self.children.remove(k);
                removed = Some(c);
                proof {
                    assert forall|l: int|
                        0 <= l < s0.children@.len() && l != k implies wpred(
                        #[trigger] s0.children@[l],
                    ) by {
                        assert(s0.children@[l].window != s0.children@[k as int].window);
                    }
                    lemma_remove_unique_filter(s0.children@, wpred, k as int);
                }
            },
            None => {
                proof {
                    assert(s0.children@ == self.children@);
                    assert forall|l: int| 0 <= l < s0.children@.len() implies wpred(
                        #[trigger] s0.children@[l],
                    ) by {
                        assert(self.children@[l].window != newchild.window);
                    }
                    lemma_filter_all_pass(s0.children@, wpred);
                }
            },
        }
        let ghost children1 = self.children@;
        self.children.push(newchild);
        let ghost children2 = self.children@;
        proof {
            assert(children2 =~= commit_children(s0.children@, newchild));
            lemma_filter_no_duplicates(s0.children@, wpred);
            assert forall|l: int| 0 <= l < children1.len() implies (#[trigger] children1[l]).window
                != newchild.window by {
                Seq::lemma_filter_pred(s0.children@, wpred, l);
            }
            assert forall|k: int, l: int|
                0 <= k < children2.len() && 0 <= l < children2.len() && k
                    != l implies (#[trigger] children2[k]).window != (
            #[trigger] children2[l]).window by {
                if k == children1.len() {
                    assert(children2[l] == children1[l]);
                } else if l == children1.len() {
                    assert(children2[k] == children1[k]);
                }
            }
            lemma_count_pos(children2, newchild.parent_pid);
            assert(children2[children2.len() - 1].parent_pid == newchild.parent_pid);
            assert(child_count(children2, newchild.parent_pid) >= 1);
        }
        // evict a parent record that the replaced child orphaned
        let evict: Option<u32> = match removed {
            Some(c) => {
                proof {
                    lemma_commit_count(s0.children@, children1, newchild, removed, rk, c.parent_pid);
                }
                if self.count_children_of(c.parent_pid) == 0 {
                    Some(c.parent_pid)
                } else {
                    None
                }
            },
            None => None,
        };
        let ghost epred = |p: Parent| child_count(children2, p.pid) >= 1;
        proof {
            assert forall|l: int|
                0 <= l < parents1.len() && (match evict {
                    Some(gone) => (#[trigger] parents1[l]).pid != gone,
                    None => true,
                }) implies epred(#[trigger] parents1[l]) by {
                let q = parents1[l];
                lemma_commit_count(s0.children@, children1, newchild, removed, rk, q.pid);
                if q.pid != newchild.parent_pid {
                    assert(q == s0.parents@[l]);
                    assert(child_count(s0.children@, q.pid) >= 1);
                    match removed {
                        Some(c) => {
                            if q.pid == c.parent_pid {
                                lemma_commit_count(
                                    s0.children@,
                                    children1,
                                    newchild,
                                    removed,
                                    rk,
                                    c.parent_pid,
                                );
                                assert(child_count(children2, q.pid) >= 1);
                            }
                        },
                        None => {},
                    }
                }
            }
        }
        match evict {
            Some(gone) => {
                match self.parent_pos(gone) {
                    Some(pk) => {
                        self.parents.remove(pk);
                        proof {
                            assert(!epred(parents1[pk as int]));
                            lemma_remove_unique_filter(parents1, epred, pk as int);
                        }
                    },
                    None => {
                        proof {
                            let c = removed.unwrap();
                            assert(s0.children@[rk] == c);
                            assert(s0.children@[rk].parent_pid == gone);
                            assert(find_parent_in(s0.parents@, gone) is Some);
                            let l = lemma_find_parent_witness(s0.parents@, gone);
                            if !had {
                                assert(parents1.take(s0.parents@.len() as int)[l]
                                    == parents1[l]);
                                assert(parents1.take(s0.parents@.len() as int) =~= s0.parents@);
                            }
                            assert(parents1[l].pid == gone);
                            assert(false);
                        }
                    },
                }
            },
            None => {
                proof {
                    lemma_filter_all_pass(parents1, epred);
                }
            },
        }
        proof {
            let added_rec = Parent {
                pid: newchild.parent_pid,
                window: parent_window,
                position: newchild.position,
            };
            assert(self.parents@ == parents1.filter(epred));
            assert(self.children@ == children2);
            assert(parents1 =~= (if had {
                s0.parents@
            } else {
                s0.parents@ + seq![added_rec]
            }));
            assert(self.parents@ == commit_parents(s0.parents@, children2, had, added_rec));
            if !s0.spec_has_parent(newchild.parent_pid) {
                assert(parents1.take(s0.parents@.len() as int) =~= s0.parents@);
            }
            lemma_commit_wf(
                s0.children@,
                s0.parents@,
                children1,
                children2,
                parents1,
                self.parents@,
                newchild,
                had,
            );
        }
    }

    /// Records a successful swallow of `child_window` (owned by
    /// `child_pid`) into the terminal `parent_pid` whose window is
    /// `parent_window`. When the terminal has no live parent record,
    /// `position` is the terminal window's current geometry: a record is
    /// created storing it, the terminal window is hidden, and the child is
    /// moved into that geometry. When a record is live, `position` is the
    /// child's own geometry and only the bookkeeping changes. Either way
    /// the child is subscribed to change notifications, the requests are
    /// flushed, and the new child record joins the table, replacing any
    /// earlier record of the same window.
    #[verifier::spinoff_prover]
    pub fn swallow_commit(
        &mut self,
        cx: &mut Context,
        child_window: u32,
        child_pid: u32,
        parent_pid: u32,
        parent_window: u32,
        position: Geometry,
    )
        requires
            old(self).wf(),
        ensures
            final(self).wf(),
            final(self).immune_names@ == old(self).immune_names@,
            final(self).terminal_names@ == old(self).terminal_names@,
            final(self).all_windows@ == old(self).all_windows@,
            final(self).children@ == commit_children(
                old(self).children@,
                Child { window: child_window, pid: child_pid, parent_pid, position },
            ),
            final(self).parents@ == commit_parents(
                old(self).parents@,
                final(self).children@,
                old(self).spec_has_parent(parent_pid),
                Parent { pid: parent_pid, window: parent_window, position },
            ),
            final(cx).same_config(*old(cx)),
            final(cx).queue@ == old(cx).queue@ + (if old(self).spec_has_parent(parent_pid) {
                Seq::<Request>::empty()
            } else {
                seq![Request::UnmapWindow { window: parent_window }] + geometry_requests(
                    old(cx).atoms,
                    child_window,
                    position,
                )
            }) + seq![Request::Subscribe { window: child_window }, Request::Flush],
    {
        let newchild = Child { window: child_window, pid: child_pid, parent_pid, position };
        let had = self.has_parent(parent_pid);
        if !had {
            cx.hide_window(parent_window);
            cx.set_window_geometry(child_window, position);
        }
        cx.subscribe(child_window);
        cx.flush();
        self.record_swallow(newchild, parent_window, had);
        proof {
            assert(final(cx).queue@ =~= old(cx).queue@ + (if had {
                Seq::<Request>::empty()
            } else {
                seq![Request::UnmapWindow { window: parent_window }] + geometry_requests(
                    old(cx).atoms,
                    child_window,
                    position,
                )
            }) + seq![Request::Subscribe { window: child_window }, Request::Flush]);
        }
    }
}

/// How a replacement and the appended new child change a reference count.
proof fn lemma_commit_count(
    children0: Seq<Child>,
    children1: Seq<Child>,
    newchild: Child,
    removed: Option<Child>,
    rk: int,
    pid: u32,
)
    requires
        match removed {
            Some(c) => 0 <= rk < children0.len() && children0[rk] == c && children1 == children0
                .remove(rk),
            None => children1 == children0,
        },
    ensures
        child_count(children1.push(newchild), pid) as int == child_count(children0, pid) as int - (
        match removed {
            Some(c) => if c.parent_pid == pid {
                1int
            } else {
                0int
            },
            None => 0int,
        }) + (if newchild.parent_pid == pid {
            1int
        } else {
            0int
        }),
{
    lemma_count_push(children1, newchild, pid);
    match removed {
        Some(c) => {
            lemma_count_remove(children0, rk, pid);
        },
        None => {},
    }
}

/// Walks the finder to an index whose record holds `pid`.
proof fn lemma_find_parent_witness(s: Seq<Parent>, pid: u32) -> (k: int)
    requires
        find_parent_in(s, pid) is Some,
    ensures
        0 <= k < s.len(),
        s[k].pid == pid,
    decreases s.len(),
{
    if s[0].pid == pid {
        0
    } else {
        let k = lemma_find_parent_witness(s.skip(1), pid);
        assert(s.skip(1)[k] == s[k + 1]);
        k + 1
    }
}

/// A parent record that keeps a positive count survives the eviction
/// filter, so the finder still succeeds on the filtered table.
proof fn lemma_survives_filter(
    parents1: Seq<Parent>,
    children2: Seq<Child>,
    fp: Seq<Parent>,
    l: int,
)
    requires
        fp == parents1.filter(|p: Parent| child_count(children2, p.pid) >= 1),
        0 <= l < parents1.len(),
        child_count(children2, parents1[l].pid) >= 1,
    ensures
        find_parent_in(fp, parents1[l].pid) is Some,
{
    let epred = |p: Parent| child_count(children2, p.pid) >= 1;
    assert(epred(parents1[l]));
    Seq::lemma_filter_contains(parents1, epred, l);
    assert(fp.contains(parents1[l]));
    let m = choose|m: int| 0 <= m < fp.len() && fp[m] == parents1[l];
    lemma_find_parent_some(fp, parents1[l].pid, m);
}

/// The engine invariant carries over the commit's new tables.
proof fn lemma_commit_wf(
    children0: Seq<Child>,
    parents0: Seq<Parent>,
    children1: Seq<Child>,
    children2: Seq<Child>,
    parents1: Seq<Parent>,
    fp: Seq<Parent>,
    newchild: Child,
    had: bool,
)
    requires
        fp == parents1.filter(|p: Parent| child_count(children2, p.pid) >= 1),
        children2 == children1.push(newchild),
        children1 == children0.filter(|c: Child| c.window != newchild.window),
        had ==> parents1 == parents0,
        !had ==> parents1.len() == parents0.len() + 1 && parents1.last().pid
            == newchild.parent_pid && parents1.take(parents0.len() as int) == parents0,
        had ==> find_parent_in(parents0, newchild.parent_pid) is Some,
        forall|k: int|
            0 <= k < children0.len() ==> find_parent_in(
                parents0,
                (#[trigger] children0[k]).parent_pid,
            ) is Some,
        forall|k: int, l: int|
            0 <= k < parents1.len() && 0 <= l < parents1.len() && k != l ==> (
            #[trigger] parents1[k]).pid != (#[trigger] parents1[l]).pid,
    ensures
        forall|k: int|
            0 <= k < children2.len() ==> find_parent_in(
                fp,
                (#[trigger] children2[k]).parent_pid,
            ) is Some,
        forall|k: int, l: int|
            0 <= k < fp.len() && 0 <= l < fp.len() && k != l ==> (#[trigger] fp[k]).pid != (
            #[trigger] fp[l]).pid,
        forall|k: int| 0 <= k < fp.len() ==> child_count(children2, (#[trigger] fp[k]).pid) >= 1,
{
    let epred = |p: Parent| child_count(children2, p.pid) >= 1;
    assert(fp == parents1.filter(epred));
    assert forall|k: int| 0 <= k < fp.len() implies child_count(
        children2,
        (#[trigger] fp[k]).pid,
    ) >= 1 by {
        Seq::lemma_filter_pred(parents1, epred, k);
    }
    assert forall|k: int, l: int|
        0 <= k < fp.len() && 0 <= l < fp.len() && k != l implies (#[trigger] fp[k]).pid != (
    #[trigger] fp[l]).pid by {
        assert(fp.contains(fp[k]));
        assert(fp.contains(fp[l]));
        Seq::lemma_filter_contains_rev(parents1, epred, fp[k]);
        Seq::lemma_filter_contains_rev(parents1, epred, fp[l]);
        lemma_filter_no_duplicates(parents1, epred);
        if fp[k].pid == fp[l].pid {
            let a = choose|a: int| 0 <= a < parents1.len() && parents1[a] == fp[k];
            let b = choose|b: int| 0 <= b < parents1.len() && parents1[b] == fp[l];
            assert(parents1[a].pid == parents1[b].pid);
            assert(a == b);
            assert(false);
        }
    }
    assert forall|k: int| 0 <= k < children2.len() implies find_parent_in(
        fp,
        (#[trigger] children2[k]).parent_pid,
    ) is Some by {
        let c = children2[k];
        lemma_count_pos(children2, c.parent_pid);
        assert(children2[k].parent_pid == c.parent_pid);
        assert(child_count(children2, c.parent_pid) >= 1);
        if c.parent_pid == newchild.parent_pid {
            if had {
                let l0 = lemma_find_parent_witness(parents0, c.parent_pid);
                lemma_survives_filter(parents1, children2, fp, l0);
            } else {
                lemma_survives_filter(parents1, children2, fp, parents1.len() - 1);
            }
        } else {
            assert(k < children1.len() && children1[k] == c);
            assert(children1.contains(c));
            Seq::lemma_filter_contains_rev(
                children0,
                |x: Child| x.window != newchild.window,
                c,
            );
            let i0 = choose|i: int| 0 <= i < children0.len() && children0[i] == c;
            assert(children0[i0].parent_pid == c.parent_pid);
            let l0 = lemma_find_parent_witness(parents0, c.parent_pid);
            if !had {
                assert(parents1.take(parents0.len() as int)[l0] == parents1[l0]);
            }
            assert(parents1[l0].pid == c.parent_pid);
            lemma_survives_filter(parents1, children2, fp, l0);
        }
    }
}

/// Filtering a duplicate-free sequence leaves it duplicate-free.
proof fn lemma_filter_no_duplicates<A>(s: Seq<A>, pred: spec_fn(A) -> bool)
    requires
        s.no_duplicates(),
    ensures
        s.filter(pred).no_duplicates(),
    decreases s.len(),
{
    reveal(Seq::filter);
    if s.len() > 0 {
        let rest = s.drop_last();
        lemma_filter_no_duplicates(rest, pred);
        if pred(s.last()) {
            if rest.filter(pred).contains(s.last()) {
                Seq::lemma_filter_contains_rev(rest, pred, s.last());
                let k = choose|k: int| 0 <= k < rest.len() && rest[k] == s.last();
                assert(s[k] == s[s.len() - 1]);
                assert(false);
            }
            let f = rest.filter(pred);
            assert forall|k: int, l: int|
                0 <= k < f.push(s.last()).len() && 0 <= l < f.push(s.last()).len() && k
                    != l implies f.push(s.last())[k] != f.push(s.last())[l] by {
                if k == f.len() {
                    assert(f.contains(f[l]));
                } else if l == f.len() {
                    assert(f.contains(f[k]));
                }
            }
        }
    }
}


/// How replacing one child record, its parent pid kept, changes no
/// reference count.
proof fn lemma_count_update(s: Seq<Child>, k: int, c2: Child, pid: u32)
    requires
        0 <= k < s.len(),
        c2.parent_pid == s[k].parent_pid,
    ensures
        child_count(s.update(k, c2), pid) == child_count(s, pid),
{
    let p = |c: Child| c.parent_pid == pid;
    assert(s =~= s.take(k) + (seq![s[k]] + s.skip(k + 1)));
    Seq::filter_distributes_over_add(s.take(k), seq![s[k]] + s.skip(k + 1), p);
    Seq::filter_distributes_over_add(seq![s[k]], s.skip(k + 1), p);
    assert(s.update(k, c2) =~= s.take(k) + (seq![c2] + s.skip(k + 1)));
    Seq::filter_distributes_over_add(s.take(k), seq![c2] + s.skip(k + 1), p);
    Seq::filter_distributes_over_add(seq![c2], s.skip(k + 1), p);
    reveal_with_fuel(Seq::<_>::filter, 2);
    assert(seq![s[k]].drop_last() =~= Seq::<Child>::empty());
    assert(seq![c2].drop_last() =~= Seq::<Child>::empty());
    assert(seq![s[k]].filter(p).len() == seq![c2].filter(p).len());
}

/// The requests that restore a parent window to geometry `g` when its
/// last child closed: apply the geometry, show the window, give it the
/// focus only if the closed child still held it, apply the geometry a
/// second time (some window managers reset placement on map), and flush.
pub open spec fn restore_requests(atoms: Atoms, parent_window: u32, g: Geometry, closed: u32) -> Seq<
    Request,
> {
    geometry_requests(atoms, parent_window, g) + seq![
        Request::MapWindow { window: parent_window },
        Request::ActiveIf { check: closed, window: parent_window },
    ] + geometry_requests(atoms, parent_window, g) + seq![Request::Flush]
}

/// The restore blocks that quitting emits, one per still-live parent
/// record in table order: geometry, map, geometry again.
pub open spec fn quit_restore(atoms: Atoms, parents: Seq<Parent>) -> Seq<Request>
    decreases parents.len(),
{
    if parents.len() == 0 {
        Seq::empty()
    } else {
        quit_restore(atoms, parents.drop_last()) + geometry_requests(
            atoms,
            parents.last().window,
            parents.last().position,
        ) + seq![Request::MapWindow { window: parents.last().window }] + geometry_requests(
            atoms,
            parents.last().window,
            parents.last().position,
        )
    }
}

impl Swallow {
    /// Refreshes the stored geometry of the tracked child `win` from a
    /// fresh query's result; a window that is no tracked child is
    /// silently ignored.
    pub fn update(&mut self, win: u32, position: Geometry)
        requires
            old(self).wf(),
        ensures
            final(self).wf(),
            final(self).immune_names@ == old(self).immune_names@,
            final(self).terminal_names@ == old(self).terminal_names@,
            final(self).all_windows@ == old(self).all_windows@,
            final(self).parents@ == old(self).parents@,
            final(self).children@ == old(self).children@.map_values(
                |c: Child| if c.window == win {
                    Child { window: c.window, pid: c.pid, parent_pid: c.parent_pid, position }
                } else {
                    c
                },
            ),
    {
        let ghost s0 = *old(self);
        let ghost f = |c: Child| if c.window == win {
            Child { window: c.window, pid: c.pid, parent_pid: c.parent_pid, position }
        } else {
            c
        };
        let pos = self.child_pos(win);
        match pos {
            None => {
                proof {
                    assert(self.children@ =~= s0.children@.map_values(f));
                }
            },
            Some(k) => {
                let c = self.children[k];
                let c2 = Child { window: c.window, pid: c.pid, parent_pid: c.parent_pid, position };
                self.children[k] = c2;
                proof {
                    assert forall|l: int| 0 <= l < self.children@.len() implies self.children@[l]
                        == f(s0.children@[l]) by {
                        if l != k {
                            assert(s0.children@[l].window != s0.children@[k as int].window);
                        }
                    }
                    assert(self.children@ =~= s0.children@.map_values(f));
                    assert forall|l: int| 0 <= l < self.children@.len() implies find_parent_in(
                        self.parents@,
                        (#[trigger] self.children@[l]).parent_pid,
                    ) is Some by {
                        assert(self.children@[l].parent_pid == s0.children@[l].parent_pid);
                    }
                    assert forall|l: int| 0 <= l < self.parents@.len() implies child_count(
                        self.children@,
                        (#[trigger] self.parents@[l]).pid,
                    ) >= 1 by {
                        lemma_count_update(s0.children@, k as int, c2, self.parents@[l].pid);
                    }
                }
            },
        }
    }

    /// Removes the child record of `win` if one exists; a plain window is
    /// silently ignored. When that was the parent's last child, the
    /// parent window inherits the child's final geometry, is shown,
    /// reclaims the focus only if the closing child still held it, gets
    /// the geometry a second time, the requests are flushed, and the
    /// parent record is evicted.
    #[verifier::spinoff_prover]
    pub fn close(&mut self, cx: &mut Context, win: u32)
        requires
            old(self).wf(),
        ensures
            final(self).wf(),
            final(self).immune_names@ == old(self).immune_names@,
            final(self).terminal_names@ == old(self).terminal_names@,
            final(self).all_windows@ == old(self).all_windows@,
            final(cx).same_config(*old(cx)),
            match find_child(old(self).children@, win) {
                Option::None => {
                    &&& final(self).children@ == old(self).children@
                    &&& final(self).parents@ == old(self).parents@
                    &&& final(cx).queue@ == old(cx).queue@
                },
                Option::Some(c) => {
                    &&& final(self).children@ == old(self).children@.filter(
                        |x: Child| x.window != win,
                    )
                    &&& if child_count(final(self).children@, c.parent_pid) == 0 {
                        &&& final(self).parents@ == old(self).parents@.filter(
                            |q: Parent| q.pid != c.parent_pid,
                        )
                        &&& final(cx).queue@ == old(cx).queue@ + restore_requests(
                            old(cx).atoms,
                            find_parent_in(old(self).parents@, c.parent_pid).unwrap().window,
                            c.position,
                            win,
                        )
                    } else {
                        &&& final(self).parents@ == old(self).parents@
                        &&& final(cx).queue@ == old(cx).queue@
                    }
                },
            },
    {
        let ghost s0 = *old(self);
        let ghost wpred = |x: Child| x.window != win;
        let pos = self.child_pos(win);
        match pos {
            None => {
                proof {
                    lemma_find_child_none(s0.children@, win);
                }
            },
            Some(k) => {
                let c = self.children[k];
                proof {
                    lemma_find_child_at(s0.children@, win, k as int);
                    assert forall|l: int|
                        0 <= l < s0.children@.len() && l != k implies wpred(
                        #[trigger] s0.children@[l],
                    ) by {
                        assert(s0.children@[l].window != s0.children@[k as int].window);
                    }
                    lemma_remove_unique_filter(s0.children@, wpred, k as int);
                }
                self.children.remove(k);
                let ghost children1 = self.children@;
                proof {
                    assert forall|a: int, b: int|
                        0 <= a < children1.len() && 0 <= b < children1.len() && a
                            != b implies (#[trigger] children1[a]).window != (
                    #[trigger] children1[b]).window by {
                        lemma_filter_no_duplicates(s0.children@, wpred);
                        Seq::lemma_filter_pred(s0.children@, wpred, a);
                    }
                }
                let remaining = self.count_children_of(c.parent_pid);
                if remaining == 0 {
                    match self.parent_pos(c.parent_pid) {
                        Some(pk) => {
                            let p = self.parents[pk];
                            proof {
                                lemma_find_parent_at(s0.parents@, c.parent_pid, pk as int);
                            }
                            cx.set_window_geometry(p.window, c.position);
                            cx.show_window(p.window);
                            cx.set_window_active_if(win, p.window);
                            cx.set_window_geometry(p.window, c.position);
                            cx.flush();
                            proof {
                                assert forall|l: int|
                                    0 <= l < s0.parents@.len() && l != pk implies (
                                #[trigger] s0.parents@[l]).pid != c.parent_pid by {
                                    assert(s0.parents@[l].pid != s0.parents@[pk as int].pid);
                                }
                                lemma_remove_unique_filter(
                                    s0.parents@,
                                    |q: Parent| q.pid != c.parent_pid,
                                    pk as int,
                                );
                            }
                            self.parents.remove(pk);
                            proof {
                                lemma_count_pos(children1, c.parent_pid);
                                assert forall|a: int, b: int|
                                    0 <= a < self.parents@.len() && 0 <= b < self.parents@.len()
                                        && a != b implies (#[trigger] self.parents@[a]).pid != (
                                #[trigger] self.parents@[b]).pid by {
                                    let a0: int = if a < pk {
                                        a
                                    } else {
                                        a + 1
                                    };
                                    let b0: int = if b < pk {
                                        b
                                    } else {
                                        b + 1
                                    };
                                    assert(s0.parents@[a0].pid != s0.parents@[b0].pid);
                                }
                                assert forall|l: int|
                                    0 <= l < children1.len() implies find_parent_in(
                                    self.parents@,
                                    (#[trigger] children1[l]).parent_pid,
                                ) is Some by {
                                    let cpid = children1[l].parent_pid;
                                    assert(cpid != c.parent_pid);
                                    Seq::lemma_filter_contains_rev(s0.children@, wpred, children1[l]);
                                    let i0 = choose|i0: int|
                                        0 <= i0 < s0.children@.len() && s0.children@[i0]
                                            == children1[l];
                                    assert(s0.children@[i0].parent_pid == cpid);
                                    let l0 = lemma_find_parent_witness(s0.parents@, cpid);
                                    let l1: int = if l0 < pk {
                                        l0
                                    } else {
                                        l0 - 1
                                    };
                                    assert(self.parents@[l1] == s0.parents@[l0]);
                                    lemma_find_parent_some(self.parents@, cpid, l1);
                                }
                                assert forall|l: int|
                                    0 <= l < self.parents@.len() implies child_count(
                                    children1,
                                    (#[trigger] self.parents@[l]).pid,
                                ) >= 1 by {
                                    let l0: int = if l < pk {
                                        l
                                    } else {
                                        l + 1
                                    };
                                    assert(self.parents@[l] == s0.parents@[l0]);
                                    assert(s0.parents@[l0].pid != c.parent_pid);
                                    assert(child_count(s0.children@, s0.parents@[l0].pid) >= 1);
                                    lemma_count_remove(
                                        s0.children@,
                                        k as int,
                                        s0.parents@[l0].pid,
                                    );
                                }
                            }
                        },
                        None => {
                            proof {
                                assert(s0.children@[k as int].parent_pid == c.parent_pid);
                                assert(find_parent_in(s0.parents@, c.parent_pid) is Some);
                                let l = lemma_find_parent_witness(s0.parents@, c.parent_pid);
                                assert(self.parents@[l].pid == c.parent_pid);
                                assert(false);
                            }
                        },
                    }
                } else {
                    proof {
                        assert forall|l: int|
                            0 <= l < children1.len() implies find_parent_in(
                            self.parents@,
                            (#[trigger] children1[l]).parent_pid,
                        ) is Some by {
                            Seq::lemma_filter_contains_rev(s0.children@, wpred, children1[l]);
                            let i0 = choose|i0: int|
                                0 <= i0 < s0.children@.len() && s0.children@[i0] == children1[l];
                            assert(s0.children@[i0].parent_pid == children1[l].parent_pid);
                        }
                        assert forall|l: int|
                            0 <= l < self.parents@.len() implies child_count(
                            children1,
                            (#[trigger] self.parents@[l]).pid,
                        ) >= 1 by {
                            lemma_count_remove(s0.children@, k as int, self.parents@[l].pid);
                            if self.parents@[l].pid == c.parent_pid {
                                assert(child_count(children1, c.parent_pid) >= 1);
                            } else {
                                assert(child_count(s0.children@, self.parents@[l].pid) >= 1);
                            }
                        }
                    }
                }
            },
        }
    }

    /// Shows every still-hidden parent window at its stored geometry,
    /// applied once before and once after the map, then flushes and waits
    /// for every reply, so no window is left hidden if the process exits
    /// right after the call.
    pub fn quit(&mut self, cx: &mut Context)
        ensures
            *final(self) == *old(self),
            final(cx).same_config(*old(cx)),
            final(cx).queue@ == old(cx).queue@ + quit_restore(old(cx).atoms, old(self).parents@)
                + seq![Request::FlushHard],
    {
        let ghost base = old(cx).queue@;
        let mut i: usize = 0;
        proof {
            assert(self.parents@.take(0) =~= Seq::<Parent>::empty());
            assert(base + quit_restore(cx.atoms, self.parents@.take(0)) =~= base);
        }
        while i < self.parents.len()
            invariant
                i <= self.parents@.len(),
                *self == *old(self),
                cx.atoms == old(cx).atoms,
                cx.root == old(cx).root,
                cx.queue@ == base + quit_restore(cx.atoms, self.parents@.take(i as int)),
            decreases self.parents@.len() - i,
        {
            let p = self.parents[i];
            cx.set_window_geometry(p.window, p.position);
            cx.show_window(p.window);
            cx.set_window_geometry(p.window, p.position);
            proof {
                assert(self.parents@.take(i + 1).drop_last() =~= self.parents@.take(i as int));
                assert(self.parents@.take(i + 1).last() == p);
                assert(cx.queue@ =~= base + quit_restore(cx.atoms, self.parents@.take(i + 1)));
            }
            i = i + 1;
        }
        proof {
            assert(self.parents@.take(self.parents@.len() as int) =~= self.parents@);
        }
        cx.flush_hard();
    }
}


} // verus!
