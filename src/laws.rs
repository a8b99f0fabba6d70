//! A model of whole runs over a destination directory, and what holds of them.
//!
//! A destination is a map from file names to contents. Each source file is
//! taken in turn: a file whose name is not a photo's, or whose metadata holds
//! no capture time, is left out; any other is resolved against the slots of
//! its candidate name and linked or skipped.
use vstd::prelude::*;
use crate::naming::{candidate_spec, decimal, jpeg_suffix, lemma_slot_injective, slot_spec};
use vstd::set_lib::lemma_len_subset;
use crate::resolver::{SlotState, slot_state_spec};
use crate::timestamp::{Timestamp, timestamp_of};
use crate::walker::{candidate_of, is_photo_name};

verus! {

/// A source file: its name, the value of its capture-time field if it has
/// one, and its content.
pub struct SourceFile {
    pub name: Seq<char>,
    pub tag: Option<Seq<u8>>,
    pub content: Seq<u8>,
}

/// The candidate name a source file is organised under, if any.
pub open spec fn entry_base(f: SourceFile) -> Option<Seq<char>> {
    candidate_of(f.name, f.tag)
}

/// Slot `j` of `base` holds a file whose content is not `c`.
pub open spec fn occupied_by_other(d: Map<Seq<char>, Seq<u8>>, base: Seq<char>, c: Seq<u8>, j: nat) -> bool {
    d.contains_key(slot_spec(base, j)) && d[slot_spec(base, j)] != c
}

/// Every slot of `base` before index `i` holds other content than `c`.
pub open spec fn probing(d: Map<Seq<char>, Seq<u8>>, base: Seq<char>, c: Seq<u8>, i: nat) -> bool {
    forall|j: nat| j < i ==> #[trigger] occupied_by_other(d, base, c, j)
}

/// The search for content `c` among the slots of `base` ends at index `k`:
/// with a link into that free slot (`link`), or with a skip because the slot
/// already holds `c`.
pub open spec fn resolves(d: Map<Seq<char>, Seq<u8>>, base: Seq<char>, c: Seq<u8>, k: nat, link: bool) -> bool {
    probing(d, base, c, k) && if link {
        !d.contains_key(slot_spec(base, k))
    } else {
        d.contains_key(slot_spec(base, k)) && d[slot_spec(base, k)] == c
    }
}

/// The destination after the search ends at `k`.
pub open spec fn apply(d: Map<Seq<char>, Seq<u8>>, base: Seq<char>, c: Seq<u8>, k: nat, link: bool) -> Map<Seq<char>, Seq<u8>> {
    if link {
        d.insert(slot_spec(base, k), c)
    } else {
        d
    }
}

/// Processing source file `f` may take destination `d` to `d2`.
pub open spec fn step_rel(d: Map<Seq<char>, Seq<u8>>, f: SourceFile, d2: Map<Seq<char>, Seq<u8>>) -> bool {
    match entry_base(f) {
        None => d2 == d,
        Some(b) => exists|k: nat, link: bool|
            resolves(d, b, f.content, k, link) && d2 == apply(d, b, f.content, k, link),
    }
}

/// Processing the files `fs` in order may take destination `d0` to `d1`.
pub open spec fn run_rel(d0: Map<Seq<char>, Seq<u8>>, fs: Seq<SourceFile>, d1: Map<Seq<char>, Seq<u8>>) -> bool
    decreases fs.len(),
{
    if fs.len() == 0 {
        d1 == d0
    } else {
        exists|dm: Map<Seq<char>, Seq<u8>>|
            run_rel(d0, fs.drop_last(), dm) && step_rel(dm, fs.last(), d1)
    }
}

/// What a slot holds as seen from content `c`.
pub open spec fn observed(d: Map<Seq<char>, Seq<u8>>, slot: Seq<char>, c: Seq<u8>) -> SlotState {
    slot_state_spec(if d.contains_key(slot) { Some(d[slot]) } else { None }, c)
}

/// One probe of the resolver: where every earlier slot held other content, a
/// vacant slot ends the search with a link, a slot with the same content ends
/// it with a skip, and a slot with other content moves it on by one.
pub proof fn lemma_probe_step(d: Map<Seq<char>, Seq<u8>>, base: Seq<char>, c: Seq<u8>, i: nat)
    requires
        probing(d, base, c, i),
    ensures
        observed(d, slot_spec(base, i), c) == SlotState::Vacant ==> resolves(d, base, c, i, true),
        observed(d, slot_spec(base, i), c) == SlotState::Same ==> resolves(d, base, c, i, false),
        observed(d, slot_spec(base, i), c) == SlotState::Different ==> probing(d, base, c, i + 1),
{
    if observed(d, slot_spec(base, i), c) == SlotState::Different {
        assert forall|j: nat| j < i + 1 implies #[trigger] occupied_by_other(d, base, c, j) by {
            if j < i {
                assert(occupied_by_other(d, base, c, j));
            }
        }
    }
}

/// A search has one end only.
pub proof fn lemma_resolution_unique(
    d: Map<Seq<char>, Seq<u8>>,
    base: Seq<char>,
    c: Seq<u8>,
    k1: nat,
    l1: bool,
    k2: nat,
    l2: bool,
)
    requires
        resolves(d, base, c, k1, l1),
        resolves(d, base, c, k2, l2),
    ensures
        k1 == k2,
        l1 == l2,
{
    if k1 < k2 {
        assert(occupied_by_other(d, base, c, k1));
    } else if k2 < k1 {
        assert(occupied_by_other(d, base, c, k2));
    }
}

/// Content `c` is already found by the search among the slots of `base`.
pub open spec fn placed(d: Map<Seq<char>, Seq<u8>>, base: Seq<char>, c: Seq<u8>) -> bool {
    exists|k: nat| resolves(d, base, c, k, false)
}

proof fn lemma_resolves_grow(
    d: Map<Seq<char>, Seq<u8>>,
    d2: Map<Seq<char>, Seq<u8>>,
    base: Seq<char>,
    c: Seq<u8>,
    k: nat,
)
    requires
        resolves(d, base, c, k, false),
        d.submap_of(d2),
    ensures
        resolves(d2, base, c, k, false),
{
    assert forall|j: nat| j < k implies #[trigger] occupied_by_other(d2, base, c, j) by {
        assert(occupied_by_other(d, base, c, j));
    }
    let slot = slot_spec(base, k);
    assert(d.submap_of(d2));
    assert(d.dom().contains(slot));
    assert(d2.dom().contains(slot));
    assert(d[slot] == d2[slot]);
}

proof fn lemma_step_places(d: Map<Seq<char>, Seq<u8>>, f: SourceFile, d2: Map<Seq<char>, Seq<u8>>)
    requires
        step_rel(d, f, d2),
    ensures
        d.submap_of(d2),
        entry_base(f) is Some ==> placed(d2, entry_base(f)->Some_0, f.content),
{
    if let Some(b) = entry_base(f) {
        let c = f.content;
        let (k, link) = choose|k: nat, link: bool|
            resolves(d, b, c, k, link) && d2 == apply(d, b, c, k, link);
        if link {
            assert forall|j: nat| j < k implies #[trigger] occupied_by_other(d2, b, c, j) by {
                assert(occupied_by_other(d, b, c, j));
            }
        }
        assert(resolves(d2, b, c, k, false));
    }
}

proof fn lemma_run_places(d0: Map<Seq<char>, Seq<u8>>, fs: Seq<SourceFile>, d1: Map<Seq<char>, Seq<u8>>)
    requires
        run_rel(d0, fs, d1),
    ensures
        d0.submap_of(d1),
        forall|i: int|
            0 <= i < fs.len() && (#[trigger] entry_base(fs[i])) is Some ==> placed(
                d1,
                entry_base(fs[i])->Some_0,
                fs[i].content,
            ),
    decreases fs.len(),
{
    if fs.len() > 0 {
        let dm = choose|dm: Map<Seq<char>, Seq<u8>>|
            run_rel(d0, fs.drop_last(), dm) && step_rel(dm, fs.last(), d1);
        lemma_run_places(d0, fs.drop_last(), dm);
        lemma_step_places(dm, fs.last(), d1);
        assert forall|i: int|
            0 <= i < fs.len() && (#[trigger] entry_base(fs[i])) is Some implies placed(
                d1,
                entry_base(fs[i])->Some_0,
                fs[i].content,
            ) by {
            if i < fs.len() - 1 {
                assert(fs.drop_last()[i] == fs[i]);
                let b = entry_base(fs[i])->Some_0;
                let k = choose|k: nat| resolves(dm, b, fs[i].content, k, false);
                lemma_resolves_grow(dm, d1, b, fs[i].content, k);
            }
        }
    }
}

proof fn lemma_run_placed_still(d1: Map<Seq<char>, Seq<u8>>, fs: Seq<SourceFile>, d2: Map<Seq<char>, Seq<u8>>)
    requires
        run_rel(d1, fs, d2),
        forall|i: int|
            0 <= i < fs.len() && (#[trigger] entry_base(fs[i])) is Some ==> placed(
                d1,
                entry_base(fs[i])->Some_0,
                fs[i].content,
            ),
    ensures
        d2 == d1,
    decreases fs.len(),
{
    if fs.len() > 0 {
        let dm = choose|dm: Map<Seq<char>, Seq<u8>>|
            run_rel(d1, fs.drop_last(), dm) && step_rel(dm, fs.last(), d2);
        assert forall|i: int|
            0 <= i < fs.drop_last().len() && (#[trigger] entry_base(fs.drop_last()[i])) is Some implies placed(
                d1,
                entry_base(fs.drop_last()[i])->Some_0,
                fs.drop_last()[i].content,
            ) by {
            assert(fs.drop_last()[i] == fs[i]);
        }
        lemma_run_placed_still(d1, fs.drop_last(), dm);
        let f = fs.last();
        assert(f == fs[fs.len() - 1]);
        if let Some(b) = entry_base(f) {
            let (k, link) = choose|k: nat, link: bool|
                resolves(dm, b, f.content, k, link) && d2 == apply(dm, b, f.content, k, link);
            let k2 = choose|k: nat| resolves(d1, b, f.content, k, false);
            lemma_resolution_unique(d1, b, f.content, k, link, k2, false);
        }
    }
}

/// Running twice over the same source files adds nothing the second time:
/// every file of the second run that is organised at all is found already
/// placed, and the destination is left as the first run left it.
pub proof fn lemma_run_idempotent(
    d0: Map<Seq<char>, Seq<u8>>,
    fs: Seq<SourceFile>,
    d1: Map<Seq<char>, Seq<u8>>,
    d2: Map<Seq<char>, Seq<u8>>,
)
    requires
        run_rel(d0, fs, d1),
        run_rel(d1, fs, d2),
    ensures
        d2 == d1,
        forall|i: int|
            0 <= i < fs.len() && (#[trigger] entry_base(fs[i])) is Some ==> placed(
                d1,
                entry_base(fs[i])->Some_0,
                fs[i].content,
            ),
{
    lemma_run_places(d0, fs, d1);
    lemma_run_placed_still(d1, fs, d2);
}

proof fn lemma_run_one(d: Map<Seq<char>, Seq<u8>>, f: SourceFile, d1: Map<Seq<char>, Seq<u8>>)
    requires
        run_rel(d, seq![f], d1),
    ensures
        step_rel(d, f, d1),
{
    let dm = choose|dm: Map<Seq<char>, Seq<u8>>|
        run_rel(d, seq![f].drop_last(), dm) && step_rel(dm, seq![f].last(), d1);
    assert(seq![f].drop_last() =~= Seq::<SourceFile>::empty());
    assert(run_rel(d, Seq::<SourceFile>::empty(), dm));
}

proof fn lemma_run_two(
    d: Map<Seq<char>, Seq<u8>>,
    f1: SourceFile,
    f2: SourceFile,
    d2: Map<Seq<char>, Seq<u8>>,
) -> (dm: Map<Seq<char>, Seq<u8>>)
    requires
        run_rel(d, seq![f1, f2], d2),
    ensures
        step_rel(d, f1, dm),
        step_rel(dm, f2, d2),
{
    let dm = choose|dm: Map<Seq<char>, Seq<u8>>|
        run_rel(d, seq![f1, f2].drop_last(), dm) && step_rel(dm, seq![f1, f2].last(), d2);
    assert(seq![f1, f2].drop_last() =~= seq![f1]);
    lemma_run_one(d, f1, dm);
    dm
}

/// A photo whose candidate slot is free ends linked under the unnumbered slot.
proof fn lemma_step_fresh(d: Map<Seq<char>, Seq<u8>>, f: SourceFile, b: Seq<char>, d1: Map<Seq<char>, Seq<u8>>)
    requires
        entry_base(f) == Some(b),
        !d.contains_key(slot_spec(b, 0)),
        step_rel(d, f, d1),
    ensures
        d1 == d.insert(slot_spec(b, 0), f.content),
{
    let (k, link) = choose|k: nat, link: bool|
        resolves(d, b, f.content, k, link) && d1 == apply(d, b, f.content, k, link);
    assert(resolves(d, b, f.content, 0, true));
    lemma_resolution_unique(d, b, f.content, k, link, 0, true);
}

/// A photo with a capture time, whose name is not taken yet, ends as exactly
/// one new file: named `YYYY-MM-DD_HH_MM_SS.jpeg` after that time, holding the
/// photo's content.
pub proof fn lemma_fresh_photo_linked(
    d: Map<Seq<char>, Seq<u8>>,
    f: SourceFile,
    ts: Timestamp,
    d1: Map<Seq<char>, Seq<u8>>,
)
    requires
        is_photo_name(f.name),
        f.tag is Some,
        timestamp_of(f.tag->Some_0) == Some(ts),
        !d.contains_key(candidate_spec(ts) + jpeg_suffix()),
        run_rel(d, seq![f], d1),
    ensures
        d1 == d.insert(candidate_spec(ts) + jpeg_suffix(), f.content),
        d1.dom() == d.dom().insert(candidate_spec(ts) + jpeg_suffix()),
        d.dom().finite() ==> d1.dom().len() == d.dom().len() + 1,
{
    lemma_run_one(d, f, d1);
    lemma_step_fresh(d, f, candidate_spec(ts), d1);
}

/// Two photos of the same capture time and the same content, where that
/// time's name is not taken yet, end as one file: the second is skipped.
pub proof fn lemma_same_photo_twice(
    d: Map<Seq<char>, Seq<u8>>,
    f1: SourceFile,
    f2: SourceFile,
    d2: Map<Seq<char>, Seq<u8>>,
)
    requires
        entry_base(f1) is Some,
        entry_base(f2) == entry_base(f1),
        f1.content == f2.content,
        !d.contains_key(slot_spec(entry_base(f1)->Some_0, 0)),
        run_rel(d, seq![f1, f2], d2),
    ensures
        d2 == d.insert(slot_spec(entry_base(f1)->Some_0, 0), f1.content),
{
    let b = entry_base(f1)->Some_0;
    let c = f1.content;
    let dm = lemma_run_two(d, f1, f2, d2);
    lemma_step_fresh(d, f1, b, dm);
    let (k, link) = choose|k: nat, link: bool|
        resolves(dm, b, c, k, link) && d2 == apply(dm, b, c, k, link);
    assert(resolves(dm, b, c, 0, false));
    lemma_resolution_unique(dm, b, c, k, link, 0, false);
}

/// Two photos of the same capture time and different contents, where neither
/// `<name>.jpeg` nor `<name>-1.jpeg` is taken yet, end as those two files.
pub proof fn lemma_different_photos_same_time(
    d: Map<Seq<char>, Seq<u8>>,
    f1: SourceFile,
    f2: SourceFile,
    d2: Map<Seq<char>, Seq<u8>>,
)
    requires
        entry_base(f1) is Some,
        entry_base(f2) == entry_base(f1),
        f1.content != f2.content,
        !d.contains_key(slot_spec(entry_base(f1)->Some_0, 0)),
        !d.contains_key(slot_spec(entry_base(f1)->Some_0, 1)),
        run_rel(d, seq![f1, f2], d2),
    ensures
        d2 == d.insert(slot_spec(entry_base(f1)->Some_0, 0), f1.content).insert(
            slot_spec(entry_base(f1)->Some_0, 1),
            f2.content,
        ),
        slot_spec(entry_base(f1)->Some_0, 0) != slot_spec(entry_base(f1)->Some_0, 1),
{
    let b = entry_base(f1)->Some_0;
    let c = f2.content;
    let dm = lemma_run_two(d, f1, f2, d2);
    lemma_step_fresh(d, f1, b, dm);
    assert(decimal(1) == seq!['1']);
    assert(slot_spec(b, 0).len() != slot_spec(b, 1).len());
    let (k, link) = choose|k: nat, link: bool|
        resolves(dm, b, c, k, link) && d2 == apply(dm, b, c, k, link);
    assert(occupied_by_other(dm, b, c, 0));
    assert(resolves(dm, b, c, 1, true));
    lemma_resolution_unique(dm, b, c, k, link, 1, true);
}

/// A file whose name is not a photo's, or which has no capture time, leaves
/// the destination as it was.
pub proof fn lemma_unorganised_untouched(d: Map<Seq<char>, Seq<u8>>, f: SourceFile, d1: Map<Seq<char>, Seq<u8>>)
    requires
        !is_photo_name(f.name) || f.tag is None || timestamp_of(f.tag->Some_0) is None,
        run_rel(d, seq![f], d1),
    ensures
        entry_base(f) is None,
        d1 == d,
{
    lemma_run_one(d, f, d1);
}

proof fn lemma_probing_bound(d: Map<Seq<char>, Seq<u8>>, base: Seq<char>, c: Seq<u8>, i: nat)
    requires
        d.dom().finite(),
        probing(d, base, c, i),
    ensures
        i <= d.dom().len(),
{
    let slots = Seq::new(i, |j: int| slot_spec(base, j as nat));
    assert forall|x: int, y: int| 0 <= x < slots.len() && 0 <= y < slots.len() && x != y implies slots[x]
        != slots[y] by {
        if slots[x] == slots[y] {
            lemma_slot_injective(base, x as nat, y as nat);
        }
    }
    assert(slots.no_duplicates());
    assert forall|s: Seq<char>| slots.to_set().contains(s) implies d.dom().contains(s) by {
        let j = choose|j: int| 0 <= j < slots.len() && slots[j] == s;
        assert(occupied_by_other(d, base, c, j as nat));
    }
    slots.unique_seq_to_set();
    lemma_len_subset(slots.to_set(), d.dom());
}

proof fn lemma_search_from(d: Map<Seq<char>, Seq<u8>>, base: Seq<char>, c: Seq<u8>, i: nat) -> (r: (nat, bool))
    requires
        d.dom().finite(),
        probing(d, base, c, i),
    ensures
        resolves(d, base, c, r.0, r.1),
    decreases d.dom().len() - i,
{
    lemma_probing_bound(d, base, c, i);
    lemma_probe_step(d, base, c, i);
    if observed(d, slot_spec(base, i), c) == SlotState::Vacant {
        (i, true)
    } else if observed(d, slot_spec(base, i), c) == SlotState::Same {
        (i, false)
    } else {
        lemma_probing_bound(d, base, c, i + 1);
        lemma_search_from(d, base, c, i + 1)
    }
}

/// On a destination with finitely many files the search for a slot always
/// ends, within as many probes as there are files plus one.
pub proof fn lemma_search_ends(d: Map<Seq<char>, Seq<u8>>, base: Seq<char>, c: Seq<u8>)
    requires
        d.dom().finite(),
    ensures
        exists|k: nat, link: bool| k <= d.dom().len() && resolves(d, base, c, k, link),
{
    let (k, link) = lemma_search_from(d, base, c, 0);
    lemma_probing_bound(d, base, c, k);
}

/// Every list of source files can be processed from a destination with
/// finitely many files, and leaves finitely many files.
pub proof fn lemma_run_exists(d0: Map<Seq<char>, Seq<u8>>, fs: Seq<SourceFile>)
    requires
        d0.dom().finite(),
    ensures
        exists|d1: Map<Seq<char>, Seq<u8>>| run_rel(d0, fs, d1) && d1.dom().finite(),
    decreases fs.len(),
{
    if fs.len() == 0 {
        assert(run_rel(d0, fs, d0));
    } else {
        lemma_run_exists(d0, fs.drop_last());
        let dm = choose|dm: Map<Seq<char>, Seq<u8>>| run_rel(d0, fs.drop_last(), dm) && dm.dom().finite();
        let f = fs.last();
        match entry_base(f) {
            None => {
                assert(step_rel(dm, f, dm));
                assert(run_rel(d0, fs, dm));
            },
            Some(b) => {
                lemma_search_ends(dm, b, f.content);
                let (k, link) = choose|k: nat, link: bool|
                    k <= dm.dom().len() && resolves(dm, b, f.content, k, link);
                let d1 = apply(dm, b, f.content, k, link);
                assert(step_rel(dm, f, d1));
                assert(run_rel(d0, fs, d1));
                assert(d1.dom().finite());
            },
        }
    }
}

} // verus!
