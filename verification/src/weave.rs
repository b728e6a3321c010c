//! A weave: the sequence of atoms (insertions, replacements and removals)
//! from which the items of one sequence of the document are rendered.
use vstd::prelude::*;
use itertools::Itertools;
use crate::ids::{Id, SiteId, Clock, id_less, id_is_less};
use crate::keys::TypeId;
use crate::content::{Item, item_less, item_is_less};

verus! {

/// What an atom does to the item it refers to.
#[derive(Debug, Clone, Copy, PartialEq, Eq, Structural)]
pub enum AtomOp {
    /// Removes the item.
    Remove,
    /// Replaces the item by another one.
    Replace(Item),
    /// Adds an item after the one referred to.
    Add(Item),
}

/// One operation of a weave: `op`, stamped with `id`, referring to the atom
/// `prev` (the null id refers to the start of the sequence).
#[derive(Debug, Clone, Copy, PartialEq, Eq, Structural)]
pub struct Atom {
    pub prev: Id,
    pub op: AtomOp,
    pub id: Id,
}

pub open spec fn op_rank(op: AtomOp) -> int {
    match op {
        AtomOp::Remove => 0,
        AtomOp::Replace(_) => 1,
        AtomOp::Add(_) => 2,
    }
}

/// The order of operations: removals, then replacements, then additions,
/// and between two of a kind the order of their items.
pub open spec fn op_less(a: AtomOp, b: AtomOp) -> bool {
    if op_rank(a) != op_rank(b) {
        op_rank(a) < op_rank(b)
    } else {
        match (a, b) {
            (AtomOp::Replace(x), AtomOp::Replace(y)) => item_less(x, y),
            (AtomOp::Add(x), AtomOp::Add(y)) => item_less(x, y),
            _ => false,
        }
    }
}

/// The order of atoms: by `prev`, then by `op`, then by `id`.
pub open spec fn atom_less(a: Atom, b: Atom) -> bool {
    id_less(a.prev, b.prev) || (a.prev == b.prev && (op_less(a.op, b.op) || (a.op == b.op
        && id_less(a.id, b.id))))
}

fn op_is_less(a: AtomOp, b: AtomOp) -> (r: bool)
    ensures
        r == op_less(a, b),
{
    let ra: u8 = match a {
        AtomOp::Remove => 0,
        AtomOp::Replace(_) => 1,
        AtomOp::Add(_) => 2,
    };
    let rb: u8 = match b {
        AtomOp::Remove => 0,
        AtomOp::Replace(_) => 1,
        AtomOp::Add(_) => 2,
    };
    if ra != rb {
        ra < rb
    } else {
        match (a, b) {
            (AtomOp::Replace(x), AtomOp::Replace(y)) => item_is_less(x, y),
            (AtomOp::Add(x), AtomOp::Add(y)) => item_is_less(x, y),
            _ => false,
        }
    }
}

/// Decides `atom_less`.
pub fn atom_is_less(a: Atom, b: Atom) -> (r: bool)
    ensures
        r == atom_less(a, b),
{
    id_is_less(a.prev, b.prev) || (a.prev == b.prev && (op_is_less(a.op, b.op) || (a.op == b.op
        && id_is_less(a.id, b.id))))
}

/// The first index at or after `i` of an atom with the given id, or -1.
pub open spec fn index_from(s: Seq<Atom>, id: Id, i: int) -> int
    decreases s.len() - i,
{
    if i < 0 || i >= s.len() {
        -1
    } else if s[i].id == id {
        i
    } else {
        index_from(s, id, i + 1)
    }
}

/// The index of the first atom with the given id, or -1.
pub open spec fn index_of(s: Seq<Atom>, id: Id) -> int {
    index_from(s, id, 0)
}

/// Whether an atom may be added: it refers to the start or to an atom that
/// is there.
pub open spec fn can_add(s: Seq<Atom>, a: Atom) -> bool {
    a.prev == Id::null_spec() || index_of(s, a.prev) >= 0
}

/// The end of the chain of atoms from `idx` on in which each atom refers to
/// the one before it, the first one to `prev_id`.
pub open spec fn chain_end(s: Seq<Atom>, prev_id: Id, idx: int) -> int
    decreases s.len() - idx,
{
    if 0 <= idx < s.len() && s[idx].prev == prev_id {
        chain_end(s, s[idx].id, idx + 1)
    } else {
        idx
    }
}

pub proof fn lemma_chain_end_bounds(s: Seq<Atom>, prev_id: Id, idx: int)
    requires
        0 <= idx <= s.len(),
    ensures
        idx <= chain_end(s, prev_id, idx) <= s.len(),
    decreases s.len() - idx,
{
    if 0 <= idx < s.len() && s[idx].prev == prev_id {
        lemma_chain_end_bounds(s, s[idx].id, idx + 1);
    }
}

/// Where `a` is placed when it is added, the search starting at `idx`: before
/// the first atom that is no sibling of `a` (refers elsewhere) or that comes
/// after `a` in the order of atoms; a sibling that comes before `a` is
/// skipped together with the chain of atoms that continue it.
pub open spec fn slot_from(s: Seq<Atom>, a: Atom, idx: int) -> int
    decreases s.len() - idx,
{
    if idx < 0 || idx >= s.len() {
        idx
    } else if a.prev != s[idx].prev || atom_less(a, s[idx]) {
        idx
    } else {
        let next = chain_end(s, s[idx].id, idx + 1);
        proof {
            lemma_chain_end_bounds(s, s[idx].id, idx + 1);
        }
        slot_from(s, a, next)
    }
}

/// The index at which `add` places `a`: the search starts right after the
/// atom `a` refers to (at the very start for the null id).
pub open spec fn add_slot(s: Seq<Atom>, a: Atom) -> int {
    if a.prev == Id::null_spec() {
        slot_from(s, a, 0)
    } else {
        slot_from(s, a, index_of(s, a.prev) + 1)
    }
}

pub proof fn lemma_slot_from_bounds(s: Seq<Atom>, a: Atom, idx: int)
    requires
        0 <= idx <= s.len(),
    ensures
        idx <= slot_from(s, a, idx) <= s.len(),
    decreases s.len() - idx,
{
    if idx < s.len() && !(a.prev != s[idx].prev || atom_less(a, s[idx])) {
        lemma_chain_end_bounds(s, s[idx].id, idx + 1);
        let next = chain_end(s, s[idx].id, idx + 1);
        lemma_slot_from_bounds(s, a, next);
    }
}

pub proof fn lemma_index_from_bounds(s: Seq<Atom>, id: Id, i: int)
    requires
        0 <= i,
    ensures
        index_from(s, id, i) == -1 || (i <= index_from(s, id, i) < s.len() && s[index_from(
            s,
            id,
            i,
        )].id == id),
    decreases s.len() - i,
{
    if i < s.len() && s[i].id != id {
        lemma_index_from_bounds(s, id, i + 1);
    }
}

/// The result of scanning the atoms from `i` on, with `pending` the item
/// seen last and not yet handed out: an addition hands out the pending item
/// and becomes pending itself; a replacement or a removal of the pending
/// item replaces it or drops it; at the end the pending item is handed out.
pub open spec fn scan(s: Seq<Atom>, i: int, pending: Option<(Id, Item)>) -> Seq<(Id, Item)>
    decreases s.len() - i,
{
    if i < 0 || i >= s.len() {
        match pending {
            Some(p) => seq![p],
            None => seq![],
        }
    } else {
        let a = s[i];
        match a.op {
            AtomOp::Add(item) => match pending {
                Some(p) => seq![p] + scan(s, i + 1, Some((a.id, item))),
                None => scan(s, i + 1, Some((a.id, item))),
            },
            AtomOp::Replace(item) => match pending {
                Some(p) => if p.0 == a.prev {
                    scan(s, i + 1, Some((a.id, item)))
                } else {
                    scan(s, i + 1, pending)
                },
                None => scan(s, i + 1, pending),
            },
            AtomOp::Remove => match pending {
                Some(p) => if p.0 == a.prev {
                    scan(s, i + 1, None)
                } else {
                    scan(s, i + 1, pending)
                },
                None => scan(s, i + 1, pending),
            },
        }
    }
}

/// The items a sequence of atoms renders to, each with the id of the atom
/// that last set it.
pub open spec fn weave_items(s: Seq<Atom>) -> Seq<(Id, Item)> {
    scan(s, 0, None)
}

/// The item of the first atom with the given id, if that atom adds or
/// replaces an item.
pub open spec fn item_of(s: Seq<Atom>, id: Id) -> Option<Item> {
    let k = index_of(s, id);
    if k < 0 {
        None
    } else {
        match s[k].op {
            AtomOp::Add(item) => Some(item),
            AtomOp::Replace(item) => Some(item),
            AtomOp::Remove => None,
        }
    }
}

/// The first index at or after `i` of an entry with the given id, or -1.
pub open spec fn pos_from(v: Seq<(Id, Item)>, id: Id, i: int) -> int
    decreases v.len() - i,
{
    if i < 0 || i >= v.len() {
        -1
    } else if v[i].0 == id {
        i
    } else {
        pos_from(v, id, i + 1)
    }
}

pub proof fn lemma_pos_from_bounds(v: Seq<(Id, Item)>, id: Id, i: int)
    requires
        0 <= i,
    ensures
        pos_from(v, id, i) == -1 || (i <= pos_from(v, id, i) < v.len() && v[pos_from(
            v,
            id,
            i,
        )].0 == id),
        pos_from(v, id, i) == -1 ==> forall|j: int| i <= j < v.len() ==> v[j].0 != id,
        pos_from(v, id, i) >= 0 ==> forall|j: int| i <= j < pos_from(v, id, i) ==> v[j].0 != id,
    decreases v.len() - i,
{
    if i < v.len() && v[i].0 != id {
        lemma_pos_from_bounds(v, id, i + 1);
    }
}

/// The entry before the first one, from the second on, that has the given id.
pub open spec fn previous_of(v: Seq<(Id, Item)>, id: Id) -> Option<(Id, Item)> {
    let k = pos_from(v, id, 1);
    if k >= 1 {
        Some(v[k - 1])
    } else {
        None
    }
}

/// The entry after the first one that has the given id.
pub open spec fn next_of(v: Seq<(Id, Item)>, id: Id) -> Option<(Id, Item)> {
    let k = pos_from(v, id, 0);
    if 0 <= k && k + 1 < v.len() {
        Some(v[k + 1])
    } else {
        None
    }
}

/// Pairs each entry with the one after it, through `Itertools::tuple_windows`.
#[verifier::external_body]
fn adjacent_pairs(v: &Vec<(Id, Item)>) -> (r: Vec<((Id, Item), (Id, Item))>)
    ensures
        r@.len() == (if v@.len() == 0 { 0 } else { v@.len() - 1 }),
        forall|i: int| 0 <= i < r@.len() ==> #[trigger] r@[i] == (v@[i], v@[i + 1]),
{
    v.iter().copied().tuple_windows().collect()
}

/// Whether some atom has the given id.
pub open spec fn has_id(s: Seq<Atom>, id: Id) -> bool {
    exists|i: int| 0 <= i < s.len() && #[trigger] s[i].id == id
}

pub proof fn lemma_index_from_found(s: Seq<Atom>, id: Id, i: int)
    requires
        0 <= i,
    ensures
        index_from(s, id, i) >= 0 <==> exists|j: int| i <= j < s.len() && #[trigger] s[j].id == id,
    decreases s.len() - i,
{
    if i < s.len() {
        lemma_index_from_found(s, id, i + 1);
        if s[i].id != id {
            assert forall|j: int| i <= j < s.len() && #[trigger] s[j].id == id implies i + 1 <= j by {}
        }
    }
}

/// The first atom with an id is found from any index before it.
proof fn lemma_index_from_at(s: Seq<Atom>, id: Id, i: int, p: int)
    requires
        0 <= i <= p < s.len(),
        s[p].id == id,
        forall|j: int| i <= j < p ==> #[trigger] s[j].id != id,
    ensures
        index_from(s, id, i) == p,
    decreases p - i,
{
    if i < p {
        lemma_index_from_at(s, id, i + 1, p);
    }
}

/// An atom inserted under an id that no atom had yet is the one that id
/// finds: its item is the item of the id.
pub proof fn lemma_inserted_item_of(s: Seq<Atom>, p: int, a: Atom)
    requires
        0 <= p <= s.len(),
        !has_id(s, a.id),
    ensures
        item_of(s.insert(p, a), a.id) == match a.op {
            AtomOp::Add(item) => Some(item),
            AtomOp::Replace(item) => Some(item),
            AtomOp::Remove => None::<Item>,
        },
{
    let t = s.insert(p, a);
    assert forall|j: int| 0 <= j < p implies #[trigger] t[j].id != a.id by {
        assert(t[j] == s[j]);
    }
    lemma_index_from_at(t, a.id, 0, p);
}

/// The `j`-th atom of a fresh weave built from a list of items by `from_items`.
pub open spec fn chain_atom(site: SiteId, items: Seq<Item>, j: int) -> Atom {
    Atom {
        prev: if j == 0 { Id::null_spec() } else { Id { site, clock: (j - 1) as u32 } },
        op: AtomOp::Add(items[j]),
        id: Id { site, clock: j as u32 },
    }
}

/// The atoms of a fresh weave after the first `k` items were added by `from_items`.
pub open spec fn built(site: SiteId, items: Seq<Item>, k: int) -> Seq<Atom>
    decreases k,
{
    if k <= 0 {
        Seq::empty()
    } else {
        let s = built(site, items, k - 1);
        s.insert(add_slot(s, chain_atom(site, items, k - 1)), chain_atom(site, items, k - 1))
    }
}

/// The chain of atoms that adds the items one after the other.
pub open spec fn chain(site: SiteId, items: Seq<Item>, k: int) -> Seq<Atom> {
    Seq::new(k as nat, |j: int| chain_atom(site, items, j))
}

proof fn lemma_built_contains(site: SiteId, items: Seq<Item>, k: int)
    requires
        0 <= k <= items.len(),
        items.len() <= u32::MAX,
    ensures
        built(site, items, k).len() == k,
        forall|j: int| 0 <= j < k ==> has_id(built(site, items, k), #[trigger] chain_atom(site, items, j).id),
    decreases k,
{
    if k > 0 {
        lemma_built_contains(site, items, k - 1);
        let s = built(site, items, k - 1);
        let a = chain_atom(site, items, k - 1);
        if a.prev != Id::null_spec() {
            assert(has_id(s, chain_atom(site, items, k - 2).id));
            lemma_index_from_found(s, a.prev, 0);
        } else {
        }
        lemma_slot_from_bounds(s, a, 0);
        if a.prev != Id::null_spec() {
            lemma_index_from_bounds(s, a.prev, 0);
            lemma_slot_from_bounds(s, a, index_of(s, a.prev) + 1);
        }
        let p = add_slot(s, a);
        let t = s.insert(p, a);
        assert forall|j: int| 0 <= j < k implies has_id(t, #[trigger] chain_atom(site, items, j).id) by {
            if j == k - 1 {
                assert(t[p].id == a.id);
            } else {
                assert(has_id(s, chain_atom(site, items, j).id));
                let i = choose|i: int| 0 <= i < s.len() && #[trigger] s[i].id == chain_atom(site, items, j).id;
                if i < p {
                    assert(t[i] == s[i]);
                } else {
                    assert(t[i + 1] == s[i]);
                }
            }
        }
    }
}

/// Every atom `from_items` adds can be added.
proof fn lemma_built_can_add(site: SiteId, items: Seq<Item>, k: int)
    requires
        0 <= k < items.len(),
        items.len() <= u32::MAX,
    ensures
        can_add(built(site, items, k), chain_atom(site, items, k)),
        0 <= add_slot(built(site, items, k), chain_atom(site, items, k)) <= k,
{
    lemma_built_contains(site, items, k);
    let s = built(site, items, k);
    let a = chain_atom(site, items, k);
    if a.prev != Id::null_spec() {
        assert(has_id(s, chain_atom(site, items, k - 1).id));
        lemma_index_from_found(s, a.prev, 0);
        lemma_index_from_bounds(s, a.prev, 0);
        lemma_slot_from_bounds(s, a, index_of(s, a.prev) + 1);
    } else {
        lemma_slot_from_bounds(s, a, 0);
    }
}

/// With a site other than 0, the atoms `from_items` builds are the chain.
proof fn lemma_built_is_chain(site: SiteId, items: Seq<Item>, k: int)
    requires
        0 <= k <= items.len(),
        items.len() <= u32::MAX,
        site.0 != 0,
    ensures
        built(site, items, k) == chain(site, items, k),
    decreases k,
{
    if k > 0 {
        lemma_built_is_chain(site, items, k - 1);
        let s = chain(site, items, k - 1);
        let a = chain_atom(site, items, k - 1);
        if k - 1 == 0 {
            assert(add_slot(s, a) == 0);
        } else {
            assert(a.prev != Id::null_spec());
            assert(s[k - 2].id == a.prev);
            assert forall|j: int| 0 <= j < k - 2 implies s[j].id != a.prev by {}
            lemma_index_from_exact(s, a.prev, k - 2);
            assert(index_of(s, a.prev) == k - 2);
            assert(add_slot(s, a) == k - 1);
        }
        assert(s.insert(k - 1, a) =~= chain(site, items, k));
    }
}

proof fn lemma_index_from_exact(s: Seq<Atom>, id: Id, k: int)
    requires
        0 <= k < s.len(),
        s[k].id == id,
        forall|j: int| 0 <= j < k ==> s[j].id != id,
    ensures
        index_of(s, id) == k,
{
    lemma_index_from_walk(s, id, 0, k);
}

proof fn lemma_index_from_walk(s: Seq<Atom>, id: Id, i: int, k: int)
    requires
        0 <= i <= k < s.len(),
        s[k].id == id,
        forall|j: int| i <= j < k ==> s[j].id != id,
    ensures
        index_from(s, id, i) == k,
    decreases k - i,
{
    if i < k {
        lemma_index_from_walk(s, id, i + 1, k);
    }
}

/// Scanning atoms that all add items hands out every item, in order.
proof fn lemma_scan_adds(s: Seq<Atom>, i: int, pending: Option<(Id, Item)>)
    requires
        0 <= i <= s.len(),
        forall|j: int| 0 <= j < s.len() ==> (#[trigger] s[j].op) is Add,
    ensures
        scan(s, i, pending) == (match pending {
            Some(p) => seq![p],
            None => Seq::empty(),
        }) + Seq::new((s.len() - i) as nat, |j: int| (s[i + j].id, s[i + j].op->Add_0)),
    decreases s.len() - i,
{
    if i < s.len() {
        let a = s[i];
        assert(a.op is Add);
        let item = a.op->Add_0;
        lemma_scan_adds(s, i + 1, Some((a.id, item)));
        let rest = Seq::new((s.len() - (i + 1)) as nat, |j: int| (s[i + 1 + j].id, s[i + 1 + j].op->Add_0));
        let all = Seq::new((s.len() - i) as nat, |j: int| (s[i + j].id, s[i + j].op->Add_0));
        assert(all =~= seq![(a.id, item)] + rest);
        match pending {
            Some(p) => {
                assert(scan(s, i, pending) =~= seq![p] + all);
            },
            None => {
                assert(scan(s, i, pending) =~= Seq::<(Id, Item)>::empty() + all);
            },
        }
    } else {
        match pending {
            Some(p) => {
                assert(scan(s, i, pending) =~= seq![p] + Seq::<(Id, Item)>::empty());
            },
            None => {
                assert(scan(s, i, pending) =~= Seq::<(Id, Item)>::empty() + Seq::<(Id, Item)>::empty());
            },
        }
        assert(Seq::new((s.len() - i) as nat, |j: int| (s[i + j].id, s[i + j].op->Add_0)) =~= Seq::<(Id, Item)>::empty());
    }
}

/// A sequence created from a list of items renders exactly those items, each
/// under the id `j:site` of its position `j` (for any site other than 0).
pub proof fn lemma_from_items_renders(site: SiteId, items: Seq<Item>)
    requires
        items.len() <= u32::MAX,
        site.0 != 0,
    ensures
        weave_items(built(site, items, items.len() as int)) == Seq::new(
            items.len(),
            |j: int| (Id { site, clock: j as u32 }, items[j]),
        ),
        weave_items(built(site, items, items.len() as int)).map_values(|e: (Id, Item)| e.1)
            == items,
{
    let n = items.len() as int;
    lemma_built_is_chain(site, items, n);
    let s = chain(site, items, n);
    lemma_scan_adds(s, 0, None);
    assert(weave_items(s) =~= Seq::new(items.len(), |j: int| (Id { site, clock: j as u32 }, items[j])));
    assert(weave_items(s).map_values(|e: (Id, Item)| e.1) =~= items);
}

/// In a rendering whose ids are all different, the entry after `id` has
/// `id` as the entry before it, and the other way round.
pub proof fn lemma_next_previous_inverse(v: Seq<(Id, Item)>, id: Id)
    requires
        forall|i: int, j: int| 0 <= i < j < v.len() ==> v[i].0 != v[j].0,
    ensures
        next_of(v, id) matches Some(b) ==> (previous_of(v, b.0) matches Some(a) && a.0 == id),
        previous_of(v, id) matches Some(a) ==> (next_of(v, a.0) matches Some(b) && b.0 == id),
{
    lemma_pos_from_bounds(v, id, 0);
    lemma_pos_from_bounds(v, id, 1);
    if next_of(v, id) is Some {
        let k = pos_from(v, id, 0);
        let b = v[k + 1];
        lemma_pos_from_bounds(v, b.0, 1);
        lemma_pos_exact(v, b.0, 1, k + 1);
    }
    if previous_of(v, id) is Some {
        let k = pos_from(v, id, 1);
        let a = v[k - 1];
        lemma_pos_from_bounds(v, a.0, 0);
        lemma_pos_exact(v, a.0, 0, k - 1);
    }
}

pub(crate) proof fn lemma_pos_exact(v: Seq<(Id, Item)>, id: Id, i: int, k: int)
    requires
        0 <= i <= k < v.len(),
        v[k].0 == id,
        forall|a: int, b: int| 0 <= a < b < v.len() ==> v[a].0 != v[b].0,
    ensures
        pos_from(v, id, i) == k,
    decreases k - i,
{
    if i < k {
        assert(v[i].0 != v[k].0);
        lemma_pos_exact(v, id, i + 1, k);
    }
}

/// Every atom refers to the start or to an atom that is there.
pub open spec fn closed(s: Seq<Atom>) -> bool {
    forall|i: int| 0 <= i < s.len() ==> can_add(s, #[trigger] s[i])
}

/// Adding an atom that can be added keeps the atoms closed, and whatever
/// could be added before can still be added.
pub proof fn lemma_insert_keeps_closed(s: Seq<Atom>, p: int, a: Atom)
    requires
        0 <= p <= s.len(),
        can_add(s, a),
    ensures
        forall|b: Atom| can_add(s, b) ==> #[trigger] can_add(s.insert(p, a), b),
        closed(s) ==> closed(s.insert(p, a)),
{
    let t = s.insert(p, a);
    assert forall|b: Atom| can_add(s, b) implies #[trigger] can_add(t, b) by {
        if b.prev != Id::null_spec() {
            lemma_index_from_found(s, b.prev, 0);
            let j = choose|j: int| 0 <= j < s.len() && #[trigger] s[j].id == b.prev;
            if j < p {
                assert(t[j] == s[j]);
            } else {
                assert(t[j + 1] == s[j]);
            }
            lemma_index_from_found(t, b.prev, 0);
        }
    }
    if closed(s) {
        assert forall|i: int| 0 <= i < t.len() implies can_add(t, #[trigger] t[i]) by {
            if i < p {
                assert(t[i] == s[i]);
            } else if i > p {
                assert(t[i] == s[i - 1]);
            }
        }
    }
}

proof fn lemma_scan_keeps(t: Seq<Atom>, j: int, e: (Id, Item))
    requires
        0 <= j <= t.len(),
        forall|k: int| j <= k < t.len() ==> (#[trigger] t[k]).prev != e.0,
    ensures
        scan(t, j, Some(e)).contains(e),
    decreases t.len() - j,
{
    if j < t.len() {
        let a = t[j];
        match a.op {
            AtomOp::Add(item) => {
                assert(scan(t, j, Some(e)) == seq![e] + scan(t, j + 1, Some((a.id, item))));
                assert((seq![e] + scan(t, j + 1, Some((a.id, item))))[0] == e);
            },
            _ => {
                lemma_scan_keeps(t, j + 1, e);
            },
        }
    } else {
        assert(scan(t, j, Some(e)) == seq![e]);
        assert(seq![e][0] == e);
    }
}

proof fn lemma_scan_reaches(t: Seq<Atom>, i: int, pending: Option<(Id, Item)>, p: int, e: (Id, Item))
    requires
        0 <= i <= p < t.len(),
        t[p].op == AtomOp::Add(e.1),
        t[p].id == e.0,
        forall|k: int| p < k < t.len() ==> (#[trigger] t[k]).prev != e.0,
    ensures
        scan(t, i, pending).contains(e),
    decreases p - i,
{
    let a = t[i];
    if i == p {
        lemma_scan_keeps(t, p + 1, e);
        let rest = scan(t, p + 1, Some(e));
        let k = choose|k: int| 0 <= k < rest.len() && rest[k] == e;
        match pending {
            Some(q) => {
                assert(scan(t, i, pending) == seq![q] + rest);
                assert((seq![q] + rest)[k + 1] == e);
            },
            None => {
                assert(scan(t, i, pending) == rest);
            },
        }
    } else {
        match a.op {
            AtomOp::Add(item) => {
                lemma_scan_reaches(t, i + 1, Some((a.id, item)), p, e);
                let rest = scan(t, i + 1, Some((a.id, item)));
                let k = choose|k: int| 0 <= k < rest.len() && rest[k] == e;
                match pending {
                    Some(q) => {
                        assert(scan(t, i, pending) == seq![q] + rest);
                        assert((seq![q] + rest)[k + 1] == e);
                    },
                    None => {},
                }
            },
            AtomOp::Replace(item) => {
                lemma_scan_reaches(t, i + 1, Some((a.id, item)), p, e);
                lemma_scan_reaches(t, i + 1, pending, p, e);
            },
            AtomOp::Remove => {
                lemma_scan_reaches(t, i + 1, None, p, e);
                lemma_scan_reaches(t, i + 1, pending, p, e);
            },
        }
    }
}

/// An item added under an id that no atom has yet (and that is not the null
/// id) is rendered, under that id: nothing can refer to it and remove or
/// replace it.
pub proof fn lemma_added_item_renders(s: Seq<Atom>, a: Atom, item: Item)
    requires
        closed(s),
        can_add(s, a),
        a.op == AtomOp::Add(item),
        !has_id(s, a.id),
        a.id != Id::null_spec(),
    ensures
        weave_items(s.insert(add_slot(s, a), a)).contains((a.id, item)),
{
    let p = add_slot(s, a);
    if a.prev == Id::null_spec() {
        lemma_slot_from_bounds(s, a, 0);
    } else {
        lemma_index_from_bounds(s, a.prev, 0);
        lemma_slot_from_bounds(s, a, index_of(s, a.prev) + 1);
    }
    let t = s.insert(p, a);
    assert forall|k: int| p < k < t.len() implies (#[trigger] t[k]).prev != a.id by {
        assert(t[k] == s[k - 1]);
        assert(can_add(s, s[k - 1]));
        if s[k - 1].prev != Id::null_spec() {
            lemma_index_from_bounds(s, s[k - 1].prev, 0);
            let j = index_of(s, s[k - 1].prev);
            assert(s[j].id == s[k - 1].prev);
        }
    }
    lemma_scan_reaches(t, 0, None, p, (a.id, item));
}

proof fn lemma_scan_ids(s: Seq<Atom>, i: int, pending: Option<(Id, Item)>)
    requires
        0 <= i,
        pending matches Some(p) ==> index_of(s, p.0) >= 0,
    ensures
        forall|k: int| 0 <= k < scan(s, i, pending).len() ==> index_of(s, (#[trigger] scan(s, i, pending)[k]).0) >= 0,
    decreases s.len() - i,
{
    if i < s.len() {
        let a = s[i];
        lemma_index_from_found(s, a.id, 0);
        assert(s[i].id == a.id);
        assert(index_of(s, a.id) >= 0);
        match a.op {
            AtomOp::Add(item) => {
                lemma_scan_ids(s, i + 1, Some((a.id, item)));
                match pending {
                    Some(q) => {
                        let rest = scan(s, i + 1, Some((a.id, item)));
                        assert forall|k: int| 0 <= k < scan(s, i, pending).len() implies index_of(s, (#[trigger] scan(s, i, pending)[k]).0) >= 0 by {
                            if k > 0 {
                                assert(scan(s, i, pending)[k] == rest[k - 1]);
                            }
                        }
                    },
                    None => {
                        assert(scan(s, i, pending) == scan(s, i + 1, Some((a.id, item))));
                    },
                }
            },
            AtomOp::Replace(item) => {
                lemma_scan_ids(s, i + 1, Some((a.id, item)));
                lemma_scan_ids(s, i + 1, pending);
                if pending matches Some(q) && q.0 == a.prev {
                    assert(scan(s, i, pending) == scan(s, i + 1, Some((a.id, item))));
                } else {
                    assert(scan(s, i, pending) == scan(s, i + 1, pending));
                }
            },
            AtomOp::Remove => {
                lemma_scan_ids(s, i + 1, None);
                lemma_scan_ids(s, i + 1, pending);
                if pending matches Some(q) && q.0 == a.prev {
                    assert(scan(s, i, pending) == scan(s, i + 1, None));
                } else {
                    assert(scan(s, i, pending) == scan(s, i + 1, pending));
                }
            },
        }
    } else {
        match pending {
            Some(q) => {
                assert(scan(s, i, pending) == seq![q]);
                assert(seq![q][0] == q);
            },
            None => {},
        }
    }
}

/// The item an atom sets: that of an add or a replacement, none for a
/// removal.
pub open spec fn atom_item(a: Atom) -> Option<Item> {
    match a.op {
        AtomOp::Add(item) => Some(item),
        AtomOp::Replace(item) => Some(item),
        AtomOp::Remove => None,
    }
}

/// The entry was set by an atom at `lo` or later.
pub open spec fn entry_from(s: Seq<Atom>, e: (Id, Item), lo: int) -> bool {
    exists|k: int| lo <= k < s.len() && #[trigger] s[k].id == e.0 && atom_item(s[k]) == Some(e.1)
}

/// The number of atoms from `i` on that add an item.
pub open spec fn adds_from(s: Seq<Atom>, i: int) -> nat
    decreases s.len() - i,
{
    if i < 0 || i >= s.len() {
        0
    } else {
        adds_from(s, i + 1) + (if s[i].op is Add { 1nat } else { 0nat })
    }
}

/// No two atoms have the same id.
pub open spec fn ids_distinct(s: Seq<Atom>) -> bool {
    forall|a: int, b: int| 0 <= a < b < s.len() ==> #[trigger] s[a].id != #[trigger] s[b].id
}

proof fn lemma_scan_entries(s: Seq<Atom>, i: int, pending: Option<(Id, Item)>)
    requires
        0 <= i <= s.len(),
        ids_distinct(s),
        pending matches Some(p) ==> exists|k: int| 0 <= k < i && #[trigger] s[k].id == p.0 && atom_item(s[k]) == Some(p.1),
    ensures
        forall|x: int| 0 <= x < scan(s, i, pending).len() ==> entry_from(s, #[trigger] scan(s, i, pending)[x], i)
            || pending == Some(scan(s, i, pending)[x]),
        forall|x: int, y: int| 0 <= x < y < scan(s, i, pending).len() ==> (#[trigger] scan(s, i, pending)[x]).0
            != (#[trigger] scan(s, i, pending)[y]).0,
        scan(s, i, pending).len() <= adds_from(s, i) + (if pending is Some { 1nat } else { 0nat }),
    decreases s.len() - i,
{
    let r = scan(s, i, pending);
    if i < s.len() {
        let a = s[i];
        let np = match a.op {
            AtomOp::Add(item) => Some((a.id, item)),
            AtomOp::Replace(item) => Some((a.id, item)),
            AtomOp::Remove => None,
        };
        assert(np matches Some(p) ==> s[i].id == p.0 && atom_item(s[i]) == Some(p.1));
        let takes = match a.op {
            AtomOp::Add(_) => true,
            _ => pending matches Some(q) && q.0 == a.prev,
        };
        let next = if takes { np } else { pending };
        lemma_scan_entries(s, i + 1, next);
        let rest = scan(s, i + 1, next);
        // every entry of the rest was set by an atom at `i` or later
        assert forall|x: int| 0 <= x < rest.len() implies entry_from(s, #[trigger] rest[x], i) || pending == Some(rest[x]) by {
            if !entry_from(s, rest[x], i + 1) {
                if takes {
                    assert(s[i].id == rest[x].0);
                } else {
                    assert(pending == Some(rest[x]));
                }
            } else {
                let k = choose|k: int| i + 1 <= k < s.len() && #[trigger] s[k].id == rest[x].0 && atom_item(s[k]) == Some(rest[x].1);
                assert(s[k].id == rest[x].0);
            }
        }
        match a.op {
            AtomOp::Add(item) => {
                match pending {
                    Some(q) => {
                        assert(r == seq![q] + rest);
                        let k0 = choose|k: int| 0 <= k < i && #[trigger] s[k].id == q.0 && atom_item(s[k]) == Some(q.1);
                        assert forall|x: int| 0 <= x < r.len() implies entry_from(s, #[trigger] r[x], i) || pending == Some(r[x]) by {
                            if x > 0 {
                                assert(r[x] == rest[x - 1]);
                            }
                        }
                        assert forall|x: int, y: int| 0 <= x < y < r.len() implies (#[trigger] r[x]).0 != (#[trigger] r[y]).0 by {
                            if x > 0 {
                                assert(r[x] == rest[x - 1] && r[y] == rest[y - 1]);
                            } else {
                                assert(r[y] == rest[y - 1]);
                                if entry_from(s, rest[y - 1], i) {
                                    let k = choose|k: int| i <= k < s.len() && #[trigger] s[k].id == rest[y - 1].0 && atom_item(s[k]) == Some(rest[y - 1].1);
                                    assert(s[k0].id != s[k].id);
                                }
                            }
                        }
                    },
                    None => {
                        assert(r == rest);
                    },
                }
            },
            _ => {
                assert(r == rest);
            },
        }
    } else {
        match pending {
            Some(q) => {
                assert(r == seq![q]);
            },
            None => {
                assert(r.len() == 0);
            },
        }
    }
}

/// In a weave whose atoms have distinct ids, the rendered entries have
/// distinct ids; each is the item of the add or replacement that has its
/// id, so that looking the id up gives the item; and there are no more
/// entries than atoms that add an item.
pub proof fn lemma_rendered_entries(s: Seq<Atom>)
    requires
        ids_distinct(s),
    ensures
        forall|x: int, y: int| 0 <= x < y < weave_items(s).len() ==> (#[trigger] weave_items(s)[x]).0
            != (#[trigger] weave_items(s)[y]).0,
        forall|x: int| 0 <= x < weave_items(s).len() ==> item_of(s, (#[trigger] weave_items(s)[x]).0)
            == Some(weave_items(s)[x].1),
        weave_items(s).len() <= adds_from(s, 0),
{
    lemma_scan_entries(s, 0, None);
    let r = weave_items(s);
    assert forall|x: int| 0 <= x < r.len() implies item_of(s, (#[trigger] r[x]).0) == Some(r[x].1) by {
        assert(entry_from(s, r[x], 0));
        let k = choose|k: int| 0 <= k < s.len() && #[trigger] s[k].id == r[x].0 && atom_item(s[k]) == Some(r[x].1);
        assert forall|j: int| 0 <= j < k implies #[trigger] s[j].id != r[x].0 by {
            assert(s[j].id != s[k].id);
        }
        lemma_index_from_at(s, r[x].0, 0, k);
    }
}

/// Every rendered entry carries the id of an atom that is there.
pub proof fn lemma_items_have_atoms(s: Seq<Atom>)
    ensures
        forall|k: int| 0 <= k < weave_items(s).len() ==> index_of(s, (#[trigger] weave_items(s)[k]).0) >= 0,
{
    lemma_scan_ids(s, 0, None);
}

/// An atom that is there stays there when another is inserted.
pub proof fn lemma_insert_keeps_ids(s: Seq<Atom>, p: int, a: Atom, id: Id)
    requires
        0 <= p <= s.len(),
        index_of(s, id) >= 0,
    ensures
        index_of(s.insert(p, a), id) >= 0,
{
    lemma_index_from_found(s, id, 0);
    lemma_index_from_found(s.insert(p, a), id, 0);
    let j = choose|j: int| 0 <= j < s.len() && #[trigger] s[j].id == id;
    if j < p {
        assert(s.insert(p, a)[j] == s[j]);
    } else {
        assert(s.insert(p, a)[j + 1] == s[j]);
    }
}

/// The item left pending after the scan passes `a` with `p` pending.
pub open spec fn step_pending(a: Atom, p: Option<(Id, Item)>) -> Option<(Id, Item)> {
    match a.op {
        AtomOp::Add(item) => Some((a.id, item)),
        AtomOp::Replace(item) => match p {
            Some(q) => if q.0 == a.prev { Some((a.id, item)) } else { p },
            None => p,
        },
        AtomOp::Remove => match p {
            Some(q) => if q.0 == a.prev { None } else { p },
            None => p,
        },
    }
}

/// What the scan hands out when it passes `a` with `p` pending.
pub open spec fn step_out(a: Atom, p: Option<(Id, Item)>) -> Seq<(Id, Item)> {
    match (a.op, p) {
        (AtomOp::Add(_), Some(q)) => seq![q],
        _ => seq![],
    }
}

/// The item pending after the scan passed the atoms from `i` up to `m`.
pub open spec fn run_pending(s: Seq<Atom>, i: int, m: int, p: Option<(Id, Item)>) -> Option<(Id, Item)>
    decreases m - i,
{
    if i >= m {
        p
    } else {
        run_pending(s, i + 1, m, step_pending(s[i], p))
    }
}

/// What the scan handed out while it passed the atoms from `i` up to `m`.
pub open spec fn run_out(s: Seq<Atom>, i: int, m: int, p: Option<(Id, Item)>) -> Seq<(Id, Item)>
    decreases m - i,
{
    if i >= m {
        seq![]
    } else {
        step_out(s[i], p) + run_out(s, i + 1, m, step_pending(s[i], p))
    }
}

/// No atom from `j` up to the next addition replaces or removes the item
/// with the given id.
pub open spec fn untouched(s: Seq<Atom>, j: int, id: Id) -> bool
    decreases s.len() - j,
{
    if j < 0 || j >= s.len() {
        true
    } else if s[j].op is Add {
        true
    } else {
        s[j].prev != id && untouched(s, j + 1, id)
    }
}

proof fn lemma_scan_step(s: Seq<Atom>, i: int, p: Option<(Id, Item)>)
    requires
        0 <= i < s.len(),
    ensures
        scan(s, i, p) == step_out(s[i], p) + scan(s, i + 1, step_pending(s[i], p)),
{
    let rest = scan(s, i + 1, step_pending(s[i], p));
    assert(seq![] + rest =~= rest);
}

proof fn lemma_scan_split(s: Seq<Atom>, i: int, m: int, p: Option<(Id, Item)>)
    requires
        0 <= i <= m <= s.len(),
    ensures
        scan(s, i, p) == run_out(s, i, m, p) + scan(s, m, run_pending(s, i, m, p)),
    decreases m - i,
{
    if i == m {
        assert(seq![] + scan(s, m, p) =~= scan(s, m, p));
    } else {
        lemma_scan_step(s, i, p);
        let q = step_pending(s[i], p);
        lemma_scan_split(s, i + 1, m, q);
        let o = step_out(s[i], p);
        let r = run_out(s, i + 1, m, q);
        let t = scan(s, m, run_pending(s, i + 1, m, q));
        assert(o + (r + t) =~= (o + r) + t);
    }
}

proof fn lemma_run_same(s1: Seq<Atom>, s2: Seq<Atom>, i: int, m: int, p: Option<(Id, Item)>)
    requires
        0 <= i <= m,
        m <= s1.len(),
        m <= s2.len(),
        forall|j: int| i <= j < m ==> s1[j] == s2[j],
    ensures
        run_out(s1, i, m, p) == run_out(s2, i, m, p),
        run_pending(s1, i, m, p) == run_pending(s2, i, m, p),
    decreases m - i,
{
    if i < m {
        assert(s1[i] == s2[i]);
        lemma_run_same(s1, s2, i + 1, m, step_pending(s1[i], p));
    }
}

proof fn lemma_scan_shift(s: Seq<Atom>, s2: Seq<Atom>, i: int, p: Option<(Id, Item)>)
    requires
        0 <= i <= s.len(),
        s2.len() == s.len() + 1,
        forall|j: int| i <= j < s.len() ==> s2[j + 1] == s[j],
    ensures
        scan(s2, i + 1, p) == scan(s, i, p),
    decreases s.len() - i,
{
    if i < s.len() {
        assert(s2[i + 1] == s[i]);
        lemma_scan_step(s, i, p);
        lemma_scan_step(s2, i + 1, p);
        lemma_scan_shift(s, s2, i + 1, step_pending(s[i], p));
    }
}

proof fn lemma_scan_swap(s: Seq<Atom>, j: int, e: (Id, Item), f: (Id, Item))
    requires
        0 <= j <= s.len(),
        untouched(s, j, e.0),
        untouched(s, j, f.0),
    ensures
        scan(s, j, Some(e)).len() > 0,
        scan(s, j, Some(e))[0] == e,
        scan(s, j, Some(f)) == scan(s, j, Some(e)).update(0, f),
    decreases s.len() - j,
{
    if j == s.len() {
        assert(seq![f] =~= seq![e].update(0, f));
    } else {
        let a = s[j];
        lemma_scan_step(s, j, Some(e));
        lemma_scan_step(s, j, Some(f));
        match a.op {
            AtomOp::Add(item) => {
                let rest = scan(s, j + 1, Some((a.id, item)));
                assert(seq![f] + rest =~= (seq![e] + rest).update(0, f));
            },
            _ => {
                assert(seq![] + scan(s, j + 1, Some(e)) =~= scan(s, j + 1, Some(e)));
                assert(seq![] + scan(s, j + 1, Some(f)) =~= scan(s, j + 1, Some(f)));
                lemma_scan_swap(s, j + 1, e, f);
            },
        }
    }
}

proof fn lemma_run_sources(s: Seq<Atom>, i: int, m: int, p: Option<(Id, Item)>)
    requires
        0 <= i <= m <= s.len(),
        p matches Some(q) ==> exists|j: int| 0 <= j < i && #[trigger] s[j].id == q.0 && atom_item(s[j]) == Some(q.1),
    ensures
        run_pending(s, i, m, p) matches Some(q) ==> exists|j: int| 0 <= j < m && #[trigger] s[j].id == q.0
            && atom_item(s[j]) == Some(q.1),
        forall|x: int| 0 <= x < run_out(s, i, m, p).len() ==> exists|j: int| 0 <= j < m - 1
            && #[trigger] s[j].id == (#[trigger] run_out(s, i, m, p)[x]).0,
    decreases m - i,
{
    if i < m {
        let a = s[i];
        let q = step_pending(a, p);
        assert(q matches Some(r) ==> exists|j: int| 0 <= j < i + 1 && #[trigger] s[j].id == r.0 && atom_item(s[j]) == Some(r.1)) by {
            match q {
                Some(r) => {
                    if q != p {
                        assert(s[i].id == r.0 && atom_item(s[i]) == Some(r.1));
                    }
                },
                None => {},
            }
        }
        lemma_run_sources(s, i + 1, m, q);
        let o = step_out(a, p);
        let rest = run_out(s, i + 1, m, q);
        assert(run_out(s, i, m, p) == o + rest);
        assert forall|x: int| 0 <= x < run_out(s, i, m, p).len() implies exists|j: int| 0 <= j < m - 1
            && #[trigger] s[j].id == (#[trigger] run_out(s, i, m, p)[x]).0 by {
            if x < o.len() {
                let r = p->0;
                assert(run_out(s, i, m, p)[x] == r);
                let j = choose|j: int| 0 <= j < i && #[trigger] s[j].id == r.0 && atom_item(s[j]) == Some(r.1);
                assert(s[j].id == run_out(s, i, m, p)[x].0);
            } else {
                assert(run_out(s, i, m, p)[x] == rest[x - o.len()]);
            }
        }
    }
}

proof fn lemma_touched_gone(s: Seq<Atom>, j: int, e: (Id, Item))
    requires
        0 <= j <= s.len(),
        ids_distinct(s),
        exists|k: int| 0 <= k < j && #[trigger] s[k].id == e.0 && atom_item(s[k]) == Some(e.1),
        !untouched(s, j, e.0),
    ensures
        forall|x: int| 0 <= x < scan(s, j, Some(e)).len() ==> (#[trigger] scan(s, j, Some(e))[x]).0 != e.0,
    decreases s.len() - j,
{
    let k0 = choose|k: int| 0 <= k < j && #[trigger] s[k].id == e.0 && atom_item(s[k]) == Some(e.1);
    let a = s[j];
    lemma_scan_step(s, j, Some(e));
    let q = step_pending(a, Some(e));
    assert(seq![] + scan(s, j + 1, q) =~= scan(s, j + 1, q));
    if a.prev == e.0 {
        assert(q matches Some(r) ==> exists|k: int| 0 <= k < j + 1 && #[trigger] s[k].id == r.0 && atom_item(s[k]) == Some(r.1)) by {
            match q {
                Some(r) => {
                    assert(s[j].id == r.0 && atom_item(s[j]) == Some(r.1));
                },
                None => {},
            }
        }
        lemma_scan_entries(s, j + 1, q);
        let rest = scan(s, j + 1, q);
        assert forall|x: int| 0 <= x < rest.len() implies (#[trigger] rest[x]).0 != e.0 by {
            if entry_from(s, rest[x], j + 1) {
                let k = choose|k: int| j + 1 <= k < s.len() && #[trigger] s[k].id == rest[x].0 && atom_item(s[k]) == Some(rest[x].1);
                assert(s[k0].id != s[k].id);
            } else {
                assert(s[k0].id != s[j].id);
            }
        }
    } else {
        lemma_touched_gone(s, j + 1, e);
    }
}

/// In a weave whose atoms have distinct ids, a rendered item is pending
/// just after its own atom and no atom up to the next addition replaces or
/// removes it.
proof fn lemma_rendered_pending(s: Seq<Atom>, t: Id)
    requires
        ids_distinct(s),
        exists|x: int| 0 <= x < weave_items(s).len() && (#[trigger] weave_items(s)[x]).0 == t,
    ensures
        index_of(s, t) >= 0,
        run_pending(s, 0, index_of(s, t) + 1, None) matches Some(e) && e.0 == t,
        untouched(s, index_of(s, t) + 1, t),
{
    lemma_items_have_atoms(s);
    let x0 = choose|x: int| 0 <= x < weave_items(s).len() && (#[trigger] weave_items(s)[x]).0 == t;
    assert(index_of(s, weave_items(s)[x0].0) >= 0);
    let k = index_of(s, t);
    lemma_index_from_bounds(s, t, 0);
    lemma_scan_split(s, 0, k + 1, None);
    lemma_run_sources(s, 0, k + 1, None);
    let o = run_out(s, 0, k + 1, None);
    let pp = run_pending(s, 0, k + 1, None);
    let rest = scan(s, k + 1, pp);
    let w = weave_items(s);
    assert(w == o + rest);
    if x0 < o.len() {
        assert(w[x0] == o[x0]);
        let j = choose|j: int| 0 <= j < k && #[trigger] s[j].id == o[x0].0;
        assert(s[j].id != s[k].id);
    } else {
        assert(w[x0] == rest[x0 - o.len()]);
        lemma_scan_entries(s, k + 1, pp);
        if entry_from(s, rest[x0 - o.len()], k + 1) {
            let j = choose|j: int| k + 1 <= j < s.len() && #[trigger] s[j].id == rest[x0 - o.len()].0
                && atom_item(s[j]) == Some(rest[x0 - o.len()].1);
            assert(s[j].id != s[k].id);
        }
        let e = pp->0;
        assert(e.0 == t);
        if !untouched(s, k + 1, t) {
            lemma_touched_gone(s, k + 1, e);
            assert(rest[x0 - o.len()].0 != e.0);
        }
    }
}

/// No atom of a closed weave refers to an id that no atom has.
proof fn lemma_fresh_untouched(s: Seq<Atom>, j: int, id: Id)
    requires
        0 <= j,
        closed(s),
        !has_id(s, id),
        id != Id::null_spec(),
    ensures
        untouched(s, j, id),
    decreases s.len() - j,
{
    if j < s.len() {
        assert(can_add(s, s[j]));
        if s[j].prev != Id::null_spec() {
            lemma_index_from_bounds(s, s[j].prev, 0);
            let k = index_of(s, s[j].prev);
            assert(s[k].id == s[j].prev);
        }
        lemma_fresh_untouched(s, j + 1, id);
    }
}

/// Where a replacement of the item with id `a.prev` is placed right after
/// the atom of that item, that item is pending just after its atom, and no
/// atom up to the next addition touches either the item or the
/// replacement, the replacement takes the item's place among the rendered
/// items and nothing else changes.
proof fn lemma_replace_in_place(s: Seq<Atom>, a: Atom, y: Item)
    requires
        index_of(s, a.prev) >= 0,
        a.op == AtomOp::Replace(y),
        run_pending(s, 0, index_of(s, a.prev) + 1, None) matches Some(e) && e.0 == a.prev,
        untouched(s, index_of(s, a.prev) + 1, a.prev),
        untouched(s, index_of(s, a.prev) + 1, a.id),
    ensures
        ({
            let n = run_out(s, 0, index_of(s, a.prev) + 1, None).len() as int;
            &&& 0 <= n < weave_items(s).len()
            &&& weave_items(s)[n].0 == a.prev
            &&& weave_items(s.insert(index_of(s, a.prev) + 1, a)) == weave_items(s).update(n, (a.id, y))
        }),
{
    let k = index_of(s, a.prev);
    lemma_index_from_bounds(s, a.prev, 0);
    let s2 = s.insert(k + 1, a);
    let e = run_pending(s, 0, k + 1, None)->0;
    let f = (a.id, y);
    lemma_scan_split(s, 0, k + 1, None);
    lemma_scan_split(s2, 0, k + 1, None);
    lemma_run_same(s, s2, 0, k + 1, None);
    let o = run_out(s, 0, k + 1, None);
    lemma_scan_step(s2, k + 1, Some(e));
    assert(s2[k + 1] == a);
    assert(seq![] + scan(s2, k + 2, Some(f)) =~= scan(s2, k + 2, Some(f)));
    lemma_scan_shift(s, s2, k + 1, Some(f));
    lemma_scan_swap(s, k + 1, e, f);
    let x = scan(s, k + 1, Some(e));
    assert(o + x.update(0, f) =~= (o + x).update(o.len() as int, f));
    assert((o + x)[o.len() as int] == x[0]);
}

/// In a weave whose atoms have distinct ids (and refer to atoms that are
/// there), a replacement of a rendered item, by an atom with a new id, is
/// placed right after the item's atom and puts the new item in the old
/// one's place: the rendered entries are the same but that one.  (The
/// null id is left out on both sides: it also marks the start.)
pub proof fn lemma_replace_rendered(s: Seq<Atom>, a: Atom, y: Item)
    requires
        ids_distinct(s),
        closed(s),
        a.op == AtomOp::Replace(y),
        exists|x: int| 0 <= x < weave_items(s).len() && (#[trigger] weave_items(s)[x]).0 == a.prev,
        !has_id(s, a.id),
        a.id != Id::null_spec(),
        a.prev != Id::null_spec(),
    ensures
        add_slot(s, a) == index_of(s, a.prev) + 1,
        0 <= pos_from(weave_items(s), a.prev, 0) < weave_items(s).len(),
        weave_items(s.insert(add_slot(s, a), a)) == weave_items(s).update(
            pos_from(weave_items(s), a.prev, 0),
            (a.id, y),
        ),
{
    lemma_rendered_pending(s, a.prev);
    let k = index_of(s, a.prev);
    lemma_index_from_bounds(s, a.prev, 0);
    if k + 1 < s.len() && s[k + 1].prev == a.prev {
        assert(s[k + 1].op is Add);
        assert(op_less(a.op, s[k + 1].op));
        assert(atom_less(a, s[k + 1]));
    }
    assert(slot_from(s, a, k + 1) == k + 1);
    lemma_fresh_untouched(s, k + 1, a.id);
    lemma_replace_in_place(s, a, y);
    lemma_rendered_at(s, a.prev, run_out(s, 0, k + 1, None).len() as int);
}

/// Inserting an atom with an id no atom has keeps the ids distinct.
pub proof fn lemma_insert_keeps_distinct(s: Seq<Atom>, p: int, a: Atom)
    requires
        ids_distinct(s),
        !has_id(s, a.id),
        0 <= p <= s.len(),
    ensures
        ids_distinct(s.insert(p, a)),
{
    let t = s.insert(p, a);
    assert forall|x: int, y: int| 0 <= x < y < t.len() implies #[trigger] t[x].id != #[trigger] t[y].id by {
        if x == p {
            assert(t[y] == s[y - 1]);
        } else if y == p {
            assert(t[x] == s[x]);
        } else {
            let sx = if x < p { x } else { x - 1 };
            let sy = if y < p { y } else { y - 1 };
            assert(t[x] == s[sx] && t[y] == s[sy]);
        }
    }
}

/// No atom of a closed weave refers to an id that no atom has (but the
/// null id).
pub proof fn lemma_no_refs(s: Seq<Atom>, id: Id)
    requires
        closed(s),
        !has_id(s, id),
        id != Id::null_spec(),
    ensures
        forall|i: int| 0 <= i < s.len() ==> (#[trigger] s[i]).prev != id,
{
    assert forall|i: int| 0 <= i < s.len() implies (#[trigger] s[i]).prev != id by {
        assert(can_add(s, s[i]));
        if s[i].prev != Id::null_spec() {
            lemma_index_from_bounds(s, s[i].prev, 0);
            let k = index_of(s, s[i].prev);
            assert(s[k].id == s[i].prev);
        }
    }
}

/// In a weave whose atoms have distinct ids, the entry rendered at `n` is
/// the first one with its id.
pub proof fn lemma_rendered_at(s: Seq<Atom>, t: Id, n: int)
    requires
        ids_distinct(s),
        0 <= n < weave_items(s).len(),
        weave_items(s)[n].0 == t,
    ensures
        pos_from(weave_items(s), t, 0) == n,
{
    let w = weave_items(s);
    lemma_rendered_entries(s);
    lemma_pos_from_bounds(w, t, 0);
    let p = pos_from(w, t, 0);
    if p != n {
        if p == -1 {
            assert(w[n].0 == t);
        } else if p < n {
            assert(w[p].0 != w[n].0);
        } else {
            assert(w[n].0 != t);
        }
    }
}

/// In a weave whose atoms have distinct ids (and refer to atoms that are
/// there), an item added, by an atom with a new id, after a rendered item
/// that no atom refers to yet is placed right after that item's atom and
/// is rendered right after it; the other entries stay as they were.  (The
/// null id is left out on both sides: it also marks the start.)
pub proof fn lemma_add_after_fresh(s: Seq<Atom>, a: Atom, y: Item)
    requires
        ids_distinct(s),
        closed(s),
        a.op == AtomOp::Add(y),
        exists|x: int| 0 <= x < weave_items(s).len() && (#[trigger] weave_items(s)[x]).0 == a.prev,
        forall|i: int| 0 <= i < s.len() ==> (#[trigger] s[i]).prev != a.prev,
        !has_id(s, a.id),
        a.id != Id::null_spec(),
        a.prev != Id::null_spec(),
    ensures
        add_slot(s, a) == index_of(s, a.prev) + 1,
        0 <= pos_from(weave_items(s), a.prev, 0) < weave_items(s).len(),
        weave_items(s.insert(add_slot(s, a), a)) == weave_items(s).insert(
            pos_from(weave_items(s), a.prev, 0) + 1,
            (a.id, y),
        ),
{
    lemma_rendered_pending(s, a.prev);
    let k = index_of(s, a.prev);
    lemma_index_from_bounds(s, a.prev, 0);
    if k + 1 < s.len() {
        assert(s[k + 1].prev != a.prev);
    }
    assert(slot_from(s, a, k + 1) == k + 1);
    lemma_fresh_untouched(s, k + 1, a.id);
    let s2 = s.insert(k + 1, a);
    let e = run_pending(s, 0, k + 1, None)->0;
    let f = (a.id, y);
    lemma_scan_split(s, 0, k + 1, None);
    lemma_scan_split(s2, 0, k + 1, None);
    lemma_run_same(s, s2, 0, k + 1, None);
    let o = run_out(s, 0, k + 1, None);
    lemma_scan_step(s2, k + 1, Some(e));
    assert(s2[k + 1] == a);
    lemma_scan_shift(s, s2, k + 1, Some(f));
    lemma_scan_swap(s, k + 1, e, f);
    let x = scan(s, k + 1, Some(e));
    let w = weave_items(s);
    assert(w == o + x);
    assert(weave_items(s2) == o + (seq![e] + x.update(0, f)));
    assert(o + (seq![e] + x.update(0, f)) =~= (o + x).insert(o.len() as int + 1, f));
    assert(w[o.len() as int] == e);
    lemma_rendered_at(s, a.prev, o.len() as int);
}

/// The atoms of one sequence, the type of the sequence and a logical clock.
#[derive(Debug, Clone)]
pub struct Weave {
    typ: TypeId,
    atoms: Vec<Atom>,
    clock: Clock<u32>,
}

impl Weave {
    /// The atoms in their order.
    pub closed spec fn atom_seq(&self) -> Seq<Atom> {
        self.atoms@
    }

    /// The time the weave's clock hands out next.
    pub closed spec fn now(&self) -> int {
        self.clock.now()
    }

    pub closed spec fn type_of(&self) -> TypeId {
        self.typ
    }

    /// The rendered items of the weave.
    pub open spec fn item_seq(&self) -> Seq<(Id, Item)> {
        weave_items(self.atom_seq())
    }

    pub proof fn lemma_now_range(&self)
        ensures
            0 <= self.now() <= u32::MAX,
    {
        self.clock.lemma_range();
    }

    pub fn new(typ: TypeId) -> (r: Weave)
        ensures
            r.type_of() == typ,
            r.atom_seq() == Seq::<Atom>::empty(),
            r.now() == 0,
            closed(r.atom_seq()),
    {
        Weave { typ, atoms: Vec::new(), clock: Clock::new() }
    }

    pub fn typ(&self) -> (r: TypeId)
        ensures
            r == self.type_of(),
    {
        self.typ
    }

    /// A weave that adds the given items one after the other, each atom
    /// stamped with `site` and referring to the atom before it.
    pub fn from_items(site: SiteId, typ: TypeId, items: Vec<Item>) -> (r: Weave)
        requires
            items@.len() < u32::MAX,
        ensures
            r.type_of() == typ,
            r.now() == items@.len(),
            r.atom_seq() == built(site, items@, items@.len() as int),
            closed(r.atom_seq()),
            site.0 != 0 ==> r.item_seq().map_values(|e: (Id, Item)| e.1) == items@,
    {
        let mut prev = Id::null();
        let mut weave = Weave::new(typ);
        let n = items.len();
        let mut k: usize = 0;
        while k < n
            invariant
                n == items@.len(),
                n < u32::MAX,
                0 <= k <= n,
                weave.type_of() == typ,
                weave.now() == k,
                weave.atom_seq() == built(site, items@, k as int),
                closed(weave.atom_seq()),
                prev == (if k == 0 { Id::null_spec() } else { Id { site, clock: (k - 1) as u32 } }),
            decreases n - k,
        {
            let atom = weave.create(site, prev, AtomOp::Add(items[k]));
            assert(atom == chain_atom(site, items@, k as int));
            proof {
                lemma_built_can_add(site, items@, k as int);
            }
            prev = atom.id;
            weave.add(atom);
            k = k + 1;
        }
        proof {
            if site.0 != 0 {
                lemma_from_items_renders(site, items@);
            }
        }
        weave
    }

    /// Creates the atom that applies `op` to `prev`, stamped with the current
    /// time of the weave and `site`; the weave itself only moves its clock on.
    pub fn create(&mut self, site: SiteId, prev: Id, op: AtomOp) -> (a: Atom)
        requires
            old(self).now() < u32::MAX,
        ensures
            a == (Atom { prev, op, id: Id { site, clock: old(self).now() as u32 } }),
            final(self).now() == old(self).now() + 1,
            final(self).atom_seq() == old(self).atom_seq(),
            final(self).type_of() == old(self).type_of(),
    {
        let clock = self.clock.next();
        Atom { prev, id: Id { site, clock }, op }
    }

    /// The index of the first atom with the given id.
    fn position(&self, id: Id) -> (r: Option<usize>)
        ensures
            match r {
                Some(k) => k == index_of(self.atoms@, id) && k < self.atoms@.len()
                    && self.atoms@[k as int].id == id,
                None => index_of(self.atoms@, id) == -1,
            },
    {
        let len = self.atoms.len();
        let mut i: usize = 0;
        while i < len
            invariant
                len == self.atoms@.len(),
                0 <= i <= len,
                index_from(self.atoms@, id, i as int) == index_of(self.atoms@, id),
            decreases len - i,
        {
            if self.atoms[i].id == id {
                return Some(i);
            }
            i = i + 1;
        }
        None
    }

    /// Whether the atom can be added (see `can_add`).
    pub fn can_take(&self, atom: Atom) -> (r: bool)
        ensures
            r == can_add(self.atom_seq(), atom),
    {
        atom.prev.is_null() || self.position(atom.prev).is_some()
    }

    /// Adds an atom at the place the causal order of the weave gives it
    /// (see `add_slot`), and makes the clock catch up with the atom's time.
    pub fn add(&mut self, atom: Atom)
        requires
            can_add(old(self).atom_seq(), atom),
        ensures
            0 <= add_slot(old(self).atom_seq(), atom) <= old(self).atom_seq().len(),
            final(self).atom_seq() == old(self).atom_seq().insert(
                add_slot(old(self).atom_seq(), atom),
                atom,
            ),
            atom.prev != Id::null_spec() ==> index_of(old(self).atom_seq(), atom.prev) < add_slot(
                old(self).atom_seq(),
                atom,
            ),
            final(self).now() == (if old(self).now() > atom.id.clock {
                old(self).now()
            } else {
                atom.id.clock as int
            }),
            final(self).type_of() == old(self).type_of(),
            forall|b: Atom| can_add(old(self).atom_seq(), b) ==> #[trigger] can_add(final(self).atom_seq(), b),
            closed(old(self).atom_seq()) ==> closed(final(self).atom_seq()),
    {
        let ghost s = self.atoms@;
        let len = self.atoms.len();
        let mut idx: usize = if atom.prev.is_null() {
            0
        } else {
            match self.position(atom.prev) {
                Some(k) => {
                    proof {
                        lemma_index_from_bounds(s, atom.prev, 0);
                    }
                    k + 1
                },
                None => {
                    proof {
                        assert(false);
                    }
                    0
                },
            }
        };
        assert(slot_from(s, atom, idx as int) == add_slot(s, atom));
        loop
            invariant
                s == self.atoms@,
                len == s.len(),
                0 <= idx <= len,
                slot_from(s, atom, idx as int) == add_slot(s, atom),
            ensures
                idx == add_slot(s, atom),
            decreases len - idx,
        {
            if idx >= len {
                break;
            }
            let other = self.atoms[idx];
            if atom.prev != other.prev || atom_is_less(atom, other) {
                break;
            }
            let ghost start = idx as int + 1;
            let mut prev_id = other.id;
            idx = idx + 1;
            loop
                invariant
                    s == self.atoms@,
                    len == s.len(),
                    start <= idx <= len,
                    chain_end(s, prev_id, idx as int) == chain_end(s, other.id, start),
                ensures
                    start <= idx <= len,
                    idx == chain_end(s, other.id, start),
                decreases len - idx,
            {
                if idx >= len {
                    break;
                }
                let o = self.atoms[idx];
                if o.prev == prev_id {
                    prev_id = o.id;
                    idx = idx + 1;
                } else {
                    break;
                }
            }
            assert(idx == chain_end(s, other.id, start));
        }
        proof {
            lemma_slot_from_bounds(s, atom, 0);
            if atom.prev != Id::null_spec() {
                lemma_index_from_bounds(s, atom.prev, 0);
                lemma_slot_from_bounds(s, atom, index_of(s, atom.prev) + 1);
            }
        }
        self.atoms.insert(idx, atom);
        self.clock.seen(atom.id.clock);
        proof {
            lemma_insert_keeps_closed(s, idx as int, atom);
        }
    }

    /// The items of the weave in order, each with the id of the atom that
    /// last set it.
    pub fn items(&self) -> (r: Vec<(Id, Item)>)
        ensures
            r@ == self.item_seq(),
    {
        let ghost s = self.atoms@;
        let len = self.atoms.len();
        let mut out: Vec<(Id, Item)> = Vec::new();
        let mut pending: Option<(Id, Item)> = None;
        let mut i: usize = 0;
        while i < len
            invariant
                s == self.atoms@,
                len == s.len(),
                0 <= i <= len,
                out@ + scan(s, i as int, pending) == weave_items(s),
            decreases len - i,
        {
            let a = self.atoms[i];
            let ghost before = out@;
            match a.op {
                AtomOp::Add(item) => {
                    match pending {
                        Some(p) => {
                            out.push(p);
                            assert(out@ + scan(s, i + 1, Some((a.id, item))) =~= before + (seq![p]
                                + scan(s, i + 1, Some((a.id, item)))));
                        },
                        None => {},
                    }
                    pending = Some((a.id, item));
                },
                AtomOp::Replace(item) => {
                    match pending {
                        Some(p) => {
                            if p.0 == a.prev {
                                pending = Some((a.id, item));
                            }
                        },
                        None => {},
                    }
                },
                AtomOp::Remove => {
                    match pending {
                        Some(p) => {
                            if p.0 == a.prev {
                                pending = None;
                            }
                        },
                        None => {},
                    }
                },
            }
            i = i + 1;
        }
        match pending {
            Some(p) => {
                out.push(p);
            },
            None => {},
        }
        assert(out@ =~= weave_items(s));
        out
    }

    /// The rendered items without their ids.
    pub fn render(&self) -> (r: Vec<Item>)
        ensures
            r@ == self.item_seq().map_values(|e: (Id, Item)| e.1),
    {
        let items = self.items();
        let mut out: Vec<Item> = Vec::new();
        let mut i: usize = 0;
        while i < items.len()
            invariant
                0 <= i <= items@.len(),
                items@ == self.item_seq(),
                out@ =~= items@.take(i as int).map_values(|e: (Id, Item)| e.1),
            decreases items@.len() - i,
        {
            out.push(items[i].1);
            i = i + 1;
            assert(out@ =~= items@.take(i as int).map_values(|e: (Id, Item)| e.1));
        }
        assert(items@.take(items@.len() as int) =~= items@);
        out
    }

    /// The item the atom with the given id adds or replaces with.
    pub fn get_item(&self, id: Id) -> (r: Option<Item>)
        ensures
            r == item_of(self.atom_seq(), id),
    {
        match self.position(id) {
            Some(k) => match self.atoms[k].op {
                AtomOp::Add(item) => Some(item),
                AtomOp::Replace(item) => Some(item),
                AtomOp::Remove => None,
            },
            None => None,
        }
    }

    /// The rendered entry before the one with the given id.
    pub fn get_previous(&self, id: Id) -> (r: Option<(Id, Item)>)
        ensures
            r == previous_of(self.item_seq(), id),
    {
        let items = self.items();
        let pairs = adjacent_pairs(&items);
        let ghost v = items@;
        let mut k: usize = 0;
        while k < pairs.len()
            invariant
                v == self.item_seq(),
                pairs@.len() == (if v.len() == 0 { 0 } else { v.len() - 1 }),
                forall|i: int| 0 <= i < pairs@.len() ==> #[trigger] pairs@[i] == (v[i], v[i + 1]),
                0 <= k <= pairs@.len(),
                pos_from(v, id, k + 1) == pos_from(v, id, 1),
            decreases pairs@.len() - k,
        {
            let (a, b) = pairs[k];
            if b.0 == id {
                return Some(a);
            }
            k = k + 1;
        }
        None
    }

    /// The rendered entry after the one with the given id.
    pub fn get_next(&self, id: Id) -> (r: Option<(Id, Item)>)
        ensures
            r == next_of(self.item_seq(), id),
    {
        let items = self.items();
        let pairs = adjacent_pairs(&items);
        let ghost v = items@;
        let mut k: usize = 0;
        while k < pairs.len()
            invariant
                v == self.item_seq(),
                pairs@.len() == (if v.len() == 0 { 0 } else { v.len() - 1 }),
                forall|i: int| 0 <= i < pairs@.len() ==> #[trigger] pairs@[i] == (v[i], v[i + 1]),
                0 <= k <= pairs@.len(),
                pos_from(v, id, k as int) == pos_from(v, id, 0),
            decreases pairs@.len() - k,
        {
            let (a, b) = pairs[k];
            if a.0 == id {
                return Some(b);
            }
            k = k + 1;
        }
        proof {
            lemma_pos_from_bounds(v, id, k as int);
        }
        None
    }

    /// The first rendered entry.
    pub fn get_first(&self) -> (r: Option<(Id, Item)>)
        ensures
            r == (if self.item_seq().len() > 0 { Some(self.item_seq()[0]) } else { None }),
    {
        let items = self.items();
        if items.len() > 0 {
            Some(items[0])
        } else {
            None
        }
    }

    /// The last rendered entry.
    pub fn get_last(&self) -> (r: Option<(Id, Item)>)
        ensures
            r == (if self.item_seq().len() > 0 {
                Some(self.item_seq().last())
            } else {
                None
            }),
    {
        let items = self.items();
        if items.len() > 0 {
            Some(items[items.len() - 1])
        } else {
            None
        }
    }
}

} // verus!
