use grafeia_core::ids::{Clock, Id, SiteId};
use grafeia_core::keys::{TypeId, WordId};
use grafeia_core::content::Item;
use grafeia_core::weave::{Atom, AtomOp, Weave};

fn word(n: u32) -> Item {
    Item::Word(WordId(SiteId(1), n))
}

fn typ() -> TypeId {
    TypeId(SiteId(1), 0)
}

#[test]
fn null_id_is_null() {
    assert!(Id::null().is_null());
    let id = Id { clock: 0, site: SiteId(1) };
    assert!(!id.is_null());
}

#[test]
fn clock_hands_out_increasing_times() {
    let mut c: Clock<u32> = Clock::new();
    assert_eq!(c.next(), 0);
    assert_eq!(c.next(), 1);
    c.seen(10);
    assert_eq!(c.next(), 10);
    c.seen(3);
    assert_eq!(c.next(), 11);
}

#[test]
fn new_weave_is_empty() {
    let w = Weave::new(typ());
    assert_eq!(w.typ(), typ());
    assert!(w.items().is_empty());
    assert_eq!(w.get_first(), None);
    assert_eq!(w.get_last(), None);
}

#[test]
fn created_atom_takes_the_weave_time() {
    let mut w = Weave::new(typ());
    let a = w.create(SiteId(3), Id::null(), AtomOp::Add(word(7)));
    assert_eq!(a.id, Id { clock: 0, site: SiteId(3) });
    assert_eq!(a.prev, Id::null());
    let b = w.create(SiteId(3), a.id, AtomOp::Remove);
    assert_eq!(b.id, Id { clock: 1, site: SiteId(3) });
    // creating does not add
    assert!(w.items().is_empty());
}

#[test]
fn from_items_renders_the_items() {
    let w = Weave::from_items(SiteId(1), typ(), vec![word(1), word(2), word(3)]);
    assert_eq!(w.render(), vec![word(1), word(2), word(3)]);
    let items = w.items();
    assert_eq!(items.len(), 3);
    assert_eq!(items[0].0, Id { clock: 0, site: SiteId(1) });
    assert_eq!(items[2].0, Id { clock: 2, site: SiteId(1) });
    assert_eq!(w.get_first(), Some(items[0]));
    assert_eq!(w.get_last(), Some(items[2]));
    assert_eq!(w.get_next(items[0].0), Some(items[1]));
    assert_eq!(w.get_previous(items[1].0), Some(items[0]));
    assert_eq!(w.get_next(items[2].0), None);
    assert_eq!(w.get_previous(items[0].0), None);
    assert_eq!(w.get_item(items[1].0), Some(word(2)));
}

#[test]
fn from_items_of_site_zero_starts_at_the_null_id() {
    // the first atom gets the null id, so the second one refers to the start
    // and is ordered among the first atoms
    let w = Weave::from_items(SiteId(0), typ(), vec![word(2), word(1)]);
    assert_eq!(w.render(), vec![word(1), word(2)]);
}

#[test]
fn replace_and_remove() {
    let mut w = Weave::from_items(SiteId(1), typ(), vec![word(1), word(2)]);
    let first = w.items()[0].0;
    let second = w.items()[1].0;
    let r = w.create(SiteId(1), first, AtomOp::Replace(word(9)));
    w.add(r);
    assert_eq!(w.render(), vec![word(9), word(2)]);
    assert_eq!(w.get_item(r.id), Some(word(9)));
    let d = w.create(SiteId(1), second, AtomOp::Remove);
    w.add(d);
    assert_eq!(w.render(), vec![word(9)]);
    assert_eq!(w.get_item(d.id), None);
}

#[test]
fn concurrent_additions_converge() {
    let a = Atom { prev: Id::null(), op: AtomOp::Add(word(5)), id: Id { clock: 0, site: SiteId(1) } };
    let b = Atom { prev: Id::null(), op: AtomOp::Add(word(3)), id: Id { clock: 0, site: SiteId(2) } };
    let mut w1 = Weave::new(typ());
    w1.add(a);
    w1.add(b);
    let mut w2 = Weave::new(typ());
    w2.add(b);
    w2.add(a);
    assert_eq!(w1.render(), vec![word(3), word(5)]);
    assert_eq!(w2.render(), vec![word(3), word(5)]);
}

#[test]
fn child_atoms_stay_with_their_parent() {
    let mut w = Weave::new(typ());
    let a = w.create(SiteId(1), Id::null(), AtomOp::Add(word(3)));
    w.add(a);
    let a2 = w.create(SiteId(1), a.id, AtomOp::Add(word(4)));
    w.add(a2);
    // a sibling of `a` that comes after it goes after `a` and its chain
    let b = Atom { prev: Id::null(), op: AtomOp::Add(word(8)), id: Id { clock: 5, site: SiteId(2) } };
    w.add(b);
    assert_eq!(w.render(), vec![word(3), word(4), word(8)]);
}
