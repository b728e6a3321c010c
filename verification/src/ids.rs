//! Site identifiers, atom identifiers, logical clocks and stamped keys.
use vstd::prelude::*;

verus! {

/// The identifier of one editing site (a participant of a shared document).
#[derive(Debug, Clone, Copy, PartialEq, Eq, Hash, Structural)]
pub struct SiteId(pub u32);

/// The identifier of an atom: the logical time it was created at and the
/// site that created it.  Ids are ordered by clock first, then by site.
#[derive(Debug, Clone, Copy, PartialEq, Eq, Hash, Structural)]
pub struct Id {
    pub clock: u32,
    pub site: SiteId,
}

/// The order of ids: by clock, and between equal clocks by site.
pub open spec fn id_less(a: Id, b: Id) -> bool {
    a.clock < b.clock || (a.clock == b.clock && a.site.0 < b.site.0)
}

impl Id {
    /// The null id `0:0`, which refers to the start of a sequence.
    pub open spec fn null_spec() -> Id {
        Id { clock: 0, site: SiteId(0) }
    }

    pub fn null() -> (r: Id)
        ensures
            r == Id::null_spec(),
    {
        Id { clock: 0, site: SiteId(0) }
    }

    pub fn is_null(&self) -> (r: bool)
        ensures
            r == (*self == Id::null_spec()),
    {
        self.clock == 0 && self.site.0 == 0
    }
}

/// Decides `id_less` on two ids.
pub fn id_is_less(a: Id, b: Id) -> (r: bool)
    ensures
        r == id_less(a, b),
{
    a.clock < b.clock || (a.clock == b.clock && a.site.0 < b.site.0)
}

/// The values a logical clock can hold.
pub trait ClockValue: Sized + Copy {
    /// The logical time this value stands for.
    spec fn tick(&self) -> int;

    /// The largest time a value can stand for.
    spec fn limit() -> int;

    /// The time a fresh clock starts at.
    fn start() -> (r: Self)
        ensures
            r.tick() == 0,
    ;

    /// The following time.
    fn inc(self) -> (r: Self)
        requires
            self.tick() < Self::limit(),
        ensures
            r.tick() == self.tick() + 1,
    ;

    /// The later of two times.
    fn later(self, other: Self) -> (r: Self)
        ensures
            r.tick() == (if self.tick() > other.tick() { self.tick() } else { other.tick() }),
    ;
}

impl ClockValue for u32 {
    open spec fn tick(&self) -> int {
        *self as int
    }

    open spec fn limit() -> int {
        u32::MAX as int
    }

    fn start() -> (r: u32) {
        0
    }

    fn inc(self) -> (r: u32) {
        self + 1
    }

    fn later(self, other: u32) -> (r: u32) {
        if self > other {
            self
        } else {
            other
        }
    }
}

/// A logical clock: it hands out increasing times and never runs behind a
/// time it has seen.
#[derive(Debug, Clone)]
pub struct Clock<T>(T);

impl<T: ClockValue> Clock<T> {
    /// The time the clock will hand out next.
    pub closed spec fn now(&self) -> int {
        self.0.tick()
    }

    pub open spec fn limit(&self) -> int {
        T::limit()
    }

    pub fn new() -> (r: Self)
        ensures
            r.now() == 0,
    {
        Clock(T::start())
    }

    /// The time the clock will hand out next, without moving it.
    pub fn time(&self) -> (t: T)
        where T: Copy,
        ensures
            t.tick() == self.now(),
    {
        self.0
    }

    /// Hands out the current time and moves the clock one step on.
    pub fn next(&mut self) -> (t: T)
        requires
            old(self).now() < old(self).limit(),
        ensures
            t.tick() == old(self).now(),
            final(self).now() == old(self).now() + 1,
            final(self).limit() == old(self).limit(),
    {
        let t = self.0.inc();
        let r = self.0;
        self.0 = t;
        r
    }

    /// Makes the clock catch up with a time seen elsewhere.
    pub fn seen(&mut self, val: T)
        ensures
            final(self).now() == (if old(self).now() > val.tick() { old(self).now() } else { val.tick() }),
            final(self).limit() == old(self).limit(),
    {
        self.0 = self.0.later(val);
    }
}

impl Clock<u32> {
    /// A clock of `u32` times stands between 0 and the largest `u32`.
    pub proof fn lemma_range(&self)
        ensures
            0 <= self.now() <= u32::MAX,
    {
    }
}

/// A key of a stamped map: the site that created it and the time it was
/// created at.  A key is fully determined by these two.
pub trait Stamped: Sized + Copy {
    spec fn stamp_site(&self) -> SiteId;

    spec fn stamp_value(&self) -> u32;

    fn new(site: SiteId, n: u32) -> (r: Self)
        ensures
            r.stamp_site() == site,
            r.stamp_value() == n,
    ;

    fn site(&self) -> (r: SiteId)
        ensures
            r == self.stamp_site(),
    ;

    fn value(&self) -> (r: u32)
        ensures
            r == self.stamp_value(),
    ;

    /// Two keys with the same site and time are the same key.
    proof fn lemma_stamp_determines(a: Self, b: Self)
        requires
            a.stamp_site() == b.stamp_site(),
            a.stamp_value() == b.stamp_value(),
        ensures
            a == b,
    ;
}

/// The number a stamp is stored under: site in the high half, time in the low half.
pub open spec fn stamp_code(site: SiteId, value: u32) -> u64 {
    (site.0 as int * 0x1_0000_0000 + value as int) as u64
}

/// Computes `stamp_code`.
pub fn stamp_code_of(site: SiteId, value: u32) -> (r: u64)
    ensures
        r == stamp_code(site, value),
{
    let s: u64 = site.0 as u64;
    let v: u64 = value as u64;
    assert(s * 0x1_0000_0000 + v <= u64::MAX) by (nonlinear_arith)
        requires
            s <= u32::MAX,
            v <= u32::MAX,
    ;
    s * 0x1_0000_0000 + v
}

/// Different stamps are stored under different numbers.
pub proof fn lemma_stamp_code_injective(s1: SiteId, v1: u32, s2: SiteId, v2: u32)
    requires
        stamp_code(s1, v1) == stamp_code(s2, v2),
    ensures
        s1 == s2,
        v1 == v2,
{
    let a = s1.0 as int;
    let b = s2.0 as int;
    assert(a * 0x1_0000_0000 + v1 <= u64::MAX) by (nonlinear_arith)
        requires 0 <= a <= u32::MAX, 0 <= v1 <= u32::MAX;
    assert(b * 0x1_0000_0000 + v2 <= u64::MAX) by (nonlinear_arith)
        requires 0 <= b <= u32::MAX, 0 <= v2 <= u32::MAX;
    assert(a == b && v1 == v2) by (nonlinear_arith)
        requires
            a * 0x1_0000_0000 + v1 == b * 0x1_0000_0000 + v2,
            0 <= v1 < 0x1_0000_0000,
            0 <= v2 < 0x1_0000_0000,
            0 <= a, 0 <= b,
    ;
}

} // verus!
