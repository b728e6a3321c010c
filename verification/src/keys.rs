//! The stamped keys under which the shared storage keeps its entries.
use vstd::prelude::*;
use crate::ids::{SiteId, Stamped};

verus! {

/// The key of a word: the site that created it and the time it was created at.
#[derive(Debug, Clone, Copy, PartialEq, Eq, Hash, Structural)]
pub struct WordId(pub SiteId, pub u32);

impl Stamped for WordId {
    open spec fn stamp_site(&self) -> SiteId {
        self.0
    }

    open spec fn stamp_value(&self) -> u32 {
        self.1
    }

    fn new(site: SiteId, n: u32) -> (r: WordId) {
        WordId(site, n)
    }

    fn site(&self) -> (r: SiteId) {
        self.0
    }

    fn value(&self) -> (r: u32) {
        self.1
    }

    proof fn lemma_stamp_determines(a: WordId, b: WordId) {
    }
}

/// The key of a symbol: the site that created it and the time it was created at.
#[derive(Debug, Clone, Copy, PartialEq, Eq, Hash, Structural)]
pub struct SymbolId(pub SiteId, pub u32);

impl Stamped for SymbolId {
    open spec fn stamp_site(&self) -> SiteId {
        self.0
    }

    open spec fn stamp_value(&self) -> u32 {
        self.1
    }

    fn new(site: SiteId, n: u32) -> (r: SymbolId) {
        SymbolId(site, n)
    }

    fn site(&self) -> (r: SiteId) {
        self.0
    }

    fn value(&self) -> (r: u32) {
        self.1
    }

    proof fn lemma_stamp_determines(a: SymbolId, b: SymbolId) {
    }
}

/// The key of an embedded object: the site that created it and the time it was created at.
#[derive(Debug, Clone, Copy, PartialEq, Eq, Hash, Structural)]
pub struct ObjectId(pub SiteId, pub u32);

impl Stamped for ObjectId {
    open spec fn stamp_site(&self) -> SiteId {
        self.0
    }

    open spec fn stamp_value(&self) -> u32 {
        self.1
    }

    fn new(site: SiteId, n: u32) -> (r: ObjectId) {
        ObjectId(site, n)
    }

    fn site(&self) -> (r: SiteId) {
        self.0
    }

    fn value(&self) -> (r: u32) {
        self.1
    }

    proof fn lemma_stamp_determines(a: ObjectId, b: ObjectId) {
    }
}

/// The key of a sequence: the site that created it and the time it was created at.
#[derive(Debug, Clone, Copy, PartialEq, Eq, Hash, Structural)]
pub struct SequenceId(pub SiteId, pub u32);

impl Stamped for SequenceId {
    open spec fn stamp_site(&self) -> SiteId {
        self.0
    }

    open spec fn stamp_value(&self) -> u32 {
        self.1
    }

    fn new(site: SiteId, n: u32) -> (r: SequenceId) {
        SequenceId(site, n)
    }

    fn site(&self) -> (r: SiteId) {
        self.0
    }

    fn value(&self) -> (r: u32) {
        self.1
    }

    proof fn lemma_stamp_determines(a: SequenceId, b: SequenceId) {
    }
}

/// The key of a type: the site that created it and the time it was created at.
#[derive(Debug, Clone, Copy, PartialEq, Eq, Hash, Structural)]
pub struct TypeId(pub SiteId, pub u32);

impl Stamped for TypeId {
    open spec fn stamp_site(&self) -> SiteId {
        self.0
    }

    open spec fn stamp_value(&self) -> u32 {
        self.1
    }

    fn new(site: SiteId, n: u32) -> (r: TypeId) {
        TypeId(site, n)
    }

    fn site(&self) -> (r: SiteId) {
        self.0
    }

    fn value(&self) -> (r: u32) {
        self.1
    }

    proof fn lemma_stamp_determines(a: TypeId, b: TypeId) {
    }
}

/// The key of a font face: the site that created it and the time it was created at.
#[derive(Debug, Clone, Copy, PartialEq, Eq, Hash, Structural)]
pub struct FontId(pub SiteId, pub u32);

impl Stamped for FontId {
    open spec fn stamp_site(&self) -> SiteId {
        self.0
    }

    open spec fn stamp_value(&self) -> u32 {
        self.1
    }

    fn new(site: SiteId, n: u32) -> (r: FontId) {
        FontId(site, n)
    }

    fn site(&self) -> (r: SiteId) {
        self.0
    }

    fn value(&self) -> (r: u32) {
        self.1
    }

    proof fn lemma_stamp_determines(a: FontId, b: FontId) {
    }
}

/// The key of a hyphenation dictionary: the site that created it and the time it was created at.
#[derive(Debug, Clone, Copy, PartialEq, Eq, Hash, Structural)]
pub struct DictId(pub SiteId, pub u32);

impl Stamped for DictId {
    open spec fn stamp_site(&self) -> SiteId {
        self.0
    }

    open spec fn stamp_value(&self) -> u32 {
        self.1
    }

    fn new(site: SiteId, n: u32) -> (r: DictId) {
        DictId(site, n)
    }

    fn site(&self) -> (r: SiteId) {
        self.0
    }

    fn value(&self) -> (r: u32) {
        self.1
    }

    proof fn lemma_stamp_determines(a: DictId, b: DictId) {
    }
}

} // verus!
