//! Hyphenation points of words: a point is a character position in a word,
//! and up to eight points are packed into one `u64`, a byte each.  A
//! hyphenator keeps the points of many words: those stored in an fst map
//! (keyed by the bytes of the word) and the changes made since.
use vstd::prelude::*;
use vstd::string::StrSliceExecFns;
use vstd::utf8::encode_utf8;

verus! {

/// A hyphenation point: the number of characters before it.
#[derive(Debug, Clone, Copy)]
pub struct Hyphen {
    pos: u8,
}

impl Hyphen {
    pub closed spec fn position(&self) -> u8 {
        self.pos
    }

    /// The number of characters before the point.
    pub fn pos(&self) -> (r: u8)
        ensures
            r == self.position(),
    {
        self.pos
    }

    /// The point after `pos` characters.
    pub fn at(pos: usize) -> (r: Hyphen)
        requires
            pos < 256,
        ensures
            r.position() == pos,
    {
        Hyphen { pos: pos as u8 }
    }

    /// Splits the word at the point: the part before it and the part after
    /// it (a point beyond the end leaves the whole word before it).
    pub fn apply<'a>(&self, word: &'a str) -> (r: (&'a str, &'a str))
        ensures
            ({
                let p = if self.position() as int <= word@.len() { self.position() as int } else { word@.len() as int };
                &&& r.0@ == word@.take(p)
                &&& r.1@ == word@.skip(p)
            }),
            r.0@ + r.1@ == word@,
    {
        let n = word.unicode_len();
        let p: usize = if (self.pos as usize) <= n { self.pos as usize } else { n };
        let first = word.substring_char(0, p);
        let second = word.substring_char(p, n);
        proof {
            assert(word@.subrange(0, p as int) =~= word@.take(p as int));
            assert(word@.subrange(p as int, n as int) =~= word@.skip(p as int));
            assert(word@.take(p as int) + word@.skip(p as int) =~= word@);
        }
        (first, second)
    }
}

/// The points a packed value holds, the lowest byte first, up to the
/// highest byte that is not zero.
pub open spec fn hyphen_seq(data: nat) -> Seq<u8>
    decreases data,
{
    if data == 0 {
        Seq::empty()
    } else {
        seq![(data % 256) as u8] + hyphen_seq(data / 256)
    }
}

/// Hyphenation points packed into one integer, a byte each; the point added
/// last is in the lowest byte.
#[derive(Debug, Clone, Copy)]
pub struct Hyphens {
    data: u64,
}

impl Default for Hyphens {
    fn default() -> (r: Hyphens)
        ensures
            r.packed() == 0,
    {
        Hyphens { data: 0 }
    }
}

impl Hyphens {
    /// The packed value.
    pub closed spec fn packed(&self) -> u64 {
        self.data
    }

    /// The points, the one added last first.
    pub open spec fn points(&self) -> Seq<u8> {
        hyphen_seq(self.packed() as nat)
    }

    /// Hyphens with the given packed value.
    pub fn from_packed(data: u64) -> (r: Hyphens)
        ensures
            r.packed() == data,
    {
        Hyphens { data }
    }

    /// The packed value.
    pub fn to_packed(&self) -> (r: u64)
        ensures
            r == self.packed(),
    {
        self.data
    }

    /// These hyphens with `rhs` added (shifted in as the lowest byte).
    pub fn shl(self, rhs: Hyphen) -> (r: Hyphens)
        requires
            self.packed() < 0x100_0000_0000_0000,
        ensures
            r.packed() == self.packed() * 256 + rhs.position(),
    {
        let d = self.data;
        let p = rhs.pos as u64;
        let v = d << 8u64 | p;
        assert(v == d * 256 + p) by (bit_vector)
            requires
                d < 0x100_0000_0000_0000,
                p < 256,
                v == d << 8u64 | p,
        ;
        Hyphens { data: v }
    }

    /// Adds `rhs` to these hyphens (shifted in as the lowest byte).
    pub fn shl_assign(&mut self, rhs: Hyphen)
        requires
            old(self).packed() < 0x100_0000_0000_0000,
        ensures
            final(self).packed() == old(self).packed() * 256 + rhs.position(),
    {
        *self = self.shl(rhs);
    }

    /// The points, from the one added last.
    pub fn iter(&self) -> (r: HyphenIter)
        ensures
            r.rest() == self.packed(),
    {
        HyphenIter { data: self.data }
    }

    /// The number of points.
    pub fn len(&self) -> (r: usize)
        ensures
            r == self.points().len(),
    {
        let mut it = self.iter();
        let mut n: usize = 0;
        proof {
            lemma_hyphen_seq_len(self.data as nat);
        }
        while it.data > 0
            invariant
                n + hyphen_seq(it.data as nat).len() == hyphen_seq(self.data as nat).len(),
                hyphen_seq(self.data as nat).len() <= 8,
            decreases it.data,
        {
            proof {
                lemma_hyphen_seq_step(it.data as nat);
            }
            it.next();
            n = n + 1;
        }
        n
    }
}

/// The points of a packed value are at most eight.
pub proof fn lemma_hyphen_seq_len(data: nat)
    requires
        data <= u64::MAX,
    ensures
        hyphen_seq(data).len() <= 8,
{
    vstd::arithmetic::power2::lemma2_to64();
    lemma_hyphen_seq_bound(data, 8);
}

proof fn lemma_hyphen_seq_bound(data: nat, k: nat)
    requires
        data < vstd::arithmetic::power2::pow2(8 * k),
    ensures
        hyphen_seq(data).len() <= k,
    decreases data,
{
    if data > 0 {
        if k == 0 {
            vstd::arithmetic::power2::lemma_pow2(0);
            assert(vstd::arithmetic::power::pow(2, 0) == 1) by {
                vstd::arithmetic::power::lemma_pow0(2);
            }
            assert(false);
        } else {
            vstd::arithmetic::power2::lemma_pow2_adds(8 * (k - 1) as nat, 8);
            vstd::arithmetic::power2::lemma2_to64();
            assert(data / 256 < vstd::arithmetic::power2::pow2(8 * (k - 1) as nat)) by (nonlinear_arith)
                requires
                    data < vstd::arithmetic::power2::pow2(8 * (k - 1) as nat) * 256,
            ;
            lemma_hyphen_seq_bound(data / 256, (k - 1) as nat);
        }
    }
}

proof fn lemma_hyphen_seq_step(data: nat)
    requires
        data > 0,
    ensures
        hyphen_seq(data).len() == hyphen_seq(data / 256).len() + 1,
{
}

/// Shifting a point into hyphens puts it first among their points, the
/// earlier points following (unless everything is zero, which holds no
/// point at all).
pub proof fn lemma_shl_then_points(hs: Hyphens, h: Hyphen)
    requires
        hs.packed() < 0x100_0000_0000_0000,
        hs.packed() > 0 || h.position() > 0,
    ensures
        hyphen_seq((hs.packed() * 256 + h.position()) as nat) == seq![h.position()] + hs.points(),
{
    let d = (hs.packed() * 256 + h.position()) as nat;
    assert(d % 256 == h.position() as nat) by (nonlinear_arith)
        requires
            d == hs.packed() * 256 + h.position(),
            h.position() < 256,
    ;
    assert(d / 256 == hs.packed() as nat) by (nonlinear_arith)
        requires
            d == hs.packed() * 256 + h.position(),
            h.position() < 256,
    ;
}

/// The points of packed hyphens, handed out one after the other.
pub struct HyphenIter {
    data: u64,
}

impl HyphenIter {
    /// What is left to hand out, packed.
    pub closed spec fn rest(&self) -> u64 {
        self.data
    }

    /// The next point: the lowest byte, while something is left.
    pub fn next(&mut self) -> (r: Option<Hyphen>)
        ensures
            old(self).rest() > 0 ==> {
                &&& r matches Some(h) && h.position() == old(self).rest() % 256
                &&& final(self).rest() == old(self).rest() / 256
            },
            old(self).rest() == 0 ==> r is None && final(self).rest() == 0,
            hyphen_seq(old(self).rest() as nat) == (match r {
                Some(h) => seq![h.position()] + hyphen_seq(final(self).rest() as nat),
                None => Seq::<u8>::empty(),
            }),
    {
        if self.data > 0 {
            let d = self.data;
            let p = d as u8;
            let rest = d >> 8u64;
            assert(p == d % 256 && rest == d / 256) by (bit_vector)
                requires
                    p == d as u8,
                    rest == d >> 8u64,
            ;
            self.data = rest;
            Some(Hyphen { pos: p })
        } else {
            None
        }
    }
}

/// Whether the byte string `a` comes before `b` in lexicographic order: at
/// the first place where they differ, `a` has the smaller byte or has ended.
pub open spec fn bytes_less(a: Seq<u8>, b: Seq<u8>) -> bool {
    exists|i: int|
        #![trigger a.take(i), b.take(i)]
        0 <= i <= a.len() && i <= b.len() && a.take(i) == b.take(i) && ((i == a.len() && i < b.len()) || (i
            < a.len() && i < b.len() && a[i] < b[i]))
}

/// The first place where two byte strings differ (their common length
/// where one is the start of the other).
spec fn first_difference(a: Seq<u8>, b: Seq<u8>, i: int) -> int
    decreases a.len() - i,
{
    if i < 0 || i >= a.len() || i >= b.len() || a[i] != b[i] {
        i
    } else {
        first_difference(a, b, i + 1)
    }
}

proof fn lemma_first_difference(a: Seq<u8>, b: Seq<u8>, i: int)
    requires
        0 <= i <= a.len(),
        i <= b.len(),
        a.take(i) == b.take(i),
    ensures
        ({
            let k = first_difference(a, b, i);
            &&& i <= k <= a.len()
            &&& k <= b.len()
            &&& a.take(k) == b.take(k)
            &&& (k < a.len() && k < b.len() ==> a[k] != b[k])
        }),
    decreases a.len() - i,
{
    if i < a.len() && i < b.len() && a[i] == b[i] {
        assert(a.take(i + 1) =~= a.take(i).push(a[i]));
        assert(b.take(i + 1) =~= b.take(i).push(b[i]));
        lemma_first_difference(a, b, i + 1);
    }
}

/// Of two byte strings, exactly one comes first, or they are equal.
pub proof fn lemma_bytes_order(a: Seq<u8>, b: Seq<u8>)
    ensures
        a == b || bytes_less(a, b) || bytes_less(b, a),
        !(bytes_less(a, b) && bytes_less(b, a)),
        !bytes_less(a, a),
{
    assert(a.take(0) =~= b.take(0));
    lemma_first_difference(a, b, 0);
    let k = first_difference(a, b, 0);
    if k == a.len() && k == b.len() {
        assert(a =~= a.take(k));
        assert(b =~= b.take(k));
    } else if k < a.len() && k < b.len() {
        if a[k] < b[k] {
            assert(bytes_less(a, b));
        } else {
            assert(b.take(k) == a.take(k));
            assert(bytes_less(b, a));
        }
    } else if k == a.len() {
        assert(bytes_less(a, b));
    } else {
        assert(b.take(k) == a.take(k));
        assert(bytes_less(b, a));
    }
    if bytes_less(a, b) && bytes_less(b, a) {
        let i = choose|i: int|
            #![trigger a.take(i), b.take(i)]
            0 <= i <= a.len() && i <= b.len() && a.take(i) == b.take(i) && ((i == a.len() && i < b.len()) || (i
                < a.len() && i < b.len() && a[i] < b[i]));
        let j = choose|j: int|
            #![trigger b.take(j), a.take(j)]
            0 <= j <= b.len() && j <= a.len() && b.take(j) == a.take(j) && ((j == b.len() && j < a.len()) || (j
                < b.len() && j < a.len() && b[j] < a[j]));
        if i < j {
            assert(b.take(j)[i] == b[i]);
            assert(a.take(j)[i] == a[i]);
        } else if j < i {
            assert(b.take(i)[j] == b[j]);
            assert(a.take(i)[j] == a[j]);
        }
    }
    if bytes_less(a, a) {
        let i = choose|i: int|
            #![trigger a.take(i), a.take(i)]
            0 <= i <= a.len() && i <= a.len() && a.take(i) == a.take(i) && ((i == a.len() && i < a.len()) || (i
                < a.len() && i < a.len() && a[i] < a[i]));
    }
}

/// The order of byte strings is transitive.
pub proof fn lemma_bytes_less_trans(a: Seq<u8>, b: Seq<u8>, c: Seq<u8>)
    requires
        bytes_less(a, b),
        bytes_less(b, c),
    ensures
        bytes_less(a, c),
{
    let i = choose|i: int|
        #![trigger a.take(i), b.take(i)]
        0 <= i <= a.len() && i <= b.len() && a.take(i) == b.take(i) && ((i == a.len() && i < b.len()) || (i
            < a.len() && i < b.len() && a[i] < b[i]));
    let j = choose|j: int|
        #![trigger b.take(j), c.take(j)]
        0 <= j <= b.len() && j <= c.len() && b.take(j) == c.take(j) && ((j == b.len() && j < c.len()) || (j
            < b.len() && j < c.len() && b[j] < c[j]));
    let k = if i < j { i } else { j };
    assert(a.take(k) =~= b.take(i).take(k));
    assert(c.take(k) =~= b.take(j).take(k));
    assert(a.take(k) =~= c.take(k));
    if i < j {
        assert(b.take(j)[i] == b[i]);
        assert(c.take(j)[i] == c[i]);
    } else if j < i {
        assert(b.take(i)[j] == b[j]);
        assert(a.take(i)[j] == a[j]);
    }
    assert(bytes_less(a, c));
}

/// Compares two byte strings: negative where `a` comes first, zero where
/// they are equal, positive where `b` comes first.
pub fn bytes_order(a: &[u8], b: &[u8]) -> (r: i8)
    ensures
        r < 0 <==> bytes_less(a@, b@),
        r == 0 <==> a@ == b@,
        r > 0 <==> bytes_less(b@, a@),
{
    proof {
        lemma_bytes_order(a@, b@);
    }
    let mut i: usize = 0;
    while i < a.len() && i < b.len()
        invariant
            0 <= i <= a@.len(),
            i <= b@.len(),
            a@.take(i as int) == b@.take(i as int),
        decreases a@.len() - i,
    {
        if a[i] < b[i] {
            proof {
                lemma_bytes_order(a@, b@);
            }
            assert(bytes_less(a@, b@));
            return -1;
        }
        if b[i] < a[i] {
            proof {
                lemma_bytes_order(a@, b@);
            }
            assert(b@.take(i as int) == a@.take(i as int));
            assert(bytes_less(b@, a@));
            return 1;
        }
        assert(a@.take(i + 1) =~= a@.take(i as int).push(a@[i as int]));
        assert(b@.take(i + 1) =~= b@.take(i as int).push(b@[i as int]));
        i = i + 1;
    }
    if i < b.len() {
        assert(bytes_less(a@, b@));
        -1
    } else if i < a.len() {
        assert(b@.take(i as int) == a@.take(i as int));
        assert(bytes_less(b@, a@));
        1
    } else {
        assert(a@ =~= a@.take(i as int));
        assert(b@ =~= b@.take(i as int));
        0
    }
}

/// The entries with their keys as byte strings.
pub open spec fn entry_view(v: Seq<(Vec<u8>, u64)>) -> Seq<(Seq<u8>, u64)> {
    v.map_values(|e: (Vec<u8>, u64)| (e.0@, e.1))
}

/// The keys of the entries strictly increase.
pub open spec fn keys_increase(es: Seq<(Seq<u8>, u64)>) -> bool {
    forall|i: int, j: int| 0 <= i < j < es.len() ==> bytes_less(#[trigger] es[i].0, #[trigger] es[j].0)
}

/// Some entry has the key.
pub open spec fn has_key(es: Seq<(Seq<u8>, u64)>, k: Seq<u8>) -> bool {
    exists|i: int| 0 <= i < es.len() && #[trigger] es[i].0 == k
}

/// The entry is among the entries.
pub open spec fn has_entry(es: Seq<(Seq<u8>, u64)>, e: (Seq<u8>, u64)) -> bool {
    exists|i: int| 0 <= i < es.len() && #[trigger] es[i] == e
}

/// The entries as a map from key to value.
pub open spec fn entry_map(es: Seq<(Seq<u8>, u64)>) -> Map<Seq<u8>, u64> {
    Map::new(
        |k: Seq<u8>| has_key(es, k),
        |k: Seq<u8>| es[choose|i: int| 0 <= i < es.len() && #[trigger] es[i].0 == k].1,
    )
}

/// Entries with increasing keys map each key to the value of its entry.
pub proof fn lemma_entry_map(es: Seq<(Seq<u8>, u64)>)
    requires
        keys_increase(es),
    ensures
        forall|i: int| 0 <= i < es.len() ==> #[trigger] entry_map(es).contains_key(es[i].0) && entry_map(es)[es[i].0] == es[i].1,
        forall|k: Seq<u8>| #[trigger] entry_map(es).contains_key(k) <==> has_key(es, k),
{
    assert forall|i: int| 0 <= i < es.len() implies #[trigger] entry_map(es).contains_key(es[i].0) && entry_map(es)[es[i].0] == es[i].1 by {
        let k = es[i].0;
        assert(has_key(es, k));
        let j = choose|j: int| 0 <= j < es.len() && #[trigger] es[j].0 == k;
        if j != i {
            if j < i {
                assert(bytes_less(es[j].0, es[i].0));
            } else {
                assert(bytes_less(es[i].0, es[j].0));
            }
            lemma_bytes_order(k, k);
        }
    }
}

fn copy_key(v: &Vec<u8>) -> (r: Vec<u8>)
    ensures
        r@ == v@,
{
    let r = v.clone();
    assert(r@ =~= v@);
    r
}

/// Merges two lists of entries, each with increasing keys, into one with
/// increasing keys: where both have a key, the entry of `b` is taken.
pub fn merge_sorted(a: &Vec<(Vec<u8>, u64)>, b: &Vec<(Vec<u8>, u64)>) -> (r: Vec<(Vec<u8>, u64)>)
    requires
        keys_increase(entry_view(a@)),
        keys_increase(entry_view(b@)),
    ensures
        keys_increase(entry_view(r@)),
        forall|x: int| 0 <= x < r@.len() ==> has_entry(entry_view(b@), #[trigger] entry_view(r@)[x]) || (has_entry(
            entry_view(a@),
            entry_view(r@)[x],
        ) && !has_key(entry_view(b@), entry_view(r@)[x].0)),
        forall|y: int| 0 <= y < b@.len() ==> has_entry(entry_view(r@), #[trigger] entry_view(b@)[y]),
        forall|y: int| 0 <= y < a@.len() && !has_key(entry_view(b@), #[trigger] entry_view(a@)[y].0) ==> has_entry(
            entry_view(r@),
            entry_view(a@)[y],
        ),
{
    let ghost va = entry_view(a@);
    let ghost vb = entry_view(b@);
    let mut out: Vec<(Vec<u8>, u64)> = Vec::new();
    let mut i: usize = 0;
    let mut j: usize = 0;
    while i < a.len() || j < b.len()
        invariant
            va == entry_view(a@),
            vb == entry_view(b@),
            keys_increase(va),
            keys_increase(vb),
            0 <= i <= a@.len(),
            0 <= j <= b@.len(),
            keys_increase(entry_view(out@)),
            // what is out comes before all that is left
            forall|x: int, y: int| 0 <= x < out@.len() && i <= y < a@.len() ==> bytes_less(
                #[trigger] entry_view(out@)[x].0,
                #[trigger] va[y].0,
            ),
            forall|x: int, y: int| 0 <= x < out@.len() && j <= y < b@.len() ==> bytes_less(
                #[trigger] entry_view(out@)[x].0,
                #[trigger] vb[y].0,
            ),
            // each entry out comes from b, or from a without a key in b
            forall|x: int| 0 <= x < out@.len() ==> has_entry(vb, #[trigger] entry_view(out@)[x]) || (has_entry(
                va,
                entry_view(out@)[x],
            ) && !has_key(vb, entry_view(out@)[x].0)),
            // all that was passed is out, but for entries of a with a key in b
            forall|y: int| 0 <= y < j ==> has_entry(entry_view(out@), #[trigger] vb[y]),
            forall|y: int| 0 <= y < i && !has_key(vb, #[trigger] va[y].0) ==> has_entry(entry_view(out@), va[y]),
            // the keys passed in a that are in b lie in the part of b passed
            forall|y: int, z: int| 0 <= y < i && 0 <= z < b@.len() && #[trigger] va[y].0 == #[trigger] vb[z].0 ==> z < j,
        decreases a@.len() + b@.len() - i - j,
    {
        let ghost pre = entry_view(out@);
        let ghost (pi, pj) = (i, j);
        let take_a: bool;
        let take_b: bool;
        if i < a.len() && j < b.len() {
            let o = bytes_order(a[i].0.as_slice(), b[j].0.as_slice());
            take_a = o <= 0;
            take_b = o >= 0;
        } else {
            take_a = i < a.len();
            take_b = j < b.len();
        }
        if take_b {
            out.push((copy_key(&b[j].0), b[j].1));
        } else {
            out.push((copy_key(&a[i].0), a[i].1));
        }
        proof {
            assert(entry_view(out@) =~= pre.push(if take_b { vb[pj as int] } else { va[pi as int] }));
            lemma_merge_step(va, vb, pre, entry_view(out@), pi as int, pj as int, take_a, take_b);
        }
        if take_a {
            i = i + 1;
        }
        if take_b {
            j = j + 1;
        }
    }
    out
}

proof fn lemma_merge_step(
    va: Seq<(Seq<u8>, u64)>,
    vb: Seq<(Seq<u8>, u64)>,
    pre: Seq<(Seq<u8>, u64)>,
    post: Seq<(Seq<u8>, u64)>,
    i: int,
    j: int,
    take_a: bool,
    take_b: bool,
)
    requires
        keys_increase(va),
        keys_increase(vb),
        0 <= i <= va.len(),
        0 <= j <= vb.len(),
        i < va.len() || j < vb.len(),
        take_a <==> (i < va.len() && (j >= vb.len() || !bytes_less(vb[j].0, va[i].0))),
        take_b <==> (j < vb.len() && (i >= va.len() || !bytes_less(va[i].0, vb[j].0))),
        post == pre.push(if take_b { vb[j] } else { va[i] }),
        keys_increase(pre),
        forall|x: int, y: int| 0 <= x < pre.len() && i <= y < va.len() ==> bytes_less(#[trigger] pre[x].0, #[trigger] va[y].0),
        forall|x: int, y: int| 0 <= x < pre.len() && j <= y < vb.len() ==> bytes_less(#[trigger] pre[x].0, #[trigger] vb[y].0),
        forall|x: int| 0 <= x < pre.len() ==> has_entry(vb, #[trigger] pre[x]) || (has_entry(va, pre[x]) && !has_key(vb, pre[x].0)),
        forall|y: int| 0 <= y < j ==> has_entry(pre, #[trigger] vb[y]),
        forall|y: int| 0 <= y < i && !has_key(vb, #[trigger] va[y].0) ==> has_entry(pre, va[y]),
        forall|y: int, z: int| 0 <= y < i && 0 <= z < vb.len() && #[trigger] va[y].0 == #[trigger] vb[z].0 ==> z < j,
    ensures
        ({
            let i2 = if take_a { i + 1 } else { i };
            let j2 = if take_b { j + 1 } else { j };
            &&& take_a || take_b
            &&& keys_increase(post)
            &&& forall|x: int, y: int| 0 <= x < post.len() && i2 <= y < va.len() ==> bytes_less(#[trigger] post[x].0, #[trigger] va[y].0)
            &&& forall|x: int, y: int| 0 <= x < post.len() && j2 <= y < vb.len() ==> bytes_less(#[trigger] post[x].0, #[trigger] vb[y].0)
            &&& forall|x: int| 0 <= x < post.len() ==> has_entry(vb, #[trigger] post[x]) || (has_entry(va, post[x]) && !has_key(vb, post[x].0))
            &&& forall|y: int| 0 <= y < j2 ==> has_entry(post, #[trigger] vb[y])
            &&& forall|y: int| 0 <= y < i2 && !has_key(vb, #[trigger] va[y].0) ==> has_entry(post, va[y])
            &&& forall|y: int, z: int| 0 <= y < i2 && 0 <= z < vb.len() && #[trigger] va[y].0 == #[trigger] vb[z].0 ==> z < j2
        }),
{
    let i2 = if take_a { i + 1 } else { i };
    let j2 = if take_b { j + 1 } else { j };
    let n = pre.len();
    let e = post[n as int];
    if i < va.len() && j < vb.len() {
        lemma_bytes_order(va[i].0, vb[j].0);
    }
    // the new key comes after everything out
    assert forall|x: int| 0 <= x < n implies bytes_less(#[trigger] pre[x].0, e.0) by {
        if take_b {
            assert(bytes_less(pre[x].0, vb[j].0));
        } else {
            assert(bytes_less(pre[x].0, va[i].0));
        }
    }
    assert(keys_increase(post)) by {
        assert forall|x: int, y: int| 0 <= x < y < post.len() implies bytes_less(#[trigger] post[x].0, #[trigger] post[y].0) by {
            if y < n {
                assert(post[x] == pre[x] && post[y] == pre[y]);
            } else {
                assert(post[x] == pre[x]);
            }
        }
    }
    // the new key comes before what is left
    assert forall|y: int| i2 <= y < va.len() implies bytes_less(e.0, #[trigger] va[y].0) by {
        if take_b && !take_a {
            // e is vb[j], which comes before va[i]
            if y > i {
                lemma_bytes_less_trans(vb[j].0, va[i].0, va[y].0);
            }
        } else if take_b {
            assert(vb[j].0 == va[i].0);
        }
    }
    assert forall|y: int| j2 <= y < vb.len() implies bytes_less(e.0, #[trigger] vb[y].0) by {
        if !take_b {
            if y > j {
                lemma_bytes_less_trans(va[i].0, vb[j].0, vb[y].0);
            }
        }
    }
    assert forall|x: int, y: int| 0 <= x < post.len() && i2 <= y < va.len() implies bytes_less(#[trigger] post[x].0, #[trigger] va[y].0) by {
        if x < n {
            assert(post[x] == pre[x]);
        }
    }
    assert forall|x: int, y: int| 0 <= x < post.len() && j2 <= y < vb.len() implies bytes_less(#[trigger] post[x].0, #[trigger] vb[y].0) by {
        if x < n {
            assert(post[x] == pre[x]);
        }
    }
    // an entry taken from a has no key in b
    if !take_b {
        assert(!has_key(vb, va[i].0)) by {
            if has_key(vb, va[i].0) {
                let z = choose|z: int| 0 <= z < vb.len() && #[trigger] vb[z].0 == va[i].0;
                if z < j {
                    let x = choose|x: int| 0 <= x < pre.len() && #[trigger] pre[x] == vb[z];
                    assert(bytes_less(pre[x].0, va[i].0));
                    lemma_bytes_order(va[i].0, va[i].0);
                } else if z == j {
                    lemma_bytes_order(va[i].0, vb[j].0);
                } else {
                    assert(bytes_less(vb[j].0, vb[z].0));
                    lemma_bytes_less_trans(va[i].0, vb[j].0, vb[z].0);
                    lemma_bytes_order(va[i].0, va[i].0);
                }
            }
        }
    }
    assert forall|x: int| 0 <= x < post.len() implies has_entry(vb, #[trigger] post[x]) || (has_entry(va, post[x]) && !has_key(vb, post[x].0)) by {
        if x < n {
            assert(post[x] == pre[x]);
        } else if take_b {
            assert(vb[j] == post[x]);
        } else {
            assert(va[i] == post[x]);
        }
    }
    assert forall|y: int| 0 <= y < j2 implies has_entry(post, #[trigger] vb[y]) by {
        if y < j {
            let x = choose|x: int| 0 <= x < pre.len() && #[trigger] pre[x] == vb[y];
            assert(post[x] == vb[y]);
        } else {
            assert(post[n as int] == vb[y]);
        }
    }
    assert forall|y: int| 0 <= y < i2 && !has_key(vb, #[trigger] va[y].0) implies has_entry(post, va[y]) by {
        if y < i {
            let x = choose|x: int| 0 <= x < pre.len() && #[trigger] pre[x] == va[y];
            assert(post[x] == va[y]);
        } else if !take_b {
            assert(post[n as int] == va[y]);
        } else {
            assert(vb[j].0 == va[i].0);
        }
    }
    assert forall|y: int, z: int| 0 <= y < i2 && 0 <= z < vb.len() && #[trigger] va[y].0 == #[trigger] vb[z].0 implies z < j2 by {
        if y == i {
            if take_b {
                if z != j {
                    assert(vb[z].0 == vb[j].0);
                    if z < j {
                        assert(bytes_less(vb[z].0, vb[j].0));
                    } else {
                        assert(bytes_less(vb[j].0, vb[z].0));
                    }
                    lemma_bytes_order(vb[j].0, vb[j].0);
                }
            } else {
                assert(has_key(vb, va[i].0));
            }
        }
    }
}

#[verifier::external_type_specification]
#[verifier::external_body]
#[verifier::reject_recursive_types(D)]
pub struct ExFstMap<D>(fst::Map<D>);

#[verifier::external_type_specification]
#[verifier::external_body]
pub struct ExFstError(fst::Error);

/// The entries an fst map holds: each key, a byte string, with its value.
pub uninterp spec fn fst_contents(m: fst::Map<Vec<u8>>) -> Map<Seq<u8>, u64>;

/// The entries of the fst map that the given bytes encode.
pub uninterp spec fn fst_decoded(data: Seq<u8>) -> Map<Seq<u8>, u64>;

/// Whether `fst::Map::new` reads the bytes as a map: its checks of the
/// bytes' header and footer (format, version, length, root address) pass.
/// These checks do not look at the body of the map.
pub uninterp spec fn fst_readable(data: Seq<u8>) -> bool;

/// Whether the bytes are a valid FST, as `fst`'s builder writes one.  The
/// documentation of `fst::Map::new` leaves this to its caller: reading a
/// map from bytes that are not may panic at any point.
pub uninterp spec fn fst_valid(data: Seq<u8>) -> bool;

/// Whether the map rests on a valid FST, so that reading it does not panic.
pub uninterp spec fn fst_sound(m: fst::Map<Vec<u8>>) -> bool;

/// The lower-case form of a text, as `str::to_lowercase` gives it.
pub uninterp spec fn lowercase(text: Seq<char>) -> Seq<char>;

/// `fst::Map::get` on a map that rests on a valid FST: the value stored
/// under the key, `None` where the key is not there.
#[verifier::external_body]
fn fst_get(m: &fst::Map<Vec<u8>>, key: &[u8]) -> (r: Option<u64>)
    requires
        fst_sound(*m),
    ensures
        r == (if fst_contents(*m).contains_key(key@) { Some(fst_contents(*m)[key@]) } else { None }),
{
    m.get(key)
}

/// `fst::Map::new`: reads a map from its bytes; it succeeds exactly where
/// the bytes pass its header checks (`fst_readable`), which valid bytes do;
/// the map read holds what the bytes encode, and rests on a valid FST
/// exactly where the bytes are one.
#[verifier::external_body]
fn fst_open(data: Vec<u8>) -> (r: Result<fst::Map<Vec<u8>>, fst::Error>)
    ensures
        r is Ok <==> fst_readable(data@),
        fst_valid(data@) ==> r is Ok,
        r matches Ok(m) ==> fst_contents(m) == fst_decoded(data@),
        r matches Ok(m) ==> (fst_sound(m) <==> fst_valid(data@)),
{
    fst::Map::new(data)
}

/// `fst::Map::from_iter` on no entries: the empty map, which the builder
/// wrote (so it rests on a valid FST).
#[verifier::external_body]
fn fst_empty() -> (r: fst::Map<Vec<u8>>)
    ensures
        forall|k: Seq<u8>| !fst_contents(r).contains_key(k),
        fst_sound(r),
{
    fst::Map::from_iter(std::iter::empty::<(&[u8], u64)>()).unwrap()
}

/// `fst::Map::stream` collected by `into_byte_vec`, on a map that rests on
/// a valid FST: every entry of the map, the keys in increasing
/// lexicographic order.
#[verifier::external_body]
fn fst_entries(m: &fst::Map<Vec<u8>>) -> (r: Vec<(Vec<u8>, u64)>)
    requires
        fst_sound(*m),
    ensures
        keys_increase(entry_view(r@)),
        forall|i: int| 0 <= i < r@.len() ==> fst_contents(*m).contains_key(#[trigger] entry_view(r@)[i].0)
            && fst_contents(*m)[entry_view(r@)[i].0] == entry_view(r@)[i].1,
        forall|k: Seq<u8>| #[trigger] fst_contents(*m).contains_key(k) ==> has_key(entry_view(r@), k),
{
    m.stream().into_byte_vec()
}

/// `fst::MapBuilder::memory`, `extend_iter` and `into_inner`: the bytes of
/// a map of the entries.  It errs only where the keys do not strictly
/// increase (writing to memory does not fail); the bytes are a valid FST,
/// and read back they give the entries.
#[verifier::external_body]
fn fst_build(entries: &Vec<(Vec<u8>, u64)>) -> (r: Result<Vec<u8>, fst::Error>)
    ensures
        keys_increase(entry_view(entries@)) ==> r is Ok,
        r matches Ok(bytes) ==> fst_valid(bytes@),
        r matches Ok(bytes) ==> fst_decoded(bytes@) == entry_map(entry_view(entries@)),
{
    let mut builder = fst::MapBuilder::memory();
    builder.extend_iter(entries.iter().map(|e| (e.0.as_slice(), e.1)))?;
    builder.into_inner()
}

/// `std::str::from_utf8`, asking only whether it succeeds: whether the
/// bytes are valid UTF-8.
#[verifier::external_body]
fn utf8_ok(bytes: &[u8]) -> (r: bool)
    ensures
        r == vstd::utf8::valid_utf8(bytes@),
{
    std::str::from_utf8(bytes).is_ok()
}

/// `str::to_lowercase` of std.
#[verifier::external_body]
fn to_lower(word: &str) -> (r: String)
    ensures
        r@ == lowercase(word@),
{
    word.to_lowercase()
}

/// Distinct texts have distinct UTF-8 encodings.
pub proof fn lemma_encode_injective(a: Seq<char>, b: Seq<char>)
    requires
        encode_utf8(a) == encode_utf8(b),
    ensures
        a == b,
{
    vstd::utf8::encode_utf8_decode_utf8(a);
    vstd::utf8::encode_utf8_decode_utf8(b);
}

/// Why a hyphenation dictionary could not be read or written.
#[derive(Debug, Clone, Copy, PartialEq, Eq, Structural)]
pub enum HyphenError {
    /// The fst library refused the bytes or the entries.
    Fst,
}

/// The hyphenation points of words: those stored in an fst map, keyed by
/// the UTF-8 bytes of the word, and the changes made since, in the order of
/// their words.
pub struct Hyphenator {
    map: fst::Map<Vec<u8>>,
    changes: Vec<(String, Hyphens)>,
}

impl Hyphenator {
    /// The stored entries.
    pub closed spec fn stored(&self) -> Map<Seq<u8>, u64> {
        fst_contents(self.map)
    }

    /// The changes, each word with its packed points.
    pub closed spec fn change_seq(&self) -> Seq<(Seq<char>, u64)> {
        self.changes@.map_values(|e: (String, Hyphens)| (e.0@, e.1.packed()))
    }

    /// The map rests on a valid FST, and the words of the changes strictly
    /// increase (in the order of their bytes).
    pub closed spec fn wf(&self) -> bool {
        &&& fst_sound(self.map)
        &&& forall|i: int, j: int|
            0 <= i < j < self.change_seq().len() ==> bytes_less(
                encode_utf8(#[trigger] self.change_seq()[i].0),
                encode_utf8(#[trigger] self.change_seq()[j].0),
            )
    }

    /// The changes as a map from word to packed points.
    pub open spec fn changes_map(&self) -> Map<Seq<char>, u64> {
        Map::new(
            |k: Seq<char>| exists|i: int| 0 <= i < self.change_seq().len() && #[trigger] self.change_seq()[i].0 == k,
            |k: Seq<char>| self.change_seq()[choose|i: int| 0 <= i < self.change_seq().len() && #[trigger] self.change_seq()[i].0 == k].1,
        )
    }

    /// The packed points kept under a key: a change wins over what is stored.
    pub open spec fn lookup(&self, key: Seq<char>) -> Option<u64> {
        if self.changes_map().contains_key(key) {
            Some(self.changes_map()[key])
        } else if self.stored().contains_key(encode_utf8(key)) {
            Some(self.stored()[encode_utf8(key)])
        } else {
            None
        }
    }

    /// The packed points of a word, looked up in lower case.
    pub open spec fn hyphens_of(&self, word: Seq<char>) -> Option<u64> {
        self.lookup(lowercase(word))
    }

    proof fn lemma_changes_at(&self, i: int)
        requires
            self.wf(),
            0 <= i < self.change_seq().len(),
        ensures
            self.changes_map().contains_key(self.change_seq()[i].0),
            self.changes_map()[self.change_seq()[i].0] == self.change_seq()[i].1,
    {
        let k = self.change_seq()[i].0;
        let j = choose|j: int| 0 <= j < self.change_seq().len() && #[trigger] self.change_seq()[j].0 == k;
        if j != i {
            lemma_bytes_order(encode_utf8(k), encode_utf8(k));
        }
    }

    /// Where the changes have the key (given by its bytes): its place, or
    /// where it would go.
    fn find_change(&self, key: &[u8]) -> (r: Result<usize, usize>)
        requires
            self.wf(),
        ensures
            match r {
                Ok(i) => i < self.change_seq().len() && encode_utf8(self.change_seq()[i as int].0) == key@,
                Err(i) => i <= self.change_seq().len()
                    && (forall|j: int| 0 <= j < i ==> bytes_less(encode_utf8(#[trigger] self.change_seq()[j].0), key@))
                    && (forall|j: int| i <= j < self.change_seq().len() ==> bytes_less(key@, encode_utf8(#[trigger] self.change_seq()[j].0))),
            },
    {
        let n = self.changes.len();
        let mut i: usize = 0;
        while i < n
            invariant
                self.wf(),
                n == self.change_seq().len(),
                0 <= i <= n,
                forall|j: int| 0 <= j < i ==> bytes_less(encode_utf8(#[trigger] self.change_seq()[j].0), key@),
            decreases n - i,
        {
            let k = self.changes[i].0.as_str().as_bytes();
            assert(self.change_seq()[i as int].0 == self.changes@[i as int].0@);
            let o = bytes_order(k, key);
            if o == 0 {
                return Ok(i);
            }
            if o > 0 {
                proof {
                    assert forall|j: int| i <= j < n implies bytes_less(key@, encode_utf8(#[trigger] self.change_seq()[j].0)) by {
                        if j > i {
                            lemma_bytes_less_trans(key@, encode_utf8(self.change_seq()[i as int].0), encode_utf8(self.change_seq()[j].0));
                        }
                    }
                }
                return Err(i);
            }
            i = i + 1;
        }
        Err(n)
    }

    /// Records the points of a word (replacing what was recorded for it).
    pub fn add(&mut self, word: String, hyphens: Hyphens)
        requires
            old(self).wf(),
        ensures
            final(self).wf(),
            final(self).changes_map() == old(self).changes_map().insert(word@, hyphens.packed()),
            final(self).stored() == old(self).stored(),
    {
        let ghost old_seq = self.change_seq();
        let ghost old_map = self.changes_map();
        let ghost w = word@;
        match self.find_change(word.as_str().as_bytes()) {
            Ok(i) => {
                proof {
                    lemma_encode_injective(old_seq[i as int].0, w);
                }
                self.changes.set(i, (word, hyphens));
                proof {
                    assert(self.change_seq() =~= old_seq.update(i as int, (w, hyphens.packed())));
                    self.lemma_updated(old_seq, old_map, i as int, w, hyphens.packed());
                }
            },
            Err(i) => {
                self.changes.insert(i, (word, hyphens));
                proof {
                    assert(self.change_seq() =~= old_seq.insert(i as int, (w, hyphens.packed())));
                    self.lemma_inserted(old_seq, old_map, i as int, w, hyphens.packed());
                }
            },
        }
    }

    proof fn lemma_updated(&self, old_seq: Seq<(Seq<char>, u64)>, old_map: Map<Seq<char>, u64>, i: int, w: Seq<char>, v: u64)
        requires
            fst_sound(self.map),
            0 <= i < old_seq.len(),
            old_seq[i].0 == w,
            self.change_seq() == old_seq.update(i, (w, v)),
            forall|a: int, b: int| 0 <= a < b < old_seq.len() ==> bytes_less(encode_utf8(#[trigger] old_seq[a].0), encode_utf8(#[trigger] old_seq[b].0)),
            old_map == Map::new(
                |k: Seq<char>| exists|a: int| 0 <= a < old_seq.len() && #[trigger] old_seq[a].0 == k,
                |k: Seq<char>| old_seq[choose|a: int| 0 <= a < old_seq.len() && #[trigger] old_seq[a].0 == k].1,
            ),
        ensures
            self.wf(),
            self.changes_map() == old_map.insert(w, v),
    {
        let cs = self.change_seq();
        assert forall|a: int, b: int| 0 <= a < b < cs.len() implies bytes_less(encode_utf8(#[trigger] cs[a].0), encode_utf8(#[trigger] cs[b].0)) by {
            assert(cs[a].0 == old_seq[a].0 && cs[b].0 == old_seq[b].0);
        }
        assert forall|k: Seq<char>| #![trigger self.changes_map().contains_key(k)] self.changes_map().contains_key(k) == old_map.insert(w, v).contains_key(k)
            && (self.changes_map().contains_key(k) ==> self.changes_map()[k] == old_map.insert(w, v)[k]) by {
            if self.changes_map().contains_key(k) {
                let a = choose|a: int| 0 <= a < cs.len() && #[trigger] cs[a].0 == k;
                self.lemma_changes_at(a);
                assert(old_seq[a].0 == k);
                if k != w {
                    assert(old_map.contains_key(k));
                    let b = choose|b: int| 0 <= b < old_seq.len() && #[trigger] old_seq[b].0 == k;
                    if b != a {
                        if b < a {
                            assert(bytes_less(encode_utf8(old_seq[b].0), encode_utf8(old_seq[a].0)));
                        } else {
                            assert(bytes_less(encode_utf8(old_seq[a].0), encode_utf8(old_seq[b].0)));
                        }
                        lemma_bytes_order(encode_utf8(k), encode_utf8(k));
                    }
                }
            }
            if old_map.insert(w, v).contains_key(k) {
                if k == w {
                    assert(cs[i].0 == w);
                } else {
                    let b = choose|b: int| 0 <= b < old_seq.len() && #[trigger] old_seq[b].0 == k;
                    assert(cs[b].0 == k);
                }
            }
        }
        assert(self.changes_map() =~= old_map.insert(w, v));
    }

    proof fn lemma_inserted(&self, old_seq: Seq<(Seq<char>, u64)>, old_map: Map<Seq<char>, u64>, i: int, w: Seq<char>, v: u64)
        requires
            fst_sound(self.map),
            0 <= i <= old_seq.len(),
            self.change_seq() == old_seq.insert(i, (w, v)),
            forall|a: int, b: int| 0 <= a < b < old_seq.len() ==> bytes_less(encode_utf8(#[trigger] old_seq[a].0), encode_utf8(#[trigger] old_seq[b].0)),
            forall|j: int| 0 <= j < i ==> bytes_less(encode_utf8(#[trigger] old_seq[j].0), encode_utf8(w)),
            forall|j: int| i <= j < old_seq.len() ==> bytes_less(encode_utf8(w), encode_utf8(#[trigger] old_seq[j].0)),
            old_map == Map::new(
                |k: Seq<char>| exists|a: int| 0 <= a < old_seq.len() && #[trigger] old_seq[a].0 == k,
                |k: Seq<char>| old_seq[choose|a: int| 0 <= a < old_seq.len() && #[trigger] old_seq[a].0 == k].1,
            ),
        ensures
            self.wf(),
            self.changes_map() == old_map.insert(w, v),
    {
        let cs = self.change_seq();
        assert forall|a: int, b: int| 0 <= a < b < cs.len() implies bytes_less(encode_utf8(#[trigger] cs[a].0), encode_utf8(#[trigger] cs[b].0)) by {
            if b < i {
                assert(cs[a] == old_seq[a] && cs[b] == old_seq[b]);
            } else if b == i {
                assert(cs[a] == old_seq[a]);
            } else if a < i {
                assert(cs[a] == old_seq[a] && cs[b] == old_seq[b - 1]);
                lemma_bytes_less_trans(encode_utf8(cs[a].0), encode_utf8(w), encode_utf8(cs[b].0));
            } else if a == i {
                assert(cs[b] == old_seq[b - 1]);
            } else {
                assert(cs[a] == old_seq[a - 1] && cs[b] == old_seq[b - 1]);
            }
        }
        assert forall|k: Seq<char>| #![trigger self.changes_map().contains_key(k)] self.changes_map().contains_key(k) == old_map.insert(w, v).contains_key(k)
            && (self.changes_map().contains_key(k) ==> self.changes_map()[k] == old_map.insert(w, v)[k]) by {
            if self.changes_map().contains_key(k) {
                let a = choose|a: int| 0 <= a < cs.len() && #[trigger] cs[a].0 == k;
                self.lemma_changes_at(a);
                if k != w {
                    let b = if a < i { a } else { a - 1 };
                    assert(old_seq[b].0 == k);
                    assert(old_map.contains_key(k));
                    let c = choose|c: int| 0 <= c < old_seq.len() && #[trigger] old_seq[c].0 == k;
                    if c != b {
                        if c < b {
                            assert(bytes_less(encode_utf8(old_seq[c].0), encode_utf8(old_seq[b].0)));
                        } else {
                            assert(bytes_less(encode_utf8(old_seq[b].0), encode_utf8(old_seq[c].0)));
                        }
                        lemma_bytes_order(encode_utf8(k), encode_utf8(k));
                    }
                    assert(cs[a] == old_seq[b]);
                } else {
                    if a != i {
                        let b = if a < i { a } else { a - 1 };
                        assert(cs[a] == old_seq[b]);
                        lemma_bytes_order(encode_utf8(w), encode_utf8(w));
                    }
                }
            }
            if old_map.insert(w, v).contains_key(k) {
                if k == w {
                    assert(cs[i].0 == w);
                } else {
                    let b = choose|b: int| 0 <= b < old_seq.len() && #[trigger] old_seq[b].0 == k;
                    if b < i {
                        assert(cs[b].0 == k);
                    } else {
                        assert(cs[b + 1].0 == k);
                    }
                }
            }
        }
        assert(self.changes_map() =~= old_map.insert(w, v));
    }
}

/// The packed points a map of stored entries keeps under the bytes of a key.
pub open spec fn stored_lookup(m: Map<Seq<u8>, u64>, key: Seq<char>) -> Option<u64> {
    if m.contains_key(encode_utf8(key)) {
        Some(m[encode_utf8(key)])
    } else {
        None
    }
}

impl Hyphenator {
    /// Whether some word has recorded points not yet saved.
    pub open spec fn has_changes(&self) -> bool {
        self.changes_map().dom() != Set::<Seq<char>>::empty()
    }

    /// Whether some word has recorded points not yet saved (see
    /// `has_changes`).
    pub fn changed(&self) -> (r: bool)
        ensures
            r == self.has_changes(),
    {
        if self.changes.len() == 0 {
            assert(self.changes_map().dom() =~= Set::<Seq<char>>::empty());
            false
        } else {
            assert(self.changes_map().dom().contains(self.change_seq()[0].0));
            true
        }
    }

    /// Every stored key is the UTF-8 encoding of a text.
    pub open spec fn stored_is_text(&self) -> bool {
        forall|k: Seq<u8>| #[trigger] self.stored().contains_key(k) ==> vstd::utf8::valid_utf8(k)
    }

    /// The bytes are those of a map that keeps, for every text key, what
    /// this hyphenator keeps under it, and holds no key that is not text.
    pub open spec fn saved_as(&self, bytes: Seq<u8>) -> bool {
        &&& forall|key: Seq<char>| #[trigger] stored_lookup(fst_decoded(bytes), key) == self.lookup(key)
        &&& forall|k: Seq<u8>| #[trigger] fst_decoded(bytes).contains_key(k) ==> vstd::utf8::valid_utf8(k)
    }

    /// This hyphenator was read from the bytes: it stores what they encode
    /// and has no changes.
    pub open spec fn read_from(&self, bytes: Seq<u8>) -> bool {
        &&& self.stored() == fst_decoded(bytes)
        &&& self.changes_map() == Map::<Seq<char>, u64>::empty()
    }

    /// Whether every stored key is text (see `stored_is_text`), which
    /// `save_bytes` asks for.
    pub fn keys_are_text(&self) -> (r: bool)
        requires
            self.wf(),
        ensures
            r == self.stored_is_text(),
    {
        let entries = fst_entries(&self.map);
        let mut i: usize = 0;
        while i < entries.len()
            invariant
                0 <= i <= entries@.len(),
                forall|j: int| 0 <= j < entries@.len() ==> self.stored().contains_key(#[trigger] entry_view(entries@)[j].0)
                    && self.stored()[entry_view(entries@)[j].0] == entry_view(entries@)[j].1,
                forall|k: Seq<u8>| #[trigger] self.stored().contains_key(k) ==> has_key(entry_view(entries@), k),
                forall|j: int| 0 <= j < i ==> vstd::utf8::valid_utf8(#[trigger] entry_view(entries@)[j].0),
            decreases entries@.len() - i,
        {
            assert(entry_view(entries@)[i as int].0 == entries@[i as int].0@);
            if !utf8_ok(entries[i].0.as_slice()) {
                assert(self.stored().contains_key(entry_view(entries@)[i as int].0));
                return false;
            }
            i = i + 1;
        }
        proof {
            assert forall|k: Seq<u8>| #[trigger] self.stored().contains_key(k) implies vstd::utf8::valid_utf8(k) by {
                let j = choose|j: int| 0 <= j < entry_view(entries@).len() && #[trigger] entry_view(entries@)[j].0 == k;
            }
        }
        true
    }

    /// The points recorded for a word, looked up in lower case: a change
    /// first, then what is stored.
    pub fn get(&self, word: &str) -> (r: Option<Hyphens>)
        requires
            self.wf(),
        ensures
            match r {
                Some(h) => self.hyphens_of(word@) == Some(h.packed()),
                None => self.hyphens_of(word@) is None,
            },
    {
        let lower = to_lower(word);
        let key = lower.as_str().as_bytes();
        let ghost l = lower@;
        match self.find_change(key) {
            Ok(i) => {
                proof {
                    lemma_encode_injective(self.change_seq()[i as int].0, l);
                    self.lemma_changes_at(i as int);
                }
                Some(self.changes[i].1)
            },
            Err(i) => {
                proof {
                    if self.changes_map().contains_key(l) {
                        let j = choose|j: int| 0 <= j < self.change_seq().len() && #[trigger] self.change_seq()[j].0 == l;
                        lemma_bytes_order(encode_utf8(l), encode_utf8(l));
                    }
                }
                match fst_get(&self.map, key) {
                    Some(v) => Some(Hyphens { data: v }),
                    None => None,
                }
            },
        }
    }

    /// A hyphenator over the map the bytes encode, with no changes; an
    /// `Fst` error where the `fst` crate does not read the bytes as a map.
    /// It can be read from (it is well-formed) exactly where the bytes are a
    /// valid FST, as those that `save_bytes` gives are.
    pub fn load(data: Vec<u8>) -> (r: Result<Hyphenator, HyphenError>)
        ensures
            r is Ok <==> fst_readable(data@),
            fst_valid(data@) ==> r is Ok,
            r matches Ok(h) ==> h.read_from(data@),
            r matches Ok(h) ==> (h.wf() <==> fst_valid(data@)),
            r matches Err(e) ==> e is Fst,
    {
        let ghost d = data@;
        match fst_open(data) {
            Ok(map) => {
                let h = Hyphenator { map, changes: Vec::new() };
                assert(h.changes_map() =~= Map::<Seq<char>, u64>::empty());
                Ok(h)
            },
            Err(_) => Err(HyphenError::Fst),
        }
    }

    /// A hyphenator that knows no word.
    pub fn empty() -> (r: Hyphenator)
        ensures
            r.wf(),
            r.stored() == Map::<Seq<u8>, u64>::empty(),
            r.changes_map() == Map::<Seq<char>, u64>::empty(),
    {
        let h = Hyphenator { map: fst_empty(), changes: Vec::new() };
        assert(h.changes_map() =~= Map::<Seq<char>, u64>::empty());
        assert(h.stored() =~= Map::<Seq<u8>, u64>::empty());
        h
    }

    /// The changes as entries keyed by the bytes of their words.
    fn change_entries(&self) -> (r: Vec<(Vec<u8>, u64)>)
        requires
            self.wf(),
        ensures
            r@.len() == self.change_seq().len(),
            forall|i: int| 0 <= i < r@.len() ==> #[trigger] entry_view(r@)[i] == (encode_utf8(self.change_seq()[i].0), self.change_seq()[i].1),
            keys_increase(entry_view(r@)),
    {
        let mut out: Vec<(Vec<u8>, u64)> = Vec::new();
        let mut i: usize = 0;
        while i < self.changes.len()
            invariant
                self.wf(),
                0 <= i <= self.change_seq().len(),
                self.change_seq().len() == self.changes@.len(),
                out@.len() == i,
                forall|j: int| 0 <= j < i ==> #[trigger] entry_view(out@)[j] == (encode_utf8(self.change_seq()[j].0), self.change_seq()[j].1),
            decreases self.changes@.len() - i,
        {
            let e = &self.changes[i];
            let key = e.0.as_str().as_bytes_vec();
            let ghost before = out@;
            out.push((key, e.1.data));
            proof {
                assert(self.change_seq()[i as int] == (e.0@, e.1.packed()));
                assert(key@ == encode_utf8(e.0@));
                assert(entry_view(out@)[i as int] == (key@, e.1.data));
                assert forall|j: int| 0 <= j < i implies #[trigger] entry_view(out@)[j] == entry_view(before)[j] by {
                    assert(out@[j] == before[j]);
                }
            }
            i = i + 1;
        }
        proof {
            let v = entry_view(out@);
            assert forall|a: int, b: int| 0 <= a < b < v.len() implies bytes_less(#[trigger] v[a].0, #[trigger] v[b].0) by {
                assert(v[a].0 == encode_utf8(self.change_seq()[a].0));
                assert(v[b].0 == encode_utf8(self.change_seq()[b].0));
            }
        }
        out
    }

    /// The bytes of the map to save: the stored entries merged with the
    /// changes (a change wins); nothing where there are no changes.
    pub fn save_bytes(&self) -> (r: Option<Result<Vec<u8>, HyphenError>>)
        requires
            self.wf(),
            self.has_changes() ==> self.stored_is_text(),
        ensures
            r is None <==> !self.has_changes(),
            r is Some ==> (r matches Some(Ok(bytes)) && self.saved_as(bytes@) && fst_valid(bytes@)),
    {
        if self.changes.len() == 0 {
            assert(self.changes_map().dom() =~= Set::<Seq<char>>::empty());
            return None;
        }
        assert(self.changes_map().dom().contains(self.change_seq()[0].0));
        proof {
            self.lemma_changes_at(0);
            assert(self.changes_map().dom().contains(self.change_seq()[0].0));
        }
        let stored = fst_entries(&self.map);
        let changed = self.change_entries();
        let merged = merge_sorted(&stored, &changed);
        match fst_build(&merged) {
            Ok(bytes) => {
                proof {
                    self.lemma_saved(entry_view(stored@), entry_view(changed@), entry_view(merged@), bytes@);
                }
                Some(Ok(bytes))
            },
            Err(_) => Some(Err(HyphenError::Fst)),
        }
    }

    proof fn lemma_saved(&self, va: Seq<(Seq<u8>, u64)>, vb: Seq<(Seq<u8>, u64)>, vr: Seq<(Seq<u8>, u64)>, bytes: Seq<u8>)
        requires
            self.wf(),
            self.stored_is_text(),
            forall|i: int| 0 <= i < va.len() ==> self.stored().contains_key(#[trigger] va[i].0) && self.stored()[va[i].0] == va[i].1,
            forall|k: Seq<u8>| #[trigger] self.stored().contains_key(k) ==> has_key(va, k),
            vb.len() == self.change_seq().len(),
            forall|i: int| 0 <= i < vb.len() ==> #[trigger] vb[i] == (encode_utf8(self.change_seq()[i].0), self.change_seq()[i].1),
            keys_increase(vr),
            forall|x: int| 0 <= x < vr.len() ==> has_entry(vb, #[trigger] vr[x]) || (has_entry(va, vr[x]) && !has_key(vb, vr[x].0)),
            forall|y: int| 0 <= y < vb.len() ==> has_entry(vr, #[trigger] vb[y]),
            forall|y: int| 0 <= y < va.len() && !has_key(vb, #[trigger] va[y].0) ==> has_entry(vr, va[y]),
            fst_decoded(bytes) == entry_map(vr),
        ensures
            self.saved_as(bytes),
    {
        lemma_entry_map(vr);
        let m = fst_decoded(bytes);
        assert forall|key: Seq<char>| #[trigger] stored_lookup(m, key) == self.lookup(key) by {
            let k = encode_utf8(key);
            if self.changes_map().contains_key(key) {
                let c = choose|c: int| 0 <= c < self.change_seq().len() && #[trigger] self.change_seq()[c].0 == key;
                self.lemma_changes_at(c);
                assert(vb[c] == (k, self.change_seq()[c].1));
                let x = choose|x: int| 0 <= x < vr.len() && #[trigger] vr[x] == vb[c];
                assert(m.contains_key(vr[x].0));
            } else {
                assert(!has_key(vb, k)) by {
                    if has_key(vb, k) {
                        let z = choose|z: int| 0 <= z < vb.len() && #[trigger] vb[z].0 == k;
                        lemma_encode_injective(self.change_seq()[z].0, key);
                        assert(self.changes_map().contains_key(key));
                    }
                }
                if self.stored().contains_key(k) {
                    let y = choose|y: int| 0 <= y < va.len() && #[trigger] va[y].0 == k;
                    let x = choose|x: int| 0 <= x < vr.len() && #[trigger] vr[x] == va[y];
                    assert(m.contains_key(vr[x].0));
                } else {
                    if m.contains_key(k) {
                        let x = choose|x: int| 0 <= x < vr.len() && #[trigger] vr[x].0 == k;
                        if has_entry(vb, vr[x]) {
                            let z = choose|z: int| 0 <= z < vb.len() && #[trigger] vb[z] == vr[x];
                            assert(vb[z].0 == k);
                        } else {
                            let y = choose|y: int| 0 <= y < va.len() && #[trigger] va[y] == vr[x];
                            assert(self.stored().contains_key(va[y].0));
                        }
                    }
                }
            }
        }
        assert forall|k: Seq<u8>| #[trigger] m.contains_key(k) implies vstd::utf8::valid_utf8(k) by {
            let x = choose|x: int| 0 <= x < vr.len() && #[trigger] vr[x].0 == k;
            if has_entry(vb, vr[x]) {
                let z = choose|z: int| 0 <= z < vb.len() && #[trigger] vb[z] == vr[x];
                vstd::utf8::encode_utf8_valid_utf8(self.change_seq()[z].0);
            } else {
                let y = choose|y: int| 0 <= y < va.len() && #[trigger] va[y] == vr[x];
                assert(self.stored().contains_key(va[y].0));
            }
        }
    }
}

/// A hyphenator read back from the bytes that `save_bytes` gave keeps what
/// the one saved kept, under every key, and so hyphenates every word alike.
/// (`save_bytes` gives bytes wherever there are changes, and they are a
/// valid FST, which `load` reads into a well-formed hyphenator.)
pub proof fn lemma_save_then_load(h: Hyphenator, bytes: Seq<u8>, loaded: Hyphenator)
    requires
        h.saved_as(bytes),
        loaded.read_from(bytes),
    ensures
        forall|key: Seq<char>| #[trigger] loaded.lookup(key) == h.lookup(key),
        forall|word: Seq<char>| #[trigger] loaded.hyphens_of(word) == h.hyphens_of(word),
{
    assert forall|key: Seq<char>| #[trigger] loaded.lookup(key) == h.lookup(key) by {
        assert(stored_lookup(fst_decoded(bytes), key) == h.lookup(key));
        assert(!loaded.changes_map().contains_key(key));
    }
    assert forall|word: Seq<char>| #[trigger] loaded.hyphens_of(word) == h.hyphens_of(word) by {
        assert(loaded.lookup(lowercase(word)) == h.lookup(lowercase(word)));
    }
}

/// After the points of a word are recorded, every word whose lower-case
/// form is that word has those points.
pub proof fn lemma_add_then_get(before: Hyphenator, after: Hyphenator, word: Seq<char>, packed: u64, query: Seq<char>)
    requires
        after.changes_map() == before.changes_map().insert(word, packed),
        lowercase(query) == word,
    ensures
        after.hyphens_of(query) == Some(packed),
{
    assert(after.changes_map().contains_key(word));
}

/// The word of a line of a hyphen list and its points, packed: each `|`
/// marks a point after the letters before it; the points come in the order
/// of the line, the last one in the lowest byte.
pub open spec fn parse_line(line: Seq<char>) -> (Seq<char>, int)
    decreases line.len(),
{
    if line.len() == 0 {
        (Seq::empty(), 0)
    } else {
        let prev = parse_line(line.drop_last());
        if line.last() == '|' {
            (prev.0, prev.1 * 256 + prev.0.len())
        } else {
            (prev.0.push(line.last()), prev.1)
        }
    }
}

/// Whether the points of a line fit: each `|` stands after fewer than 256
/// letters, and the points before it fill fewer than seven bytes.
pub open spec fn line_fits(line: Seq<char>) -> bool
    decreases line.len(),
{
    line.len() == 0 || (line_fits(line.drop_last()) && (line.last() == '|' ==> parse_line(line.drop_last()).0.len()
        < 256 && parse_line(line.drop_last()).1 < 0x100_0000_0000_0000))
}

proof fn lemma_parse_range(line: Seq<char>)
    requires
        line_fits(line),
    ensures
        0 <= parse_line(line).1 <= u64::MAX,
    decreases line.len(),
{
    if line.len() > 0 {
        lemma_parse_range(line.drop_last());
    }
}

/// The word of a line of a hyphen list and its points (see `parse_line`).
pub fn parse_hyphen_line(line: &str) -> (r: (String, Hyphens))
    requires
        line_fits(line@),
    ensures
        r.0@ == parse_line(line@).0,
        r.1.packed() == parse_line(line@).1,
{
    let n = line.unicode_len();
    let mut word = String::new();
    let mut hyphens = Hyphens::default();
    let mut off: usize = 0;
    let mut pos: usize = 0;
    while pos < n
        invariant
            n == line@.len(),
            0 <= pos <= n,
            line_fits(line@),
            (word@, hyphens.packed() as int) == parse_line(line@.take(pos as int)),
            off + word@.len() == pos,
        decreases n - pos,
    {
        let ghost pre = line@.take(pos as int);
        proof {
            assert(line@.take(pos + 1).drop_last() =~= pre);
            assert(line@.take(pos + 1).last() == line@[pos as int]);
            lemma_fits_prefix(line@, pos + 1);
            lemma_parse_range(pre);
        }
        let c = line.get_char(pos);
        if c == '|' {
            hyphens.shl_assign(Hyphen::at(pos - off));
            off = off + 1;
        } else {
            let piece = line.substring_char(pos, pos + 1);
            proof {
                assert(piece@ =~= seq![c]);
            }
            word.append(piece);
        }
        pos = pos + 1;
    }
    proof {
        assert(line@.take(n as int) =~= line@);
    }
    (word, hyphens)
}

/// Whether the points of a line fit (see `line_fits`), which
/// `parse_hyphen_line` asks for.
pub fn hyphen_line_fits(line: &str) -> (r: bool)
    ensures
        r == line_fits(line@),
{
    let n = line.unicode_len();
    let mut letters: usize = 0;
    let mut data: u64 = 0;
    let mut pos: usize = 0;
    while pos < n
        invariant
            n == line@.len(),
            0 <= pos <= n,
            line_fits(line@.take(pos as int)),
            (letters as int, data as int) == (parse_line(line@.take(pos as int)).0.len() as int, parse_line(line@.take(pos as int)).1),
            letters <= pos,
        decreases n - pos,
    {
        let ghost pre = line@.take(pos as int);
        proof {
            assert(line@.take(pos + 1).drop_last() =~= pre);
            assert(line@.take(pos + 1).last() == line@[pos as int]);
        }
        let c = line.get_char(pos);
        if c == '|' {
            if letters >= 256 || data >= 0x100_0000_0000_0000 {
                proof {
                    if line_fits(line@) {
                        lemma_fits_prefix(line@, pos + 1);
                    }
                }
                return false;
            }
            data = data * 256 + letters as u64;
        } else {
            letters = letters + 1;
        }
        pos = pos + 1;
    }
    proof {
        assert(line@.take(n as int) =~= line@);
    }
    true
}

/// A prefix of a line that fits fits too.
proof fn lemma_fits_prefix(line: Seq<char>, k: int)
    requires
        line_fits(line),
        0 <= k <= line.len(),
    ensures
        line_fits(line.take(k)),
    decreases line.len() - k,
{
    if k < line.len() {
        lemma_fits_prefix(line, k + 1);
        assert(line.take(k + 1).drop_last() =~= line.take(k));
    } else {
        assert(line.take(k) =~= line);
    }
}

/// The changes after the words and points of the lines were recorded in
/// turn.
pub open spec fn lines_added(m: Map<Seq<char>, u64>, lines: Seq<Seq<char>>) -> Map<Seq<char>, u64>
    decreases lines.len(),
{
    if lines.len() == 0 {
        m
    } else {
        let p = parse_line(lines.last());
        lines_added(m, lines.drop_last()).insert(p.0, p.1 as u64)
    }
}

impl Hyphenator {
    /// Records the words and points of the lines of a hyphen list.
    pub fn add_hyphen_list(&mut self, lines: &Vec<String>)
        requires
            old(self).wf(),
            forall|i: int| 0 <= i < lines@.len() ==> line_fits(#[trigger] lines@[i]@),
        ensures
            final(self).wf(),
            final(self).stored() == old(self).stored(),
            final(self).changes_map() == lines_added(
                old(self).changes_map(),
                lines@.map_values(|l: String| l@),
            ),
    {
        let ghost ls = lines@.map_values(|l: String| l@);
        let ghost m0 = self.changes_map();
        let ghost s0 = self.stored();
        let mut i: usize = 0;
        proof {
            assert(ls.take(0) =~= Seq::<Seq<char>>::empty());
        }
        while i < lines.len()
            invariant
                ls == lines@.map_values(|l: String| l@),
                0 <= i <= lines@.len(),
                forall|j: int| 0 <= j < lines@.len() ==> line_fits(#[trigger] lines@[j]@),
                self.wf(),
                self.stored() == s0,
                self.changes_map() == lines_added(m0, ls.take(i as int)),
            decreases lines@.len() - i,
        {
            let (word, hyphens) = parse_hyphen_line(lines[i].as_str());
            proof {
                assert(ls[i as int] == lines@[i as int]@);
                lemma_parse_range(ls[i as int]);
                assert(ls.take(i + 1).drop_last() =~= ls.take(i as int));
                assert(ls.take(i + 1).last() == ls[i as int]);
            }
            self.add(word, hyphens);
            i = i + 1;
        }
        proof {
            assert(ls.take(lines@.len() as int) =~= ls);
        }
    }
}

/// The word of a line of a hyphen list is the line without its `|` marks.
pub proof fn lemma_parse_word(line: Seq<char>)
    ensures
        parse_line(line).0 == line.filter(|c: char| c != '|'),
    decreases line.len(),
{
    if line.len() > 0 {
        lemma_parse_word(line.drop_last());
        line.drop_last().lemma_filter_push(line.last(), |c: char| c != '|');
        assert(line.drop_last().push(line.last()) =~= line);
    }
}

} // verus!
