//! The value universe: plain-value models of every shape the codec
//! supports, each with a mathematical view and a well-formedness
//! predicate giving the machine bounds the codec needs.

use vstd::prelude::*;

verus! {

/// Variable-length byte payloads carry a four-byte length prefix, so a
/// well-formed payload is shorter than 2^32.
pub open spec fn len_bounded(b: Seq<u8>) -> bool {
    b.len() < 0x1_0000_0000
}

/// An opaque principal value: the subject of authorization and an
/// ordinary key/value payload. Its view is its identity bytes.
#[derive(Clone, Debug)]
pub struct Address {
    pub bytes: Vec<u8>,
}

impl View for Address {
    type V = Seq<u8>;

    open spec fn view(&self) -> Seq<u8> {
        self.bytes@
    }
}

/// A variable-length text string, carried as its bytes.
#[derive(Clone, Debug)]
pub struct Text {
    pub bytes: Vec<u8>,
}

impl View for Text {
    type V = Seq<u8>;

    open spec fn view(&self) -> Seq<u8> {
        self.bytes@
    }
}

/// A short symbolic token of at most 32 bytes.
#[derive(Clone, Debug)]
pub struct Symbol {
    pub bytes: Vec<u8>,
}

impl View for Symbol {
    type V = Seq<u8>;

    open spec fn view(&self) -> Seq<u8> {
        self.bytes@
    }
}

pub open spec fn symbol_wf(s: Seq<u8>) -> bool {
    s.len() <= 32
}

/// A fixed-length byte string of exactly 32 bytes, a distinct shape
/// from the variable-length one.
#[derive(Clone, Debug)]
pub struct Bytes32 {
    pub bytes: Vec<u8>,
}

impl View for Bytes32 {
    type V = Seq<u8>;

    open spec fn view(&self) -> Seq<u8> {
        self.bytes@
    }
}

pub open spec fn bytes32_wf(b: Seq<u8>) -> bool {
    b.len() == 32
}

/// A relative time quantity, an unsigned 64-bit magnitude.
#[derive(Clone, Copy, Debug, PartialEq, Eq, Structural)]
pub struct Duration {
    pub secs: u64,
}

/// An absolute point in time, an unsigned 64-bit magnitude; not
/// interchangeable with `Duration` at the type level.
#[derive(Clone, Copy, Debug, PartialEq, Eq, Structural)]
pub struct Timepoint {
    pub secs: u64,
}

/// An unsigned 256-bit value, as four 64-bit words, most significant first.
#[derive(Clone, Copy, Debug, PartialEq, Eq, Structural)]
pub struct U256 {
    pub w0: u64,
    pub w1: u64,
    pub w2: u64,
    pub w3: u64,
}

/// A signed 256-bit value, as the four 64-bit words of its two's
/// complement image, most significant first.
#[derive(Clone, Copy, Debug, PartialEq, Eq, Structural)]
pub struct I256 {
    pub w0: u64,
    pub w1: u64,
    pub w2: u64,
    pub w3: u64,
}

/// A value of the supported universe whose shape is not statically
/// known, carried opaquely as its encoding.
#[derive(Clone, Debug)]
pub struct Val {
    pub encoded: Vec<u8>,
}

impl View for Val {
    type V = Seq<u8>;

    open spec fn view(&self) -> Seq<u8> {
        self.encoded@
    }
}

/// An ordered mapping from text to unsigned 32-bit integers. Entries
/// are kept strictly sorted by key in lexicographic byte order, so the
/// representation is canonical: two maps with the same entries are the
/// same value and encode identically.
#[derive(Clone, Debug)]
pub struct TextMap {
    entries: Vec<(Text, u32)>,
}

/// Strict lexicographic order on byte strings: a proper prefix comes
/// first, otherwise the first differing byte decides.
pub open spec fn lex_lt(a: Seq<u8>, b: Seq<u8>) -> bool
    decreases a.len(),
{
    if b.len() == 0 {
        false
    } else if a.len() == 0 {
        true
    } else if a[0] < b[0] {
        true
    } else if a[0] > b[0] {
        false
    } else {
        lex_lt(a.skip(1), b.skip(1))
    }
}

/// The order is trichotomous: of two distinct byte strings one comes
/// strictly first.
pub proof fn lemma_lex_trichotomy(a: Seq<u8>, b: Seq<u8>)
    ensures
        lex_lt(a, b) || lex_lt(b, a) || a == b,
        lex_lt(a, b) ==> !lex_lt(b, a) && a != b,
    decreases a.len(),
{
    if a.len() == 0 || b.len() == 0 {
        if a.len() == 0 && b.len() == 0 {
            assert(a =~= b);
        }
    } else if a[0] == b[0] {
        lemma_lex_trichotomy(a.skip(1), b.skip(1));
        if a.skip(1) == b.skip(1) {
            assert forall|j: int| 0 <= j < a.len() implies a[j] == b[j] by {
                if j > 0 {
                    assert(a.skip(1)[j - 1] == a[j]);
                    assert(b.skip(1)[j - 1] == b[j]);
                }
            }
            assert(a =~= b);
        }
        if a == b {
            assert(a.skip(1) =~= b.skip(1));
        }
    }
}

/// The view an entry list stands for.
pub open spec fn entries_view(s: Seq<(Text, u32)>) -> Seq<(Seq<u8>, u32)> {
    s.map_values(|e: (Text, u32)| (e.0@, e.1))
}

impl View for TextMap {
    type V = Seq<(Seq<u8>, u32)>;

    closed spec fn view(&self) -> Seq<(Seq<u8>, u32)> {
        entries_view(self.entries@)
    }
}

impl TextMap {
    /// Wraps an entry list already in canonical order.
    pub(crate) fn from_sorted(entries: Vec<(Text, u32)>) -> (m: TextMap)
        requires
            map_wf(entries_view(entries@)),
        ensures
            m@ == entries_view(entries@),
    {
        TextMap { entries }
    }
}

/// True when the entry list is strictly ascending by key.
pub(crate) fn check_sorted(entries: &Vec<(Text, u32)>) -> (r: bool)
    ensures
        r == map_entries_sorted(entries_view(entries@)),
{
    let ghost m = entries_view(entries@);
    let n = entries.len();
    if n == 0 {
        return true;
    }
    let mut k: usize = 0;
    while k < n - 1
        invariant
            n == m.len(),
            n >= 1,
            k <= n - 1,
            forall|t: int| 0 <= t && t + 1 <= k ==> lex_lt(#[trigger] m[t].0, m[t + 1].0),
            m == entries_view(entries@),
        decreases n - 1 - k,
    {
        let c = compare_text(&entries[k].0, &entries[k + 1].0);
        if c >= 0 {
            proof {
                lemma_lex_trichotomy(m[k as int].0, m[k as int + 1].0);
            }
            return false;
        }
        k = k + 1;
    }
    proof {
        lemma_adjacent_sorted(m);
    }
    true
}

/// In a chain ordered link by link, every earlier key comes before
/// every later one.
proof fn lemma_lex_chain(m: Seq<(Seq<u8>, u32)>, i: int, j: int)
    requires
        forall|k: int| 0 <= k && k + 1 < m.len() ==> lex_lt(#[trigger] m[k].0, m[k + 1].0),
        0 <= i < j < m.len(),
    ensures
        lex_lt(m[i].0, m[j].0),
    decreases j - i,
{
    if j == i + 1 {
        assert(lex_lt(m[i].0, m[i + 1].0));
    } else {
        lemma_lex_chain(m, i, j - 1);
        assert(lex_lt(m[j - 1].0, m[j].0));
        lemma_lex_trans(m[i].0, m[j - 1].0, m[j].0);
    }
}

/// A list whose adjacent keys are in order is sorted throughout.
pub proof fn lemma_adjacent_sorted(m: Seq<(Seq<u8>, u32)>)
    requires
        forall|k: int| 0 <= k && k + 1 < m.len() ==> lex_lt(#[trigger] m[k].0, m[k + 1].0),
    ensures
        map_entries_sorted(m),
{
    assert forall|i: int, j: int| 0 <= i < j < m.len() implies lex_lt(m[i].0, m[j].0) by {
        lemma_lex_chain(m, i, j);
    }
}

/// The entry list is strictly ascending by key, so keys are unique and
/// the representation of a map is canonical.
pub open spec fn map_entries_sorted(m: Seq<(Seq<u8>, u32)>) -> bool {
    forall|i: int, j: int| 0 <= i < j < m.len() ==> lex_lt(#[trigger] m[i].0, #[trigger] m[j].0)
}

pub open spec fn map_wf(m: Seq<(Seq<u8>, u32)>) -> bool {
    &&& map_entries_sorted(m)
    &&& m.len() < 0x1_0000_0000
    &&& forall|i: int| 0 <= i < m.len() ==> len_bounded(#[trigger] m[i].0)
}

/// The mapping a sorted entry list stands for.
pub open spec fn map_view(m: Seq<(Seq<u8>, u32)>) -> Map<Seq<u8>, u32>
    decreases m.len(),
{
    if m.len() == 0 {
        Map::empty()
    } else {
        map_view(m.drop_last()).insert(m.last().0, m.last().1)
    }
}

/// A key is in the mapping exactly when some entry holds it.
proof fn lemma_map_view_keys(m: Seq<(Seq<u8>, u32)>)
    ensures
        forall|k: Seq<u8>|
            map_view(m).contains_key(k) <==> exists|i: int| 0 <= i < m.len() && m[i].0 == k,
    decreases m.len(),
{
    if m.len() > 0 {
        lemma_map_view_keys(m.drop_last());
        assert forall|k: Seq<u8>| map_view(m).contains_key(k) implies exists|i: int|
            0 <= i < m.len() && m[i].0 == k by {
            if k == m.last().0 {
                assert(m[m.len() - 1].0 == k);
            } else {
                assert(map_view(m.drop_last()).contains_key(k));
                let i = choose|i: int| 0 <= i < m.drop_last().len() && m.drop_last()[i].0 == k;
                assert(m.drop_last()[i] == m[i]);
                assert(m[i].0 == k);
            }
        }
        assert forall|k: Seq<u8>|
            (exists|i: int| 0 <= i < m.len() && m[i].0 == k) implies map_view(m).contains_key(
            k,
        ) by {
            let i = choose|i: int| 0 <= i < m.len() && m[i].0 == k;
            if i < m.len() - 1 {
                assert(m.drop_last()[i].0 == k);
                assert(map_view(m.drop_last()).contains_key(k));
            }
        }
    }
}

/// The canonical representation is unique: two well-formed entry
/// lists that stand for the same mapping are the same list, so equal
/// maps always encode identically.
pub proof fn lemma_canonical_representation(m1: Seq<(Seq<u8>, u32)>, m2: Seq<(Seq<u8>, u32)>)
    requires
        map_entries_sorted(m1),
        map_entries_sorted(m2),
        map_view(m1) == map_view(m2),
    ensures
        m1 == m2,
    decreases m1.len(),
{
    lemma_map_view_keys(m1);
    lemma_map_view_keys(m2);
    if m1.len() == 0 {
        if m2.len() > 0 {
            assert(m2[m2.len() - 1].0 == m2.last().0);
            assert(map_view(m2).contains_key(m2.last().0));
        }
        assert(m1 =~= m2);
    } else if m2.len() == 0 {
        assert(m1[m1.len() - 1].0 == m1.last().0);
        assert(map_view(m1).contains_key(m1.last().0));
        assert(m1 =~= m2);
    } else {
        let k1 = m1.last().0;
        let k2 = m2.last().0;
        assert(m1[m1.len() - 1].0 == k1);
        assert(map_view(m2).contains_key(k1));
        let j1 = choose|j: int| 0 <= j < m2.len() && m2[j].0 == k1;
        if j1 < m2.len() - 1 {
            assert(lex_lt(m2[j1].0, k2));
        }
        assert(m2[m2.len() - 1].0 == k2);
        assert(map_view(m1).contains_key(k2));
        let j2 = choose|j: int| 0 <= j < m1.len() && m1[j].0 == k2;
        if j2 < m1.len() - 1 {
            assert(lex_lt(m1[j2].0, k1));
        }
        lemma_lex_trichotomy(k1, k2);
        assert(k1 == k2);
        lemma_last_key_fresh(m1);
        lemma_last_key_fresh(m2);
        assert(map_view(m1)[k1] == m1.last().1);
        assert(map_view(m2)[k1] == m2.last().1);
        assert(map_view(m1.drop_last()) =~= map_view(m1).remove(k1));
        assert(map_view(m2.drop_last()) =~= map_view(m2).remove(k1));
        lemma_canonical_representation(m1.drop_last(), m2.drop_last());
        assert(m1.last().1 == m2.last().1);
        assert(m1.last() =~= m2.last());
        assert(m1.len() == m2.len());
        assert forall|t: int| 0 <= t < m1.len() implies m1[t] == m2[t] by {
            if t < m1.len() - 1 {
                assert(m1.drop_last()[t] == m2.drop_last()[t]);
            }
        }
        assert(m1 =~= m2);
    }
}

/// In a sorted list the last key occurs nowhere earlier.
proof fn lemma_last_key_fresh(m: Seq<(Seq<u8>, u32)>)
    requires
        map_entries_sorted(m),
        m.len() > 0,
    ensures
        !map_view(m.drop_last()).contains_key(m.last().0),
{
    lemma_map_view_keys(m.drop_last());
    if map_view(m.drop_last()).contains_key(m.last().0) {
        let i = choose|i: int|
            0 <= i < m.drop_last().len() && m.drop_last()[i].0 == m.last().0;
        assert(lex_lt(m[i].0, m[m.len() - 1].0));
        lemma_lex_trichotomy(m[i].0, m.last().0);
    }
}

/// A record: the data value the store's `Data` key owns.
#[derive(Clone, Debug)]
pub struct Data {
    pub admin: Address,
    pub counter: u32,
    pub message: Text,
}

/// The mathematical image of a `Data` record.
#[verifier::ext_equal]
pub struct DataV {
    pub admin: Seq<u8>,
    pub counter: u32,
    pub message: Seq<u8>,
}

impl View for Data {
    type V = DataV;

    open spec fn view(&self) -> DataV {
        DataV { admin: self.admin@, counter: self.counter, message: self.message@ }
    }
}

pub open spec fn data_wf(d: DataV) -> bool {
    &&& len_bounded(d.admin)
    &&& len_bounded(d.message)
}

/// A composite covering every supported primitive and composite shape.
#[derive(Clone, Debug)]
pub struct ComplexData {
    pub admin: Address,
    pub data: Data,
    pub bytes: Vec<u8>,
    pub bytes_n: Bytes32,
    pub duration: Duration,
    pub timepoint: Timepoint,
    pub map: TextMap,
    pub vec: Vec<u32>,
    pub symbol: Symbol,
}

/// The mathematical image of a `ComplexData` value.
#[verifier::ext_equal]
pub struct ComplexDataV {
    pub admin: Seq<u8>,
    pub data: DataV,
    pub bytes: Seq<u8>,
    pub bytes_n: Seq<u8>,
    pub duration: u64,
    pub timepoint: u64,
    pub map: Seq<(Seq<u8>, u32)>,
    pub vec: Seq<u32>,
    pub symbol: Seq<u8>,
}

impl View for ComplexData {
    type V = ComplexDataV;

    open spec fn view(&self) -> ComplexDataV {
        ComplexDataV {
            admin: self.admin@,
            data: self.data@,
            bytes: self.bytes@,
            bytes_n: self.bytes_n@,
            duration: self.duration.secs,
            timepoint: self.timepoint.secs,
            map: self.map@,
            vec: self.vec@,
            symbol: self.symbol@,
        }
    }
}

pub open spec fn complex_wf(c: ComplexDataV) -> bool {
    &&& len_bounded(c.admin)
    &&& data_wf(c.data)
    &&& len_bounded(c.bytes)
    &&& bytes32_wf(c.bytes_n)
    &&& map_wf(c.map)
    &&& c.vec.len() < 0x1_0000_0000
    &&& symbol_wf(c.symbol)
}

/// A composite embedding an identity, a record, and a `ComplexData`
/// value: arbitrary-depth nesting of composites.
#[derive(Clone, Debug)]
pub struct DeepData2 {
    pub admin: Address,
    pub data: Data,
    pub complex: ComplexData,
}

/// The mathematical image of a `DeepData2` value.
#[verifier::ext_equal]
pub struct DeepData2V {
    pub admin: Seq<u8>,
    pub data: DataV,
    pub complex: ComplexDataV,
}

impl View for DeepData2 {
    type V = DeepData2V;

    open spec fn view(&self) -> DeepData2V {
        DeepData2V { admin: self.admin@, data: self.data@, complex: self.complex@ }
    }
}

pub open spec fn deep_wf(d: DeepData2V) -> bool {
    &&& len_bounded(d.admin)
    &&& data_wf(d.data)
    &&& complex_wf(d.complex)
}

/// A composite of two optional fields: presence and absence encoding.
#[derive(Clone, Debug)]
pub struct OptionalData {
    pub maybe_u32: Option<u32>,
    pub maybe_address: Option<Address>,
}

/// The mathematical image of an `OptionalData` value.
#[verifier::ext_equal]
pub struct OptionalDataV {
    pub maybe_u32: Option<u32>,
    pub maybe_address: Option<Seq<u8>>,
}

impl View for OptionalData {
    type V = OptionalDataV;

    open spec fn view(&self) -> OptionalDataV {
        OptionalDataV {
            maybe_u32: self.maybe_u32,
            maybe_address: match self.maybe_address {
                Some(a) => Some(a@),
                None => None,
            },
        }
    }
}

pub open spec fn optional_wf(o: OptionalDataV) -> bool {
    o.maybe_address matches Some(a) ==> len_bounded(a)
}

impl TextMap {
    /// The empty mapping.
    pub fn new() -> (m: TextMap)
        ensures
            m@ == Seq::<(Seq<u8>, u32)>::empty(),
            map_wf(m@),
    {
        let m = TextMap { entries: Vec::new() };
        proof {
            assert(m@ =~= Seq::<(Seq<u8>, u32)>::empty());
        }
        m
    }

    /// The number of entries.
    pub fn len(&self) -> (n: usize)
        ensures
            n == self@.len(),
    {
        self.entries.len()
    }

    /// The entry at position `i`, in canonical (key-sorted) order.
    pub fn entry_at(&self, i: usize) -> (e: (&Text, u32))
        requires
            i < self@.len(),
        ensures
            e.0@ == self@[i as int].0,
            e.1 == self@[i as int].1,
    {
        let e = &self.entries[i];
        (&e.0, e.1)
    }

    /// The value stored under `key`, if any.
    pub fn get(&self, key: &Text) -> (r: Option<u32>)
        ensures
            r == (if map_view(self@).contains_key(key@) {
                Some(map_view(self@)[key@])
            } else {
                Option::<u32>::None
            }),
    {
        let mut i = self.entries.len();
        proof {
            assert(self@.take(i as int) =~= self@);
        }
        while i > 0
            invariant
                i <= self@.len(),
                map_view(self@).contains_key(key@) == map_view(self@.take(i as int)).contains_key(
                    key@,
                ),
                map_view(self@).contains_key(key@) ==> map_view(self@)[key@] == map_view(
                    self@.take(i as int),
                )[key@],
            decreases i,
        {
            proof {
                assert(self@.take(i as int).drop_last() =~= self@.take(i as int - 1));
                assert(self@.take(i as int).last() == self@[i as int - 1]);
            }
            if bytes_eq_text(&self.entries[i - 1].0, key) {
                return Some(self.entries[i - 1].1);
            }
            i = i - 1;
        }
        proof {
            assert(self@.take(0) =~= Seq::<(Seq<u8>, u32)>::empty());
        }
        None
    }

    /// Inserts `key -> value`, replacing any entry with the same key and
    /// keeping the canonical order.
    pub fn insert(&mut self, key: Text, value: u32) -> (replaced: bool)
        requires
            map_wf(old(self)@),
            len_bounded(key@),
            old(self)@.len() < 0xffff_ffff,
        ensures
            map_wf(final(self)@),
            map_view(final(self)@) == map_view(old(self)@).insert(key@, value),
            final(self)@.len() == old(self)@.len() + (if replaced {
                0int
            } else {
                1int
            }),
    {
        let ghost oldv = self@;
        let ghost gk = key@;
        let mut i: usize = 0;
        while i < self.entries.len()
            invariant
                self@ == oldv,
                oldv == old(self)@,
                key@ == gk,
                len_bounded(gk),
                oldv.len() < 0xffff_ffff,
                i <= oldv.len(),
                forall|k: int| 0 <= k < i ==> lex_lt(#[trigger] oldv[k].0, gk),
                map_wf(oldv),
            decreases oldv.len() - i,
        {
            let c = compare_text(&self.entries[i].0, &key);
            if c == 0 {
                proof {
                    lemma_sorted_update(oldv, i as int, gk, value);
                }
                self.entries[i] = (key, value);
                proof {
                    assert(self@ =~= oldv.update(i as int, (gk, value)));
                }
                return true;
            } else if c > 0 {
                proof {
                    lemma_sorted_insert(oldv, i as int, gk, value);
                }
                self.entries.insert(i, (key, value));
                proof {
                    assert(self@ =~= oldv.insert(i as int, (gk, value)));
                    lemma_insert_wf(oldv, i as int, gk, value);
                }
                return false;
            }
            i = i + 1;
        }
        proof {
            lemma_sorted_insert(oldv, oldv.len() as int, gk, value);
        }
        self.entries.push((key, value));
        proof {
            assert(self@ =~= oldv.insert(oldv.len() as int, (gk, value)));
            lemma_insert_wf(oldv, oldv.len() as int, gk, value);
        }
        false
    }
}

/// The bound clauses of well-formedness survive an insertion of a
/// bounded key.
proof fn lemma_insert_wf(m: Seq<(Seq<u8>, u32)>, i: int, key: Seq<u8>, value: u32)
    requires
        map_wf(m),
        len_bounded(key),
        m.len() < 0xffff_ffff,
        0 <= i <= m.len(),
    ensures
        m.insert(i, (key, value)).len() < 0x1_0000_0000,
        forall|k: int|
            0 <= k < m.insert(i, (key, value)).len() ==> len_bounded(
                #[trigger] m.insert(i, (key, value))[k].0,
            ),
{
    let u = m.insert(i, (key, value));
    assert forall|k: int| 0 <= k < u.len() implies len_bounded(u[k].0) by {
        if k < i {
            assert(u[k] == m[k]);
        } else if k == i {
        } else {
            assert(u[k] == m[k - 1]);
        }
    }
}

/// True when the text's bytes equal the key's bytes.
fn bytes_eq_text(a: &Text, b: &Text) -> (r: bool)
    ensures
        r == (a@ == b@),
{
    crate::bytes::bytes_eq(&a.bytes, &b.bytes)
}

/// Strict order is transitive.
pub proof fn lemma_lex_trans(a: Seq<u8>, b: Seq<u8>, c: Seq<u8>)
    requires
        lex_lt(a, b),
        lex_lt(b, c),
    ensures
        lex_lt(a, c),
    decreases a.len(),
{
    if a.len() == 0 {
    } else if a[0] == b[0] && b[0] == c[0] {
        lemma_lex_trans(a.skip(1), b.skip(1), c.skip(1));
    }
}

/// On byte strings that agree on their first `k` bytes, the order is
/// decided past position `k`.
proof fn lemma_lex_skip(a: Seq<u8>, b: Seq<u8>, k: int)
    requires
        0 <= k <= a.len(),
        k <= b.len(),
        forall|j: int| 0 <= j < k ==> a[j] == b[j],
    ensures
        lex_lt(a, b) == lex_lt(a.skip(k), b.skip(k)),
    decreases k,
{
    if k == 0 {
        assert(a.skip(0) =~= a);
        assert(b.skip(0) =~= b);
    } else {
        lemma_lex_skip(a.skip(1), b.skip(1), k - 1);
        assert(a.skip(1).skip(k - 1) =~= a.skip(k));
        assert(b.skip(1).skip(k - 1) =~= b.skip(k));
    }
}

/// Three-way lexicographic comparison: negative when `a` comes first,
/// zero when equal, positive when `b` comes first.
fn compare_text(a: &Text, b: &Text) -> (c: i8)
    ensures
        c < 0 <==> lex_lt(a@, b@),
        c == 0 <==> a@ == b@,
        c > 0 <==> lex_lt(b@, a@),
{
    let mut k: usize = 0;
    let an = a.bytes.len();
    let bn = b.bytes.len();
    while k < an && k < bn
        invariant
            k <= an,
            k <= bn,
            an == a@.len(),
            bn == b@.len(),
            forall|j: int| 0 <= j < k ==> a@[j] == b@[j],
        decreases an - k,
    {
        let x = a.bytes[k];
        let y = b.bytes[k];
        if x != y {
            proof {
                lemma_lex_skip(a@, b@, k as int);
                lemma_lex_skip(b@, a@, k as int);
                assert(a@.skip(k as int)[0] == a@[k as int]);
                assert(b@.skip(k as int)[0] == b@[k as int]);
            }
            if x < y {
                return -1;
            } else {
                return 1;
            }
        }
        k = k + 1;
    }
    proof {
        lemma_lex_skip(a@, b@, k as int);
        lemma_lex_skip(b@, a@, k as int);
        if an == bn {
            assert(a@ =~= b@);
            lemma_lex_trichotomy(a@, b@);
            lemma_lex_trichotomy(b@, a@);
        } else {
            assert(a@ != b@);
        }
    }
    if an == bn {
        0
    } else if an < bn {
        -1
    } else {
        1
    }
}

/// Replacing the value at an existing key leaves the order untouched
/// and updates the mapping at that key alone.
proof fn lemma_sorted_update(m: Seq<(Seq<u8>, u32)>, i: int, key: Seq<u8>, value: u32)
    requires
        map_wf(m),
        0 <= i < m.len(),
        m[i].0 == key,
    ensures
        map_wf(m.update(i, (key, value))),
        map_view(m.update(i, (key, value))) == map_view(m).insert(key, value),
    decreases m.len(),
{
    let u = m.update(i, (key, value));
    assert forall|p: int, q: int| 0 <= p < q < u.len() implies lex_lt(u[p].0, u[q].0) by {
        assert(lex_lt(m[p].0, m[q].0));
    }
    if i == m.len() - 1 {
        assert(u.drop_last() =~= m.drop_last());
        assert(map_view(u) =~= map_view(m).insert(key, value));
    } else {
        lemma_sorted_update(m.drop_last(), i, key, value);
        assert(u.drop_last() =~= m.drop_last().update(i, (key, value)));
        assert(u.last() == m.last());
        assert(lex_lt(m[i].0, m.last().0));
        lemma_lex_trichotomy(m[i].0, m.last().0);
        assert(map_view(u) =~= map_view(m).insert(key, value));
    }
}

/// Inserting at the position the order dictates keeps the list sorted
/// and adds exactly the one binding to the mapping.
proof fn lemma_sorted_insert(m: Seq<(Seq<u8>, u32)>, i: int, key: Seq<u8>, value: u32)
    requires
        map_wf(m),
        0 <= i <= m.len(),
        forall|k: int| 0 <= k < i ==> lex_lt(#[trigger] m[k].0, key),
        i < m.len() ==> lex_lt(key, m[i].0),
    ensures
        map_entries_sorted(m.insert(i, (key, value))),
        map_view(m.insert(i, (key, value))) == map_view(m).insert(key, value),
    decreases m.len(),
{
    let u = m.insert(i, (key, value));
    assert(u.len() == m.len() + 1);
    assert(forall|t: int| 0 <= t < i ==> u[t] == m[t]);
    assert(u[i] == (key, value));
    assert(forall|t: int| i < t < u.len() ==> u[t] == m[t - 1]);
    assert forall|p: int, q: int| 0 <= p < q < u.len() implies lex_lt(u[p].0, u[q].0) by {
        if q < i {
            assert(lex_lt(m[p].0, m[q].0));
        } else if q == i {
            assert(lex_lt(m[p].0, key));
        } else if p < i {
            assert(lex_lt(m[p].0, m[q - 1].0));
        } else if p == i {
            if q - 1 > i {
                assert(lex_lt(m[i].0, m[q - 1].0));
                lemma_lex_trans(key, m[i as int].0, m[q - 1].0);
            }
        } else {
            assert(lex_lt(m[p - 1].0, m[q - 1].0));
        }
    }
    if i == m.len() {
        assert(u.drop_last() =~= m);
        assert(u.last() == (key, value));
        assert(map_view(u) =~= map_view(m).insert(key, value));
    } else {
        lemma_sorted_insert(m.drop_last(), i, key, value);
        assert(u.drop_last() =~= m.drop_last().insert(i, (key, value)));
        assert(u.last() == m.last());
        if i < m.len() - 1 {
            assert(lex_lt(m[i].0, m.last().0));
            lemma_lex_trans(key, m[i].0, m.last().0);
        }
        assert(lex_lt(key, m.last().0));
        lemma_lex_trichotomy(key, m.last().0);
        assert(map_view(u) =~= map_view(m).insert(key, value));
    }
}

} // verus!
