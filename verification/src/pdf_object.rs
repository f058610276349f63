//! The objects of a PDF document under construction: names, numbers, strings, arrays,
//! dictionaries, streams and references, together with the numbered store of indirect
//! objects and the trailer.
//!
//! Real numbers are carried, never computed on: a `Real` holds the bit pattern of an
//! IEEE-754 single-precision value, possibly tagged as a length in millimeters that is
//! written in points. Glyph widths are carried in font units together with the units per
//! em of their font and are written scaled to a thousand units per em.
use vstd::prelude::*;
use crate::strings::str_chars;

verus! {

/// Object identifier: object number and generation number.
pub type ObjectId = (u32, u16);

/// A real number operand, as the bit pattern of a single-precision value.
#[derive(Clone, Copy, Debug, PartialEq, Eq, Structural)]
pub enum Real {
    /// The value itself.
    Value(u32),
    /// A length in millimeters, written in points (the value times 2.834646).
    Millimeters(u32),
}

/// The two ways in which a string object is written.
#[derive(Clone, Copy, Debug, PartialEq, Eq, Structural)]
pub enum StringFormat {
    Literal,
    Hexadecimal,
}

/// An operand of an operation of a content stream.
#[derive(Debug)]
pub enum Operand {
    Name(Vec<u8>),
    Real(Real),
    String(Vec<u8>, StringFormat),
}

/// An operation of a content stream: an operator and its operands.
#[derive(Debug)]
pub struct ContentOperation {
    pub operator: String,
    pub operands: Vec<Operand>,
}

/// A dictionary: its entries in order. Setting a key removes the entry that had it and
/// appends the new entry at the end.
#[derive(Debug)]
pub struct Dictionary {
    pub entries: Vec<(Vec<u8>, PdfObject)>,
}

/// The content of a stream: either bytes, or operations of one or more layers, each layer
/// being encoded on its own and the encodings concatenated.
#[derive(Debug)]
pub enum StreamContent {
    Bytes(Vec<u8>),
    Layers(Vec<Vec<ContentOperation>>),
}

/// A stream: its dictionary (without its `Length`, which is set when the stream is built
/// from its bytes), its content and whether it may later be compressed.
#[derive(Debug)]
pub struct PdfStream {
    pub dict: Dictionary,
    pub content: StreamContent,
    pub allows_compression: bool,
}

/// A PDF object.
#[derive(Debug)]
pub enum PdfObject {
    Integer(i64),
    Real(Real),
    /// A glyph width in font units, written as an integer scaled to 1000 units per em.
    ScaledWidth(u32, u16),
    Name(Vec<u8>),
    String(Vec<u8>, StringFormat),
    Array(Vec<PdfObject>),
    Dictionary(Dictionary),
    Stream(PdfStream),
    Reference(ObjectId),
}

/// The mathematical value of an operand.
pub enum OperandModel {
    Name(Seq<u8>),
    Real(Real),
    Str(Seq<u8>, StringFormat),
}

/// The mathematical value of a content operation: operator and operands.
pub type OperationModel = (Seq<char>, Seq<OperandModel>);

/// The mathematical value of the content of a stream.
#[verifier::ext_equal]
pub enum ContentModel {
    Bytes(Seq<u8>),
    Layers(Seq<Seq<OperationModel>>),
}

/// The mathematical value of a PDF object.
#[verifier::ext_equal]
pub enum Obj {
    Integer(int),
    Real(Real),
    ScaledWidth(u32, u16),
    Name(Seq<u8>),
    Str(Seq<u8>, StringFormat),
    Array(Seq<Obj>),
    Dictionary(Seq<(Seq<u8>, Obj)>),
    Stream(Seq<(Seq<u8>, Obj)>, ContentModel, bool),
    Reference(ObjectId),
}

/// The bytes of an ASCII text.
pub open spec fn ascii(s: Seq<char>) -> Seq<u8> {
    s.map_values(|c: char| c as u8)
}

/// The UTF-8 encoding of a text.
pub open spec fn utf8(s: Seq<char>) -> Seq<u8> {
    vstd::utf8::encode_utf8(s)
}

/// A name object written from an ASCII text.
pub open spec fn name(s: Seq<char>) -> Obj {
    Obj::Name(ascii(s))
}

impl Operand {
    pub open spec fn model(&self) -> OperandModel {
        match self {
            Operand::Name(n) => OperandModel::Name(n@),
            Operand::Real(r) => OperandModel::Real(*r),
            Operand::String(s, f) => OperandModel::Str(s@, *f),
        }
    }
}

/// The models of a sequence of operands.
pub open spec fn operands_model(operands: Seq<Operand>) -> Seq<OperandModel> {
    Seq::new(operands.len(), |i: int| operands[i].model())
}

impl ContentOperation {
    pub open spec fn model(&self) -> OperationModel {
        (self.operator@, operands_model(self.operands@))
    }
}

/// The models of a sequence of operations.
pub open spec fn operations_model(operations: Seq<ContentOperation>) -> Seq<OperationModel> {
    Seq::new(operations.len(), |i: int| operations[i].model())
}

impl StreamContent {
    pub open spec fn model(&self) -> ContentModel {
        match self {
            StreamContent::Bytes(b) => ContentModel::Bytes(b@),
            StreamContent::Layers(layers) => ContentModel::Layers(
                layers@.map_values(|l: Vec<ContentOperation>| operations_model(l@)),
            ),
        }
    }
}

impl Dictionary {
    pub open spec fn model(&self) -> Seq<(Seq<u8>, Obj)>
        decreases self,
    {
        Seq::new(
            self.entries.len() as nat,
            |i: int|
                {
                    if 0 <= i < self.entries.len() {
                        proof {
                            assert(decreases_to!(self.entries => self.entries[i]));
                        }
                        (self.entries[i].0@, self.entries[i].1.model())
                    } else {
                        (Seq::empty(), Obj::Integer(0))
                    }
                },
        )
    }
}

impl PdfObject {
    pub open spec fn model(&self) -> Obj
        decreases self,
    {
        match self {
            PdfObject::Integer(i) => Obj::Integer(*i as int),
            PdfObject::Real(r) => Obj::Real(*r),
            PdfObject::ScaledWidth(w, u) => Obj::ScaledWidth(*w, *u),
            PdfObject::Name(n) => Obj::Name(n@),
            PdfObject::String(s, f) => Obj::Str(s@, *f),
            PdfObject::Array(v) => Obj::Array(
                Seq::new(
                    v.len() as nat,
                    |i: int|
                        {
                            if 0 <= i < v.len() {
                                proof {
                                    assert(decreases_to!(v => v[i]));
                                }
                                v[i].model()
                            } else {
                                Obj::Integer(0)
                            }
                        },
                ),
            ),
            PdfObject::Dictionary(d) => Obj::Dictionary(d.model()),
            PdfObject::Stream(s) => Obj::Stream(s.dict.model(), s.content.model(), s.allows_compression),
            PdfObject::Reference(id) => Obj::Reference(*id),
        }
    }
}

/// The entries of an association list other than those with the key `k`.
pub open spec fn without_key<K, V>(s: Seq<(K, V)>, k: K) -> Seq<(K, V)>
    decreases s.len(),
{
    if s.len() == 0 {
        s
    } else {
        let rest = without_key(s.drop_last(), k);
        if s.last().0 == k {
            rest
        } else {
            rest.push(s.last())
        }
    }
}

/// Setting a key of an association list: the entry that had the key is removed and the
/// new entry is appended.
pub open spec fn assoc_set<K, V>(s: Seq<(K, V)>, k: K, v: V) -> Seq<(K, V)> {
    without_key(s, k).push((k, v))
}

/// The value that an association list holds for a key, the last one if there are several.
pub open spec fn assoc_get<K, V>(s: Seq<(K, V)>, k: K) -> Option<V>
    decreases s.len(),
{
    if s.len() == 0 {
        None
    } else if s.last().0 == k {
        Some(s.last().1)
    } else {
        assoc_get(s.drop_last(), k)
    }
}

/// Whether an association list holds the key.
pub open spec fn has_key<K, V>(s: Seq<(K, V)>, k: K) -> bool {
    exists|i: int| 0 <= i < s.len() && #[trigger] s[i].0 == k
}

/// Removing a key that is absent leaves an association list unchanged.
pub proof fn lemma_without_absent_key<K, V>(s: Seq<(K, V)>, k: K)
    requires
        !has_key(s, k),
    ensures
        without_key(s, k) == s,
    decreases s.len(),
{
    if s.len() > 0 {
        assert(!has_key(s.drop_last(), k)) by {
            if has_key(s.drop_last(), k) {
                let i = choose|i: int| 0 <= i < s.drop_last().len() && #[trigger] s.drop_last()[i].0 == k;
                assert(s[i].0 == k);
            }
        }
        lemma_without_absent_key(s.drop_last(), k);
        assert(s.last().0 != k) by {
            assert(s[s.len() - 1].0 == s.last().0);
        }
        assert(s.drop_last().push(s.last()) =~= s);
    }
}

/// After removing a key, the other keys keep their values and the key is absent.
pub proof fn lemma_without_key_get<K, V>(s: Seq<(K, V)>, k: K, k2: K)
    ensures
        assoc_get(without_key(s, k), k2) == (if k2 == k { None } else { assoc_get(s, k2) }),
    decreases s.len(),
{
    if s.len() > 0 {
        lemma_without_key_get(s.drop_last(), k, k2);
        let rest = without_key(s.drop_last(), k);
        if s.last().0 != k {
            assert(rest.push(s.last()).drop_last() =~= rest);
        }
    }
}

/// Reading an association list after setting a key.
pub proof fn lemma_assoc_set_get<K, V>(s: Seq<(K, V)>, k: K, v: V, k2: K)
    ensures
        assoc_get(assoc_set(s, k, v), k2) == (if k2 == k { Some(v) } else { assoc_get(s, k2) }),
{
    lemma_without_key_get(s, k, k2);
    let w = without_key(s, k);
    assert(w.push((k, v)).drop_last() =~= w);
}

/// An association list in which the entry at `i` is the last to hold its key gives that
/// entry's value for the key.
pub proof fn lemma_assoc_get_at<K, V>(s: Seq<(K, V)>, i: int)
    requires
        0 <= i < s.len(),
        forall|j: int| i < j < s.len() ==> #[trigger] s[j].0 != s[i].0,
    ensures
        assoc_get(s, s[i].0) == Some(s[i].1),
    decreases s.len(),
{
    if i < s.len() - 1 {
        assert(s[s.len() - 1].0 != s[i].0);
        assert(s.drop_last()[i] == s[i]);
        assert forall|j: int| i < j < s.drop_last().len() implies #[trigger] s.drop_last()[j].0 != s.drop_last()[i].0 by {
            assert(s.drop_last()[j] == s[j]);
        }
        lemma_assoc_get_at(s.drop_last(), i);
    }
}

/// The keys of an association list are distinct.
pub open spec fn keys_distinct<K, V>(s: Seq<(K, V)>) -> bool {
    forall|i: int, j: int| 0 <= i < j < s.len() ==> #[trigger] s[i].0 != #[trigger] s[j].0
}

/// Removing a key keeps the keys that were distinct distinct, and leaves the other keys.
proof fn lemma_without_key_keys<K, V>(s: Seq<(K, V)>, k: K)
    requires
        keys_distinct(s),
    ensures
        keys_distinct(without_key(s, k)),
        !has_key(without_key(s, k), k),
        forall|k2: K| k2 != k && has_key(s, k2) ==> #[trigger] has_key(without_key(s, k), k2),
    decreases s.len(),
{
    if s.len() > 0 {
        let rest = s.drop_last();
        assert(keys_distinct(rest)) by {
            assert forall|i: int, j: int| 0 <= i < j < rest.len() implies #[trigger] rest[i].0 != #[trigger] rest[j].0 by {
                assert(rest[i] == s[i] && rest[j] == s[j]);
            }
        }
        lemma_without_key_keys(rest, k);
        let w = without_key(rest, k);
        lemma_without_key_get(rest, k, s.last().0);
        if s.last().0 != k {
            assert(!has_key(w, s.last().0)) by {
                if has_key(w, s.last().0) {
                    lemma_has_key_assoc_get(w, s.last().0);
                    lemma_has_key_assoc_get(rest, s.last().0);
                    let i = choose|i: int| 0 <= i < rest.len() && #[trigger] rest[i].0 == s.last().0;
                    assert(s[i].0 == s[s.len() - 1].0);
                }
            }
            let pushed = w.push(s.last());
            assert forall|i: int, j: int| 0 <= i < j < pushed.len() implies #[trigger] pushed[i].0 != #[trigger] pushed[j].0 by {
                if j == pushed.len() - 1 {
                    assert(pushed[i] == w[i]);
                    if pushed[i].0 == pushed[j].0 {
                        assert(has_key(w, s.last().0));
                    }
                } else {
                    assert(pushed[i] == w[i] && pushed[j] == w[j]);
                }
            }
            lemma_has_key_push(w, s.last());
        }
        lemma_has_key_push(rest, s.last());
        assert(s == rest.push(s.last()));
    }
}

/// An association list holds a key exactly when reading the key gives a value.
proof fn lemma_has_key_assoc_get<K, V>(s: Seq<(K, V)>, k: K)
    ensures
        has_key(s, k) <==> assoc_get(s, k) is Some,
    decreases s.len(),
{
    if s.len() > 0 {
        lemma_has_key_assoc_get(s.drop_last(), k);
        lemma_has_key_push(s.drop_last(), s.last());
        assert(s == s.drop_last().push(s.last()));
    }
}

/// Setting a key in a dictionary whose keys are distinct leaves its keys distinct: the
/// key is held once, by the last entry, with the new value, and every other key is held
/// as before.
pub proof fn lemma_assoc_set_keys_distinct<K, V>(s: Seq<(K, V)>, k: K, v: V)
    requires
        keys_distinct(s),
    ensures
        keys_distinct(assoc_set(s, k, v)),
        assoc_set(s, k, v).last() == (k, v),
        forall|k2: K| #[trigger] has_key(assoc_set(s, k, v), k2) <==> has_key(s, k2) || k2 == k,
{
    lemma_without_key_keys(s, k);
    let w = without_key(s, k);
    let r = w.push((k, v));
    assert forall|i: int, j: int| 0 <= i < j < r.len() implies #[trigger] r[i].0 != #[trigger] r[j].0 by {
        assert(r[i] == w[i]);
        if j < w.len() {
            assert(r[j] == w[j]);
        } else if r[i].0 == k {
            assert(has_key(w, k));
        }
    }
    lemma_has_key_push(w, (k, v));
    assert forall|k2: K| #[trigger] has_key(r, k2) <==> has_key(s, k2) || k2 == k by {
        if has_key(w, k2) {
            lemma_has_key_assoc_get(w, k2);
            lemma_without_key_get(s, k, k2);
            lemma_has_key_assoc_get(s, k2);
        }
    }
}

/// Setting a key that is absent appends the entry.
pub proof fn lemma_assoc_set_absent<K, V>(s: Seq<(K, V)>, k: K, v: V)
    requires
        !has_key(s, k),
    ensures
        assoc_set(s, k, v) == s.push((k, v)),
{
    lemma_without_absent_key(s, k);
}

/// An association list with an entry appended holds the keys it held and the key of the
/// entry.
pub proof fn lemma_has_key_push<K, V>(s: Seq<(K, V)>, e: (K, V))
    ensures
        forall|k: K| #[trigger] has_key(s.push(e), k) == (has_key(s, k) || k == e.0),
{
    assert forall|k: K| #[trigger] has_key(s.push(e), k) == (has_key(s, k) || k == e.0) by {
        if has_key(s.push(e), k) {
            let i = choose|i: int| 0 <= i < s.push(e).len() && #[trigger] s.push(e)[i].0 == k;
            if i < s.len() {
                assert(s[i].0 == k);
            }
        }
        if has_key(s, k) {
            let i = choose|i: int| 0 <= i < s.len() && #[trigger] s[i].0 == k;
            assert(s.push(e)[i].0 == k);
        }
        if k == e.0 {
            assert(s.push(e)[s.len() as int].0 == k);
        }
    }
}

/// Whether two byte strings are equal.
pub fn bytes_equal(a: &Vec<u8>, b: &Vec<u8>) -> (r: bool)
    ensures
        r == (a@ == b@),
{
    if a.len() != b.len() {
        return false;
    }
    let mut i: usize = 0;
    while i < a.len()
        invariant
            a.len() == b.len(),
            i <= a.len(),
            forall|j: int| 0 <= j < i ==> a@[j] == b@[j],
        decreases a.len() - i,
    {
        if a[i] != b[i] {
            return false;
        }
        i = i + 1;
    }
    assert(a@ =~= b@);
    true
}

/// The lexicographic order of byte strings, the order in which `Ord` compares strings:
/// the first differing byte decides, and a proper prefix comes first.
pub open spec fn bytes_lt(a: Seq<u8>, b: Seq<u8>) -> bool
    decreases a.len(),
{
    if b.len() == 0 {
        false
    } else if a.len() == 0 {
        true
    } else if a[0] != b[0] {
        a[0] < b[0]
    } else {
        bytes_lt(a.drop_first(), b.drop_first())
    }
}

/// No byte string comes before itself.
pub proof fn lemma_bytes_lt_irreflexive(a: Seq<u8>)
    ensures
        !bytes_lt(a, a),
    decreases a.len(),
{
    if a.len() > 0 {
        lemma_bytes_lt_irreflexive(a.drop_first());
    }
}

/// The lexicographic order is transitive.
pub proof fn lemma_bytes_lt_transitive(a: Seq<u8>, b: Seq<u8>, c: Seq<u8>)
    requires
        bytes_lt(a, b),
        bytes_lt(b, c),
    ensures
        bytes_lt(a, c),
    decreases a.len(),
{
    if a.len() > 0 && b.len() > 0 && c.len() > 0 && a[0] == b[0] && b[0] == c[0] {
        lemma_bytes_lt_transitive(a.drop_first(), b.drop_first(), c.drop_first());
    }
}

/// Of two distinct byte strings, one comes before the other.
pub proof fn lemma_bytes_lt_total(a: Seq<u8>, b: Seq<u8>)
    requires
        a != b,
    ensures
        bytes_lt(a, b) || bytes_lt(b, a),
    decreases a.len(),
{
    if a.len() > 0 && b.len() > 0 && a[0] == b[0] {
        if a.drop_first() == b.drop_first() {
            assert(a =~= seq![a[0]] + a.drop_first());
            assert(b =~= seq![b[0]] + b.drop_first());
        }
        lemma_bytes_lt_total(a.drop_first(), b.drop_first());
    } else if a.len() == 0 && b.len() == 0 {
        assert(a =~= b);
    }
}

/// Whether the first byte string comes before the second in lexicographic order.
pub fn bytes_less(a: &Vec<u8>, b: &Vec<u8>) -> (r: bool)
    ensures
        r == bytes_lt(a@, b@),
{
    let mut i: usize = 0;
    assert(a@.skip(0) =~= a@);
    assert(b@.skip(0) =~= b@);
    while i < a.len() && i < b.len()
        invariant
            i <= a.len(),
            i <= b.len(),
            bytes_lt(a@, b@) == bytes_lt(a@.skip(i as int), b@.skip(i as int)),
        decreases a.len() - i,
    {
        if a[i] != b[i] {
            return a[i] < b[i];
        }
        assert(a@.skip(i as int).drop_first() =~= a@.skip(i as int + 1));
        assert(b@.skip(i as int).drop_first() =~= b@.skip(i as int + 1));
        i = i + 1;
    }
    i < b.len()
}

/// The bytes of a text, one per character (its code truncated to eight bits).
pub fn ascii_bytes(s: &str) -> (b: Vec<u8>)
    ensures
        b@ == ascii(s@),
{
    let chars = str_chars(s);
    let mut b: Vec<u8> = Vec::new();
    let mut i: usize = 0;
    while i < chars.len()
        invariant
            i <= chars.len(),
            chars@ == s@,
            b@ == ascii(s@.take(i as int)),
        decreases chars.len() - i,
    {
        b.push(chars[i] as u8);
        i = i + 1;
        assert(b@ =~= ascii(s@.take(i as int)));
    }
    assert(s@.take(s@.len() as int) =~= s@);
    b
}

/// The UTF-8 encoding of a text.
pub fn utf8_bytes(s: &str) -> (b: Vec<u8>)
    ensures
        b@ == utf8(s@),
{
    vstd::slice::slice_to_vec(s.as_bytes())
}

/// A name object written from an ASCII text.
pub fn name_object(s: &str) -> (o: PdfObject)
    ensures
        o.model() == name(s@),
{
    PdfObject::Name(ascii_bytes(s))
}

impl Dictionary {
    /// An empty dictionary.
    pub fn new() -> (d: Dictionary)
        ensures
            d.model() == Seq::<(Seq<u8>, Obj)>::empty(),
    {
        let d = Dictionary { entries: Vec::new() };
        assert(d.model() =~= Seq::<(Seq<u8>, Obj)>::empty());
        d
    }

    /// Whether the dictionary has no entry.
    pub fn is_empty(&self) -> (r: bool)
        ensures
            r == (self.model().len() == 0),
    {
        self.entries.len() == 0
    }

    /// Sets the key to the value: the entry that had the key is removed and the new entry
    /// is appended.
    pub fn set(&mut self, key: Vec<u8>, value: PdfObject)
        ensures
            final(self).model() == assoc_set(old(self).model(), key@, value.model()),
    {
        let ghost old_model = self.model();
        let mut old_entries: Vec<(Vec<u8>, PdfObject)> = Vec::new();
        std::mem::swap(&mut old_entries, &mut self.entries);
        let mut kept: Vec<(Vec<u8>, PdfObject)> = Vec::new();
        let mut rest = old_entries;
        let ghost total = rest@;
        let mut taken: usize = 0;
        assert(rest@ =~= total.skip(0));
        while rest.len() > 0
            invariant
                taken + rest@.len() == total.len(),
                total.len() <= usize::MAX,
                rest@ == total.skip(taken as int),
                old_model.len() == total.len(),
                forall|j: int|
                    0 <= j < total.len() ==> #[trigger] old_model[j] == (total[j].0@, total[j].1.model()),
                (Dictionary { entries: kept }).model() == without_key(old_model.take(taken as int), key@),
            decreases rest.len(),
        {
            let entry = rest.remove(0);
            let ghost kept_model = (Dictionary { entries: kept }).model();
            assert(entry == total[taken as int]);
            let same = bytes_equal(&entry.0, &key);
            let ghost prefix = old_model.take(taken as int + 1);
            assert(prefix.drop_last() =~= old_model.take(taken as int));
            assert(prefix.last() == old_model[taken as int]);
            if !same {
                kept.push(entry);
                assert((Dictionary { entries: kept }).model() =~= kept_model.push(old_model[taken as int]));
            }
            taken = taken + 1;
            assert(rest@ =~= total.skip(taken as int));
        }
        assert(old_model.take(taken as int) =~= old_model);
        let ghost kept_model = (Dictionary { entries: kept }).model();
        let ghost value_model = value.model();
        kept.push((key, value));
        assert((Dictionary { entries: kept }).model() =~= kept_model.push((key@, value_model)));
        self.entries = kept;
    }
}

impl Dictionary {
    /// A dictionary made of the given entries, in order; the keys are distinct.
    pub fn from_entries(entries: Vec<(Vec<u8>, PdfObject)>) -> (d: Dictionary)
        ensures
            d.model() == entries_model(entries@),
    {
        let d = Dictionary { entries };
        assert(d.model() =~= entries_model(entries@));
        d
    }
}

/// The entries of a dictionary under construction, none yet.
pub fn new_entries() -> (entries: Vec<(Vec<u8>, PdfObject)>)
    ensures
        entries_model(entries@) == Seq::<(Seq<u8>, Obj)>::empty(),
{
    let entries: Vec<(Vec<u8>, PdfObject)> = Vec::new();
    assert(entries_model(entries@) =~= Seq::<(Seq<u8>, Obj)>::empty());
    entries
}

/// The objects of an array under construction, none yet.
pub fn new_items() -> (items: Vec<PdfObject>)
    ensures
        objects_model(items@) == Seq::<Obj>::empty(),
{
    let items: Vec<PdfObject> = Vec::new();
    assert(objects_model(items@) =~= Seq::<Obj>::empty());
    items
}

/// Appends an entry, whose key is an ASCII text, to the entries of a dictionary under
/// construction.
pub fn add_entry(entries: &mut Vec<(Vec<u8>, PdfObject)>, key: &str, value: PdfObject)
    ensures
        entries_model(final(entries)@) == entries_model(old(entries)@).push((ascii(key@), value.model())),
{
    let ghost value_model = value.model();
    entries.push((ascii_bytes(key), value));
    assert(entries_model(entries@) =~= entries_model(old(entries)@).push((ascii(key@), value_model)));
}

/// Appends an entry to the entries of a dictionary under construction.
pub fn add_entry_bytes(entries: &mut Vec<(Vec<u8>, PdfObject)>, key: Vec<u8>, value: PdfObject)
    ensures
        entries_model(final(entries)@) == entries_model(old(entries)@).push((key@, value.model())),
{
    let ghost value_model = value.model();
    let ghost key_view = key@;
    entries.push((key, value));
    assert(entries_model(entries@) =~= entries_model(old(entries)@).push((key_view, value_model)));
}

/// Appends an object to an array under construction.
pub fn add_item(items: &mut Vec<PdfObject>, value: PdfObject)
    ensures
        objects_model(final(items)@) == objects_model(old(items)@).push(value.model()),
{
    let ghost value_model = value.model();
    items.push(value);
    assert(objects_model(items@) =~= objects_model(old(items)@).push(value_model));
}

/// The models of the entries of a dictionary under construction.
pub open spec fn entries_model(entries: Seq<(Vec<u8>, PdfObject)>) -> Seq<(Seq<u8>, Obj)> {
    Seq::new(entries.len(), |i: int| (entries[i].0@, entries[i].1.model()))
}

/// The models of the objects of an array under construction.
pub open spec fn objects_model(objects: Seq<PdfObject>) -> Seq<Obj> {
    Seq::new(objects.len(), |i: int| objects[i].model())
}

/// An array object made of the given objects.
pub fn array_object(objects: Vec<PdfObject>) -> (o: PdfObject)
    ensures
        o.model() == Obj::Array(objects_model(objects@)),
{
    let ghost expected = objects_model(objects@);
    let o = PdfObject::Array(objects);
    proof {
        let m = o.model();
        assert(m is Array);
        let s = m->Array_0;
        assert(s.len() == expected.len());
        assert forall|i: int| 0 <= i < s.len() implies s[i] == expected[i] by {}
        assert(s =~= expected);
    }
    o
}

impl Operand {
    /// A copy of the operand.
    pub fn duplicate(&self) -> (r: Operand)
        ensures
            r.model() == self.model(),
    {
        match self {
            Operand::Name(n) => Operand::Name(vstd::slice::slice_to_vec(n.as_slice())),
            Operand::Real(r) => Operand::Real(*r),
            Operand::String(b, f) => Operand::String(vstd::slice::slice_to_vec(b.as_slice()), *f),
        }
    }
}

impl ContentOperation {
    /// An operation from its operator and operands.
    pub fn new(operator: &str, operands: Vec<Operand>) -> (op: ContentOperation)
        ensures
            op.model() == (operator@, operands_model(operands@)),
    {
        let op = ContentOperation { operator: operator.to_string(), operands };
        op
    }

    /// A copy of the operation.
    pub fn duplicate(&self) -> (r: ContentOperation)
        ensures
            r.model() == self.model(),
    {
        let mut operands: Vec<Operand> = Vec::new();
        let mut i: usize = 0;
        while i < self.operands.len()
            invariant
                i <= self.operands.len(),
                operands@.len() == i,
                forall|j: int| 0 <= j < i ==> (#[trigger] operands@[j]).model() == self.operands@[j].model(),
            decreases self.operands.len() - i,
        {
            let copy = self.operands[i].duplicate();
            operands.push(copy);
            i = i + 1;
        }
        assert(operands_model(operands@) =~= operands_model(self.operands@));
        ContentOperation { operator: self.operator.clone(), operands }
    }
}

/// Copies of a list of operations.
pub fn duplicate_operations(operations: &Vec<ContentOperation>) -> (r: Vec<ContentOperation>)
    ensures
        operations_model(r@) == operations_model(operations@),
{
    let mut result: Vec<ContentOperation> = Vec::new();
    let mut i: usize = 0;
    while i < operations.len()
        invariant
            i <= operations.len(),
            result@.len() == i,
            forall|j: int| 0 <= j < i ==> (#[trigger] result@[j]).model() == operations@[j].model(),
        decreases operations.len() - i,
    {
        let copy = operations[i].duplicate();
        result.push(copy);
        i = i + 1;
    }
    assert(operations_model(result@) =~= operations_model(operations@));
    result
}

impl StreamContent {
    /// A copy of the content.
    pub fn duplicate(&self) -> (r: StreamContent)
        ensures
            r.model() == self.model(),
    {
        match self {
            StreamContent::Bytes(b) => StreamContent::Bytes(vstd::slice::slice_to_vec(b.as_slice())),
            StreamContent::Layers(layers) => {
                let mut result: Vec<Vec<ContentOperation>> = Vec::new();
                let mut i: usize = 0;
                while i < layers.len()
                    invariant
                        i <= layers.len(),
                        result@.len() == i,
                        forall|j: int| 0 <= j < i ==> operations_model(#[trigger] result@[j]@) == operations_model(layers@[j]@),
                    decreases layers.len() - i,
                {
                    result.push(duplicate_operations(&layers[i]));
                    i = i + 1;
                }
                let r = StreamContent::Layers(result);
                assert(r.model() =~~= self.model());
                r
            },
        }
    }
}

impl Dictionary {
    /// A copy of the dictionary.
    pub fn duplicate(&self) -> (r: Dictionary)
        ensures
            r.model() == self.model(),
        decreases self,
    {
        let mut entries: Vec<(Vec<u8>, PdfObject)> = new_entries();
        let mut i: usize = 0;
        while i < self.entries.len()
            invariant
                i <= self.entries.len(),
                entries_model(entries@) == self.model().take(i as int),
            decreases self.entries.len() - i,
        {
            let key = vstd::slice::slice_to_vec(self.entries[i].0.as_slice());
            assert(decreases_to!(self => self.entries));
            assert(decreases_to!(self.entries => self.entries[i as int]));
            let value = self.entries[i].1.duplicate();
            let ghost previous = entries_model(entries@);
            assert(self.model()[i as int] == (self.entries[i as int].0@, self.entries[i as int].1.model()));
            add_entry_bytes(&mut entries, key, value);
            assert(self.model().take(i as int + 1) =~= self.model().take(i as int).push(self.model()[i as int]));
            i = i + 1;
            assert(entries_model(entries@) =~= self.model().take(i as int));
        }
        assert(self.model().take(self.entries.len() as int) =~= self.model());
        Dictionary { entries }
    }
}

impl PdfObject {
    /// A copy of the object.
    #[verifier::loop_isolation(false)]
    pub fn duplicate(&self) -> (r: PdfObject)
        ensures
            r.model() == self.model(),
        decreases self,
    {
        match self {
            PdfObject::Integer(i) => PdfObject::Integer(*i),
            PdfObject::Real(r) => PdfObject::Real(*r),
            PdfObject::ScaledWidth(w, u) => PdfObject::ScaledWidth(*w, *u),
            PdfObject::Name(n) => PdfObject::Name(vstd::slice::slice_to_vec(n.as_slice())),
            PdfObject::String(b, f) => PdfObject::String(vstd::slice::slice_to_vec(b.as_slice()), *f),
            PdfObject::Array(items) => {
                let mut result: Vec<PdfObject> = new_items();
                let mut i: usize = 0;
                while i < items.len()
                    invariant
                        i <= items.len(),
                        objects_model(result@) == objects_model(items@).take(i as int),
                    decreases items.len() - i,
                {
                    assert(decreases_to!(self => items));
                    assert(decreases_to!(items => items[i as int]));
                    add_item(&mut result, items[i].duplicate());
                    assert(objects_model(items@).take(i as int + 1) =~= objects_model(items@).take(i as int).push(items@[i as int].model()));
                    i = i + 1;
                    assert(objects_model(result@) =~= objects_model(items@).take(i as int));
                }
                assert(objects_model(items@).take(items.len() as int) =~= objects_model(items@));
                let r = array_object(result);
                assert(objects_model(items@) =~= self.model()->Array_0);
                r
            },
            PdfObject::Dictionary(d) => PdfObject::Dictionary(d.duplicate()),
            PdfObject::Stream(s) => PdfObject::Stream(
                PdfStream {
                    dict: s.dict.duplicate(),
                    content: s.content.duplicate(),
                    allows_compression: s.allows_compression,
                },
            ),
            PdfObject::Reference(id) => PdfObject::Reference(*id),
        }
    }
}

/// The store of the numbered (indirect) objects of a document, with its version, the
/// largest object number given out so far and its trailer.
#[derive(Debug)]
pub struct ObjectStore {
    pub version: String,
    pub max_id: u32,
    pub objects: Vec<(ObjectId, PdfObject)>,
    pub trailer: Dictionary,
}

impl ObjectStore {
    /// The objects of the store with their identifiers, in the order they were stored.
    pub open spec fn model(&self) -> Seq<(ObjectId, Obj)> {
        Seq::new(self.objects.len() as nat, |i: int| (self.objects[i].0, self.objects[i].1.model()))
    }

    /// Identifiers are distinct, of generation zero, and their numbers were given out.
    pub open spec fn well_formed(&self) -> bool {
        &&& forall|i: int, j: int|
            0 <= i < j < self.objects.len() ==> #[trigger] self.objects[i].0 != #[trigger] self.objects[j].0
        &&& forall|i: int|
            0 <= i < self.objects.len() ==> 1 <= (#[trigger] self.objects[i].0).0 <= self.max_id
                && self.objects[i].0.1 == 0
    }

    /// An empty document of the given version.
    pub fn with_version(version: String) -> (store: ObjectStore)
        ensures
            store.version@ == version@,
            store.max_id == 0,
            store.model() == Seq::<(ObjectId, Obj)>::empty(),
            store.trailer.model() == Seq::<(Seq<u8>, Obj)>::empty(),
            store.well_formed(),
    {
        let store = ObjectStore { version, max_id: 0, objects: Vec::new(), trailer: Dictionary::new() };
        assert(store.model() =~= Seq::<(ObjectId, Obj)>::empty());
        store
    }

    /// Gives out the next object number, as lopdf's `Document::new_object_id` does.
    pub fn new_object_id(&mut self) -> (id: ObjectId)
        requires
            old(self).max_id < u32::MAX,
            old(self).well_formed(),
        ensures
            id == ((old(self).max_id + 1) as u32, 0u16),
            final(self).max_id == old(self).max_id + 1,
            final(self).model() == old(self).model(),
            final(self).objects@ == old(self).objects@,
            final(self).trailer == old(self).trailer,
            final(self).version == old(self).version,
            final(self).well_formed(),
    {
        self.max_id = self.max_id + 1;
        (self.max_id, 0)
    }

    /// Stores an object under the next object number, as lopdf's `Document::add_object` does.
    pub fn add_object(&mut self, object: PdfObject) -> (id: ObjectId)
        requires
            old(self).max_id < u32::MAX,
            old(self).well_formed(),
        ensures
            id == ((old(self).max_id + 1) as u32, 0u16),
            final(self).max_id == old(self).max_id + 1,
            final(self).model() == old(self).model().push((id, object.model())),
            final(self).trailer == old(self).trailer,
            final(self).version == old(self).version,
            final(self).well_formed(),
            forall|k: ObjectId| #[trigger] has_key(final(self).model(), k) == (has_key(old(self).model(), k) || k == id),
    {
        proof {
            lemma_has_key_push(self.model(), (((self.max_id + 1) as u32, 0u16), object.model()));
        }
        self.max_id = self.max_id + 1;
        let id: ObjectId = (self.max_id, 0);
        let ghost object_model = object.model();
        let ghost old_model = self.model();
        self.objects.push((id, object));
        assert(self.model() =~= old_model.push((id, object_model)));
        id
    }

    /// Stores an object under a number given out earlier, as inserting into lopdf's
    /// `Document::objects` does: the object that the number held, if any, is replaced.
    pub fn insert_object(&mut self, id: ObjectId, object: PdfObject)
        requires
            old(self).well_formed(),
            1 <= id.0 <= old(self).max_id,
            id.1 == 0,
        ensures
            final(self).max_id == old(self).max_id,
            final(self).model() == assoc_set(old(self).model(), id, object.model()),
            final(self).trailer == old(self).trailer,
            final(self).version == old(self).version,
            final(self).well_formed(),
            forall|k: ObjectId| #[trigger] has_key(final(self).model(), k) == (has_key(old(self).model(), k) || k == id),
    {
        let ghost object_model = object.model();
        let ghost old_model = self.model();
        let ghost old_max = self.max_id;
        let mut old_objects: Vec<(ObjectId, PdfObject)> = Vec::new();
        std::mem::swap(&mut old_objects, &mut self.objects);
        let mut kept: Vec<(ObjectId, PdfObject)> = Vec::new();
        let mut rest = old_objects;
        let ghost total = rest@;
        let mut taken: usize = 0;
        assert(rest@ =~= total.skip(0));
        assert(without_key(old_model.take(0), id) =~= Seq::<(ObjectId, Obj)>::empty());
        assert(Seq::new(kept@.len(), |i: int| (kept@[i].0, kept@[i].1.model())) =~= Seq::<(ObjectId, Obj)>::empty());
        while rest.len() > 0
            invariant
                taken + rest@.len() == total.len(),
                total.len() <= usize::MAX,
                rest@ == total.skip(taken as int),
                old_model.len() == total.len(),
                forall|j: int| 0 <= j < total.len() ==> #[trigger] old_model[j] == (total[j].0, total[j].1.model()),
                Seq::new(kept@.len(), |i: int| (kept@[i].0, kept@[i].1.model())) == without_key(
                    old_model.take(taken as int),
                    id,
                ),
            decreases rest.len(),
        {
            let entry = rest.remove(0);
            let ghost kept_model = Seq::new(kept@.len(), |i: int| (kept@[i].0, kept@[i].1.model()));
            assert(entry == total[taken as int]);
            let ghost prefix = old_model.take(taken as int + 1);
            assert(prefix.drop_last() =~= old_model.take(taken as int));
            assert(prefix.last() == old_model[taken as int]);
            if !(entry.0.0 == id.0 && entry.0.1 == id.1) {
                kept.push(entry);
                assert(Seq::new(kept@.len(), |i: int| (kept@[i].0, kept@[i].1.model())) =~= kept_model.push(
                    old_model[taken as int],
                ));
            }
            taken = taken + 1;
            assert(rest@ =~= total.skip(taken as int));
        }
        assert(old_model.take(taken as int) =~= old_model);
        let ghost kept_model = Seq::new(kept@.len(), |i: int| (kept@[i].0, kept@[i].1.model()));
        kept.push((id, object));
        self.objects = kept;
        assert(self.model() =~= kept_model.push((id, object_model)));
        proof {
            assert(keys_distinct(old_model)) by {
                assert forall|i: int, j: int| 0 <= i < j < old_model.len() implies #[trigger] old_model[i].0
                    != #[trigger] old_model[j].0 by {
                    assert(old_model[i].0 == total[i].0 && old_model[j].0 == total[j].0);
                }
            }
            lemma_assoc_set_keys_distinct(old_model, id, object_model);
            lemma_without_key_elements(old_model, id);
            let model = self.model();
            assert forall|i: int, j: int| 0 <= i < j < self.objects.len() implies #[trigger] self.objects[i].0
                != #[trigger] self.objects[j].0 by {
                assert(model[i].0 == self.objects[i].0 && model[j].0 == self.objects[j].0);
            }
            assert forall|i: int| 0 <= i < self.objects.len() implies 1 <= (#[trigger] self.objects[i].0).0 <= self.max_id
                && self.objects[i].0.1 == 0 by {
                assert(model[i].0 == self.objects[i].0);
                if i < kept_model.len() {
                    assert(model[i] == kept_model[i]);
                    let j = choose|j: int| 0 <= j < old_model.len() && old_model[j] == kept_model[i];
                    assert(old_model[j].0 == total[j].0);
                }
            }
        }
    }
}

/// Every entry left after removing a key is an entry of the list.
proof fn lemma_without_key_elements<K, V>(s: Seq<(K, V)>, k: K)
    ensures
        forall|i: int| 0 <= i < without_key(s, k).len() ==> exists|j: int| 0 <= j < s.len() && s[j] == #[trigger] without_key(s, k)[i],
    decreases s.len(),
{
    if s.len() > 0 {
        lemma_without_key_elements(s.drop_last(), k);
        let rest = without_key(s.drop_last(), k);
        assert forall|i: int| 0 <= i < without_key(s, k).len() implies exists|j: int| 0 <= j < s.len() && s[j] == #[trigger] without_key(s, k)[i] by {
            if i < rest.len() {
                assert(without_key(s, k)[i] == rest[i]);
                let j = choose|j: int| 0 <= j < s.drop_last().len() && s.drop_last()[j] == #[trigger] rest[i];
                assert(s[j] == s.drop_last()[j]);
            } else {
                assert(without_key(s, k)[i] == s.last());
                assert(s[s.len() - 1] == s.last());
            }
        }
    }
}

/// The objects of a store after the given objects were stored one after the other, each
/// replacing the object that held its number.
pub open spec fn stored(model: Seq<(ObjectId, Obj)>, objects: Seq<(ObjectId, Obj)>) -> Seq<(ObjectId, Obj)>
    decreases objects.len(),
{
    if objects.len() == 0 {
        model
    } else {
        assoc_set(stored(model, objects.drop_last()), objects.last().0, objects.last().1)
    }
}

/// Storing objects one after the other and then more is storing all of them.
pub proof fn lemma_stored_append(model: Seq<(ObjectId, Obj)>, x: Seq<(ObjectId, Obj)>, y: Seq<(ObjectId, Obj)>)
    ensures
        stored(model, x + y) == stored(stored(model, x), y),
    decreases y.len(),
{
    if y.len() == 0 {
        assert(x + y =~= x);
    } else {
        assert((x + y).drop_last() =~= x + y.drop_last());
        assert((x + y).last() == y.last());
        lemma_stored_append(model, x, y.drop_last());
    }
}

/// Objects whose numbers are distinct and not yet used are appended.
pub proof fn lemma_stored_fresh(model: Seq<(ObjectId, Obj)>, objects: Seq<(ObjectId, Obj)>)
    requires
        keys_distinct(objects),
        forall|i: int| 0 <= i < objects.len() ==> !has_key(model, #[trigger] objects[i].0),
    ensures
        stored(model, objects) == model + objects,
    decreases objects.len(),
{
    if objects.len() == 0 {
        assert(model + objects =~= model);
    } else {
        let rest = objects.drop_last();
        assert forall|i: int, j: int| 0 <= i < j < rest.len() implies #[trigger] rest[i].0 != #[trigger] rest[j].0 by {
            assert(rest[i] == objects[i] && rest[j] == objects[j]);
        }
        assert forall|i: int| 0 <= i < rest.len() implies !has_key(model, #[trigger] rest[i].0) by {
            assert(rest[i] == objects[i]);
        }
        lemma_stored_fresh(model, rest);
        let e = objects.last();
        assert(!has_key(model + rest, e.0)) by {
            if has_key(model + rest, e.0) {
                let i = choose|i: int| 0 <= i < (model + rest).len() && #[trigger] (model + rest)[i].0 == e.0;
                if i < model.len() {
                    assert(model[i].0 == e.0);
                    assert(objects[objects.len() - 1] == e);
                } else {
                    assert(rest[i - model.len()] == objects[i - model.len()]);
                    assert(objects[i - model.len()].0 != objects[objects.len() - 1].0);
                }
            }
        }
        lemma_assoc_set_absent(model + rest, e.0, e.1);
        assert((model + rest).push(e) =~= model + objects);
    }
}

} // verus!
