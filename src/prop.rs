//! Typed properties of a node.
use vstd::prelude::*;
use vstd::slice::slice_to_vec;
use vstd::utf8::{decode_utf8, valid_utf8};
use crate::error::Error;
use crate::tree::{node_links_wf, DevInfo};

verus! {

/// The kind of value that a property holds.
#[derive(Debug, Clone, Copy, PartialEq, Eq, Structural)]
pub enum PropType {
    Boolean,
    Int32,
    String,
    Byte,
    Unknown,
    Undefined,
    Int64,
}

/// The kind that the tree's numeric kind code stands for, if any.
pub open spec fn prop_type_of(raw: i32) -> Option<PropType> {
    if raw == 0 {
        Some(PropType::Boolean)
    } else if raw == 1 {
        Some(PropType::Int32)
    } else if raw == 2 {
        Some(PropType::String)
    } else if raw == 3 {
        Some(PropType::Byte)
    } else if raw == 4 {
        Some(PropType::Unknown)
    } else if raw == 5 {
        Some(PropType::Undefined)
    } else if raw == 6 {
        Some(PropType::Int64)
    } else {
        None
    }
}

impl PropType {
    /// Decodes the tree's numeric kind code.
    pub fn from_raw(raw: i32) -> (r: Option<PropType>)
        ensures
            r == prop_type_of(raw),
    {
        match raw {
            0 => Some(PropType::Boolean),
            1 => Some(PropType::Int32),
            2 => Some(PropType::String),
            3 => Some(PropType::Byte),
            4 => Some(PropType::Unknown),
            5 => Some(PropType::Undefined),
            6 => Some(PropType::Int64),
            _ => None,
        }
    }
}

/// What the snapshot holds of one property. Of the value lists, only the
/// one that matches `kind` is read; each holds what the tree gave for that
/// kind.
pub struct PropRecord {
    pub name: String,
    /// The kind code as the tree reports it.
    pub kind: i32,
    pub ints: Vec<i32>,
    pub int64s: Vec<i64>,
    /// Each string value, as the bytes before its terminating NUL.
    pub strings: Vec<Vec<u8>>,
    /// The byte values, absent where the tree could not read them.
    pub bytes: Option<Vec<u8>>,
}

/// The decoded kind of a record whose kind code is known.
pub open spec fn kind_of(p: PropRecord) -> PropType {
    prop_type_of(p.kind)->Some_0
}

/// The 32-bit value of a property: its first value, if it is of that kind.
pub open spec fn int32_value(p: PropRecord) -> Option<i32> {
    if kind_of(p) == PropType::Int32 && p.ints@.len() >= 1 {
        Some(p.ints@[0])
    } else {
        None
    }
}

/// The 64-bit value of a property; a 32-bit value is widened.
pub open spec fn int64_value(p: PropRecord) -> Option<i64> {
    if kind_of(p) == PropType::Int64 {
        if p.int64s@.len() >= 1 {
            Some(p.int64s@[0])
        } else {
            None
        }
    } else {
        match int32_value(p) {
            Some(v) => Some(v as i64),
            None => None,
        }
    }
}

/// The bytes of a string property's first value.
pub open spec fn cstr_value(p: PropRecord) -> Option<Seq<u8>> {
    if kind_of(p) == PropType::String && p.strings@.len() >= 1 {
        Some(p.strings@[0]@)
    } else {
        None
    }
}

/// A string property's first value as text, where it is valid UTF-8.
pub open spec fn text_value(p: PropRecord) -> Option<Seq<char>> {
    match cstr_value(p) {
        Some(b) => if valid_utf8(b) { Some(decode_utf8(b)) } else { None },
        None => None,
    }
}

/// The values of a byte property.
pub open spec fn bytes_value(p: PropRecord) -> Option<Seq<u8>> {
    if kind_of(p) == PropType::Byte {
        match p.bytes {
            Some(b) => Some(b@),
            None => None,
        }
    } else {
        None
    }
}

/// Each decoder yields a value only for a property of its own kind, a
/// 32-bit integer also decoding as a 64-bit one, widened without loss; and
/// a property of a decoder's kind that holds a value decodes.
pub proof fn lemma_decode_by_kind(p: PropRecord)
    requires
        prop_type_of(p.kind) is Some,
    ensures
        int32_value(p) is Some ==> kind_of(p) == PropType::Int32,
        int64_value(p) is Some ==> kind_of(p) == PropType::Int64 || kind_of(p) == PropType::Int32,
        cstr_value(p) is Some ==> kind_of(p) == PropType::String,
        text_value(p) is Some ==> kind_of(p) == PropType::String,
        bytes_value(p) is Some ==> kind_of(p) == PropType::Byte,
        kind_of(p) == PropType::Int32 && p.ints@.len() >= 1 ==> int32_value(p) == Some(p.ints@[0])
            && int64_value(p) == Some(p.ints@[0] as i64),
        kind_of(p) == PropType::Int64 && p.int64s@.len() >= 1 ==> int64_value(p) == Some(
            p.int64s@[0],
        ),
        kind_of(p) == PropType::String && p.strings@.len() >= 1 ==> cstr_value(p) == Some(
            p.strings@[0]@,
        ),
        kind_of(p) == PropType::String && p.strings@.len() >= 1 && valid_utf8(p.strings@[0]@)
            ==> text_value(p) == Some(decode_utf8(p.strings@[0]@)),
        kind_of(p) == PropType::Byte && p.bytes is Some ==> bytes_value(p) == Some(
            p.bytes->Some_0@,
        ),
{
}

/// Relies on `String::from_utf8`: text exactly when the bytes are valid
/// UTF-8.
#[verifier::external_body]
fn utf8_string(b: Vec<u8>) -> (r: Option<String>)
    ensures
        r is Some <==> valid_utf8(b@),
        r matches Some(s) ==> s@ == decode_utf8(b@),
{
    String::from_utf8(b).ok()
}

/// The character of decimal digit `d`.
pub open spec fn digit_char(d: nat) -> char {
    if d == 0 {
        '0'
    } else if d == 1 {
        '1'
    } else if d == 2 {
        '2'
    } else if d == 3 {
        '3'
    } else if d == 4 {
        '4'
    } else if d == 5 {
        '5'
    } else if d == 6 {
        '6'
    } else if d == 7 {
        '7'
    } else if d == 8 {
        '8'
    } else {
        '9'
    }
}

/// The decimal digits of `n`, without leading zeros.
pub open spec fn digits(n: nat) -> Seq<char>
    decreases n,
{
    if n < 10 {
        seq![digit_char(n)]
    } else {
        digits(n / 10).push(digit_char(n % 10))
    }
}

/// The decimal text of `v`, with a leading minus sign when negative.
pub open spec fn decimal(v: int) -> Seq<char> {
    if v < 0 {
        seq!['-'] + digits((-v) as nat)
    } else {
        digits(v as nat)
    }
}

/// Relies on `ToString::to_string` through `i64`'s `Display`: the decimal
/// text of the number.
#[verifier::external_body]
fn decimal_string(v: i64) -> (r: String)
    ensures
        r@ == decimal(v as int),
{
    v.to_string()
}

/// The text that shows a property's value: the number of an integer
/// property, the text of a string property, a placeholder otherwise.
pub open spec fn display_of(p: PropRecord) -> Seq<char> {
    if kind_of(p) == PropType::Int32 {
        decimal(int32_value(p)->Some_0 as int)
    } else if kind_of(p) == PropType::Int64 {
        decimal(int64_value(p)->Some_0 as int)
    } else if kind_of(p) == PropType::String {
        text_value(p)->Some_0
    } else {
        "<?Property>"@
    }
}

/// A view of one property of a node.
pub struct Property<'a> {
    parent: &'a DevInfo,
    node: usize,
    prop: usize,
}

impl<'a> Property<'a> {
    pub closed spec fn snapshot(&self) -> DevInfo {
        *self.parent
    }

    /// Which node, and which of its properties, this view shows.
    pub closed spec fn node_index(&self) -> nat {
        self.node as nat
    }

    pub closed spec fn prop_index(&self) -> nat {
        self.prop as nat
    }

    pub open spec fn wf(&self) -> bool {
        &&& self.snapshot().wf()
        &&& self.node_index() < self.snapshot().nodes().len()
        &&& self.prop_index() < self.snapshot().nodes()[self.node_index() as int].props@.len()
    }

    pub open spec fn record(&self) -> PropRecord {
        self.snapshot().nodes()[self.node_index() as int].props@[self.prop_index() as int]
    }

    fn rec(&self) -> (r: &'a PropRecord)
        requires
            self.wf(),
        ensures
            *r == self.record(),
            prop_type_of(r.kind) is Some,
    {
        assert(node_links_wf(self.snapshot().nodes(), self.node_index() as int));
        assert(prop_type_of(self.record().kind) is Some);
        &self.parent.nodes_vec()[self.node].props[self.prop]
    }

    pub fn name(&self) -> (r: String)
        requires
            self.wf(),
        ensures
            r@ == self.record().name@,
    {
        self.rec().name.clone()
    }

    /// The property's kind; a snapshot holds only known kind codes.
    pub fn value_type(&self) -> (r: PropType)
        requires
            self.wf(),
        ensures
            r == kind_of(self.record()),
    {
        match PropType::from_raw(self.rec().kind) {
            Some(t) => t,
            None => PropType::Unknown,
        }
    }

    /// The 64-bit value: of a 64-bit property, or of a 32-bit one widened.
    pub fn as_i64(&self) -> (r: Option<i64>)
        requires
            self.wf(),
        ensures
            r == int64_value(self.record()),
    {
        match self.value_type() {
            PropType::Int64 => {
                let v = &self.rec().int64s;
                if v.len() >= 1 {
                    Some(v[0])
                } else {
                    None
                }
            },
            PropType::Int32 => match self.as_i32() {
                Some(n) => Some(n as i64),
                None => None,
            },
            _ => None,
        }
    }

    /// The value of a 32-bit property.
    pub fn as_i32(&self) -> (r: Option<i32>)
        requires
            self.wf(),
        ensures
            r == int32_value(self.record()),
    {
        match self.value_type() {
            PropType::Int32 => {
                let v = &self.rec().ints;
                if v.len() >= 1 {
                    Some(v[0])
                } else {
                    None
                }
            },
            _ => None,
        }
    }

    /// The value of a string property as text; absent where it is not valid
    /// UTF-8.
    pub fn to_str(&self) -> (r: Option<String>)
        requires
            self.wf(),
        ensures
            r is Some <==> text_value(self.record()) is Some,
            r matches Some(s) ==> s@ == text_value(self.record())->Some_0,
    {
        match self.as_cstr() {
            Some(b) => utf8_string(slice_to_vec(b)),
            None => None,
        }
    }

    /// The bytes of a string property's value.
    pub fn as_cstr(&self) -> (r: Option<&'a [u8]>)
        requires
            self.wf(),
        ensures
            r is Some <==> cstr_value(self.record()) is Some,
            r matches Some(b) ==> b@ == cstr_value(self.record())->Some_0,
    {
        match self.value_type() {
            PropType::String => {
                let v = &self.rec().strings;
                if v.len() >= 1 {
                    Some(v[0].as_slice())
                } else {
                    None
                }
            },
            _ => None,
        }
    }

    /// Whether the property holds what `to_display_string` shows: a value
    /// for an integer property, valid UTF-8 text for a string property.
    pub open spec fn displayable(&self) -> bool {
        let p = self.record();
        &&& kind_of(p) == PropType::Int32 ==> p.ints@.len() >= 1
        &&& kind_of(p) == PropType::Int64 ==> p.int64s@.len() >= 1
        &&& kind_of(p) == PropType::String ==> text_value(p) is Some
    }

    /// The text that shows the property's value.
    pub fn to_display_string(&self) -> (r: String)
        requires
            self.wf(),
            self.displayable(),
        ensures
            r@ == display_of(self.record()),
    {
        match self.value_type() {
            PropType::Int32 => match self.as_i32() {
                Some(v) => decimal_string(v as i64),
                None => String::new(),
            },
            PropType::Int64 => match self.as_i64() {
                Some(v) => decimal_string(v),
                None => String::new(),
            },
            PropType::String => match self.to_str() {
                Some(s) => s,
                None => String::new(),
            },
            _ => "<?Property>".to_string(),
        }
    }

    /// The values of a byte property.
    pub fn as_bytes(&self) -> (r: Option<&'a [u8]>)
        requires
            self.wf(),
        ensures
            r is Some <==> bytes_value(self.record()) is Some,
            r matches Some(b) ==> b@ == bytes_value(self.record())->Some_0,
    {
        match self.value_type() {
            PropType::Byte => match &self.rec().bytes {
                Some(b) => Some(b.as_slice()),
                None => None,
            },
            _ => None,
        }
    }
}

/// A walk over the properties of one node, in the tree's order.
pub struct PropertyWalk<'a> {
    parent: &'a DevInfo,
    node: usize,
    prop: Option<usize>,
    fin: bool,
}

impl<'a> PropertyWalk<'a> {
    pub(crate) fn new(parent: &'a DevInfo, node: usize) -> (r: PropertyWalk<'a>)
        requires
            parent.wf(),
            node < parent.nodes().len(),
        ensures
            r.wf(),
            r.snapshot() == *parent,
            r.node_index() == node,
            r.position() is None,
            !r.finished(),
    {
        PropertyWalk { parent, node, prop: None, fin: false }
    }

    pub closed spec fn snapshot(&self) -> DevInfo {
        *self.parent
    }

    pub closed spec fn node_index(&self) -> nat {
        self.node as nat
    }

    /// The index of the property yielded last, absent before the first step.
    pub closed spec fn position(&self) -> Option<usize> {
        self.prop
    }

    pub closed spec fn finished(&self) -> bool {
        self.fin
    }

    /// The number of properties of the node walked.
    pub open spec fn count(&self) -> nat {
        self.snapshot().nodes()[self.node_index() as int].props@.len()
    }

    pub open spec fn wf(&self) -> bool {
        &&& self.snapshot().wf()
        &&& self.node_index() < self.snapshot().nodes().len()
        &&& (self.position() matches Some(i) ==> i < self.count())
    }

    /// The index of the property that the walk yields next.
    pub open spec fn next_spec(&self) -> Option<usize> {
        if self.finished() {
            None
        } else {
            let k = match self.position() {
                None => 0,
                Some(i) => i + 1,
            };
            if k < self.count() {
                Some(k as usize)
            } else {
                None
            }
        }
    }

    /// Yields the next property of the node.
    pub fn next(&mut self) -> (r: Option<Result<Property<'a>, Error>>)
        requires
            old(self).wf(),
        ensures
            final(self).wf(),
            final(self).snapshot() == old(self).snapshot(),
            final(self).node_index() == old(self).node_index(),
            final(self).finished() <==> old(self).next_spec() is None,
            r is Some <==> old(self).next_spec() is Some,
            r matches Some(x) ==> (x matches Ok(p) && p.wf() && p.snapshot() == old(self).snapshot()
                && p.node_index() == old(self).node_index() && Some(p.prop_index() as usize)
                == old(self).next_spec() && final(self).position() == old(self).next_spec()),
    {
        if self.fin {
            return None;
        }
        let len = self.parent.nodes_vec()[self.node].props.len();
        let k: usize = match self.prop {
            None => 0,
            Some(i) => i + 1,
        };
        if k >= len {
            self.fin = true;
            return None;
        }
        self.prop = Some(k);
        Some(Ok(Property { parent: self.parent, node: self.node, prop: k }))
    }
}

/// What `String::from_utf8_lossy` makes of a byte string.
pub uninterp spec fn lossy_text(b: Seq<u8>) -> Seq<char>;

/// Relies on `String::from_utf8_lossy`: the text is a function of the bytes,
/// and valid UTF-8 is decoded unchanged.
#[verifier::external_body]
fn lossy_string(b: &[u8]) -> (r: String)
    ensures
        r@ == lossy_text(b@),
        valid_utf8(b@) ==> r@ == decode_utf8(b@),
{
    String::from_utf8_lossy(b).into_owned()
}

/// Whether a property is a string property with exactly one value.
pub open spec fn is_single_string(p: PropRecord) -> bool {
    p.kind == 2 && p.strings@.len() == 1
}

/// The name-to-value mapping of the single-valued string properties, a
/// later property overriding an earlier one of the same name.
pub open spec fn string_prop_map(props: Seq<PropRecord>) -> Map<Seq<char>, Seq<char>>
    decreases props.len(),
{
    if props.len() == 0 {
        Map::empty()
    } else {
        let m = string_prop_map(props.drop_last());
        let p = props.last();
        if is_single_string(p) {
            m.insert(p.name@, lossy_text(p.strings@[0]@))
        } else {
            m
        }
    }
}

/// The pairs hold each key once and are exactly the mapping `m`.
pub open spec fn pairs_are(v: Seq<(String, String)>, m: Map<Seq<char>, Seq<char>>) -> bool {
    &&& forall|i: int, j: int| 0 <= i < j < v.len() ==> (#[trigger] v[i]).0@ != (#[trigger] v[j]).0@
    &&& forall|i: int| 0 <= i < v.len() ==> m.contains_key((#[trigger] v[i]).0@) && m[v[i].0@] == v[i].1@
    &&& forall|k: Seq<char>| #[trigger] m.contains_key(k) ==> exists|i: int| 0 <= i < v.len() && (#[trigger] v[i]).0@ == k
}

/// Reads the single-valued string properties into name-value pairs, one per
/// name, the last property of a name giving its value.
pub fn string_props(props: &Vec<PropRecord>) -> (r: Vec<(String, String)>)
    ensures
        pairs_are(r@, string_prop_map(props@)),
{
    let mut out: Vec<(String, String)> = Vec::new();
    let mut i: usize = 0;
    assert(props@.take(0) =~= Seq::<PropRecord>::empty());
    while i < props.len()
        invariant
            0 <= i <= props@.len(),
            pairs_are(out@, string_prop_map(props@.take(i as int))),
        decreases props@.len() - i,
    {
        let ghost before = out@;
        let ghost m = string_prop_map(props@.take(i as int));
        assert(props@.take(i + 1).drop_last() =~= props@.take(i as int));
        let p = &props[i];
        if p.kind == 2 && p.strings.len() == 1 {
            let name = p.name.clone();
            let val = lossy_string(p.strings[0].as_slice());
            let mut j: usize = 0;
            let mut found = false;
            while j < out.len()
                invariant_except_break
                    !found,
                invariant
                    0 <= j <= out@.len(),
                    out@ == before,
                    forall|q: int| 0 <= q < j ==> (#[trigger] out@[q]).0@ != name@,
                ensures
                    found ==> j < out@.len() && out@[j as int].0@ == name@,
                    !found ==> forall|q: int| 0 <= q < out@.len() ==> (#[trigger] out@[q]).0@ != name@,
                decreases out@.len() - j,
            {
                if out[j].0 == name {
                    found = true;
                    break;
                }
                j = j + 1;
            }
            let ghost m2 = m.insert(name@, val@);
            if found {
                out.set(j, (name, val));
                assert forall|k: Seq<char>| #[trigger] m2.contains_key(k) implies exists|q: int|
                    0 <= q < out@.len() && (#[trigger] out@[q]).0@ == k by {
                    if k != name@ {
                        let q = choose|q: int| 0 <= q < before.len() && (#[trigger] before[q]).0@ == k;
                        assert(out@[q] == before[q]);
                    } else {
                        assert(out@[j as int].0@ == k);
                    }
                }
            } else {
                out.push((name, val));
                assert forall|k: Seq<char>| #[trigger] m2.contains_key(k) implies exists|q: int|
                    0 <= q < out@.len() && (#[trigger] out@[q]).0@ == k by {
                    if k != name@ {
                        let q = choose|q: int| 0 <= q < before.len() && (#[trigger] before[q]).0@ == k;
                        assert(out@[q] == before[q]);
                    } else {
                        assert(out@[before.len() as int].0@ == k);
                    }
                }
            }
        }
        i = i + 1;
    }
    assert(props@.take(props@.len() as int) =~= props@);
    out
}

} // verus!
