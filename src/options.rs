//! The values that extensions report and accept: switch and PWM values, named data points,
//! configuration options, and length-prefixed lists of them.

use vstd::prelude::*;

use crate::sendable::{
    copy_bytes, lemma_splice_twice, slice_to_vec, splice, tail_from, text_encoding, text_parse,
    write_bytes, Sendable,
};

verus! {

/// The values possible for configuration options and metrics.
#[derive(Debug, PartialEq, Eq, Structural, Clone, Copy)]
pub enum Value {
    Switch { state: bool },
    Pwm { percent: u8 },
}

#[derive(Debug, PartialEq, Eq, Structural, Clone, Copy)]
pub enum ValueDeserializeError {
    UnknownType(u8),
}

impl View for Value {
    type V = Value;

    open spec fn view(&self) -> Value {
        *self
    }
}

/// The two bytes of a value: its type tag, then its operand.
pub open spec fn value_encoding(v: Value) -> Seq<u8> {
    match v {
        Value::Switch { state } => seq![0u8, if state { 1u8 } else { 0u8 }],
        Value::Pwm { percent } => seq![1u8, percent],
    }
}

/// Reading a value from its tag and operand bytes.
pub open spec fn value_parse(tag: u8, operand: u8) -> Result<Value, ValueDeserializeError> {
    if tag == 0 {
        Ok(Value::Switch { state: operand == 1 })
    } else if tag == 1 {
        Ok(Value::Pwm { percent: operand })
    } else {
        Err(ValueDeserializeError::UnknownType(tag))
    }
}

impl Value {
    pub fn serialize(&self) -> (r: [u8; 2])
        ensures
            r@ == value_encoding(*self),
    {
        let mut buffer = [0u8; 2];
        match self {
            Value::Switch { state } => {
                buffer[0] = 0;
                buffer[1] = if *state { 1 } else { 0 };
            },
            Value::Pwm { percent } => {
                buffer[0] = 1;
                buffer[1] = *percent;
            },
        }
        assert(buffer@ =~= value_encoding(*self));
        buffer
    }

    pub fn deserialize(buffer: &[u8; 2]) -> (r: Result<Value, ValueDeserializeError>)
        ensures
            r == value_parse(buffer@[0], buffer@[1]),
    {
        let tag = buffer[0];
        let operand = buffer[1];
        if tag == 0 {
            Ok(Value::Switch { state: operand == 1 })
        } else if tag == 1 {
            Ok(Value::Pwm { percent: operand })
        } else {
            Err(ValueDeserializeError::UnknownType(tag))
        }
    }
}

/// Reading a value back from its two bytes gives the value.
pub proof fn lemma_value_round_trip(v: Value)
    ensures
        value_encoding(v).len() == 2,
        value_parse(value_encoding(v)[0], value_encoding(v)[1]) == Ok::<
            Value,
            ValueDeserializeError,
        >(v),
{
}

#[derive(Debug, PartialEq, Eq, Structural, Clone, Copy)]
pub enum DataPointDeserializeError {
    ValueError(ValueDeserializeError),
    Other,
}

/// A combination of name and value, that stands for a metric or a configuration depending on
/// the context.
#[derive(Debug, PartialEq, Eq, Clone)]
pub struct DataPoint {
    /// The name, as UTF-8 bytes
    pub name: Vec<u8>,
    /// The value of this data point
    pub value: Value,
}

impl View for DataPoint {
    type V = (Seq<u8>, Value);

    open spec fn view(&self) -> (Seq<u8>, Value) {
        (self.name@, self.value)
    }
}

/// Reading a data point from the front of `s`.
pub open spec fn data_point_parse(s: Seq<u8>) -> Result<((Seq<u8>, Value), nat), DataPointDeserializeError> {
    match text_parse(s) {
        Err(_) => Err(DataPointDeserializeError::Other),
        Ok((name, n)) => if s.len() < n + 2 {
            Err(DataPointDeserializeError::Other)
        } else {
            match value_parse(s[n as int], s[n + 1 as int]) {
                Ok(value) => Ok(((name, value), n + 2)),
                Err(e) => Err(DataPointDeserializeError::ValueError(e)),
            }
        },
    }
}

impl Sendable for DataPoint {
    type SerError = ();

    type DeSerError = DataPointDeserializeError;

    open spec fn spec_encoding(v: (Seq<u8>, Value)) -> Seq<u8> {
        text_encoding(v.0) + value_encoding(v.1)
    }

    open spec fn spec_in_domain(v: (Seq<u8>, Value)) -> bool {
        <Vec<u8> as Sendable>::spec_in_domain(v.0)
    }

    open spec fn spec_parse(s: Seq<u8>) -> Result<((Seq<u8>, Value), nat), DataPointDeserializeError> {
        data_point_parse(s)
    }

    proof fn lemma_round_trip(v: (Seq<u8>, Value), rest: Seq<u8>) {
        let s = text_encoding(v.0) + value_encoding(v.1) + rest;
        assert(s =~= text_encoding(v.0) + (value_encoding(v.1) + rest));
        <Vec<u8> as Sendable>::lemma_round_trip(v.0, value_encoding(v.1) + rest);
        let n = text_encoding(v.0).len();
        assert(s[n as int] == value_encoding(v.1)[0]);
        assert(s[n + 1 as int] == value_encoding(v.1)[1]);
    }

    proof fn lemma_parse_prefix(s: Seq<u8>, t: Seq<u8>) {
        if let Ok((name, n)) = text_parse(s) {
            if s.len() >= n + 2 {
                let m = n + 2;
                let u = s.subrange(0, m as int) + t;
                <Vec<u8> as Sendable>::lemma_parse_prefix(s, s.subrange(n as int, m as int) + t);
                assert(s.subrange(0, n as int) + (s.subrange(n as int, m as int) + t) =~= u);
                assert(u[n as int] == s[n as int]);
                assert(u[n + 1 as int] == s[n + 1 as int]);
            }
        }
    }

    fn serialize(&self, buffer: &mut Vec<u8>, at: usize) -> (r: Result<usize, ()>) {
        let ghost start = buffer@;
        let mid = match self.name.serialize(buffer, at) {
            Ok(m) => m,
            Err(e) => {
                return Err(e);
            },
        };
        if buffer.len() - mid < 2 {
            return Err(());
        }
        let bytes = self.value.serialize();
        write_bytes(buffer, mid, bytes.as_slice());
        assert(buffer@ =~= splice(start, at as int, text_encoding(self.name@) + value_encoding(self.value)));
        Ok(mid + 2)
    }

    fn deserialize(buffer: &[u8], at: usize) -> (r: Result<(DataPoint, usize), DataPointDeserializeError>) {
        let ghost s = tail_from(buffer@, at as int);
        let (name, mid) = match <Vec<u8> as Sendable>::deserialize(buffer, at) {
            Ok(p) => p,
            Err(_) => {
                return Err(DataPointDeserializeError::Other);
            },
        };
        if buffer.len() - mid < 2 {
            return Err(DataPointDeserializeError::Other);
        }
        let bytes: [u8; 2] = [buffer[mid], buffer[mid + 1]];
        assert(s[mid - at] == buffer@[mid as int]);
        assert(s[mid - at + 1] == buffer@[mid + 1]);
        match Value::deserialize(&bytes) {
            Ok(value) => Ok((DataPoint { name, value }, mid + 2)),
            Err(e) => Err(DataPointDeserializeError::ValueError(e)),
        }
    }

    fn duplicate(&self) -> (r: DataPoint) {
        DataPoint { name: copy_bytes(&self.name), value: self.value }
    }
}

#[derive(Debug, PartialEq, Eq, Structural, Clone, Copy)]
pub enum ValueType {
    Switch,
    Pwm,
}

/// The tag byte of a value type.
pub open spec fn value_type_tag(t: ValueType) -> u8 {
    match t {
        ValueType::Switch => 0,
        ValueType::Pwm => 1,
    }
}

/// A single configuration option offered by an extension board, so that the controller can
/// learn what it may configure.
#[derive(Debug, PartialEq, Eq, Clone)]
pub struct ConfigOption {
    /// The name of the option, unique on its board, as UTF-8 bytes
    pub name: Vec<u8>,
    /// The type of the option
    pub ty: ValueType,
}

impl View for ConfigOption {
    type V = (Seq<u8>, ValueType);

    open spec fn view(&self) -> (Seq<u8>, ValueType) {
        (self.name@, self.ty)
    }
}

/// Reading a configuration option from the front of `s`.
pub open spec fn config_option_parse(s: Seq<u8>) -> Result<((Seq<u8>, ValueType), nat), ()> {
    match text_parse(s) {
        Err(_) => Err(()),
        Ok((name, n)) => if s.len() < n + 1 {
            Err(())
        } else if s[n as int] == 0 {
            Ok(((name, ValueType::Switch), n + 1))
        } else if s[n as int] == 1 {
            Ok(((name, ValueType::Pwm), n + 1))
        } else {
            Err(())
        },
    }
}

impl Sendable for ConfigOption {
    type SerError = ();

    type DeSerError = ();

    open spec fn spec_encoding(v: (Seq<u8>, ValueType)) -> Seq<u8> {
        text_encoding(v.0) + seq![value_type_tag(v.1)]
    }

    open spec fn spec_in_domain(v: (Seq<u8>, ValueType)) -> bool {
        <Vec<u8> as Sendable>::spec_in_domain(v.0)
    }

    open spec fn spec_parse(s: Seq<u8>) -> Result<((Seq<u8>, ValueType), nat), ()> {
        config_option_parse(s)
    }

    proof fn lemma_round_trip(v: (Seq<u8>, ValueType), rest: Seq<u8>) {
        let s = text_encoding(v.0) + seq![value_type_tag(v.1)] + rest;
        assert(s =~= text_encoding(v.0) + (seq![value_type_tag(v.1)] + rest));
        <Vec<u8> as Sendable>::lemma_round_trip(v.0, seq![value_type_tag(v.1)] + rest);
        let n = text_encoding(v.0).len();
        assert(s[n as int] == value_type_tag(v.1));
    }

    proof fn lemma_parse_prefix(s: Seq<u8>, t: Seq<u8>) {
        if let Ok((name, n)) = text_parse(s) {
            if s.len() >= n + 1 {
                let m = n + 1;
                let u = s.subrange(0, m as int) + t;
                <Vec<u8> as Sendable>::lemma_parse_prefix(s, s.subrange(n as int, m as int) + t);
                assert(s.subrange(0, n as int) + (s.subrange(n as int, m as int) + t) =~= u);
                assert(u[n as int] == s[n as int]);
            }
        }
    }

    fn serialize(&self, buffer: &mut Vec<u8>, at: usize) -> (r: Result<usize, ()>) {
        let ghost start = buffer@;
        let mid = match self.name.serialize(buffer, at) {
            Ok(m) => m,
            Err(e) => {
                return Err(e);
            },
        };
        if buffer.len() - mid < 1 {
            return Err(());
        }
        let tag: u8 = match self.ty {
            ValueType::Switch => 0,
            ValueType::Pwm => 1,
        };
        buffer.set(mid, tag);
        assert(buffer@ =~= splice(start, at as int, text_encoding(self.name@) + seq![tag]));
        Ok(mid + 1)
    }

    fn deserialize(buffer: &[u8], at: usize) -> (r: Result<(ConfigOption, usize), ()>) {
        let ghost s = tail_from(buffer@, at as int);
        let (name, mid) = match <Vec<u8> as Sendable>::deserialize(buffer, at) {
            Ok(p) => p,
            Err(_) => {
                return Err(());
            },
        };
        if buffer.len() - mid < 1 {
            return Err(());
        }
        let tag = buffer[mid];
        assert(s[mid - at] == buffer@[mid as int]);
        let ty = if tag == 0 {
            ValueType::Switch
        } else if tag == 1 {
            ValueType::Pwm
        } else {
            return Err(());
        };
        Ok((ConfigOption { name, ty }, mid + 1))
    }

    fn duplicate(&self) -> (r: ConfigOption) {
        ConfigOption { name: copy_bytes(&self.name), ty: self.ty }
    }
}

/// A list of items to send or received: either items held here (`Fixed`, iterated from
/// `index` on), or the bytes of `length` received items, read one by one and consumed as they
/// are read.
#[derive(Debug, PartialEq, Eq)]
pub enum OptionsIter<T> {
    Received { buffer: Vec<u8>, length: usize },
    Fixed { data: Vec<T>, index: usize },
}

#[derive(Debug, PartialEq, Eq)]
pub enum OptionsIterDeserializeError<E> {
    EmptyBuffer,
    InnerError(E),
}

#[derive(Debug, PartialEq, Eq)]
pub enum OptionsIterSerializeError<E> {
    EmptyBuffer,
    /// The item count does not fit its byte, or the received bytes do not fit the buffer
    TooLong,
    InnerError(E),
}

/// Reading `k` items one after the other from the front of `s`: the items and the number of
/// bytes they took.
pub open spec fn list_parse<T: Sendable>(s: Seq<u8>, k: nat) -> Result<(Seq<T::V>, nat), T::DeSerError>
    decreases k,
{
    if k == 0 {
        Ok((Seq::empty(), 0))
    } else {
        match T::spec_parse(s) {
            Err(e) => Err(e),
            Ok((v, n)) => match list_parse::<T>(tail_from(s, n as int), (k - 1) as nat) {
                Err(e) => Err(e),
                Ok((vs, m)) => Ok((seq![v] + vs, n + m)),
            },
        }
    }
}

/// The encodings of `vs`, one after the other.
pub open spec fn list_encoding<T: Sendable>(vs: Seq<T::V>) -> Seq<u8>
    decreases vs.len(),
{
    if vs.len() == 0 {
        Seq::empty()
    } else {
        T::spec_encoding(vs[0]) + list_encoding::<T>(vs.drop_first())
    }
}

/// Reading a list from the front of `s`: the bytes of its items, their count, and the number of
/// bytes the list took.
pub open spec fn options_parse<T: Sendable>(s: Seq<u8>) -> Result<(Seq<u8>, nat, nat), OptionsIterDeserializeError<T::DeSerError>> {
    if s.len() == 0 {
        Err(OptionsIterDeserializeError::EmptyBuffer)
    } else {
        match list_parse::<T>(tail_from(s, 1), s[0] as nat) {
            Err(e) => Err(OptionsIterDeserializeError::InnerError(e)),
            Ok((_, m)) => Ok((s.subrange(1, 1 + m as int), s[0] as nat, 1 + m)),
        }
    }
}

pub proof fn lemma_list_encoding_concat<T: Sendable>(a: Seq<T::V>, b: Seq<T::V>)
    ensures
        list_encoding::<T>(a + b) == list_encoding::<T>(a) + list_encoding::<T>(b),
    decreases a.len(),
{
    if a.len() == 0 {
        assert(a + b =~= b);
        assert(list_encoding::<T>(a) + list_encoding::<T>(b) =~= list_encoding::<T>(b));
    } else {
        assert((a + b).drop_first() =~= a.drop_first() + b);
        lemma_list_encoding_concat::<T>(a.drop_first(), b);
        assert((a + b)[0] == a[0]);
        assert(list_encoding::<T>(a + b) =~= list_encoding::<T>(a) + list_encoding::<T>(b));
    }
}

proof fn lemma_list_encoding_one<T: Sendable>(v: T::V)
    ensures
        list_encoding::<T>(seq![v]) == T::spec_encoding(v),
{
    assert(seq![v].drop_first() =~= Seq::<T::V>::empty());
    assert(seq![v][0] == v);
    assert(list_encoding::<T>(Seq::<T::V>::empty()) == Seq::<u8>::empty());
    assert(T::spec_encoding(v) + Seq::<u8>::empty() =~= T::spec_encoding(v));
}

/// One more item read after `i` items.
proof fn lemma_list_parse_step<T: Sendable>(s: Seq<u8>, i: nat)
    ensures
        list_parse::<T>(s, i) matches Ok((vs, m)) ==> m <= s.len() && list_parse::<T>(s, i + 1)
            == match T::spec_parse(tail_from(s, m as int)) {
            Ok((v, n)) => Ok::<(Seq<T::V>, nat), T::DeSerError>((vs.push(v), m + n)),
            Err(e) => Err(e),
        },
    decreases i,
{
    if i == 0 {
        assert(tail_from(s, 0) =~= s);
        T::lemma_parse_prefix(s, Seq::empty());
        if let Ok((v, n)) = T::spec_parse(s) {
            assert(list_parse::<T>(tail_from(s, n as int), 0) == Ok::<(Seq<T::V>, nat), T::DeSerError>(
                (Seq::empty(), 0),
            ));
            assert(seq![v] + Seq::<T::V>::empty() =~= Seq::<T::V>::empty().push(v));
        }
    } else {
        T::lemma_parse_prefix(s, Seq::empty());
        if let Ok((v, n)) = T::spec_parse(s) {
            let rest = tail_from(s, n as int);
            lemma_list_parse_step::<T>(rest, (i - 1) as nat);
            if let Ok((vs, m)) = list_parse::<T>(rest, (i - 1) as nat) {
                assert(tail_from(rest, m as int) =~= tail_from(s, (n + m) as int));
                if let Ok((w, k)) = T::spec_parse(tail_from(s, (n + m) as int)) {
                    assert(seq![v] + vs.push(w) =~= (seq![v] + vs).push(w));
                    assert(list_parse::<T>(s, i + 1) == Ok::<(Seq<T::V>, nat), T::DeSerError>(
                        ((seq![v] + vs).push(w), n + m + k),
                    ));
                }
            }
        }
    }
}

/// A failed read stays failed when more items are asked for.
proof fn lemma_list_parse_err<T: Sendable>(s: Seq<u8>, i: nat, j: nat)
    requires
        i <= j,
        list_parse::<T>(s, i) is Err,
    ensures
        list_parse::<T>(s, j) == list_parse::<T>(s, i),
    decreases i,
{
    if let Ok((v, n)) = T::spec_parse(s) {
        lemma_list_parse_err::<T>(tail_from(s, n as int), (i - 1) as nat, (j - 1) as nat);
    }
}

/// Reading `k` items depends only on the bytes they took.
pub proof fn lemma_list_parse_prefix<T: Sendable>(s: Seq<u8>, k: nat, t: Seq<u8>)
    ensures
        list_parse::<T>(s, k) matches Ok((vs, m)) ==> m <= s.len() && list_parse::<T>(
            s.subrange(0, m as int) + t,
            k,
        ) == list_parse::<T>(s, k),
    decreases k,
{
    if k > 0 {
        if let Ok((v, n)) = T::spec_parse(s) {
            T::lemma_parse_prefix(s, Seq::empty());
            let rest = tail_from(s, n as int);
            lemma_list_parse_prefix::<T>(rest, (k - 1) as nat, t);
            if let Ok((vs, m)) = list_parse::<T>(rest, (k - 1) as nat) {
                let u = s.subrange(0, (n + m) as int) + t;
                T::lemma_parse_prefix(s, s.subrange(n as int, (n + m) as int) + t);
                assert(s.subrange(0, n as int) + (s.subrange(n as int, (n + m) as int) + t) =~= u);
                assert(tail_from(u, n as int) =~= rest.subrange(0, m as int) + t);
            }
        }
    }
}

/// Reading back the encodings of items that can be encoded gives the items.
pub proof fn lemma_list_round_trip<T: Sendable>(vs: Seq<T::V>, rest: Seq<u8>)
    requires
        forall|i: int| 0 <= i < vs.len() ==> T::spec_in_domain(#[trigger] vs[i]),
    ensures
        list_parse::<T>(list_encoding::<T>(vs) + rest, vs.len()) == Ok::<
            (Seq<T::V>, nat),
            T::DeSerError,
        >((vs, list_encoding::<T>(vs).len())),
    decreases vs.len(),
{
    if vs.len() == 0 {
        assert(vs =~= Seq::<T::V>::empty());
    } else {
        let tail = vs.drop_first();
        let s = list_encoding::<T>(vs) + rest;
        let e = T::spec_encoding(vs[0]);
        assert(s =~= e + (list_encoding::<T>(tail) + rest));
        T::lemma_round_trip(vs[0], list_encoding::<T>(tail) + rest);
        assert(tail_from(s, e.len() as int) =~= list_encoding::<T>(tail) + rest);
        assert forall|i: int| 0 <= i < tail.len() implies T::spec_in_domain(#[trigger] tail[i]) by {
            assert(tail[i] == vs[i + 1]);
        }
        lemma_list_round_trip::<T>(tail, rest);
        assert(seq![vs[0]] + tail =~= vs);
    }
}

impl<T: Sendable> OptionsIter<T> {
    /// The items the list stands for.
    pub open spec fn listed(&self) -> Seq<T::V> {
        match self {
            OptionsIter::Fixed { data, .. } => data@.map_values(|x: T| x@),
            OptionsIter::Received { buffer, length } => match list_parse::<T>(buffer@, *length as nat) {
                Ok((vs, _)) => vs,
                Err(_) => Seq::empty(),
            },
        }
    }

    /// The bytes the list is written as: its count, then its items.
    pub open spec fn wire(&self) -> Seq<u8> {
        match self {
            OptionsIter::Fixed { data, .. } => seq![data.len() as u8] + list_encoding::<T>(self.listed()),
            OptionsIter::Received { buffer, length } => seq![*length as u8] + buffer@,
        }
    }

    /// Whether the list can be written: its count fits a byte and each held item can be encoded.
    pub open spec fn writable(&self) -> bool {
        match self {
            OptionsIter::Fixed { data, .. } => data.len() <= 255 && forall|i: int|
                0 <= i < data.len() ==> T::spec_in_domain(#[trigger] data@[i]@),
            OptionsIter::Received { length, .. } => *length <= 255,
        }
    }

    /// A writable list whose received bytes are exactly the encodings of its items.
    pub open spec fn in_domain(&self) -> bool {
        &&& self.writable()
        &&& match self {
            OptionsIter::Fixed { .. } => true,
            OptionsIter::Received { buffer, length } => list_parse::<T>(buffer@, *length as nat)
                matches Ok((_, m)) && m == buffer@.len(),
        }
    }

    /// The number of items left to take with `next`.
    pub fn length(&self) -> (r: usize)
        ensures
            r == match self {
                OptionsIter::Received { length, .. } => *length as int,
                OptionsIter::Fixed { data, index } => if *index < data.len() {
                    data.len() - *index
                } else {
                    0
                },
            },
    {
        match self {
            OptionsIter::Received { length, .. } => *length,
            OptionsIter::Fixed { data, index } => if *index < data.len() {
                data.len() - *index
            } else {
                0
            },
        }
    }
}

impl<T: Sendable> OptionsIter<T> {
    /// The number of items the list is written with.
    pub open spec fn count(&self) -> nat {
        match self {
            OptionsIter::Received { length, .. } => *length as nat,
            OptionsIter::Fixed { data, .. } => data.len() as nat,
        }
    }

    /// Writes the count and then the items at `at`, and returns the offset just past them.
    pub fn serialize(&self, buffer: &mut Vec<u8>, at: usize) -> (r: Result<usize, OptionsIterSerializeError<T::SerError>>)
        requires
            at <= old(buffer)@.len(),
        ensures
            final(buffer)@.len() == old(buffer)@.len(),
            final(buffer)@.subrange(0, at as int) == old(buffer)@.subrange(0, at as int),
            (r matches Err(OptionsIterSerializeError::EmptyBuffer)) <==> at == old(buffer)@.len(),
            r is Ok <==> (self.writable() && at + self.wire().len() <= old(buffer)@.len()),
            (r matches Err(OptionsIterSerializeError::TooLong)) <==> (at < old(buffer)@.len() && (
            self.count() > 255 || (self is Received && at + self.wire().len()
                > old(buffer)@.len()))),
            r matches Ok(end) ==> end == at + self.wire().len() && final(buffer)@ == splice(
                old(buffer)@,
                at as int,
                self.wire(),
            ),
    {
        let ghost start = buffer@;
        if at == buffer.len() {
            return Err(OptionsIterSerializeError::EmptyBuffer);
        }
        match self {
            OptionsIter::Fixed { data, .. } => {
                if data.len() > 255 {
                    return Err(OptionsIterSerializeError::TooLong);
                }
                let ghost views = self.listed();
                let count = data.len() as u8;
                buffer.set(at, count);
                assert(buffer@ =~= splice(start, at as int, seq![count] + list_encoding::<T>(views.take(0))));
                let mut pos: usize = at + 1;
                let mut i: usize = 0;
                while i < data.len()
                    invariant
                        start == old(buffer)@,
                        views == data@.map_values(|x: T| x@),
                        views == self.listed(),
                        self is Fixed,
                        self.count() == data.len() <= 255,
                        count == data.len() as u8,
                        self.wire() == seq![count] + list_encoding::<T>(views),
                        self.writable() == (forall|j: int|
                            0 <= j < data.len() ==> T::spec_in_domain(#[trigger] data@[j]@)),
                        at < start.len(),
                        buffer@.len() == start.len(),
                        i <= data.len(),
                        pos == at + 1 + list_encoding::<T>(views.take(i as int)).len(),
                        pos <= buffer@.len(),
                        buffer@ == splice(start, at as int, seq![count] + list_encoding::<T>(views.take(i as int))),
                        forall|j: int| 0 <= j < i ==> T::spec_in_domain(#[trigger] data@[j]@),
                    decreases data.len() - i,
                {
                    let ghost before = buffer@;
                    match data[i].serialize(buffer, pos) {
                        Ok(end) => {
                            proof {
                                let w = seq![count] + list_encoding::<T>(views.take(i as int));
                                let e = T::spec_encoding(views[i as int]);
                                lemma_splice_twice(start, at as int, w, e);
                                lemma_list_encoding_concat::<T>(views.take(i as int), seq![views[i as int]]);
                                lemma_list_encoding_one::<T>(views[i as int]);
                                assert(views.take(i + 1) =~= views.take(i as int) + seq![views[i as int]]);
                                assert(w + e =~= seq![count] + list_encoding::<T>(views.take(i + 1)));
                            }
                            pos = end;
                            i = i + 1;
                        },
                        Err(e) => {
                            assert(buffer@.len() == before.len());
                            assert(buffer@.subrange(0, pos as int) == before.subrange(0, pos as int));
                            proof {
                                lemma_list_encoding_concat::<T>(views.take(i + 1), views.skip(i + 1));
                                assert(views =~= views.take(i + 1) + views.skip(i + 1));
                                lemma_list_encoding_concat::<T>(views.take(i as int), seq![views[i as int]]);
                                lemma_list_encoding_one::<T>(views[i as int]);
                                assert(views.take(i + 1) =~= views.take(i as int) + seq![views[i as int]]);
                                assert(buffer@.subrange(0, at as int) =~= before.subrange(0, pos as int).subrange(0, at as int));
                                assert(before.subrange(0, at as int) =~= start.subrange(0, at as int));
                            }
                            return Err(OptionsIterSerializeError::InnerError(e));
                        },
                    }
                }
                assert(views.take(data.len() as int) =~= views);
                Ok(pos)
            },
            OptionsIter::Received { buffer: bytes, length } => {
                if *length > 255 || buffer.len() - at - 1 < bytes.len() {
                    return Err(OptionsIterSerializeError::TooLong);
                }
                let count = *length as u8;
                buffer.set(at, count);
                write_bytes(buffer, at + 1, bytes.as_slice());
                assert(buffer@ =~= splice(start, at as int, seq![count] + bytes@));
                Ok(at + 1 + bytes.len())
            },
        }
    }

    /// Reads a list at `at`: each item is read once to find where the list ends, and its
    /// bytes are kept for reading the items later.
    pub fn deserialize(buffer: &[u8], at: usize) -> (r: Result<(OptionsIter<T>, usize), OptionsIterDeserializeError<T::DeSerError>>)
        requires
            at <= buffer@.len(),
        ensures
            match options_parse::<T>(tail_from(buffer@, at as int)) {
                Ok((b, k, n)) => r matches Ok((x, end)) && x matches OptionsIter::Received {
                    buffer: xb,
                    length,
                } && xb@ == b && length == k && end == at + n,
                Err(e) => r == Err::<(OptionsIter<T>, usize), OptionsIterDeserializeError<T::DeSerError>>(e),
            },
    {
        let ghost s = tail_from(buffer@, at as int);
        if at >= buffer.len() {
            return Err(OptionsIterDeserializeError::EmptyBuffer);
        }
        let items = buffer[at] as usize;
        assert(s[0] == buffer@[at as int]);
        let ghost body = tail_from(s, 1);
        assert(body =~= tail_from(buffer@, at + 1));
        let mut pos: usize = at + 1;
        let mut i: usize = 0;
        while i < items
            invariant
                at < buffer@.len(),
                s == tail_from(buffer@, at as int),
                items == s[0],
                body == tail_from(s, 1),
                body == tail_from(buffer@, at + 1),
                i <= items,
                pos <= buffer@.len(),
                list_parse::<T>(body, i as nat) matches Ok((_, m)) && pos == at + 1 + m,
            decreases items - i,
        {
            proof {
                lemma_list_parse_step::<T>(body, i as nat);
                assert(tail_from(body, pos - at - 1) =~= tail_from(buffer@, pos as int));
            }
            match T::deserialize(buffer, pos) {
                Ok((_, end)) => {
                    proof {
                        T::lemma_parse_prefix(tail_from(buffer@, pos as int), Seq::empty());
                    }
                    pos = end;
                    i = i + 1;
                },
                Err(e) => {
                    proof {
                        assert(T::spec_parse(tail_from(buffer@, pos as int)) == Err::<(T::V, nat), T::DeSerError>(e));
                        assert(list_parse::<T>(body, (i + 1) as nat) == Err::<(Seq<T::V>, nat), T::DeSerError>(e));
                        lemma_list_parse_err::<T>(body, (i + 1) as nat, items as nat);
                        assert(options_parse::<T>(s) == Err::<(Seq<u8>, nat, nat), OptionsIterDeserializeError<T::DeSerError>>(OptionsIterDeserializeError::InnerError(e)));
                    }
                    return Err(OptionsIterDeserializeError::InnerError(e));
                },
            }
        }
        let bytes = slice_to_vec(buffer, at + 1, pos);
        assert(bytes@ =~= s.subrange(1, pos - at));
        Ok((OptionsIter::Received { buffer: bytes, length: items }, pos))
    }

    /// Takes the next item: a held one is copied and the index moves on; a received one is
    /// read and its bytes are dropped from the list.
    pub fn next(&mut self) -> (r: Option<T>)
        ensures
            match *old(self) {
                OptionsIter::Received { buffer, length } => if length == 0 {
                    r is None && *final(self) == *old(self)
                } else {
                    match T::spec_parse(buffer@) {
                        Ok((v, n)) => {
                            &&& r matches Some(x) && x@ == v
                            &&& *final(self) matches OptionsIter::Received { buffer: b2, length: l2 }
                                && b2@ == tail_from(buffer@, n as int) && l2 == length - 1
                        },
                        Err(_) => r is None && *final(self) == *old(self),
                    }
                },
                OptionsIter::Fixed { data, index } => {
                    &&& *final(self) matches OptionsIter::Fixed { data: d2, index: i2 }
                    &&& d2 == data
                    &&& i2 == if index < usize::MAX { index + 1 } else { index as int }
                    &&& (r is Some <==> index < data.len())
                    &&& r matches Some(x) ==> x@ == data@[index as int]@
                },
            },
    {
        match self {
            OptionsIter::Received { buffer, length } => {
                if *length == 0 {
                    return None;
                }
                proof {
                    assert(tail_from(buffer@, 0) =~= buffer@);
                }
                match T::deserialize(buffer.as_slice(), 0) {
                    Ok((value, end)) => {
                        proof {
                            T::lemma_parse_prefix(buffer@, Seq::empty());
                        }
                        let rest = slice_to_vec(buffer.as_slice(), end, buffer.len());
                        *buffer = rest;
                        *length = *length - 1;
                        Some(value)
                    },
                    Err(_) => None,
                }
            },
            OptionsIter::Fixed { data, index } => {
                let r = if *index < data.len() {
                    Some(data[*index].duplicate())
                } else {
                    None
                };
                *index = index.saturating_add(1);
                r
            },
        }
    }
}

/// Reading back what a list is written as gives a list of the same items, written as the
/// same bytes, whatever follows it.
pub proof fn lemma_options_round_trip<T: Sendable>(x: OptionsIter<T>, rest: Seq<u8>)
    requires
        x.in_domain(),
    ensures
        options_parse::<T>(x.wire() + rest) matches Ok((b, k, n)) && n == x.wire().len() && seq![
            k as u8,
        ] + b == x.wire() && list_parse::<T>(b, k) == Ok::<(Seq<T::V>, nat), T::DeSerError>(
            (x.listed(), b.len()),
        ),
{
    let s = x.wire() + rest;
    match x {
        OptionsIter::Fixed { data, .. } => {
            let views = x.listed();
            let body = list_encoding::<T>(views);
            assert forall|i: int| 0 <= i < views.len() implies T::spec_in_domain(#[trigger] views[i]) by {
                assert(views[i] == data@[i]@);
            }
            assert(tail_from(s, 1) =~= body + rest);
            lemma_list_round_trip::<T>(views, rest);
            lemma_list_round_trip::<T>(views, Seq::empty());
            assert(body + Seq::<u8>::empty() =~= body);
            assert(s.subrange(1, 1 + body.len() as int) =~= body);
        },
        OptionsIter::Received { buffer, length } => {
            lemma_list_parse_prefix::<T>(buffer@, length as nat, rest);
            assert(buffer@.subrange(0, buffer@.len() as int) =~= buffer@);
            assert(tail_from(s, 1) =~= buffer@ + rest);
            assert(s.subrange(1, 1 + buffer@.len() as int) =~= buffer@);
        },
    }
}

impl<T> From<Vec<T>> for OptionsIter<T> {
    fn from(data: Vec<T>) -> Self {
        OptionsIter::Fixed { data, index: 0 }
    }
}

impl<T> vstd::std_specs::convert::FromSpecImpl<Vec<T>> for OptionsIter<T> {
    open spec fn obeys_from_spec() -> bool {
        true
    }

    open spec fn from_spec(data: Vec<T>) -> Self {
        OptionsIter::Fixed { data, index: 0 }
    }
}

} // verus!
