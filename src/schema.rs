//! Records and tagged unions described at run time by a schema: ordered fields, each with
//! a shape, a way to obtain its context and a check; variants with optional discriminants.
use vstd::prelude::*;

use crate::bytes::{
    bytes_of, lemma_nat_of_bound, lemma_number_round_trip, lemma_pow256_eight,
    lemma_pow256_monotonic, nat_of, pow256, push_all, read_uint, try_split_at, write_uint,
};
use crate::{lemma_skip_skip, read_matches, write_matches, Error, PResult, SpecResult};

verus! {

/// An unsigned integer of fixed width in a given byte order.
#[derive(Debug, Clone, Copy, PartialEq, Eq, Structural)]
pub enum IntKind {
    U8,
    U16Le,
    U16Be,
    U32Le,
    U32Be,
    U64Le,
    U64Be,
}

impl IntKind {
    /// The number of bytes of the encoding.
    pub open spec fn width(self) -> nat {
        match self {
            IntKind::U8 => 1,
            IntKind::U16Le | IntKind::U16Be => 2,
            IntKind::U32Le | IntKind::U32Be => 4,
            IntKind::U64Le | IntKind::U64Be => 8,
        }
    }

    /// Whether the most significant byte comes first.
    pub open spec fn big(self) -> bool {
        match self {
            IntKind::U16Be | IntKind::U32Be | IntKind::U64Be => true,
            _ => false,
        }
    }

    pub fn byte_width(&self) -> (n: usize)
        ensures
            n == self.width(),
    {
        match self {
            IntKind::U8 => 1,
            IntKind::U16Le | IntKind::U16Be => 2,
            IntKind::U32Le | IntKind::U32Be => 4,
            IntKind::U64Le | IntKind::U64Be => 8,
        }
    }

    pub fn big_endian(&self) -> (b: bool)
        ensures
            b == self.big(),
    {
        match self {
            IntKind::U16Be | IntKind::U32Be | IntKind::U64Be => true,
            _ => false,
        }
    }

    /// Whether `x` can be written in this width.
    pub fn fits(&self, x: u64) -> (b: bool)
        ensures
            b == (x < pow256(self.width())),
    {
        proof {
            lemma_pow256_eight();
        }
        match self {
            IntKind::U8 => x <= 0xff,
            IntKind::U16Le | IntKind::U16Be => x <= 0xffff,
            IntKind::U32Le | IntKind::U32Be => x <= 0xffff_ffff,
            IntKind::U64Le | IntKind::U64Be => true,
        }
    }
}

/// What a field holds on the wire.
#[derive(Debug, Clone, Copy, PartialEq, Eq, Structural)]
pub enum Shape {
    /// One unsigned integer.
    Int(IntKind),
    /// Exactly this many bytes.
    Bytes(usize),
    /// As many bytes as the field's context value says.
    Counted,
    /// A length prefix of the given kind, then that many bytes.
    VarBytes(IntKind),
    /// Every remaining byte; only sensible as the last field.
    Rest,
    /// Never decodes and cannot be encoded.
    Never,
}

/// Where a field's context value comes from.
#[derive(Debug, Clone, Copy, PartialEq, Eq, Structural)]
pub enum ContextMode {
    /// The empty context, `0`, whatever the parent received.
    Empty,
    /// The parent's context, unchanged.
    Inherit,
    /// The value of an earlier integer field of the same record, by position.
    Field(usize),
    /// A fixed value.
    Literal(u64),
}

/// An inclusive range of integers.
#[derive(Debug, Clone, Copy, PartialEq, Eq, Structural)]
pub struct IntRange {
    pub lo: u64,
    pub hi: u64,
}

/// A decoded field value.
#[derive(Debug, Clone, PartialEq, Eq)]
pub enum Value {
    Int(u64),
    Bytes(Vec<u8>),
}

/// The model of a field value.
pub enum ValueModel {
    Int(u64),
    Bytes(Seq<u8>),
}

impl DeepView for Value {
    type V = ValueModel;

    open spec fn deep_view(&self) -> ValueModel {
        match self {
            Value::Int(x) => ValueModel::Int(*x),
            Value::Bytes(b) => ValueModel::Bytes(b@),
        }
    }
}

/// A check declared on a field, run right after the field is decoded.
#[derive(Debug, Clone)]
pub enum Check {
    /// Any value is accepted.
    Unchecked,
    /// The value must equal this one.
    Equals(Value),
    /// The value must differ from this one.
    NotEquals(Value),
    /// The value must be an integer inside one of these ranges.
    Matches(Vec<IntRange>),
}

/// One field of a record: its shape, its context and its check.
#[derive(Debug, Clone)]
pub struct Field {
    pub shape: Shape,
    pub context: ContextMode,
    pub check: Check,
}

/// One variant of a union: its fields and the discriminant that selects it, if any.
#[derive(Debug, Clone)]
pub struct Variant {
    pub fields: Vec<Field>,
    pub discriminant: Option<u64>,
}

/// The description of a type: a record of fields, or a union of variants, optionally
/// preceded by a discriminant of the given kind.
#[derive(Debug, Clone)]
pub enum Schema {
    Struct(Vec<Field>),
    Union { discriminant: Option<IntKind>, variants: Vec<Variant> },
}

/// A decoded value of a schema: which variant (`0` for a record) and its field values.
#[derive(Debug, Clone, PartialEq, Eq)]
pub struct Record {
    pub variant: usize,
    pub values: Vec<Value>,
}

impl DeepView for Record {
    type V = (usize, Seq<ValueModel>);

    open spec fn deep_view(&self) -> (usize, Seq<ValueModel>) {
        (self.variant, self.values.deep_view())
    }
}

/// What decoding one field of the given shape gives, with context value `ctx`.
pub open spec fn spec_read_shape(shape: Shape, src: Seq<u8>, ctx: u64) -> SpecResult<ValueModel> {
    match shape {
        Shape::Int(k) => if src.len() >= k.width() {
            Ok((ValueModel::Int(nat_of(src.take(k.width() as int), k.big()) as u64), k.width()))
        } else {
            Err((Error::NotEnoughBytes, 0))
        },
        Shape::Bytes(n) => if src.len() >= n {
            Ok((ValueModel::Bytes(src.take(n as int)), n as nat))
        } else {
            Err((Error::NotEnoughBytes, 0))
        },
        Shape::Counted => if src.len() >= ctx {
            Ok((ValueModel::Bytes(src.take(ctx as int)), ctx as nat))
        } else {
            Err((Error::NotEnoughBytes, 0))
        },
        Shape::VarBytes(k) => if src.len() >= k.width() {
            let w = k.width();
            let n = nat_of(src.take(w as int), k.big());
            if w + n <= src.len() {
                Ok((ValueModel::Bytes(src.subrange(w as int, (w + n) as int)), w + n))
            } else {
                Err((Error::NotEnoughBytes, w))
            }
        } else {
            Err((Error::NotEnoughBytes, 0))
        },
        Shape::Rest => Ok((ValueModel::Bytes(src), src.len())),
        Shape::Never => Err((Error::InvalidInput, 0)),
    }
}

/// The bytes that encode `v` as a field of the given shape, or `None` where `v` does not
/// have that shape.
pub open spec fn spec_write_shape(shape: Shape, v: ValueModel) -> Option<Seq<u8>> {
    match (shape, v) {
        (Shape::Int(k), ValueModel::Int(x)) => if x < pow256(k.width()) {
            Some(bytes_of(x as nat, k.width(), k.big()))
        } else {
            None
        },
        (Shape::Bytes(n), ValueModel::Bytes(b)) => if b.len() == n {
            Some(b)
        } else {
            None
        },
        (Shape::Counted, ValueModel::Bytes(b)) => Some(b),
        (Shape::VarBytes(k), ValueModel::Bytes(b)) => if b.len() < pow256(k.width()) {
            Some(bytes_of(b.len(), k.width(), k.big()) + b)
        } else {
            None
        },
        (Shape::Rest, ValueModel::Bytes(b)) => Some(b),
        _ => None,
    }
}

fn read_int<'a>(k: IntKind, source: &'a [u8]) -> (r: PResult<'a, Value>)
    ensures
        read_matches(r, source@, spec_read_shape(Shape::Int(k), source@, 0)),
{
    let w = k.byte_width();
    if source.len() < w {
        assert(source@ =~= source@.skip(0));
        return Err((Error::NotEnoughBytes, source));
    }
    let x = read_uint(source, w, k.big_endian());
    let rest = crate::bytes::try_split_at(source, w);
    match rest {
        Some((_, tail)) => Ok((Value::Int(x), tail)),
        None => Err((Error::NotEnoughBytes, source)),
    }
}

fn read_bytes<'a>(n: u64, source: &'a [u8]) -> (r: PResult<'a, Value>)
    ensures
        read_matches(
            r,
            source@,
            if source@.len() >= n {
                Ok((ValueModel::Bytes(source@.take(n as int)), n as nat))
            } else {
                Err((Error::NotEnoughBytes, 0))
            },
        ),
{
    if n > source.len() as u64 {
        assert(source@ =~= source@.skip(0));
        return Err((Error::NotEnoughBytes, source));
    }
    match try_split_at(source, n as usize) {
        Some((head, tail)) => Ok((Value::Bytes(vstd::slice::slice_to_vec(head)), tail)),
        None => Err((Error::NotEnoughBytes, source)),
    }
}

/// Decodes one field of the given shape, with context value `ctx`.
pub fn read_shape<'a>(shape: Shape, source: &'a [u8], ctx: u64) -> (r: PResult<'a, Value>)
    ensures
        read_matches(r, source@, spec_read_shape(shape, source@, ctx)),
{
    match shape {
        Shape::Int(k) => read_int(k, source),
        Shape::Bytes(n) => read_bytes(n as u64, source),
        Shape::Counted => read_bytes(ctx, source),
        Shape::VarBytes(k) => {
            let (len, rest) = match read_int(k, source) {
                Ok((Value::Int(x), rest)) => (x, rest),
                Ok((Value::Bytes(_), rest)) => {
                    return Err((Error::InvalidInput, rest));
                },
                Err(e) => {
                    return Err(e);
                },
            };
            let ghost w = (source@.len() - rest@.len()) as nat;
            proof {
                lemma_nat_of_bound(source@.take(w as int), k.big());
                lemma_pow256_monotonic(w, 8);
                lemma_pow256_eight();
            }
            match read_bytes(len, rest) {
                Ok((v, tail)) => {
                    proof {
                        lemma_skip_skip(source@, w as int, rest@.len() - tail@.len());
                        assert(source@.skip(w as int).take(len as int) =~= source@.subrange(
                            w as int,
                            w + len,
                        ));
                    }
                    Ok((v, tail))
                },
                Err((e, tail)) => {
                    proof {
                        lemma_skip_skip(source@, w as int, rest@.len() - tail@.len());
                    }
                    Err((e, tail))
                },
            }
        },
        Shape::Rest => {
            let tail = vstd::slice::slice_subrange(source, source.len(), source.len());
            assert(tail@ =~= source@.skip(source@.len() as int));
            Ok((Value::Bytes(vstd::slice::slice_to_vec(source)), tail))
        },
        Shape::Never => {
            assert(source@ =~= source@.skip(0));
            Err((Error::InvalidInput, source))
        },
    }
}

/// Appends the encoding of `v` as a field of the given shape.
pub fn write_shape(shape: Shape, v: &Value, out: &mut Vec<u8>) -> (r: Result<(), Error>)
    ensures
        write_matches(r, old(out)@, final(out)@, spec_write_shape(shape, v.deep_view())),
{
    match (shape, v) {
        (Shape::Int(k), Value::Int(x)) => {
            if k.fits(*x) {
                write_uint(*x, k.byte_width(), k.big_endian(), out);
                Ok(())
            } else {
                Err(Error::InvalidInput)
            }
        },
        (Shape::Bytes(n), Value::Bytes(b)) => {
            if b.len() == n {
                push_all(out, b.as_slice());
                Ok(())
            } else {
                Err(Error::InvalidInput)
            }
        },
        (Shape::Counted, Value::Bytes(b)) | (Shape::Rest, Value::Bytes(b)) => {
            push_all(out, b.as_slice());
            Ok(())
        },
        (Shape::VarBytes(k), Value::Bytes(b)) => {
            if b.len() as u64 <= u64::MAX && k.fits(b.len() as u64) {
                let ghost start = out@;
                write_uint(b.len() as u64, k.byte_width(), k.big_endian(), out);
                push_all(out, b.as_slice());
                assert(out@ =~= start + spec_write_shape(shape, v.deep_view())->Some_0);
                Ok(())
            } else {
                Err(Error::InvalidInput)
            }
        },
        _ => Err(Error::InvalidInput),
    }
}

/// The context value that a field receives, given the parent's context and the values of
/// the fields before it; `None` where it names a field that is not an earlier integer.
pub open spec fn spec_context(mode: ContextMode, parent: u64, earlier: Seq<ValueModel>) -> Option<
    u64,
> {
    match mode {
        ContextMode::Empty => Some(0),
        ContextMode::Inherit => Some(parent),
        ContextMode::Literal(x) => Some(x),
        ContextMode::Field(j) => if j < earlier.len() {
            match earlier[j as int] {
                ValueModel::Int(x) => Some(x),
                ValueModel::Bytes(_) => None,
            }
        } else {
            None
        },
    }
}

/// Whether `v` passes `check`.
pub open spec fn spec_check(check: Check, v: ValueModel) -> bool {
    match check {
        Check::Unchecked => true,
        Check::Equals(x) => v == x.deep_view(),
        Check::NotEquals(x) => v != x.deep_view(),
        Check::Matches(ranges) => match v {
            ValueModel::Int(x) => exists|i: int|
                0 <= i < ranges@.len() && #[trigger] ranges@[i].lo <= x && x <= ranges@[i].hi,
            ValueModel::Bytes(_) => false,
        },
    }
}

/// What decoding the fields in order gives: each field gets its context, is decoded from
/// where the previous one stopped, and is checked at once.
pub open spec fn spec_read_fields(fields: Seq<Field>, src: Seq<u8>, parent: u64) -> SpecResult<
    Seq<ValueModel>,
>
    decreases fields.len(),
{
    if fields.len() == 0 {
        Ok((Seq::empty(), 0))
    } else {
        match spec_read_fields(fields.drop_last(), src, parent) {
            Err(e) => Err(e),
            Ok((vs, n)) => {
                let f = fields.last();
                match spec_context(f.context, parent, vs) {
                    None => Err((Error::InvalidInput, n)),
                    Some(c) => match spec_read_shape(f.shape, src.skip(n as int), c) {
                        Err((e, m)) => Err((e, n + m)),
                        Ok((v, m)) => if spec_check(f.check, v) {
                            Ok((vs.push(v), n + m))
                        } else {
                            Err((Error::AssertionFailed, n + m))
                        },
                    },
                }
            },
        }
    }
}

/// The bytes that encode `vs` as the given fields in order, or `None` where the counts
/// differ or a value does not have its field's shape.
pub open spec fn spec_write_fields(fields: Seq<Field>, vs: Seq<ValueModel>) -> Option<Seq<u8>>
    decreases fields.len(),
{
    if fields.len() != vs.len() {
        None
    } else if fields.len() == 0 {
        Some(Seq::empty())
    } else {
        match (
            spec_write_fields(fields.drop_last(), vs.drop_last()),
            spec_write_shape(fields.last().shape, vs.last()),
        ) {
            (Some(a), Some(b)) => Some(a + b),
            _ => None,
        }
    }
}

fn bytes_equal(a: &[u8], b: &[u8]) -> (r: bool)
    ensures
        r == (a@ == b@),
{
    if a.len() != b.len() {
        return false;
    }
    let mut i: usize = 0;
    while i < a.len()
        invariant
            a@.len() == b@.len(),
            i <= a@.len(),
            a@.take(i as int) == b@.take(i as int),
        decreases a@.len() - i,
    {
        if a[i] != b[i] {
            assert(a@[i as int] != b@[i as int]);
            return false;
        }
        assert(a@.take(i + 1) =~= a@.take(i as int).push(a@[i as int]));
        assert(b@.take(i + 1) =~= b@.take(i as int).push(b@[i as int]));
        i += 1;
    }
    assert(a@.take(i as int) =~= a@);
    assert(b@.take(i as int) =~= b@);
    true
}

fn value_equal(a: &Value, b: &Value) -> (r: bool)
    ensures
        r == (a.deep_view() == b.deep_view()),
{
    match (a, b) {
        (Value::Int(x), Value::Int(y)) => *x == *y,
        (Value::Bytes(x), Value::Bytes(y)) => bytes_equal(x.as_slice(), y.as_slice()),
        _ => false,
    }
}

/// Whether `x` lies inside one of `ranges`.
fn in_ranges(ranges: &Vec<IntRange>, x: u64) -> (r: bool)
    ensures
        r == exists|i: int|
            0 <= i < ranges@.len() && #[trigger] ranges@[i].lo <= x && x <= ranges@[i].hi,
{
    let mut i: usize = 0;
    while i < ranges.len()
        invariant
            i <= ranges@.len(),
            forall|j: int| 0 <= j < i ==> !(#[trigger] ranges@[j].lo <= x && x <= ranges@[j].hi),
        decreases ranges@.len() - i,
    {
        if ranges[i].lo <= x && x <= ranges[i].hi {
            assert(ranges@[i as int].lo <= x && x <= ranges@[i as int].hi);
            return true;
        }
        i += 1;
    }
    false
}

/// Whether `v` passes `check`.
pub fn check_value(check: &Check, v: &Value) -> (r: bool)
    ensures
        r == spec_check(*check, v.deep_view()),
{
    match check {
        Check::Unchecked => true,
        Check::Equals(x) => value_equal(v, x),
        Check::NotEquals(x) => !value_equal(v, x),
        Check::Matches(ranges) => match v {
            Value::Int(x) => in_ranges(ranges, *x),
            Value::Bytes(_) => false,
        },
    }
}

/// The context value that field `mode` receives, given the values decoded before it.
pub fn field_context(mode: ContextMode, parent: u64, earlier: &Vec<Value>) -> (r: Option<u64>)
    ensures
        r == spec_context(mode, parent, earlier.deep_view()),
{
    match mode {
        ContextMode::Empty => Some(0),
        ContextMode::Inherit => Some(parent),
        ContextMode::Literal(x) => Some(x),
        ContextMode::Field(j) => if j < earlier.len() {
            match &earlier[j] {
                Value::Int(x) => Some(*x),
                Value::Bytes(_) => None,
            }
        } else {
            None
        },
    }
}

proof fn lemma_read_fields_err(fields: Seq<Field>, src: Seq<u8>, parent: u64, i: int)
    requires
        0 <= i <= fields.len(),
        spec_read_fields(fields.take(i), src, parent) is Err,
    ensures
        spec_read_fields(fields, src, parent) == spec_read_fields(fields.take(i), src, parent),
    decreases fields.len() - i,
{
    if i < fields.len() {
        assert(fields.take(i + 1).drop_last() =~= fields.take(i));
        lemma_read_fields_err(fields, src, parent, i + 1);
    } else {
        assert(fields.take(i) =~= fields);
    }
}

/// Decodes the fields in order, each with its context, checking each one as it comes.
pub fn read_fields<'a>(fields: &Vec<Field>, source: &'a [u8], parent: u64) -> (r: PResult<
    'a,
    Vec<Value>,
>)
    ensures
        read_matches(r, source@, spec_read_fields(fields@, source@, parent)),
{
    let mut values: Vec<Value> = Vec::new();
    let mut rest = source;
    let mut i: usize = 0;
    assert(source@ =~= source@.skip(0));
    assert(fields@.take(0) =~= Seq::<Field>::empty());
    assert(values.deep_view() =~= Seq::<ValueModel>::empty());
    while i < fields.len()
        invariant
            i <= fields@.len(),
            rest@.len() <= source@.len(),
            rest@ == source@.skip(source@.len() - rest@.len()),
            spec_read_fields(fields@.take(i as int), source@, parent) == Ok::<
                (Seq<ValueModel>, nat),
                (Error, nat),
            >((values.deep_view(), (source@.len() - rest@.len()) as nat)),
        decreases fields@.len() - i,
    {
        let ghost n = (source@.len() - rest@.len()) as nat;
        let f = &fields[i];
        assert(fields@.take(i + 1).drop_last() =~= fields@.take(i as int));
        assert(fields@.take(i + 1).last() == fields@[i as int]);
        let ctx = match field_context(f.context, parent, &values) {
            Some(c) => c,
            None => {
                proof {
                    lemma_read_fields_err(fields@, source@, parent, i + 1);
                }
                return Err((Error::InvalidInput, rest));
            },
        };
        match read_shape(f.shape, rest, ctx) {
            Ok((v, tail)) => {
                proof {
                    lemma_skip_skip(source@, n as int, rest@.len() - tail@.len());
                }
                if !check_value(&f.check, &v) {
                    proof {
                        lemma_read_fields_err(fields@, source@, parent, i + 1);
                    }
                    return Err((Error::AssertionFailed, tail));
                }
                let ghost before = values.deep_view();
                values.push(v);
                assert(values.deep_view() =~= before.push(v.deep_view()));
                rest = tail;
            },
            Err((e, tail)) => {
                proof {
                    lemma_skip_skip(source@, n as int, rest@.len() - tail@.len());
                    lemma_read_fields_err(fields@, source@, parent, i + 1);
                }
                return Err((e, tail));
            },
        }
        i += 1;
    }
    assert(fields@.take(i as int) =~= fields@);
    Ok((values, rest))
}

proof fn lemma_write_fields_none(fields: Seq<Field>, vs: Seq<ValueModel>, i: int)
    requires
        fields.len() == vs.len(),
        0 <= i <= fields.len(),
        spec_write_fields(fields.take(i), vs.take(i)) is None,
    ensures
        spec_write_fields(fields, vs) is None,
    decreases fields.len() - i,
{
    if i < fields.len() {
        assert(fields.take(i + 1).drop_last() =~= fields.take(i));
        assert(vs.take(i + 1).drop_last() =~= vs.take(i));
        lemma_write_fields_none(fields, vs, i + 1);
    } else {
        assert(fields.take(i) =~= fields);
        assert(vs.take(i) =~= vs);
    }
}

/// Appends the encoding of `values` as the given fields in order.
pub fn write_fields(fields: &Vec<Field>, values: &Vec<Value>, out: &mut Vec<u8>) -> (r: Result<
    (),
    Error,
>)
    ensures
        write_matches(
            r,
            old(out)@,
            final(out)@,
            spec_write_fields(fields@, values.deep_view()),
        ),
{
    if fields.len() != values.len() {
        return Err(Error::InvalidInput);
    }
    let ghost start = out@;
    let ghost vs = values.deep_view();
    let mut i: usize = 0;
    assert(fields@.take(0) =~= Seq::<Field>::empty());
    assert(vs.take(0) =~= Seq::<ValueModel>::empty());
    while i < fields.len()
        invariant
            fields@.len() == values@.len(),
            vs == values.deep_view(),
            i <= fields@.len(),
            spec_write_fields(fields@.take(i as int), vs.take(i as int)) matches Some(b) && out@
                == start + b,
        decreases fields@.len() - i,
    {
        assert(fields@.take(i + 1).drop_last() =~= fields@.take(i as int));
        assert(vs.take(i + 1).drop_last() =~= vs.take(i as int));
        assert(vs.take(i + 1).last() == values@[i as int].deep_view());
        match write_shape(fields[i].shape, &values[i], out) {
            Ok(()) => {},
            Err(e) => {
                proof {
                    lemma_write_fields_none(fields@, vs, i + 1);
                }
                return Err(e);
            },
        }
        assert(out@ =~= start + spec_write_fields(fields@.take(i + 1), vs.take(i + 1))->Some_0);
        i += 1;
    }
    assert(fields@.take(i as int) =~= fields@);
    assert(vs.take(i as int) =~= vs);
    Ok(())
}

/// Whether a variant takes part when the union's discriminant is `tag` (`None`: no
/// discriminant is declared, and every variant takes part).
pub open spec fn spec_selected(v: Variant, tag: Option<u64>) -> bool {
    match tag {
        None => true,
        Some(t) => v.discriminant == Some(t),
    }
}

/// The first variant from position `i` on that takes part and whose fields all decode from
/// `src`: its position, its values and the bytes they took.
pub open spec fn spec_first_variant(
    variants: Seq<Variant>,
    i: nat,
    src: Seq<u8>,
    parent: u64,
    tag: Option<u64>,
) -> Option<(nat, Seq<ValueModel>, nat)>
    decreases variants.len() - i,
{
    if i >= variants.len() {
        None
    } else if spec_selected(variants[i as int], tag) && spec_read_fields(
        variants[i as int].fields@,
        src,
        parent,
    ) is Ok {
        let (vs, n) = spec_read_fields(variants[i as int].fields@, src, parent)->Ok_0;
        Some((i, vs, n))
    } else {
        spec_first_variant(variants, i + 1, src, parent, tag)
    }
}

/// What decoding a value of `schema` from `src` with context `parent` gives.
pub open spec fn spec_read_schema(schema: Schema, src: Seq<u8>, parent: u64) -> SpecResult<
    (usize, Seq<ValueModel>),
> {
    match schema {
        Schema::Struct(fields) => match spec_read_fields(fields@, src, parent) {
            Ok((vs, n)) => Ok(((0usize, vs), n)),
            Err(e) => Err(e),
        },
        Schema::Union { discriminant: None, variants } => match spec_first_variant(
            variants@,
            0,
            src,
            parent,
            None,
        ) {
            Some((i, vs, n)) => Ok(((i as usize, vs), n)),
            None => Err((Error::InvalidInput, 0)),
        },
        Schema::Union { discriminant: Some(k), variants } => if src.len() >= k.width() {
            let w = k.width();
            let tag = nat_of(src.take(w as int), k.big()) as u64;
            match spec_first_variant(variants@, 0, src.skip(w as int), parent, Some(tag)) {
                Some((i, vs, n)) => Ok(((i as usize, vs), w + n)),
                None => Err((Error::InvalidInput, w)),
            }
        } else {
            Err((Error::NotEnoughBytes, 0))
        },
    }
}

/// The bytes that encode `rec` as a value of `schema`: the discriminant of its variant
/// where one is declared, then its fields; `None` where `rec` does not fit the schema.
pub open spec fn spec_write_schema(schema: Schema, rec: (usize, Seq<ValueModel>)) -> Option<
    Seq<u8>,
> {
    match schema {
        Schema::Struct(fields) => if rec.0 == 0 {
            spec_write_fields(fields@, rec.1)
        } else {
            None
        },
        Schema::Union { discriminant, variants } => if rec.0 < variants@.len() {
            let v = variants@[rec.0 as int];
            match discriminant {
                None => spec_write_fields(v.fields@, rec.1),
                Some(k) => match (v.discriminant, spec_write_fields(v.fields@, rec.1)) {
                    (Some(t), Some(b)) => if t < pow256(k.width()) {
                        Some(bytes_of(t as nat, k.width(), k.big()) + b)
                    } else {
                        None
                    },
                    _ => None,
                },
            }
        } else {
            None
        },
    }
}

fn selected(v: &Variant, tag: Option<u64>) -> (r: bool)
    ensures
        r == spec_selected(*v, tag),
{
    match tag {
        None => true,
        Some(t) => match v.discriminant {
            Some(d) => d == t,
            None => false,
        },
    }
}

/// Tries the variants in order from the same position and keeps the first that takes part
/// and decodes; `None` where none does.
fn first_variant<'a>(
    variants: &Vec<Variant>,
    source: &'a [u8],
    parent: u64,
    tag: Option<u64>,
) -> (r: Option<(usize, Vec<Value>, &'a [u8])>)
    ensures
        match (r, spec_first_variant(variants@, 0, source@, parent, tag)) {
            (None, None) => true,
            (Some((i, vs, rest)), Some((j, ws, n))) => i == j && vs.deep_view() == ws && n
                <= source@.len() && rest@ == source@.skip(n as int),
            _ => false,
        },
{
    let mut i: usize = 0;
    while i < variants.len()
        invariant
            i <= variants@.len(),
            spec_first_variant(variants@, 0, source@, parent, tag) == spec_first_variant(
                variants@,
                i as nat,
                source@,
                parent,
                tag,
            ),
        decreases variants@.len() - i,
    {
        if selected(&variants[i], tag) {
            match read_fields(&variants[i].fields, source, parent) {
                Ok((values, rest)) => {
                    return Some((i, values, rest));
                },
                Err(_) => {},
            }
        }
        i += 1;
    }
    None
}

impl Schema {
    /// Decodes a value of this schema from the front of `source`, with `context` as the
    /// parent context. A record decodes its fields in order. A union without discriminant
    /// tries its variants in order from the same position and keeps the first that decodes;
    /// with one, it reads the discriminant first and tries, in order, the variants that
    /// declare that value, falling through to the next such variant when one fails.
    pub fn decode<'a>(&self, source: &'a [u8], context: u64) -> (r: PResult<'a, Record>)
        ensures
            read_matches(r, source@, spec_read_schema(*self, source@, context)),
    {
        match self {
            Schema::Struct(fields) => match read_fields(fields, source, context) {
                Ok((values, rest)) => Ok((Record { variant: 0, values }, rest)),
                Err(e) => Err(e),
            },
            Schema::Union { discriminant: None, variants } => {
                match first_variant(variants, source, context, None) {
                    Some((variant, values, rest)) => Ok((Record { variant, values }, rest)),
                    None => {
                        assert(source@ =~= source@.skip(0));
                        Err((Error::InvalidInput, source))
                    },
                }
            },
            Schema::Union { discriminant: Some(k), variants } => {
                let (tag, rest) = match read_int(*k, source) {
                    Ok((Value::Int(x), rest)) => (x, rest),
                    Ok((Value::Bytes(_), rest)) => {
                        return Err((Error::InvalidInput, rest));
                    },
                    Err(e) => {
                        return Err(e);
                    },
                };
                let ghost w = (source@.len() - rest@.len()) as nat;
                match first_variant(variants, rest, context, Some(tag)) {
                    Some((variant, values, tail)) => {
                        proof {
                            lemma_skip_skip(source@, w as int, rest@.len() - tail@.len());
                        }
                        Ok((Record { variant, values }, tail))
                    },
                    None => Err((Error::InvalidInput, rest)),
                }
            },
        }
    }

    /// Appends the encoding of `record` as a value of this schema: for a union with a
    /// discriminant, the variant's declared value first, then the fields in order.
    pub fn encode(&self, record: &Record, out: &mut Vec<u8>) -> (r: Result<(), Error>)
        ensures
            write_matches(r, old(out)@, final(out)@, spec_write_schema(*self, record.deep_view())),
    {
        match self {
            Schema::Struct(fields) => {
                if record.variant != 0 {
                    return Err(Error::InvalidInput);
                }
                write_fields(fields, &record.values, out)
            },
            Schema::Union { discriminant, variants } => {
                if record.variant >= variants.len() {
                    return Err(Error::InvalidInput);
                }
                let v = &variants[record.variant];
                match discriminant {
                    None => write_fields(&v.fields, &record.values, out),
                    Some(k) => {
                        let t = match v.discriminant {
                            Some(t) => t,
                            None => {
                                return Err(Error::InvalidInput);
                            },
                        };
                        if !k.fits(t) {
                            return Err(Error::InvalidInput);
                        }
                        let ghost start = out@;
                        write_uint(t, k.byte_width(), k.big_endian(), out);
                        match write_fields(&v.fields, &record.values, out) {
                            Ok(()) => {
                                assert(out@ =~= start + spec_write_schema(
                                    *self,
                                    record.deep_view(),
                                )->Some_0);
                                Ok(())
                            },
                            Err(e) => Err(e),
                        }
                    },
                }
            },
        }
    }
}

/// A record decodes as a value of the schema that its context names, with the parent
/// context that comes with it; so records nest inside the other combinators.
impl<'a, 's> crate::Parsable<'a, (&'s Schema, u64)> for Record {
    open spec fn spec_read(src: Seq<u8>, context: (&'s Schema, u64)) -> SpecResult<
        (usize, Seq<ValueModel>),
    > {
        spec_read_schema(*context.0, src, context.1)
    }

    fn read(source: &'a [u8], context: (&'s Schema, u64)) -> (r: PResult<'a, Record>) {
        context.0.decode(source, context.1)
    }
}

/// Whether `v` is a value of `shape` that decodes back to itself with context `ctx`.
pub open spec fn valid_value(shape: Shape, v: ValueModel, ctx: u64) -> bool {
    &&& spec_write_shape(shape, v) is Some
    &&& match (shape, v) {
        (Shape::Counted, ValueModel::Bytes(b)) => b.len() == ctx,
        _ => true,
    }
}

/// Whether no field but the last takes every remaining byte.
pub open spec fn rest_only_last(fields: Seq<Field>) -> bool {
    forall|j: int| 0 <= j < fields.len() - 1 ==> #[trigger] fields[j].shape != Shape::Rest
}

/// Whether `vs` are values of the fields: one per field, each of its field's shape, passing
/// its check, and matching the context that the earlier values give it.
pub open spec fn valid_fields(fields: Seq<Field>, vs: Seq<ValueModel>, parent: u64) -> bool
    decreases fields.len(),
{
    &&& fields.len() == vs.len()
    &&& fields.len() > 0 ==> {
        &&& valid_fields(fields.drop_last(), vs.drop_last(), parent)
        &&& spec_context(fields.last().context, parent, vs.drop_last()) matches Some(c)
            && valid_value(fields.last().shape, vs.last(), c)
        &&& spec_check(fields.last().check, vs.last())
    }
}

/// Whether `rec` is a value of `schema` that decodes back to itself with context `parent`:
/// its fields are valid, and where it is a variant of a union, no earlier variant that takes
/// part also decodes from its fields' bytes.
pub open spec fn valid_record(schema: Schema, rec: (usize, Seq<ValueModel>), parent: u64) -> bool {
    match schema {
        Schema::Struct(fields) => rec.0 == 0 && valid_fields(fields@, rec.1, parent)
            && rest_only_last(fields@),
        Schema::Union { discriminant, variants } => {
            &&& rec.0 < variants@.len()
            &&& valid_fields(variants@[rec.0 as int].fields@, rec.1, parent)
            &&& rest_only_last(variants@[rec.0 as int].fields@)
            &&& spec_write_fields(variants@[rec.0 as int].fields@, rec.1) matches Some(b) && {
                let tag = match discriminant {
                    None => None,
                    Some(_) => variants@[rec.0 as int].discriminant,
                };
                &&& discriminant matches Some(k) ==> tag matches Some(t) && t < pow256(k.width())
                &&& forall|j: int|
                    0 <= j < rec.0 ==> !(spec_selected(#[trigger] variants@[j], tag)
                        && spec_read_fields(variants@[j].fields@, b, parent) is Ok)
            }
        },
    }
}

proof fn lemma_shape_round_trip(shape: Shape, v: ValueModel, ctx: u64, rest: Seq<u8>)
    requires
        valid_value(shape, v, ctx),
        shape == Shape::Rest ==> rest.len() == 0,
    ensures
        spec_write_shape(shape, v) matches Some(b) && spec_read_shape(shape, b + rest, ctx) == Ok::<
            (ValueModel, nat),
            (Error, nat),
        >((v, b.len())),
{
    let b = spec_write_shape(shape, v)->Some_0;
    match (shape, v) {
        (Shape::Int(k), ValueModel::Int(x)) => {
            lemma_number_round_trip(x as nat, k.width(), k.big());
            assert((b + rest).take(k.width() as int) =~= b);
        },
        (Shape::Bytes(n), ValueModel::Bytes(p)) => {
            assert((b + rest).take(n as int) =~= p);
        },
        (Shape::Counted, ValueModel::Bytes(p)) => {
            assert((b + rest).take(ctx as int) =~= p);
        },
        (Shape::VarBytes(k), ValueModel::Bytes(p)) => {
            let w = k.width();
            let h = bytes_of(p.len(), w, k.big());
            lemma_number_round_trip(p.len(), w, k.big());
            assert((b + rest).take(w as int) =~= h);
            assert((b + rest).subrange(w as int, (w + p.len()) as int) =~= p);
        },
        (Shape::Rest, ValueModel::Bytes(p)) => {
            assert(b + rest =~= p);
        },
        _ => {},
    }
}

proof fn lemma_fields_round_trip(
    fields: Seq<Field>,
    vs: Seq<ValueModel>,
    parent: u64,
    rest: Seq<u8>,
)
    requires
        valid_fields(fields, vs, parent),
        rest_only_last(fields),
        rest.len() == 0 || forall|j: int| 0 <= j < fields.len() ==> #[trigger] fields[j].shape
            != Shape::Rest,
    ensures
        spec_write_fields(fields, vs) matches Some(b) && spec_read_fields(fields, b + rest, parent)
            == Ok::<(Seq<ValueModel>, nat), (Error, nat)>((vs, b.len())),
    decreases fields.len(),
{
    if fields.len() > 0 {
        let dl = fields.drop_last();
        let f = fields.last();
        let c = spec_context(f.context, parent, vs.drop_last())->Some_0;
        lemma_shape_round_trip(f.shape, vs.last(), c, rest);
        let bl = spec_write_shape(f.shape, vs.last())->Some_0;
        assert forall|j: int| 0 <= j < dl.len() implies #[trigger] dl[j].shape != Shape::Rest by {
            assert(dl[j] == fields[j]);
        }
        lemma_fields_round_trip(dl, vs.drop_last(), parent, bl + rest);
        let bd = spec_write_fields(dl, vs.drop_last())->Some_0;
        assert(bd + bl + rest =~= bd + (bl + rest));
        assert((bd + bl + rest).skip(bd.len() as int) =~= bl + rest);
        assert(vs.drop_last().push(vs.last()) =~= vs);
    } else {
        assert(vs =~= Seq::<ValueModel>::empty());
    }
}

proof fn lemma_first_variant_found(
    variants: Seq<Variant>,
    i0: nat,
    src: Seq<u8>,
    parent: u64,
    tag: Option<u64>,
    i: int,
)
    requires
        i0 <= i < variants.len(),
        spec_selected(variants[i], tag),
        spec_read_fields(variants[i].fields@, src, parent) is Ok,
    ensures
        spec_first_variant(variants, i0, src, parent, tag) matches Some((k, vs, n)) && i0 <= k <= i
            && spec_selected(variants[k as int], tag) && spec_read_fields(
            variants[k as int].fields@,
            src,
            parent,
        ) == Ok::<(Seq<ValueModel>, nat), (Error, nat)>((vs, n)) && forall|l: int|
            i0 <= l < k ==> !(spec_selected(#[trigger] variants[l], tag) && spec_read_fields(
                variants[l].fields@,
                src,
                parent,
            ) is Ok),
    decreases i - i0,
{
    if !(spec_selected(variants[i0 as int], tag) && spec_read_fields(
        variants[i0 as int].fields@,
        src,
        parent,
    ) is Ok) {
        lemma_first_variant_found(variants, i0 + 1, src, parent, tag, i);
    }
}

proof fn lemma_first_variant_exact(
    variants: Seq<Variant>,
    src: Seq<u8>,
    parent: u64,
    tag: Option<u64>,
    i: int,
)
    requires
        0 <= i < variants.len(),
        spec_selected(variants[i], tag),
        spec_read_fields(variants[i].fields@, src, parent) is Ok,
        forall|l: int|
            0 <= l < i ==> !(spec_selected(#[trigger] variants[l], tag) && spec_read_fields(
                variants[l].fields@,
                src,
                parent,
            ) is Ok),
    ensures
        spec_first_variant(variants, 0, src, parent, tag) matches Some((k, vs, n)) && k == i
            && spec_read_fields(variants[i].fields@, src, parent) == Ok::<
            (Seq<ValueModel>, nat),
            (Error, nat),
        >((vs, n)),
{
    lemma_first_variant_found(variants, 0, src, parent, tag, i);
}

/// Encoding a valid value of a schema and decoding the bytes gives the value back and
/// leaves nothing.
pub proof fn lemma_round_trip(schema: Schema, rec: (usize, Seq<ValueModel>), parent: u64)
    requires
        valid_record(schema, rec, parent),
    ensures
        spec_write_schema(schema, rec) matches Some(b) && spec_read_schema(schema, b, parent)
            == Ok::<((usize, Seq<ValueModel>), nat), (Error, nat)>((rec, b.len())),
{
    let empty = Seq::<u8>::empty();
    match schema {
        Schema::Struct(fields) => {
            lemma_fields_round_trip(fields@, rec.1, parent, empty);
            let b = spec_write_fields(fields@, rec.1)->Some_0;
            assert(b + empty =~= b);
        },
        Schema::Union { discriminant, variants } => {
            let v = variants@[rec.0 as int];
            lemma_fields_round_trip(v.fields@, rec.1, parent, empty);
            let b = spec_write_fields(v.fields@, rec.1)->Some_0;
            assert(b + empty =~= b);
            match discriminant {
                None => {
                    lemma_first_variant_exact(variants@, b, parent, None, rec.0 as int);
                },
                Some(k) => {
                    let t = v.discriminant->Some_0;
                    let w = k.width();
                    let h = bytes_of(t as nat, w, k.big());
                    lemma_number_round_trip(t as nat, w, k.big());
                    assert((h + b).take(w as int) =~= h);
                    assert((h + b).skip(w as int) =~= b);
                    lemma_first_variant_exact(variants@, b, parent, Some(t), rec.0 as int);
                },
            }
        },
    }
}

/// A union without discriminant decodes as the earliest variant whose fields decode: where
/// two variants both decode from the same bytes, the later one is not picked, and every
/// variant before the one picked fails.
pub proof fn lemma_first_match(variants: Vec<Variant>, src: Seq<u8>, parent: u64, i: int, j: int)
    requires
        0 <= i < j < variants@.len(),
        variants@.len() <= usize::MAX,
        spec_read_fields(variants@[i].fields@, src, parent) is Ok,
        spec_read_fields(variants@[j].fields@, src, parent) is Ok,
    ensures
        spec_read_schema(Schema::Union { discriminant: None, variants }, src, parent) matches Ok(
            ((k, vs), n),
        ) && k <= i && spec_read_fields(variants@[k as int].fields@, src, parent) == Ok::<
            (Seq<ValueModel>, nat),
            (Error, nat),
        >((vs, n)) && forall|l: int|
            0 <= l < k ==> #[trigger] spec_read_fields(variants@[l].fields@, src, parent) is Err,
{
    lemma_first_variant_found(variants@, 0, src, parent, None, i);
    let k = spec_first_variant(variants@, 0, src, parent, None)->Some_0.0;
    assert((k as usize) as int == k);
    assert forall|l: int| 0 <= l < k implies #[trigger] spec_read_fields(
        variants@[l].fields@,
        src,
        parent,
    ) is Err by {
        assert(spec_selected(variants@[l], None));
    }
}

} // verus!
