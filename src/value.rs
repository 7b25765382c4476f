use vstd::prelude::*;

verus! {

/// A value that crosses the bridge. A float is carried by its IEEE-754 bit pattern.
#[derive(Debug, Clone, PartialEq)]
pub enum DynValue {
    Null,
    Bool(bool),
    Integer(i64),
    Float(u64),
    Text(String),
}

/// A loosely typed value as the host application supplies it.
///
/// A number carries what it reads as: a 64-bit signed integer when it is one
/// exactly, and the bit pattern of a 64-bit float when it has one.
#[derive(Debug, Clone, PartialEq)]
pub enum WireParam {
    Null,
    Bool(bool),
    Number { as_int: Option<i64>, as_float: Option<u64> },
    Text(String),
    List,
    Record,
}

/// Why a parameter could not be bound.
#[derive(Debug, Clone, Copy, PartialEq, Eq)]
pub enum BindError {
    UnsupportedNumber,
    UnsupportedType,
}

/// What each typed getter of the driver gave for one cell, in probe order.
#[derive(Debug, Clone, PartialEq)]
pub struct CellProbe {
    pub as_int: Option<i64>,
    pub as_float: Option<u64>,
    pub as_text: Option<String>,
    pub as_bool: Option<bool>,
}

/// One column of a fetched row, before decoding.
#[derive(Debug, Clone, PartialEq)]
pub struct RawColumn {
    pub name: String,
    pub cell: CellProbe,
}

/// A decoded row: (column name, value) pairs in result-set column order.
pub type Row = Vec<(String, DynValue)>;

/// The float with these bits is neither infinite nor NaN.
pub open spec fn finite_bits(bits: u64) -> bool {
    (bits >> 52u64) & 0x7ffu64 != 0x7ffu64
}

/// Inbound mapping of one parameter.
pub open spec fn bind_spec(p: WireParam) -> Result<DynValue, BindError> {
    match p {
        WireParam::Null => Ok(DynValue::Null),
        WireParam::Bool(b) => Ok(DynValue::Bool(b)),
        WireParam::Number { as_int, as_float } => match as_int {
            Some(i) => Ok(DynValue::Integer(i)),
            None => match as_float {
                Some(f) => Ok(DynValue::Float(f)),
                None => Err(BindError::UnsupportedNumber),
            },
        },
        WireParam::Text(s) => Ok(DynValue::Text(s)),
        WireParam::List => Err(BindError::UnsupportedType),
        WireParam::Record => Err(BindError::UnsupportedType),
    }
}

/// Inbound mapping of a parameter sequence: the values in order, or the
/// error of the first parameter that cannot be bound.
pub open spec fn bind_all_spec(s: Seq<WireParam>) -> Result<Seq<DynValue>, BindError>
    decreases s.len(),
{
    if s.len() == 0 {
        Ok(Seq::empty())
    } else {
        match bind_all_spec(s.drop_last()) {
            Err(e) => Err(e),
            Ok(vs) => match bind_spec(s.last()) {
                Ok(v) => Ok(vs.push(v)),
                Err(e) => Err(e),
            },
        }
    }
}

/// Outbound mapping of one cell: the first probe that succeeded, in the order
/// integer, float, text, boolean; a non-finite float and a cell no probe
/// could read become `Null`.
pub open spec fn decode_spec(c: CellProbe) -> DynValue {
    match c.as_int {
        Some(i) => DynValue::Integer(i),
        None => match c.as_float {
            Some(f) => if finite_bits(f) { DynValue::Float(f) } else { DynValue::Null },
            None => match c.as_text {
                Some(s) => DynValue::Text(s),
                None => match c.as_bool {
                    Some(b) => DynValue::Bool(b),
                    None => DynValue::Null,
                },
            },
        },
    }
}

/// How a value is handed back to the host application.
pub open spec fn wire_spec(v: DynValue) -> WireParam {
    match v {
        DynValue::Null => WireParam::Null,
        DynValue::Bool(b) => WireParam::Bool(b),
        DynValue::Integer(i) => WireParam::Number { as_int: Some(i), as_float: None },
        DynValue::Float(f) => WireParam::Number { as_int: None, as_float: Some(f) },
        DynValue::Text(s) => WireParam::Text(s),
    }
}

/// The value holds no NaN or infinite float.
pub open spec fn representable(v: DynValue) -> bool {
    match v {
        DynValue::Float(f) => finite_bits(f),
        _ => true,
    }
}

/// Binds one parameter.
pub fn bind_param(p: &WireParam) -> (r: Result<DynValue, BindError>)
    ensures
        r == bind_spec(*p),
{
    match p {
        WireParam::Null => Ok(DynValue::Null),
        WireParam::Bool(b) => Ok(DynValue::Bool(*b)),
        WireParam::Number { as_int, as_float } => match as_int {
            Some(i) => Ok(DynValue::Integer(*i)),
            None => match as_float {
                Some(f) => Ok(DynValue::Float(*f)),
                None => Err(BindError::UnsupportedNumber),
            },
        },
        WireParam::Text(s) => Ok(DynValue::Text(s.clone())),
        WireParam::List => Err(BindError::UnsupportedType),
        WireParam::Record => Err(BindError::UnsupportedType),
    }
}

proof fn lemma_bind_all_error_extends(s: Seq<WireParam>, n: int)
    requires
        0 <= n <= s.len(),
        bind_all_spec(s.take(n)) is Err,
    ensures
        bind_all_spec(s) == bind_all_spec(s.take(n)),
    decreases s.len() - n,
{
    if n < s.len() {
        assert(s.take(n + 1).drop_last() =~= s.take(n));
        lemma_bind_all_error_extends(s, n + 1);
    } else {
        assert(s.take(n) =~= s);
    }
}

/// Binds a parameter sequence in order, stopping at the first parameter that
/// cannot be bound.
pub fn bind_params(params: &Vec<WireParam>) -> (r: Result<Vec<DynValue>, BindError>)
    ensures
        match r {
            Ok(v) => bind_all_spec(params@) == Ok::<Seq<DynValue>, BindError>(v@),
            Err(e) => bind_all_spec(params@) == Err::<Seq<DynValue>, BindError>(e),
        },
        r matches Ok(v) ==> v@.len() == params@.len() && forall|i: int|
            0 <= i < params@.len() ==> bind_spec(#[trigger] params@[i]) == Ok::<DynValue, BindError>(v@[i]),
{
    let mut out: Vec<DynValue> = Vec::new();
    let mut i: usize = 0;
    while i < params.len()
        invariant
            i <= params@.len(),
            bind_all_spec(params@.take(i as int)) == Ok::<Seq<DynValue>, BindError>(out@),
            out@.len() == i,
            forall|j: int| 0 <= j < i ==> bind_spec(#[trigger] params@[j]) == Ok::<DynValue, BindError>(out@[j]),
        decreases params@.len() - i,
    {
        assert(params@.take(i + 1).drop_last() =~= params@.take(i as int));
        match bind_param(&params[i]) {
            Ok(v) => {
                out.push(v);
            },
            Err(e) => {
                proof {
                    lemma_bind_all_error_extends(params@, i + 1);
                }
                return Err(e);
            },
        }
        i += 1;
    }
    assert(params@.take(i as int) =~= params@);
    Ok(out)
}

/// Decodes one cell by probing in the fixed order.
pub fn decode_cell(c: &CellProbe) -> (r: DynValue)
    ensures
        r == decode_spec(*c),
        representable(r),
{
    match c.as_int {
        Some(i) => DynValue::Integer(i),
        None => match c.as_float {
            Some(f) => if (f >> 52u64) & 0x7ffu64 != 0x7ffu64 {
                DynValue::Float(f)
            } else {
                DynValue::Null
            },
            None => match &c.as_text {
                Some(s) => DynValue::Text(s.clone()),
                None => match c.as_bool {
                    Some(b) => DynValue::Bool(b),
                    None => DynValue::Null,
                },
            },
        },
    }
}

/// Decodes one fetched row, column by column, keeping column order and every
/// column, duplicate names included.
pub fn decode_row(raw: &Vec<RawColumn>) -> (r: Row)
    ensures
        r@.len() == raw@.len(),
        forall|i: int| 0 <= i < raw@.len() ==> (#[trigger] r@[i]).0 == raw@[i].name && r@[i].1
            == decode_spec(raw@[i].cell),
{
    let mut out: Row = Vec::new();
    let mut i: usize = 0;
    while i < raw.len()
        invariant
            i <= raw@.len(),
            out@.len() == i,
            forall|j: int| 0 <= j < i ==> (#[trigger] out@[j]).0 == raw@[j].name && out@[j].1
                == decode_spec(raw@[j].cell),
        decreases raw@.len() - i,
    {
        let v = decode_cell(&raw[i].cell);
        out.push((raw[i].name.clone(), v));
        i += 1;
    }
    out
}

/// Turns a value back into its wire form for the host application.
pub fn to_wire(v: &DynValue) -> (r: WireParam)
    ensures
        r == wire_spec(*v),
{
    match v {
        DynValue::Null => WireParam::Null,
        DynValue::Bool(b) => WireParam::Bool(*b),
        DynValue::Integer(i) => WireParam::Number { as_int: Some(*i), as_float: None },
        DynValue::Float(f) => WireParam::Number { as_int: None, as_float: Some(*f) },
        DynValue::Text(s) => WireParam::Text(s.clone()),
    }
}

/// A representable value, handed out on the wire and fed back as a
/// parameter, binds to itself: integers, finite floats, booleans, text and
/// null round-trip exactly.
pub proof fn lemma_value_round_trip(v: DynValue)
    requires
        representable(v),
    ensures
        bind_spec(wire_spec(v)) == Ok::<DynValue, BindError>(v),
{
}

/// Every value the row decoder yields round-trips through the wire form and
/// the binder.
pub proof fn lemma_decoded_cell_round_trip(c: CellProbe)
    ensures
        bind_spec(wire_spec(decode_spec(c))) == Ok::<DynValue, BindError>(decode_spec(c)),
{
    lemma_value_round_trip(decode_spec(c));
}

/// A whole decoded row, fed back value by value, binds to exactly its values.
pub proof fn lemma_decoded_row_round_trip(cells: Seq<CellProbe>)
    ensures
        bind_all_spec(cells.map_values(|c: CellProbe| wire_spec(decode_spec(c))))
            == Ok::<Seq<DynValue>, BindError>(cells.map_values(|c: CellProbe| decode_spec(c))),
    decreases cells.len(),
{
    if cells.len() > 0 {
        let w = cells.map_values(|c: CellProbe| wire_spec(decode_spec(c)));
        assert(w.drop_last() =~= cells.drop_last().map_values(|c: CellProbe| wire_spec(decode_spec(c))));
        lemma_decoded_row_round_trip(cells.drop_last());
        lemma_decoded_cell_round_trip(cells.last());
        assert(cells.map_values(|c: CellProbe| decode_spec(c)) =~= cells.drop_last().map_values(
            |c: CellProbe| decode_spec(c),
        ).push(decode_spec(cells.last())));
    } else {
        assert(cells.map_values(|c: CellProbe| wire_spec(decode_spec(c))) =~= Seq::<WireParam>::empty());
        assert(cells.map_values(|c: CellProbe| decode_spec(c)) =~= Seq::<DynValue>::empty());
    }
}

} // verus!
