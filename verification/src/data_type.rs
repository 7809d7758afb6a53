//! The Cypher data types that the schema procedures report.

use std::str::FromStr;
use vstd::prelude::*;

use crate::text::{same_text, starts_with, strip_suffix};

verus! {

/// The base Cypher data type of a property value.
///
/// Every variant stands for the type names that the schema procedures report,
/// without the optional ` NOT NULL` suffix. List and map types are collapsed to
/// their container variant, whatever their element type.
#[derive(Debug, Clone, Copy, PartialEq, Eq, Structural)]
pub enum DataType {
    /// `INTEGER` / `INT`: signed 64-bit whole number.
    Integer,
    /// `FLOAT`: 64-bit floating-point number.
    Float,
    /// `BOOLEAN` / `BOOL`: logical value.
    Boolean,
    /// `DATE`: calendar date without time or timezone.
    Date,
    /// `DURATION`: ISO 8601 duration.
    Duration,
    /// `ZONED DATETIME`: instant in time with a timezone offset.
    ZonedDatetime,
    /// `DATETIME`: date and time without timezone information.
    Datetime,
    /// `ZONED TIME`: time of day with a timezone offset.
    ZonedTime,
    /// `TIME`: time of day without timezone information.
    Time,
    /// `LOCAL DATETIME`: datetime local to the query context.
    LocalDatetime,
    /// `LOCAL TIME`: time local to the query context.
    LocalTime,
    /// `STRING`: text of arbitrary length.
    String,
    /// `POINT`: spatial coordinate.
    Point,
    /// `null`: the property exists in the schema but has no concrete type yet.
    Null,
    /// `LIST`: ordered collection of values.
    List,
    /// `MAP`: key-value collection.
    Mapping,
}

/// The error for a type text that names no known data type.
#[derive(Debug, Clone, Copy, PartialEq, Eq, Structural)]
pub struct UnknownType;

impl UnknownType {
    /// What went wrong, in words.
    pub fn message(&self) -> (text: String)
        ensures
            text@ == "unknown Neo4j data type"@,
    {
        "unknown Neo4j data type".to_owned()
    }
}

/// The suffix that marks a type whose values are never null.
pub open spec fn not_null() -> Seq<char> {
    " NOT NULL"@
}

/// The text without one ` NOT NULL` at its end, if it has one.
pub open spec fn base_name(text: Seq<char>) -> Seq<char> {
    if not_null().is_suffix_of(text) {
        text.take(text.len() - not_null().len())
    } else {
        text
    }
}

/// The data type that a base name stands for.
pub open spec fn named_type(name: Seq<char>) -> Option<DataType> {
    if name == "INTEGER"@ || name == "INT"@ {
        Some(DataType::Integer)
    } else if name == "FLOAT"@ {
        Some(DataType::Float)
    } else if name == "BOOLEAN"@ || name == "BOOL"@ {
        Some(DataType::Boolean)
    } else if name == "DATE"@ {
        Some(DataType::Date)
    } else if name == "DURATION"@ {
        Some(DataType::Duration)
    } else if name == "ZONED DATETIME"@ {
        Some(DataType::ZonedDatetime)
    } else if name == "DATETIME"@ {
        Some(DataType::Datetime)
    } else if name == "ZONED TIME"@ {
        Some(DataType::ZonedTime)
    } else if name == "TIME"@ {
        Some(DataType::Time)
    } else if name == "LOCAL DATETIME"@ {
        Some(DataType::LocalDatetime)
    } else if name == "LOCAL TIME"@ {
        Some(DataType::LocalTime)
    } else if name == "STRING"@ {
        Some(DataType::String)
    } else if name == "POINT"@ {
        Some(DataType::Point)
    } else if name == "null"@ {
        Some(DataType::Null)
    } else if "LIST"@.is_prefix_of(name) {
        Some(DataType::List)
    } else if "MAP"@.is_prefix_of(name) {
        Some(DataType::Mapping)
    } else {
        None
    }
}

/// The data type that a reported type text stands for.
pub open spec fn reported_type(text: Seq<char>) -> Option<DataType> {
    named_type(base_name(text))
}

impl DataType {
    /// Whether values of the type are ordered, so that a range tells more of
    /// them than one example: the numeric, boolean and temporal types.
    pub open spec fn is_range(self) -> bool {
        match self {
            DataType::Integer | DataType::Float => true,
            DataType::Boolean => true,
            DataType::Date | DataType::Duration => true,
            DataType::ZonedDatetime | DataType::Datetime | DataType::LocalDatetime => true,
            DataType::ZonedTime | DataType::Time | DataType::LocalTime => true,
            _ => false,
        }
    }

    /// Whether values of the type say nothing when printed.
    pub open spec fn is_opaque(self) -> bool {
        self == DataType::Point || self == DataType::Mapping || self == DataType::Null
    }

    /// Reads a type text as the schema procedures report it.
    pub fn from_str(s: &str) -> (read: Result<DataType, UnknownType>)
        ensures
            match read {
                Ok(data_type) => reported_type(s@) == Some(data_type),
                Err(_) => reported_type(s@) is None,
            },
    {
        let name: &str = match strip_suffix(s, " NOT NULL") {
            Some(rest) => {
                proof {
                    assert(s@.subrange(s@.len() - not_null().len(), s@.len() as int)
                        =~= not_null());
                    assert(base_name(s@) =~= rest@);
                }
                rest
            },
            None => s,
        };
        if same_text(name, "INTEGER") || same_text(name, "INT") {
            Ok(DataType::Integer)
        } else if same_text(name, "FLOAT") {
            Ok(DataType::Float)
        } else if same_text(name, "BOOLEAN") || same_text(name, "BOOL") {
            Ok(DataType::Boolean)
        } else if same_text(name, "DATE") {
            Ok(DataType::Date)
        } else if same_text(name, "DURATION") {
            Ok(DataType::Duration)
        } else if same_text(name, "ZONED DATETIME") {
            Ok(DataType::ZonedDatetime)
        } else if same_text(name, "DATETIME") {
            Ok(DataType::Datetime)
        } else if same_text(name, "ZONED TIME") {
            Ok(DataType::ZonedTime)
        } else if same_text(name, "TIME") {
            Ok(DataType::Time)
        } else if same_text(name, "LOCAL DATETIME") {
            Ok(DataType::LocalDatetime)
        } else if same_text(name, "LOCAL TIME") {
            Ok(DataType::LocalTime)
        } else if same_text(name, "STRING") {
            Ok(DataType::String)
        } else if same_text(name, "POINT") {
            Ok(DataType::Point)
        } else if same_text(name, "null") {
            Ok(DataType::Null)
        } else if starts_with(name, "LIST") {
            Ok(DataType::List)
        } else if starts_with(name, "MAP") {
            Ok(DataType::Mapping)
        } else {
            Err(UnknownType)
        }
    }

    /// Whether a range of values is more informative than an example.
    pub fn is_range_type(&self) -> (range: bool)
        ensures
            range == self.is_range(),
    {
        match self {
            DataType::Integer | DataType::Float | DataType::Boolean | DataType::Date
            | DataType::Duration | DataType::ZonedDatetime | DataType::Datetime
            | DataType::ZonedTime | DataType::Time | DataType::LocalDatetime
            | DataType::LocalTime => true,
            _ => false,
        }
    }

    /// Whether values of the type are never sampled.
    pub fn is_opaque_type(&self) -> (opaque: bool)
        ensures
            opaque == self.is_opaque(),
    {
        match self {
            DataType::Point | DataType::Mapping | DataType::Null => true,
            _ => false,
        }
    }
}

impl FromStr for DataType {
    type Err = UnknownType;

    fn from_str(s: &str) -> (read: Result<DataType, UnknownType>)
        ensures
            match read {
                Ok(data_type) => reported_type(s@) == Some(data_type),
                Err(_) => reported_type(s@) is None,
            },
    {
        DataType::from_str(s)
    }
}

/// No ordered type is opaque, so that every type has one way to be annotated.
pub proof fn law_no_range_type_is_opaque(data_type: DataType)
    ensures
        !(data_type.is_range() && data_type.is_opaque()),
{
}

/// The ` NOT NULL` suffix makes no difference to a type that has none yet, to a
/// list or map type, or to an unknown one.
pub proof fn law_not_null_is_optional(text: Seq<char>)
    requires
        !not_null().is_suffix_of(text) || reported_type(text) is None || reported_type(text)
            == Some(DataType::List) || reported_type(text) == Some(DataType::Mapping),
    ensures
        reported_type(text + not_null()) == reported_type(text),
{
    let longer = text + not_null();
    assert(not_null() =~= longer.subrange(longer.len() - not_null().len(), longer.len() as int));
    assert(base_name(longer) =~= text);
    if not_null().is_suffix_of(text) {
        let name = base_name(text);
        assert(text =~= name + not_null());
        lemma_suffixed_name(name);
    }
}

/// A list or map type is read as such, whatever its element types.
pub proof fn law_containers_collapse(elements: Seq<char>)
    ensures
        reported_type("LIST"@ + elements) == Some(DataType::List),
        reported_type("MAP"@ + elements) == Some(DataType::Mapping),
{
    reveal_strlit("LIST");
    reveal_strlit("MAP");
    lemma_base_name_keeps_prefix("LIST"@, elements);
    lemma_base_name_keeps_prefix("MAP"@, elements);
    lemma_suffixed_name(base_name("LIST"@ + elements));
    lemma_suffixed_name(base_name("MAP"@ + elements));
}

proof fn lemma_base_name_keeps_prefix(prefix: Seq<char>, rest: Seq<char>)
    requires
        !prefix.contains(' '),
    ensures
        prefix.is_prefix_of(base_name(prefix + rest)),
{
    reveal_strlit(" NOT NULL");
    let text = prefix + rest;
    if not_null().is_suffix_of(text) {
        let cut = text.len() - not_null().len();
        assert(text.subrange(cut, text.len() as int)[0] == not_null()[0]);
        assert(text[cut] == ' ');
        if cut < prefix.len() {
            assert(prefix[cut] == ' ');
        }
    }
    assert(prefix =~= base_name(text).subrange(0, prefix.len() as int));
}

/// A base name that ends with the suffix is that of a list or map type at most.
proof fn lemma_suffixed_name(name: Seq<char>)
    ensures
        named_type(name + not_null()) == if "LIST"@.is_prefix_of(name) {
            Some(DataType::List)
        } else if "MAP"@.is_prefix_of(name) {
            Some(DataType::Mapping)
        } else {
            None
        },
        "LIST"@.is_prefix_of(name) ==> named_type(name) == Some(DataType::List),
        "MAP"@.is_prefix_of(name) ==> named_type(name) == Some(DataType::Mapping),
{
    reveal_strlit(" NOT NULL");
    reveal_strlit("INTEGER");
    reveal_strlit("INT");
    reveal_strlit("FLOAT");
    reveal_strlit("BOOLEAN");
    reveal_strlit("BOOL");
    reveal_strlit("DATE");
    reveal_strlit("DURATION");
    reveal_strlit("ZONED DATETIME");
    reveal_strlit("DATETIME");
    reveal_strlit("ZONED TIME");
    reveal_strlit("TIME");
    reveal_strlit("LOCAL DATETIME");
    reveal_strlit("LOCAL TIME");
    reveal_strlit("STRING");
    reveal_strlit("POINT");
    reveal_strlit("null");
    reveal_strlit("LIST");
    reveal_strlit("MAP");
    let whole = name + not_null();
    assert(whole[whole.len() - 1] == 'L' && whole[whole.len() - 2] == 'L');
    assert("BOOL"@[2] == 'O');
    lemma_prefix_before_space("LIST"@, name, not_null());
    lemma_prefix_before_space("MAP"@, name, not_null());
    if "LIST"@.is_prefix_of(name) {
        assert(name[0] == "LIST"@[0] && name[1] == "LIST"@[1]);
    }
    if "MAP"@.is_prefix_of(name) {
        assert(name[0] == "MAP"@[0] && name[1] == "MAP"@[1]);
    }
}

/// A prefix without the character that a name is continued with is a prefix of
/// the name already.
proof fn lemma_prefix_before_space(prefix: Seq<char>, name: Seq<char>, more: Seq<char>)
    requires
        more.len() >= prefix.len(),
        prefix.len() > 0,
        !prefix.contains(more[0]),
    ensures
        prefix.is_prefix_of(name + more) <==> prefix.is_prefix_of(name),
{
    let whole = name + more;
    if prefix.is_prefix_of(whole) && name.len() < prefix.len() {
        assert(whole.subrange(0, prefix.len() as int)[name.len() as int] == more[0]);
        assert(prefix[name.len() as int] == more[0]);
    }
    if name.len() >= prefix.len() {
        assert(whole.subrange(0, prefix.len() as int) =~= name.subrange(0, prefix.len() as int));
    }
}

/// Whether the text spells the name, with or without ` NOT NULL` behind it.
pub open spec fn spells(text: Seq<char>, name: Seq<char>) -> bool {
    text == name || text == name + " NOT NULL"@
}

/// Which texts are read as which type: those that spell a name of the type, and
/// for lists and maps all that begin with its name. All others are refused.
pub proof fn law_texts_of_every_type(s: &str, read: Result<DataType, UnknownType>)
    requires
        call_ensures(DataType::from_str, (s,), read),
    ensures
        read == Ok::<_, UnknownType>(DataType::Integer) <==> spells(s@, "INTEGER"@) || spells(
            s@,
            "INT"@,
        ),
        read == Ok::<_, UnknownType>(DataType::Float) <==> spells(s@, "FLOAT"@),
        read == Ok::<_, UnknownType>(DataType::Boolean) <==> spells(s@, "BOOLEAN"@) || spells(
            s@,
            "BOOL"@,
        ),
        read == Ok::<_, UnknownType>(DataType::Date) <==> spells(s@, "DATE"@),
        read == Ok::<_, UnknownType>(DataType::Duration) <==> spells(s@, "DURATION"@),
        read == Ok::<_, UnknownType>(DataType::ZonedDatetime) <==> spells(s@, "ZONED DATETIME"@),
        read == Ok::<_, UnknownType>(DataType::Datetime) <==> spells(s@, "DATETIME"@),
        read == Ok::<_, UnknownType>(DataType::ZonedTime) <==> spells(s@, "ZONED TIME"@),
        read == Ok::<_, UnknownType>(DataType::Time) <==> spells(s@, "TIME"@),
        read == Ok::<_, UnknownType>(DataType::LocalDatetime) <==> spells(s@, "LOCAL DATETIME"@),
        read == Ok::<_, UnknownType>(DataType::LocalTime) <==> spells(s@, "LOCAL TIME"@),
        read == Ok::<_, UnknownType>(DataType::String) <==> spells(s@, "STRING"@),
        read == Ok::<_, UnknownType>(DataType::Point) <==> spells(s@, "POINT"@),
        read == Ok::<_, UnknownType>(DataType::Null) <==> spells(s@, "null"@),
        read == Ok::<_, UnknownType>(DataType::List) <==> "LIST"@.is_prefix_of(s@),
        read == Ok::<_, UnknownType>(DataType::Mapping) <==> "MAP"@.is_prefix_of(s@),
{
    let name = base_name(s@);
    lemma_named(name);
    lemma_short_names(s@);
    reveal_strlit("LIST");
    reveal_strlit("MAP");
    lemma_container(s@, "LIST"@);
    lemma_container(s@, "MAP"@);
}

/// Every base name stands for one type only.
proof fn lemma_named(name: Seq<char>)
    ensures
        named_type(name) == Some(DataType::Integer) <==> name == "INTEGER"@ || name == "INT"@,
        named_type(name) == Some(DataType::Float) <==> name == "FLOAT"@,
        named_type(name) == Some(DataType::Boolean) <==> name == "BOOLEAN"@ || name == "BOOL"@,
        named_type(name) == Some(DataType::Date) <==> name == "DATE"@,
        named_type(name) == Some(DataType::Duration) <==> name == "DURATION"@,
        named_type(name) == Some(DataType::ZonedDatetime) <==> name == "ZONED DATETIME"@,
        named_type(name) == Some(DataType::Datetime) <==> name == "DATETIME"@,
        named_type(name) == Some(DataType::ZonedTime) <==> name == "ZONED TIME"@,
        named_type(name) == Some(DataType::Time) <==> name == "TIME"@,
        named_type(name) == Some(DataType::LocalDatetime) <==> name == "LOCAL DATETIME"@,
        named_type(name) == Some(DataType::LocalTime) <==> name == "LOCAL TIME"@,
        named_type(name) == Some(DataType::String) <==> name == "STRING"@,
        named_type(name) == Some(DataType::Point) <==> name == "POINT"@,
        named_type(name) == Some(DataType::Null) <==> name == "null"@,
        named_type(name) == Some(DataType::List) <==> "LIST"@.is_prefix_of(name),
        named_type(name) == Some(DataType::Mapping) <==> "MAP"@.is_prefix_of(name),
{
    lemma_name_heads();
    reveal_strlit("LIST");
    reveal_strlit("MAP");
    if "LIST"@.is_prefix_of(name) {
        assert(name.subrange(0, 4)[0] == 'L' && name.subrange(0, 4)[1] == 'I');
    }
    if "MAP"@.is_prefix_of(name) {
        assert(name.subrange(0, 3)[0] == 'M');
    }
}

/// The names of the types by length and first letters.
proof fn lemma_name_heads()
    ensures
        "INTEGER"@.len() == 7 && "INTEGER"@[0] == 'I',
        "INT"@.len() == 3 && "INT"@[0] == 'I',
        "FLOAT"@.len() == 5 && "FLOAT"@[0] == 'F',
        "BOOLEAN"@.len() == 7 && "BOOLEAN"@[0] == 'B',
        "BOOL"@.len() == 4 && "BOOL"@[0] == 'B',
        "DATE"@.len() == 4 && "DATE"@[0] == 'D',
        "DURATION"@.len() == 8 && "DURATION"@[0] == 'D' && "DURATION"@[1] == 'U',
        "ZONED DATETIME"@.len() == 14 && "ZONED DATETIME"@[0] == 'Z',
        "DATETIME"@.len() == 8 && "DATETIME"@[0] == 'D' && "DATETIME"@[1] == 'A',
        "ZONED TIME"@.len() == 10 && "ZONED TIME"@[0] == 'Z',
        "TIME"@.len() == 4 && "TIME"@[0] == 'T',
        "LOCAL DATETIME"@.len() == 14 && "LOCAL DATETIME"@[0] == 'L' && "LOCAL DATETIME"@[1] == 'O',
        "LOCAL TIME"@.len() == 10 && "LOCAL TIME"@[0] == 'L' && "LOCAL TIME"@[1] == 'O',
        "STRING"@.len() == 6 && "STRING"@[0] == 'S',
        "POINT"@.len() == 5 && "POINT"@[0] == 'P',
        "null"@.len() == 4 && "null"@[0] == 'n',
        "ZONED DATETIME"@.last() == 'E',
        "ZONED TIME"@.last() == 'E',
        "LOCAL DATETIME"@.last() == 'E',
        "LOCAL TIME"@.last() == 'E',
{
    reveal_strlit("INTEGER");
    reveal_strlit("INT");
    reveal_strlit("FLOAT");
    reveal_strlit("BOOLEAN");
    reveal_strlit("BOOL");
    reveal_strlit("DATE");
    reveal_strlit("DURATION");
    reveal_strlit("ZONED DATETIME");
    reveal_strlit("DATETIME");
    reveal_strlit("ZONED TIME");
    reveal_strlit("TIME");
    reveal_strlit("LOCAL DATETIME");
    reveal_strlit("LOCAL TIME");
    reveal_strlit("STRING");
    reveal_strlit("POINT");
    reveal_strlit("null");
}

/// A text has one of the names as its base name exactly if it spells it.
proof fn lemma_short_names(text: Seq<char>)
    ensures
        base_name(text) == "INTEGER"@ <==> spells(text, "INTEGER"@),
        base_name(text) == "INT"@ <==> spells(text, "INT"@),
        base_name(text) == "FLOAT"@ <==> spells(text, "FLOAT"@),
        base_name(text) == "BOOLEAN"@ <==> spells(text, "BOOLEAN"@),
        base_name(text) == "BOOL"@ <==> spells(text, "BOOL"@),
        base_name(text) == "DATE"@ <==> spells(text, "DATE"@),
        base_name(text) == "DURATION"@ <==> spells(text, "DURATION"@),
        base_name(text) == "ZONED DATETIME"@ <==> spells(text, "ZONED DATETIME"@),
        base_name(text) == "DATETIME"@ <==> spells(text, "DATETIME"@),
        base_name(text) == "ZONED TIME"@ <==> spells(text, "ZONED TIME"@),
        base_name(text) == "TIME"@ <==> spells(text, "TIME"@),
        base_name(text) == "LOCAL DATETIME"@ <==> spells(text, "LOCAL DATETIME"@),
        base_name(text) == "LOCAL TIME"@ <==> spells(text, "LOCAL TIME"@),
        base_name(text) == "STRING"@ <==> spells(text, "STRING"@),
        base_name(text) == "POINT"@ <==> spells(text, "POINT"@),
        base_name(text) == "null"@ <==> spells(text, "null"@),
{
    lemma_name_heads();
    lemma_spelled(text, "INTEGER"@);
    lemma_spelled(text, "INT"@);
    lemma_spelled(text, "FLOAT"@);
    lemma_spelled(text, "BOOLEAN"@);
    lemma_spelled(text, "BOOL"@);
    lemma_spelled(text, "DATE"@);
    lemma_spelled(text, "DURATION"@);
    lemma_spelled(text, "ZONED DATETIME"@);
    lemma_spelled(text, "DATETIME"@);
    lemma_spelled(text, "ZONED TIME"@);
    lemma_spelled(text, "TIME"@);
    lemma_spelled(text, "LOCAL DATETIME"@);
    lemma_spelled(text, "LOCAL TIME"@);
    lemma_spelled(text, "STRING"@);
    lemma_spelled(text, "POINT"@);
    lemma_spelled(text, "null"@);
}

proof fn lemma_spelled(text: Seq<char>, name: Seq<char>)
    requires
        name.len() < 9 || name.last() == 'E',
    ensures
        base_name(text) == name <==> spells(text, name),
{
    reveal_strlit(" NOT NULL");
    let longer = name + not_null();
    assert(longer.subrange(name.len() as int, longer.len() as int) =~= not_null());
    assert(longer.take(longer.len() - 9) =~= name);
    if not_null().is_suffix_of(name) {
        assert(name.subrange(name.len() - 9, name.len() as int)[8] == 'L');
    }
    if not_null().is_suffix_of(text) {
        assert(text =~= text.take(text.len() - 9) + not_null());
    }
}

proof fn lemma_container(text: Seq<char>, prefix: Seq<char>)
    requires
        !prefix.contains(' '),
    ensures
        prefix.is_prefix_of(base_name(text)) <==> prefix.is_prefix_of(text),
{
    if prefix.is_prefix_of(text) {
        let rest = text.skip(prefix.len() as int);
        assert(text =~= prefix + rest);
        lemma_base_name_keeps_prefix(prefix, rest);
    }
    if prefix.is_prefix_of(base_name(text)) {
        assert(text.subrange(0, prefix.len() as int) =~= base_name(text).subrange(
            0,
            prefix.len() as int,
        ));
    }
}

/// A range is shown of the numeric, boolean and temporal types.
pub proof fn law_range_types(data_type: DataType, range: bool)
    requires
        call_ensures(DataType::is_range_type, (&data_type,), range),
    ensures
        range <==> data_type == DataType::Integer || data_type == DataType::Float || data_type
            == DataType::Boolean || data_type == DataType::Date || data_type == DataType::Duration
            || data_type == DataType::ZonedDatetime || data_type == DataType::Datetime || data_type
            == DataType::ZonedTime || data_type == DataType::Time || data_type
            == DataType::LocalDatetime || data_type == DataType::LocalTime,
        !range <==> data_type == DataType::String || data_type == DataType::List || data_type
            == DataType::Point || data_type == DataType::Mapping || data_type == DataType::Null,
{
}

/// No value is asked for of points, maps and properties without a type.
pub proof fn law_opaque_types(data_type: DataType, opaque: bool)
    requires
        call_ensures(DataType::is_opaque_type, (&data_type,), opaque),
    ensures
        opaque <==> data_type == DataType::Point || data_type == DataType::Mapping || data_type
            == DataType::Null,
{
}

} // verus!
