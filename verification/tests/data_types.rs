use neo4j_schema::data_type::{DataType, UnknownType};

const NAMES: [(&str, DataType); 18] = [
    ("INTEGER", DataType::Integer),
    ("INT", DataType::Integer),
    ("FLOAT", DataType::Float),
    ("BOOLEAN", DataType::Boolean),
    ("BOOL", DataType::Boolean),
    ("DATE", DataType::Date),
    ("DURATION", DataType::Duration),
    ("ZONED DATETIME", DataType::ZonedDatetime),
    ("DATETIME", DataType::Datetime),
    ("ZONED TIME", DataType::ZonedTime),
    ("TIME", DataType::Time),
    ("LOCAL DATETIME", DataType::LocalDatetime),
    ("LOCAL TIME", DataType::LocalTime),
    ("STRING", DataType::String),
    ("POINT", DataType::Point),
    ("null", DataType::Null),
    ("LIST", DataType::List),
    ("MAP", DataType::Mapping),
];

#[test]
fn reads_every_name() {
    for (name, data_type) in NAMES {
        assert_eq!(DataType::from_str(name), Ok(data_type), "{name}");
        assert_eq!(name.parse::<DataType>(), Ok(data_type), "{name}");
    }
}

#[test]
fn not_null_is_optional() {
    for (name, data_type) in NAMES {
        let longer = format!("{name} NOT NULL");
        assert_eq!(DataType::from_str(&longer), Ok(data_type), "{longer}");
    }
}

#[test]
fn only_one_not_null_is_stripped() {
    assert_eq!(DataType::from_str("INT NOT NULL NOT NULL"), Err(UnknownType));
    assert_eq!(
        DataType::from_str("LIST<INT> NOT NULL NOT NULL"),
        Ok(DataType::List)
    );
}

#[test]
fn containers_collapse() {
    assert_eq!(
        DataType::from_str("LIST<STRING NOT NULL> NOT NULL"),
        Ok(DataType::List)
    );
    assert_eq!(DataType::from_str("MAP<ANY>"), Ok(DataType::Mapping));
}

#[test]
fn unknown_names_are_refused() {
    for name in ["", "string", "Integer", " INT", "INT ", "NULL", " NOT NULL", "LIS", "É"] {
        assert_eq!(DataType::from_str(name), Err(UnknownType), "{name}");
        assert_eq!(name.parse::<DataType>(), Err(UnknownType), "{name}");
    }
    assert_eq!(UnknownType.message(), "unknown Neo4j data type");
}

#[test]
fn ordered_types_have_ranges() {
    let ranges: Vec<DataType> = NAMES
        .iter()
        .map(|entry| entry.1)
        .filter(|data_type| data_type.is_range_type())
        .collect();
    assert_eq!(
        ranges,
        vec![
            DataType::Integer,
            DataType::Integer,
            DataType::Float,
            DataType::Boolean,
            DataType::Boolean,
            DataType::Date,
            DataType::Duration,
            DataType::ZonedDatetime,
            DataType::Datetime,
            DataType::ZonedTime,
            DataType::Time,
            DataType::LocalDatetime,
            DataType::LocalTime,
        ]
    );
}

#[test]
fn opaque_types_are_never_sampled() {
    for (name, data_type) in NAMES {
        assert_eq!(
            data_type.is_opaque_type(),
            name == "POINT" || name == "MAP" || name == "null"
        );
    }
}
