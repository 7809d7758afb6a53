//! Annotations: what live data says of a property, and how to ask for it.

use vstd::prelude::*;

use crate::data_type::DataType;
use crate::json::{in_quotes, is_plain, json_text, sample_text, Sample, SampleView};

verus! {

/// Supplemental data extracted from live records to enrich a property entry.
#[derive(Debug)]
pub enum Annotation {
    /// A representative value sampled from the first matching record.
    Example(String),
    /// The lower and upper bounds observed over all non-null values.
    MinMax(String, String),
    /// Nothing is known or applicable.
    Nothing,
}

/// What an [`Annotation`] says.
pub enum AnnotationView {
    Example(Seq<char>),
    MinMax(Seq<char>, Seq<char>),
    Nothing,
}

impl DeepView for Annotation {
    type V = AnnotationView;

    open spec fn deep_view(&self) -> AnnotationView {
        match self {
            Annotation::Example(value) => AnnotationView::Example(value@),
            Annotation::MinMax(low, high) => AnnotationView::MinMax(low@, high@),
            Annotation::Nothing => AnnotationView::Nothing,
        }
    }
}

impl Clone for Annotation {
    fn clone(&self) -> (copy: Annotation)
        ensures
            copy.deep_view() == self.deep_view(),
    {
        match self {
            Annotation::Example(value) => Annotation::Example(value.clone()),
            Annotation::MinMax(low, high) => Annotation::MinMax(low.clone(), high.clone()),
            Annotation::Nothing => Annotation::Nothing,
        }
    }
}

/// What carries properties in the graph.
#[derive(Debug, Clone, Copy, PartialEq, Eq, Structural)]
pub enum EntityKind {
    /// Nodes with a label.
    Node,
    /// Relationships of a type.
    Relationship,
}

/// The clause that matches all nodes with a label, or all relationships of a
/// type as the procedures write it, under the name `target`.
pub open spec fn matching(kind: EntityKind, entity: Seq<char>) -> Seq<char> {
    match kind {
        EntityKind::Node => "MATCH (target:`"@ + entity + "`)"@,
        EntityKind::Relationship => "MATCH ()-[target"@ + entity + "]->()"@,
    }
}

/// Writes the clause that matches a label or relationship type.
pub fn match_clause(kind: EntityKind, entity: &str) -> (clause: String)
    ensures
        clause@ == matching(kind, entity@),
{
    match kind {
        EntityKind::Node => "MATCH (target:`".to_owned().concat(entity).concat("`)"),
        EntityKind::Relationship => "MATCH ()-[target".to_owned().concat(entity).concat("]->()"),
    }
}

/// The query for the least and the greatest non-null value of a property.
pub open spec fn range_query(clause: Seq<char>, property: Seq<char>) -> Seq<char> {
    clause + " WHERE target.`"@ + property + "` IS NOT NULL RETURN toString(min(target.`"@
        + property + "`)) AS mn, toString(max(target.`"@ + property + "`)) AS mx"@
}

/// The query for one non-null value of a property.
pub open spec fn example_query(clause: Seq<char>, property: Seq<char>) -> Seq<char> {
    clause + " WHERE target.`"@ + property + "` IS NOT NULL RETURN target.`"@ + property
        + "` AS v LIMIT 1"@
}

/// How the annotation of a property is found.
#[derive(Debug)]
pub enum AnnotationStep {
    /// It is settled without any query.
    Settled(Annotation),
    /// By a query for the range of the values, which [`range_answer`] reads.
    AskRange(String),
    /// By a query for one value, which [`example_answer`] reads.
    AskExample(String),
}

/// What an [`AnnotationStep`] says.
pub enum AnnotationStepView {
    Settled(AnnotationView),
    AskRange(Seq<char>),
    AskExample(Seq<char>),
}

impl DeepView for AnnotationStep {
    type V = AnnotationStepView;

    open spec fn deep_view(&self) -> AnnotationStepView {
        match self {
            AnnotationStep::Settled(annotation) => AnnotationStepView::Settled(
                annotation.deep_view(),
            ),
            AnnotationStep::AskRange(query) => AnnotationStepView::AskRange(query@),
            AnnotationStep::AskExample(query) => AnnotationStepView::AskExample(query@),
        }
    }
}

/// How the annotation of a property of that type is found: opaque types have
/// none, ordered types get a range, all others an example.
pub open spec fn annotation_step(
    clause: Seq<char>,
    property: Seq<char>,
    data_type: DataType,
) -> AnnotationStepView {
    if data_type.is_opaque() {
        AnnotationStepView::Settled(AnnotationView::Nothing)
    } else if data_type.is_range() {
        AnnotationStepView::AskRange(range_query(clause, property))
    } else {
        AnnotationStepView::AskExample(example_query(clause, property))
    }
}

/// Decides how the annotation of a property is found.
pub fn annotate(match_clause: &str, prop: &str, ptype: DataType) -> (step: AnnotationStep)
    ensures
        step.deep_view() == annotation_step(match_clause@, prop@, ptype),
{
    if ptype.is_opaque_type() {
        return AnnotationStep::Settled(Annotation::Nothing);
    }
    let filtered = match_clause.to_owned().concat(" WHERE target.`").concat(prop);
    if ptype.is_range_type() {
        let query = filtered.concat("` IS NOT NULL RETURN toString(min(target.`").concat(
            prop,
        ).concat("`)) AS mn, toString(max(target.`").concat(prop).concat("`)) AS mx");
        AnnotationStep::AskRange(query)
    } else {
        let query = filtered.concat("` IS NOT NULL RETURN target.`").concat(prop).concat(
            "` AS v LIMIT 1",
        );
        AnnotationStep::AskExample(query)
    }
}

/// Reads the reply to a range query: the two bounds of its row, each missing if
/// it is null, or no row.
pub fn range_answer(row: Option<(Option<String>, Option<String>)>) -> (annotation: Annotation)
    ensures
        annotation.deep_view() == match row {
            Some((Some(low), Some(high))) => AnnotationView::MinMax(low@, high@),
            _ => AnnotationView::Nothing,
        },
{
    match row {
        Some((Some(low), Some(high))) => Annotation::MinMax(low, high),
        _ => Annotation::Nothing,
    }
}

/// Reads the reply to an example query: the value, if there is one, as its
/// compact JSON text. A text is shown in quotes.
pub fn example_answer(value: Option<Sample>) -> (annotation: Annotation)
    ensures
        annotation.deep_view() == match value {
            Some(sample) => AnnotationView::Example(json_text(sample.deep_view())),
            None => AnnotationView::Nothing,
        },
        value matches Some(Sample::Text(text)) ==> {
            &&& in_quotes(json_text(SampleView::Text(text@)))
            &&& is_plain(text@) ==> annotation.deep_view() == AnnotationView::Example(
                seq!['"'] + text@ + seq!['"'],
            )
        },
{
    match value {
        Some(sample) => example_of_text(Some(sample_text(&sample))),
        None => example_of_text(None),
    }
}

/// The annotation that shows the text of a sampled value, if there is one.
pub fn example_of_text(text: Option<String>) -> (annotation: Annotation)
    ensures
        annotation.deep_view() == match text {
            Some(text) => AnnotationView::Example(text@),
            None => AnnotationView::Nothing,
        },
{
    match text {
        Some(text) => Annotation::Example(text),
        None => Annotation::Nothing,
    }
}

/// Every type has its way to be annotated: a range for the numeric, boolean and
/// temporal types, an example for texts and lists, nothing for the others. The
/// queries look at the non-null values of that property of what the clause matches.
pub proof fn law_every_type_has_its_step(
    clause: &str,
    property: &str,
    data_type: DataType,
    step: AnnotationStep,
)
    requires
        call_ensures(annotate, (clause, property, data_type), step),
    ensures
        step is AskRange <==> data_type == DataType::Integer || data_type == DataType::Float
            || data_type == DataType::Boolean || data_type == DataType::Date || data_type
            == DataType::Duration || data_type == DataType::ZonedDatetime || data_type
            == DataType::Datetime || data_type == DataType::ZonedTime || data_type
            == DataType::Time || data_type == DataType::LocalDatetime || data_type
            == DataType::LocalTime,
        step is AskExample <==> data_type == DataType::String || data_type == DataType::List,
        step is Settled <==> data_type == DataType::Point || data_type == DataType::Mapping
            || data_type == DataType::Null,
        step matches AnnotationStep::Settled(annotation) ==> annotation is Nothing,
        step matches AnnotationStep::AskRange(query) ==> query@ == clause@ + " WHERE target.`"@
            + property@ + "` IS NOT NULL RETURN toString(min(target.`"@ + property@
            + "`)) AS mn, toString(max(target.`"@ + property@ + "`)) AS mx"@,
        step matches AnnotationStep::AskExample(query) ==> query@ == clause@ + " WHERE target.`"@
            + property@ + "` IS NOT NULL RETURN target.`"@ + property@ + "` AS v LIMIT 1"@,
{
    assert(step.deep_view() == annotation_step(clause@, property@, data_type));
}

/// What is asked depends on the clause only in that the query begins with it.
pub proof fn law_queries_begin_with_the_clause(
    a: &str,
    b: &str,
    property: &str,
    data_type: DataType,
    x: AnnotationStep,
    y: AnnotationStep,
)
    requires
        call_ensures(annotate, (a, property, data_type), x),
        call_ensures(annotate, (b, property, data_type), y),
    ensures
        match (x, y) {
            (AnnotationStep::AskRange(p), AnnotationStep::AskRange(q)) => a@.is_prefix_of(p@)
                && b@.is_prefix_of(q@) && p@.skip(a@.len() as int) == q@.skip(b@.len() as int),
            (AnnotationStep::AskExample(p), AnnotationStep::AskExample(q)) => a@.is_prefix_of(p@)
                && b@.is_prefix_of(q@) && p@.skip(a@.len() as int) == q@.skip(b@.len() as int),
            (AnnotationStep::Settled(p), AnnotationStep::Settled(q)) => p is Nothing
                && q is Nothing,
            _ => false,
        },
{
    assert(x.deep_view() == annotation_step(a@, property@, data_type));
    assert(y.deep_view() == annotation_step(b@, property@, data_type));
    let (p, q) = (range_query(a@, property@), range_query(b@, property@));
    assert(p.skip(a@.len() as int) =~= q.skip(b@.len() as int));
    assert(p.subrange(0, a@.len() as int) =~= a@);
    assert(q.subrange(0, b@.len() as int) =~= b@);
    let (p, q) = (example_query(a@, property@), example_query(b@, property@));
    assert(p.skip(a@.len() as int) =~= q.skip(b@.len() as int));
    assert(p.subrange(0, a@.len() as int) =~= a@);
    assert(q.subrange(0, b@.len() as int) =~= b@);
}

/// Nodes are matched by their label in backticks, relationships by their type as
/// the procedures write it, colon included.
pub proof fn law_clauses_match_the_entity(kind: EntityKind, entity: &str, clause: String)
    requires
        call_ensures(match_clause, (kind, entity), clause),
    ensures
        kind == EntityKind::Node ==> clause@ == "MATCH (target:`"@ + entity@ + "`)"@,
        kind == EntityKind::Relationship ==> clause@ == "MATCH ()-[target"@ + entity@ + "]->()"@,
{
}

/// A range is known exactly if the reply has both bounds, and then it has them in
/// their order.
pub proof fn law_ranges_have_both_bounds(
    row: Option<(Option<String>, Option<String>)>,
    annotation: Annotation,
)
    requires
        call_ensures(range_answer, (row,), annotation),
    ensures
        match row {
            Some((Some(low), Some(high))) => annotation matches Annotation::MinMax(a, b) && a@
                == low@ && b@ == high@,
            Some((None, _)) => annotation is Nothing,
            Some((_, None)) => annotation is Nothing,
            None => annotation is Nothing,
        },
{
}

/// An example is shown exactly if there is a value, and then it is the value's
/// JSON text: of a text without quotes, backslashes and control characters that is
/// the text in quotes.
pub proof fn law_examples_show_the_value(value: Option<Sample>, annotation: Annotation)
    requires
        call_ensures(example_answer, (value,), annotation),
    ensures
        annotation is Example <==> value is Some,
        annotation is Nothing <==> value is None,
        value matches Some(Sample::Other(json)) ==> (annotation matches Annotation::Example(shown)
            && shown@ == json_text(SampleView::Other(json))),
        value matches Some(Sample::Text(text)) ==> (annotation matches Annotation::Example(shown)
            && shown@ == json_text(SampleView::Text(text@)) && shown@.len() >= 2 && shown@.first()
            == '"' && shown@.last() == '"' && ((forall|i: int|
            0 <= i < text@.len() ==> (#[trigger] text@[i]) != '"' && text@[i] != '\\' && text@[i]
                >= ' ') ==> shown@ == seq!['"'] + text@ + seq!['"'])),
{
    assert(annotation.deep_view() == match value {
        Some(sample) => AnnotationView::Example(json_text(sample.deep_view())),
        None => AnnotationView::Nothing,
    });
    if let Some(Sample::Text(text)) = value {
        if forall|i: int|
            0 <= i < text@.len() ==> (#[trigger] text@[i]) != '"' && text@[i] != '\\' && text@[i]
                >= ' ' {
            assert(is_plain(text@));
        }
    }
}

/// The text of a sampled value is shown as it is.
pub proof fn law_example_texts_are_shown(text: Option<String>, annotation: Annotation)
    requires
        call_ensures(example_of_text, (text,), annotation),
    ensures
        annotation is Example <==> text is Some,
        annotation is Nothing <==> text is None,
        annotation matches Annotation::Example(shown) ==> shown@ == text->0@,
{
}

/// What an annotation says, and a copy of it, is of its kind and has its texts.
pub proof fn law_annotations_say_what_they_hold(annotation: Annotation, copy: Annotation)
    requires
        call_ensures(Annotation::clone, (&annotation,), copy),
    ensures
        match annotation {
            Annotation::Example(value) => annotation.deep_view() == AnnotationView::Example(value@)
                && (copy matches Annotation::Example(same) && same@ == value@),
            Annotation::MinMax(low, high) => annotation.deep_view() == AnnotationView::MinMax(
                low@,
                high@,
            ) && (copy matches Annotation::MinMax(a, b) && a@ == low@ && b@ == high@),
            Annotation::Nothing => annotation.deep_view() == AnnotationView::Nothing
                && copy is Nothing,
        },
{
    assert(copy.deep_view() == annotation.deep_view());
}

} // verus!
