//! Rendering of a fully resolved schema.

use vstd::prelude::*;

use crate::annotation::{Annotation, AnnotationView, EntityKind};
use crate::ordered_map::{keyed, lemma_lookup_entry, lookup};
use crate::props::{cell, reported, summed_up, tabulates, PropTableView, Report};
use crate::resolve::{
    all_tasks, entity_tasks, gathers, law_every_property_gets_a_task, law_section_lists_the_tasks,
    paired, resolved, task_of, ResolvedProp, ResolvedView, Section, SectionView,
};
use crate::scope::quoted_rel_type;
use crate::text::starts_with;
use crate::topology::{PatternSet, PatternView};

verus! {

/// Renders a fully resolved schema as text.
///
/// A renderer gets the three parts of the schema: the properties of the nodes by
/// label, the properties of the relationships by type, and the edge patterns. It
/// performs no I/O: writing the text somewhere is left to its caller.
pub trait SchemaRenderer {
    /// The text that shows the schema.
    spec fn rendering(
        &self,
        nodes: SectionView,
        rels: SectionView,
        patterns: Seq<PatternView>,
    ) -> Seq<char>;

    /// Renders the schema.
    fn render(&self, nodes: &Section, rels: &Section, patterns: &PatternSet) -> (text: String)
        ensures
            text@ == self.rendering(nodes@, rels@, patterns@),
    ;
}

/// A [`SchemaRenderer`] for Markdown-flavoured plain text.
///
/// Labels and relationship types are bold list headers. Below them stands one
/// entry per property with its types and its annotation. The edge patterns come
/// last, one per line.
pub struct MarkdownRenderer;

/// What follows the types of a property on its line.
pub open spec fn suffix(annotation: AnnotationView) -> Seq<char> {
    match annotation {
        AnnotationView::Example(value) => " Example: "@ + value,
        AnnotationView::MinMax(low, high) => " Min: "@ + low + ", Max: "@ + high,
        AnnotationView::Nothing => seq![],
    }
}

/// The line of a property.
pub open spec fn prop_line(prop: ResolvedView) -> Seq<char> {
    let mark = if prop.required {
        " REQUIRED"@
    } else {
        seq![]
    };
    "  - `"@ + prop.name + "`: "@ + prop.type_str + mark + suffix(prop.annotation) + "\n"@
}

/// The lines of several properties.
pub open spec fn prop_lines(props: Seq<ResolvedView>) -> Seq<char>
    decreases props.len(),
{
    if props.len() == 0 {
        seq![]
    } else {
        prop_lines(props.drop_last()) + prop_line(props.last())
    }
}

/// How a label or relationship type is written in its header: a relationship type
/// without the colon in front of it, a label as it is.
pub open spec fn header_name(kind: EntityKind, entity: Seq<char>) -> Seq<char> {
    match kind {
        EntityKind::Node => entity,
        EntityKind::Relationship => if entity.len() > 0 && entity[0] == ':' {
            entity.skip(1)
        } else {
            entity
        },
    }
}

/// The header line of a label or relationship type.
pub open spec fn header_line(kind: EntityKind, entity: Seq<char>) -> Seq<char> {
    "- **"@ + header_name(kind, entity) + "**\n"@
}

/// The lines of a label or relationship type.
pub open spec fn entity_lines(
    kind: EntityKind,
    entity: Seq<char>,
    props: Seq<ResolvedView>,
) -> Seq<char> {
    header_line(kind, entity) + prop_lines(props)
}

/// The lines of all labels or relationship types.
pub open spec fn section_lines(kind: EntityKind, section: SectionView) -> Seq<char>
    decreases section.len(),
{
    if section.len() == 0 {
        seq![]
    } else {
        section_lines(kind, section.drop_last()) + entity_lines(
            kind,
            section.last().0,
            section.last().1,
        )
    }
}

/// The line of an edge pattern.
pub open spec fn pattern_line(pattern: PatternView) -> Seq<char> {
    "(:"@ + pattern.0 + ")-([:"@ + pattern.1 + "])-> (:"@ + pattern.2 + ")\n"@
}

/// The lines of several edge patterns.
pub open spec fn pattern_lines(patterns: Seq<PatternView>) -> Seq<char>
    decreases patterns.len(),
{
    if patterns.len() == 0 {
        seq![]
    } else {
        pattern_lines(patterns.drop_last()) + pattern_line(patterns.last())
    }
}

/// The whole Markdown text.
pub open spec fn markdown(
    nodes: SectionView,
    rels: SectionView,
    patterns: Seq<PatternView>,
) -> Seq<char> {
    "Node properties:\n"@ + section_lines(EntityKind::Node, nodes)
        + "\nRelationship properties:\n"@ + section_lines(EntityKind::Relationship, rels)
        + "\nThe relationships:\n"@ + pattern_lines(patterns)
}

impl MarkdownRenderer {
    /// Writes what follows the types of a property on its line.
    pub fn annotation_suffix(ann: &Annotation) -> (text: String)
        ensures
            text@ == suffix(ann.deep_view()),
    {
        match ann {
            Annotation::Example(value) => " Example: ".to_owned().concat(value.as_str()),
            Annotation::MinMax(low, high) => " Min: ".to_owned().concat(low.as_str()).concat(
                ", Max: ",
            ).concat(high.as_str()),
            Annotation::Nothing => String::new(),
        }
    }

    /// Appends the line of a property.
    fn write_prop(text: &mut String, prop: &ResolvedProp)
        ensures
            final(text)@ == old(text)@ + prop_line(prop.deep_view()),
    {
        let ghost start = text@;
        text.append("  - `");
        text.append(prop.name.as_str());
        text.append("`: ");
        text.append(prop.type_str.as_str());
        if prop.required {
            text.append(" REQUIRED");
        }
        let annotation = Self::annotation_suffix(&prop.annotation);
        text.append(annotation.as_str());
        text.append("\n");
        assert(text@ =~= start + prop_line(prop.deep_view()));
    }

    /// Writes a label or relationship type as its header shows it.
    fn shown_name<'a>(kind: EntityKind, entity: &'a str) -> (name: &'a str)
        ensures
            name@ == header_name(kind, entity@),
    {
        match kind {
            EntityKind::Node => entity,
            EntityKind::Relationship => {
                proof {
                    reveal_strlit(":");
                }
                if starts_with(entity, ":") {
                    assert(entity@.subrange(0, 1)[0] == ':');
                    let name = entity.substring_char(1, entity.unicode_len());
                    assert(name@ =~= entity@.skip(1));
                    name
                } else {
                    assert(entity@.len() > 0 && entity@[0] == ':' ==> ":"@ =~= entity@.subrange(
                        0,
                        1,
                    ));
                    entity
                }
            },
        }
    }

    /// Appends the lines of a section.
    fn write_section(text: &mut String, kind: EntityKind, section: &Section)
        ensures
            final(text)@ == old(text)@ + section_lines(kind, section@),
    {
        let ghost start = text@;
        let ghost all = section@;
        let mut i: usize = 0;
        assert(all.take(0) =~= seq![]);
        assert(start + seq![] =~= start);
        while i < section.len()
            invariant
                all == section@,
                i <= all.len(),
                text@ == start + section_lines(kind, all.take(i as int)),
            decreases all.len() - i,
        {
            let entity = section.key(i);
            let props = section.value(i);
            let ghost list = props.deep_view();
            let ghost above = text@;
            text.append("- **");
            text.append(Self::shown_name(kind, entity.as_str()));
            text.append("**\n");
            let ghost header = header_line(kind, entity@);
            let mut j: usize = 0;
            assert(list.take(0) =~= seq![]);
            assert(text@ =~= above + (header + seq![]));
            while j < props.len()
                invariant
                    list == props.deep_view(),
                    j <= list.len(),
                    text@ == above + (header + prop_lines(list.take(j as int))),
                decreases list.len() - j,
            {
                assert(list.take(j + 1).drop_last() =~= list.take(j as int));
                assert(list.take(j + 1).last() == props@[j as int].deep_view());
                Self::write_prop(text, &props[j]);
                assert(text@ =~= above + (header + prop_lines(list.take(j + 1))));
                j += 1;
            }
            assert(list.take(j as int) =~= list);
            assert(all.take(i + 1).drop_last() =~= all.take(i as int));
            assert(all.take(i + 1).last() == all[i as int]);
            assert(text@ =~= start + section_lines(kind, all.take(i + 1)));
            i += 1;
        }
        assert(all.take(i as int) =~= all);
    }

    /// Appends the lines of the edge patterns.
    fn write_patterns(text: &mut String, patterns: &PatternSet)
        ensures
            final(text)@ == old(text)@ + pattern_lines(patterns@),
    {
        let ghost start = text@;
        let ghost all = patterns@;
        let mut i: usize = 0;
        assert(all.take(0) =~= seq![]);
        assert(start + seq![] =~= start);
        while i < patterns.len()
            invariant
                all == patterns@,
                i <= all.len(),
                text@ == start + pattern_lines(all.take(i as int)),
            decreases all.len() - i,
        {
            let pattern = patterns.pattern(i);
            text.append("(:");
            text.append(pattern.0.as_str());
            text.append(")-([:");
            text.append(pattern.1.as_str());
            text.append("])-> (:");
            text.append(pattern.2.as_str());
            text.append(")\n");
            assert(all.take(i + 1).drop_last() =~= all.take(i as int));
            assert(all.take(i + 1).last() == all[i as int]);
            assert(text@ =~= start + pattern_lines(all.take(i + 1)));
            i += 1;
        }
        assert(all.take(i as int) =~= all);
    }
}

impl SchemaRenderer for MarkdownRenderer {
    open spec fn rendering(
        &self,
        nodes: SectionView,
        rels: SectionView,
        patterns: Seq<PatternView>,
    ) -> Seq<char> {
        markdown(nodes, rels, patterns)
    }

    fn render(&self, nodes: &Section, rels: &Section, patterns: &PatternSet) -> (text: String) {
        let mut text = "Node properties:\n".to_owned();
        Self::write_section(&mut text, EntityKind::Node, nodes);
        text.append("\nRelationship properties:\n");
        Self::write_section(&mut text, EntityKind::Relationship, rels);
        text.append("\nThe relationships:\n");
        Self::write_patterns(&mut text, patterns);
        text
    }
}

/// Whether a part occurs in a whole text.
pub open spec fn occurs(part: Seq<char>, whole: Seq<char>) -> bool {
    exists|above: Seq<char>, below: Seq<char>| whole == #[trigger] (above + part + below)
}

proof fn lemma_occurs_deeper(part: Seq<char>, whole: Seq<char>, above: Seq<char>, below: Seq<char>)
    requires
        occurs(part, whole),
    ensures
        occurs(part, above + whole + below),
{
    let (a, b) = choose|a: Seq<char>, b: Seq<char>| whole == #[trigger] (a + part + b);
    assert(above + whole + below =~= (above + a) + part + (b + below));
}

proof fn lemma_prop_occurs(props: Seq<ResolvedView>, j: int)
    requires
        0 <= j < props.len(),
    ensures
        occurs(prop_line(props[j]), prop_lines(props)),
    decreases props.len(),
{
    let line = prop_line(props[j]);
    let rest = prop_lines(props.drop_last());
    if j == props.len() - 1 {
        assert(prop_lines(props) =~= rest + line + seq![]);
    } else {
        lemma_prop_occurs(props.drop_last(), j);
        lemma_occurs_deeper(line, rest, seq![], prop_line(props.last()));
        assert(seq![] + rest + prop_line(props.last()) =~= prop_lines(props));
    }
}

/// The header of a relationship type shows its name between backticks, without the
/// colon that the schema procedures report in front of it.
pub proof fn law_rel_headers_have_no_colon(name: Seq<char>)
    ensures
        header_line(EntityKind::Relationship, quoted_rel_type(name)) == "- **`"@ + name + "`**\n"@,
{
    reveal_strlit(":`");
    reveal_strlit("`");
    reveal_strlit("- **");
    reveal_strlit("**\n");
    reveal_strlit("- **`");
    reveal_strlit("`**\n");
    assert(quoted_rel_type(name)[0] == ':');
    assert(quoted_rel_type(name).skip(1) =~= "`"@ + name + "`"@);
    assert(header_line(EntityKind::Relationship, quoted_rel_type(name)) =~= "- **`"@ + name
        + "`**\n"@);
}

proof fn lemma_entity_occurs(kind: EntityKind, section: SectionView, i: int)
    requires
        0 <= i < section.len(),
    ensures
        occurs(entity_lines(kind, section[i].0, section[i].1), section_lines(kind, section)),
    decreases section.len(),
{
    let lines = entity_lines(kind, section[i].0, section[i].1);
    let rest = section_lines(kind, section.drop_last());
    let last = entity_lines(kind, section.last().0, section.last().1);
    if i == section.len() - 1 {
        assert(section_lines(kind, section) =~= rest + lines + seq![]);
    } else {
        lemma_entity_occurs(kind, section.drop_last(), i);
        lemma_occurs_deeper(lines, rest, seq![], last);
        assert(seq![] + rest + last =~= section_lines(kind, section));
    }
}

/// Every property of a section has its line, below the header of its label or
/// relationship type.
pub proof fn law_every_property_is_shown(kind: EntityKind, section: SectionView, i: int, j: int)
    requires
        0 <= i < section.len(),
        0 <= j < section[i].1.len(),
    ensures
        occurs(entity_lines(kind, section[i].0, section[i].1), section_lines(kind, section)),
        occurs(prop_line(section[i].1[j]), entity_lines(kind, section[i].0, section[i].1)),
{
    let (entity, props) = section[i];
    lemma_entity_occurs(kind, section, i);
    lemma_prop_occurs(props, j);
    let header = header_line(kind, entity);
    lemma_occurs_deeper(prop_line(props[j]), prop_lines(props), header, seq![]);
    assert(header + prop_lines(props) + seq![] =~= entity_lines(kind, entity, props));
}

/// Every edge pattern has its line.
pub proof fn law_every_pattern_is_shown(patterns: Seq<PatternView>, i: int)
    requires
        0 <= i < patterns.len(),
    ensures
        occurs(pattern_line(patterns[i]), pattern_lines(patterns)),
    decreases patterns.len(),
{
    let line = pattern_line(patterns[i]);
    let rest = pattern_lines(patterns.drop_last());
    if i == patterns.len() - 1 {
        assert(pattern_lines(patterns) =~= rest + line + seq![]);
    } else {
        law_every_pattern_is_shown(patterns.drop_last(), i);
        lemma_occurs_deeper(line, rest, seq![], pattern_line(patterns.last()));
        assert(seq![] + rest + pattern_line(patterns.last()) =~= pattern_lines(patterns));
    }
}

proof fn lemma_occurs_within(part: Seq<char>, middle: Seq<char>, whole: Seq<char>)
    requires
        occurs(part, middle),
        occurs(middle, whole),
    ensures
        occurs(part, whole),
{
    let (above, below) = choose|above: Seq<char>, below: Seq<char>|
        whole == #[trigger] (above + middle + below);
    lemma_occurs_deeper(part, middle, above, below);
}

/// Every property that is reported, whatever its types, has its line in the text of
/// the section, with all that the reports say of it.
pub proof fn law_reported_properties_are_shown(
    reports: Seq<Report>,
    table: PropTableView,
    annotations: Seq<AnnotationView>,
    kind: EntityKind,
    section: SectionView,
    entity: Seq<char>,
    name: Seq<char>,
)
    requires
        tabulates(table, reports),
        annotations.len() == all_tasks(table).len(),
        gathers(section, paired(all_tasks(table), annotations)),
        reported(reports, entity, name).len() > 0,
    ensures
        exists|annotation: AnnotationView|
            occurs(
                #[trigger] prop_line(
                    resolved(
                        task_of(entity, name, summed_up(reports, entity, name)->0),
                        annotation,
                    ),
                ),
                section_lines(kind, section),
            ),
{
    let task = task_of(entity, name, summed_up(reports, entity, name)->0);
    assert(cell(table, entity, name) == summed_up(reports, entity, name));
    let props = lookup(table, entity)->0;
    law_every_property_gets_a_task(entity, props, task);
    let tasks = entity_tasks(entity, props);
    let k = choose|k: int| 0 <= k < tasks.len() && tasks[k] == task;
    law_section_lists_the_tasks(table, annotations, section, entity);
    let i = choose|i: int| keyed(section, entity, i);
    assert(keyed(section, entity, i));
    lemma_lookup_entry(section, i);
    let entry = section[i].1[k];
    assert(entry == resolved(task, entry.annotation));
    law_every_property_is_shown(kind, section, i, k);
    lemma_occurs_within(
        prop_line(entry),
        entity_lines(kind, section[i].0, section[i].1),
        section_lines(kind, section),
    );
}

/// A section has entries for reported properties only, and they say what the
/// reports say together.
pub proof fn law_shown_properties_are_reported(
    reports: Seq<Report>,
    table: PropTableView,
    annotations: Seq<AnnotationView>,
    section: SectionView,
    i: int,
    j: int,
)
    requires
        tabulates(table, reports),
        annotations.len() == all_tasks(table).len(),
        gathers(section, paired(all_tasks(table), annotations)),
        0 <= i < section.len(),
        0 <= j < section[i].1.len(),
    ensures
        ({
            let entity = section[i].0;
            let entry = section[i].1[j];
            &&& reported(reports, entity, entry.name).len() > 0
            &&& entry == resolved(
                task_of(entity, entry.name, summed_up(reports, entity, entry.name)->0),
                entry.annotation,
            )
        }),
{
    let entity = section[i].0;
    let entry = section[i].1[j];
    lemma_lookup_entry(section, i);
    law_section_lists_the_tasks(table, annotations, section, entity);
    let props = lookup(table, entity)->0;
    let task = entity_tasks(entity, props)[j];
    assert(entry == resolved(task, entry.annotation));
    assert(entity_tasks(entity, props).contains(task));
    law_every_property_gets_a_task(entity, props, task);
    assert(cell(table, entity, entry.name) == summed_up(reports, entity, entry.name));
}

/// The line of a property has its name in backticks, its types, the mark exactly if
/// the property is required, and then what is known of its values, if anything is.
pub proof fn law_lines_show_the_property(prop: ResolvedView)
    ensures
        ({
            let head = "  - `"@ + prop.name + "`: "@ + prop.type_str;
            let marked = head + " REQUIRED"@;
            match prop.annotation {
                AnnotationView::Nothing => {
                    &&& !prop.required ==> prop_line(prop) == head + "\n"@
                    &&& prop.required ==> prop_line(prop) == marked + "\n"@
                },
                AnnotationView::Example(value) => {
                    &&& !prop.required ==> prop_line(prop) == head + " Example: "@ + value + "\n"@
                    &&& prop.required ==> prop_line(prop) == marked + " Example: "@ + value + "\n"@
                },
                AnnotationView::MinMax(low, high) => {
                    &&& !prop.required ==> prop_line(prop) == head + " Min: "@ + low + ", Max: "@
                        + high + "\n"@
                    &&& prop.required ==> prop_line(prop) == marked + " Min: "@ + low + ", Max: "@
                        + high + "\n"@
                },
            }
        }),
{
    let head = "  - `"@ + prop.name + "`: "@ + prop.type_str;
    let marked = head + " REQUIRED"@;
    let start = if prop.required { marked } else { head };
    match prop.annotation {
        AnnotationView::Nothing => {
            assert(prop_line(prop) =~= start + "\n"@);
        },
        AnnotationView::Example(value) => {
            assert(prop_line(prop) =~= start + " Example: "@ + value + "\n"@);
        },
        AnnotationView::MinMax(low, high) => {
            assert(prop_line(prop) =~= start + " Min: "@ + low + ", Max: "@ + high + "\n"@);
        },
    }
}

/// The mark is all that makes the line of a required property longer than that of
/// the same property when it is not required.
pub proof fn law_only_the_mark_tells_required(a: ResolvedView, b: ResolvedView)
    requires
        a.required,
        !b.required,
        a.name == b.name,
        a.type_str == b.type_str,
        a.annotation == b.annotation,
    ensures
        ({
            let at = 5 + a.name.len() + 3 + a.type_str.len();
            &&& prop_line(a).len() == prop_line(b).len() + " REQUIRED"@.len()
            &&& prop_line(b).len() > at
            &&& prop_line(a) == prop_line(b).take(at as int) + " REQUIRED"@ + prop_line(b).skip(
                at as int,
            )
        }),
{
    reveal_strlit("  - `");
    reveal_strlit("`: ");
    reveal_strlit("\n");
    let at = 5 + a.name.len() + 3 + a.type_str.len();
    let head = "  - `"@ + a.name + "`: "@ + a.type_str;
    let tail = suffix(a.annotation) + "\n"@;
    assert(prop_line(b) =~= head + tail);
    assert(prop_line(a) =~= head + " REQUIRED"@ + tail);
    assert(head.len() == at);
    assert(prop_line(b).take(at as int) =~= head);
    assert(prop_line(b).skip(at as int) =~= tail);
}

/// What follows the types says what is known of the values: their example, their
/// bounds in their order, or nothing at all.
pub proof fn law_suffixes_show_the_annotation(annotation: Annotation, text: String)
    requires
        call_ensures(MarkdownRenderer::annotation_suffix, (&annotation,), text),
    ensures
        match annotation {
            Annotation::Example(value) => text@ == " Example: "@ + value@,
            Annotation::MinMax(low, high) => text@ == " Min: "@ + low@ + ", Max: "@ + high@,
            Annotation::Nothing => text@.len() == 0,
        },
{
}

proof fn lemma_prop_lines(props: Seq<ResolvedView>)
    ensures
        prop_lines(props) == Seq::new(props.len(), |j: int| prop_line(props[j])).flatten(),
    decreases props.len(),
{
    let all = Seq::new(props.len(), |j: int| prop_line(props[j]));
    all.lemma_flatten_and_flatten_alt_are_equivalent();
    if props.len() > 0 {
        let rest = props.drop_last();
        let earlier = Seq::new(rest.len(), |j: int| prop_line(rest[j]));
        lemma_prop_lines(rest);
        earlier.lemma_flatten_and_flatten_alt_are_equivalent();
        assert(all.drop_last() =~= earlier);
    }
}

proof fn lemma_section_lines(kind: EntityKind, section: SectionView)
    ensures
        section_lines(kind, section) == Seq::new(
            section.len(),
            |i: int| entity_lines(kind, section[i].0, section[i].1),
        ).flatten(),
    decreases section.len(),
{
    let all = Seq::new(section.len(), |i: int| entity_lines(kind, section[i].0, section[i].1));
    all.lemma_flatten_and_flatten_alt_are_equivalent();
    if section.len() > 0 {
        let rest = section.drop_last();
        let earlier = Seq::new(rest.len(), |i: int| entity_lines(kind, rest[i].0, rest[i].1));
        lemma_section_lines(kind, rest);
        earlier.lemma_flatten_and_flatten_alt_are_equivalent();
        assert(all.drop_last() =~= earlier);
    }
}

proof fn lemma_pattern_lines(patterns: Seq<PatternView>)
    ensures
        pattern_lines(patterns) == Seq::new(
            patterns.len(),
            |i: int| pattern_line(patterns[i]),
        ).flatten(),
    decreases patterns.len(),
{
    let all = Seq::new(patterns.len(), |i: int| pattern_line(patterns[i]));
    all.lemma_flatten_and_flatten_alt_are_equivalent();
    if patterns.len() > 0 {
        let rest = patterns.drop_last();
        let earlier = Seq::new(rest.len(), |i: int| pattern_line(rest[i]));
        lemma_pattern_lines(rest);
        earlier.lemma_flatten_and_flatten_alt_are_equivalent();
        assert(all.drop_last() =~= earlier);
    }
}

/// The text has the three headings, with an empty line before the second and the
/// third. Below the first two stand the labels and the relationship types, these
/// without one colon in front, each followed by the lines of its properties; below
/// the third one line per edge pattern. All go in the order in which they are
/// given, and there is nothing else.
pub proof fn law_the_text_is_its_lines(
    renderer: MarkdownRenderer,
    nodes: Section,
    rels: Section,
    patterns: PatternSet,
    text: String,
)
    requires
        call_ensures(
            <MarkdownRenderer as SchemaRenderer>::render,
            (&renderer, &nodes, &rels, &patterns),
            text,
        ),
    ensures
        text@ == "Node properties:\n"@ + Seq::new(
            nodes@.len(),
            |i: int|
                "- **"@ + nodes@[i].0 + "**\n"@ + Seq::new(
                    nodes@[i].1.len(),
                    |j: int| prop_line(nodes@[i].1[j]),
                ).flatten(),
        ).flatten() + "\nRelationship properties:\n"@ + Seq::new(
            rels@.len(),
            |i: int|
                "- **"@ + (if rels@[i].0.len() > 0 && rels@[i].0[0] == ':' {
                    rels@[i].0.skip(1)
                } else {
                    rels@[i].0
                }) + "**\n"@ + Seq::new(
                    rels@[i].1.len(),
                    |j: int| prop_line(rels@[i].1[j]),
                ).flatten(),
        ).flatten() + "\nThe relationships:\n"@ + Seq::new(
            patterns@.len(),
            |i: int|
                "(:"@ + patterns@[i].0 + ")-([:"@ + patterns@[i].1 + "])-> (:"@ + patterns@[i].2
                    + ")\n"@,
        ).flatten(),
{
    assert(text@ == markdown(nodes@, rels@, patterns@));
    lemma_section_lines(EntityKind::Node, nodes@);
    lemma_section_lines(EntityKind::Relationship, rels@);
    lemma_pattern_lines(patterns@);
    let node_parts = Seq::new(
        nodes@.len(),
        |i: int|
            "- **"@ + nodes@[i].0 + "**\n"@ + Seq::new(
                nodes@[i].1.len(),
                |j: int| prop_line(nodes@[i].1[j]),
            ).flatten(),
    );
    let rel_parts = Seq::new(
        rels@.len(),
        |i: int|
            "- **"@ + (if rels@[i].0.len() > 0 && rels@[i].0[0] == ':' {
                rels@[i].0.skip(1)
            } else {
                rels@[i].0
            }) + "**\n"@ + Seq::new(
                rels@[i].1.len(),
                |j: int| prop_line(rels@[i].1[j]),
            ).flatten(),
    );
    let pattern_parts = Seq::new(
        patterns@.len(),
        |i: int|
            "(:"@ + patterns@[i].0 + ")-([:"@ + patterns@[i].1 + "])-> (:"@ + patterns@[i].2
                + ")\n"@,
    );
    assert(node_parts =~= Seq::new(
        nodes@.len(),
        |i: int| entity_lines(EntityKind::Node, nodes@[i].0, nodes@[i].1),
    )) by {
        assert forall|i: int| 0 <= i < nodes@.len() implies #[trigger] node_parts[i]
            == entity_lines(EntityKind::Node, nodes@[i].0, nodes@[i].1) by {
            lemma_prop_lines(nodes@[i].1);
        }
    }
    assert(rel_parts =~= Seq::new(
        rels@.len(),
        |i: int| entity_lines(EntityKind::Relationship, rels@[i].0, rels@[i].1),
    )) by {
        assert forall|i: int| 0 <= i < rels@.len() implies #[trigger] rel_parts[i]
            == entity_lines(EntityKind::Relationship, rels@[i].0, rels@[i].1) by {
            lemma_prop_lines(rels@[i].1);
        }
    }
    assert(pattern_parts =~= Seq::new(patterns@.len(), |i: int| pattern_line(patterns@[i])));
}

} // verus!
