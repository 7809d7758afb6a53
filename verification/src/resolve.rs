//! From property tables to the sections of the schema: which annotations to ask
//! for, and where the answers go.

use vstd::prelude::*;
use vstd::utf8::{is_ascii_chars_encode_utf8, is_ascii_chars};

use crate::annotation::{
    annotate, annotation_step, match_clause, matching, Annotation, AnnotationStep,
    AnnotationStepView, AnnotationView, EntityKind,
};
use crate::data_type::{reported_type, DataType, UnknownType};
use crate::order::{before, law_before_is_irreflexive};
use crate::ordered_map::{
    keyed, law_contents_determine_entries, law_lookup_finds_the_entry, lemma_lookup_drop_last,
    lemma_lookup_entry, lookup, ordered, OrderedMap,
};
use crate::props::{tidy, PropInfo, PropInfoView, PropTable, PropTableView};
use crate::text::joined;
use crate::type_set::{first_type, join_types};

verus! {

/// A property of the schema, and the type that decides how its annotation is
/// found.
#[derive(Debug)]
pub struct TaskMeta {
    /// The label or relationship type.
    pub entity: String,
    /// The property name.
    pub name: String,
    /// All types of the property.
    pub type_str: String,
    /// Whether the property is present on all instances.
    pub required: bool,
    /// The first type of the property, if there is one and it is known.
    pub primary: Option<DataType>,
}

/// What a [`TaskMeta`] says.
#[verifier::ext_equal]
pub struct TaskView {
    pub entity: Seq<char>,
    pub name: Seq<char>,
    pub type_str: Seq<char>,
    pub required: bool,
    pub primary: Option<DataType>,
}

impl DeepView for TaskMeta {
    type V = TaskView;

    open spec fn deep_view(&self) -> TaskView {
        TaskView {
            entity: self.entity@,
            name: self.name@,
            type_str: self.type_str@,
            required: self.required,
            primary: self.primary,
        }
    }
}

/// A property entry that is ready to be rendered.
#[derive(Debug)]
pub struct ResolvedProp {
    /// The property name.
    pub name: String,
    /// All types of the property, joined with ` | `.
    pub type_str: String,
    /// Whether the property is present on all instances.
    pub required: bool,
    /// What live data says of the property.
    pub annotation: Annotation,
}

/// What a [`ResolvedProp`] says.
#[verifier::ext_equal]
pub struct ResolvedView {
    pub name: Seq<char>,
    pub type_str: Seq<char>,
    pub required: bool,
    pub annotation: AnnotationView,
}

impl DeepView for ResolvedProp {
    type V = ResolvedView;

    open spec fn deep_view(&self) -> ResolvedView {
        ResolvedView {
            name: self.name@,
            type_str: self.type_str@,
            required: self.required,
            annotation: self.annotation.deep_view(),
        }
    }
}

impl Clone for ResolvedProp {
    fn clone(&self) -> (copy: ResolvedProp)
        ensures
            copy.deep_view() == self.deep_view(),
    {
        ResolvedProp {
            name: self.name.clone(),
            type_str: self.type_str.clone(),
            required: self.required,
            annotation: self.annotation.clone(),
        }
    }
}

/// The resolved properties of every label or relationship type.
pub type Section = OrderedMap<Vec<ResolvedProp>>;

/// The entries of a [`Section`].
pub type SectionView = Seq<(Seq<char>, Seq<ResolvedView>)>;

/// The first of the types, if there is one and it is known.
pub open spec fn primary_type(types: Seq<Seq<char>>) -> Option<DataType> {
    if types.len() == 0 {
        None
    } else {
        reported_type(types[0])
    }
}

/// The task of a property.
pub open spec fn task_of(entity: Seq<char>, name: Seq<char>, info: PropInfoView) -> TaskView {
    TaskView {
        entity,
        name,
        type_str: joined(info.types, " | "@),
        required: info.required,
        primary: primary_type(info.types),
    }
}

/// The tasks of the properties of one label or relationship type.
pub open spec fn entity_tasks(
    entity: Seq<char>,
    props: Seq<(Seq<char>, PropInfoView)>,
) -> Seq<TaskView> {
    Seq::new(props.len(), |i: int| task_of(entity, props[i].0, props[i].1))
}

/// The tasks of all properties of a table.
pub open spec fn all_tasks(table: PropTableView) -> Seq<TaskView>
    decreases table.len(),
{
    if table.len() == 0 {
        seq![]
    } else {
        all_tasks(table.drop_last()) + entity_tasks(table.last().0, table.last().1)
    }
}

/// Builds the task of a property.
fn plan_property(entity: &String, name: &String, info: &PropInfo) -> (task: TaskMeta)
    ensures
        task.deep_view() == task_of(entity@, name@, info.deep_view()),
{
    proof {
        reveal_strlit(" | ");
        assert(is_ascii_chars(" | "@));
        is_ascii_chars_encode_utf8(" | "@);
    }
    let primary = match first_type(&info.types) {
        None => None,
        Some(first) => match DataType::from_str(first.as_str()) {
            Err(_) => None,
            Ok(primary) => Some(primary),
        },
    };
    TaskMeta {
        entity: entity.clone(),
        name: name.clone(),
        type_str: join_types(&info.types, " | "),
        required: info.required,
        primary,
    }
}

/// How the annotation of a task is found. A property without a known type gets
/// none.
pub open spec fn task_step(kind: EntityKind, task: TaskView) -> AnnotationStepView {
    match task.primary {
        Some(primary) => annotation_step(matching(kind, task.entity), task.name, primary),
        None => AnnotationStepView::Settled(AnnotationView::Nothing),
    }
}

impl TaskMeta {
    /// Decides how the annotation of the property is found.
    pub fn first_step(&self, kind: EntityKind) -> (step: AnnotationStep)
        ensures
            step.deep_view() == task_step(kind, self.deep_view()),
    {
        match self.primary {
            Some(primary) => {
                let clause = match_clause(kind, self.entity.as_str());
                annotate(clause.as_str(), self.name.as_str(), primary)
            },
            None => AnnotationStep::Settled(Annotation::Nothing),
        }
    }
}

/// Lists the tasks of all properties of a table.
pub fn plan_annotations(entity_props: &PropTable) -> (tasks: Vec<TaskMeta>)
    ensures
        tasks.deep_view() == all_tasks(entity_props@),
{
    let ghost table = entity_props@;
    let mut tasks: Vec<TaskMeta> = Vec::new();
    let mut i: usize = 0;
    assert(table.take(0) =~= seq![]);
    assert(tasks.deep_view() =~= seq![]);
    while i < entity_props.len()
        invariant
            table == entity_props@,
            i <= table.len(),
            tasks.deep_view() == all_tasks(table.take(i as int)),
        decreases table.len() - i,
    {
        let entity = entity_props.key(i);
        let props = entity_props.value(i);
        let ghost list = props@;
        let ghost planned = tasks.deep_view();
        let mut j: usize = 0;
        assert(list.take(0) =~= seq![]);
        assert(planned + seq![] =~= planned);
        while j < props.len()
            invariant
                list == props@,
                j <= list.len(),
                tasks.deep_view() == planned + entity_tasks(entity@, list.take(j as int)),
            decreases list.len() - j,
        {
            let ghost so_far = tasks.deep_view();
            let task = plan_property(entity, props.key(j), props.value(j));
            tasks.push(task);
            assert(tasks.deep_view() =~= so_far.push(task.deep_view()));
            assert(tasks.deep_view() =~= planned + entity_tasks(entity@, list.take(j + 1)));
            j += 1;
        }
        assert(list.take(j as int) =~= list);
        assert(table.take(i + 1).drop_last() =~= table.take(i as int));
        assert(table.take(i + 1).last() == table[i as int]);
        i += 1;
    }
    assert(table.take(i as int) =~= table);
    tasks
}

/// The tasks with their annotations, as far as both go.
pub open spec fn paired(tasks: Seq<TaskView>, annotations: Seq<AnnotationView>) -> Seq<
    (TaskView, AnnotationView),
> {
    Seq::new(
        if tasks.len() <= annotations.len() {
            tasks.len()
        } else {
            annotations.len()
        },
        |i: int| (tasks[i], annotations[i]),
    )
}

/// The entry of an annotated task.
pub open spec fn resolved(task: TaskView, annotation: AnnotationView) -> ResolvedView {
    ResolvedView {
        name: task.name,
        type_str: task.type_str,
        required: task.required,
        annotation,
    }
}

/// The entries of one label or relationship type, in the order of the tasks.
pub open spec fn entries_of(
    annotated: Seq<(TaskView, AnnotationView)>,
    entity: Seq<char>,
) -> Seq<ResolvedView>
    decreases annotated.len(),
{
    if annotated.len() == 0 {
        seq![]
    } else {
        let earlier = entries_of(annotated.drop_last(), entity);
        let (task, annotation) = annotated.last();
        if task.entity == entity {
            earlier.push(resolved(task, annotation))
        } else {
            earlier
        }
    }
}

/// Whether the section groups the annotated tasks by label or relationship type
/// and holds nothing else.
pub open spec fn gathers(
    section: SectionView,
    annotated: Seq<(TaskView, AnnotationView)>,
) -> bool {
    &&& ordered(section)
    &&& forall|entity: Seq<char>| #[trigger]
        lookup(section, entity) == if entries_of(annotated, entity).len() == 0 {
            None
        } else {
            Some(entries_of(annotated, entity))
        }
}

/// Puts the annotations, in the order of the tasks, with the properties that they
/// belong to.
pub fn resolve_annotations(tasks: &Vec<TaskMeta>, annotations: &Vec<Annotation>) -> (section:
    Section)
    ensures
        gathers(section@, paired(tasks.deep_view(), annotations.deep_view())),
{
    let ghost all = paired(tasks.deep_view(), annotations.deep_view());
    let mut section: Section = OrderedMap::new();
    let mut i: usize = 0;
    assert(all.take(0) =~= seq![]);
    while i < tasks.len() && i < annotations.len()
        invariant
            all == paired(tasks.deep_view(), annotations.deep_view()),
            i <= tasks.len(),
            i <= annotations.len(),
            gathers(section@, all.take(i as int)),
        decreases tasks.len() - i,
    {
        let task = &tasks[i];
        let ghost known = section@;
        let mut list: Vec<ResolvedProp> = match section.remove(task.entity.as_str()) {
            Some(list) => list,
            None => Vec::new(),
        };
        let ghost earlier = entries_of(all.take(i as int), task.entity@);
        assert(lookup(known, task.entity@) == if earlier.len() == 0 {
            None
        } else {
            Some(earlier)
        });
        assert(list.deep_view() =~= earlier);
        let prop = ResolvedProp {
            name: task.name.clone(),
            type_str: task.type_str.clone(),
            required: task.required,
            annotation: annotations[i].clone(),
        };
        list.push(prop);
        proof {
            let next = all.take(i + 1);
            assert(next.drop_last() =~= all.take(i as int));
            assert(next.last() == (task.deep_view(), annotations@[i as int].deep_view()));
            assert(list.deep_view() =~= earlier.push(prop.deep_view()));
            assert(list.deep_view() == entries_of(next, task.entity@));
        }
        section.insert(task.entity.clone(), list);
        proof {
            let next = all.take(i + 1);
            assert forall|entity: Seq<char>| #[trigger] lookup(section@, entity) == if entries_of(
                next,
                entity,
            ).len() == 0 {
                None
            } else {
                Some(entries_of(next, entity))
            } by {}
        }
        i += 1;
    }
    assert(all.take(i as int) =~= all);
    section
}

/// Puts the properties into a section without asking for annotations.
pub fn resolve_without_examples(entity_props: &PropTable) -> (section: Section)
    ensures
        gathers(
            section@,
            paired(
                all_tasks(entity_props@),
                Seq::new(all_tasks(entity_props@).len(), |i: int| AnnotationView::Nothing),
            ),
        ),
{
    let tasks = plan_annotations(entity_props);
    let mut annotations: Vec<Annotation> = Vec::new();
    let mut i: usize = 0;
    while i < tasks.len()
        invariant
            i <= tasks.len(),
            annotations.deep_view() == Seq::new(i as nat, |j: int| AnnotationView::Nothing),
        decreases tasks.len() - i,
    {
        let ghost earlier = annotations.deep_view();
        annotations.push(Annotation::Nothing);
        assert(annotations.deep_view() =~= earlier.push(AnnotationView::Nothing));
        i += 1;
        assert(annotations.deep_view() =~= Seq::new(i as nat, |j: int| AnnotationView::Nothing));
    }
    resolve_annotations(&tasks, &annotations)
}

/// The tasks of one label or relationship type, in their order.
pub open spec fn only_entity(tasks: Seq<TaskView>, entity: Seq<char>) -> Seq<TaskView>
    decreases tasks.len(),
{
    if tasks.len() == 0 {
        seq![]
    } else {
        let earlier = only_entity(tasks.drop_last(), entity);
        if tasks.last().entity == entity {
            earlier.push(tasks.last())
        } else {
            earlier
        }
    }
}

/// Whether the entries are those of the tasks, whatever their annotations.
pub open spec fn describe(entries: Seq<ResolvedView>, tasks: Seq<TaskView>) -> bool {
    &&& entries.len() == tasks.len()
    &&& forall|i: int|
        #![trigger entries[i]]
        0 <= i < entries.len() ==> entries[i] == resolved(tasks[i], entries[i].annotation)
}

proof fn lemma_entries_describe(
    tasks: Seq<TaskView>,
    annotations: Seq<AnnotationView>,
    entity: Seq<char>,
)
    requires
        tasks.len() == annotations.len(),
    ensures
        describe(entries_of(paired(tasks, annotations), entity), only_entity(tasks, entity)),
    decreases tasks.len(),
{
    if tasks.len() > 0 {
        let annotated = paired(tasks, annotations);
        assert(annotated.drop_last() =~= paired(tasks.drop_last(), annotations.drop_last()));
        lemma_entries_describe(tasks.drop_last(), annotations.drop_last(), entity);
    }
}

proof fn lemma_only_entity_add(a: Seq<TaskView>, b: Seq<TaskView>, entity: Seq<char>)
    ensures
        only_entity(a + b, entity) == only_entity(a, entity) + only_entity(b, entity),
    decreases b.len(),
{
    if b.len() == 0 {
        assert(a + b =~= a);
        assert(only_entity(a, entity) + only_entity(b, entity) =~= only_entity(a, entity));
    } else {
        assert((a + b).drop_last() =~= a + b.drop_last());
        lemma_only_entity_add(a, b.drop_last(), entity);
        assert(only_entity(a + b, entity) =~= only_entity(a, entity) + only_entity(b, entity));
    }
}

proof fn lemma_only_entity_of_own(
    owner: Seq<char>,
    props: Seq<(Seq<char>, PropInfoView)>,
    entity: Seq<char>,
)
    ensures
        only_entity(entity_tasks(owner, props), entity) == if owner == entity {
            entity_tasks(owner, props)
        } else {
            seq![]
        },
    decreases props.len(),
{
    if props.len() > 0 {
        lemma_only_entity_of_own(owner, props.drop_last(), entity);
        let earlier = entity_tasks(owner, props.drop_last());
        assert(entity_tasks(owner, props).drop_last() =~= earlier);
        assert(earlier.push(entity_tasks(owner, props).last()) =~= entity_tasks(owner, props));
    }
}

proof fn lemma_tasks_of_entity(table: PropTableView, entity: Seq<char>)
    requires
        ordered(table),
    ensures
        only_entity(all_tasks(table), entity) == match lookup(table, entity) {
            Some(props) => entity_tasks(entity, props),
            None => seq![],
        },
    decreases table.len(),
{
    if table.len() > 0 {
        let rest = table.drop_last();
        let (owner, props) = table.last();
        lemma_lookup_drop_last(table, entity);
        lemma_tasks_of_entity(rest, entity);
        lemma_only_entity_add(all_tasks(rest), entity_tasks(owner, props), entity);
        lemma_only_entity_of_own(owner, props, entity);
        if owner == entity {
            lemma_lookup_entry(table, table.len() - 1);
            assert(seq![] + entity_tasks(owner, props) =~= entity_tasks(owner, props));
        } else {
            let kept = only_entity(all_tasks(rest), entity);
            assert(kept + seq![] =~= kept);
        }
    }
}

/// A section that gathers the annotated tasks of a table has the labels or
/// relationship types of the table and lists, under each, the tasks of all its
/// properties, in the order of the table.
pub proof fn law_section_lists_the_tasks(
    table: PropTableView,
    annotations: Seq<AnnotationView>,
    section: SectionView,
    entity: Seq<char>,
)
    requires
        tidy(table),
        annotations.len() == all_tasks(table).len(),
        gathers(section, paired(all_tasks(table), annotations)),
    ensures
        match lookup(section, entity) {
            Some(entries) => lookup(table, entity) is Some && describe(
                entries,
                entity_tasks(entity, lookup(table, entity)->0),
            ),
            None => lookup(table, entity) is None,
        },
{
    lemma_tasks_of_entity(table, entity);
    lemma_entries_describe(all_tasks(table), annotations, entity);
    let annotated = paired(all_tasks(table), annotations);
    assert(lookup(section, entity) == if entries_of(annotated, entity).len() == 0 {
        None
    } else {
        Some(entries_of(annotated, entity))
    });
}

/// The tasks of a label or relationship type are those of its properties, one of
/// each, whatever their types.
pub proof fn law_every_property_gets_a_task(
    entity: Seq<char>,
    props: Seq<(Seq<char>, PropInfoView)>,
    task: TaskView,
)
    requires
        ordered(props),
    ensures
        entity_tasks(entity, props).len() == props.len(),
        entity_tasks(entity, props).contains(task) <==> lookup(props, task.name) is Some && task_of(
            entity,
            task.name,
            lookup(props, task.name)->0,
        ) == task,
{
    let tasks = entity_tasks(entity, props);
    if tasks.contains(task) {
        let k = choose|k: int| 0 <= k < tasks.len() && tasks[k] == task;
        lemma_lookup_entry(props, k);
    }
    if lookup(props, task.name) is Some {
        let k = choose|k: int| keyed(props, task.name, k);
        assert(keyed(props, task.name, k));
        lemma_lookup_entry(props, k);
        assert(tasks[k] == task_of(entity, task.name, lookup(props, task.name)->0));
    }
}

/// The tasks of a label or relationship type go by the property names.
pub proof fn law_tasks_go_by_name(
    entity: Seq<char>,
    props: Seq<(Seq<char>, PropInfoView)>,
    i: int,
    j: int,
)
    requires
        ordered(props),
        0 <= i < j < entity_tasks(entity, props).len(),
    ensures
        before(entity_tasks(entity, props)[i].name, entity_tasks(entity, props)[j].name),
{
    assert(before(props[i].0, props[j].0));
}

/// Nothing is asked of a property without a known type, and it gets no annotation.
pub proof fn law_unknown_types_get_no_annotation(
    kind: EntityKind,
    entity: Seq<char>,
    name: Seq<char>,
    info: PropInfoView,
)
    requires
        primary_type(info.types) is None,
    ensures
        task_step(kind, task_of(entity, name, info)) == AnnotationStepView::Settled(
            AnnotationView::Nothing,
        ),
{
}

/// Without examples every entry of the section is without annotation.
pub proof fn law_no_examples_no_annotations(
    tasks: Seq<TaskView>,
    section: SectionView,
    entity: Seq<char>,
    i: int,
)
    requires
        gathers(
            section,
            paired(tasks, Seq::new(tasks.len(), |i: int| AnnotationView::Nothing)),
        ),
        lookup(section, entity) is Some,
        0 <= i < lookup(section, entity)->0.len(),
    ensures
        lookup(section, entity)->0[i].annotation == AnnotationView::Nothing,
{
    let annotated = paired(tasks, Seq::new(tasks.len(), |i: int| AnnotationView::Nothing));
    lemma_all_nothing(annotated, entity);
}

proof fn lemma_all_nothing(annotated: Seq<(TaskView, AnnotationView)>, entity: Seq<char>)
    requires
        forall|i: int|
            0 <= i < annotated.len() ==> (#[trigger] annotated[i]).1 == AnnotationView::Nothing,
    ensures
        forall|i: int|
            0 <= i < entries_of(annotated, entity).len() ==> (#[trigger] entries_of(
                annotated,
                entity,
            )[i]).annotation == AnnotationView::Nothing,
    decreases annotated.len(),
{
    if annotated.len() > 0 {
        assert(annotated.last() == annotated[annotated.len() - 1]);
        assert forall|i: int| 0 <= i < annotated.drop_last().len() implies (
        #[trigger] annotated.drop_last()[i]).1 == AnnotationView::Nothing by {
            assert(annotated.drop_last()[i] == annotated[i]);
        }
        lemma_all_nothing(annotated.drop_last(), entity);
    }
}

/// How many properties the first entries of a table have.
pub open spec fn props_within(table: PropTableView, entries: int) -> int
    decreases entries,
{
    if entries <= 0 {
        0
    } else {
        props_within(table, entries - 1) + table[entries - 1].1.len()
    }
}

proof fn lemma_props_within(table: PropTableView, entries: int)
    requires
        table.len() > 0,
        entries < table.len(),
    ensures
        props_within(table.drop_last(), entries) == props_within(table, entries),
        props_within(table, entries) >= 0,
    decreases entries,
{
    if entries > 0 {
        lemma_props_within(table, entries - 1);
    }
}

proof fn lemma_number_of_tasks(table: PropTableView)
    ensures
        all_tasks(table).len() == props_within(table, table.len() as int),
    decreases table.len(),
{
    if table.len() > 0 {
        lemma_number_of_tasks(table.drop_last());
        lemma_props_within(table, table.len() - 1);
    }
}

proof fn lemma_place_of_task(table: PropTableView, i: int, j: int)
    requires
        0 <= i < table.len(),
        0 <= j < table[i].1.len(),
    ensures
        0 <= props_within(table, i) + j < all_tasks(table).len(),
        all_tasks(table)[props_within(table, i) + j] == task_of(
            table[i].0,
            table[i].1[j].0,
            table[i].1[j].1,
        ),
    decreases table.len(),
{
    let rest = table.drop_last();
    lemma_number_of_tasks(rest);
    lemma_props_within(table, i);
    lemma_props_within(table, table.len() - 1);
    if i < rest.len() {
        lemma_place_of_task(rest, i, j);
    }
}

/// The tasks of a table are those of its properties, one of each, in the order of
/// the table: with the names, all the types joined, whether it is required, and the
/// type that the first one is read as.
pub proof fn law_tasks_follow_the_table(table: PropTable, tasks: Vec<TaskMeta>, i: int, j: int)
    requires
        call_ensures(plan_annotations, (&table,), tasks),
        0 <= i < table@.len(),
        0 <= j < table@[i].1.len(),
    ensures
        tasks@.len() == props_within(table@, table@.len() as int),
        0 <= props_within(table@, i) + j < tasks@.len(),
        ({
            let task = tasks@[props_within(table@, i) + j];
            let (name, info) = table@[i].1[j];
            &&& task.entity@ == table@[i].0
            &&& task.name@ == name
            &&& task.required == info.required
            &&& task.type_str@ == joined(info.types, " | "@)
            &&& info.types.len() == 0 ==> task.primary is None
            &&& forall|first: &str, read: Result<DataType, UnknownType>|
                info.types.len() > 0 && first@ == info.types[0] && #[trigger] call_ensures(
                    DataType::from_str,
                    (first,),
                    read,
                ) ==> (match read {
                    Ok(data_type) => task.primary == Some(data_type),
                    Err(_) => task.primary is None,
                })
        }),
{
    lemma_number_of_tasks(table@);
    lemma_place_of_task(table@, i, j);
    let k = props_within(table@, i) + j;
    assert(tasks.deep_view()[k] == tasks@[k].deep_view());
}

/// The places of the tasks of one label or relationship type among the first
/// tasks.
pub open spec fn places_of(tasks: Seq<TaskMeta>, number: nat, entity: Seq<char>) -> Seq<int> {
    Seq::new(number, |k: int| k).filter(|k: int| tasks[k].entity@ == entity)
}

proof fn lemma_entries_by_place(
    tasks: Seq<TaskMeta>,
    annotations: Seq<Annotation>,
    annotated: Seq<(TaskView, AnnotationView)>,
    entity: Seq<char>,
)
    requires
        annotated.len() <= tasks.len(),
        annotated.len() <= annotations.len(),
        forall|k: int|
            0 <= k < annotated.len() ==> #[trigger] annotated[k] == (
                tasks[k].deep_view(),
                annotations[k].deep_view(),
            ),
    ensures
        ({
            let places = places_of(tasks, annotated.len(), entity);
            let entries = entries_of(annotated, entity);
            &&& entries.len() == places.len()
            &&& forall|m: int|
                0 <= m < places.len() ==> 0 <= #[trigger] places[m] < annotated.len() && entries[m]
                    == resolved(tasks[places[m]].deep_view(), annotations[places[m]].deep_view())
        }),
    decreases annotated.len(),
{
    reveal(Seq::filter);
    let all = Seq::new(annotated.len(), |k: int| k);
    if annotated.len() > 0 {
        let rest = annotated.drop_last();
        assert(all.drop_last() =~= Seq::new(rest.len(), |k: int| k));
        assert(annotated.last() == annotated[annotated.len() - 1]);
        assert forall|k: int| 0 <= k < rest.len() implies #[trigger] rest[k] == (
            tasks[k].deep_view(),
            annotations[k].deep_view(),
        ) by {
            assert(annotated[k] == rest[k]);
        }
        lemma_entries_by_place(tasks, annotations, rest, entity);
        assert(all.last() == annotated.len() - 1);
    }
}

/// Every label or relationship type has the entries of its own tasks, in their
/// order. Every entry has the name, the types and the mark of its task and exactly
/// the annotation that was given for it.
pub proof fn law_entries_carry_their_annotations(
    tasks: Vec<TaskMeta>,
    annotations: Vec<Annotation>,
    section: Section,
    entity: Seq<char>,
    number: nat,
)
    requires
        call_ensures(resolve_annotations, (&tasks, &annotations), section),
        number == if tasks@.len() <= annotations@.len() {
            tasks@.len()
        } else {
            annotations@.len()
        },
    ensures
        ({
            let places = places_of(tasks@, number, entity);
            &&& places.len() == 0 <==> forall|i: int|
                0 <= i < section@.len() ==> (#[trigger] section@[i]).0 != entity
            &&& forall|i: int|
                0 <= i < section@.len() && (#[trigger] section@[i]).0 == entity ==> {
                    &&& section@[i].1.len() == places.len()
                    &&& forall|m: int|
                        0 <= m < places.len() ==> {
                            let entry = #[trigger] section@[i].1[m];
                            let k = places[m];
                            &&& 0 <= k < number
                            &&& tasks@[k].entity@ == entity
                            &&& entry.name == tasks@[k].name@
                            &&& entry.type_str == tasks@[k].type_str@
                            &&& entry.required == tasks@[k].required
                            &&& entry.annotation == annotations@[k].deep_view()
                        }
                }
        }),
{
    let annotated = paired(tasks.deep_view(), annotations.deep_view());
    let places = places_of(tasks@, number, entity);
    let entries = entries_of(annotated, entity);
    assert(gathers(section@, annotated));
    lemma_entries_by_place(tasks@, annotations@, annotated, entity);
    assert(lookup(section@, entity) == if entries.len() == 0 {
        None
    } else {
        Some(entries)
    });
    law_lookup_finds_the_entry(section@, entity, entries);
    if places.len() > 0 {
        let i = choose|i: int| 0 <= i < section@.len() && section@[i] == (entity, entries);
        assert(section@[i].0 == entity);
    }
    assert forall|i: int|
        0 <= i < section@.len() && (#[trigger] section@[i]).0 == entity implies section@[i].1
        == entries by {
        lemma_lookup_entry(section@, i);
    }
    assert forall|m: int| 0 <= m < places.len() implies tasks@[#[trigger] places[m]].entity@
        == entity by {
        lemma_places_are_own(tasks@, number, entity, m);
    }
}

proof fn lemma_places_are_own(tasks: Seq<TaskMeta>, number: nat, entity: Seq<char>, m: int)
    requires
        0 <= m < places_of(tasks, number, entity).len(),
    ensures
        tasks[places_of(tasks, number, entity)[m]].entity@ == entity,
    decreases number,
{
    reveal(Seq::filter);
    let all = Seq::new(number, |k: int| k);
    if number > 0 {
        let fewer = (number - 1) as nat;
        assert(all.drop_last() =~= Seq::new(fewer, |k: int| k));
        if m < places_of(tasks, fewer, entity).len() {
            lemma_places_are_own(tasks, fewer, entity, m);
        }
    }
}

/// The entry of every task is in the section, under its label or relationship
/// type, with the annotation that was given for the task.
pub proof fn law_every_annotation_is_kept(
    tasks: Vec<TaskMeta>,
    annotations: Vec<Annotation>,
    section: Section,
    k: int,
)
    requires
        call_ensures(resolve_annotations, (&tasks, &annotations), section),
        tasks@.len() == annotations@.len(),
        0 <= k < tasks@.len(),
    ensures
        exists|i: int, m: int|
            {
                &&& 0 <= i < section@.len()
                &&& 0 <= m < section@[i].1.len()
                &&& section@[i].0 == tasks@[k].entity@
                &&& (#[trigger] section@[i].1[m]).name == tasks@[k].name@
                &&& section@[i].1[m].type_str == tasks@[k].type_str@
                &&& section@[i].1[m].required == tasks@[k].required
                &&& section@[i].1[m].annotation == annotations@[k].deep_view()
            },
{
    let entity = tasks@[k].entity@;
    let number = tasks@.len();
    let places = places_of(tasks@, number, entity);
    law_entries_carry_their_annotations(tasks, annotations, section, entity, number);
    lemma_place_is_there(tasks@, number, k);
    let m = choose|m: int| 0 <= m < places.len() && places[m] == k;
    let i = choose|i: int| 0 <= i < section@.len() && (#[trigger] section@[i]).0 == entity;
    assert(section@[i].1[m].name == tasks@[k].name@);
}

proof fn lemma_place_is_there(tasks: Seq<TaskMeta>, number: nat, k: int)
    requires
        0 <= k < number,
    ensures
        places_of(tasks, number, tasks[k].entity@).contains(k),
    decreases number,
{
    reveal(Seq::filter);
    let entity = tasks[k].entity@;
    let all = Seq::new(number, |k: int| k);
    let fewer = (number - 1) as nat;
    assert(all.drop_last() =~= Seq::new(fewer, |k: int| k));
    let earlier = places_of(tasks, fewer, entity);
    let places = places_of(tasks, number, entity);
    if k < fewer {
        lemma_place_is_there(tasks, fewer, k);
        let m = choose|m: int| 0 <= m < earlier.len() && earlier[m] == k;
        assert(places[m] == k);
    } else {
        assert(places[earlier.len() as int] == k);
    }
}

proof fn lemma_entries_add(
    a: Seq<(TaskView, AnnotationView)>,
    b: Seq<(TaskView, AnnotationView)>,
    entity: Seq<char>,
)
    ensures
        entries_of(a + b, entity) == entries_of(a, entity) + entries_of(b, entity),
    decreases b.len(),
{
    if b.len() == 0 {
        assert(a + b =~= a);
        assert(entries_of(a, entity) + entries_of(b, entity) =~= entries_of(a, entity));
    } else {
        assert((a + b).drop_last() =~= a + b.drop_last());
        lemma_entries_add(a, b.drop_last(), entity);
        assert(entries_of(a + b, entity) =~= entries_of(a, entity) + entries_of(b, entity));
    }
}

proof fn lemma_entries_of_one(
    annotated: Seq<(TaskView, AnnotationView)>,
    owner: Seq<char>,
    entity: Seq<char>,
)
    requires
        forall|k: int| 0 <= k < annotated.len() ==> (#[trigger] annotated[k]).0.entity == owner,
    ensures
        entries_of(annotated, entity) == if owner == entity {
            Seq::new(annotated.len(), |k: int| resolved(annotated[k].0, annotated[k].1))
        } else {
            seq![]
        },
    decreases annotated.len(),
{
    if annotated.len() > 0 {
        let rest = annotated.drop_last();
        assert(annotated.last() == annotated[annotated.len() - 1]);
        assert forall|k: int| 0 <= k < rest.len() implies (#[trigger] rest[k]).0.entity
            == owner by {
            assert(rest[k] == annotated[k]);
        }
        lemma_entries_of_one(rest, owner, entity);
    }
    assert(owner == entity ==> entries_of(annotated, entity) =~= Seq::new(
        annotated.len(),
        |k: int| resolved(annotated[k].0, annotated[k].1),
    ));
}

/// The entries of the properties of entry `i` of a table.
spec fn mirrored(table: PropTableView, annotations: Seq<AnnotationView>, i: int) -> Seq<
    ResolvedView,
> {
    Seq::new(
        table[i].1.len(),
        |j: int|
            resolved(
                task_of(table[i].0, table[i].1[j].0, table[i].1[j].1),
                annotations[props_within(table, i) + j],
            ),
    )
}

proof fn lemma_entries_mirror(
    table: PropTableView,
    annotations: Seq<AnnotationView>,
    entity: Seq<char>,
)
    requires
        ordered(table),
        annotations.len() == all_tasks(table).len(),
    ensures
        forall|i: int|
            0 <= i < table.len() && (#[trigger] table[i]).0 == entity ==> entries_of(
                paired(all_tasks(table), annotations),
                entity,
            ) == mirrored(table, annotations, i),
        (forall|i: int| 0 <= i < table.len() ==> (#[trigger] table[i]).0 != entity) ==> entries_of(
            paired(all_tasks(table), annotations),
            entity,
        ).len() == 0,
    decreases table.len(),
{
    if table.len() > 0 {
        let rest = table.drop_last();
        let last = table.len() - 1;
        let (owner, props) = table.last();
        let before_last = all_tasks(rest);
        let own = entity_tasks(owner, props);
        let first = annotations.take(before_last.len() as int);
        let chunk = paired(own, annotations.skip(before_last.len() as int));
        let annotated = paired(all_tasks(table), annotations);
        lemma_lookup_drop_last(table, entity);
        lemma_number_of_tasks(rest);
        lemma_props_within(table, last);
        assert(annotated =~= paired(before_last, first) + chunk);
        lemma_entries_mirror(rest, first, entity);
        lemma_entries_add(paired(before_last, first), chunk, entity);
        lemma_entries_of_one(chunk, owner, entity);
        let earlier = entries_of(paired(before_last, first), entity);
        assert forall|i: int| 0 <= i < table.len() && (#[trigger] table[i]).0 == entity implies (
        entries_of(annotated, entity) == mirrored(table, annotations, i)) by {
            law_before_is_irreflexive(entity);
            if i < last {
                assert(before(table[i].0, table[last].0));
                assert(rest[i].0 == entity);
                lemma_props_within(table, i);
                assert forall|j: int| 0 <= j < table[i].1.len() implies #[trigger] mirrored(
                    rest,
                    first,
                    i,
                )[j] == mirrored(table, annotations, i)[j] by {
                    lemma_place_of_task(rest, i, j);
                }
                assert(mirrored(rest, first, i) =~= mirrored(table, annotations, i));
                assert(earlier + seq![] =~= earlier);
            } else {
                assert forall|k: int| 0 <= k < rest.len() implies (#[trigger] rest[k]).0
                    != entity by {
                    assert(before(table[k].0, table[last].0));
                }
                assert(entries_of(annotated, entity) =~= mirrored(table, annotations, i));
            }
        }
        if forall|i: int| 0 <= i < table.len() ==> (#[trigger] table[i]).0 != entity {
            assert(table[last].0 != entity);
            assert forall|k: int| 0 <= k < rest.len() implies (#[trigger] rest[k]).0 != entity by {
                assert(table[k].0 != entity);
            }
        }
    }
}

proof fn lemma_section_mirrors(
    table: PropTableView,
    annotations: Seq<AnnotationView>,
    section: SectionView,
)
    requires
        tidy(table),
        annotations.len() == all_tasks(table).len(),
        gathers(section, paired(all_tasks(table), annotations)),
    ensures
        section == Seq::new(table.len(), |i: int| (table[i].0, mirrored(table, annotations, i))),
{
    let expected = Seq::new(table.len(), |i: int| (table[i].0, mirrored(table, annotations, i)));
    assert(ordered(expected)) by {
        assert forall|i: int, j: int|
            #![trigger expected[i], expected[j]]
            0 <= i < j < expected.len() implies before(expected[i].0, expected[j].0) by {
            assert(before(table[i].0, table[j].0));
        }
    }
    assert forall|entity: Seq<char>| #[trigger]
        lookup(section, entity) == lookup(expected, entity) by {
        lemma_entries_mirror(table, annotations, entity);
        if exists|i: int| 0 <= i < table.len() && (#[trigger] table[i]).0 == entity {
            let i = choose|i: int| 0 <= i < table.len() && (#[trigger] table[i]).0 == entity;
            assert(expected[i] == (entity, mirrored(table, annotations, i)));
            lemma_lookup_entry(expected, i);
            lemma_lookup_entry(table, i);
        } else {
            assert forall|i: int| 0 <= i < expected.len() implies (#[trigger] expected[i]).0
                != entity by {
                assert(table[i].0 != entity);
            }
            law_lookup_finds_the_entry(expected, entity, seq![]);
        }
    }
    law_contents_determine_entries(section, expected);
}

/// The section of a table mirrors it: the same labels or relationship types with
/// the same properties in the same order, each with its types joined, its mark, and
/// the annotation that was given for its task.
pub proof fn law_sections_mirror_the_table(
    table: PropTable,
    tasks: Vec<TaskMeta>,
    annotations: Vec<Annotation>,
    section: Section,
    i: int,
    j: int,
)
    requires
        tidy(table@),
        call_ensures(plan_annotations, (&table,), tasks),
        annotations@.len() == tasks@.len(),
        call_ensures(resolve_annotations, (&tasks, &annotations), section),
    ensures
        section@.len() == table@.len(),
        0 <= i < table@.len() ==> section@[i].0 == table@[i].0 && section@[i].1.len()
            == table@[i].1.len(),
        0 <= i < table@.len() && 0 <= j < table@[i].1.len() ==> {
            let entry = section@[i].1[j];
            let (name, info) = table@[i].1[j];
            let k = props_within(table@, i) + j;
            &&& entry.name == name
            &&& entry.type_str == joined(info.types, " | "@)
            &&& entry.required == info.required
            &&& 0 <= k < annotations@.len()
            &&& entry.annotation == annotations@[k].deep_view()
        },
{
    lemma_section_mirrors(table@, annotations.deep_view(), section@);
    if 0 <= i < table@.len() && 0 <= j < table@[i].1.len() {
        lemma_place_of_task(table@, i, j);
    }
}

/// Without examples the section of a table mirrors it too, and no entry has an
/// annotation.
pub proof fn law_bare_sections_mirror_the_table(
    table: PropTable,
    section: Section,
    i: int,
    j: int,
)
    requires
        tidy(table@),
        call_ensures(resolve_without_examples, (&table,), section),
    ensures
        section@.len() == table@.len(),
        0 <= i < table@.len() ==> section@[i].0 == table@[i].0 && section@[i].1.len()
            == table@[i].1.len(),
        0 <= i < table@.len() && 0 <= j < table@[i].1.len() ==> {
            let entry = section@[i].1[j];
            let (name, info) = table@[i].1[j];
            &&& entry.name == name
            &&& entry.type_str == joined(info.types, " | "@)
            &&& entry.required == info.required
            &&& entry.annotation is Nothing
        },
{
    let annotations = Seq::new(all_tasks(table@).len(), |k: int| AnnotationView::Nothing);
    lemma_section_mirrors(table@, annotations, section@);
    if 0 <= i < table@.len() && 0 <= j < table@[i].1.len() {
        lemma_place_of_task(table@, i, j);
    }
}

/// A task asks for its own property of its own label or relationship type, for a
/// range or an example as its type has it, and for nothing without a known type.
pub proof fn law_tasks_ask_for_their_property(
    task: TaskMeta,
    kind: EntityKind,
    step: AnnotationStep,
    clause: String,
)
    requires
        call_ensures(TaskMeta::first_step, (&task, kind), step),
        clause@ == match kind {
            EntityKind::Node => "MATCH (target:`"@ + task.entity@ + "`)"@,
            EntityKind::Relationship => "MATCH ()-[target"@ + task.entity@ + "]->()"@,
        },
    ensures
        match task.primary {
            Some(
                DataType::Integer
                | DataType::Float
                | DataType::Boolean
                | DataType::Date
                | DataType::Duration
                | DataType::ZonedDatetime
                | DataType::Datetime
                | DataType::ZonedTime
                | DataType::Time
                | DataType::LocalDatetime
                | DataType::LocalTime,
            ) => step matches AnnotationStep::AskRange(query) && query@ == clause@
                + " WHERE target.`"@ + task.name@
                + "` IS NOT NULL RETURN toString(min(target.`"@ + task.name@
                + "`)) AS mn, toString(max(target.`"@ + task.name@ + "`)) AS mx"@,
            Some(DataType::String | DataType::List) => step matches AnnotationStep::AskExample(
                query,
            ) && query@ == clause@ + " WHERE target.`"@ + task.name@
                + "` IS NOT NULL RETURN target.`"@ + task.name@ + "` AS v LIMIT 1"@,
            Some(DataType::Point | DataType::Mapping | DataType::Null) => step matches
                AnnotationStep::Settled(annotation) && annotation is Nothing,
            None => step matches AnnotationStep::Settled(annotation) && annotation is Nothing,
        },
{
    assert(step.deep_view() == task_step(kind, task.deep_view()));
}

/// What an entry says, and a copy of it, is what it holds.
pub proof fn law_entries_say_what_they_hold(prop: ResolvedProp, copy: ResolvedProp)
    requires
        call_ensures(ResolvedProp::clone, (&prop,), copy),
    ensures
        prop.deep_view().name == prop.name@,
        prop.deep_view().type_str == prop.type_str@,
        prop.deep_view().required == prop.required,
        prop.deep_view().annotation == prop.annotation.deep_view(),
        copy.name@ == prop.name@,
        copy.type_str@ == prop.type_str@,
        copy.required == prop.required,
        copy.annotation.deep_view() == prop.annotation.deep_view(),
{
    assert(copy.deep_view() == prop.deep_view());
}

/// The labels or relationship types of a section go up, and none is without
/// entries.
pub proof fn law_sections_go_by_name(
    tasks: Vec<TaskMeta>,
    annotations: Vec<Annotation>,
    section: Section,
    i: int,
    j: int,
)
    requires
        call_ensures(resolve_annotations, (&tasks, &annotations), section),
        0 <= i < section@.len(),
    ensures
        section@[i].1.len() > 0,
        i < j < section@.len() ==> before(section@[i].0, section@[j].0),
{
    lemma_lookup_entry(section@, i);
}

} // verus!
