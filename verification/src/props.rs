//! Property tables: which properties every label or relationship type has, and
//! with which types, put together from the rows of the schema procedures.

use indexmap::IndexSet;
use vstd::prelude::*;

use crate::order::before;
use crate::ordered_map::{
    law_contents_determine_entries, law_lookup_finds_the_entry, lemma_lookup_entry, lookup, ordered,
    OrderedMap,
};
use crate::scope::{admitted, quoted_rel_type, rel_type_admitted, Scope};
use crate::text::{contains_text, lemma_all_pass, lemma_filtered, same_text, same_texts};
use crate::type_set::{
    clone_types, extend_types, law_united_appends_what_is_new, type_names, united,
};

verus! {

/// Raw type metadata of a single property.
///
/// There is more than one type where nodes or relationships store the property
/// with different Cypher types.
#[derive(Debug)]
pub struct PropInfo {
    /// The detected types, in the order in which they were first reported.
    pub types: IndexSet<String>,
    /// Whether the property is present on all instances.
    pub required: bool,
}

/// What a [`PropInfo`] says.
#[verifier::ext_equal]
pub struct PropInfoView {
    /// The detected types in their order.
    pub types: Seq<Seq<char>>,
    /// Whether the property is present on all instances.
    pub required: bool,
}

impl DeepView for PropInfo {
    type V = PropInfoView;

    open spec fn deep_view(&self) -> PropInfoView {
        PropInfoView { types: type_names(self.types), required: self.required }
    }
}

impl Clone for PropInfo {
    fn clone(&self) -> (copy: PropInfo)
        ensures
            copy.deep_view() == self.deep_view(),
    {
        PropInfo { types: clone_types(&self.types), required: self.required }
    }
}

/// The properties of every label or relationship type.
pub type PropTable = OrderedMap<OrderedMap<PropInfo>>;

/// The entries of a [`PropTable`].
pub type PropTableView = Seq<(Seq<char>, Seq<(Seq<char>, PropInfoView)>)>;

/// A row of `db.schema.nodeTypeProperties()`.
#[derive(Debug)]
pub struct NodeRow {
    /// The labels that the property is reported for.
    pub labels: Vec<String>,
    /// The property name; a label without properties comes with none.
    pub property: Option<String>,
    /// The types of the property.
    pub types: IndexSet<String>,
    /// Whether all these nodes have the property.
    pub required: bool,
}

/// What a [`NodeRow`] says.
pub struct NodeRowView {
    pub labels: Seq<Seq<char>>,
    pub property: Option<Seq<char>>,
    pub info: PropInfoView,
}

impl DeepView for NodeRow {
    type V = NodeRowView;

    open spec fn deep_view(&self) -> NodeRowView {
        NodeRowView {
            labels: self.labels.deep_view(),
            property: self.property.deep_view(),
            info: PropInfoView { types: type_names(self.types), required: self.required },
        }
    }
}

/// A row of `db.schema.relTypeProperties()`.
#[derive(Debug)]
pub struct RelRow {
    /// The relationship type as the procedure writes it.
    pub rel_type: String,
    /// The property name; a relationship type without properties comes with none.
    pub property: Option<String>,
    /// The types of the property.
    pub types: IndexSet<String>,
    /// Whether all these relationships have the property.
    pub required: bool,
}

/// What a [`RelRow`] says.
pub struct RelRowView {
    pub rel_type: Seq<char>,
    pub property: Option<Seq<char>>,
    pub info: PropInfoView,
}

impl DeepView for RelRow {
    type V = RelRowView;

    open spec fn deep_view(&self) -> RelRowView {
        RelRowView {
            rel_type: self.rel_type@,
            property: self.property.deep_view(),
            info: PropInfoView { types: type_names(self.types), required: self.required },
        }
    }
}

/// What a row reports: the information that it has on a property of some labels
/// or relationship types.
pub struct Report {
    /// The labels or relationship types that get an entry.
    pub entities: Seq<Seq<char>>,
    /// The label combination or relationship type that the row is about. All
    /// nodes or relationships belong to exactly one of these.
    pub group: Seq<Seq<char>>,
    pub property: Option<Seq<char>>,
    pub info: PropInfoView,
}

/// The labels of a row that get an entry: the last one only if the most specific
/// label is asked for, and of these the ones in scope.
pub open spec fn kept_labels(
    labels: Seq<Seq<char>>,
    most_specific: bool,
    scope: Option<Seq<Seq<char>>>,
) -> Seq<Seq<char>> {
    let candidates = if most_specific && labels.len() > 0 {
        seq![labels.last()]
    } else {
        labels
    };
    candidates.filter(|label: Seq<char>| admitted(scope, label))
}

/// What the rows on nodes report.
pub open spec fn node_reports(
    rows: Seq<NodeRowView>,
    most_specific: bool,
    scope: Option<Seq<Seq<char>>>,
) -> Seq<Report> {
    Seq::new(
        rows.len(),
        |i: int|
            Report {
                entities: kept_labels(rows[i].labels, most_specific, scope),
                group: rows[i].labels,
                property: rows[i].property,
                info: rows[i].info,
            },
    )
}

/// What the rows on relationships report.
pub open spec fn rel_reports(rows: Seq<RelRowView>, scope: Option<Seq<Seq<char>>>) -> Seq<Report> {
    Seq::new(
        rows.len(),
        |i: int|
            Report {
                entities: if rel_type_admitted(scope, rows[i].rel_type) {
                    seq![rows[i].rel_type]
                } else {
                    seq![]
                },
                group: seq![rows[i].rel_type],
                property: rows[i].property,
                info: rows[i].info,
            },
    )
}

/// Whether a report is on that property of that label or relationship type.
pub open spec fn is_on(report: Report, entity: Seq<char>, name: Seq<char>) -> bool {
    report.property == Some(name) && report.entities.contains(entity)
}

/// What is reported on one property, in the order of the reports.
pub open spec fn reported(reports: Seq<Report>, entity: Seq<char>, name: Seq<char>) -> Seq<
    PropInfoView,
>
    decreases reports.len(),
{
    if reports.len() == 0 {
        seq![]
    } else {
        let earlier = reported(reports.drop_last(), entity, name);
        if is_on(reports.last(), entity, name) {
            earlier.push(reports.last().info)
        } else {
            earlier
        }
    }
}

/// What is known of a property once one more report has come in: the types that
/// are new go to the end, and it stays required only if it is so again.
pub open spec fn with_report(known: Option<PropInfoView>, info: PropInfoView) -> PropInfoView {
    match known {
        None => info,
        Some(known) => PropInfoView {
            types: united(known.types, info.types),
            required: known.required && info.required,
        },
    }
}

/// What several reports on one property say together.
pub open spec fn merged(infos: Seq<PropInfoView>) -> Option<PropInfoView>
    decreases infos.len(),
{
    if infos.len() == 0 {
        None
    } else {
        Some(with_report(merged(infos.drop_last()), infos.last()))
    }
}

/// Whether some report on the group names the property.
pub open spec fn group_has(reports: Seq<Report>, group: Seq<Seq<char>>, name: Seq<char>) -> bool {
    exists|j: int|
        0 <= j < reports.len() && (#[trigger] reports[j]).group == group && reports[j].property
            == Some(name)
}

/// Whether every group with that label or relationship type has the property.
pub open spec fn present_throughout(
    reports: Seq<Report>,
    entity: Seq<char>,
    name: Seq<char>,
) -> bool {
    forall|i: int|
        0 <= i < reports.len() && (#[trigger] reports[i]).entities.contains(entity) ==> group_has(
            reports,
            reports[i].group,
            name,
        )
}

/// The information, required only if the property is present throughout.
pub open spec fn limited(info: PropInfoView, throughout: bool) -> PropInfoView {
    PropInfoView { types: info.types, required: info.required && throughout }
}

/// What the first reports say together of a property that all reports show to be
/// present throughout or not.
pub open spec fn so_far(
    first: Seq<Report>,
    all: Seq<Report>,
    entity: Seq<char>,
    name: Seq<char>,
) -> Option<PropInfoView> {
    match merged(reported(first, entity, name)) {
        Some(info) => Some(limited(info, present_throughout(all, entity, name))),
        None => None,
    }
}

/// What all reports say of a property: its types are those of the reports on it,
/// and it is required if all of these say so and no group is without it.
pub open spec fn summed_up(reports: Seq<Report>, entity: Seq<char>, name: Seq<char>) -> Option<
    PropInfoView,
> {
    so_far(reports, reports, entity, name)
}

/// What a table says of one property.
pub open spec fn cell(table: PropTableView, entity: Seq<char>, name: Seq<char>) -> Option<
    PropInfoView,
> {
    match lookup(table, entity) {
        Some(props) => lookup(props, name),
        None => None,
    }
}

/// Whether all entries of a table are in order and none is without properties.
pub open spec fn tidy(table: PropTableView) -> bool {
    &&& ordered(table)
    &&& forall|entity: Seq<char>|
        (#[trigger] lookup(table, entity)) is Some ==> lookup(table, entity)->0.len() > 0
            && ordered(lookup(table, entity)->0)
}

/// Whether the table lists no type of a property twice.
pub open spec fn types_distinct(table: PropTableView) -> bool {
    forall|entity: Seq<char>, name: Seq<char>|
        (#[trigger] cell(table, entity, name)) is Some ==> cell(
            table,
            entity,
            name,
        )->0.types.no_duplicates()
}

/// Whether the table holds what the first reports say.
pub open spec fn tabulates_first(
    table: PropTableView,
    first: Seq<Report>,
    all: Seq<Report>,
) -> bool {
    &&& tidy(table)
    &&& forall|entity: Seq<char>, name: Seq<char>| #[trigger]
        cell(table, entity, name) == so_far(first, all, entity, name)
}

/// Whether the table is the one that the reports make: of every property it says
/// what all reports say of it, and it says nothing else.
pub open spec fn tabulates(table: PropTableView, reports: Seq<Report>) -> bool {
    &&& tidy(table)
    &&& forall|entity: Seq<char>, name: Seq<char>| #[trigger]
        cell(table, entity, name) == summed_up(reports, entity, name)
}

/// Collects the labels of a row that get an entry.
fn keep_labels(labels: &Vec<String>, most_specific: bool, scope: &Scope) -> (kept: Vec<String>)
    ensures
        kept.deep_view() == kept_labels(labels.deep_view(), most_specific, scope@),
{
    let start: usize = if most_specific && labels.len() > 0 {
        labels.len() - 1
    } else {
        0
    };
    let ghost candidates = labels.deep_view().skip(start as int);
    let ghost admits = |label: Seq<char>| admitted(scope@, label);
    let mut kept: Vec<String> = Vec::new();
    let mut i: usize = start;
    assert(candidates.take(0) =~= seq![]);
    reveal(Seq::filter);
    while i < labels.len()
        invariant
            start <= i <= labels.len(),
            candidates == labels.deep_view().skip(start as int),
            admits == (|label: Seq<char>| admitted(scope@, label)),
            kept.deep_view() == candidates.take(i - start).filter(admits),
        decreases labels.len() - i,
    {
        let ghost done = kept.deep_view();
        assert(candidates.take(i + 1 - start).drop_last() =~= candidates.take(i - start));
        assert(candidates.take(i + 1 - start).last() == labels@[i as int]@);
        reveal(Seq::filter);
        if scope.admits(labels[i].as_str()) {
            kept.push(labels[i].clone());
            assert(kept.deep_view() =~= done.push(labels@[i as int]@));
        }
        i += 1;
    }
    assert(candidates.take(i - start) =~= candidates);
    assert(candidates =~= if most_specific && labels.deep_view().len() > 0 {
        seq![labels.deep_view().last()]
    } else {
        labels.deep_view()
    });
    kept
}

/// Adds one report on one property to a table.
fn record(
    table: &mut PropTable,
    entity: &String,
    name: &String,
    types: &IndexSet<String>,
    required: bool,
)
    requires
        tidy(old(table)@),
        types_distinct(old(table)@),
    ensures
        tidy(final(table)@),
        types_distinct(final(table)@),
        forall|e: Seq<char>, n: Seq<char>| #[trigger]
            cell(final(table)@, e, n) == if e == entity@ && n == name@ {
                Some(
                    with_report(
                        cell(old(table)@, e, n),
                        PropInfoView { types: type_names(*types), required },
                    ),
                )
            } else {
                cell(old(table)@, e, n)
            },
{
    let mut props: OrderedMap<PropInfo> = match table.remove(entity.as_str()) {
        Some(props) => props,
        None => OrderedMap::new(),
    };
    let info = match props.remove(name.as_str()) {
        Some(known) => {
            let mut info = known;
            let more = clone_types(types);
            proof {
                assert(cell(old(table)@, entity@, name@) == Some(known.deep_view()));
                lemma_united(type_names(info.types), type_names(more));
            }
            info.required = info.required && required;
            extend_types(&mut info.types, more);
            info
        },
        None => PropInfo { types: clone_types(types), required },
    };
    let ghost said = info.deep_view();
    props.insert(name.clone(), info);
    let ghost after = props@;
    table.insert(entity.clone(), props);
    proof {
        assert(lookup(table@, entity@) == Some(after));
        assert(lookup(after, name@) is Some);
        assert(after.len() > 0);
        assert forall|e: Seq<char>, n: Seq<char>|
            (#[trigger] cell(table@, e, n)) is Some implies cell(
            table@,
            e,
            n,
        )->0.types.no_duplicates() by {
            if e == entity@ && n == name@ {
                assert(cell(table@, e, n) == Some(said));
            } else {
                assert(cell(table@, e, n) == cell(old(table)@, e, n));
            }
        }
    }
}

/// What the rows report if they keep these labels.
spec fn reports_keeping(rows: Seq<NodeRowView>, kept: Seq<Seq<Seq<char>>>) -> Seq<Report> {
    Seq::new(
        rows.len(),
        |i: int|
            Report {
                entities: kept[i],
                group: rows[i].labels,
                property: rows[i].property,
                info: rows[i].info,
            },
    )
}

/// Whether some row with these labels names the property.
fn combination_has(
    rows: &Vec<NodeRow>,
    kept: &Vec<Vec<String>>,
    labels: &Vec<String>,
    name: &String,
) -> (found: bool)
    ensures
        found == group_has(
            reports_keeping(rows.deep_view(), kept.deep_view()),
            labels.deep_view(),
            name@,
        ),
{
    let ghost reports = reports_keeping(rows.deep_view(), kept.deep_view());
    let mut j: usize = 0;
    while j < rows.len()
        invariant
            j <= rows.len(),
            reports == reports_keeping(rows.deep_view(), kept.deep_view()),
            forall|k: int|
                0 <= k < j ==> !((#[trigger] reports[k]).group == labels.deep_view()
                    && reports[k].property == Some(name@)),
        decreases rows.len() - j,
    {
        assert(rows.deep_view()[j as int] == rows@[j as int].deep_view());
        if let Some(property) = &rows[j].property {
            if same_text(property.as_str(), name.as_str()) && same_texts(&rows[j].labels, labels) {
                assert(reports[j as int].group == labels.deep_view());
                return true;
            }
        }
        j += 1;
    }
    false
}

/// Whether every label combination that keeps the label has the property.
fn is_throughout(
    rows: &Vec<NodeRow>,
    kept: &Vec<Vec<String>>,
    label: &String,
    name: &String,
) -> (throughout: bool)
    requires
        kept@.len() == rows@.len(),
    ensures
        throughout == present_throughout(
            reports_keeping(rows.deep_view(), kept.deep_view()),
            label@,
            name@,
        ),
{
    let ghost reports = reports_keeping(rows.deep_view(), kept.deep_view());
    let mut i: usize = 0;
    while i < rows.len()
        invariant
            i <= rows.len(),
            kept@.len() == rows@.len(),
            reports == reports_keeping(rows.deep_view(), kept.deep_view()),
            forall|k: int|
                0 <= k < i && (#[trigger] reports[k]).entities.contains(label@) ==> group_has(
                    reports,
                    reports[k].group,
                    name@,
                ),
        decreases rows.len() - i,
    {
        assert(rows.deep_view()[i as int] == rows@[i as int].deep_view());
        assert(kept.deep_view()[i as int] == kept@[i as int].deep_view());
        if contains_text(&kept[i], label.as_str()) {
            if !combination_has(rows, kept, &rows[i].labels, name) {
                assert(reports[i as int].entities.contains(label@));
                return false;
            }
        }
        i += 1;
    }
    true
}

/// Adds a report on one property of several labels to a table.
fn record_all(
    table: &mut PropTable,
    labels: &Vec<String>,
    name: &String,
    types: &IndexSet<String>,
    required: bool,
    rows: &Vec<NodeRow>,
    kept: &Vec<Vec<String>>,
)
    requires
        kept@.len() == rows@.len(),
        tidy(old(table)@),
        types_distinct(old(table)@),
    ensures
        tidy(final(table)@),
        types_distinct(final(table)@),
        forall|e: Seq<char>, n: Seq<char>| #[trigger]
            cell(final(table)@, e, n) == if labels.deep_view().contains(e) && n == name@ {
                Some(
                    with_report(
                        cell(old(table)@, e, n),
                        limited(
                            PropInfoView { types: type_names(*types), required },
                            present_throughout(
                                reports_keeping(rows.deep_view(), kept.deep_view()),
                                e,
                                n,
                            ),
                        ),
                    ),
                )
            } else {
                cell(old(table)@, e, n)
            },
{
    let ghost info = PropInfoView { types: type_names(*types), required };
    let ghost all = reports_keeping(rows.deep_view(), kept.deep_view());
    let mut i: usize = 0;
    while i < labels.len()
        invariant
            i <= labels.len(),
            kept@.len() == rows@.len(),
            tidy(table@),
            types_distinct(table@),
            info == (PropInfoView { types: type_names(*types), required }),
            all == reports_keeping(rows.deep_view(), kept.deep_view()),
            forall|e: Seq<char>, n: Seq<char>| #[trigger]
                cell(table@, e, n) == if labels.deep_view().take(i as int).contains(e) && n
                    == name@ {
                    Some(
                        with_report(
                            cell(old(table)@, e, n),
                            limited(info, present_throughout(all, e, n)),
                        ),
                    )
                } else {
                    cell(old(table)@, e, n)
                },
        decreases labels.len() - i,
    {
        let label = &labels[i];
        let always = required && is_throughout(rows, kept, label, name);
        let ghost said = limited(info, present_throughout(all, label@, name@));
        assert(said =~= PropInfoView { types: type_names(*types), required: always });
        record(table, label, name, types, always);
        proof {
            let done = labels.deep_view().take(i as int);
            let next = labels.deep_view().take(i + 1);
            let current = labels@[i as int]@;
            assert(next =~= done.push(current));
            assert forall|e: Seq<char>, n: Seq<char>| #[trigger]
                cell(table@, e, n) == if next.contains(e) && n == name@ {
                    Some(
                        with_report(
                            cell(old(table)@, e, n),
                            limited(info, present_throughout(all, e, n)),
                        ),
                    )
                } else {
                    cell(old(table)@, e, n)
                } by {
                assert(next[i as int] == current);
                if done.contains(e) {
                    let k = choose|k: int| 0 <= k < done.len() && done[k] == e;
                    assert(next[k] == e);
                }
                if next.contains(e) && e != current {
                    let k = choose|k: int| 0 <= k < next.len() && next[k] == e;
                    assert(done[k] == e);
                }
                if e == current && n == name@ && done.contains(e) {
                    lemma_report_again(cell(old(table)@, e, n), said);
                }
            }
        }
        i += 1;
    }
    assert(labels.deep_view().take(i as int) =~= labels.deep_view());
}

/// Uniting with items that are all there changes nothing.
proof fn lemma_united_with_known(a: Seq<Seq<char>>, b: Seq<Seq<char>>)
    requires
        forall|i: int| 0 <= i < b.len() ==> a.contains(#[trigger] b[i]),
    ensures
        united(a, b) == a,
    decreases b.len(),
{
    if b.len() > 0 {
        assert forall|i: int| 0 <= i < b.drop_last().len() implies a.contains(
            #[trigger] b.drop_last()[i],
        ) by {
            assert(b.drop_last()[i] == b[i]);
        }
        lemma_united_with_known(a, b.drop_last());
        assert(a.contains(b[b.len() - 1]));
    }
}

/// The union has the items of both sides, keeps the first side as its beginning,
/// and repeats nothing that the first side does not repeat.
proof fn lemma_united(a: Seq<Seq<char>>, b: Seq<Seq<char>>)
    ensures
        a.is_prefix_of(united(a, b)),
        forall|item: Seq<char>| #[trigger]
            united(a, b).contains(item) <==> a.contains(item) || b.contains(item),
        a.no_duplicates() ==> united(a, b).no_duplicates(),
    decreases b.len(),
{
    if b.len() > 0 {
        let rest = united(a, b.drop_last());
        lemma_united(a, b.drop_last());
        let all = united(a, b);
        assert(b =~= b.drop_last().push(b.last()));
        assert forall|item: Seq<char>| #[trigger]
            all.contains(item) <==> a.contains(item) || b.contains(item) by {
            assert(rest.contains(item) <==> a.contains(item) || b.drop_last().contains(item));
            assert(b[b.len() - 1] == b.last());
            if b.contains(item) && item != b.last() {
                let k = choose|k: int| 0 <= k < b.len() && b[k] == item;
                assert(b.drop_last()[k] == item);
            }
            if b.drop_last().contains(item) {
                let k = choose|k: int| 0 <= k < b.drop_last().len() && b.drop_last()[k] == item;
                assert(b[k] == item);
            }
            if !rest.contains(b.last()) {
                assert(all[rest.len() as int] == b.last());
                if rest.contains(item) {
                    let k = choose|k: int| 0 <= k < rest.len() && rest[k] == item;
                    assert(all[k] == item);
                }
                if all.contains(item) && item != b.last() {
                    let k = choose|k: int| 0 <= k < all.len() && all[k] == item;
                    assert(rest[k] == item);
                }
            }
        }
    } else {
        assert(a.subrange(0, a.len() as int) =~= a);
    }
}

/// A report that comes in twice in a row says no more than once.
proof fn lemma_report_again(known: Option<PropInfoView>, info: PropInfoView)
    ensures
        with_report(Some(with_report(known, info)), info) == with_report(known, info),
{
    let once = with_report(known, info);
    if known is Some {
        lemma_united(known->0.types, info.types);
    }
    lemma_united_with_known(once.types, info.types);
}

/// Builds the property table of the labels from the rows on nodes.
///
/// A row can list several labels; each gets its own entry. If the most specific
/// label is asked for, only the last label of a row does. Labels out of scope get
/// none. A property is required if it is present on every node of the label: all
/// rows on it say so, and every label combination with the label has it.
pub fn collect_node_props(rows: &Vec<NodeRow>, most_specific: bool, scope: &Scope) -> (table:
    PropTable)
    ensures
        tabulates(table@, node_reports(rows.deep_view(), most_specific, scope@)),
        types_distinct(table@),
{
    let ghost all = node_reports(rows.deep_view(), most_specific, scope@);
    let mut kept: Vec<Vec<String>> = Vec::new();
    let mut i: usize = 0;
    while i < rows.len()
        invariant
            i <= rows.len(),
            all == node_reports(rows.deep_view(), most_specific, scope@),
            kept@.len() == i,
            forall|k: int| 0 <= k < i ==> #[trigger] kept.deep_view()[k] == all[k].entities,
        decreases rows.len() - i,
    {
        let ghost done = kept.deep_view();
        assert(rows.deep_view()[i as int] == rows@[i as int].deep_view());
        let labels = keep_labels(&rows[i].labels, most_specific, scope);
        kept.push(labels);
        assert(kept.deep_view() =~= done.push(labels.deep_view()));
        i += 1;
    }
    assert(reports_keeping(rows.deep_view(), kept.deep_view()) =~= all);

    let mut table: PropTable = OrderedMap::new();
    i = 0;
    assert(all.take(0) =~= seq![]);
    while i < rows.len()
        invariant
            i <= rows.len(),
            all == node_reports(rows.deep_view(), most_specific, scope@),
            kept@.len() == rows@.len(),
            all == reports_keeping(rows.deep_view(), kept.deep_view()),
            tabulates_first(table@, all.take(i as int), all),
            types_distinct(table@),
        decreases rows.len() - i,
    {
        let row = &rows[i];
        let ghost report = all[i as int];
        let ghost known = table@;
        proof {
            assert(rows.deep_view()[i as int] == row.deep_view());
            assert(kept.deep_view()[i as int] == kept@[i as int].deep_view());
            assert(all.take(i + 1).drop_last() =~= all.take(i as int));
            assert(all.take(i + 1).last() == report);
        }
        if let Some(name) = &row.property {
            record_all(&mut table, &kept[i], name, &row.types, row.required, rows, &kept);
        }
        proof {
            lemma_tabulate_next(known, table@, all.take(i + 1), all);
        }
        i += 1;
    }
    assert(all.take(i as int) =~= all);
    table
}

/// Builds the property table of the relationship types from the rows on
/// relationships. Relationship types out of scope get no entry.
pub fn collect_rel_props(rows: &Vec<RelRow>, scope: &Scope) -> (table: PropTable)
    ensures
        tabulates(table@, rel_reports(rows.deep_view(), scope@)),
        types_distinct(table@),
{
    let mut table: PropTable = OrderedMap::new();
    let ghost all = rel_reports(rows.deep_view(), scope@);
    let mut i: usize = 0;
    assert(all.take(0) =~= seq![]);
    while i < rows.len()
        invariant
            i <= rows.len(),
            all == rel_reports(rows.deep_view(), scope@),
            tabulates_first(table@, all.take(i as int), all),
            types_distinct(table@),
        decreases rows.len() - i,
    {
        let row = &rows[i];
        let ghost report = all[i as int];
        let ghost known = table@;
        proof {
            assert(rows.deep_view()[i as int] == row.deep_view());
            assert(all.take(i + 1).drop_last() =~= all.take(i as int));
            assert(all.take(i + 1).last() == report);
        }
        if let Some(name) = &row.property {
            if scope.admits_rel_type(row.rel_type.as_str()) {
                proof {
                    assert(report.entities =~= seq![row.rel_type@]);
                    assert(report.entities[0] == row.rel_type@);
                    lemma_rel_type_throughout(rows.deep_view(), scope@, i as int, name@);
                    assert(limited(report.info, true) =~= report.info);
                }
                record(&mut table, &row.rel_type, name, &row.types, row.required);
            }
        }
        proof {
            lemma_tabulate_next(known, table@, all.take(i + 1), all);
        }
        i += 1;
    }
    assert(all.take(i as int) =~= all);
    table
}

/// A relationship type is one group, which has every property that a row on it
/// names.
proof fn lemma_rel_type_throughout(
    rows: Seq<RelRowView>,
    scope: Option<Seq<Seq<char>>>,
    i: int,
    name: Seq<char>,
)
    requires
        0 <= i < rows.len(),
        rows[i].property == Some(name),
    ensures
        present_throughout(rel_reports(rows, scope), rows[i].rel_type, name),
{
    let reports = rel_reports(rows, scope);
    let rel_type = rows[i].rel_type;
    assert forall|k: int|
        0 <= k < reports.len() && (#[trigger] reports[k]).entities.contains(
            rel_type,
        ) implies group_has(reports, reports[k].group, name) by {
        assert(reports[k].group == reports[i].group);
    }
}

/// A table that takes up the last of the first reports where it applies tabulates
/// one report more.
proof fn lemma_tabulate_next(
    known: PropTableView,
    table: PropTableView,
    first: Seq<Report>,
    all: Seq<Report>,
)
    requires
        first.len() > 0,
        tabulates_first(known, first.drop_last(), all),
        tidy(table),
        forall|e: Seq<char>, n: Seq<char>| #[trigger]
            cell(table, e, n) == if is_on(first.last(), e, n) {
                Some(
                    with_report(
                        cell(known, e, n),
                        limited(first.last().info, present_throughout(all, e, n)),
                    ),
                )
            } else {
                cell(known, e, n)
            },
    ensures
        tabulates_first(table, first, all),
{
    assert forall|e: Seq<char>, n: Seq<char>| #[trigger]
        cell(table, e, n) == so_far(first, all, e, n) by {
        let earlier = reported(first.drop_last(), e, n);
        assert(cell(known, e, n) == so_far(first.drop_last(), all, e, n));
        if is_on(first.last(), e, n) {
            assert(earlier.push(first.last().info).drop_last() =~= earlier);
            assert(cell(table, e, n)->0 =~= so_far(first, all, e, n)->0);
        }
    }
}

/// Something is reported on a property exactly if a report is on it.
proof fn lemma_reported_some(reports: Seq<Report>, entity: Seq<char>, name: Seq<char>)
    ensures
        reported(reports, entity, name).len() > 0 <==> exists|i: int|
            0 <= i < reports.len() && is_on(#[trigger] reports[i], entity, name),
    decreases reports.len(),
{
    if reports.len() > 0 {
        let rest = reports.drop_last();
        lemma_reported_some(rest, entity, name);
        if is_on(reports.last(), entity, name) {
            assert(is_on(reports[reports.len() - 1], entity, name));
        }
        if exists|i: int| 0 <= i < rest.len() && is_on(#[trigger] rest[i], entity, name) {
            let i = choose|i: int| 0 <= i < rest.len() && is_on(#[trigger] rest[i], entity, name);
            assert(is_on(reports[i], entity, name));
        }
        if exists|i: int| 0 <= i < reports.len() && is_on(#[trigger] reports[i], entity, name) {
            let i = choose|i: int|
                0 <= i < reports.len() && is_on(#[trigger] reports[i], entity, name);
            if i < rest.len() {
                assert(is_on(rest[i], entity, name));
            }
        }
    }
}

/// A table lists a property exactly if some report is on it.
pub proof fn law_listed_iff_reported(
    table: PropTableView,
    reports: Seq<Report>,
    entity: Seq<char>,
    name: Seq<char>,
)
    requires
        tabulates(table, reports),
    ensures
        cell(table, entity, name) is Some <==> exists|i: int|
            0 <= i < reports.len() && is_on(#[trigger] reports[i], entity, name),
{
    lemma_reported_some(reports, entity, name);
    assert(cell(table, entity, name) == summed_up(reports, entity, name));
}

/// Every label that a row lists gets its own entry, if it is in scope.
pub proof fn law_every_label_gets_an_entry(
    table: PropTableView,
    rows: Seq<NodeRowView>,
    scope: Option<Seq<Seq<char>>>,
    i: int,
    label: Seq<char>,
    name: Seq<char>,
)
    requires
        tabulates(table, node_reports(rows, false, scope)),
        0 <= i < rows.len(),
        rows[i].labels.contains(label),
        rows[i].property == Some(name),
        admitted(scope, label),
    ensures
        cell(table, label, name) is Some,
{
    let reports = node_reports(rows, false, scope);
    lemma_kept(rows[i].labels, scope, label);
    assert(is_on(reports[i], label, name));
    law_listed_iff_reported(table, reports, label, name);
}

/// Every relationship type gets an entry for every property that a row reports
/// for it, if it is in scope.
pub proof fn law_every_rel_type_gets_an_entry(
    table: PropTableView,
    rows: Seq<RelRowView>,
    scope: Option<Seq<Seq<char>>>,
    i: int,
    name: Seq<char>,
)
    requires
        tabulates(table, rel_reports(rows, scope)),
        0 <= i < rows.len(),
        rows[i].property == Some(name),
        rel_type_admitted(scope, rows[i].rel_type),
    ensures
        cell(table, rows[i].rel_type, name) is Some,
{
    let reports = rel_reports(rows, scope);
    assert(reports[i].entities[0] == rows[i].rel_type);
    assert(is_on(reports[i], rows[i].rel_type, name));
    law_listed_iff_reported(table, reports, rows[i].rel_type, name);
}

/// With the most specific label asked for, a label has entries only from rows
/// that list it last.
pub proof fn law_most_specific_keeps_last_label(
    table: PropTableView,
    rows: Seq<NodeRowView>,
    scope: Option<Seq<Seq<char>>>,
    label: Seq<char>,
    name: Seq<char>,
)
    requires
        tabulates(table, node_reports(rows, true, scope)),
    ensures
        cell(table, label, name) is Some <==> admitted(scope, label) && exists|i: int|
            0 <= i < rows.len() && (#[trigger] rows[i]).property == Some(name)
                && rows[i].labels.len() > 0 && rows[i].labels.last() == label,
{
    let reports = node_reports(rows, true, scope);
    law_listed_iff_reported(table, reports, label, name);
    assert forall|i: int| 0 <= i < rows.len() implies (is_on(#[trigger] reports[i], label, name)
        <==> rows[i].property == Some(name) && admitted(scope, label) && rows[i].labels.len() > 0
        && rows[i].labels.last() == label) by {
        let labels = rows[i].labels;
        let candidates = if labels.len() > 0 { seq![labels.last()] } else { labels };
        lemma_kept(candidates, scope, label);
        if labels.len() > 0 {
            assert(candidates[0] == labels.last());
        }
    }
    if cell(table, label, name) is Some {
        let i = choose|i: int| 0 <= i < reports.len() && is_on(#[trigger] reports[i], label, name);
        assert(rows[i].property == Some(name));
    }
    if admitted(scope, label) && exists|i: int|
        0 <= i < rows.len() && (#[trigger] rows[i]).property == Some(name) && rows[i].labels.len()
            > 0 && rows[i].labels.last() == label {
        let i = choose|i: int|
            0 <= i < rows.len() && (#[trigger] rows[i]).property == Some(name)
                && rows[i].labels.len() > 0 && rows[i].labels.last() == label;
        assert(is_on(reports[i], label, name));
    }
}

/// A table lists no label out of scope.
pub proof fn law_labels_are_in_scope(
    table: PropTableView,
    rows: Seq<NodeRowView>,
    most_specific: bool,
    scope: Option<Seq<Seq<char>>>,
    label: Seq<char>,
)
    requires
        tabulates(table, node_reports(rows, most_specific, scope)),
        lookup(table, label) is Some,
    ensures
        admitted(scope, label),
{
    let reports = node_reports(rows, most_specific, scope);
    let name = lookup(table, label)->0[0].0;
    lemma_lookup_entry(lookup(table, label)->0, 0);
    law_listed_iff_reported(table, reports, label, name);
    let i = choose|i: int| 0 <= i < reports.len() && is_on(#[trigger] reports[i], label, name);
    let labels = rows[i].labels;
    lemma_kept(
        if most_specific && labels.len() > 0 {
            seq![labels.last()]
        } else {
            labels
        },
        scope,
        label,
    );
}

/// A table lists no relationship type out of scope.
pub proof fn law_rel_types_are_in_scope(
    table: PropTableView,
    rows: Seq<RelRowView>,
    scope: Option<Seq<Seq<char>>>,
    rel_type: Seq<char>,
)
    requires
        tabulates(table, rel_reports(rows, scope)),
        lookup(table, rel_type) is Some,
    ensures
        rel_type_admitted(scope, rel_type),
{
    let reports = rel_reports(rows, scope);
    let name = lookup(table, rel_type)->0[0].0;
    lemma_lookup_entry(lookup(table, rel_type)->0, 0);
    law_listed_iff_reported(table, reports, rel_type, name);
    let i = choose|i: int| 0 <= i < reports.len() && is_on(#[trigger] reports[i], rel_type, name);
    assert(reports[i].entities.contains(rel_type));
}

/// A label is kept exactly if it is a candidate in scope.
proof fn lemma_kept(
    candidates: Seq<Seq<char>>,
    scope: Option<Seq<Seq<char>>>,
    label: Seq<char>,
)
    ensures
        candidates.filter(|label: Seq<char>| admitted(scope, label)).contains(label)
            <==> candidates.contains(label) && admitted(scope, label),
{
    lemma_filtered(candidates, |label: Seq<char>| admitted(scope, label), label);
}

/// Reports together call a property required exactly if each of them does.
proof fn lemma_required_iff_each(infos: Seq<PropInfoView>)
    requires
        infos.len() > 0,
    ensures
        merged(infos)->0.required <==> forall|i: int|
            0 <= i < infos.len() ==> (#[trigger] infos[i]).required,
    decreases infos.len(),
{
    let rest = infos.drop_last();
    assert(infos[infos.len() - 1] == infos.last());
    if rest.len() > 0 {
        lemma_required_iff_each(rest);
        if forall|i: int| 0 <= i < infos.len() ==> (#[trigger] infos[i]).required {
            assert forall|i: int| 0 <= i < rest.len() implies (#[trigger] rest[i]).required by {
                assert(infos[i].required);
            }
        }
        if merged(infos)->0.required {
            assert forall|i: int| 0 <= i < infos.len() implies (#[trigger] infos[i]).required by {
                if i < rest.len() {
                    assert(rest[i].required);
                }
            }
        }
    }
}

proof fn lemma_reported_required(reports: Seq<Report>, entity: Seq<char>, name: Seq<char>)
    ensures
        (forall|k: int|
            0 <= k < reported(reports, entity, name).len() ==> (#[trigger] reported(
                reports,
                entity,
                name,
            )[k]).required) <==> (forall|i: int|
            0 <= i < reports.len() && is_on(#[trigger] reports[i], entity, name)
                ==> reports[i].info.required),
    decreases reports.len(),
{
    if reports.len() > 0 {
        let rest = reports.drop_last();
        lemma_reported_required(rest, entity, name);
        let earlier = reported(rest, entity, name);
        let infos = reported(reports, entity, name);
        assert(forall|i: int| 0 <= i < rest.len() ==> rest[i] == reports[i]);
        assert(reports[reports.len() - 1] == reports.last());
        assert(forall|k: int| 0 <= k < earlier.len() ==> earlier[k] == infos[k]);
        if is_on(reports.last(), entity, name) {
            assert(infos[earlier.len() as int] == reports.last().info);
        }
        if forall|k: int| 0 <= k < infos.len() ==> (#[trigger] infos[k]).required {
            assert(forall|k: int| 0 <= k < earlier.len() ==> (#[trigger] earlier[k]).required);
            assert forall|i: int|
                0 <= i < reports.len() && is_on(
                    #[trigger] reports[i],
                    entity,
                    name,
                ) implies reports[i].info.required by {
                if i < rest.len() {
                    assert(is_on(rest[i], entity, name));
                }
            }
        }
        if forall|i: int|
            0 <= i < reports.len() && is_on(#[trigger] reports[i], entity, name)
                ==> reports[i].info.required {
            assert forall|i: int|
                0 <= i < rest.len() && is_on(
                    #[trigger] rest[i],
                    entity,
                    name,
                ) implies rest[i].info.required by {
                assert(is_on(reports[i], entity, name));
            }
            assert forall|k: int| 0 <= k < infos.len() implies (#[trigger] infos[k]).required by {
                if k < earlier.len() {
                    assert(earlier[k].required);
                }
            }
        }
    }
}

/// A listed property is required exactly if every report on it says so and no
/// group with its label or relationship type is without it.
pub proof fn law_required_iff_always_present(
    table: PropTableView,
    reports: Seq<Report>,
    entity: Seq<char>,
    name: Seq<char>,
)
    requires
        tabulates(table, reports),
        cell(table, entity, name) is Some,
    ensures
        cell(table, entity, name)->0.required <==> present_throughout(reports, entity, name)
            && forall|i: int|
            0 <= i < reports.len() && is_on(#[trigger] reports[i], entity, name)
                ==> reports[i].info.required,
{
    assert(cell(table, entity, name) == summed_up(reports, entity, name));
    lemma_required_iff_each(reported(reports, entity, name));
    lemma_reported_required(reports, entity, name);
}

/// Whether some row with these labels calls the property required.
pub open spec fn combination_requires(
    rows: Seq<NodeRowView>,
    labels: Seq<Seq<char>>,
    name: Seq<char>,
) -> bool {
    exists|j: int|
        0 <= j < rows.len() && (#[trigger] rows[j]).labels == labels && rows[j].property == Some(
            name,
        ) && rows[j].info.required
}

/// A property of a label is required exactly if it is present on every node of the
/// label: every row on it says so, and every label combination that is kept for
/// the label has a row that does.
pub proof fn law_required_iff_on_every_node(
    table: PropTableView,
    rows: Seq<NodeRowView>,
    most_specific: bool,
    scope: Option<Seq<Seq<char>>>,
    label: Seq<char>,
    name: Seq<char>,
)
    requires
        tabulates(table, node_reports(rows, most_specific, scope)),
        cell(table, label, name) is Some,
    ensures
        cell(table, label, name)->0.required <==> (forall|i: int|
            0 <= i < rows.len() && (#[trigger] rows[i]).property == Some(name) && kept_labels(
                rows[i].labels,
                most_specific,
                scope,
            ).contains(label) ==> rows[i].info.required) && (forall|i: int|
            0 <= i < rows.len() && kept_labels(
                (#[trigger] rows[i]).labels,
                most_specific,
                scope,
            ).contains(label) ==> combination_requires(rows, rows[i].labels, name)),
{
    let reports = node_reports(rows, most_specific, scope);
    law_required_iff_always_present(table, reports, label, name);
    if cell(table, label, name)->0.required {
        assert forall|i: int|
            0 <= i < rows.len() && (#[trigger] rows[i]).property == Some(name) && kept_labels(
                rows[i].labels,
                most_specific,
                scope,
            ).contains(label) implies rows[i].info.required by {
            assert(is_on(reports[i], label, name));
        }
        assert forall|i: int|
            0 <= i < rows.len() && kept_labels(
                (#[trigger] rows[i]).labels,
                most_specific,
                scope,
            ).contains(label) implies combination_requires(rows, rows[i].labels, name) by {
            assert(reports[i].entities.contains(label));
            assert(group_has(reports, reports[i].group, name));
            let j = choose|j: int|
                0 <= j < reports.len() && (#[trigger] reports[j]).group == reports[i].group
                    && reports[j].property == Some(name);
            assert(rows[j].labels == rows[i].labels);
            assert(is_on(reports[j], label, name));
        }
    }
    if (forall|i: int|
        0 <= i < rows.len() && (#[trigger] rows[i]).property == Some(name) && kept_labels(
            rows[i].labels,
            most_specific,
            scope,
        ).contains(label) ==> rows[i].info.required) && (forall|i: int|
        0 <= i < rows.len() && kept_labels(
            (#[trigger] rows[i]).labels,
            most_specific,
            scope,
        ).contains(label) ==> combination_requires(rows, rows[i].labels, name)) {
        assert forall|i: int|
            0 <= i < reports.len() && is_on(
                #[trigger] reports[i],
                label,
                name,
            ) implies reports[i].info.required by {
            assert(rows[i].property == Some(name));
        }
        assert forall|i: int|
            0 <= i < reports.len() && (#[trigger] reports[i]).entities.contains(
                label,
            ) implies group_has(reports, reports[i].group, name) by {
            assert(combination_requires(rows, rows[i].labels, name));
            let j = choose|j: int|
                0 <= j < rows.len() && (#[trigger] rows[j]).labels == rows[i].labels
                    && rows[j].property == Some(name) && rows[j].info.required;
            assert(reports[j].group == reports[i].group);
        }
    }
}

/// A property of a relationship type is required exactly if every row on it says
/// so.
pub proof fn law_rel_required_iff_always_required(
    table: PropTableView,
    rows: Seq<RelRowView>,
    scope: Option<Seq<Seq<char>>>,
    rel_type: Seq<char>,
    name: Seq<char>,
)
    requires
        tabulates(table, rel_reports(rows, scope)),
        cell(table, rel_type, name) is Some,
    ensures
        cell(table, rel_type, name)->0.required <==> forall|i: int|
            0 <= i < rows.len() && (#[trigger] rows[i]).rel_type == rel_type && rows[i].property
                == Some(name) ==> rows[i].info.required,
{
    let reports = rel_reports(rows, scope);
    law_listed_iff_reported(table, reports, rel_type, name);
    let i = choose|i: int| 0 <= i < reports.len() && is_on(#[trigger] reports[i], rel_type, name);
    assert(rows[i].rel_type == rel_type && rel_type_admitted(scope, rel_type));
    lemma_rel_type_throughout(rows, scope, i, name);
    law_required_iff_always_present(table, reports, rel_type, name);
    assert forall|k: int| 0 <= k < rows.len() implies (is_on(#[trigger] reports[k], rel_type, name)
        <==> rows[k].rel_type == rel_type && rows[k].property == Some(name)) by {
        if rows[k].rel_type == rel_type {
            assert(reports[k].entities[0] == rel_type);
        }
    }
    if forall|k: int|
        0 <= k < rows.len() && (#[trigger] rows[k]).rel_type == rel_type && rows[k].property
            == Some(name) ==> rows[k].info.required {
        assert forall|k: int|
            0 <= k < reports.len() && is_on(
                #[trigger] reports[k],
                rel_type,
                name,
            ) implies reports[k].info.required by {
            assert(rows[k].rel_type == rel_type);
        }
    }
    if cell(table, rel_type, name)->0.required {
        assert forall|k: int|
            0 <= k < rows.len() && (#[trigger] rows[k]).rel_type == rel_type && rows[k].property
                == Some(name) implies rows[k].info.required by {
            assert(is_on(reports[k], rel_type, name));
        }
    }
}

/// The types of a property are those that any report on it gives.
pub proof fn law_types_are_those_reported(infos: Seq<PropInfoView>, name: Seq<char>)
    requires
        infos.len() > 0,
    ensures
        merged(infos)->0.types.contains(name) <==> exists|i: int|
            0 <= i < infos.len() && (#[trigger] infos[i]).types.contains(name),
    decreases infos.len(),
{
    let rest = infos.drop_last();
    assert(infos[infos.len() - 1] == infos.last());
    if rest.len() > 0 {
        law_types_are_those_reported(rest, name);
        lemma_united(merged(rest)->0.types, infos.last().types);
        if exists|i: int| 0 <= i < rest.len() && (#[trigger] rest[i]).types.contains(name) {
            let i = choose|i: int| 0 <= i < rest.len() && (#[trigger] rest[i]).types.contains(name);
            assert(infos[i].types.contains(name));
        }
        if exists|i: int| 0 <= i < infos.len() && (#[trigger] infos[i]).types.contains(name) {
            let i = choose|i: int|
                0 <= i < infos.len() && (#[trigger] infos[i]).types.contains(name);
            if i < rest.len() {
                assert(rest[i].types.contains(name));
            }
        }
    }
}

/// The types of the first report on a property stay first, in their order.
pub proof fn law_first_types_stay_first(infos: Seq<PropInfoView>)
    requires
        infos.len() > 0,
    ensures
        infos[0].types.is_prefix_of(merged(infos)->0.types),
    decreases infos.len(),
{
    let rest = infos.drop_last();
    if rest.len() > 0 {
        law_first_types_stay_first(rest);
        lemma_united(merged(rest)->0.types, infos.last().types);
        let (a, b, c) = (infos[0].types, merged(rest)->0.types, merged(infos)->0.types);
        assert forall|i: int| 0 <= i < a.len() implies a[i] == c[i] by {
            assert(a[i] == b.subrange(0, a.len() as int)[i]);
            assert(b[i] == c.subrange(0, b.len() as int)[i]);
        }
        assert(a =~= c.subrange(0, a.len() as int));
    } else {
        assert(infos[0].types =~= merged(infos)->0.types.subrange(0, infos[0].types.len() as int));
    }
}

/// There is one table only that the reports make.
pub proof fn law_reports_determine_table(
    a: PropTableView,
    b: PropTableView,
    reports: Seq<Report>,
)
    requires
        tabulates(a, reports),
        tabulates(b, reports),
    ensures
        a == b,
{
    assert forall|entity: Seq<char>| #[trigger] lookup(a, entity) == lookup(b, entity) by {
        lemma_same_cells(a, b, reports, entity);
    }
    law_contents_determine_entries(a, b);
}

proof fn lemma_same_cells(
    a: PropTableView,
    b: PropTableView,
    reports: Seq<Report>,
    entity: Seq<char>,
)
    requires
        tabulates(a, reports),
        tabulates(b, reports),
    ensures
        lookup(a, entity) == lookup(b, entity),
{
    assert forall|name: Seq<char>| #[trigger] cell(a, entity, name) == cell(b, entity, name) by {}
    if lookup(a, entity) is Some {
        let props = lookup(a, entity)->0;
        lemma_lookup_entry(props, 0);
        assert(cell(a, entity, props[0].0) == cell(b, entity, props[0].0));
    }
    if lookup(b, entity) is Some {
        let props = lookup(b, entity)->0;
        lemma_lookup_entry(props, 0);
        assert(cell(a, entity, props[0].0) == cell(b, entity, props[0].0));
    }
    if lookup(a, entity) is Some {
        let (p, q) = (lookup(a, entity)->0, lookup(b, entity)->0);
        assert forall|name: Seq<char>| #[trigger] lookup(p, name) == lookup(q, name) by {
            assert(cell(a, entity, name) == cell(b, entity, name));
        }
        law_contents_determine_entries(p, q);
    }
}

/// What a table says of a property stands in the entry of the label or
/// relationship type, in the entry of the name; what stands there it says.
pub proof fn law_cells_are_the_entries(
    table: PropTableView,
    entity: Seq<char>,
    name: Seq<char>,
    info: PropInfoView,
)
    requires
        tidy(table),
    ensures
        cell(table, entity, name) == Some(info) <==> exists|i: int, j: int|
            0 <= i < table.len() && 0 <= j < table[i].1.len() && table[i].0 == entity
                && #[trigger] table[i].1[j] == (name, info),
{
    if cell(table, entity, name) == Some(info) {
        let props = lookup(table, entity)->0;
        law_lookup_finds_the_entry(table, entity, props);
        law_lookup_finds_the_entry(props, name, info);
        let i = choose|i: int| 0 <= i < table.len() && table[i] == (entity, props);
        let j = choose|j: int| 0 <= j < props.len() && props[j] == (name, info);
        assert(table[i].1[j] == (name, info));
    }
    if exists|i: int, j: int|
        0 <= i < table.len() && 0 <= j < table[i].1.len() && table[i].0 == entity
            && #[trigger] table[i].1[j] == (name, info) {
        let (i, j) = choose|i: int, j: int|
            0 <= i < table.len() && 0 <= j < table[i].1.len() && table[i].0 == entity
                && #[trigger] table[i].1[j] == (name, info);
        lemma_lookup_entry(table, i);
        lemma_lookup_entry(table[i].1, j);
    }
}

proof fn lemma_reported_types(
    reports: Seq<Report>,
    entity: Seq<char>,
    name: Seq<char>,
    given: Seq<char>,
)
    ensures
        (exists|k: int|
            0 <= k < reported(reports, entity, name).len() && (#[trigger] reported(
                reports,
                entity,
                name,
            )[k]).types.contains(given)) <==> (exists|i: int|
            0 <= i < reports.len() && is_on(#[trigger] reports[i], entity, name)
                && reports[i].info.types.contains(given)),
    decreases reports.len(),
{
    if reports.len() > 0 {
        let rest = reports.drop_last();
        lemma_reported_types(rest, entity, name, given);
        let earlier = reported(rest, entity, name);
        let infos = reported(reports, entity, name);
        assert(forall|i: int| 0 <= i < rest.len() ==> rest[i] == reports[i]);
        assert(reports[reports.len() - 1] == reports.last());
        if exists|k: int| 0 <= k < infos.len() && (#[trigger] infos[k]).types.contains(given) {
            let k = choose|k: int|
                0 <= k < infos.len() && (#[trigger] infos[k]).types.contains(given);
            if k < earlier.len() {
                assert(earlier[k].types.contains(given));
                let i = choose|i: int|
                    0 <= i < rest.len() && is_on(#[trigger] rest[i], entity, name)
                        && rest[i].info.types.contains(given);
                assert(is_on(reports[i], entity, name));
            } else {
                assert(is_on(reports[reports.len() - 1], entity, name));
            }
        }
        if exists|i: int|
            0 <= i < reports.len() && is_on(#[trigger] reports[i], entity, name)
                && reports[i].info.types.contains(given) {
            let i = choose|i: int|
                0 <= i < reports.len() && is_on(#[trigger] reports[i], entity, name)
                    && reports[i].info.types.contains(given);
            if i < rest.len() {
                assert(is_on(rest[i], entity, name));
                let k = choose|k: int|
                    0 <= k < earlier.len() && (#[trigger] earlier[k]).types.contains(given);
                assert(infos[k].types.contains(given));
            } else {
                assert(infos[earlier.len() as int].types.contains(given));
            }
        }
    }
}

proof fn lemma_first_reported(
    reports: Seq<Report>,
    entity: Seq<char>,
    name: Seq<char>,
    first: int,
)
    requires
        0 <= first < reports.len(),
        is_on(reports[first], entity, name),
        forall|i: int| 0 <= i < first ==> !is_on(#[trigger] reports[i], entity, name),
    ensures
        reported(reports, entity, name).len() > 0,
        reported(reports, entity, name)[0] == reports[first].info,
    decreases reports.len(),
{
    let rest = reports.drop_last();
    if first < rest.len() {
        assert(forall|i: int| 0 <= i < rest.len() ==> rest[i] == reports[i]);
        lemma_first_reported(rest, entity, name, first);
    } else {
        lemma_reported_some(rest, entity, name);
        assert(forall|i: int| 0 <= i < rest.len() ==> rest[i] == reports[i]);
        assert(reported(rest, entity, name).len() == 0);
    }
}

/// What the table says of the types of a property, report by report.
proof fn lemma_cell_types(
    table: PropTableView,
    reports: Seq<Report>,
    entity: Seq<char>,
    name: Seq<char>,
    given: Seq<char>,
)
    requires
        tabulates(table, reports),
        cell(table, entity, name) is Some,
    ensures
        cell(table, entity, name)->0.types.contains(given) <==> exists|i: int|
            0 <= i < reports.len() && is_on(#[trigger] reports[i], entity, name)
                && reports[i].info.types.contains(given),
{
    assert(cell(table, entity, name) == summed_up(reports, entity, name));
    law_types_are_those_reported(reported(reports, entity, name), given);
    lemma_reported_types(reports, entity, name, given);
}

/// Whether the row names the property.
pub open spec fn row_names(row: NodeRow, name: Seq<char>) -> bool {
    row.property matches Some(property) && property@ == name
}

/// Whether the row counts for the label: it lists it, in the last place if only
/// the most specific label counts, and the label is among the names of the scope,
/// if it has a limit.
pub open spec fn row_counts_for(
    row: NodeRow,
    most_specific: bool,
    scope: Scope,
    label: Seq<char>,
) -> bool {
    &&& exists|k: int|
        0 <= k < row.labels@.len() && (#[trigger] row.labels@[k])@ == label && (most_specific ==> k
            == row.labels@.len() - 1)
    &&& scope@ matches Some(names) ==> names.contains(label)
}

/// Whether some row with these labels calls the property required.
pub open spec fn some_row_requires(
    rows: Vec<NodeRow>,
    labels: Vec<String>,
    name: Seq<char>,
) -> bool {
    exists|j: int|
        0 <= j < rows@.len() && (#[trigger] rows@[j]).labels.deep_view() == labels.deep_view()
            && row_names(rows@[j], name) && rows@[j].required
}

proof fn lemma_row_report(
    rows: Vec<NodeRow>,
    most_specific: bool,
    scope: Scope,
    i: int,
    label: Seq<char>,
    name: Seq<char>,
)
    requires
        0 <= i < rows@.len(),
    ensures
        ({
            let report = node_reports(rows.deep_view(), most_specific, scope@)[i];
            let row = rows@[i];
            &&& report.entities.contains(label) <==> row_counts_for(
                row,
                most_specific,
                scope,
                label,
            )
            &&& is_on(report, label, name) <==> row_counts_for(row, most_specific, scope, label)
                && row_names(row, name)
            &&& report.property == Some(name) <==> row_names(row, name)
            &&& report.info.types == type_names(row.types)
            &&& report.info.required == row.required
            &&& report.group == row.labels.deep_view()
        }),
{
    let row = rows@[i];
    assert(rows.deep_view()[i] == row.deep_view());
    let labels = row.labels.deep_view();
    let candidates = if most_specific && labels.len() > 0 {
        seq![labels.last()]
    } else {
        labels
    };
    lemma_kept(candidates, scope@, label);
    if candidates.contains(label) {
        let k = choose|k: int| 0 <= k < candidates.len() && candidates[k] == label;
        let place = if most_specific { labels.len() - 1 } else { k };
        assert(row.labels@[place]@ == label);
    }
    if exists|k: int|
        0 <= k < row.labels@.len() && (#[trigger] row.labels@[k])@ == label && (most_specific ==> k
            == row.labels@.len() - 1) {
        let k = choose|k: int|
            0 <= k < row.labels@.len() && (#[trigger] row.labels@[k])@ == label && (most_specific
                ==> k == row.labels@.len() - 1);
        assert(labels[k] == label);
        assert(candidates[if most_specific { 0 } else { k }] == label);
    }
}

/// The node table lists a property of a label exactly if a row that counts for the
/// label names it. Its types are those that such rows list themselves, each once.
/// It is required exactly if all these rows say so and no label combination that
/// counts for the label is without such a row.
pub proof fn law_node_cells_say_what_the_rows_say(
    rows: Vec<NodeRow>,
    most_specific: bool,
    scope: Scope,
    table: PropTable,
    label: Seq<char>,
    name: Seq<char>,
    given: Seq<char>,
)
    requires
        call_ensures(collect_node_props, (&rows, most_specific, &scope), table),
    ensures
        cell(table@, label, name) is Some <==> exists|i: int|
            0 <= i < rows@.len() && row_counts_for(#[trigger] rows@[i], most_specific, scope, label)
                && row_names(rows@[i], name),
        cell(table@, label, name) matches Some(info) ==> {
            &&& info.types.contains(given) <==> exists|i: int|
                0 <= i < rows@.len() && row_counts_for(
                    #[trigger] rows@[i],
                    most_specific,
                    scope,
                    label,
                ) && row_names(rows@[i], name) && type_names(rows@[i].types).contains(given)
            &&& info.types.no_duplicates()
            &&& info.required <==> (forall|i: int|
                0 <= i < rows@.len() && row_counts_for(
                    #[trigger] rows@[i],
                    most_specific,
                    scope,
                    label,
                ) && row_names(rows@[i], name) ==> rows@[i].required) && (forall|i: int|
                0 <= i < rows@.len() && row_counts_for(
                    #[trigger] rows@[i],
                    most_specific,
                    scope,
                    label,
                ) ==> some_row_requires(rows, rows@[i].labels, name))
        },
{
    let reports = node_reports(rows.deep_view(), most_specific, scope@);
    assert(tabulates(table@, reports) && types_distinct(table@));
    assert forall|i: int| 0 <= i < rows@.len() implies ({
        &&& is_on(#[trigger] reports[i], label, name) <==> row_counts_for(
            rows@[i],
            most_specific,
            scope,
            label,
        ) && row_names(rows@[i], name)
        &&& reports[i].entities.contains(label) <==> row_counts_for(
            rows@[i],
            most_specific,
            scope,
            label,
        )
        &&& reports[i].property == Some(name) <==> row_names(rows@[i], name)
        &&& reports[i].info.types == type_names(rows@[i].types)
        &&& reports[i].info.required == rows@[i].required
        &&& reports[i].group == rows@[i].labels.deep_view()
    }) by {
        lemma_row_report(rows, most_specific, scope, i, label, name);
    }
    law_listed_iff_reported(table@, reports, label, name);
    assert((exists|i: int| 0 <= i < reports.len() && is_on(#[trigger] reports[i], label, name))
        <==> exists|i: int|
        0 <= i < rows@.len() && row_counts_for(#[trigger] rows@[i], most_specific, scope, label)
            && row_names(rows@[i], name)) by {
        if exists|i: int|
            0 <= i < rows@.len() && row_counts_for(#[trigger] rows@[i], most_specific, scope, label)
                && row_names(rows@[i], name) {
            let i = choose|i: int|
                0 <= i < rows@.len() && row_counts_for(
                    #[trigger] rows@[i],
                    most_specific,
                    scope,
                    label,
                ) && row_names(rows@[i], name);
            assert(is_on(reports[i], label, name));
        }
        if exists|i: int| 0 <= i < reports.len() && is_on(#[trigger] reports[i], label, name) {
            let i = choose|i: int|
                0 <= i < reports.len() && is_on(#[trigger] reports[i], label, name);
            assert(row_names(rows@[i], name));
        }
    }
    if cell(table@, label, name) is Some {
        lemma_node_types(rows, most_specific, scope, table, label, name, given);
        lemma_node_required(rows, most_specific, scope, table, label, name);
    }
}

proof fn lemma_node_types(
    rows: Vec<NodeRow>,
    most_specific: bool,
    scope: Scope,
    table: PropTable,
    label: Seq<char>,
    name: Seq<char>,
    given: Seq<char>,
)
    requires
        tabulates(table@, node_reports(rows.deep_view(), most_specific, scope@)),
        cell(table@, label, name) is Some,
    ensures
        cell(table@, label, name)->0.types.contains(given) <==> exists|i: int|
            0 <= i < rows@.len() && row_counts_for(#[trigger] rows@[i], most_specific, scope, label)
                && row_names(rows@[i], name) && type_names(rows@[i].types).contains(given),
{
    let reports = node_reports(rows.deep_view(), most_specific, scope@);
    lemma_cell_types(table@, reports, label, name, given);
    if cell(table@, label, name)->0.types.contains(given) {
        let i = choose|i: int|
            0 <= i < reports.len() && is_on(#[trigger] reports[i], label, name)
                && reports[i].info.types.contains(given);
        lemma_row_report(rows, most_specific, scope, i, label, name);
        assert(row_names(rows@[i], name));
    }
    if exists|i: int|
        0 <= i < rows@.len() && row_counts_for(#[trigger] rows@[i], most_specific, scope, label)
            && row_names(rows@[i], name) && type_names(rows@[i].types).contains(given) {
        let i = choose|i: int|
            0 <= i < rows@.len() && row_counts_for(#[trigger] rows@[i], most_specific, scope, label)
                && row_names(rows@[i], name) && type_names(rows@[i].types).contains(given);
        lemma_row_report(rows, most_specific, scope, i, label, name);
        assert(is_on(reports[i], label, name));
    }
}

proof fn lemma_node_required(
    rows: Vec<NodeRow>,
    most_specific: bool,
    scope: Scope,
    table: PropTable,
    label: Seq<char>,
    name: Seq<char>,
)
    requires
        tabulates(table@, node_reports(rows.deep_view(), most_specific, scope@)),
        cell(table@, label, name) is Some,
    ensures
        cell(table@, label, name)->0.required <==> (forall|i: int|
            0 <= i < rows@.len() && row_counts_for(#[trigger] rows@[i], most_specific, scope, label)
                && row_names(rows@[i], name) ==> rows@[i].required) && (forall|i: int|
            0 <= i < rows@.len() && row_counts_for(#[trigger] rows@[i], most_specific, scope, label)
                ==> some_row_requires(rows, rows@[i].labels, name)),
{
    let reports = node_reports(rows.deep_view(), most_specific, scope@);
    law_required_iff_always_present(table@, reports, label, name);
    if cell(table@, label, name)->0.required {
        assert forall|i: int|
            0 <= i < rows@.len() && row_counts_for(
                #[trigger] rows@[i],
                most_specific,
                scope,
                label,
            ) && row_names(rows@[i], name) implies rows@[i].required by {
            lemma_row_report(rows, most_specific, scope, i, label, name);
            assert(is_on(reports[i], label, name));
        }
        assert forall|i: int|
            0 <= i < rows@.len() && row_counts_for(
                #[trigger] rows@[i],
                most_specific,
                scope,
                label,
            ) implies some_row_requires(rows, rows@[i].labels, name) by {
            lemma_row_report(rows, most_specific, scope, i, label, name);
            assert(reports[i].entities.contains(label));
            assert(group_has(reports, reports[i].group, name));
            let j = choose|j: int|
                0 <= j < reports.len() && (#[trigger] reports[j]).group == reports[i].group
                    && reports[j].property == Some(name);
            lemma_row_report(rows, most_specific, scope, j, label, name);
            assert(reports[j].entities == reports[i].entities);
            assert(is_on(reports[j], label, name));
            assert(rows@[j].required);
        }
    }
    if (forall|i: int|
        0 <= i < rows@.len() && row_counts_for(#[trigger] rows@[i], most_specific, scope, label)
            && row_names(rows@[i], name) ==> rows@[i].required) && (forall|i: int|
        0 <= i < rows@.len() && row_counts_for(#[trigger] rows@[i], most_specific, scope, label)
            ==> some_row_requires(rows, rows@[i].labels, name)) {
        assert forall|i: int|
            0 <= i < reports.len() && is_on(
                #[trigger] reports[i],
                label,
                name,
            ) implies reports[i].info.required by {
            lemma_row_report(rows, most_specific, scope, i, label, name);
            assert(rows@[i].required);
        }
        assert forall|i: int|
            0 <= i < reports.len() && (#[trigger] reports[i]).entities.contains(
                label,
            ) implies group_has(reports, reports[i].group, name) by {
            lemma_row_report(rows, most_specific, scope, i, label, name);
            assert(some_row_requires(rows, rows@[i].labels, name));
            let j = choose|j: int|
                0 <= j < rows@.len() && (#[trigger] rows@[j]).labels.deep_view()
                    == rows@[i].labels.deep_view() && row_names(rows@[j], name)
                    && rows@[j].required;
            lemma_row_report(rows, most_specific, scope, j, label, name);
            assert(reports[j].group == reports[i].group);
        }
    }
}

/// The types of the first row on a property of a label come first, in their order.
pub proof fn law_first_row_gives_the_first_types(
    rows: Vec<NodeRow>,
    most_specific: bool,
    scope: Scope,
    table: PropTable,
    label: Seq<char>,
    name: Seq<char>,
    first: int,
)
    requires
        call_ensures(collect_node_props, (&rows, most_specific, &scope), table),
        0 <= first < rows@.len(),
        row_counts_for(rows@[first], most_specific, scope, label),
        row_names(rows@[first], name),
        forall|i: int|
            0 <= i < first ==> !(row_counts_for(#[trigger] rows@[i], most_specific, scope, label)
                && row_names(rows@[i], name)),
    ensures
        cell(table@, label, name) matches Some(info) && type_names(
            rows@[first].types,
        ).is_prefix_of(info.types),
{
    let reports = node_reports(rows.deep_view(), most_specific, scope@);
    lemma_row_report(rows, most_specific, scope, first, label, name);
    assert forall|i: int| 0 <= i < first implies !is_on(#[trigger] reports[i], label, name) by {
        lemma_row_report(rows, most_specific, scope, i, label, name);
        assert(!(row_counts_for(rows@[i], most_specific, scope, label) && row_names(
            rows@[i],
            name,
        )));
    }
    lemma_first_reported(reports, label, name, first);
    law_first_types_stay_first(reported(reports, label, name));
    assert(cell(table@, label, name) == summed_up(reports, label, name));
}

/// One more row appends its own new types, in their order, to those of the
/// properties that it is on, and changes no other types.
pub proof fn law_one_more_node_row(
    rows: Vec<NodeRow>,
    row: NodeRow,
    more: Vec<NodeRow>,
    most_specific: bool,
    scope: Scope,
    table: PropTable,
    grown: PropTable,
    label: Seq<char>,
    name: Seq<char>,
)
    requires
        more@ == rows@.push(row),
        type_names(row.types).no_duplicates(),
        call_ensures(collect_node_props, (&rows, most_specific, &scope), table),
        call_ensures(collect_node_props, (&more, most_specific, &scope), grown),
    ensures
        if row_counts_for(row, most_specific, scope, label) && row_names(row, name) {
            let known = match cell(table@, label, name) {
                Some(info) => info.types,
                None => seq![],
            };
            cell(grown@, label, name) matches Some(info) && info.types == known + type_names(
                row.types,
            ).filter(|given: Seq<char>| !known.contains(given))
        } else {
            match (cell(table@, label, name), cell(grown@, label, name)) {
                (Some(a), Some(b)) => a.types == b.types,
                (None, None) => true,
                _ => false,
            }
        },
{
    let reports = node_reports(rows.deep_view(), most_specific, scope@);
    let all = node_reports(more.deep_view(), most_specific, scope@);
    assert(all.drop_last() =~= reports) by {
        assert forall|i: int| 0 <= i < reports.len() implies all[i] == reports[i] by {
            assert(more@[i] == rows@[i]);
        }
    }
    lemma_row_report(more, most_specific, scope, rows@.len() as int, label, name);
    lemma_one_more_report(table@, grown@, all, label, name);
}

proof fn lemma_one_more_report(
    table: PropTableView,
    grown: PropTableView,
    all: Seq<Report>,
    entity: Seq<char>,
    name: Seq<char>,
)
    requires
        all.len() > 0,
        all.last().info.types.no_duplicates(),
        tabulates(table, all.drop_last()),
        tabulates(grown, all),
    ensures
        if is_on(all.last(), entity, name) {
            let known = match cell(table, entity, name) {
                Some(info) => info.types,
                None => seq![],
            };
            cell(grown, entity, name) matches Some(info) && info.types == known
                + all.last().info.types.filter(|given: Seq<char>| !known.contains(given))
        } else {
            match (cell(table, entity, name), cell(grown, entity, name)) {
                (Some(a), Some(b)) => a.types == b.types,
                (None, None) => true,
                _ => false,
            }
        },
{
    assert(cell(table, entity, name) == summed_up(all.drop_last(), entity, name));
    assert(cell(grown, entity, name) == summed_up(all, entity, name));
    let infos = reported(all, entity, name);
    let earlier = reported(all.drop_last(), entity, name);
    if is_on(all.last(), entity, name) {
        assert(infos.drop_last() =~= earlier);
        let types = all.last().info.types;
        match merged(earlier) {
            Some(info) => {
                law_united_appends_what_is_new(info.types, types);
            },
            None => {
                let known = Seq::<Seq<char>>::empty();
                law_united_appends_what_is_new(known, types);
                lemma_all_pass(types, |given: Seq<char>| !known.contains(given));
                assert(known + types =~= types);
            },
        }
    }
}

/// Whether the row counts for the relationship type: it is on it, and the type is
/// among the names of the scope, bare or quoted, if it has a limit.
pub open spec fn rel_row_counts_for(row: RelRow, scope: Scope, rel_type: Seq<char>) -> bool {
    &&& row.rel_type@ == rel_type
    &&& scope@ matches Some(names) ==> names.contains(rel_type) || exists|k: int|
        0 <= k < names.len() && rel_type == ":`"@ + #[trigger] names[k] + "`"@
}

/// Whether the row counts for the relationship type and names the property.
pub open spec fn rel_row_is_on(
    row: RelRow,
    scope: Scope,
    rel_type: Seq<char>,
    name: Seq<char>,
) -> bool {
    rel_row_counts_for(row, scope, rel_type) && (row.property matches Some(property) && property@
        == name)
}

proof fn lemma_rel_row_report(
    rows: Vec<RelRow>,
    scope: Scope,
    i: int,
    rel_type: Seq<char>,
    name: Seq<char>,
)
    requires
        0 <= i < rows@.len(),
    ensures
        ({
            let report = rel_reports(rows.deep_view(), scope@)[i];
            &&& is_on(report, rel_type, name) <==> rel_row_is_on(rows@[i], scope, rel_type, name)
            &&& report.info.types == type_names(rows@[i].types)
            &&& report.info.required == rows@[i].required
        }),
{
    let row = rows@[i];
    assert(rows.deep_view()[i] == row.deep_view());
    let report = rel_reports(rows.deep_view(), scope@)[i];
    if rel_type_admitted(scope@, row.rel_type@) {
        assert(report.entities[0] == row.rel_type@);
        if scope@ is Some {
            let names = scope@->0;
            let k = choose|k: int|
                0 <= k < names.len() && (row.rel_type@ == #[trigger] names[k] || row.rel_type@
                    == quoted_rel_type(names[k]));
            assert(names.contains(names[k]));
        }
    }
    if rel_row_counts_for(row, scope, rel_type) && scope@ is Some {
        let names = scope@->0;
        if names.contains(rel_type) {
            let k = choose|k: int| 0 <= k < names.len() && names[k] == rel_type;
            assert(rel_type == names[k]);
        } else {
            let k = choose|k: int|
                0 <= k < names.len() && rel_type == ":`"@ + #[trigger] names[k] + "`"@;
            assert(rel_type == quoted_rel_type(names[k]));
        }
    }
}

/// The relationship table lists a property of a type exactly if a row that counts
/// for the type names it. Its types are those that such rows list themselves, each
/// once. It is required exactly if all these rows say so.
pub proof fn law_rel_cells_say_what_the_rows_say(
    rows: Vec<RelRow>,
    scope: Scope,
    table: PropTable,
    rel_type: Seq<char>,
    name: Seq<char>,
    given: Seq<char>,
)
    requires
        call_ensures(collect_rel_props, (&rows, &scope), table),
    ensures
        cell(table@, rel_type, name) is Some <==> exists|i: int|
            0 <= i < rows@.len() && rel_row_is_on(#[trigger] rows@[i], scope, rel_type, name),
        cell(table@, rel_type, name) matches Some(info) ==> {
            &&& info.types.contains(given) <==> exists|i: int|
                0 <= i < rows@.len() && rel_row_is_on(#[trigger] rows@[i], scope, rel_type, name)
                    && type_names(rows@[i].types).contains(given)
            &&& info.types.no_duplicates()
            &&& info.required <==> forall|i: int|
                0 <= i < rows@.len() && rel_row_is_on(#[trigger] rows@[i], scope, rel_type, name)
                    ==> rows@[i].required
        },
{
    let reports = rel_reports(rows.deep_view(), scope@);
    assert(tabulates(table@, reports) && types_distinct(table@));
    assert forall|i: int| 0 <= i < rows@.len() implies ({
        &&& is_on(#[trigger] reports[i], rel_type, name) <==> rel_row_is_on(
            rows@[i],
            scope,
            rel_type,
            name,
        )
        &&& reports[i].info.types == type_names(rows@[i].types)
        &&& reports[i].info.required == rows@[i].required
    }) by {
        lemma_rel_row_report(rows, scope, i, rel_type, name);
    }
    law_listed_iff_reported(table@, reports, rel_type, name);
    if exists|i: int|
        0 <= i < rows@.len() && rel_row_is_on(#[trigger] rows@[i], scope, rel_type, name) {
        let i = choose|i: int|
            0 <= i < rows@.len() && rel_row_is_on(#[trigger] rows@[i], scope, rel_type, name);
        assert(is_on(reports[i], rel_type, name));
    }
    if cell(table@, rel_type, name) is Some {
        let info = cell(table@, rel_type, name)->0;
        let first = choose|i: int|
            0 <= i < reports.len() && is_on(#[trigger] reports[i], rel_type, name);
        assert(rel_row_is_on(rows@[first], scope, rel_type, name));
        assert(rows.deep_view()[first] == rows@[first].deep_view());
        lemma_rel_type_throughout(rows.deep_view(), scope@, first, name);
        law_required_iff_always_present(table@, reports, rel_type, name);
        lemma_cell_types(table@, reports, rel_type, name, given);
        if info.types.contains(given) {
            let i = choose|i: int|
                0 <= i < reports.len() && is_on(#[trigger] reports[i], rel_type, name)
                    && reports[i].info.types.contains(given);
            assert(rel_row_is_on(rows@[i], scope, rel_type, name));
        }
        if exists|i: int|
            0 <= i < rows@.len() && rel_row_is_on(#[trigger] rows@[i], scope, rel_type, name)
                && type_names(rows@[i].types).contains(given) {
            let i = choose|i: int|
                0 <= i < rows@.len() && rel_row_is_on(#[trigger] rows@[i], scope, rel_type, name)
                    && type_names(rows@[i].types).contains(given);
            assert(is_on(reports[i], rel_type, name));
        }
        if info.required {
            assert forall|i: int|
                0 <= i < rows@.len() && rel_row_is_on(
                    #[trigger] rows@[i],
                    scope,
                    rel_type,
                    name,
                ) implies rows@[i].required by {
                assert(is_on(reports[i], rel_type, name));
            }
        }
        if forall|i: int|
            0 <= i < rows@.len() && rel_row_is_on(#[trigger] rows@[i], scope, rel_type, name)
                ==> rows@[i].required {
            assert forall|i: int|
                0 <= i < reports.len() && is_on(
                    #[trigger] reports[i],
                    rel_type,
                    name,
                ) implies reports[i].info.required by {
                assert(rel_row_is_on(rows@[i], scope, rel_type, name));
            }
        }
    }
}

/// One more row appends its own new types, in their order, to those of the
/// property that it is on, and changes no other types.
pub proof fn law_one_more_rel_row(
    rows: Vec<RelRow>,
    row: RelRow,
    more: Vec<RelRow>,
    scope: Scope,
    table: PropTable,
    grown: PropTable,
    rel_type: Seq<char>,
    name: Seq<char>,
)
    requires
        more@ == rows@.push(row),
        type_names(row.types).no_duplicates(),
        call_ensures(collect_rel_props, (&rows, &scope), table),
        call_ensures(collect_rel_props, (&more, &scope), grown),
    ensures
        if rel_row_is_on(row, scope, rel_type, name) {
            let known = match cell(table@, rel_type, name) {
                Some(info) => info.types,
                None => seq![],
            };
            cell(grown@, rel_type, name) matches Some(info) && info.types == known + type_names(
                row.types,
            ).filter(|given: Seq<char>| !known.contains(given))
        } else {
            match (cell(table@, rel_type, name), cell(grown@, rel_type, name)) {
                (Some(a), Some(b)) => a.types == b.types,
                (None, None) => true,
                _ => false,
            }
        },
{
    let reports = rel_reports(rows.deep_view(), scope@);
    let all = rel_reports(more.deep_view(), scope@);
    assert(all.drop_last() =~= reports) by {
        assert forall|i: int| 0 <= i < reports.len() implies all[i] == reports[i] by {
            assert(more@[i] == rows@[i]);
        }
    }
    lemma_rel_row_report(more, scope, rows@.len() as int, rel_type, name);
    lemma_one_more_report(table@, grown@, all, rel_type, name);
}

/// The entries of both tables go up by their names, and so do the properties in
/// them, of which there is at least one in every entry.
pub proof fn law_tables_go_by_name(
    node_rows: Vec<NodeRow>,
    most_specific: bool,
    node_scope: Scope,
    nodes: PropTable,
    rel_rows: Vec<RelRow>,
    rel_scope: Scope,
    rels: PropTable,
    i: int,
)
    requires
        call_ensures(collect_node_props, (&node_rows, most_specific, &node_scope), nodes),
        call_ensures(collect_rel_props, (&rel_rows, &rel_scope), rels),
    ensures
        0 <= i < nodes@.len() ==> nodes@[i].1.len() > 0,
        0 <= i < rels@.len() ==> rels@[i].1.len() > 0,
        0 <= i < nodes@.len() - 1 ==> before(nodes@[i].0, nodes@[i + 1].0),
        0 <= i < rels@.len() - 1 ==> before(rels@[i].0, rels@[i + 1].0),
        0 <= i < nodes@.len() ==> forall|j: int, k: int|
            0 <= j < k < nodes@[i].1.len() ==> before(
                (#[trigger] nodes@[i].1[j]).0,
                (#[trigger] nodes@[i].1[k]).0,
            ),
        0 <= i < rels@.len() ==> forall|j: int, k: int|
            0 <= j < k < rels@[i].1.len() ==> before(
                (#[trigger] rels@[i].1[j]).0,
                (#[trigger] rels@[i].1[k]).0,
            ),
{
    assert(tidy(nodes@) && tidy(rels@));
    if 0 <= i < nodes@.len() {
        lemma_lookup_entry(nodes@, i);
    }
    if 0 <= i < rels@.len() {
        lemma_lookup_entry(rels@, i);
    }
}

/// What an information says, and a copy of it, is what it holds.
pub proof fn law_infos_say_what_they_hold(info: PropInfo, copy: PropInfo)
    requires
        call_ensures(PropInfo::clone, (&info,), copy),
    ensures
        info.deep_view().types == type_names(info.types),
        info.deep_view().required == info.required,
        type_names(copy.types) == type_names(info.types),
        copy.required == info.required,
{
    assert(copy.deep_view() == info.deep_view());
}

} // verus!
