//! The edge patterns of the graph: which labels which relationships connect.

use vstd::prelude::*;

use crate::order::{
    before, law_before_is_irreflexive, law_before_is_total, law_before_is_transitive, place, Place,
};
use crate::ordered_map::{keyed, lookup};
use crate::resolve::{Section, SectionView};
use crate::scope::{admitted, Scope};
use crate::text::{join, joined, lemma_all_pass, lemma_filtered};

verus! {

/// A directed edge pattern: start labels, relationship type, end labels.
pub type PatternView = (Seq<char>, Seq<char>, Seq<char>);

/// Whether pattern `p` stands strictly before `q`: by the start labels, then the
/// relationship type, then the end labels.
pub open spec fn pattern_before(p: PatternView, q: PatternView) -> bool {
    ||| before(p.0, q.0)
    ||| p.0 == q.0 && before(p.1, q.1)
    ||| p.0 == q.0 && p.1 == q.1 && before(p.2, q.2)
}

/// Whether the patterns go up strictly.
pub open spec fn patterns_ordered(patterns: Seq<PatternView>) -> bool {
    forall|i: int, j: int|
        #![trigger patterns[i], patterns[j]]
        0 <= i < j < patterns.len() ==> pattern_before(patterns[i], patterns[j])
}

/// No pattern stands before itself.
pub proof fn law_pattern_before_is_irreflexive(p: PatternView)
    ensures
        !pattern_before(p, p),
{
    law_before_is_irreflexive(p.0);
    law_before_is_irreflexive(p.1);
    law_before_is_irreflexive(p.2);
}

/// A pattern before a second one, which is before a third one, is before the
/// third.
pub proof fn law_pattern_before_is_transitive(p: PatternView, q: PatternView, r: PatternView)
    requires
        pattern_before(p, q),
        pattern_before(q, r),
    ensures
        pattern_before(p, r),
{
    if before(p.0, q.0) && before(q.0, r.0) {
        law_before_is_transitive(p.0, q.0, r.0);
    } else if p.0 == q.0 && q.0 == r.0 {
        if before(p.1, q.1) && before(q.1, r.1) {
            law_before_is_transitive(p.1, q.1, r.1);
        } else if p.1 == q.1 && q.1 == r.1 {
            if before(p.2, q.2) && before(q.2, r.2) {
                law_before_is_transitive(p.2, q.2, r.2);
            }
        }
    }
}

/// Of two different patterns exactly one stands before the other.
pub proof fn law_pattern_before_is_total(p: PatternView, q: PatternView)
    requires
        p != q,
    ensures
        pattern_before(p, q) != pattern_before(q, p),
{
    law_before_is_irreflexive(p.0);
    law_before_is_irreflexive(p.1);
    if p.0 != q.0 {
        law_before_is_total(p.0, q.0);
    } else if p.1 != q.1 {
        law_before_is_total(p.1, q.1);
    } else {
        law_before_is_total(p.2, q.2);
    }
}

/// Ordered patterns are determined by which patterns are among them.
pub proof fn law_members_determine_patterns(a: Seq<PatternView>, b: Seq<PatternView>)
    requires
        patterns_ordered(a),
        patterns_ordered(b),
        forall|p: PatternView| #[trigger] a.contains(p) <==> b.contains(p),
    ensures
        a == b,
    decreases a.len(),
{
    if a.len() > 0 {
        let (x, y) = (a.last(), b.last());
        assert(a[a.len() - 1] == x);
        assert(a.contains(x));
        assert(b.contains(x));
        let j = choose|j: int| 0 <= j < b.len() && b[j] == x;
        assert(b[b.len() - 1] == y);
        assert(b.contains(y));
        assert(a.contains(y));
        let i = choose|i: int| 0 <= i < a.len() && a[i] == y;
        assert(x == y) by {
            if i < a.len() - 1 && j < b.len() - 1 {
                assert(pattern_before(a[i], a[a.len() - 1]));
                assert(pattern_before(b[j], b[b.len() - 1]));
                law_pattern_before_is_transitive(x, y, x);
                law_pattern_before_is_irreflexive(x);
            }
        }
        assert forall|p: PatternView| #[trigger]
            a.drop_last().contains(p) <==> b.drop_last().contains(p) by {
            lemma_drop_greatest(a, p);
            lemma_drop_greatest(b, p);
            assert(a.contains(p) <==> b.contains(p));
        }
        law_members_determine_patterns(a.drop_last(), b.drop_last());
        assert(a =~= a.drop_last().push(x));
        assert(b =~= b.drop_last().push(y));
    } else if b.len() > 0 {
        assert(b.contains(b[0]));
        assert(a.contains(b[0]));
    }
}

proof fn lemma_drop_greatest(a: Seq<PatternView>, p: PatternView)
    requires
        patterns_ordered(a),
        a.len() > 0,
    ensures
        patterns_ordered(a.drop_last()),
        a.drop_last().contains(p) <==> a.contains(p) && p != a.last(),
{
    let rest = a.drop_last();
    assert(forall|i: int| 0 <= i < rest.len() ==> rest[i] == a[i]);
    if rest.contains(p) {
        let i = choose|i: int| 0 <= i < rest.len() && rest[i] == p;
        assert(a[i] == p);
        assert(pattern_before(a[i], a[a.len() - 1]));
        law_pattern_before_is_irreflexive(p);
    }
    if a.contains(p) && p != a.last() {
        let i = choose|i: int| 0 <= i < a.len() && a[i] == p;
        assert(rest[i] == p);
    }
}

/// A set of edge patterns that lists them in order.
pub struct PatternSet {
    items: Vec<(String, String, String)>,
}

spec fn triples(items: Seq<(String, String, String)>) -> Seq<PatternView> {
    Seq::new(items.len(), |i: int| (items[i].0@, items[i].1@, items[i].2@))
}

/// The patterns in their order.
impl View for PatternSet {
    type V = Seq<PatternView>;

    closed spec fn view(&self) -> Seq<PatternView> {
        triples(self.items@)
    }
}

/// Finds where a pattern stands with respect to another one.
fn place_pattern(a: &(String, String, String), b: &(String, String, String)) -> (found: Place)
    ensures
        ({
            let p = (a.0@, a.1@, a.2@);
            let q = (b.0@, b.1@, b.2@);
            match found {
                Place::Before => pattern_before(p, q),
                Place::Same => p == q,
                Place::After => pattern_before(q, p),
            }
        }),
{
    match place(a.0.as_str(), b.0.as_str()) {
        Place::Before => Place::Before,
        Place::After => Place::After,
        Place::Same => match place(a.1.as_str(), b.1.as_str()) {
            Place::Before => Place::Before,
            Place::After => Place::After,
            Place::Same => place(a.2.as_str(), b.2.as_str()),
        },
    }
}

impl PatternSet {
    /// The patterns go up strictly.
    #[verifier::type_invariant]
    pub open spec fn well_formed(self) -> bool {
        patterns_ordered(self@)
    }

    /// A set without patterns.
    pub fn new() -> (set: PatternSet)
        ensures
            set@ == Seq::<PatternView>::empty(),
    {
        let set = PatternSet { items: Vec::new() };
        assert(set@ =~= Seq::<PatternView>::empty());
        set
    }

    /// The number of patterns.
    pub fn len(&self) -> (len: usize)
        ensures
            len == self@.len(),
    {
        self.items.len()
    }

    /// Pattern `i`.
    pub fn pattern(&self, i: usize) -> (pattern: &(String, String, String))
        requires
            i < self@.len(),
        ensures
            (pattern.0@, pattern.1@, pattern.2@) == self@[i as int],
    {
        &self.items[i]
    }

    /// Puts a pattern into the set.
    pub fn insert(&mut self, pattern: (String, String, String))
        ensures
            patterns_ordered(final(self)@),
            forall|p: PatternView| #[trigger]
                final(self)@.contains(p) <==> old(self)@.contains(p) || p == (
                    pattern.0@,
                    pattern.1@,
                    pattern.2@,
                ),
    {
        proof {
            use_type_invariant(&*self);
        }
        let mut items: Vec<(String, String, String)> = Vec::new();
        std::mem::swap(&mut items, &mut self.items);
        let ghost all = triples(items@);
        let ghost new = (pattern.0@, pattern.1@, pattern.2@);
        let (i, found) = seek(&items, &pattern);
        if found {
            assert(all[i as int] == new);
        } else {
            items.insert(i, pattern);
            proof {
                assert(triples(items@) =~= all.insert(i as int, new));
                lemma_insert(all, i as int, new);
            }
        }
        self.items = items;
    }
}

/// Finds the place of a pattern: all before it are smaller. The second component
/// says whether the pattern is there; if not, all from there on are greater.
fn seek(
    items: &Vec<(String, String, String)>,
    pattern: &(String, String, String),
) -> (found: (usize, bool))
    requires
        patterns_ordered(triples(items@)),
    ensures
        ({
            let all = triples(items@);
            let p = (pattern.0@, pattern.1@, pattern.2@);
            &&& found.0 <= all.len()
            &&& forall|j: int| 0 <= j < found.0 ==> pattern_before(#[trigger] all[j], p)
            &&& found.1 ==> found.0 < all.len() && all[found.0 as int] == p
            &&& !found.1 ==> forall|j: int|
                found.0 <= j < all.len() ==> pattern_before(p, #[trigger] all[j])
        }),
{
    let ghost all = triples(items@);
    let ghost p = (pattern.0@, pattern.1@, pattern.2@);
    let mut low: usize = 0;
    let mut high: usize = items.len();
    while low < high
        invariant
            all == triples(items@),
            p == (pattern.0@, pattern.1@, pattern.2@),
            patterns_ordered(all),
            low <= high <= all.len(),
            forall|j: int| 0 <= j < low ==> pattern_before(#[trigger] all[j], p),
            forall|j: int| high <= j < all.len() ==> pattern_before(p, #[trigger] all[j]),
        decreases high - low,
    {
        let middle: usize = low + (high - low) / 2;
        let ghost m = all[middle as int];
        match place_pattern(&items[middle], pattern) {
            Place::Before => {
                assert forall|j: int| 0 <= j < middle + 1 implies pattern_before(
                    #[trigger] all[j],
                    p,
                ) by {
                    if j < middle {
                        assert(pattern_before(all[j], m));
                        law_pattern_before_is_transitive(all[j], m, p);
                    }
                }
                low = middle + 1;
            },
            Place::Same => {
                assert(all[middle as int] == p);
                return (middle, true);
            },
            Place::After => {
                assert forall|j: int| middle <= j < all.len() implies pattern_before(
                    p,
                    #[trigger] all[j],
                ) by {
                    if middle < j {
                        assert(pattern_before(m, all[j]));
                        law_pattern_before_is_transitive(p, m, all[j]);
                    }
                }
                high = middle;
            },
        }
    }
    (low, false)
}

/// Inserting a pattern at its place keeps the order and adds it only.
proof fn lemma_insert(all: Seq<PatternView>, i: int, new: PatternView)
    requires
        patterns_ordered(all),
        0 <= i <= all.len(),
        forall|j: int| 0 <= j < i ==> pattern_before(#[trigger] all[j], new),
        forall|j: int| i <= j < all.len() ==> pattern_before(new, #[trigger] all[j]),
    ensures
        patterns_ordered(all.insert(i, new)),
        forall|p: PatternView| #[trigger]
            all.insert(i, new).contains(p) <==> all.contains(p) || p == new,
{
    let grown = all.insert(i, new);
    assert(grown[i] == new);
    assert forall|a: int, b: int|
        #![trigger grown[a], grown[b]]
        0 <= a < b < grown.len() implies pattern_before(grown[a], grown[b]) by {
        let oa = if a < i { a } else { a - 1 };
        let ob = if b < i { b } else { b - 1 };
        if a != i {
            assert(grown[a] == all[oa]);
        }
        if b != i {
            assert(grown[b] == all[ob]);
        }
    }
    assert forall|p: PatternView| #[trigger]
        grown.contains(p) <==> all.contains(p) || p == new by {
        if grown.contains(p) && p != new {
            let a = choose|a: int| 0 <= a < grown.len() && grown[a] == p;
            assert(all[if a < i { a } else { a - 1 }] == p);
        }
        if all.contains(p) {
            let a = choose|a: int| 0 <= a < all.len() && all[a] == p;
            assert(grown[if a < i { a } else { a + 1 }] == p);
        }
    }
}

/// A row of `db.schema.visualization()`: a relationship and the labels at its
/// ends.
#[derive(Debug)]
pub struct PatternRow {
    /// The labels of the start node.
    pub start: Vec<String>,
    /// The relationship type, bare.
    pub rel: String,
    /// The labels of the end node.
    pub end: Vec<String>,
}

/// What a [`PatternRow`] says.
pub struct PatternRowView {
    pub start: Seq<Seq<char>>,
    pub rel: Seq<char>,
    pub end: Seq<Seq<char>>,
}

impl DeepView for PatternRow {
    type V = PatternRowView;

    open spec fn deep_view(&self) -> PatternRowView {
        PatternRowView { start: self.start.deep_view(), rel: self.rel@, end: self.end.deep_view() }
    }
}

/// Whether a label may stand in a pattern: it is in scope, and it is among the
/// documented labels if patterns are limited to these.
pub open spec fn label_stands(
    nodes: Option<SectionView>,
    scope: Option<Seq<Seq<char>>>,
    label: Seq<char>,
) -> bool {
    &&& nodes is Some ==> lookup(nodes->0, label) is Some
    &&& admitted(scope, label)
}

/// The labels of an end that may stand in a pattern, in their order.
pub open spec fn standing(
    nodes: Option<SectionView>,
    scope: Option<Seq<Seq<char>>>,
    labels: Seq<Seq<char>>,
) -> Seq<Seq<char>> {
    labels.filter(|label: Seq<char>| label_stands(nodes, scope, label))
}

/// The pattern that a row gives, if its type is in scope and both ends have
/// labels that may stand in it.
pub open spec fn pattern_of(
    row: PatternRowView,
    nodes: Option<SectionView>,
    node_scope: Option<Seq<Seq<char>>>,
    rel_scope: Option<Seq<Seq<char>>>,
) -> Option<PatternView> {
    let start = standing(nodes, node_scope, row.start);
    let end = standing(nodes, node_scope, row.end);
    if start.len() > 0 && end.len() > 0 && admitted(rel_scope, row.rel) {
        Some((joined(start, ":"@), row.rel, joined(end, ":"@)))
    } else {
        None
    }
}

/// Collects the labels of an end that may stand in a pattern.
fn keep_standing(labels: &Vec<String>, nodes: Option<&Section>, scope: &Scope) -> (kept: Vec<
    String,
>)
    ensures
        kept.deep_view() == standing(nodes.deep_view(), scope@, labels.deep_view()),
{
    let ghost all = labels.deep_view();
    let ghost stands = |label: Seq<char>| label_stands(nodes.deep_view(), scope@, label);
    let mut kept: Vec<String> = Vec::new();
    let mut i: usize = 0;
    assert(all.take(0) =~= seq![]);
    reveal(Seq::filter);
    while i < labels.len()
        invariant
            i <= labels.len(),
            all == labels.deep_view(),
            stands == (|label: Seq<char>| label_stands(nodes.deep_view(), scope@, label)),
            kept.deep_view() == all.take(i as int).filter(stands),
        decreases labels.len() - i,
    {
        let ghost done = kept.deep_view();
        assert(all.take(i + 1).drop_last() =~= all.take(i as int));
        assert(all.take(i + 1).last() == labels@[i as int]@);
        reveal(Seq::filter);
        let documented = match nodes {
            Some(nodes) => nodes.contains_key(labels[i].as_str()),
            None => true,
        };
        if documented && scope.admits(labels[i].as_str()) {
            kept.push(labels[i].clone());
            assert(kept.deep_view() =~= done.push(labels@[i as int]@));
        }
        i += 1;
    }
    assert(all.take(i as int) =~= all);
    kept
}

/// Collects the edge patterns that describe the topology of the graph.
///
/// If `nodes` is given, only labels that it lists stand in the patterns.
pub fn collect_patterns(
    rows: &Vec<PatternRow>,
    nodes: Option<&Section>,
    node_scope: &Scope,
    rel_scope: &Scope,
) -> (patterns: PatternSet)
    ensures
        patterns_ordered(patterns@),
        forall|p: PatternView| #[trigger]
            patterns@.contains(p) <==> exists|i: int|
                0 <= i < rows@.len() && pattern_of(
                    #[trigger] rows.deep_view()[i],
                    nodes.deep_view(),
                    node_scope@,
                    rel_scope@,
                ) == Some(p),
{
    let mut patterns = PatternSet::new();
    let mut i: usize = 0;
    while i < rows.len()
        invariant
            i <= rows.len(),
            patterns_ordered(patterns@),
            forall|p: PatternView| #[trigger]
                patterns@.contains(p) <==> exists|j: int|
                    0 <= j < i && pattern_of(
                        #[trigger] rows.deep_view()[j],
                        nodes.deep_view(),
                        node_scope@,
                        rel_scope@,
                    ) == Some(p),
        decreases rows.len() - i,
    {
        let row = &rows[i];
        let ghost known = patterns@;
        let ghost given = pattern_of(
            rows.deep_view()[i as int],
            nodes.deep_view(),
            node_scope@,
            rel_scope@,
        );
        let start = keep_standing(&row.start, nodes, node_scope);
        let end = keep_standing(&row.end, nodes, node_scope);
        if start.len() > 0 && end.len() > 0 && rel_scope.admits(row.rel.as_str()) {
            patterns.insert((join(&start, ":"), row.rel.clone(), join(&end, ":")));
        }
        proof {
            assert forall|p: PatternView| #[trigger] patterns@.contains(p) <==> exists|j: int|
                0 <= j < i + 1 && pattern_of(
                    #[trigger] rows.deep_view()[j],
                    nodes.deep_view(),
                    node_scope@,
                    rel_scope@,
                ) == Some(p) by {
                assert(patterns@.contains(p) <==> known.contains(p) || given == Some(p));
            }
        }
        i += 1;
    }
    patterns
}

/// Both ends of every pattern consist of labels in scope, at least one at each,
/// which are documented if patterns are limited to documented labels.
pub proof fn law_ends_are_in_scope(
    row: PatternRowView,
    nodes: Option<SectionView>,
    node_scope: Option<Seq<Seq<char>>>,
    rel_scope: Option<Seq<Seq<char>>>,
    pattern: PatternView,
    label: Seq<char>,
)
    requires
        pattern_of(row, nodes, node_scope, rel_scope) == Some(pattern),
    ensures
        admitted(rel_scope, pattern.1),
        standing(nodes, node_scope, row.start).len() > 0,
        standing(nodes, node_scope, row.end).len() > 0,
        pattern.0 == joined(standing(nodes, node_scope, row.start), ":"@),
        pattern.2 == joined(standing(nodes, node_scope, row.end), ":"@),
        standing(nodes, node_scope, row.start).contains(label) <==> row.start.contains(label)
            && label_stands(nodes, node_scope, label),
        standing(nodes, node_scope, row.end).contains(label) <==> row.end.contains(label)
            && label_stands(nodes, node_scope, label),
{
    let stands = |label: Seq<char>| label_stands(nodes, node_scope, label);
    lemma_filtered(row.start, stands, label);
    lemma_filtered(row.end, stands, label);
}

/// Without limits a row whose ends have labels gives the pattern of all of them.
pub proof fn law_unlimited_pattern_has_all_labels(row: PatternRowView)
    requires
        row.start.len() > 0,
        row.end.len() > 0,
    ensures
        pattern_of(row, None, None, None) == Some(
            (joined(row.start, ":"@), row.rel, joined(row.end, ":"@)),
        ),
{
    lemma_all_pass(row.start, |label: Seq<char>| label_stands(None, None, label));
    lemma_all_pass(row.end, |label: Seq<char>| label_stands(None, None, label));
}

/// Whether a label is a key of the documented nodes, if patterns are limited to
/// these, and among the names of the scope, if it has a limit.
pub open spec fn may_stand(nodes: Option<&Section>, scope: Scope, label: Seq<char>) -> bool {
    &&& nodes matches Some(nodes) ==> exists|k: int|
        0 <= k < nodes@.len() && (#[trigger] nodes@[k]).0 == label
    &&& scope@ matches Some(names) ==> names.contains(label)
}

/// Whether one of the labels may stand in a pattern.
pub open spec fn some_may_stand(
    nodes: Option<&Section>,
    scope: Scope,
    labels: Vec<String>,
) -> bool {
    exists|k: int| 0 <= k < labels@.len() && may_stand(nodes, scope, (#[trigger] labels@[k])@)
}

/// Whether the text is made of the labels that may stand in a pattern, all of them
/// in their order, with colons between.
pub open spec fn is_end_of(
    end: Seq<char>,
    nodes: Option<&Section>,
    scope: Scope,
    labels: Vec<String>,
) -> bool {
    end == joined(
        labels.deep_view().filter(|label: Seq<char>| may_stand(nodes, scope, label)),
        ":"@,
    )
}

proof fn lemma_end(nodes: Option<&Section>, scope: Scope, labels: Vec<String>)
    ensures
        standing(nodes.deep_view(), scope@, labels.deep_view()).len() > 0 <==> some_may_stand(
            nodes,
            scope,
            labels,
        ),
        is_end_of(
            joined(standing(nodes.deep_view(), scope@, labels.deep_view()), ":"@),
            nodes,
            scope,
            labels,
        ),
{
    let all = labels.deep_view();
    let stands = |label: Seq<char>| label_stands(nodes.deep_view(), scope@, label);
    let may = |label: Seq<char>| may_stand(nodes, scope, label);
    assert forall|label: Seq<char>| #[trigger] stands(label) == may(label) by {
        if let Some(section) = nodes {
            if exists|k: int| 0 <= k < section@.len() && (#[trigger] section@[k]).0 == label {
                let k = choose|k: int|
                    0 <= k < section@.len() && (#[trigger] section@[k]).0 == label;
                assert(keyed(section@, label, k));
            }
            if lookup(section@, label) is Some {
                let k = choose|k: int| keyed(section@, label, k);
                assert(section@[k].0 == label);
            }
        }
    }
    assert(stands =~= may);
    let kept = all.filter(stands);
    if kept.len() > 0 {
        lemma_filtered(all, stands, kept[0]);
        assert(kept.contains(kept[0]));
        let k = choose|k: int| 0 <= k < all.len() && all[k] == kept[0];
        assert(may(kept[0]));
        assert(may_stand(nodes, scope, labels@[k]@));
    }
    if some_may_stand(nodes, scope, labels) {
        let k = choose|k: int|
            0 <= k < labels@.len() && may_stand(nodes, scope, (#[trigger] labels@[k])@);
        assert(all[k] == labels@[k]@);
        assert(may(all[k]));
        lemma_filtered(all, stands, all[k]);
    }
}

/// Whether a row gives that pattern: a label that may stand in it is at each end,
/// its type is in scope, and the pattern has that type and, at each end, all
/// labels that may stand there.
pub open spec fn row_gives(
    row: PatternRow,
    nodes: Option<&Section>,
    node_scope: Scope,
    rel_scope: Scope,
    p: PatternView,
) -> bool {
    &&& some_may_stand(nodes, node_scope, row.start)
    &&& some_may_stand(nodes, node_scope, row.end)
    &&& rel_scope@ matches Some(names) ==> names.contains(row.rel@)
    &&& is_end_of(p.0, nodes, node_scope, row.start)
    &&& p.1 == row.rel@
    &&& is_end_of(p.2, nodes, node_scope, row.end)
}

/// The patterns are those that the rows give, and every row that can give one
/// does.
pub proof fn law_rows_give_their_patterns(
    rows: Vec<PatternRow>,
    nodes: Option<&Section>,
    node_scope: Scope,
    rel_scope: Scope,
    patterns: PatternSet,
    p: PatternView,
)
    requires
        call_ensures(collect_patterns, (&rows, nodes, &node_scope, &rel_scope), patterns),
    ensures
        patterns@.contains(p) <==> exists|i: int|
            0 <= i < rows@.len() && row_gives(
                #[trigger] rows@[i],
                nodes,
                node_scope,
                rel_scope,
                p,
            ),
{
    assert forall|i: int| 0 <= i < rows@.len() implies (pattern_of(
        #[trigger] rows.deep_view()[i],
        nodes.deep_view(),
        node_scope@,
        rel_scope@,
    ) == Some(p) <==> row_gives(rows@[i], nodes, node_scope, rel_scope, p)) by {
        assert(rows.deep_view()[i] == rows@[i].deep_view());
        lemma_end(nodes, node_scope, rows@[i].start);
        lemma_end(nodes, node_scope, rows@[i].end);
    }
    if patterns@.contains(p) {
        let i = choose|i: int|
            0 <= i < rows@.len() && pattern_of(
                #[trigger] rows.deep_view()[i],
                nodes.deep_view(),
                node_scope@,
                rel_scope@,
            ) == Some(p);
        assert(row_gives(rows@[i], nodes, node_scope, rel_scope, p));
    }
    if exists|i: int|
        0 <= i < rows@.len() && row_gives(#[trigger] rows@[i], nodes, node_scope, rel_scope, p) {
        let i = choose|i: int|
            0 <= i < rows@.len() && row_gives(
                #[trigger] rows@[i],
                nodes,
                node_scope,
                rel_scope,
                p,
            );
        assert(pattern_of(
            rows.deep_view()[i],
            nodes.deep_view(),
            node_scope@,
            rel_scope@,
        ) == Some(p));
    }
}

/// The patterns go up by the start labels; those with the same start labels by the
/// type; those with the same type too by the end labels; and none comes twice.
pub proof fn law_patterns_go_up(
    rows: Vec<PatternRow>,
    nodes: Option<&Section>,
    node_scope: Scope,
    rel_scope: Scope,
    patterns: PatternSet,
    i: int,
    j: int,
)
    requires
        call_ensures(collect_patterns, (&rows, nodes, &node_scope, &rel_scope), patterns),
        0 <= i < j < patterns@.len(),
    ensures
        patterns@[i] != patterns@[j],
        !before(patterns@[j].0, patterns@[i].0),
        patterns@[i].0 == patterns@[j].0 ==> !before(patterns@[j].1, patterns@[i].1),
        patterns@[i].0 == patterns@[j].0 && patterns@[i].1 == patterns@[j].1 ==> before(
            patterns@[i].2,
            patterns@[j].2,
        ),
{
    let (p, q) = (patterns@[i], patterns@[j]);
    assert(pattern_before(p, q));
    law_pattern_before_is_irreflexive(p);
    law_before_is_irreflexive(p.0);
    law_before_is_irreflexive(p.1);
    if before(q.0, p.0) && before(p.0, q.0) {
        law_before_is_transitive(p.0, q.0, p.0);
    }
    if before(q.1, p.1) && before(p.1, q.1) {
        law_before_is_transitive(p.1, q.1, p.1);
    }
}

} // verus!
