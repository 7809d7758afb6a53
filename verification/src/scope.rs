//! Which labels or relationship types a run looks at.

use vstd::prelude::*;

use crate::text::{
    contains_text, joined, law_joined_part_by_part, law_split_is_unique, lemma_some_reading,
    same_text, split,
};

verus! {

/// The relationship type text that the schema procedures report for a name.
pub open spec fn quoted_rel_type(name: Seq<char>) -> Seq<char> {
    ":`"@ + name + "`"@
}

/// The names that a run is limited to, or no limit.
pub struct Scope {
    names: Option<Vec<String>>,
}

/// The names of the limit, if there is one.
impl View for Scope {
    type V = Option<Seq<Seq<char>>>;

    closed spec fn view(&self) -> Option<Seq<Seq<char>>> {
        match self.names {
            Some(names) => Some(names.deep_view()),
            None => None,
        }
    }
}

/// Whether the limit, if there is one, holds the name.
pub open spec fn admitted(scope: Option<Seq<Seq<char>>>, name: Seq<char>) -> bool {
    scope is Some ==> scope->0.contains(name)
}

/// Whether the limit, if there is one, holds the name that a reported
/// relationship type spells, bare or quoted.
pub open spec fn rel_type_admitted(scope: Option<Seq<Seq<char>>>, rel_type: Seq<char>) -> bool {
    scope is Some ==> exists|i: int|
        0 <= i < scope->0.len() && (rel_type == #[trigger] scope->0[i] || rel_type
            == quoted_rel_type(scope->0[i]))
}

impl Scope {
    /// No limit.
    pub fn everything() -> (scope: Scope)
        ensures
            scope@ is None,
    {
        Scope { names: None }
    }

    /// The limit to the names of a colon-separated list.
    pub fn of_list(list: &str) -> (scope: Scope)
        ensures
            scope@ is Some,
            scope@->0.len() > 0,
            joined(scope@->0, seq![':']) == list@,
            forall|i: int|
                0 <= i < scope@->0.len() ==> !(#[trigger] scope@->0[i]).contains(':'),
    {
        Scope { names: Some(split(list, ':')) }
    }

    /// Whether the scope holds a name.
    pub fn admits(&self, name: &str) -> (held: bool)
        ensures
            held == admitted(self@, name@),
    {
        match &self.names {
            None => true,
            Some(names) => contains_text(names, name),
        }
    }

    /// Whether the scope holds the name that a reported relationship type spells.
    pub fn admits_rel_type(&self, rel_type: &str) -> (held: bool)
        ensures
            held == rel_type_admitted(self@, rel_type@),
    {
        match &self.names {
            None => true,
            Some(names) => {
                let mut i: usize = 0;
                while i < names.len()
                    invariant
                        self@ == Some(names.deep_view()),
                        i <= names.len(),
                        forall|j: int|
                            0 <= j < i ==> rel_type@ != #[trigger] names.deep_view()[j] && rel_type@
                                != quoted_rel_type(names.deep_view()[j]),
                    decreases names.len() - i,
                {
                    let quoted = ":`".to_owned().concat(names[i].as_str()).concat("`");
                    if same_text(rel_type, names[i].as_str()) || same_text(
                        rel_type,
                        quoted.as_str(),
                    ) {
                        assert(self@->0[i as int] == names@[i as int]@);
                        return true;
                    }
                    i += 1;
                }
                false
            },
        }
    }
}

/// Whether a name without colons is between two colons of the list, its ends
/// counted as such.
pub open spec fn listed(list: Seq<char>, name: Seq<char>) -> bool {
    &&& !name.contains(':')
    &&& exists|pre: Seq<char>, post: Seq<char>|
        list == #[trigger] (pre + name + post) && (pre.len() == 0 || pre.last() == ':') && (
        post.len() == 0 || post.first() == ':')
}

proof fn lemma_pieces_are_listed(pieces: Seq<Seq<char>>, name: Seq<char>)
    requires
        pieces.len() > 0,
        forall|i: int| 0 <= i < pieces.len() ==> !(#[trigger] pieces[i]).contains(':'),
    ensures
        pieces.contains(name) <==> listed(joined(pieces, seq![':']), name),
{
    let s = seq![':'];
    let list = joined(pieces, s);
    if pieces.contains(name) {
        let i = choose|i: int| 0 <= i < pieces.len() && pieces[i] == name;
        let (a, b) = (pieces.take(i), pieces.skip(i + 1));
        let tail = seq![name] + b;
        assert(pieces =~= a + tail);
        law_joined_part_by_part(seq![name], b, s);
        law_joined_part_by_part(a, tail, s);
        assert(a.len() == 0 ==> a + tail =~= tail);
        assert(b.len() == 0 ==> tail =~= seq![name]);
        let pre = if a.len() == 0 { seq![] } else { joined(a, s) + s };
        let post = if b.len() == 0 { seq![] } else { s + joined(b, s) };
        assert(list =~= pre + name + post);
    }
    if listed(list, name) {
        let (pre, post) = choose|pre: Seq<char>, post: Seq<char>|
            list == #[trigger] (pre + name + post) && (pre.len() == 0 || pre.last() == ':') && (
            post.len() == 0 || post.first() == ':');
        let a = if pre.len() == 0 { seq![] } else { lemma_some_reading(pre.drop_last(), ':') };
        let b = if post.len() == 0 { seq![] } else { lemma_some_reading(post.drop_first(), ':') };
        let tail = seq![name] + b;
        let all = a + tail;
        law_joined_part_by_part(seq![name], b, s);
        law_joined_part_by_part(a, tail, s);
        assert(a.len() == 0 ==> all =~= tail);
        assert(b.len() == 0 ==> tail =~= seq![name]);
        assert(pre.len() > 0 ==> pre =~= pre.drop_last() + s);
        assert(post.len() > 0 ==> post =~= s + post.drop_first());
        assert(joined(all, s) =~= list);
        law_split_is_unique(pieces, all, ':');
        assert(all[a.len() as int] == name);
    }
}

/// The scope of a list holds the names between its colons, and of relationship
/// types these names, bare or quoted; nothing else.
pub proof fn law_scopes_hold_the_listed_names(
    list: &str,
    scope: Scope,
    name: &str,
    held: bool,
    rel_held: bool,
)
    requires
        call_ensures(Scope::of_list, (list,), scope),
        call_ensures(Scope::admits, (&scope, name), held),
        call_ensures(Scope::admits_rel_type, (&scope, name), rel_held),
    ensures
        held <==> listed(list@, name@),
        rel_held <==> listed(list@, name@) || exists|bare: Seq<char>|
            #![trigger listed(list@, bare)]
            listed(list@, bare) && name@ == ":`"@ + bare + "`"@,
{
    let pieces = scope@->0;
    lemma_pieces_are_listed(pieces, name@);
    if rel_held {
        let i = choose|i: int|
            0 <= i < pieces.len() && (name@ == #[trigger] pieces[i] || name@ == quoted_rel_type(
                pieces[i],
            ));
        lemma_pieces_are_listed(pieces, pieces[i]);
        assert(pieces.contains(pieces[i]));
    }
    if exists|bare: Seq<char>|
        #![trigger listed(list@, bare)]
        listed(list@, bare) && name@ == ":`"@ + bare + "`"@ {
        let bare = choose|bare: Seq<char>|
            #![trigger listed(list@, bare)]
            listed(list@, bare) && name@ == ":`"@ + bare + "`"@;
        lemma_pieces_are_listed(pieces, bare);
        let i = choose|i: int| 0 <= i < pieces.len() && pieces[i] == bare;
        assert(name@ == quoted_rel_type(pieces[i]));
    }
}

/// Without a limit every name is held.
pub proof fn law_no_limit_holds_everything(scope: Scope, name: &str, held: bool, rel_held: bool)
    requires
        call_ensures(Scope::everything, (), scope),
        call_ensures(Scope::admits, (&scope, name), held),
        call_ensures(Scope::admits_rel_type, (&scope, name), rel_held),
    ensures
        held,
        rel_held,
{
}

/// The names of a scope are those that it holds.
pub proof fn law_names_of_a_scope(scope: Scope, name: &str, held: bool, rel_held: bool)
    requires
        call_ensures(Scope::admits, (&scope, name), held),
        call_ensures(Scope::admits_rel_type, (&scope, name), rel_held),
    ensures
        held <==> scope@ is None || scope@->0.contains(name@),
        rel_held <==> held || exists|i: int|
            0 <= i < scope@->0.len() && name@ == ":`"@ + #[trigger] scope@->0[i] + "`"@,
{
    if scope@ is Some && scope@->0.contains(name@) {
        let i = choose|i: int| 0 <= i < scope@->0.len() && scope@->0[i] == name@;
        assert(name@ == scope@->0[i]);
    }
    if scope@ is Some && exists|i: int|
        0 <= i < scope@->0.len() && name@ == ":`"@ + #[trigger] scope@->0[i] + "`"@ {
        let i = choose|i: int|
            0 <= i < scope@->0.len() && name@ == ":`"@ + #[trigger] scope@->0[i] + "`"@;
        assert(name@ == quoted_rel_type(scope@->0[i]));
    }
}

} // verus!
