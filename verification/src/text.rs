//! Texts as sequences of characters: joining, splitting and comparing them.

use vstd::prelude::*;

use crate::order::{place, Place};

verus! {

/// The pieces one after the other, with `separator` between neighbours.
pub open spec fn joined(pieces: Seq<Seq<char>>, separator: Seq<char>) -> Seq<char>
    decreases pieces.len(),
{
    if pieces.len() == 0 {
        seq![]
    } else if pieces.len() == 1 {
        pieces[0]
    } else {
        joined(pieces.drop_last(), separator) + separator + pieces.last()
    }
}

/// A filtered sequence has the items that pass.
pub(crate) proof fn lemma_filtered(
    items: Seq<Seq<char>>,
    pass: spec_fn(Seq<char>) -> bool,
    item: Seq<char>,
)
    ensures
        items.filter(pass).contains(item) <==> items.contains(item) && pass(item),
    decreases items.len(),
{
    reveal(Seq::filter);
    if items.len() > 0 {
        let rest = items.drop_last();
        lemma_filtered(rest, pass, item);
        assert(items =~= rest.push(items.last()));
        broadcast use vstd::seq_lib::group_seq_properties;

    }
}

/// Filtering keeps a sequence all of whose items pass.
pub(crate) proof fn lemma_all_pass(items: Seq<Seq<char>>, pass: spec_fn(Seq<char>) -> bool)
    requires
        forall|item: Seq<char>| #[trigger] pass(item),
    ensures
        items.filter(pass) == items,
    decreases items.len(),
{
    reveal(Seq::filter);
    if items.len() > 0 {
        lemma_all_pass(items.drop_last(), pass);
        assert(pass(items.last()));
        assert(items =~= items.drop_last().push(items.last()));
    } else {
        assert(items.filter(pass) =~= items);
    }
}

/// The characters of a text.
pub fn characters(text: &str) -> (chars: Vec<char>)
    ensures
        chars@ == text@,
{
    let mut chars: Vec<char> = Vec::new();
    for c in it: text.chars()
        invariant
            chars@ == it.seq().take(it.index() as int),
            it.seq() == text@,
    {
        chars.push(c);
    }
    assert(chars@ =~= text@);
    chars
}

/// Whether two texts are the same.
pub fn same_text(a: &str, b: &str) -> (same: bool)
    ensures
        same == (a@ == b@),
{
    match place(a, b) {
        Place::Same => true,
        _ => false,
    }
}

/// Whether a text is among several.
pub fn contains_text(texts: &Vec<String>, text: &str) -> (found: bool)
    ensures
        found == texts.deep_view().contains(text@),
{
    let mut i: usize = 0;
    while i < texts.len()
        invariant
            i <= texts.len(),
            forall|j: int| 0 <= j < i ==> #[trigger] texts.deep_view()[j] != text@,
        decreases texts.len() - i,
    {
        if same_text(texts[i].as_str(), text) {
            assert(texts.deep_view()[i as int] == text@);
            return true;
        }
        i += 1;
    }
    false
}

/// Whether two lists hold the same texts in the same order.
pub fn same_texts(a: &Vec<String>, b: &Vec<String>) -> (same: bool)
    ensures
        same == (a.deep_view() == b.deep_view()),
{
    if a.len() != b.len() {
        assert(a.deep_view().len() != b.deep_view().len());
        return false;
    }
    let mut i: usize = 0;
    while i < a.len()
        invariant
            i <= a.len(),
            a@.len() == b@.len(),
            forall|j: int| 0 <= j < i ==> #[trigger] a.deep_view()[j] == b.deep_view()[j],
        decreases a.len() - i,
    {
        if !same_text(a[i].as_str(), b[i].as_str()) {
            assert(a.deep_view()[i as int] != b.deep_view()[i as int]);
            return false;
        }
        i += 1;
    }
    assert(a.deep_view() =~= b.deep_view());
    true
}

/// Whether `text` begins with `prefix`.
pub fn starts_with(text: &str, prefix: &str) -> (found: bool)
    ensures
        found == prefix@.is_prefix_of(text@),
{
    let whole = characters(text);
    let part = characters(prefix);
    if part.len() > whole.len() {
        return false;
    }
    let mut i: usize = 0;
    while i < part.len()
        invariant
            whole@ == text@,
            part@ == prefix@,
            i <= part.len() <= whole.len(),
            forall|j: int| 0 <= j < i ==> part@[j] == whole@[j],
        decreases part.len() - i,
    {
        if part[i] != whole[i] {
            assert(text@.subrange(0, prefix@.len() as int)[i as int] == whole@[i as int]);
            return false;
        }
        i += 1;
    }
    true
}

/// The text without `suffix` at its end, or nothing if it does not end so.
pub fn strip_suffix<'a>(text: &'a str, suffix: &str) -> (rest: Option<&'a str>)
    ensures
        match rest {
            Some(rest) => text@ == rest@ + suffix@,
            None => !suffix@.is_suffix_of(text@),
        },
{
    let whole = characters(text);
    let part = characters(suffix);
    if part.len() > whole.len() {
        return None;
    }
    let cut: usize = whole.len() - part.len();
    let mut i: usize = 0;
    while i < part.len()
        invariant
            whole@ == text@,
            part@ == suffix@,
            cut + part.len() == whole.len(),
            i <= part.len(),
            forall|j: int| 0 <= j < i ==> part@[j] == whole@[cut + j],
        decreases part.len() - i,
    {
        if part[i] != whole[cut + i] {
            assert(text@.subrange(cut as int, text@.len() as int)[i as int] == whole@[cut + i]);
            return None;
        }
        i += 1;
    }
    let rest = text.substring_char(0, cut);
    assert(text@ =~= rest@ + suffix@);
    Some(rest)
}

/// Joins the pieces, with `separator` between neighbours.
pub fn join(pieces: &Vec<String>, separator: &str) -> (text: String)
    ensures
        text@ == joined(pieces.deep_view(), separator@),
{
    let mut text = String::new();
    let mut i: usize = 0;
    while i < pieces.len()
        invariant
            i <= pieces.len(),
            text@ == joined(pieces.deep_view().take(i as int), separator@),
        decreases pieces.len() - i,
    {
        if i > 0 {
            text.append(separator);
        }
        text.append(pieces[i].as_str());
        assert(pieces.deep_view().take(i + 1).drop_last() =~= pieces.deep_view().take(i as int));
        assert(pieces.deep_view().take(i + 1).last() == pieces@[i as int]@);
        i += 1;
    }
    assert(pieces.deep_view().take(i as int) =~= pieces.deep_view());
    text
}

/// The pieces of `text` between the occurrences of `separator`.
pub fn split(text: &str, separator: char) -> (pieces: Vec<String>)
    ensures
        pieces@.len() > 0,
        joined(pieces.deep_view(), seq![separator]) == text@,
        forall|i: int|
            0 <= i < pieces@.len() ==> !(#[trigger] pieces.deep_view()[i]).contains(separator),
{
    let chars = characters(text);
    let mut pieces: Vec<String> = Vec::new();
    let mut start: usize = 0;
    let mut i: usize = 0;
    assert(text@.subrange(0, 0) =~= text@.take(0));
    while i < chars.len()
        invariant
            chars@ == text@,
            start <= i <= chars.len(),
            joined(
                pieces.deep_view().push(text@.subrange(start as int, i as int)),
                seq![separator],
            ) == text@.take(i as int),
            forall|j: int| start <= j < i ==> text@[j] != separator,
            forall|j: int|
                0 <= j < pieces@.len() ==> !(#[trigger] pieces.deep_view()[j]).contains(separator),
        decreases chars.len() - i,
    {
        let ghost done = pieces.deep_view();
        let ghost current = text@.subrange(start as int, i as int);
        assert(text@.take(i + 1) =~= text@.take(i as int).push(text@[i as int]));
        if chars[i] == separator {
            let piece = text.substring_char(start, i).to_owned();
            pieces.push(piece);
            start = i + 1;
            proof {
                let all = pieces.deep_view().push(text@.subrange(start as int, i + 1));
                assert(pieces.deep_view() =~= done.push(current));
                assert(all.drop_last() =~= done.push(current));
                assert(all.last() =~= seq![]);
                assert(joined(all, seq![separator]) =~= text@.take(i + 1));
            }
        } else {
            proof {
                let grown = text@.subrange(start as int, i + 1);
                assert(grown =~= current.push(text@[i as int]));
                assert(done.push(grown).drop_last() =~= done);
                assert(done.push(current).drop_last() =~= done);
                assert(joined(done.push(grown), seq![separator]) =~= joined(
                    done.push(current),
                    seq![separator],
                ).push(text@[i as int]));
            }
        }
        i += 1;
    }
    let ghost done = pieces.deep_view();
    let piece = text.substring_char(start, chars.len()).to_owned();
    pieces.push(piece);
    proof {
        assert(pieces.deep_view() =~= done.push(text@.subrange(start as int, i as int)));
        assert(text@.take(i as int) =~= text@);
    }
    pieces
}

/// A text has one reading only as pieces that are free of the separator.
pub proof fn law_split_is_unique(p: Seq<Seq<char>>, q: Seq<Seq<char>>, separator: char)
    requires
        p.len() > 0,
        q.len() > 0,
        joined(p, seq![separator]) == joined(q, seq![separator]),
        forall|i: int| 0 <= i < p.len() ==> !(#[trigger] p[i]).contains(separator),
        forall|i: int| 0 <= i < q.len() ==> !(#[trigger] q[i]).contains(separator),
    ensures
        p == q,
    decreases p.len(),
{
    let s = seq![separator];
    let text = joined(p, s);
    let a = p.last();
    let b = q.last();
    assert(a == p[p.len() - 1] && b == q[q.len() - 1]);
    lemma_ends_with_last(p, s);
    lemma_ends_with_last(q, s);
    lemma_last_no_longer(p, q, separator);
    lemma_last_no_longer(q, p, separator);
    assert(a =~= b) by {
        assert(forall|i: int| 0 <= i < a.len() ==> a[i] == text[text.len() - a.len() + i]);
        assert(forall|i: int| 0 <= i < b.len() ==> b[i] == text[text.len() - b.len() + i]);
    }
    if p.len() == 1 && q.len() == 1 {
        assert(p =~= q);
    } else if p.len() == 1 {
        assert(text.len() > b.len());
    } else if q.len() == 1 {
        assert(text.len() > a.len());
    } else {
        let (x, y) = (joined(p.drop_last(), s), joined(q.drop_last(), s));
        assert(x =~= text.take(text.len() - a.len() - 1));
        assert(y =~= text.take(text.len() - b.len() - 1));
        assert forall|i: int| 0 <= i < p.drop_last().len() implies !(
        #[trigger] p.drop_last()[i]).contains(separator) by {
            assert(p.drop_last()[i] == p[i]);
        }
        assert forall|i: int| 0 <= i < q.drop_last().len() implies !(
        #[trigger] q.drop_last()[i]).contains(separator) by {
            assert(q.drop_last()[i] == q[i]);
        }
        law_split_is_unique(p.drop_last(), q.drop_last(), separator);
        assert(p =~= p.drop_last().push(a));
        assert(q =~= q.drop_last().push(b));
    }
}

/// A joined text ends with its last piece, and the separator stands before it
/// if there is another piece.
proof fn lemma_ends_with_last(p: Seq<Seq<char>>, s: Seq<char>)
    requires
        p.len() > 0,
        s.len() == 1,
    ensures
        ({
            let text = joined(p, s);
            let a = p.last();
            &&& a.len() <= text.len()
            &&& forall|i: int| 0 <= i < a.len() ==> a[i] == text[text.len() - a.len() + i]
            &&& p.len() == 1 ==> text == a
            &&& p.len() > 1 ==> text.len() > a.len() && text[text.len() - a.len() - 1] == s[0]
        }),
{
}

/// A last piece that is free of the separator is no longer than the last piece
/// of another reading of the same text.
proof fn lemma_last_no_longer(p: Seq<Seq<char>>, q: Seq<Seq<char>>, separator: char)
    requires
        p.len() > 0,
        q.len() > 0,
        joined(p, seq![separator]) == joined(q, seq![separator]),
        !q.last().contains(separator),
    ensures
        q.last().len() <= p.last().len(),
{
    let text = joined(p, seq![separator]);
    lemma_ends_with_last(p, seq![separator]);
    lemma_ends_with_last(q, seq![separator]);
    if p.last().len() < q.last().len() {
        let k = q.last().len() - p.last().len() - 1;
        assert(q.last()[k] == text[text.len() - p.last().len() - 1]);
    }
}

/// Joined pieces are the joined first ones, the separator and the joined others; a
/// single piece stands for itself, and no piece for nothing.
pub proof fn law_joined_part_by_part(a: Seq<Seq<char>>, b: Seq<Seq<char>>, separator: Seq<char>)
    ensures
        joined(Seq::<Seq<char>>::empty(), separator) == Seq::<char>::empty(),
        a.len() == 1 ==> joined(a, separator) == a[0],
        a.len() > 0 && b.len() > 0 ==> joined(a + b, separator) == joined(a, separator) + separator
            + joined(b, separator),
    decreases b.len(),
{
    if a.len() > 0 && b.len() > 0 {
        assert((a + b).drop_last() =~= a + b.drop_last());
        assert((a + b).last() == b.last());
        if b.len() == 1 {
            assert(a + b.drop_last() =~= a);
        } else {
            law_joined_part_by_part(a, b.drop_last(), separator);
        }
        assert(joined(a + b, separator) =~= joined(a, separator) + separator + joined(
            b,
            separator,
        ));
    }
}

/// Joining two lists one behind the other is joining each of them, with the
/// separator between.
pub proof fn law_join_goes_part_by_part(
    a: Vec<String>,
    b: Vec<String>,
    all: Vec<String>,
    separator: &str,
    x: String,
    y: String,
    text: String,
)
    requires
        call_ensures(join, (&a, separator), x),
        call_ensures(join, (&b, separator), y),
        call_ensures(join, (&all, separator), text),
        all.deep_view() == a.deep_view() + b.deep_view(),
    ensures
        a@.len() == 0 ==> text@ == y@,
        b@.len() == 0 ==> text@ == x@,
        a@.len() > 0 && b@.len() > 0 ==> text@ == x@ + separator@ + y@,
        a@.len() == 0 ==> x@ == Seq::<char>::empty(),
        a@.len() == 1 ==> x@ == a@[0]@,
{
    law_joined_part_by_part(a.deep_view(), b.deep_view(), separator@);
    assert(a@.len() == 0 ==> all.deep_view() =~= b.deep_view());
    assert(b@.len() == 0 ==> all.deep_view() =~= a.deep_view());
}

/// Splitting undoes joining if no piece holds the separator.
pub proof fn law_split_undoes_join(
    pieces: Vec<String>,
    separator: char,
    between: &str,
    text: String,
    whole: &str,
    again: Vec<String>,
)
    requires
        pieces@.len() > 0,
        forall|i: int|
            0 <= i < pieces@.len() ==> !(#[trigger] pieces.deep_view()[i]).contains(separator),
        between@ == seq![separator],
        call_ensures(join, (&pieces, between), text),
        whole@ == text@,
        call_ensures(split, (whole, separator), again),
    ensures
        again.deep_view() == pieces.deep_view(),
{
    law_split_is_unique(again.deep_view(), pieces.deep_view(), separator);
}

/// Every text can be read as pieces that are free of the separator.
pub(crate) proof fn lemma_some_reading(text: Seq<char>, separator: char) -> (pieces: Seq<Seq<char>>)
    ensures
        pieces.len() > 0,
        joined(pieces, seq![separator]) == text,
        forall|i: int| 0 <= i < pieces.len() ==> !(#[trigger] pieces[i]).contains(separator),
    decreases text.len(),
{
    if text.len() == 0 {
        let pieces = seq![text];
        assert(joined(pieces, seq![separator]) =~= text);
        pieces
    } else {
        let earlier = lemma_some_reading(text.drop_last(), separator);
        let c = text.last();
        assert(text =~= text.drop_last().push(c));
        if c == separator {
            let pieces = earlier.push(seq![]);
            assert(pieces.drop_last() =~= earlier);
            assert(joined(pieces, seq![separator]) =~= text);
            pieces
        } else {
            let grown = earlier.last().push(c);
            let pieces = earlier.drop_last().push(grown);
            assert(pieces.drop_last() =~= earlier.drop_last());
            assert(joined(pieces, seq![separator]) =~= text);
            assert forall|i: int| 0 <= i < pieces.len() implies !(#[trigger] pieces[i]).contains(
                separator,
            ) by {
                assert(!earlier[i].contains(separator));
                if i == earlier.len() - 1 && grown.contains(separator) {
                    let k = choose|k: int| 0 <= k < grown.len() && grown[k] == separator;
                    assert(earlier.last()[k] == separator);
                }
            }
            pieces
        }
    }
}

} // verus!
