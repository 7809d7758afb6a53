//! The order in which names are listed.

use vstd::prelude::*;
use vstd::utf8::*;

verus! {

/// Whether `k` is the place that puts `a` ahead of `b`: both agree before it,
/// and there `a` ends or holds the smaller byte.
pub open spec fn ahead_at(a: Seq<u8>, b: Seq<u8>, k: int) -> bool {
    &&& 0 <= k <= a.len()
    &&& k < b.len()
    &&& forall|i: int| 0 <= i < k ==> a[i] == b[i]
    &&& k == a.len() || a[k] < b[k]
}

/// Whether text `a` stands strictly before text `b`: the lexicographic order of
/// the UTF-8 bytes, which is the order that `str` has.
pub open spec fn before(a: Seq<char>, b: Seq<char>) -> bool {
    exists|k: int| #[trigger] ahead_at(encode_utf8(a), encode_utf8(b), k)
}

/// Where a text stands with respect to another one.
#[derive(Debug, Clone, Copy, PartialEq, Eq, Structural)]
pub enum Place {
    /// Strictly before.
    Before,
    /// The same text.
    Same,
    /// Strictly after.
    After,
}

/// Two texts with the same bytes are the same text.
proof fn lemma_same_bytes(a: Seq<char>, b: Seq<char>)
    requires
        encode_utf8(a) == encode_utf8(b),
    ensures
        a == b,
{
    encode_utf8_decode_utf8(a);
    encode_utf8_decode_utf8(b);
}

/// No text stands before itself.
pub proof fn law_before_is_irreflexive(a: Seq<char>)
    ensures
        !before(a, a),
{
}

/// A text before a second one, which is before a third one, is before the third.
pub proof fn law_before_is_transitive(a: Seq<char>, b: Seq<char>, c: Seq<char>)
    requires
        before(a, b),
        before(b, c),
    ensures
        before(a, c),
{
    let (x, y, z) = (encode_utf8(a), encode_utf8(b), encode_utf8(c));
    let k = choose|k: int| #[trigger] ahead_at(x, y, k);
    let l = choose|l: int| #[trigger] ahead_at(y, z, l);
    if k <= l {
        assert(ahead_at(x, z, k));
    } else {
        assert(ahead_at(x, z, l));
    }
}

/// Of two different texts exactly one stands before the other.
pub proof fn law_before_is_total(a: Seq<char>, b: Seq<char>)
    requires
        a != b,
    ensures
        before(a, b) != before(b, a),
{
    let (x, y) = (encode_utf8(a), encode_utf8(b));
    if before(a, b) && before(b, a) {
        law_before_is_transitive(a, b, a);
    }
    lemma_some_ahead(x, y, 0);
    if x == y {
        lemma_same_bytes(a, b);
    }
}

proof fn lemma_some_ahead(x: Seq<u8>, y: Seq<u8>, k: int)
    requires
        0 <= k <= x.len(),
        k <= y.len(),
        forall|i: int| 0 <= i < k ==> x[i] == y[i],
    ensures
        x == y || (exists|k: int| #[trigger] ahead_at(x, y, k)) || (exists|k: int| #[trigger]
            ahead_at(y, x, k)),
    decreases x.len() - k,
{
    if k == x.len() {
        if k < y.len() {
            assert(ahead_at(x, y, k));
        } else {
            assert(x =~= y);
        }
    } else if k == y.len() {
        assert(ahead_at(y, x, k));
    } else if x[k] < y[k] {
        assert(ahead_at(x, y, k));
    } else if y[k] < x[k] {
        assert(ahead_at(y, x, k));
    } else {
        lemma_some_ahead(x, y, k + 1);
    }
}

/// Finds where `a` stands with respect to `b`.
pub fn place(a: &str, b: &str) -> (found: Place)
    ensures
        found == Place::Before <==> before(a@, b@),
        found == Place::Same <==> a@ == b@,
        found == Place::After <==> before(b@, a@),
{
    let x = a.as_bytes();
    let y = b.as_bytes();
    let mut i: usize = 0;
    proof {
        if a@ != b@ {
            law_before_is_total(a@, b@);
        }
    }
    while i < x.len() && i < y.len()
        invariant
            x@ == encode_utf8(a@),
            y@ == encode_utf8(b@),
            i <= x.len(),
            i <= y.len(),
            a@ != b@ ==> before(a@, b@) != before(b@, a@),
            forall|j: int| 0 <= j < i ==> x@[j] == y@[j],
        decreases x.len() - i,
    {
        if x[i] < y[i] {
            assert(ahead_at(x@, y@, i as int));
            return Place::Before;
        }
        if y[i] < x[i] {
            assert(ahead_at(y@, x@, i as int));
            return Place::After;
        }
        i += 1;
    }
    if i < y.len() {
        assert(ahead_at(x@, y@, i as int));
        Place::Before
    } else if i < x.len() {
        assert(ahead_at(y@, x@, i as int));
        Place::After
    } else {
        proof {
            assert(x@ =~= y@);
            lemma_same_bytes(a@, b@);
        }
        Place::Same
    }
}

proof fn lemma_two_bytes_go_up(c: u32, d: u32)
    by (bit_vector)
    requires
        0x80 <= c,
        c < d,
        d <= 0x7FF,
    ensures
        leading_byte_width_2(c) < leading_byte_width_2(d) || (leading_byte_width_2(c)
            == leading_byte_width_2(d) && last_continuation_byte(c) < last_continuation_byte(d)),
{
}

proof fn lemma_three_bytes_go_up(c: u32, d: u32)
    by (bit_vector)
    requires
        0x800 <= c,
        c < d,
        d <= 0xFFFF,
    ensures
        leading_byte_width_3(c) < leading_byte_width_3(d) || (leading_byte_width_3(c)
            == leading_byte_width_3(d) && (second_last_continuation_byte(c)
            < second_last_continuation_byte(d) || (second_last_continuation_byte(c)
            == second_last_continuation_byte(d) && last_continuation_byte(c)
            < last_continuation_byte(d)))),
{
}

proof fn lemma_four_bytes_go_up(c: u32, d: u32)
    by (bit_vector)
    requires
        0x10000 <= c,
        c < d,
        d <= 0x10FFFF,
    ensures
        leading_byte_width_4(c) < leading_byte_width_4(d) || (leading_byte_width_4(c)
            == leading_byte_width_4(d) && (third_last_continuation_byte(c)
            < third_last_continuation_byte(d) || (third_last_continuation_byte(c)
            == third_last_continuation_byte(d) && (second_last_continuation_byte(c)
            < second_last_continuation_byte(d) || (second_last_continuation_byte(c)
            == second_last_continuation_byte(d) && last_continuation_byte(c)
            < last_continuation_byte(d)))))),
{
}

proof fn lemma_leading_bytes(c: u32)
    by (bit_vector)
    ensures
        c <= 0x7F ==> leading_byte_width_1(c) == c,
        0xC0 <= leading_byte_width_2(c) <= 0xDF,
        0xE0 <= leading_byte_width_3(c) <= 0xEF,
        0xF0 <= leading_byte_width_4(c) <= 0xF7,
{
}

/// The place at which the bytes of a smaller character get smaller.
proof fn lemma_bytes_go_up(c: char, d: char) -> (k: int)
    requires
        c < d,
    ensures
        ({
            let (x, y) = (encode_scalar(c as u32), encode_scalar(d as u32));
            &&& 0 <= k < x.len()
            &&& k < y.len()
            &&& forall|i: int| 0 <= i < k ==> x[i] == y[i]
            &&& x[k] < y[k]
        }),
{
    let (u, v) = (c as u32, d as u32);
    char_is_scalar(c);
    char_is_scalar(d);
    lemma_leading_bytes(u);
    lemma_leading_bytes(v);
    let (x, y) = (encode_scalar(u), encode_scalar(v));
    if has_width_2_encoding(u) && has_width_2_encoding(v) {
        lemma_two_bytes_go_up(u, v);
    } else if has_width_3_encoding(u) && has_width_3_encoding(v) {
        lemma_three_bytes_go_up(u, v);
    } else if has_width_4_encoding(u) && has_width_4_encoding(v) {
        lemma_four_bytes_go_up(u, v);
    }
    if x[0] < y[0] {
        0
    } else if x[1] < y[1] {
        1
    } else if x[2] < y[2] {
        2
    } else {
        3
    }
}

proof fn lemma_encode_parts(a: Seq<char>, b: Seq<char>)
    ensures
        encode_utf8(a + b) == encode_utf8(a) + encode_utf8(b),
    decreases a.len(),
{
    if a.len() == 0 {
        assert(a + b =~= b);
        assert(encode_utf8(a) + encode_utf8(b) =~= encode_utf8(b));
    } else {
        assert((a + b).drop_first() =~= a.drop_first() + b);
        lemma_encode_parts(a.drop_first(), b);
        assert(encode_utf8(a + b) =~= encode_utf8(a) + encode_utf8(b));
    }
}

/// Whether the texts agree in their first `k` characters, and then the first one
/// ends or has the smaller character.
pub open spec fn smaller_from(a: Seq<char>, b: Seq<char>, k: int) -> bool {
    &&& 0 <= k <= a.len()
    &&& k < b.len()
    &&& a.take(k) == b.take(k)
    &&& k == a.len() || a[k] < b[k]
}

proof fn lemma_smaller_is_before(a: Seq<char>, b: Seq<char>, k: int)
    requires
        smaller_from(a, b, k),
    ensures
        before(a, b),
{
    let (p, s, t) = (a.take(k), a.skip(k), b.skip(k));
    assert(a =~= p + s);
    assert(b =~= p + t);
    lemma_encode_parts(p, s);
    lemma_encode_parts(p, t);
    let (x, y, n) = (encode_utf8(a), encode_utf8(b), encode_utf8(p).len() as int);
    assert(t[0] == b[k]);
    char_is_scalar(b[k]);
    if k == a.len() {
        assert(encode_utf8(s) =~= seq![]);
        assert(encode_scalar(t[0] as u32).len() > 0);
        assert(ahead_at(x, y, n));
    } else {
        assert(s[0] == a[k]);
        let m = lemma_bytes_go_up(a[k], b[k]);
        assert(ahead_at(x, y, n + m));
    }
}

proof fn lemma_smaller_somewhere(a: Seq<char>, b: Seq<char>, k: int)
    requires
        0 <= k <= a.len(),
        k <= b.len(),
        a.take(k) == b.take(k),
    ensures
        a == b || (exists|k: int| #[trigger] smaller_from(a, b, k)) || (exists|k: int| #[trigger]
            smaller_from(b, a, k)),
    decreases a.len() - k,
{
    if k == a.len() {
        if k == b.len() {
            assert(a =~= a.take(k));
            assert(b =~= b.take(k));
        } else {
            assert(smaller_from(a, b, k));
        }
    } else if k == b.len() || b[k] < a[k] {
        assert(smaller_from(b, a, k));
    } else if a[k] < b[k] {
        assert(smaller_from(a, b, k));
    } else {
        assert(a.take(k + 1) =~= a.take(k).push(a[k]));
        assert(b.take(k + 1) =~= b.take(k).push(b[k]));
        lemma_smaller_somewhere(a, b, k + 1);
    }
}

/// Texts are ordered character by character: where they differ first, the smaller
/// character comes first, and a text comes before those that it begins.
pub proof fn law_order_goes_by_characters(a: &str, b: &str, found: Place)
    requires
        call_ensures(place, (a, b), found),
    ensures
        found == Place::Before <==> exists|k: int| #[trigger] smaller_from(a@, b@, k),
        found == Place::Same <==> a@ == b@,
        found == Place::After <==> exists|k: int| #[trigger] smaller_from(b@, a@, k),
        before(a@, b@) <==> found == Place::Before,
{
    assert(a@.take(0) =~= b@.take(0));
    lemma_smaller_somewhere(a@, b@, 0);
    law_before_is_irreflexive(a@);
    if a@ != b@ {
        law_before_is_total(a@, b@);
    }
    if exists|k: int| #[trigger] smaller_from(a@, b@, k) {
        let k = choose|k: int| #[trigger] smaller_from(a@, b@, k);
        lemma_smaller_is_before(a@, b@, k);
    }
    if exists|k: int| #[trigger] smaller_from(b@, a@, k) {
        let k = choose|k: int| #[trigger] smaller_from(b@, a@, k);
        lemma_smaller_is_before(b@, a@, k);
    }
}

} // verus!
