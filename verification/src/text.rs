//! Strings: equality, byte order, decimal digits and assembly.

use vstd::prelude::*;
use vstd::utf8::encode_utf8;

use crate::order::{holds_tie, sorted_distinct, strictly_sorted, ties, Ranked};

verus! {

/// `a` is at most `b` in lexicographic order.
pub open spec fn bytes_le(a: Seq<u8>, b: Seq<u8>) -> bool
    decreases a.len(),
{
    ||| a.len() == 0
    ||| b.len() > 0 && a[0] < b[0]
    ||| b.len() > 0 && a[0] == b[0] && bytes_le(a.skip(1), b.skip(1))
}

proof fn lemma_bytes_le_total(a: Seq<u8>, b: Seq<u8>)
    ensures
        bytes_le(a, b) || bytes_le(b, a),
    decreases a.len(),
{
    if a.len() > 0 && b.len() > 0 {
        lemma_bytes_le_total(a.skip(1), b.skip(1));
    }
}

proof fn lemma_bytes_le_transitive(a: Seq<u8>, b: Seq<u8>, c: Seq<u8>)
    requires
        bytes_le(a, b),
        bytes_le(b, c),
    ensures
        bytes_le(a, c),
    decreases a.len(),
{
    if a.len() > 0 && a[0] == b[0] && b[0] == c[0] {
        lemma_bytes_le_transitive(a.skip(1), b.skip(1), c.skip(1));
    }
}

proof fn lemma_bytes_le_antisymmetric(a: Seq<u8>, b: Seq<u8>)
    requires
        bytes_le(a, b),
        bytes_le(b, a),
    ensures
        a == b,
    decreases a.len(),
{
    if a.len() > 0 && b.len() > 0 {
        lemma_bytes_le_antisymmetric(a.skip(1), b.skip(1));
        assert(a =~= seq![a[0]] + a.skip(1));
        assert(b =~= seq![b[0]] + b.skip(1));
    } else {
        assert(a =~= b);
    }
}

/// Texts with one encoding are one text.
pub proof fn lemma_encoding_is_injective(a: Seq<char>, b: Seq<char>)
    requires
        encode_utf8(a) == encode_utf8(b),
    ensures
        a == b,
{
    vstd::utf8::encode_utf8_decode_utf8(a);
    vstd::utf8::encode_utf8_decode_utf8(b);
}

fn bytes_at_most(a: &[u8], b: &[u8]) -> (yes: bool)
    ensures
        yes == bytes_le(a@, b@),
{
    let mut i: usize = 0;
    assert(a@.skip(0) =~= a@);
    assert(b@.skip(0) =~= b@);
    while i < a.len() && i < b.len() && a[i] == b[i]
        invariant
            i <= a@.len(),
            i <= b@.len(),
            bytes_le(a@, b@) == bytes_le(a@.skip(i as int), b@.skip(i as int)),
        decreases a@.len() - i,
    {
        assert(a@.skip(i as int).skip(1) =~= a@.skip(i + 1));
        assert(b@.skip(i as int).skip(1) =~= b@.skip(i + 1));
        i += 1;
    }
    i == a.len() || (i < b.len() && a[i] < b[i])
}

fn bytes_equal(a: &[u8], b: &[u8]) -> (yes: bool)
    ensures
        yes == (a@ == b@),
{
    if a.len() != b.len() {
        return false;
    }
    let mut i: usize = 0;
    while i < a.len()
        invariant
            i <= a@.len(),
            a@.len() == b@.len(),
            forall|k: int| 0 <= k < i ==> a@[k] == b@[k],
        decreases a@.len() - i,
    {
        if a[i] != b[i] {
            return false;
        }
        i += 1;
    }
    assert(a@ =~= b@);
    true
}

/// Whether two lists of bytes are equal.
pub fn same_bytes(a: &Vec<u8>, b: &Vec<u8>) -> (yes: bool)
    ensures
        yes == (a@ == b@),
{
    bytes_equal(a.as_slice(), b.as_slice())
}

/// Whether two strings are equal.
pub fn same(a: &str, b: &str) -> (yes: bool)
    ensures
        yes == (a@ == b@),
{
    let yes: bool = bytes_equal(a.as_bytes(), b.as_bytes());
    proof {
        if yes {
            lemma_encoding_is_injective(a@, b@);
        }
    }
    yes
}

/// Strings in the order of their bytes.
impl Ranked for String {
    open spec fn precedes(self, other: Self) -> bool {
        bytes_le(encode_utf8(self@), encode_utf8(other@))
    }

    proof fn precedes_total(x: Self, y: Self) {
        lemma_bytes_le_total(encode_utf8(x@), encode_utf8(y@));
    }

    proof fn precedes_transitive(x: Self, y: Self, z: Self) {
        lemma_bytes_le_transitive(encode_utf8(x@), encode_utf8(y@), encode_utf8(z@));
    }

    fn at_most(&self, other: &Self) -> (yes: bool) {
        bytes_at_most(self.as_str().as_bytes(), other.as_str().as_bytes())
    }
}

/// Strings that tie are equal.
pub proof fn lemma_string_ties_are_equal(x: String, y: String)
    requires
        ties(x, y),
    ensures
        x@ == y@,
{
    lemma_bytes_le_antisymmetric(encode_utf8(x@), encode_utf8(y@));
    lemma_encoding_is_injective(x@, y@);
}

/// Whether a list holds a string.
pub open spec fn lists(list: Seq<String>, text: Seq<char>) -> bool {
    exists|i: int| 0 <= i < list.len() && (#[trigger] list[i])@ == text
}

/// The distinct strings of a list, in the order of their bytes.
pub fn sorted_distinct_strings(v: Vec<String>) -> (out: Vec<String>)
    ensures
        strictly_sorted(out@),
        forall|text: Seq<char>| lists(out@, text) == lists(v@, text),
{
    let ghost whole = v@;
    let out = sorted_distinct(v);
    proof {
        assert forall|text: Seq<char>| lists(out@, text) == lists(whole, text) by {
            if lists(whole, text) {
                let k = choose|k: int| 0 <= k < whole.len() && (#[trigger] whole[k])@ == text;
                assert(holds_tie(out@, whole[k]));
                let i = choose|i: int| 0 <= i < out@.len() && ties(#[trigger] out@[i], whole[k]);
                lemma_string_ties_are_equal(out@[i], whole[k]);
                assert(out@[i]@ == text);
            }
            if lists(out@, text) {
                let i = choose|i: int| 0 <= i < out@.len() && (#[trigger] out@[i])@ == text;
                assert(whole.contains(out@[i]));
            }
        }
    }
    out
}

/// Where `text` first stands in `list`.
pub fn find(list: &Vec<String>, text: &str) -> (at: Option<usize>)
    ensures
        at matches Some(i) ==> i < list@.len() && list@[i as int]@ == text@ && forall|k: int|
            0 <= k < i ==> (#[trigger] list@[k])@ != text@,
        at is None <==> !lists(list@, text@),
{
    let mut i: usize = 0;
    while i < list.len()
        invariant
            i <= list@.len(),
            forall|k: int| 0 <= k < i ==> (#[trigger] list@[k])@ != text@,
        decreases list@.len() - i,
    {
        if same(list[i].as_str(), text) {
            assert(list@[i as int]@ == text@);
            return Some(i);
        }
        i += 1;
    }
    None
}

/// What `str::to_lowercase` gives for a text.
pub uninterp spec fn lower_of(text: Seq<char>) -> Seq<char>;

/// `str::to_lowercase`: the text with every character in its Unicode lowercase form.
#[verifier::external_body]
pub(crate) fn lowercase(text: &str) -> (lowered: String)
    ensures
        lowered@ == lower_of(text@),
{
    text.to_lowercase()
}

/// Whether a text stands in another from `at` on.
pub open spec fn stands_at(text: Seq<char>, part: Seq<char>, at: int) -> bool {
    0 <= at && at + part.len() <= text.len() && text.subrange(at, at + part.len()) == part
}

/// Whether a text holds another.
pub open spec fn holds_text(text: Seq<char>, part: Seq<char>) -> bool {
    exists|at: int| #[trigger] stands_at(text, part, at)
}

/// Whether a text holds another.
pub fn contains_text(text: &str, part: &str) -> (yes: bool)
    ensures
        yes == holds_text(text@, part@),
{
    let count: usize = text.unicode_len();
    let wanted: usize = part.unicode_len();
    if wanted > count {
        return false;
    }
    let mut at: usize = 0;
    while at <= count - wanted
        invariant
            count == text@.len(),
            wanted == part@.len() <= count,
            at <= count - wanted + 1,
            forall|k: int| 0 <= k < at ==> !#[trigger] stands_at(text@, part@, k),
        decreases count - wanted + 1 - at,
    {
        let mut i: usize = 0;
        while i < wanted && text.get_char(at + i) == part.get_char(i)
            invariant
                count == text@.len(),
                wanted == part@.len() <= count,
                at <= count - wanted,
                i <= wanted,
                forall|k: int| 0 <= k < i ==> text@[at + k] == part@[k],
            decreases wanted - i,
        {
            i += 1;
        }
        if i == wanted {
            assert(text@.subrange(at as int, at + part@.len()) =~= part@);
            assert(stands_at(text@, part@, at as int));
            return true;
        }
        assert(!stands_at(text@, part@, at as int)) by {
            if stands_at(text@, part@, at as int) {
                assert(text@.subrange(at as int, at + part@.len())[i as int] == part@[i as int]);
            }
        }
        if at == count - wanted {
            return false;
        }
        at += 1;
    }
    false
}

/// Whether a text starts with another.
pub fn starts_with(text: &str, prefix: &str) -> (yes: bool)
    ensures
        yes == prefix@.is_prefix_of(text@),
{
    let count: usize = text.unicode_len();
    let wanted: usize = prefix.unicode_len();
    if wanted > count {
        return false;
    }
    let mut i: usize = 0;
    while i < wanted
        invariant
            count == text@.len(),
            wanted == prefix@.len() <= count,
            i <= wanted,
            forall|k: int| 0 <= k < i ==> text@[k] == prefix@[k],
        decreases wanted - i,
    {
        if text.get_char(i) != prefix.get_char(i) {
            assert(prefix@.is_prefix_of(text@) ==> text@.subrange(0, wanted as int)[i as int]
                == prefix@[i as int]);
            return false;
        }
        i += 1;
    }
    assert(text@.subrange(0, wanted as int) =~= prefix@);
    true
}

/// How many bytes a text's UTF-8 encoding has.
pub open spec fn byte_len(text: Seq<char>) -> nat {
    encode_utf8(text).len()
}

/// [`byte_len`], computed.
pub fn bytes_in(text: &str) -> (count: usize)
    ensures
        count == byte_len(text@),
{
    text.as_bytes().len()
}

/// A decimal digit's character.
pub open spec fn digit(n: nat) -> char {
    ('0' as nat + n) as char
}

/// A number written in decimal, with no leading zero.
pub open spec fn digits(n: nat) -> Seq<char>
    decreases n,
{
    if n < 10 {
        seq![digit(n)]
    } else {
        digits(n / 10).push(digit(n % 10))
    }
}

/// `n` in decimal.
pub fn decimal(n: u64) -> (text: String)
    ensures
        text@ == digits(n as nat),
    decreases n,
{
    let mut text: String = if n < 10 {
        String::new()
    } else {
        decimal(n / 10)
    };
    let ghost before = text@;
    let last: u64 = n % 10;
    let mark: &str = if last == 0 {
        "0"
    } else if last == 1 {
        "1"
    } else if last == 2 {
        "2"
    } else if last == 3 {
        "3"
    } else if last == 4 {
        "4"
    } else if last == 5 {
        "5"
    } else if last == 6 {
        "6"
    } else if last == 7 {
        "7"
    } else if last == 8 {
        "8"
    } else {
        "9"
    };
    proof {
        reveal_strlit("0");
        reveal_strlit("1");
        reveal_strlit("2");
        reveal_strlit("3");
        reveal_strlit("4");
        reveal_strlit("5");
        reveal_strlit("6");
        reveal_strlit("7");
        reveal_strlit("8");
        reveal_strlit("9");
        assert(mark@ =~= seq![digit(last as nat)]);
    }
    text.append(mark);
    assert(text@ =~= before + seq![digit(last as nat)]);
    assert(text@ =~= digits(n as nat));
    text
}

/// Byte strings are ordered by the first byte in which they differ, and one that another begins
/// with comes before it.
pub proof fn law_bytes_are_ordered_by_their_first_difference(a: Seq<u8>, b: Seq<u8>, n: int)
    requires
        0 <= n <= a.len(),
        n <= b.len(),
        a.take(n) == b.take(n),
    ensures
        n == a.len() ==> bytes_le(a, b),
        n < a.len() && n == b.len() ==> !bytes_le(a, b),
        n < a.len() && n < b.len() && a[n] < b[n] ==> bytes_le(a, b) && !bytes_le(b, a),
    decreases n,
{
    if n > 0 {
        assert(a.take(n)[0] == b.take(n)[0]);
        assert(a.skip(1).take(n - 1) =~= a.take(n).skip(1));
        assert(b.skip(1).take(n - 1) =~= b.take(n).skip(1));
        assert(a[0] == a.take(n)[0] && b[0] == b.take(n)[0]);
        assert(a.skip(1).take(n - 1) == b.skip(1).take(n - 1));
        law_bytes_are_ordered_by_their_first_difference(a.skip(1), b.skip(1), n - 1);
        if n < a.len() && n < b.len() {
            assert(a.skip(1)[n - 1] == a[n] && b.skip(1)[n - 1] == b[n]);
        }
        assert(bytes_le(a, b) == bytes_le(a.skip(1), b.skip(1)));
        assert(bytes_le(b, a) == bytes_le(b.skip(1), a.skip(1)));
    }
}

} // verus!
