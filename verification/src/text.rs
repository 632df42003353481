//! Characters and strings: ASCII case mapping and the order in which the
//! dictionary keeps its words.

use vstd::prelude::*;
use vstd::std_specs::iter::IteratorSpec;

verus! {

/// `String::push` of the standard library appends one character to the end of
/// the string and leaves what was there untouched.
pub assume_specification[ String::push ](s: &mut String, ch: char)
    ensures
        final(s)@ == old(s)@.push(ch),
;

/// The code point of a character.
pub open spec fn code(c: char) -> int {
    c as int
}

/// Two characters with one code point are one character.
pub proof fn lemma_code_injective(x: char, y: char)
    requires
        code(x) == code(y),
    ensures
        x == y,
{
    assert((x as u32) as char == x);
    assert((y as u32) as char == y);
    assert(x as u32 == y as u32);
}

/// One of the capitals `A` to `Z`.
pub open spec fn is_ascii_upper(c: char) -> bool {
    65 <= code(c) <= 90
}

/// One of the small letters `a` to `z`.
pub open spec fn is_ascii_lower(c: char) -> bool {
    97 <= code(c) <= 122
}

/// `A`..`Z` become `a`..`z`; every other character stays.
pub open spec fn ascii_lower(c: char) -> char {
    if is_ascii_upper(c) {
        ((code(c) + 32) as u8) as char
    } else {
        c
    }
}

/// `a`..`z` become `A`..`Z`; every other character stays.
pub open spec fn ascii_upper(c: char) -> char {
    if is_ascii_lower(c) {
        ((code(c) - 32) as u8) as char
    } else {
        c
    }
}

/// A word with every ASCII capital replaced by its small letter.
pub open spec fn lower(s: Seq<char>) -> Seq<char> {
    Seq::new(s.len(), |i: int| ascii_lower(s[i]))
}

/// A word with every ASCII small letter replaced by its capital.
pub open spec fn upper(s: Seq<char>) -> Seq<char> {
    Seq::new(s.len(), |i: int| ascii_upper(s[i]))
}

/// A word with its first letter capitalised.
pub open spec fn capitalized(s: Seq<char>) -> Seq<char> {
    Seq::new(s.len(), |i: int| if i == 0 { ascii_upper(s[i]) } else { s[i] })
}

/// The small letter of an ASCII capital; any other character as it is.
pub fn lower_char(c: char) -> (r: char)
    ensures
        r == ascii_lower(c),
{
    if c >= 'A' && c <= 'Z' {
        let b: u8 = c as u8;
        (b + 32) as char
    } else {
        c
    }
}

/// The capital of an ASCII small letter; any other character as it is.
pub fn upper_char(c: char) -> (r: char)
    ensures
        r == ascii_upper(c),
{
    if c >= 'a' && c <= 'z' {
        let b: u8 = c as u8;
        (b - 32) as char
    } else {
        c
    }
}

/// The ASCII-lowercase copy of a string.
pub fn to_lower(s: &str) -> (r: String)
    ensures
        r@ == lower(s@),
{
    let mut out = String::new();
    for c in iter: s.chars()
        invariant
            iter.seq() == s@,
            out@ == lower(s@.take(iter.index())),
    {
        proof {
            let n = iter.index();
            assert(lower(s@.take(n + 1)) =~= lower(s@.take(n)).push(ascii_lower(c)));
        }
        out.push(lower_char(c));
    }
    proof {
        assert(s@.take(s@.len() as int) =~= s@);
    }
    out
}

/// The ASCII-uppercase copy of a string.
pub fn to_upper(s: &str) -> (r: String)
    ensures
        r@ == upper(s@),
{
    let mut out = String::new();
    for c in iter: s.chars()
        invariant
            iter.seq() == s@,
            out@ == upper(s@.take(iter.index())),
    {
        proof {
            let n = iter.index();
            assert(upper(s@.take(n + 1)) =~= upper(s@.take(n)).push(ascii_upper(c)));
        }
        out.push(upper_char(c));
    }
    proof {
        assert(s@.take(s@.len() as int) =~= s@);
    }
    out
}

/// A copy of a string whose first letter is an ASCII capital where it was an
/// ASCII small letter.
pub fn to_capitalized(s: &str) -> (r: String)
    ensures
        r@ == capitalized(s@),
{
    let mut out = String::new();
    let mut first = true;
    for c in iter: s.chars()
        invariant
            iter.seq() == s@,
            first == (iter.index() == 0),
            out@ == capitalized(s@).take(iter.index()),
    {
        proof {
            let n = iter.index();
            assert(capitalized(s@).take(n + 1) =~= capitalized(s@).take(n).push(
                capitalized(s@)[n],
            ));
        }
        if first {
            out.push(upper_char(c));
            first = false;
        } else {
            out.push(c);
        }
    }
    proof {
        assert(capitalized(s@).take(s@.len() as int) =~= capitalized(s@));
    }
    out
}

/// `a` and `b` agree on their first `k` characters.
pub open spec fn same_prefix(a: Seq<char>, b: Seq<char>, k: int) -> bool {
    &&& 0 <= k <= a.len()
    &&& k <= b.len()
    &&& forall|i: int| 0 <= i < k ==> a[i] == b[i]
}

/// `a` and `b` agree up to position `k`, where `a` ends or holds the smaller
/// character.
pub open spec fn less_at(a: Seq<char>, b: Seq<char>, k: int) -> bool {
    &&& same_prefix(a, b, k)
    &&& k < b.len()
    &&& k < a.len() ==> code(a[k]) < code(b[k])
}

/// The lexicographic order of words by code point, which is the order of
/// their UTF-8 bytes.
pub open spec fn lex_less(a: Seq<char>, b: Seq<char>) -> bool {
    exists|k: int| less_at(a, b, k)
}

/// A word that stands before another is not the same word, and does not
/// stand behind it.
pub proof fn lemma_lex_asymmetric(a: Seq<char>, b: Seq<char>)
    requires
        lex_less(a, b),
    ensures
        !lex_less(b, a),
        a != b,
{
    let k1 = choose|k: int| less_at(a, b, k);
    if lex_less(b, a) {
        let k2 = choose|k: int| less_at(b, a, k);
        if k1 < k2 {
            assert(b[k1] == a[k1]);
        } else if k2 < k1 {
            assert(a[k2] == b[k2]);
        }
    }
    if a == b {
        assert(a[k1] == b[k1]);
    }
}

/// A word before a second that is before a third is before the third.
pub proof fn lemma_lex_transitive(a: Seq<char>, b: Seq<char>, c: Seq<char>)
    requires
        lex_less(a, b),
        lex_less(b, c),
    ensures
        lex_less(a, c),
{
    let k1 = choose|k: int| less_at(a, b, k);
    let k2 = choose|k: int| less_at(b, c, k);
    let k = if k1 <= k2 { k1 } else { k2 };
    assert forall|i: int| 0 <= i < k implies a[i] == c[i] by {
        assert(a[i] == b[i]);
        assert(b[i] == c[i]);
    }
    if k1 < k2 {
        assert(b[k1] == c[k1]);
    } else if k2 < k1 {
        assert(a[k2] == b[k2]);
    }
    assert(less_at(a, c, k));
}

/// Any two different words are ordered one way or the other.
pub proof fn lemma_lex_total(a: Seq<char>, b: Seq<char>)
    ensures
        a == b || lex_less(a, b) || lex_less(b, a),
    decreases a.len(),
{
    if a.len() == 0 {
        if b.len() > 0 {
            assert(less_at(a, b, 0));
        } else {
            assert(a =~= b);
        }
    } else if b.len() == 0 {
        assert(less_at(b, a, 0));
    } else {
        let n = a.len() - 1;
        let pa = a.drop_last();
        if b.len() <= n {
            let pb = b;
            lemma_lex_total(pa, b);
            if pa == b {
                assert(less_at(b, a, n as int));
            } else if lex_less(pa, b) {
                let k = choose|k: int| less_at(pa, b, k);
                assert(less_at(a, b, k));
            } else {
                let k = choose|k: int| less_at(b, pa, k);
                assert(less_at(b, a, k));
            }
        } else {
            let pb = b.take(n as int);
            lemma_lex_total(pa, pb);
            if pa == pb {
                assert forall|i: int| 0 <= i < n implies a[i] == b[i] by {
                    assert(pa[i] == pb[i]);
                }
                if code(a[n as int]) < code(b[n as int]) {
                    assert(less_at(a, b, n as int));
                } else if code(b[n as int]) < code(a[n as int]) {
                    assert(less_at(b, a, n as int));
                } else if b.len() > n + 1 {
                    lemma_code_injective(a[n as int], b[n as int]);
                    assert(same_prefix(a, b, n + 1));
                    assert(less_at(a, b, n + 1));
                } else {
                    lemma_code_injective(a[n as int], b[n as int]);
                    assert(a =~= b);
                }
            } else if lex_less(pa, pb) {
                let k = choose|k: int| less_at(pa, pb, k);
                assert(k < n);
                assert forall|i: int| 0 <= i < k implies a[i] == b[i] by {
                    assert(pa[i] == pb[i]);
                }
                assert(pb[k] == b[k]);
                if k < pa.len() {
                    assert(pa[k] == a[k]);
                }
                assert(less_at(a, b, k));
            } else {
                let k = choose|k: int| less_at(pb, pa, k);
                assert(k < n);
                assert forall|i: int| 0 <= i < k implies b[i] == a[i] by {
                    assert(pa[i] == pb[i]);
                }
                assert(pa[k] == a[k]);
                if k < pb.len() {
                    assert(pb[k] == b[k]);
                }
                assert(less_at(b, a, k));
            }
        }
    }
}

/// How one word stands to another in the lexicographic order.
#[derive(Clone, Copy, PartialEq, Eq, Debug, Structural)]
pub enum Order {
    Before,
    Same,
    After,
}

/// Compares two strings character by character.
pub fn str_order(a: &str, b: &str) -> (r: Order)
    ensures
        r == Order::Before <==> lex_less(a@, b@),
        r == Order::Same <==> a@ == b@,
        r == Order::After <==> lex_less(b@, a@),
{
    let mut ia = a.chars();
    let mut ib = b.chars();
    let ghost mut k: int = 0;
    loop
        invariant
            same_prefix(a@, b@, k),
            ia.remaining() == a@.skip(k),
            ib.remaining() == b@.skip(k),
            ia.obeys_prophetic_iter_laws(),
            ib.obeys_prophetic_iter_laws(),
        decreases a@.len() - k,
    {
        let x = ia.next();
        let y = ib.next();
        match x {
            None => {
                match y {
                    None => {
                        assert(a@ =~= b@);
                        proof {
                            if lex_less(a@, b@) {
                                lemma_lex_asymmetric(a@, b@);
                            }
                            if lex_less(b@, a@) {
                                lemma_lex_asymmetric(b@, a@);
                            }
                        }
                        return Order::Same;
                    },
                    Some(_) => {
                        proof {
                            assert(less_at(a@, b@, k));
                            lemma_lex_asymmetric(a@, b@);
                        }
                        return Order::Before;
                    },
                }
            },
            Some(ca) => {
                match y {
                    None => {
                        proof {
                            assert(same_prefix(b@, a@, k));
                            assert(less_at(b@, a@, k));
                            lemma_lex_asymmetric(b@, a@);
                        }
                        return Order::After;
                    },
                    Some(cb) => {
                        assert(ca == a@[k] && cb == b@[k]);
                        if ca < cb {
                            proof {
                                assert(less_at(a@, b@, k));
                                lemma_lex_asymmetric(a@, b@);
                            }
                            return Order::Before;
                        } else if cb < ca {
                            proof {
                                assert(same_prefix(b@, a@, k));
                                assert(less_at(b@, a@, k));
                                lemma_lex_asymmetric(b@, a@);
                            }
                            return Order::After;
                        }
                        proof {
                            assert(ca == cb);
                            k = k + 1;
                        }
                    },
                }
            },
        }
    }
}

/// Whether two strings hold the same characters.
pub fn str_eq(a: &str, b: &str) -> (r: bool)
    ensures
        r == (a@ == b@),
{
    str_order(a, b) == Order::Same
}

} // verus!
