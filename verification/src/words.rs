//! Word lists kept in lexicographic order without repetition, and maps keyed
//! by such words.

use crate::text::{
    lemma_lex_asymmetric, lemma_lex_total, lemma_lex_transitive, lex_less, str_order, Order,
};
use vstd::prelude::*;

verus! {

/// The words that a vector of strings holds, in its order.
pub open spec fn words_of(v: Seq<String>) -> Seq<Seq<char>> {
    Seq::new(v.len(), |i: int| v[i]@)
}

/// Every word stands before each word behind it: the list ascends and holds
/// no word twice.
pub open spec fn sorted(s: Seq<Seq<char>>) -> bool {
    forall|i: int, j: int| 0 <= i < j < s.len() ==> lex_less(#[trigger] s[i], #[trigger] s[j])
}

/// The one ascending list that holds exactly the words of a finite set.
pub open spec fn sorted_list(words: Set<Seq<char>>) -> Seq<Seq<char>> {
    choose|s: Seq<Seq<char>>| sorted(s) && s.to_set() == words
}

/// An ascending list holds no word twice.
pub proof fn lemma_sorted_no_duplicates(s: Seq<Seq<char>>)
    requires
        sorted(s),
    ensures
        s.no_duplicates(),
{
    assert forall|i: int, j: int| 0 <= i < s.len() && 0 <= j < s.len() && i != j implies s[i]
        != s[j] by {
        if i < j {
            lemma_lex_asymmetric(s[i], s[j]);
        } else {
            lemma_lex_asymmetric(s[j], s[i]);
        }
    }
}

/// Two ascending lists of the same words are the same list.
pub proof fn lemma_sorted_unique(a: Seq<Seq<char>>, b: Seq<Seq<char>>)
    requires
        sorted(a),
        sorted(b),
        a.to_set() == b.to_set(),
    ensures
        a == b,
    decreases a.len(),
{
    if a.len() == 0 {
        if b.len() > 0 {
            assert(b.contains(b[0]));
            assert(b.to_set().contains(b[0]));
            assert(a.contains(b[0]));
        }
        assert(a =~= b);
    } else {
        assert(a.contains(a[0]));
        assert(a.to_set().contains(a[0]));
        assert(b.contains(a[0]));
        let j = choose|j: int| 0 <= j < b.len() && b[j] == a[0];
        assert(b.contains(b[0]));
        assert(b.to_set().contains(b[0]));
        assert(a.contains(b[0]));
        let i = choose|i: int| 0 <= i < a.len() && a[i] == b[0];
        if i > 0 {
            assert(lex_less(a[0], a[i]));
            if j > 0 {
                assert(lex_less(b[0], b[j]));
                lemma_lex_transitive(a[0], b[0], a[0]);
            }
            lemma_lex_asymmetric(a[0], b[0]);
        }
        assert(a[0] == b[0]);
        let ta = a.drop_first();
        let tb = b.drop_first();
        assert(sorted(ta)) by {
            assert forall|x: int, y: int| 0 <= x < y < ta.len() implies lex_less(
                #[trigger] ta[x],
                #[trigger] ta[y],
            ) by {
                assert(lex_less(a[x + 1], a[y + 1]));
            }
        }
        assert(sorted(tb)) by {
            assert forall|x: int, y: int| 0 <= x < y < tb.len() implies lex_less(
                #[trigger] tb[x],
                #[trigger] tb[y],
            ) by {
                assert(lex_less(b[x + 1], b[y + 1]));
            }
        }
        assert forall|w: Seq<char>| ta.to_set().contains(w) <==> tb.to_set().contains(w) by {
            if ta.contains(w) {
                let x = choose|x: int| 0 <= x < ta.len() && ta[x] == w;
                assert(a[x + 1] == w);
                assert(lex_less(a[0], a[x + 1]));
                lemma_lex_asymmetric(a[0], w);
                assert(a.contains(w));
                assert(a.to_set().contains(w));
                assert(b.contains(w));
                let y = choose|y: int| 0 <= y < b.len() && b[y] == w;
                assert(y > 0);
                assert(tb[y - 1] == w);
                assert(tb.contains(w));
            }
            if tb.contains(w) {
                let x = choose|x: int| 0 <= x < tb.len() && tb[x] == w;
                assert(b[x + 1] == w);
                assert(lex_less(b[0], b[x + 1]));
                lemma_lex_asymmetric(b[0], w);
                assert(b.contains(w));
                assert(b.to_set().contains(w));
                assert(a.contains(w));
                let y = choose|y: int| 0 <= y < a.len() && a[y] == w;
                assert(y > 0);
                assert(ta[y - 1] == w);
                assert(ta.contains(w));
            }
        }
        assert(ta.to_set() =~= tb.to_set());
        lemma_sorted_unique(ta, tb);
        assert(a =~= seq![a[0]] + ta);
        assert(b =~= seq![b[0]] + tb);
    }
}

/// An ascending list is the sorted list of its own words.
pub proof fn lemma_sorted_list(s: Seq<Seq<char>>)
    requires
        sorted(s),
    ensures
        sorted_list(s.to_set()) == s,
{
    let t = sorted_list(s.to_set());
    assert(sorted(t) && t.to_set() == s.to_set());
    lemma_sorted_unique(t, s);
}

/// Where a word stands, or would stand, in an ascending list: the number of
/// words before it, and whether the list holds it.
pub fn search(list: &Vec<String>, w: &str) -> (r: (usize, bool))
    requires
        sorted(words_of(list@)),
    ensures
        r.0 <= list.len(),
        forall|i: int| 0 <= i < r.0 ==> lex_less(#[trigger] list[i]@, w@),
        r.1 ==> r.0 < list.len() && list[r.0 as int]@ == w@,
        forall|i: int|
            r.0 + (if r.1 {
                1int
            } else {
                0int
            }) <= i < list.len() ==> lex_less(w@, #[trigger] list[i]@),
        r.1 == words_of(list@).contains(w@),
{
    let ghost s = words_of(list@);
    let mut lo: usize = 0;
    let mut hi: usize = list.len();
    while lo < hi
        invariant
            s == words_of(list@),
            sorted(s),
            lo <= hi <= list.len(),
            forall|i: int| 0 <= i < lo ==> lex_less(#[trigger] s[i], w@),
            forall|i: int| hi <= i < list.len() ==> lex_less(w@, #[trigger] s[i]),
        decreases hi - lo,
    {
        let mid = lo + (hi - lo) / 2;
        match str_order(list[mid].as_str(), w) {
            Order::Before => {
                proof {
                    assert(s[mid as int] == list[mid as int]@);
                    assert forall|i: int| 0 <= i < mid + 1 implies lex_less(
                        #[trigger] s[i],
                        w@,
                    ) by {
                        if i < mid {
                            assert(lex_less(s[i], s[mid as int]));
                            lemma_lex_transitive(s[i], s[mid as int], w@);
                        }
                    }
                }
                lo = mid + 1;
            },
            Order::Same => {
                proof {
                    assert(s[mid as int] == w@);
                    assert forall|i: int| 0 <= i < mid implies lex_less(
                        #[trigger] list[i]@,
                        w@,
                    ) by {
                        assert(lex_less(s[i], s[mid as int]));
                    }
                    assert forall|i: int| mid + 1 <= i < list.len() implies lex_less(
                        w@,
                        #[trigger] list[i]@,
                    ) by {
                        assert(lex_less(s[mid as int], s[i]));
                    }
                    assert(s.contains(w@));
                }
                return (mid, true);
            },
            Order::After => {
                proof {
                    assert(s[mid as int] == list[mid as int]@);
                    assert forall|i: int| mid <= i < list.len() implies lex_less(
                        w@,
                        #[trigger] s[i],
                    ) by {
                        if i > mid {
                            assert(lex_less(s[mid as int], s[i]));
                            lemma_lex_transitive(w@, s[mid as int], s[i]);
                        }
                    }
                }
                hi = mid;
            },
        }
    }
    proof {
        assert forall|i: int| 0 <= i < lo implies lex_less(#[trigger] list[i]@, w@) by {
            assert(lex_less(s[i], w@));
        }
        assert forall|i: int| lo <= i < list.len() implies lex_less(w@, #[trigger] list[i]@) by {
            assert(lex_less(w@, s[i]));
        }
        if s.contains(w@) {
            let i = choose|i: int| 0 <= i < s.len() && s[i] == w@;
            if i < lo {
                lemma_lex_asymmetric(s[i], w@);
            } else {
                lemma_lex_asymmetric(w@, s[i]);
            }
        }
    }
    (lo, false)
}

/// Puts a word into an ascending list, at its place, unless the list holds it
/// already.
pub fn insert_word(list: &mut Vec<String>, w: String)
    requires
        sorted(words_of(old(list)@)),
    ensures
        sorted(words_of(final(list)@)),
        words_of(final(list)@).to_set() == words_of(old(list)@).to_set().insert(w@),
{
    let (at, found) = search(list, w.as_str());
    let ghost before = words_of(list@);
    if found {
        proof {
            assert(before.contains(w@));
            assert(before.to_set().insert(w@) =~= before.to_set());
        }
    } else {
        let ghost word = w@;
        list.insert(at, w);
        proof {
            let after = words_of(list@);
            assert(after =~= before.insert(at as int, word));
            lemma_insert_sorted(before, at as int, word);
        }
    }
}

/// Inserting a word between the words before it and the words behind it keeps
/// a list ascending, and adds that word alone.
pub proof fn lemma_insert_sorted(s: Seq<Seq<char>>, at: int, w: Seq<char>)
    requires
        sorted(s),
        0 <= at <= s.len(),
        forall|i: int| 0 <= i < at ==> lex_less(#[trigger] s[i], w),
        forall|i: int| at <= i < s.len() ==> lex_less(w, #[trigger] s[i]),
    ensures
        sorted(s.insert(at, w)),
        s.insert(at, w).to_set() == s.to_set().insert(w),
{
    let t = s.insert(at, w);
    assert forall|i: int, j: int| 0 <= i < j < t.len() implies lex_less(
        #[trigger] t[i],
        #[trigger] t[j],
    ) by {
        if j < at {
            assert(lex_less(s[i], s[j]));
        } else if j == at {
            assert(lex_less(s[i], w));
        } else if i < at {
            assert(lex_less(s[i], s[j - 1]));
        } else if i == at {
            assert(lex_less(w, s[j - 1]));
        } else {
            assert(lex_less(s[i - 1], s[j - 1]));
        }
    }
    assert forall|x: Seq<char>| t.to_set().contains(x) <==> s.to_set().insert(w).contains(
        x,
    ) by {
        if t.contains(x) {
            let i = choose|i: int| 0 <= i < t.len() && t[i] == x;
            if i < at {
                assert(s[i] == x);
                assert(s.contains(x));
            } else if i > at {
                assert(s[i - 1] == x);
                assert(s.contains(x));
            }
        }
        if s.contains(x) {
            let i = choose|i: int| 0 <= i < s.len() && s[i] == x;
            if i < at {
                assert(t[i] == x);
            } else {
                assert(t[i + 1] == x);
            }
            assert(t.contains(x));
        }
        if x == w {
            assert(t[at] == x);
            assert(t.contains(x));
        }
    }
    assert(t.to_set() =~= s.to_set().insert(w));
}

/// Some ascending list holds exactly the words of the set; so the set is
/// finite.
pub open spec fn listable(words: Set<Seq<char>>) -> bool {
    exists|s: Seq<Seq<char>>| #[trigger] sorted(s) && s.to_set() == words
}

/// The sorted list of a listable set is ascending and holds exactly its words.
pub proof fn lemma_listed(words: Set<Seq<char>>)
    requires
        listable(words),
    ensures
        sorted(sorted_list(words)),
        sorted_list(words).to_set() == words,
{
    let s = choose|s: Seq<Seq<char>>| #[trigger] sorted(s) && s.to_set() == words;
    assert(sorted(s) && s.to_set() == words);
}

/// The empty set is listable.
pub proof fn lemma_listable_empty()
    ensures
        listable(Set::<Seq<char>>::empty()),
{
    let s = Seq::<Seq<char>>::empty();
    assert(sorted(s));
    assert(s.to_set() =~= Set::<Seq<char>>::empty());
}

/// The place of a new word in an ascending list.
pub proof fn lemma_place(s: Seq<Seq<char>>, w: Seq<char>) -> (at: int)
    requires
        sorted(s),
        !s.contains(w),
    ensures
        0 <= at <= s.len(),
        forall|i: int| 0 <= i < at ==> lex_less(#[trigger] s[i], w),
        forall|i: int| at <= i < s.len() ==> lex_less(w, #[trigger] s[i]),
    decreases s.len(),
{
    if s.len() == 0 {
        0
    } else {
        let last = s.last();
        assert(s.contains(last));
        lemma_lex_total(last, w);
        if lex_less(last, w) {
            assert forall|i: int| 0 <= i < s.len() implies lex_less(#[trigger] s[i], w) by {
                if i < s.len() - 1 {
                    assert(lex_less(s[i], s[s.len() - 1]));
                    lemma_lex_transitive(s[i], last, w);
                }
            }
            s.len() as int
        } else {
            let front = s.drop_last();
            assert(sorted(front)) by {
                assert forall|i: int, j: int| 0 <= i < j < front.len() implies lex_less(
                    #[trigger] front[i],
                    #[trigger] front[j],
                ) by {
                    assert(lex_less(s[i], s[j]));
                }
            }
            if front.contains(w) {
                let i = choose|i: int| 0 <= i < front.len() && front[i] == w;
                assert(s[i] == w);
            }
            let at = lemma_place(front, w);
            assert forall|i: int| 0 <= i < at implies lex_less(#[trigger] s[i], w) by {
                assert(lex_less(front[i], w));
            }
            assert forall|i: int| at <= i < s.len() implies lex_less(w, #[trigger] s[i]) by {
                if i < s.len() - 1 {
                    assert(lex_less(w, front[i]));
                }
            }
            at
        }
    }
}

/// A listable set with one more word is listable.
pub proof fn lemma_listable_insert(words: Set<Seq<char>>, w: Seq<char>)
    requires
        listable(words),
    ensures
        listable(words.insert(w)),
{
    let s = choose|s: Seq<Seq<char>>| #[trigger] sorted(s) && s.to_set() == words;
    if s.contains(w) {
        assert(words.insert(w) =~= words);
    } else {
        let at = lemma_place(s, w);
        lemma_insert_sorted(s, at, w);
        assert(sorted(s.insert(at, w)));
    }
}

} // verus!
