//! Regional categories, the tags that rank a spelling within a category, and
//! sets of categories packed into bits.

use vstd::prelude::*;

verus! {

/// A regional spelling convention.
///
/// `American`, `BritishIse`, `Canadian` and `Australian` are tracked: a
/// dictionary answers for them. `Other` marks a spelling as valid in every
/// tracked category. `BritishIze`, the second British form, is left aside.
#[derive(Clone, Copy, PartialEq, Eq, Debug, Structural)]
pub enum Category {
    American,
    BritishIse,
    BritishIze,
    Canadian,
    Australian,
    Other,
}

/// How a spelling ranks in a category.
///
/// `Eq` is the standard spelling, `Variant`, `Seldom` and `Possible` are
/// accepted ones of falling rank, and `Improper` is listed but never
/// suggested.
#[derive(Clone, Copy, PartialEq, Eq, Debug, Structural)]
pub enum Tag {
    Eq,
    Variant,
    Seldom,
    Possible,
    Improper,
}

/// One association of a spelling with a category. A missing tag stands for
/// `Tag::Eq`.
#[derive(Clone, Copy, PartialEq, Eq, Debug)]
pub struct Type {
    pub category: Category,
    pub tag: Option<Tag>,
}

/// The categories a dictionary answers for.
pub open spec fn supported(c: Category) -> bool {
    c == Category::American || c == Category::BritishIse || c == Category::Canadian || c
        == Category::Australian
}

/// The set of all tracked categories.
pub open spec fn all_supported() -> Set<Category> {
    Set::new(|c: Category| supported(c))
}

/// The tracked categories in the order of a correction table's slots.
pub open spec fn slot_category(i: int) -> Category {
    if i == 0 {
        Category::American
    } else if i == 1 {
        Category::BritishIse
    } else if i == 2 {
        Category::Canadian
    } else {
        Category::Australian
    }
}

/// The slot of a tracked category in a correction table.
pub open spec fn slot_of(c: Category) -> int {
    match c {
        Category::American => 0,
        Category::BritishIse => 1,
        Category::Canadian => 2,
        _ => 3,
    }
}

/// The number of tracked categories.
pub const SLOTS: usize = 4;

/// The tracked category of a slot.
pub fn category_at(i: usize) -> (c: Category)
    requires
        i < SLOTS,
    ensures
        c == slot_category(i as int),
        supported(c),
        slot_of(c) == i,
{
    if i == 0 {
        Category::American
    } else if i == 1 {
        Category::BritishIse
    } else if i == 2 {
        Category::Canadian
    } else {
        Category::Australian
    }
}

/// The slot of a tracked category.
pub fn slot_index(c: Category) -> (i: usize)
    requires
        supported(c),
    ensures
        i == slot_of(c),
        i < SLOTS,
        slot_category(i as int) == c,
{
    match c {
        Category::American => 0,
        Category::BritishIse => 1,
        Category::Canadian => 2,
        _ => 3,
    }
}

/// Whether an association with category `source` makes a spelling valid in
/// the tracked category `c`.
pub open spec fn covers(source: Category, c: Category) -> bool {
    supported(c) && (source == c || source == Category::Other)
}

/// The bit that stands for a category in a `CategorySet`; none for a category
/// that is not tracked.
pub open spec fn bit_of(c: Category) -> u8 {
    match c {
        Category::American => 1u8,
        Category::BritishIse => 2u8,
        Category::Canadian => 8u8,
        Category::Australian => 16u8,
        _ => 0u8,
    }
}

/// The bits of all tracked categories.
pub const ALL_BITS: u8 = 27;

/// A set of tracked categories, one bit each.
#[derive(Clone, Copy, PartialEq, Eq, Debug, Structural)]
pub struct CategorySet {
    bits: u8,
}

/// A bit of `a | b` is set exactly when it is set in `a` or in `b`.
proof fn lemma_or_mask(a: u8, b: u8, m: u8)
    by (bit_vector)
    ensures
        ((a | b) & m != 0) == ((a & m != 0) || (b & m != 0)),
{
}

/// Nothing has a bit in common with zero.
proof fn lemma_zero_mask(m: u8)
    by (bit_vector)
    ensures
        0u8 & m == 0,
        m & 0u8 == 0,
{
}

/// The bits of the tracked categories are four different bits of `ALL_BITS`.
proof fn lemma_masks()
    by (bit_vector)
    ensures
        1u8 & 1u8 != 0,
        1u8 & 2u8 == 0,
        1u8 & 8u8 == 0,
        1u8 & 16u8 == 0,
        2u8 & 1u8 == 0,
        2u8 & 2u8 != 0,
        2u8 & 8u8 == 0,
        2u8 & 16u8 == 0,
        8u8 & 1u8 == 0,
        8u8 & 2u8 == 0,
        8u8 & 8u8 != 0,
        8u8 & 16u8 == 0,
        16u8 & 1u8 == 0,
        16u8 & 2u8 == 0,
        16u8 & 8u8 == 0,
        16u8 & 16u8 != 0,
        27u8 & 1u8 != 0,
        27u8 & 2u8 != 0,
        27u8 & 8u8 != 0,
        27u8 & 16u8 != 0,
{
}

/// A number holds all of `ALL_BITS` exactly when it holds each of the four.
proof fn lemma_all_mask(a: u8)
    by (bit_vector)
    ensures
        (a & 27u8 == 27u8) == (a & 1u8 != 0 && a & 2u8 != 0 && a & 8u8 != 0 && a & 16u8 != 0),
{
}

/// A number holds none of `ALL_BITS` exactly when it holds none of the four.
proof fn lemma_none_mask(a: u8)
    by (bit_vector)
    ensures
        (a & 27u8 == 0u8) == (a & 1u8 == 0 && a & 2u8 == 0 && a & 8u8 == 0 && a & 16u8 == 0),
{
}

/// The part of a number within `ALL_BITS` is the sum of its bits there.
proof fn lemma_bits(a: u8)
    by (bit_vector)
    ensures
        (a & 27u8) == (if a & 1u8 != 0 {
            1u8
        } else {
            0u8
        }) + (if a & 2u8 != 0 {
            2u8
        } else {
            0u8
        }) + (if a & 8u8 != 0 {
            8u8
        } else {
            0u8
        }) + (if a & 16u8 != 0 {
            16u8
        } else {
            0u8
        }),
{
}

/// The number that stands for a set of categories: the sum of 1 for American,
/// 2 for British, 8 for Canadian and 16 for Australian, over its members.
pub open spec fn set_bits(s: Set<Category>) -> int {
    (if s.contains(Category::American) {
        1int
    } else {
        0int
    }) + (if s.contains(Category::BritishIse) {
        2int
    } else {
        0int
    }) + (if s.contains(Category::Canadian) {
        8int
    } else {
        0int
    }) + (if s.contains(Category::Australian) {
        16int
    } else {
        0int
    })
}

impl CategorySet {
    /// The set as a mathematical set of categories.
    pub closed spec fn view(self) -> Set<Category> {
        Set::new(|c: Category| self.bits & bit_of(c) != 0)
    }

    /// The set without members.
    pub fn empty() -> (s: CategorySet)
        ensures
            s@ == Set::<Category>::empty(),
    {
        let s = CategorySet { bits: 0 };
        proof {
            assert forall|c: Category| !s@.contains(c) by {
                lemma_zero_mask(bit_of(c));
            }
            assert(s@ =~= Set::<Category>::empty());
        }
        s
    }

    /// The set of all tracked categories.
    pub fn all() -> (s: CategorySet)
        ensures
            s@ == all_supported(),
    {
        let s = CategorySet { bits: ALL_BITS };
        proof {
            lemma_masks();
            lemma_zero_mask(27u8);
            assert(s@ =~= all_supported());
        }
        s
    }

    /// The set of one category; empty where the category is not tracked.
    pub fn of(c: Category) -> (s: CategorySet)
        ensures
            s@ == (if supported(c) {
                set![c]
            } else {
                Set::<Category>::empty()
            }),
    {
        let bits: u8 = match c {
            Category::American => 1,
            Category::BritishIse => 2,
            Category::Canadian => 8,
            Category::Australian => 16,
            _ => 0,
        };
        let s = CategorySet { bits };
        proof {
            lemma_masks();
            assert forall|d: Category| s@.contains(d) <==> (supported(c) && d == c) by {
                lemma_zero_mask(bit_of(d));
                lemma_zero_mask(bit_of(c));
            }
            if supported(c) {
                assert(s@ =~= set![c]);
            } else {
                assert(s@ =~= Set::<Category>::empty());
            }
        }
        s
    }

    /// Whether a category is a member.
    pub fn contains(&self, c: Category) -> (r: bool)
        ensures
            r == self@.contains(c),
    {
        let mask: u8 = match c {
            Category::American => 1,
            Category::BritishIse => 2,
            Category::Canadian => 8,
            Category::Australian => 16,
            _ => 0,
        };
        self.bits & mask != 0
    }

    /// The members of either set.
    pub fn union(self, other: CategorySet) -> (s: CategorySet)
        ensures
            s@ == self@.union(other@),
    {
        let s = CategorySet { bits: self.bits | other.bits };
        proof {
            assert forall|c: Category| s@.contains(c) <==> (self@.contains(c) || other@.contains(
                c,
            )) by {
                lemma_or_mask(self.bits, other.bits, bit_of(c));
            }
            assert(s@ =~= self@.union(other@));
        }
        s
    }

    /// Adds a category; one that is not tracked leaves the set as it is.
    pub fn insert(&mut self, c: Category)
        ensures
            final(self)@ == (if supported(c) {
                old(self)@.insert(c)
            } else {
                old(self)@
            }),
    {
        let one = CategorySet::of(c);
        let merged = self.union(one);
        proof {
            if supported(c) {
                assert(merged@ =~= self@.insert(c));
            } else {
                assert(merged@ =~= self@);
            }
        }
        *self = merged;
    }

    /// Whether the set holds every tracked category.
    pub fn is_all(&self) -> (r: bool)
        ensures
            r == (self@ == all_supported()),
    {
        let r = self.bits & ALL_BITS == ALL_BITS;
        proof {
            lemma_all_mask(self.bits);
            lemma_zero_mask(self.bits);
            if r {
                assert(self@ =~= all_supported());
            } else {
                if self@ == all_supported() {
                    assert(all_supported().contains(Category::American));
                    assert(all_supported().contains(Category::BritishIse));
                    assert(all_supported().contains(Category::Canadian));
                    assert(all_supported().contains(Category::Australian));
                }
            }
        }
        r
    }

    /// Whether the set has no member.
    pub fn is_empty(&self) -> (r: bool)
        ensures
            r == (self@ == Set::<Category>::empty()),
    {
        let r = self.bits & ALL_BITS == 0;
        proof {
            lemma_none_mask(self.bits);
            lemma_zero_mask(self.bits);
            if r {
                assert(self@ =~= Set::<Category>::empty());
            } else {
                if self@ == Set::<Category>::empty() {
                    assert(!self@.contains(Category::American));
                    assert(!self@.contains(Category::BritishIse));
                    assert(!self@.contains(Category::Canadian));
                    assert(!self@.contains(Category::Australian));
                }
            }
        }
        r
    }

    /// The bits of the set: 1 for American, 2 for British, 8 for Canadian and
    /// 16 for Australian.
    pub fn bits(&self) -> (b: u8)
        ensures
            b == set_bits(self@),
    {
        let b = self.bits & ALL_BITS;
        proof {
            lemma_bits(self.bits);
        }
        b
    }
}

} // verus!
