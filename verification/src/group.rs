//! Buckets of words that share a grade, and the statistics of a whole grouping.

use crate::grade::Grade;
use crate::partition::{lemma_total_words_of_prefix, total_words};
use crate::word::{AllWords, Word};
use rayon::iter::{IntoParallelRefIterator, ParallelIterator};
use vstd::prelude::*;

verus! {

/// A grade and the words that got it.
#[derive(Debug)]
pub struct Group {
    grade: Grade,
    words: AllWords,
}

/// The groups of one grouping, in the order in which their grades first occurred.
#[derive(Debug)]
pub struct AllGroups {
    groups: Vec<Group>,
}

/// A mean bucket size as an exact fraction: the number of words in all buckets over
/// the number of buckets.
#[derive(Clone, Copy, Debug, PartialEq, Eq, Structural)]
pub struct AverageLength {
    pub total: usize,
    pub groups: usize,
}

/// The grade and the words of each group, in order.
pub open spec fn buckets_of(groups: Seq<Group>) -> Seq<(nat, Seq<Seq<char>>)> {
    Seq::new(groups.len(), |i: int| groups[i]@)
}

/// Whether the fraction `a.0 / a.1` is smaller than `b.0 / b.1`, for positive
/// denominators.
pub open spec fn mean_below(a: (nat, nat), b: (nat, nat)) -> bool {
    a.0 * b.1 < b.0 * a.1
}

impl View for Group {
    type V = (nat, Seq<Seq<char>>);

    closed spec fn view(&self) -> (nat, Seq<Seq<char>>) {
        (self.grade@, self.words@)
    }
}

impl View for AllGroups {
    type V = Seq<(nat, Seq<Seq<char>>)>;

    closed spec fn view(&self) -> Seq<(nat, Seq<Seq<char>>)> {
        buckets_of(self.groups@)
    }
}

impl View for AverageLength {
    type V = (nat, nat);

    open spec fn view(&self) -> (nat, nat) {
        (self.total as nat, self.groups as nat)
    }
}

impl AverageLength {
    /// Whether this mean is smaller than the other: the fractions are compared
    /// exactly, by cross-multiplication.
    pub fn is_below(&self, other: &AverageLength) -> (below: bool)
        ensures
            below == mean_below(self@, other@),
    {
        let left_total: u128 = self.total as u128;
        let left_groups: u128 = self.groups as u128;
        let right_total: u128 = other.total as u128;
        let right_groups: u128 = other.groups as u128;
        assert(left_total * right_groups <= 0xffff_ffff_ffff_ffff * 0xffff_ffff_ffff_ffff)
            by (nonlinear_arith)
            requires
                left_total <= 0xffff_ffff_ffff_ffff,
                right_groups <= 0xffff_ffff_ffff_ffff,
        ;
        assert(right_total * left_groups <= 0xffff_ffff_ffff_ffff * 0xffff_ffff_ffff_ffff)
            by (nonlinear_arith)
            requires
                right_total <= 0xffff_ffff_ffff_ffff,
                left_groups <= 0xffff_ffff_ffff_ffff,
        ;
        left_total * right_groups < right_total * left_groups
    }
}

impl Clone for Group {
    fn clone(&self) -> (copy: Self)
        ensures
            copy@ == self@,
    {
        Group { grade: self.grade, words: self.words.clone() }
    }
}

impl Clone for AllGroups {
    fn clone(&self) -> (copy: Self)
        ensures
            copy@ == self@,
    {
        let mut groups: Vec<Group> = Vec::new();
        let mut i: usize = 0;
        while i < self.groups.len()
            invariant
                i <= self.groups@.len(),
                groups@.len() == i,
                forall|k: int| 0 <= k < i ==> groups@[k]@ == self.groups@[k]@,
            decreases self.groups@.len() - i,
        {
            groups.push(self.groups[i].clone());
            i = i + 1;
        }
        let copy = AllGroups { groups };
        assert(copy@ =~= self@);
        copy
    }
}

impl Group {
    /// The group of the given grade with the given words.
    pub fn new(grade: Grade, words: AllWords) -> (group: Group)
        ensures
            group@ == (grade@, words@),
    {
        Group { grade, words }
    }

    /// The grade that the words of the group share.
    pub fn get_grade(&self) -> (grade: &Grade)
        ensures
            grade@ == self@.0,
    {
        &self.grade
    }

    /// Puts a word at the end of the group.
    pub fn push_word(&mut self, word: Word)
        ensures
            final(self)@ == (old(self)@.0, old(self)@.1.push(word@)),
    {
        self.words.push_word(word);
    }

    /// The words of the group, in the order in which they were put in.
    pub fn get_words(&self) -> (words: &AllWords)
        ensures
            words@ == self@.1,
    {
        &self.words
    }

    /// The number of words in the group.
    pub fn get_length(&self) -> (n: usize)
        ensures
            n == self@.1.len(),
    {
        self.words.get_length()
    }

    /// Whether the group is that of the given grade.
    pub fn has_grade(&self, grade: Grade) -> (same: bool)
        ensures
            same == (self@.0 == grade@),
    {
        self.grade.get_grade() == grade.get_grade()
    }
}

/// The group with the most words, by `rayon`'s `max_by_key` over the groups with
/// the number of words as the key.
///
/// Taken on trust: the result is `None` exactly for no groups; otherwise it is one of
/// the groups, and no group has more words. Which of several largest groups comes
/// back is left open.
#[verifier::external_body]
fn par_longest(groups: &Vec<Group>) -> (longest: Option<&Group>)
    ensures
        longest is None <==> groups@.len() == 0,
        longest is Some ==> exists|i: int|
            0 <= i < groups@.len() && *longest->Some_0 == #[trigger] groups@[i] && forall|j: int|
                0 <= j < groups@.len() ==> (#[trigger] groups@[j])@.1.len() <= groups@[i]@.1.len(),
{
    groups.par_iter().max_by_key(|group| group.get_length())
}

/// The first group of the given grade, by `rayon`'s `find_first` over the groups.
///
/// Taken on trust: the result is the first group in order for which `has_grade`
/// holds, and `None` if it holds for none.
#[verifier::external_body]
fn par_find_first(groups: &Vec<Group>, grade: Grade) -> (found: Option<&Group>)
    ensures
        found is None <==> forall|j: int|
            0 <= j < groups@.len() ==> (#[trigger] groups@[j])@.0 != grade@,
        found is Some ==> exists|i: int|
            0 <= i < groups@.len() && *found->Some_0 == #[trigger] groups@[i] && groups@[i]@.0
                == grade@ && forall|j: int| 0 <= j < i ==> (#[trigger] groups@[j])@.0 != grade@,
{
    groups.par_iter().find_first(|group| group.has_grade(grade))
}

impl AllGroups {
    /// Whether `i` is the place of the first group of the given grade.
    pub open spec fn is_first_of_grade(buckets: Seq<(nat, Seq<Seq<char>>)>, grade: nat, i: int) -> bool {
        &&& 0 <= i < buckets.len()
        &&& buckets[i].0 == grade
        &&& forall|j: int| 0 <= j < i ==> (#[trigger] buckets[j]).0 != grade
    }

    /// Whether some group has the given grade.
    pub open spec fn has_grade(buckets: Seq<(nat, Seq<Seq<char>>)>, grade: nat) -> bool {
        exists|j: int| 0 <= j < buckets.len() && (#[trigger] buckets[j]).0 == grade
    }

    /// Whether `i` is the place of a group that no group has more words than.
    pub open spec fn is_longest(buckets: Seq<(nat, Seq<Seq<char>>)>, i: int) -> bool {
        &&& 0 <= i < buckets.len()
        &&& forall|j: int|
            0 <= j < buckets.len() ==> (#[trigger] buckets[j]).1.len() <= buckets[i].1.len()
    }

    /// The grouping of the given groups, in their order.
    pub fn new(groups: Vec<Group>) -> (all: AllGroups)
        ensures
            all@ == buckets_of(groups@),
    {
        AllGroups { groups }
    }

    /// The number of groups.
    pub fn get_length(&self) -> (n: usize)
        ensures
            n == self@.len(),
    {
        self.groups.len()
    }

    /// The group at the given place, counted from 0 in the order of the grouping.
    pub fn get(&self, index: usize) -> (group: &Group)
        requires
            index < self@.len(),
        ensures
            group@ == self@[index as int],
    {
        &self.groups[index]
    }

    /// The mean number of words in a group, as the exact fraction of the number of
    /// words in all groups over the number of groups.
    pub fn get_average_length(&self) -> (mean: AverageLength)
        requires
            total_words(self@) <= usize::MAX,
        ensures
            mean@ == (total_words(self@), self@.len()),
    {
        let ghost buckets = self@;
        let mut sum: usize = 0;
        let mut i: usize = 0;
        proof {
            assert(buckets.subrange(0, 0) =~= Seq::empty());
        }
        while i < self.groups.len()
            invariant
                i <= self.groups@.len(),
                buckets == buckets_of(self.groups@),
                sum == total_words(buckets.subrange(0, i as int)),
                total_words(buckets) <= usize::MAX,
            decreases self.groups@.len() - i,
        {
            proof {
                assert(buckets.subrange(0, i + 1).drop_last() =~= buckets.subrange(0, i as int));
                lemma_total_words_of_prefix(buckets, (i + 1) as nat);
            }
            sum = sum + self.groups[i].get_length();
            i = i + 1;
        }
        proof {
            assert(buckets.subrange(0, buckets.len() as int) =~= buckets);
        }
        AverageLength { total: sum, groups: self.groups.len() }
    }

    /// A group that no group has more words than.
    pub fn get_longest_group(&self) -> (group: &Group)
        requires
            self@.len() > 0,
        ensures
            exists|i: int| Self::is_longest(self@, i) && group@ == self@[i],
    {
        let longest = par_longest(&self.groups);
        proof {
            let i = choose|i: int|
                0 <= i < self.groups@.len() && *longest->Some_0 == #[trigger] self.groups@[i]
                    && forall|j: int|
                    0 <= j < self.groups@.len() ==> (#[trigger] self.groups@[j])@.1.len()
                        <= self.groups@[i]@.1.len();
            assert forall|j: int| 0 <= j < self@.len() implies (#[trigger] self@[j]).1.len()
                <= self@[i].1.len() by {
                assert(self.groups@[j]@.1.len() <= self.groups@[i]@.1.len());
            }
            assert(Self::is_longest(self@, i) && longest->Some_0@ == self@[i]);
        }
        longest.unwrap()
    }

    /// The first group of the given grade, if there is one.
    pub fn find_group_from_grade(&self, grade: Grade) -> (found: Option<&Group>)
        ensures
            found is Some <==> Self::has_grade(self@, grade@),
            found is Some ==> exists|i: int|
                Self::is_first_of_grade(self@, grade@, i) && found->Some_0@ == self@[i],
    {
        let found = par_find_first(&self.groups, grade);
        proof {
            if found is Some {
                let i = choose|i: int|
                    0 <= i < self.groups@.len() && *found->Some_0 == #[trigger] self.groups@[i]
                        && self.groups@[i]@.0 == grade@ && forall|j: int|
                        0 <= j < i ==> (#[trigger] self.groups@[j])@.0 != grade@;
                assert(self@[i].0 == grade@);
                assert forall|j: int| 0 <= j < i implies (#[trigger] self@[j]).0 != grade@ by {
                    assert(self.groups@[j]@.0 != grade@);
                }
                assert(Self::is_first_of_grade(self@, grade@, i) && found->Some_0@ == self@[i]);
            } else {
                assert forall|j: int| 0 <= j < self@.len() implies (#[trigger] self@[j]).0
                    != grade@ by {
                    assert(self.groups@[j]@.0 != grade@);
                }
            }
        }
        found
    }

    /// The first group of the given grade.
    pub fn get_group_from_grade(&self, grade: Grade) -> (group: &Group)
        requires
            Self::has_grade(self@, grade@),
        ensures
            exists|i: int| Self::is_first_of_grade(self@, grade@, i) && group@ == self@[i],
    {
        self.find_group_from_grade(grade).unwrap()
    }
}

} // verus!
