//! The identity registry: each distinct user and each distinct repository
//! gets a dense index, starting at zero, in the order in which the names
//! first appear in the events.
//!
//! Names are found by hash. The buckets are keyed by the 64-bit hash of the
//! name and hold the positions of the names with that hash, so a lookup
//! compares the name with the few names of one bucket.

use vstd::prelude::*;
use std::collections::HashMap;
use crate::error::PipelineError;
use crate::event::InputItem;
use crate::text::{hash_of, hash_text, same_text};

verus! {

broadcast use vstd::std_specs::hash::group_hash_axioms;

/// A list of names as a sequence of texts.
pub open spec fn names_view(names: Seq<String>) -> Seq<Seq<char>> {
    Seq::new(names.len(), |i: int| names[i]@)
}

/// The distinct elements of `s`, each at the place of its first occurrence.
pub open spec fn first_occurrences<T>(s: Seq<T>) -> Seq<T>
    decreases s.len(),
{
    if s.len() == 0 {
        Seq::empty()
    } else {
        let before = first_occurrences(s.drop_last());
        if before.contains(s.last()) {
            before
        } else {
            before.push(s.last())
        }
    }
}

/// The user of each event.
pub open spec fn users_of(events: Seq<InputItem>) -> Seq<Seq<char>> {
    Seq::new(events.len(), |n: int| events[n].user@)
}

/// The repository of each event.
pub open spec fn repos_of(events: Seq<InputItem>) -> Seq<Seq<char>> {
    Seq::new(events.len(), |n: int| events[n].repo@)
}

/// The first occurrences among the first `n + 1` elements are those among
/// the first `n`, followed by element `n` if it is new.
pub proof fn lemma_first_occurrences_step<T>(s: Seq<T>, n: int)
    requires
        0 <= n < s.len(),
    ensures
        first_occurrences(s.take(n + 1)) == if first_occurrences(s.take(n)).contains(s[n]) {
            first_occurrences(s.take(n))
        } else {
            first_occurrences(s.take(n)).push(s[n])
        },
{
    assert(s.take(n + 1).drop_last() =~= s.take(n));
}

/// The first occurrences hold exactly the elements of the sequence, each once.
pub proof fn lemma_first_occurrences<T>(s: Seq<T>)
    ensures
        first_occurrences(s).no_duplicates(),
        forall|x: T| first_occurrences(s).contains(x) <==> s.contains(x),
    decreases s.len(),
{
    if s.len() > 0 {
        let rest = s.drop_last();
        let last = s[s.len() - 1];
        let before = first_occurrences(rest);
        let after = first_occurrences(s);
        lemma_first_occurrences(rest);
        assert(after == if before.contains(last) {
            before
        } else {
            before.push(last)
        });
        assert forall|x: T| after.contains(x) <==> s.contains(x) by {
            if after.contains(x) {
                let i = choose|i: int| 0 <= i < after.len() && after[i] == x;
                if i < before.len() {
                    assert(before[i] == x);
                    assert(before.contains(x));
                    assert(rest.contains(x));
                    let j = choose|j: int| 0 <= j < rest.len() && rest[j] == x;
                    assert(s[j] == x);
                } else {
                    assert(s[s.len() - 1] == x);
                }
            }
            if s.contains(x) {
                let j = choose|j: int| 0 <= j < s.len() && s[j] == x;
                if j < rest.len() {
                    assert(rest[j] == x);
                    assert(rest.contains(x));
                    assert(before.contains(x));
                    let i = choose|i: int| 0 <= i < before.len() && before[i] == x;
                    assert(after[i] == x);
                } else if !before.contains(x) {
                    assert(after[before.len() as int] == x);
                }
            }
        }
        if !before.contains(last) {
            assert forall|i: int, j: int| 0 <= i < after.len() && 0 <= j < after.len() && i
                != j implies after[i] != after[j] by {
                if i == before.len() {
                    assert(before[j] == after[j]);
                } else if j == before.len() {
                    assert(before[i] == after[i]);
                }
            }
        }
    }
}

/// The buckets find every name: the bucket of a name's hash holds the name's
/// position, buckets hold positions of names only, and no name occurs twice.
spec fn indexed(names: Seq<String>, buckets: Map<u64, Vec<usize>>) -> bool {
    &&& forall|i: int, j: int|
        0 <= i < j < names.len() ==> (#[trigger] names[i])@ != (#[trigger] names[j])@
    &&& forall|i: int|
        0 <= i < names.len() ==> buckets.contains_key(hash_text((#[trigger] names[i])@))
            && buckets[hash_text(names[i]@)]@.contains(i as usize)
    &&& forall|h: u64, j: int|
        buckets.contains_key(h) && 0 <= j < buckets[h]@.len() ==> (#[trigger] buckets[h]@[j])
            < names.len()
}

/// The position of `name` among `names`, if it is one of them.
fn find(names: &Vec<String>, buckets: &HashMap<u64, Vec<usize>>, name: &str) -> (found: Option<
    usize,
>)
    requires
        indexed(names@, buckets@),
    ensures
        match found {
            Some(i) => i < names.len() && names[i as int]@ == name@,
            None => !names_view(names@).contains(name@),
        },
{
    let h: u64 = hash_of(name);
    match buckets.get(&h) {
        Some(bucket) => {
            let mut j: usize = 0;
            while j < bucket.len()
                invariant
                    j <= bucket.len(),
                    indexed(names@, buckets@),
                    h == hash_text(name@),
                    buckets@.contains_key(h),
                    buckets@[h] == *bucket,
                    forall|a: int| 0 <= a < j ==> names[bucket@[a] as int]@ != name@,
                decreases bucket.len() - j,
            {
                let i: usize = bucket[j];
                assert(buckets@[h]@[j as int] < names.len());
                if same_text(names[i].as_str(), name) {
                    return Some(i);
                }
                j = j + 1;
            }
            proof {
                if names_view(names@).contains(name@) {
                    let i = choose|i: int|
                        0 <= i < names_view(names@).len() && names_view(names@)[i] == name@;
                    assert(names@[i]@ == name@);
                    assert(i < names.len());
                    assert(bucket@.contains(i as usize));
                    let a = choose|a: int| 0 <= a < bucket@.len() && bucket@[a] == i as usize;
                    assert(names[bucket@[a] as int]@ != name@);
                }
            }
            None
        },
        None => {
            proof {
                if names_view(names@).contains(name@) {
                    let i = choose|i: int|
                        0 <= i < names_view(names@).len() && names_view(names@)[i] == name@;
                    assert(names@[i]@ == name@);
                    assert(buckets@.contains_key(hash_text(names@[i]@)));
                }
            }
            None
        },
    }
}

/// Adds a name that is not among `names` yet, at the end.
fn append(names: &mut Vec<String>, buckets: &mut HashMap<u64, Vec<usize>>, name: String)
    requires
        indexed(old(names)@, old(buckets)@),
        !names_view(old(names)@).contains(name@),
    ensures
        indexed(final(names)@, final(buckets)@),
        final(names)@ == old(names)@.push(name),
{
    let h: u64 = hash_of(name.as_str());
    let i: usize = names.len();
    let ghost old_names = names@;
    let ghost old_buckets = buckets@;
    let mut bucket: Vec<usize> = match buckets.remove(&h) {
        Some(bucket) => bucket,
        None => Vec::new(),
    };
    let ghost old_bucket = bucket@;
    bucket.push(i);
    let ghost new_bucket = bucket@;
    buckets.insert(h, bucket);
    names.push(name);
    proof {
        let new_names = names@;
        let new_buckets = buckets@;
        assert(new_buckets[h]@ == new_bucket);
        assert(new_bucket[old_bucket.len() as int] == i);
        assert forall|a: int, b: int|
            0 <= a < b < new_names.len() implies (#[trigger] new_names[a])@
            != (#[trigger] new_names[b])@ by {
            if b == old_names.len() {
                assert(names_view(old_names)[a] == old_names[a]@);
            }
        }
        assert forall|a: int| 0 <= a < new_names.len() implies new_buckets.contains_key(
            hash_text((#[trigger] new_names[a])@),
        ) && new_buckets[hash_text(new_names[a]@)]@.contains(a as usize) by {
            if a < old_names.len() {
                let ha = hash_text(old_names[a]@);
                assert(old_buckets[ha]@.contains(a as usize));
                if ha == h {
                    let b = choose|b: int| 0 <= b < old_bucket.len() && old_bucket[b] == a as usize;
                    assert(new_bucket[b] == a as usize);
                }
            } else {
                assert(new_bucket[old_bucket.len() as int] == a as usize);
            }
        }
        assert forall|g: u64, j: int|
            new_buckets.contains_key(g) && 0 <= j < new_buckets[g]@.len()
            implies (#[trigger] new_buckets[g]@[j]) < new_names.len() by {
            if g == h {
                if j < old_bucket.len() {
                    assert(old_buckets.contains_key(h));
                    assert(old_buckets[h]@[j] < old_names.len());
                }
            } else {
                assert(old_buckets[g]@[j] < old_names.len());
            }
        }
    }
}

/// The names that the events contribute: their repositories or their users.
pub open spec fn names_of(events: Seq<InputItem>, repos: bool) -> Seq<Seq<char>> {
    if repos {
        repos_of(events)
    } else {
        users_of(events)
    }
}

/// The distinct user names, or repository names, of the events in order of
/// first appearance.
fn distinct_names(data: &[InputItem], repos: bool) -> (names: Vec<String>)
    ensures
        names_view(names@) == first_occurrences(names_of(data@, repos)),
{
    let ghost all = names_of(data@, repos);
    let mut names: Vec<String> = Vec::new();
    let mut buckets: HashMap<u64, Vec<usize>> = HashMap::new();
    let mut n: usize = 0;
    proof {
        assert(names_view(names@) =~= first_occurrences(all.take(0)));
    }
    while n < data.len()
        invariant
            n <= data.len(),
            all == names_of(data@, repos),
            indexed(names@, buckets@),
            names_view(names@) == first_occurrences(all.take(n as int)),
        decreases data.len() - n,
    {
        let name: &String = if repos {
            &data[n].repo
        } else {
            &data[n].user
        };
        proof {
            assert(all[n as int] == name@);
            lemma_first_occurrences_step(all, n as int);
        }
        let ghost before = names@;
        match find(&names, &buckets, name.as_str()) {
            Some(i) => {
                proof {
                    assert(names_view(names@)[i as int] == name@);
                }
            },
            None => {
                append(&mut names, &mut buckets, name.clone());
                proof {
                    assert(names_view(names@) =~= names_view(before).push(name@));
                }
            },
        }
        n = n + 1;
    }
    proof {
        assert(all.take(data@.len() as int) =~= all);
    }
    names
}

/// The distinct user names of the events, in order of first appearance.
///
/// The position of a name in the list is the user's index.
pub fn gen_uid_list(data: &[InputItem]) -> (uids: Vec<String>)
    ensures
        names_view(uids@) == first_occurrences(users_of(data@)),
{
    distinct_names(data, false)
}

/// The distinct repository names of the events, in order of first appearance.
///
/// The position of a name in the list is the repository's index.
pub fn gen_rid_list(data: &[InputItem]) -> (rids: Vec<String>)
    ensures
        names_view(rids@) == first_occurrences(repos_of(data@)),
{
    distinct_names(data, true)
}

/// A list of distinct names that finds the index of a name.
pub struct NameIndex {
    names: Vec<String>,
    buckets: HashMap<u64, Vec<usize>>,
}

impl View for NameIndex {
    type V = Seq<Seq<char>>;

    /// The names, each at its index.
    closed spec fn view(&self) -> Seq<Seq<char>> {
        names_view(self.names@)
    }
}

impl NameIndex {
    /// What holds of every index: the buckets find every name, no name
    /// occurs twice, and every position is a 32-bit index.
    #[verifier::type_invariant]
    pub closed spec fn well_formed(&self) -> bool {
        &&& indexed(self.names@, self.buckets@)
        &&& self.names.len() <= u32::MAX
    }

    /// An index gives each name one position: its names are distinct, and
    /// there are at most `u32::MAX` of them.
    pub proof fn lemma_names_distinct(&self)
        requires
            self.well_formed(),
        ensures
            self@.no_duplicates(),
            self@.len() <= u32::MAX,
    {
        let names = self.names@;
        assert forall|i: int, j: int|
            0 <= i < self@.len() && 0 <= j < self@.len() && i != j implies self@[i] != self@[j] by {
            if i < j {
                assert(names[i]@ != names[j]@);
            } else {
                assert(names[j]@ != names[i]@);
            }
        }
    }

    /// How many names the index holds. Every index below it is taken.
    pub fn len(&self) -> (n: usize)
        ensures
            n == self@.len(),
            n <= u32::MAX,
    {
        proof {
            use_type_invariant(self);
        }
        self.names.len()
    }

    /// The index of `name`, or `None` if the index does not hold it.
    pub fn get(&self, name: &str) -> (found: Option<u32>)
        ensures
            match found {
                Some(i) => i < self@.len() && self@[i as int] == name@,
                None => !self@.contains(name@),
            },
    {
        proof {
            use_type_invariant(self);
        }
        match find(&self.names, &self.buckets, name) {
            Some(i) => Some(i as u32),
            None => None,
        }
    }

    /// The name at index `i`, or `None` if no name has that index.
    pub fn name(&self, i: u32) -> (found: Option<&String>)
        ensures
            match found {
                Some(name) => i < self@.len() && name@ == self@[i as int],
                None => i >= self@.len(),
            },
    {
        if (i as usize) < self.names.len() {
            Some(&self.names[i as usize])
        } else {
            None
        }
    }
}

/// The index of a list of names: each name is mapped to its position.
///
/// Fails with `TooManyNames` where the list has more than `u32::MAX` names,
/// and otherwise with `DuplicateName` where a name occurs twice, since an
/// index gives each name one position and each position one name.
pub fn list_to_map(list: &[String]) -> (result: Result<NameIndex, PipelineError>)
    ensures
        match result {
            Ok(index) => {
                &&& index@ == names_view(list@)
                &&& list.len() <= u32::MAX
                &&& names_view(list@).no_duplicates()
            },
            Err(PipelineError::TooManyNames) => list.len() > u32::MAX,
            Err(PipelineError::DuplicateName) => {
                &&& list.len() <= u32::MAX
                &&& !names_view(list@).no_duplicates()
            },
            Err(_) => false,
        },
{
    if list.len() > u32::MAX as usize {
        return Err(PipelineError::TooManyNames);
    }
    let mut names: Vec<String> = Vec::new();
    let mut buckets: HashMap<u64, Vec<usize>> = HashMap::new();
    let mut n: usize = 0;
    while n < list.len()
        invariant
            n <= list.len(),
            list.len() <= u32::MAX,
            indexed(names@, buckets@),
            names_view(names@) == names_view(list@).take(n as int),
        decreases list.len() - n,
    {
        let ghost before = names@;
        let ghost all = names_view(list@);
        match find(&names, &buckets, list[n].as_str()) {
            Some(i) => {
                proof {
                    assert(names_view(names@).len() == names@.len());
                    assert(all.take(n as int).len() == n);
                    assert(i < n);
                    assert(names_view(names@)[i as int] == names@[i as int]@);
                    assert(all.take(n as int)[i as int] == all[i as int]);
                    assert(all[n as int] == list@[n as int]@);
                    assert(all[i as int] == all[n as int]);
                }
                return Err(PipelineError::DuplicateName);
            },
            None => {
                append(&mut names, &mut buckets, list[n].clone());
                proof {
                    assert(names_view(before) == all.take(n as int));
                    assert(names_view(names@) =~= names_view(before).push(list@[n as int]@));
                    assert(all.take(n + 1) =~= all.take(n as int).push(all[n as int]));
                }
            },
        }
        n = n + 1;
    }
    proof {
        let all = names_view(list@);
        assert(all.take(list@.len() as int) =~= all);
        assert forall|i: int, j: int| 0 <= i < all.len() && 0 <= j < all.len() && i != j implies all[i]
            != all[j] by {
            assert(names_view(names@)[i] == names@[i]@);
            assert(names_view(names@)[j] == names@[j]@);
            if i < j {
                assert(names@[i]@ != names@[j]@);
            } else {
                assert(names@[j]@ != names@[i]@);
            }
        }
    }
    Ok(NameIndex { names, buckets })
}

} // verus!
