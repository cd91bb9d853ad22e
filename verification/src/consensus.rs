//! Attribute consensus: the highway classification and the tags that stand
//! for a whole group of segments.

use crate::segment::{SegmentView, StreetSegment};
use crate::tags::{entries_map, has_key, Tags};
use vstd::prelude::*;

verus! {

/// The highway classifications of the members of a group, in the order of
/// the group.
pub open spec fn member_types(segments: Seq<SegmentView>, members: Seq<usize>) -> Seq<Seq<char>> {
    Seq::new(members.len(), |k: int| segments[members[k] as int].highway_type)
}

/// The tag sets of the members of a group, in the order of the group.
pub open spec fn member_tags(segments: Seq<SegmentView>, members: Seq<usize>) -> Seq<
    Map<Seq<char>, Seq<char>>,
> {
    Seq::new(members.len(), |k: int| segments[members[k] as int].tags)
}

/// In how many places of the list the classification `t` stands.
pub open spec fn type_support(types: Seq<Seq<char>>, t: Seq<char>) -> nat
    decreases types.len(),
{
    if types.len() == 0 {
        0
    } else {
        type_support(types.drop_last(), t) + if types.last() == t {
            1nat
        } else {
            0nat
        }
    }
}

/// How many of the tag sets have the key.
pub open spec fn key_support(tags: Seq<Map<Seq<char>, Seq<char>>>, key: Seq<char>) -> nat
    decreases tags.len(),
{
    if tags.len() == 0 {
        0
    } else {
        key_support(tags.drop_last(), key) + if tags.last().contains_key(key) {
            1nat
        } else {
            0nat
        }
    }
}

/// How many of the tag sets have the key with the given value.
pub open spec fn value_support(
    tags: Seq<Map<Seq<char>, Seq<char>>>,
    key: Seq<char>,
    value: Seq<char>,
) -> nat
    decreases tags.len(),
{
    if tags.len() == 0 {
        0
    } else {
        value_support(tags.drop_last(), key, value) + if tags.last().contains_key(key)
            && tags.last()[key] == value {
            1nat
        } else {
            0nat
        }
    }
}

/// Whether place `k` holds a most frequent classification, and every later
/// place a less frequent one.
pub open spec fn is_last_most_frequent(types: Seq<Seq<char>>, k: int) -> bool {
    &&& 0 <= k < types.len()
    &&& forall|j: int|
        0 <= j < types.len() ==> type_support(types, #[trigger] types[j]) <= type_support(
            types,
            types[k],
        )
    &&& forall|j: int|
        k < j < types.len() ==> type_support(types, #[trigger] types[j]) < type_support(
            types,
            types[k],
        )
}

/// Whether `chosen` is the consensus of the classifications: the most
/// frequent one, and among several equally frequent ones the one that
/// occurs last.
pub open spec fn is_consensus_type(types: Seq<Seq<char>>, chosen: Seq<char>) -> bool {
    exists|k: int| is_last_most_frequent(types, k) && #[trigger] types[k] == chosen
}

/// Whether the key is kept in the consensus: some tag set has it, and at
/// least half of them, rounded down, do.
pub open spec fn key_qualifies(tags: Seq<Map<Seq<char>, Seq<char>>>, key: Seq<char>) -> bool {
    key_support(tags, key) >= 1 && key_support(tags, key) >= tags.len() / 2
}

/// Whether tag set `k` has the key with a most frequent value, and every
/// earlier tag set that has the key has it with a less frequent one.
pub open spec fn is_first_most_frequent(
    tags: Seq<Map<Seq<char>, Seq<char>>>,
    key: Seq<char>,
    k: int,
) -> bool {
    &&& 0 <= k < tags.len()
    &&& tags[k].contains_key(key)
    &&& forall|j: int|
        0 <= j < tags.len() && (#[trigger] tags[j]).contains_key(key) ==> value_support(
            tags,
            key,
            tags[j][key],
        ) <= value_support(tags, key, tags[k][key])
    &&& forall|j: int|
        0 <= j < k && (#[trigger] tags[j]).contains_key(key) ==> value_support(
            tags,
            key,
            tags[j][key],
        ) < value_support(tags, key, tags[k][key])
}

/// Whether the value is the consensus for the key: the most frequent one,
/// and among several equally frequent ones the one that occurs first.
pub open spec fn is_best_value(
    tags: Seq<Map<Seq<char>, Seq<char>>>,
    key: Seq<char>,
    value: Seq<char>,
) -> bool {
    exists|k: int| is_first_most_frequent(tags, key, k) && (#[trigger] tags[k])[key] == value
}

/// Whether `chosen` is the consensus of the tag sets: it has exactly the
/// keys that qualify, each with its most frequent value.
pub open spec fn is_consensus_tags(
    tags: Seq<Map<Seq<char>, Seq<char>>>,
    chosen: Map<Seq<char>, Seq<char>>,
) -> bool {
    &&& forall|key: Seq<char>| #[trigger] chosen.contains_key(key) <==> key_qualifies(tags, key)
    &&& forall|key: Seq<char>| #[trigger]
        chosen.contains_key(key) ==> is_best_value(tags, key, chosen[key])
}

/// A classification with support stands somewhere in the list, and one
/// that stands in the list has support.
pub proof fn lemma_type_support(types: Seq<Seq<char>>, t: Seq<char>)
    ensures
        type_support(types, t) <= types.len(),
        type_support(types, t) >= 1 <==> exists|i: int|
            0 <= i < types.len() && #[trigger] types[i] == t,
    decreases types.len(),
{
    if types.len() > 0 {
        let head = types.drop_last();
        lemma_type_support(head, t);
        if exists|i: int| 0 <= i < head.len() && #[trigger] head[i] == t {
            let i: int = choose|i: int| 0 <= i < head.len() && #[trigger] head[i] == t;
            assert(types[i] == t);
        }
        if types.last() == t {
            assert(types[types.len() - 1] == t);
        }
        if exists|i: int| 0 <= i < types.len() && #[trigger] types[i] == t {
            let i: int = choose|i: int| 0 <= i < types.len() && #[trigger] types[i] == t;
            if i < head.len() {
                assert(head[i] == t);
            }
        }
    }
}

/// A key with support is in one of the tag sets, and one that is in a tag
/// set has support.
pub proof fn lemma_key_support(tags: Seq<Map<Seq<char>, Seq<char>>>, key: Seq<char>)
    ensures
        key_support(tags, key) <= tags.len(),
        key_support(tags, key) >= 1 <==> exists|i: int|
            0 <= i < tags.len() && (#[trigger] tags[i]).contains_key(key),
    decreases tags.len(),
{
    if tags.len() > 0 {
        let head = tags.drop_last();
        lemma_key_support(head, key);
        if exists|i: int| 0 <= i < head.len() && (#[trigger] head[i]).contains_key(key) {
            let i: int = choose|i: int| 0 <= i < head.len() && (#[trigger] head[i]).contains_key(
                key,
            );
            assert(tags[i].contains_key(key));
        }
        if tags.last().contains_key(key) {
            assert(tags[tags.len() - 1].contains_key(key));
        }
        if exists|i: int| 0 <= i < tags.len() && (#[trigger] tags[i]).contains_key(key) {
            let i: int = choose|i: int| 0 <= i < tags.len() && (#[trigger] tags[i]).contains_key(
                key,
            );
            if i < head.len() {
                assert(head[i].contains_key(key));
            }
        }
    }
}

/// A value with support is the value of the key in one of the tag sets, and
/// one that is has support.
pub proof fn lemma_value_support(
    tags: Seq<Map<Seq<char>, Seq<char>>>,
    key: Seq<char>,
    value: Seq<char>,
)
    ensures
        value_support(tags, key, value) <= key_support(tags, key),
        value_support(tags, key, value) >= 1 <==> exists|i: int|
            0 <= i < tags.len() && (#[trigger] tags[i]).contains_key(key) && tags[i][key] == value,
    decreases tags.len(),
{
    if tags.len() > 0 {
        let head = tags.drop_last();
        lemma_value_support(head, key, value);
        if exists|i: int|
            0 <= i < head.len() && (#[trigger] head[i]).contains_key(key) && head[i][key] == value {
            let i: int = choose|i: int|
                0 <= i < head.len() && (#[trigger] head[i]).contains_key(key) && head[i][key]
                    == value;
            assert(tags[i].contains_key(key) && tags[i][key] == value);
        }
        if tags.last().contains_key(key) && tags.last()[key] == value {
            assert(tags[tags.len() - 1].contains_key(key));
        }
        if exists|i: int|
            0 <= i < tags.len() && (#[trigger] tags[i]).contains_key(key) && tags[i][key] == value {
            let i: int = choose|i: int|
                0 <= i < tags.len() && (#[trigger] tags[i]).contains_key(key) && tags[i][key]
                    == value;
            if i < head.len() {
                assert(head[i].contains_key(key) && head[i][key] == value);
            }
        }
    }
}

/// The consensus value of a key occurs, and no value of the key occurs more
/// often.
pub proof fn lemma_best_value_is_most_frequent(
    tags: Seq<Map<Seq<char>, Seq<char>>>,
    key: Seq<char>,
    value: Seq<char>,
    other: Seq<char>,
)
    requires
        is_best_value(tags, key, value),
    ensures
        value_support(tags, key, value) >= 1,
        value_support(tags, key, other) <= value_support(tags, key, value),
{
    let k: int = choose|k: int|
        is_first_most_frequent(tags, key, k) && (#[trigger] tags[k])[key] == value;
    lemma_value_support(tags, key, value);
    lemma_value_support(tags, key, other);
    if value_support(tags, key, other) >= 1 {
        let j: int = choose|j: int|
            0 <= j < tags.len() && (#[trigger] tags[j]).contains_key(key) && tags[j][key] == other;
        assert(value_support(tags, key, tags[j][key]) <= value_support(tags, key, tags[k][key]));
    }
}

/// Whether every member of the group is a place of `segments`.
pub open spec fn valid_members(members: Seq<usize>, n: int) -> bool {
    forall|k: int| 0 <= k < members.len() ==> (#[trigger] members[k]) < n
}

/// Counts the members with the given highway classification.
fn count_type(segments: &Vec<StreetSegment>, members: &Vec<usize>, t: &String) -> (count: usize)
    requires
        valid_members(members@, segments.len() as int),
    ensures
        count == type_support(member_types(segments.deep_view(), members@), t@),
{
    let ghost types = member_types(segments.deep_view(), members@);
    let mut count: usize = 0;
    let mut k: usize = 0;
    proof {
        assert(types.subrange(0, 0) =~= Seq::<Seq<char>>::empty());
    }
    while k < members.len()
        invariant
            valid_members(members@, segments.len() as int),
            types == member_types(segments.deep_view(), members@),
            k <= members.len(),
            count <= k,
            count == type_support(types.subrange(0, k as int), t@),
        decreases members.len() - k,
    {
        proof {
            let head = types.subrange(0, k + 1);
            assert(head.drop_last() =~= types.subrange(0, k as int));
            assert(head.last() == types[k as int]);
        }
        if *segments[members[k]].highway_type() == *t {
            count += 1;
        }
        k += 1;
    }
    proof {
        assert(types.subrange(0, types.len() as int) =~= types);
    }
    count
}

/// The highway classification that stands for the group: the most frequent
/// among its members, and among several equally frequent ones the one that
/// occurs last in the group.
pub fn consensus_highway_type(segments: &Vec<StreetSegment>, members: &Vec<usize>) -> (chosen:
    String)
    requires
        members.len() > 0,
        valid_members(members@, segments.len() as int),
    ensures
        is_consensus_type(member_types(segments.deep_view(), members@), chosen@),
{
    let ghost types = member_types(segments.deep_view(), members@);
    let mut best: usize = 0;
    let mut best_count: usize = count_type(segments, members, segments[members[0]].highway_type());
    let mut k: usize = 1;
    while k < members.len()
        invariant
            valid_members(members@, segments.len() as int),
            types == member_types(segments.deep_view(), members@),
            1 <= k <= members.len(),
            best < k,
            best_count == type_support(types, types[best as int]),
            forall|j: int|
                0 <= j < k ==> type_support(types, #[trigger] types[j]) <= best_count,
            forall|j: int|
                best < j < k ==> type_support(types, #[trigger] types[j]) < best_count,
        decreases members.len() - k,
    {
        let count: usize = count_type(segments, members, segments[members[k]].highway_type());
        if count >= best_count {
            best = k;
            best_count = count;
        }
        k += 1;
    }
    proof {
        assert(is_last_most_frequent(types, best as int));
        assert(types[best as int] == segments.deep_view()[members@[best as int] as int].highway_type);
    }
    segments[members[best]].highway_type().clone()
}

/// Counts the members whose tags have the key.
fn count_key(segments: &Vec<StreetSegment>, members: &Vec<usize>, key: &String) -> (count: usize)
    requires
        valid_members(members@, segments.len() as int),
    ensures
        count == key_support(member_tags(segments.deep_view(), members@), key@),
{
    let ghost tags = member_tags(segments.deep_view(), members@);
    let mut count: usize = 0;
    let mut k: usize = 0;
    proof {
        assert(tags.subrange(0, 0) =~= Seq::<Map<Seq<char>, Seq<char>>>::empty());
    }
    while k < members.len()
        invariant
            valid_members(members@, segments.len() as int),
            tags == member_tags(segments.deep_view(), members@),
            k <= members.len(),
            count <= k,
            count == key_support(tags.subrange(0, k as int), key@),
        decreases members.len() - k,
    {
        proof {
            let head = tags.subrange(0, k + 1);
            assert(head.drop_last() =~= tags.subrange(0, k as int));
            assert(head.last() == tags[k as int]);
        }
        if segments[members[k]].tags().contains_key(key) {
            count += 1;
        }
        k += 1;
    }
    proof {
        assert(tags.subrange(0, tags.len() as int) =~= tags);
    }
    count
}

/// Counts the members whose tags have the key with the given value.
fn count_value(
    segments: &Vec<StreetSegment>,
    members: &Vec<usize>,
    key: &String,
    value: &String,
) -> (count: usize)
    requires
        valid_members(members@, segments.len() as int),
    ensures
        count == value_support(member_tags(segments.deep_view(), members@), key@, value@),
{
    let ghost tags = member_tags(segments.deep_view(), members@);
    let mut count: usize = 0;
    let mut k: usize = 0;
    proof {
        assert(tags.subrange(0, 0) =~= Seq::<Map<Seq<char>, Seq<char>>>::empty());
    }
    while k < members.len()
        invariant
            valid_members(members@, segments.len() as int),
            tags == member_tags(segments.deep_view(), members@),
            k <= members.len(),
            count <= k,
            count == value_support(tags.subrange(0, k as int), key@, value@),
        decreases members.len() - k,
    {
        proof {
            let head = tags.subrange(0, k + 1);
            assert(head.drop_last() =~= tags.subrange(0, k as int));
            assert(head.last() == tags[k as int]);
        }
        match segments[members[k]].tags().get(key) {
            Some(v) => {
                if *v == *value {
                    count += 1;
                }
            },
            None => {},
        }
        k += 1;
    }
    proof {
        assert(tags.subrange(0, tags.len() as int) =~= tags);
    }
    count
}

/// The most frequent value of the key among the members: of several equally
/// frequent ones, the one that comes first in the group.
fn most_frequent_value(segments: &Vec<StreetSegment>, members: &Vec<usize>, key: &String) -> (value:
    String)
    requires
        valid_members(members@, segments.len() as int),
        key_support(member_tags(segments.deep_view(), members@), key@) >= 1,
    ensures
        is_best_value(member_tags(segments.deep_view(), members@), key@, value@),
{
    let ghost tags = member_tags(segments.deep_view(), members@);
    let mut best: Option<usize> = None;
    let mut best_count: usize = 0;
    let mut k: usize = 0;
    while k < members.len()
        invariant
            valid_members(members@, segments.len() as int),
            tags == member_tags(segments.deep_view(), members@),
            k <= members.len(),
            match best {
                Some(b) => b < k && tags[b as int].contains_key(key@) && best_count
                    == value_support(tags, key@, tags[b as int][key@]) && best_count >= 1
                    && forall|j: int|
                    0 <= j < b && (#[trigger] tags[j]).contains_key(key@) ==> value_support(
                        tags,
                        key@,
                        tags[j][key@],
                    ) < best_count,
                None => best_count == 0,
            },
            forall|j: int|
                0 <= j < k && (#[trigger] tags[j]).contains_key(key@) ==> value_support(
                    tags,
                    key@,
                    tags[j][key@],
                ) <= best_count,
        decreases members.len() - k,
    {
        match segments[members[k]].tags().get(key) {
            Some(v) => {
                let count: usize = count_value(segments, members, key, v);
                proof {
                    lemma_value_support(tags, key@, v@);
                    assert(tags[k as int].contains_key(key@) && tags[k as int][key@] == v@);
                }
                if count > best_count {
                    best = Some(k);
                    best_count = count;
                }
            },
            None => {},
        }
        k += 1;
    }
    proof {
        lemma_key_support(tags, key@);
        let i: int = choose|i: int| 0 <= i < tags.len() && (#[trigger] tags[i]).contains_key(key@);
        assert(value_support(tags, key@, tags[i][key@]) <= best_count);
        lemma_value_support(tags, key@, tags[i][key@]);
        assert(best is Some);
        assert(is_first_most_frequent(tags, key@, best.unwrap() as int));
    }
    match best {
        Some(b) => match segments[members[b]].tags().get(key) {
            Some(v) => v.clone(),
            None => String::new(),
        },
        None => String::new(),
    }
}

/// What holds of the consensus tags when the first `s` members and the
/// first `e` entries of member `s` have been looked at.
spec fn tags_inv(
    tags: Seq<Map<Seq<char>, Seq<char>>>,
    entries: Seq<Seq<(Seq<char>, Seq<char>)>>,
    chosen: Map<Seq<char>, Seq<char>>,
    s: int,
    e: int,
) -> bool {
    &&& forall|key: Seq<char>| #[trigger]
        chosen.contains_key(key) ==> key_qualifies(tags, key) && is_best_value(
            tags,
            key,
            chosen[key],
        )
    &&& forall|s1: int, e1: int|
        0 <= s1 < entries.len() && 0 <= e1 < entries[s1].len() && (s1 < s || (s1 == s && e1 < e))
            && key_qualifies(tags, (#[trigger] entries[s1][e1]).0) ==> chosen.contains_key(
            entries[s1][e1].0,
        )
}

/// The tags that stand for the group: every key that at least half of the
/// members have, rounded down, with one of its most frequent values.
pub fn consensus_tags(segments: &Vec<StreetSegment>, members: &Vec<usize>) -> (chosen: Tags)
    requires
        valid_members(members@, segments.len() as int),
    ensures
        is_consensus_tags(member_tags(segments.deep_view(), members@), chosen@),
{
    let ghost tags = member_tags(segments.deep_view(), members@);
    let ghost entries = Seq::new(
        members@.len(),
        |k: int| segments@[members@[k] as int].tags_entries(),
    );
    let threshold: usize = members.len() / 2;
    let mut chosen = Tags::new();
    let mut seen = Tags::new();
    let mut s: usize = 0;
    while s < members.len()
        invariant
            valid_members(members@, segments.len() as int),
            tags == member_tags(segments.deep_view(), members@),
            entries == Seq::new(
                members@.len(),
                |k: int| segments@[members@[k] as int].tags_entries(),
            ),
            threshold == members.len() / 2,
            s <= members.len(),
            tags_inv(tags, entries, chosen@, s as int, 0),
            forall|key: Seq<char>| #[trigger]
                seen@.contains_key(key) && key_qualifies(tags, key) ==> chosen@.contains_key(key),
        decreases members.len() - s,
    {
        let own: &Tags = segments[members[s]].tags();
        let count: usize = own.len();
        let mut e: usize = 0;
        while e < count
            invariant
                valid_members(members@, segments.len() as int),
                tags == member_tags(segments.deep_view(), members@),
                entries == Seq::new(
                    members@.len(),
                    |k: int| segments@[members@[k] as int].tags_entries(),
                ),
                threshold == members.len() / 2,
                s < members.len(),
                own.entries_view() == entries[s as int],
                own@ == tags[s as int],
                count == entries[s as int].len(),
                e <= count,
                tags_inv(tags, entries, chosen@, s as int, e as int),
                forall|key: Seq<char>| #[trigger]
                    seen@.contains_key(key) && key_qualifies(tags, key) ==> chosen@.contains_key(
                        key,
                    ),
            decreases count - e,
        {
            let key: &String = own.key_at(e);
            let ghost before = chosen@;
            if !seen.contains_key(key) {
                seen.insert(key.clone(), String::new());
                let support: usize = count_key(segments, members, key);
                proof {
                    lemma_key_support(tags, key@);
                    assert(tags[s as int].contains_key(key@));
                }
                if support >= threshold {
                    let value: String = most_frequent_value(segments, members, key);
                    chosen.insert(key.clone(), value);
                }
            }
            proof {
                let now = chosen@;
                assert forall|key1: Seq<char>| #[trigger] now.contains_key(key1) implies key_qualifies(
                    tags,
                    key1,
                ) && is_best_value(tags, key1, now[key1]) by {
                    if before.contains_key(key1) {
                        assert(now[key1] == before[key1]);
                    }
                }
                assert forall|s1: int, e1: int|
                    0 <= s1 < entries.len() && 0 <= e1 < entries[s1].len() && (s1 < s || (s1 == s
                        && e1 < e + 1)) && key_qualifies(
                        tags,
                        (#[trigger] entries[s1][e1]).0,
                    ) implies now.contains_key(entries[s1][e1].0) by {
                    if s1 == s && e1 == e {
                    } else {
                        assert(before.contains_key(entries[s1][e1].0));
                    }
                }
            }
            e += 1;
        }
        s += 1;
    }
    proof {
        let now = chosen@;
        assert forall|key: Seq<char>| key_qualifies(tags, key) implies now.contains_key(key) by {
            lemma_key_support(tags, key);
            let i: int = choose|i: int| 0 <= i < tags.len() && (#[trigger] tags[i]).contains_key(key);
            segments@[members@[i] as int].lemma_tags_listed();
            assert(tags[i] == entries_map(entries[i]));
            assert(has_key(entries[i], key));
            let e1: int = choose|e1: int| 0 <= e1 < entries[i].len() && (#[trigger] entries[i][e1]).0
                == key;
            assert(key_qualifies(tags, entries[i][e1].0));
        }
    }
    chosen
}

} // verus!
