//! Lists of texts: what they spell, which items repeat, and how they join.

use itertools::Itertools;
use vstd::prelude::*;

verus! {

/// What the items of `list` spell.
pub open spec fn texts(list: Seq<String>) -> Seq<Seq<char>> {
    list.map_values(|item: String| item@)
}

/// The items of `list`, each where it first occurs.
pub open spec fn without_repeats(list: Seq<Seq<char>>) -> Seq<Seq<char>>
    decreases list.len(),
{
    if list.len() == 0 {
        list
    } else if list.drop_last().contains(list.last()) {
        without_repeats(list.drop_last())
    } else {
        without_repeats(list.drop_last()).push(list.last())
    }
}

/// The first `max` items of `list`, or all of them when there are fewer.
pub open spec fn first_items<A>(list: Seq<A>, max: int) -> Seq<A> {
    if list.len() <= max {
        list
    } else {
        list.take(max)
    }
}

/// The last `max` items of `list`, or all of them when there are fewer.
pub open spec fn last_items<A>(list: Seq<A>, max: int) -> Seq<A> {
    if list.len() <= max {
        list
    } else {
        list.skip(list.len() - max)
    }
}

/// The first item that `wanted` holds of.
pub open spec fn first_where<A>(list: Seq<A>, wanted: spec_fn(A) -> bool) -> Option<A>
    decreases list.len(),
{
    if list.len() == 0 {
        None
    } else if wanted(list[0]) {
        Some(list[0])
    } else {
        first_where(list.drop_first(), wanted)
    }
}

/// The first item wanted is the one at `at`, where none before it is.
pub proof fn lemma_first_where<A>(list: Seq<A>, wanted: spec_fn(A) -> bool, at: int)
    requires
        0 <= at <= list.len(),
        forall|i: int| 0 <= i < at ==> !wanted(#[trigger] list[i]),
        at < list.len() ==> wanted(list[at]),
    ensures
        first_where(list, wanted) == (if at < list.len() {
            Some(list[at])
        } else {
            None
        }),
    decreases at,
{
    if at > 0 {
        assert(!wanted(list[0]));
        let rest = list.drop_first();
        assert forall|i: int| 0 <= i < at - 1 implies !wanted(#[trigger] rest[i]) by {
            assert(rest[i] == list[i + 1]);
        }
        lemma_first_where(rest, wanted, at - 1);
    }
}

/// The items of `list` in one text, with `separator` between them.
pub open spec fn joined(list: Seq<Seq<char>>, separator: Seq<char>) -> Seq<char>
    decreases list.len(),
{
    if list.len() == 0 {
        Seq::empty()
    } else if list.len() == 1 {
        list[0]
    } else {
        joined(list.drop_last(), separator) + separator + list.last()
    }
}

/// `Itertools::unique` keeps each text where it first occurs, in order, and drops every later
/// occurrence of it.
#[verifier::external_body]
pub(crate) fn unique(list: Vec<String>) -> (kept: Vec<String>)
    ensures
        texts(kept@) == without_repeats(texts(list@)),
{
    list.into_iter().unique().collect_vec()
}

/// Dropping repeats keeps the same items, none of them twice.
pub proof fn repeats_are_dropped(list: Seq<Seq<char>>)
    ensures
        without_repeats(list).no_duplicates(),
        without_repeats(list).len() <= list.len(),
        forall|item: Seq<char>| #[trigger]
            without_repeats(list).contains(item) <==> list.contains(item),
    decreases list.len(),
{
    if list.len() > 0 {
        let rest = list.drop_last();
        let kept = without_repeats(rest);
        repeats_are_dropped(rest);
        assert(list =~= rest.push(list.last()));
        if !rest.contains(list.last()) {
            assert(!kept.contains(list.last()));
            let grown = kept.push(list.last());
            assert forall|i: int, j: int|
                0 <= i < grown.len() && 0 <= j < grown.len() && i != j implies grown[i]
                != grown[j] by {
                if i < kept.len() {
                    assert(kept.contains(kept[i]));
                }
                if j < kept.len() {
                    assert(kept.contains(kept[j]));
                }
            }
        }
        assert forall|item: Seq<char>| #[trigger]
            without_repeats(list).contains(item) <==> list.contains(item) by {
            if list.contains(item) {
                let i = choose|i: int| 0 <= i < list.len() && list[i] == item;
                if i < rest.len() {
                    assert(rest[i] == item);
                    assert(kept.contains(item));
                    let k = choose|k: int| 0 <= k < kept.len() && kept[k] == item;
                    assert(kept.push(list.last())[k] == item);
                } else if !rest.contains(list.last()) {
                    assert(kept.push(list.last())[kept.len() as int] == item);
                } else {
                    assert(kept.contains(item));
                }
            }
            if without_repeats(list).contains(item) {
                let k = choose|k: int|
                    0 <= k < without_repeats(list).len() && without_repeats(list)[k] == item;
                if k < kept.len() {
                    assert(kept[k] == item);
                    assert(kept.contains(item));
                    let i = choose|i: int| 0 <= i < rest.len() && rest[i] == item;
                    assert(list[i] == item);
                } else {
                    assert(list[list.len() - 1] == item);
                }
            }
        }
    }
}

/// What a filtered list holds: the items that pass.
pub proof fn lemma_filter_contains<A>(list: Seq<A>, pass: spec_fn(A) -> bool, item: A)
    ensures
        list.filter(pass).contains(item) <==> list.contains(item) && pass(item),
    decreases list.len(),
{
    reveal(Seq::filter);
    if list.len() > 0 {
        let rest = list.drop_last();
        let kept = rest.filter(pass);
        lemma_filter_contains(rest, pass, item);
        assert(list =~= rest.push(list.last()));
        if list.contains(item) && pass(item) {
            let i = choose|i: int| 0 <= i < list.len() && list[i] == item;
            if i < rest.len() {
                assert(rest[i] == item);
                let k = choose|k: int| 0 <= k < kept.len() && kept[k] == item;
                assert(list.filter(pass)[k] == item);
            } else {
                assert(list.filter(pass)[kept.len() as int] == item);
            }
        }
        if list.filter(pass).contains(item) {
            let k = choose|k: int| 0 <= k < list.filter(pass).len() && list.filter(pass)[k] == item;
            if k < kept.len() {
                assert(kept[k] == item);
                let i = choose|i: int| 0 <= i < rest.len() && rest[i] == item;
                assert(list[i] == item);
            } else {
                assert(list[list.len() - 1] == item);
            }
        }
    }
}

/// Whether `at` is where `item` first occurs in `list`.
pub open spec fn occurs_first(list: Seq<Seq<char>>, item: Seq<char>, at: int) -> bool {
    &&& 0 <= at < list.len()
    &&& list[at] == item
    &&& forall|k: int| 0 <= k < at ==> #[trigger] list[k] != item
}

/// What is kept of a list when it is filtered and repeats are dropped stands in the order in which
/// it first occurs there.
pub proof fn first_occurrences_keep_their_order(
    list: Seq<Seq<char>>,
    pass: spec_fn(Seq<char>) -> bool,
)
    ensures
        forall|i: int, j: int, a: int, b: int|
            {
                &&& 0 <= i < j < without_repeats(list.filter(pass)).len()
                &&& #[trigger] occurs_first(list, without_repeats(list.filter(pass))[i], a)
                &&& #[trigger] occurs_first(list, without_repeats(list.filter(pass))[j], b)
            } ==> a < b,
    decreases list.len(),
{
    reveal(Seq::filter);
    let kept = without_repeats(list.filter(pass));
    if list.len() > 0 {
        let rest = list.drop_last();
        let last = list.last();
        let before = without_repeats(rest.filter(pass));
        first_occurrences_keep_their_order(rest, pass);
        repeats_are_dropped(rest.filter(pass));
        if pass(last) {
            assert(list.filter(pass).drop_last() =~= rest.filter(pass));
        }
        lemma_filter_contains(rest, pass, last);
        assert forall|i: int, j: int, a: int, b: int|
            {
                &&& 0 <= i < j < kept.len()
                &&& #[trigger] occurs_first(list, kept[i], a)
                &&& #[trigger] occurs_first(list, kept[j], b)
            } implies a < b by {
            assert(kept[i] == before[i]);
            assert(before.contains(before[i]));
            lemma_filter_contains(rest, pass, kept[i]);
            let k = choose|k: int| 0 <= k < rest.len() && rest[k] == kept[i];
            assert(list[k] == kept[i]);
            assert(a < rest.len());
            assert(occurs_first(rest, before[i], a)) by {
                assert forall|n: int| 0 <= n < a implies #[trigger] rest[n] != kept[i] by {
                    assert(list[n] != kept[i]);
                }
            }
            if j < before.len() {
                assert(kept[j] == before[j]);
                assert(before.contains(before[j]));
                lemma_filter_contains(rest, pass, kept[j]);
                let m = choose|m: int| 0 <= m < rest.len() && rest[m] == kept[j];
                assert(list[m] == kept[j]);
                assert(b < rest.len());
                assert(occurs_first(rest, before[j], b)) by {
                    assert forall|n: int| 0 <= n < b implies #[trigger] rest[n] != kept[j] by {
                        assert(list[n] != kept[j]);
                    }
                }
            } else {
                assert(kept[j] == last);
                if b < rest.len() {
                    assert(rest[b] == last);
                    assert(rest.contains(last));
                }
            }
        }
    }
}

/// Where every item passes, filtering changes nothing.
pub proof fn lemma_all_pass<A>(list: Seq<A>, pass: spec_fn(A) -> bool)
    requires
        forall|i: int| 0 <= i < list.len() ==> pass(#[trigger] list[i]),
    ensures
        list.filter(pass) == list,
    decreases list.len(),
{
    reveal(Seq::filter);
    if list.len() > 0 {
        let rest = list.drop_last();
        assert forall|i: int| 0 <= i < rest.len() implies pass(#[trigger] rest[i]) by {
            assert(list[i] == rest[i]);
        }
        lemma_all_pass(rest, pass);
        assert(pass(list[list.len() - 1]));
        assert(rest.push(list.last()) =~= list);
    } else {
        assert(list.filter(pass) =~= list);
    }
}

/// A list without repeats is what it is once repeats are dropped.
pub proof fn distinct_items_stay(list: Seq<Seq<char>>)
    requires
        list.no_duplicates(),
    ensures
        without_repeats(list) == list,
    decreases list.len(),
{
    if list.len() > 0 {
        let rest = list.drop_last();
        assert(!rest.contains(list.last())) by {
            if rest.contains(list.last()) {
                let i = choose|i: int| 0 <= i < rest.len() && rest[i] == list.last();
                assert(list[i] == list[list.len() - 1]);
            }
        }
        assert(rest.no_duplicates()) by {
            assert forall|i: int, j: int|
                0 <= i < rest.len() && 0 <= j < rest.len() && i != j implies rest[i] != rest[j] by {
                assert(list[i] != list[j]);
            }
        }
        distinct_items_stay(rest);
        assert(list =~= rest.push(list.last()));
    }
}

/// Items that come first stay first when repeats are dropped.
pub proof fn leading_items_lead(front: Seq<Seq<char>>, back: Seq<Seq<char>>)
    ensures
        without_repeats(front).is_prefix_of(without_repeats(front + back)),
    decreases back.len(),
{
    if back.len() == 0 {
        assert(front + back =~= front);
    } else {
        leading_items_lead(front, back.drop_last());
        assert((front + back).drop_last() =~= front + back.drop_last());
    }
}

/// Items that are there already add nothing.
pub proof fn known_items_add_nothing(front: Seq<Seq<char>>, back: Seq<Seq<char>>)
    requires
        forall|item: Seq<char>| #[trigger] back.contains(item) ==> front.contains(item),
    ensures
        without_repeats(front + back) == without_repeats(front),
    decreases back.len(),
{
    if back.len() == 0 {
        assert(front + back =~= front);
    } else {
        let rest = back.drop_last();
        assert forall|item: Seq<char>| #[trigger] rest.contains(item) implies front.contains(
            item,
        ) by {
            let i = choose|i: int| 0 <= i < rest.len() && rest[i] == item;
            assert(back[i] == item);
            assert(back.contains(item));
        }
        known_items_add_nothing(front, rest);
        assert((front + back).drop_last() =~= front + rest);
        assert(back.contains(back.last()));
        let i = choose|i: int| 0 <= i < front.len() && front[i] == back.last();
        assert((front + rest)[i] == (front + back).last());
    }
}

/// The texts of a list are those of its items, one for one.
pub proof fn every_item_has_its_text(list: Seq<String>, i: int)
    requires
        0 <= i < list.len(),
    ensures
        texts(list).len() == list.len(),
        texts(list)[i] == list[i]@,
{
}

/// As many items as the beginning of a list has are that beginning, and as many as its end has
/// are that end. A list that is no longer than the limit stays whole.
pub proof fn cutting_a_list_gives_its_ends<A>(front: Seq<A>, back: Seq<A>, max: int)
    requires
        max >= front.len(),
    ensures
        first_items(front + back, front.len() as int) == front,
        last_items(front + back, back.len() as int) == back,
        first_items(front, max) == front,
        last_items(front, max) == front,
{
    assert(first_items(front + back, front.len() as int) =~= front);
    assert(last_items(front + back, back.len() as int) =~= back);
}

/// Two lists can be joined apart: the texts of both stand in the joined text, with the separator
/// between them.
pub proof fn joining_goes_on(front: Seq<Seq<char>>, back: Seq<Seq<char>>, separator: Seq<char>)
    requires
        front.len() > 0,
    ensures
        back.len() > 0 ==> joined(front + back, separator) == joined(front, separator) + separator
            + joined(back, separator),
        joined(seq![front[0]], separator) == front[0],
        joined(Seq::<Seq<char>>::empty(), separator).len() == 0,
    decreases back.len(),
{
    let all = front + back;
    if back.len() == 1 {
        assert(all.drop_last() =~= front);
    } else if back.len() > 1 {
        joining_goes_on(front, back.drop_last(), separator);
        assert(all.drop_last() =~= front + back.drop_last());
        assert(joined(all, separator) =~= joined(front, separator) + separator + joined(
            back,
            separator,
        ));
    }
}

/// Whether `list` holds a text equal to `item`.
pub fn holds_text(list: &[String], item: &str) -> (found: bool)
    ensures
        found == texts(list@).contains(item@),
{
    let mut i: usize = 0;
    while i < list.len()
        invariant
            i <= list@.len(),
            forall|k: int| 0 <= k < i ==> texts(list@)[k] != item@,
        decreases list@.len() - i,
    {
        if crate::text::same_text(list[i].as_str(), item) {
            assert(texts(list@)[i as int] == item@);
            return true;
        }
        i += 1;
    }
    false
}

/// The same texts again.
pub fn copied(list: &[String]) -> (copy: Vec<String>)
    ensures
        texts(copy@) == texts(list@),
{
    let mut copy: Vec<String> = Vec::new();
    let mut i: usize = 0;
    while i < list.len()
        invariant
            i <= list@.len(),
            copy@.len() == i,
            forall|k: int| 0 <= k < i ==> (#[trigger] copy@[k])@ == list@[k]@,
        decreases list@.len() - i,
    {
        copy.push(list[i].clone());
        i += 1;
    }
    assert(texts(copy@) =~= texts(list@));
    copy
}

/// The first `max` texts of `list`, or all of them when there are fewer.
pub fn first_of(list: Vec<String>, max: usize) -> (head: Vec<String>)
    ensures
        texts(head@) == first_items(texts(list@), max as int),
{
    let mut head = list;
    head.truncate(max);
    assert(texts(head@) =~= first_items(texts(list@), max as int));
    head
}

/// The texts of `front` and then those of `back`.
pub fn chained(front: Vec<String>, back: &[String]) -> (all: Vec<String>)
    ensures
        texts(all@) == texts(front@) + texts(back@),
{
    let mut all = front;
    let mut i: usize = 0;
    while i < back.len()
        invariant
            i <= back@.len(),
            all@.len() == front@.len() + i,
            forall|k: int| 0 <= k < front@.len() ==> (#[trigger] all@[k])@ == front@[k]@,
            forall|k: int| 0 <= k < i ==> all@[front@.len() + k]@ == (#[trigger] back@[k])@,
        decreases back@.len() - i,
    {
        all.push(back[i].clone());
        i += 1;
    }
    assert(texts(all@) =~= texts(front@) + texts(back@));
    all
}

/// The items of `list` in one text, with `separator` between them.
pub fn join(list: &[String], separator: &str) -> (text: String)
    ensures
        text@ == joined(texts(list@), separator@),
{
    let mut text = String::new();
    let mut i: usize = 0;
    assert(texts(list@).take(0) =~= Seq::empty());
    while i < list.len()
        invariant
            i <= list@.len(),
            text@ == joined(texts(list@).take(i as int), separator@),
        decreases list@.len() - i,
    {
        if i > 0 {
            text.append(separator);
        }
        text.append(list[i].as_str());
        proof {
            let head = texts(list@).take(i + 1);
            assert(head.drop_last() =~= texts(list@).take(i as int));
            assert(head.last() == list@[i as int]@);
            if i == 0 {
                assert(text@ =~= head[0]);
            }
        }
        i += 1;
    }
    assert(texts(list@).take(list@.len() as int) =~= texts(list@));
    text
}

} // verus!
