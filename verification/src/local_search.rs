//! Local ranking of a repository's files for a codebase search.
//!
//! Files are first ordered by how well their paths and symbols overlap the query. When there are
//! more candidates than can be returned, the user's endpoint may be asked to rank them; the
//! lexical order fills whatever its answer leaves open.

use crate::circuit::{CircuitView, RankingCircuit, RankingPolicy};
use crate::json;
use crate::lists;
use crate::text;
use crate::words;
use vstd::prelude::*;

verus! {

/// How many candidates are handed to the model.
pub const MAX_CANDIDATES: usize = 30;

/// How many files are returned to the agent.
pub const MAX_RESULTS: usize = 8;

/// Symbols are truncated per candidate so the ranking prompt stays small.
pub const MAX_SYMBOLS_CHARS: usize = 240;

/// How long the model's answer may be.
pub const MAX_TOKENS: u32 = 200;

/// What the model is told about its task.
pub const SYSTEM_PROMPT: &'static str =
    "You pick which files a coding agent should read to answer a question about a repository.\nReply with one JSON object and nothing else:\n{\"files\": [\"<path>\", ...]}\nRules:\n- Use only paths from the candidate list, most relevant first.\n- Prefer files that define or implement what the question asks about.\n- At most 8 paths; fewer is fine when only a few are relevant.\n- No explanations, no markdown, no extra keys.";

/// A file of the repository and the symbols it defines.
#[derive(Debug)]
pub struct FileSymbols {
    pub path: String,
    pub symbols: String,
}

/// What a [`FileSymbols`] says.
pub struct FileView {
    pub path: Seq<char>,
    pub symbols: Seq<char>,
}

impl FileSymbols {
    pub open spec fn view(&self) -> FileView {
        FileView { path: self.path@, symbols: self.symbols@ }
    }
}

/// What the files say.
pub open spec fn file_views(files: Seq<FileSymbols>) -> Seq<FileView> {
    files.map_values(|file: FileSymbols| file@)
}

/// What the path segments spell.
pub open spec fn segment_texts(segments: Option<&[String]>) -> Seq<Seq<char>> {
    match segments {
        Some(segments) => lists::texts(segments@),
        None => Seq::empty(),
    }
}

/// What a file scores for search tokens: three for each one in its lowercased path and two for
/// each one in its lowercased symbols.
pub open spec fn token_score(tokens: Seq<Seq<char>>, file: FileView) -> nat
    decreases tokens.len(),
{
    if tokens.len() == 0 {
        0
    } else {
        let token = tokens.last();
        let in_path: nat = if text::contains_text(text::lowercase(file.path), token) {
            3
        } else {
            0
        };
        let in_symbols: nat = if text::contains_text(text::lowercase(file.symbols), token) {
            2
        } else {
            0
        };
        token_score(tokens.drop_last(), file) + in_path + in_symbols
    }
}

/// What a file scores for path segments: five for each one in its path.
pub open spec fn segment_score(segments: Seq<Seq<char>>, file: FileView) -> nat
    decreases segments.len(),
{
    if segments.len() == 0 {
        0
    } else {
        let in_path: nat = if text::contains_text(file.path, segments.last()) {
            5
        } else {
            0
        };
        segment_score(segments.drop_last(), file) + in_path
    }
}

/// What a file scores in all.
pub open spec fn file_score(
    tokens: Seq<Seq<char>>,
    segments: Seq<Seq<char>>,
    file: FileView,
) -> nat {
    token_score(tokens, file) + segment_score(segments, file)
}

/// What a file scores: its lexical overlap with the tokens and the path segments.
pub fn score_file(tokens: &[String], partial_path_segments: Option<&[String]>, file: &FileSymbols) -> (
score: u128)
    ensures
        score == file_score(
            lists::texts(tokens@),
            segment_texts(partial_path_segments),
            file@,
        ),
{
    let path = text::chars_of(text::lowered(file.path.as_str()).as_str());
    let symbols = text::chars_of(text::lowered(file.symbols.as_str()).as_str());
    let ghost wanted = lists::texts(tokens@);
    let mut score: u128 = 0;
    let mut i: usize = 0;
    assert(wanted.take(0) =~= Seq::empty());
    while i < tokens.len()
        invariant
            i <= tokens@.len(),
            wanted == lists::texts(tokens@),
            path@ == text::lowercase(file@.path),
            symbols@ == text::lowercase(file@.symbols),
            score == token_score(wanted.take(i as int), file@),
            score <= 5 * i,
        decreases tokens@.len() - i,
    {
        let token = text::chars_of(tokens[i].as_str());
        proof {
            assert(wanted.take(i + 1).drop_last() =~= wanted.take(i as int));
            assert(wanted.take(i + 1).last() == token@);
        }
        if text::contains_chars(&path, &token) {
            score += 3;
        }
        if text::contains_chars(&symbols, &token) {
            score += 2;
        }
        i += 1;
    }
    assert(wanted.take(wanted.len() as int) =~= wanted);
    if let Some(segments) = partial_path_segments {
        let exact = text::chars_of(file.path.as_str());
        let ghost parts = lists::texts(segments@);
        let ghost from_tokens = score;
        let mut k: usize = 0;
        assert(parts.take(0) =~= Seq::empty());
        while k < segments.len()
            invariant
                k <= segments@.len(),
                parts == lists::texts(segments@),
                exact@ == file@.path,
                score == from_tokens + segment_score(parts.take(k as int), file@),
                score <= from_tokens + 5 * k,
                from_tokens <= 5 * tokens@.len(),
                tokens@.len() <= usize::MAX,
            decreases segments@.len() - k,
        {
            let segment = text::chars_of(segments[k].as_str());
            proof {
                assert(parts.take(k + 1).drop_last() =~= parts.take(k as int));
                assert(parts.take(k + 1).last() == segment@);
            }
            if text::contains_chars(&exact, &segment) {
                score += 5;
            }
            k += 1;
        }
        assert(parts.take(parts.len() as int) =~= parts);
    }
    score
}

/// What files are ordered by.
pub struct RankKey {
    pub score: nat,
    /// How many bytes of symbols the file has.
    pub weight: nat,
    pub path: Seq<char>,
}

impl RankKey {
    /// Whether this key comes no later than `other`: the higher score first, then the richer
    /// symbols, then the path in code-point order.
    pub open spec fn le(self, other: RankKey) -> bool {
        ||| self.score > other.score
        ||| self.score == other.score && self.weight > other.weight
        ||| self.score == other.score && self.weight == other.weight && text::text_le(
            self.path,
            other.path,
        )
    }
}

/// The order of the keys, as a relation.
pub open spec fn rank_order() -> spec_fn(RankKey, RankKey) -> bool {
    |left: RankKey, right: RankKey| left.le(right)
}

/// What a file is ordered by for a query.
pub open spec fn file_key(
    tokens: Seq<Seq<char>>,
    segments: Seq<Seq<char>>,
    file: FileView,
) -> RankKey {
    RankKey {
        score: file_score(tokens, segments, file),
        weight: text::byte_len(file.symbols),
        path: file.path,
    }
}

/// The keys of all files, in their order.
pub open spec fn lexical_order(
    query: Seq<char>,
    segments: Seq<Seq<char>>,
    files: Seq<FileView>,
) -> Seq<RankKey> {
    files.map_values(
        |file: FileView| file_key(words::search_tokens(query), segments, file),
    ).sort_by(rank_order())
}

/// Whether any key scores.
pub open spec fn any_scores(keys: Seq<RankKey>) -> bool {
    exists|i: int| 0 <= i < keys.len() && (#[trigger] keys[i]).score > 0
}

/// The keys that are kept: those that score, or all of them when none does.
pub open spec fn kept_keys(keys: Seq<RankKey>) -> Seq<RankKey> {
    if any_scores(keys) {
        keys.filter(|key: RankKey| key.score > 0)
    } else {
        keys
    }
}

/// The keys of the candidates, best first.
pub open spec fn candidate_keys(
    query: Seq<char>,
    segments: Seq<Seq<char>>,
    files: Seq<FileView>,
) -> Seq<RankKey> {
    lists::first_items(
        kept_keys(lexical_order(query, segments, files)),
        MAX_CANDIDATES as int,
    )
}

/// The candidate paths, best first.
pub open spec fn candidate_paths(
    query: Seq<char>,
    segments: Seq<Seq<char>>,
    files: Seq<FileView>,
) -> Seq<Seq<char>> {
    candidate_keys(query, segments, files).map_values(|key: RankKey| key.path)
}

/// A file's key, with the path it stands for.
struct Ranked {
    score: u128,
    weight: usize,
    path: String,
}

impl Ranked {
    spec fn view(&self) -> RankKey {
        RankKey { score: self.score as nat, weight: self.weight as nat, path: self.path@ }
    }
}

spec fn keys_of(list: Seq<Ranked>) -> Seq<RankKey> {
    list.map_values(|ranked: Ranked| ranked@)
}

/// Whether `left` comes no later than `right`.
fn not_after(left: &Ranked, right: &Ranked) -> (ordered: bool)
    ensures
        ordered == left@.le(right@),
{
    if left.score != right.score {
        left.score > right.score
    } else if left.weight != right.weight {
        left.weight > right.weight
    } else {
        text::text_not_after(left.path.as_str(), right.path.as_str())
    }
}

/// The order of the keys is total: any two files are ordered, and only files with the same key
/// tie.
pub proof fn rank_order_is_total()
    ensures
        vstd::relations::total_ordering(rank_order()),
{
    let order = rank_order();
    assert forall|x: RankKey| #[trigger] order(x, x) by {
        text::text_order_is_total(x.path, x.path, x.path);
    }
    assert forall|x: RankKey, y: RankKey| #[trigger] order(x, y) && #[trigger]
        order(y, x) implies x == y by {
        text::text_order_is_total(x.path, y.path, x.path);
    }
    assert forall|x: RankKey, y: RankKey, z: RankKey| #[trigger] order(x, y) && #[trigger]
        order(y, z) implies order(x, z) by {
        text::text_order_is_total(x.path, y.path, z.path);
    }
    assert forall|x: RankKey, y: RankKey| #[trigger] order(x, y) || #[trigger] order(y, x) by {
        text::text_order_is_total(x.path, y.path, x.path);
    }
}

/// Whether keys stand in their order.
spec fn in_order(keys: Seq<RankKey>) -> bool {
    forall|i: int, j: int| 0 <= i < j < keys.len() ==> (#[trigger] keys[i]).le(#[trigger] keys[j])
}

/// Taking the last item off a list takes its key off the keys.
proof fn lemma_last_key(list: Seq<Ranked>)
    requires
        list.len() > 0,
    ensures
        keys_of(list) == keys_of(list.drop_last()).push(list.last()@),
        keys_of(list).to_multiset() == keys_of(list.drop_last()).to_multiset().insert(
            list.last()@,
        ),
{
    broadcast use vstd::seq_lib::group_to_multiset_ensures;

    assert(keys_of(list) =~= keys_of(list.drop_last()).push(list.last()@));
}

/// Turns a list around.
fn turned(list: Vec<Ranked>) -> (out: Vec<Ranked>)
    ensures
        keys_of(out@).len() == keys_of(list@).len(),
        forall|i: int|
            0 <= i < list@.len() ==> (#[trigger] keys_of(out@)[i]) == keys_of(list@)[list@.len() - 1
                - i],
        keys_of(out@).to_multiset() == keys_of(list@).to_multiset(),
{
    let ghost all = keys_of(list@);
    let mut rest = list;
    let mut out: Vec<Ranked> = Vec::new();
    proof {
        broadcast use vstd::multiset::group_multiset_axioms;
        broadcast use vstd::seq_lib::group_to_multiset_ensures;

        assert(keys_of(out@) =~= Seq::empty());
        assert(keys_of(rest@).to_multiset().add(keys_of(out@).to_multiset())
            =~= all.to_multiset());
    }
    while rest.len() > 0
        invariant
            rest@.len() + out@.len() == all.len(),
            keys_of(rest@) == all.take(rest@.len() as int),
            forall|i: int|
                0 <= i < out@.len() ==> (#[trigger] keys_of(out@)[i]) == all[all.len() - 1 - i],
            keys_of(rest@).to_multiset().add(keys_of(out@).to_multiset()) == all.to_multiset(),
        decreases rest@.len(),
    {
        let ghost rest_before = rest@;
        let ghost out_before = out@;
        let item = rest.pop().unwrap();
        out.push(item);
        proof {
            broadcast use vstd::multiset::group_multiset_axioms;

            assert(rest@ =~= rest_before.drop_last());
            assert(out@.drop_last() =~= out_before);
            lemma_last_key(rest_before);
            lemma_last_key(out@);
            assert(keys_of(rest@) =~= all.take(rest@.len() as int));
            assert(keys_of(rest_before)[rest@.len() as int] == item@);
            assert(keys_of(rest@).to_multiset().add(keys_of(out@).to_multiset())
                =~= keys_of(rest_before).to_multiset().add(keys_of(out_before).to_multiset()));
        }
    }
    proof {
        broadcast use vstd::multiset::group_multiset_axioms;
        broadcast use vstd::seq_lib::group_to_multiset_ensures;

        assert(keys_of(rest@) =~= Seq::empty());
        assert(keys_of(out@).to_multiset() =~= all.to_multiset());
    }
    out
}

/// Merges two ordered lists into one.
fn merged(left: Vec<Ranked>, right: Vec<Ranked>) -> (all: Vec<Ranked>)
    requires
        in_order(keys_of(left@)),
        in_order(keys_of(right@)),
    ensures
        in_order(keys_of(all@)),
        keys_of(all@).to_multiset() == keys_of(left@).to_multiset().add(
            keys_of(right@).to_multiset(),
        ),
{
    let ghost total = keys_of(left@).to_multiset().add(keys_of(right@).to_multiset());
    let mut left = left;
    let mut right = right;
    let mut tail: Vec<Ranked> = Vec::new();
    proof {
        broadcast use vstd::multiset::group_multiset_axioms;
        broadcast use vstd::seq_lib::group_to_multiset_ensures;

        assert(keys_of(tail@) =~= Seq::empty());
        assert(keys_of(left@).to_multiset().add(keys_of(right@).to_multiset()).add(
            keys_of(tail@).to_multiset(),
        ) =~= total);
    }
    while left.len() > 0 || right.len() > 0
        invariant
            in_order(keys_of(left@)),
            in_order(keys_of(right@)),
            forall|i: int, j: int|
                0 <= i < j < tail@.len() ==> (#[trigger] keys_of(tail@)[j]).le(
                    #[trigger] keys_of(tail@)[i],
                ),
            forall|i: int, j: int|
                0 <= i < left@.len() && 0 <= j < tail@.len() ==> (#[trigger] keys_of(left@)[i]).le(
                    #[trigger] keys_of(tail@)[j],
                ),
            forall|i: int, j: int|
                0 <= i < right@.len() && 0 <= j < tail@.len() ==> (#[trigger] keys_of(
                    right@,
                )[i]).le(#[trigger] keys_of(tail@)[j]),
            keys_of(left@).to_multiset().add(keys_of(right@).to_multiset()).add(
                keys_of(tail@).to_multiset(),
            ) == total,
        decreases left@.len() + right@.len(),
    {
        let ghost left_before = left@;
        let ghost right_before = right@;
        let ghost tail_before = tail@;
        let from_right = right.len() > 0 && (left.len() == 0 || not_after(
            &left[left.len() - 1],
            &right[right.len() - 1],
        ));
        let item = if from_right {
            right.pop().unwrap()
        } else {
            left.pop().unwrap()
        };
        proof {
            lemma_next_from_end(left_before, right_before, item@, from_right);
        }
        tail.push(item);
        proof {
            broadcast use vstd::multiset::group_multiset_axioms;

            assert(tail@.drop_last() =~= tail_before);
            lemma_last_key(tail@);
            if from_right {
                assert(right@ =~= right_before.drop_last());
                lemma_last_key(right_before);
            } else {
                assert(left@ =~= left_before.drop_last());
                lemma_last_key(left_before);
            }
            let (lefts, rights, tails) = (keys_of(left_before), keys_of(right_before), keys_of(tail@));
            assert(forall|i: int|
                0 <= i < left@.len() ==> #[trigger] keys_of(left@)[i] == lefts[i]);
            assert(forall|i: int|
                0 <= i < right@.len() ==> #[trigger] keys_of(right@)[i] == rights[i]);
            assert(forall|i: int|
                0 <= i < tail_before.len() ==> keys_of(tail_before)[i] == #[trigger] tails[i]);
            assert(from_right ==> rights[right_before.len() - 1] == item@);
            assert(!from_right ==> lefts[left_before.len() - 1] == item@);
            assert forall|i: int, j: int| 0 <= i < j < tail@.len() implies (
            #[trigger] tails[j]).le(#[trigger] tails[i]) by {
                if j == tail@.len() - 1 {
                    assert(tails[j] == item@);
                    assert(tails[i] == keys_of(tail_before)[i]);
                }
            }
            assert(keys_of(left@).to_multiset().add(keys_of(right@).to_multiset()).add(
                keys_of(tail@).to_multiset(),
            ) =~= keys_of(left_before).to_multiset().add(keys_of(right_before).to_multiset()).add(
                keys_of(tail_before).to_multiset(),
            ));
        }
    }
    proof {
        broadcast use vstd::multiset::group_multiset_axioms;
        broadcast use vstd::seq_lib::group_to_multiset_ensures;

        assert(keys_of(left@) =~= Seq::empty());
        assert(keys_of(right@) =~= Seq::empty());
        assert(keys_of(tail@).to_multiset() =~= total);
    }
    turned(tail)
}

/// The later of two ordered lists' last keys comes after everything in both.
proof fn lemma_next_from_end(
    left: Seq<Ranked>,
    right: Seq<Ranked>,
    item: RankKey,
    from_right: bool,
)
    requires
        in_order(keys_of(left)),
        in_order(keys_of(right)),
        from_right ==> right.len() > 0 && item == right.last()@ && (left.len() == 0
            || left.last()@.le(right.last()@)),
        !from_right ==> left.len() > 0 && item == left.last()@ && (right.len() == 0
            || !left.last()@.le(right.last()@)),
    ensures
        forall|i: int| 0 <= i < left.len() ==> (#[trigger] keys_of(left)[i]).le(item),
        forall|i: int| 0 <= i < right.len() ==> (#[trigger] keys_of(right)[i]).le(item),
{
    rank_order_is_total();
    let order = rank_order();
    assert(order(item, item));
    if left.len() > 0 && right.len() > 0 {
        let l = left.last()@;
        let r = right.last()@;
        assert(order(l, r) || order(r, l));
    }
    assert forall|i: int| 0 <= i < left.len() implies (#[trigger] keys_of(left)[i]).le(item) by {
        let key = keys_of(left)[i];
        let last = keys_of(left)[left.len() - 1];
        assert(last == left.last()@);
        if i < left.len() - 1 {
            assert(key.le(last));
        } else {
            assert(order(key, key));
        }
        assert(order(key, last) && order(last, item));
    }
    assert forall|i: int| 0 <= i < right.len() implies (#[trigger] keys_of(right)[i]).le(item) by {
        let key = keys_of(right)[i];
        let last = keys_of(right)[right.len() - 1];
        assert(last == right.last()@);
        if i < right.len() - 1 {
            assert(key.le(last));
        } else {
            assert(order(key, key));
        }
        assert(order(key, last) && order(last, item));
    }
}

/// Puts a list in order.
fn ordered(list: Vec<Ranked>) -> (out: Vec<Ranked>)
    ensures
        keys_of(out@) == keys_of(list@).sort_by(rank_order()),
{
    let out = merge_sorted(list);
    proof {
        let order = rank_order();
        let keys = keys_of(list@);
        rank_order_is_total();
        keys.lemma_sort_by_ensures(order);
        assert(vstd::relations::sorted_by(keys_of(out@), order));
        vstd::seq_lib::lemma_sorted_unique(keys_of(out@), keys.sort_by(order), order);
    }
    out
}

/// Puts a list in order, half by half.
fn merge_sorted(list: Vec<Ranked>) -> (out: Vec<Ranked>)
    ensures
        in_order(keys_of(out@)),
        keys_of(out@).to_multiset() == keys_of(list@).to_multiset(),
    decreases list@.len(),
{
    if list.len() <= 1 {
        return list;
    }
    let half: usize = list.len() / 2;
    let ghost keys = keys_of(list@);
    let mut front = list;
    let back = front.split_off(half);
    proof {
        assert(keys =~= keys_of(front@) + keys_of(back@));
        vstd::seq_lib::lemma_multiset_commutative(keys_of(front@), keys_of(back@));
    }
    let front = merge_sorted(front);
    let back = merge_sorted(back);
    merged(front, back)
}

/// The keys of all files for the given tokens.
fn ranked_files(
    tokens: &[String],
    partial_path_segments: Option<&[String]>,
    files: &[FileSymbols],
) -> (list: Vec<Ranked>)
    ensures
        keys_of(list@) == file_views(files@).map_values(
            |file: FileView|
                file_key(lists::texts(tokens@), segment_texts(partial_path_segments), file),
        ),
{
    let mut list: Vec<Ranked> = Vec::new();
    let mut i: usize = 0;
    while i < files.len()
        invariant
            i <= files@.len(),
            list@.len() == i,
            forall|k: int|
                0 <= k < i ==> (#[trigger] list@[k])@ == file_key(
                    lists::texts(tokens@),
                    segment_texts(partial_path_segments),
                    files@[k]@,
                ),
        decreases files@.len() - i,
    {
        let file = &files[i];
        list.push(
            Ranked {
                score: score_file(tokens, partial_path_segments, file),
                weight: file.symbols.as_str().as_bytes().len(),
                path: file.path.clone(),
            },
        );
        i += 1;
    }
    assert(keys_of(list@) =~= file_views(files@).map_values(
        |file: FileView|
            file_key(lists::texts(tokens@), segment_texts(partial_path_segments), file),
    ));
    list
}

/// Whether any file scores.
fn any_match(list: &Vec<Ranked>) -> (found: bool)
    ensures
        found == any_scores(keys_of(list@)),
{
    let mut i: usize = 0;
    while i < list.len()
        invariant
            i <= list@.len(),
            forall|k: int| 0 <= k < i ==> (#[trigger] keys_of(list@)[k]).score == 0,
        decreases list@.len() - i,
    {
        if list[i].score > 0 {
            assert(keys_of(list@)[i as int].score > 0);
            return true;
        }
        i += 1;
    }
    false
}

/// Orders candidate files by lexical overlap with the query, without any model call. When nothing
/// overlaps, the symbol-richest files still give a choice.
pub fn rank_candidates(
    query: &str,
    partial_path_segments: Option<&[String]>,
    files: &[FileSymbols],
) -> (candidates: Vec<String>)
    ensures
        lists::texts(candidates@) == candidate_paths(
            query@,
            segment_texts(partial_path_segments),
            file_views(files@),
        ),
{
    let tokens = words::query_tokens(query);
    let list = ordered(ranked_files(tokens.as_slice(), partial_path_segments, files));
    let ghost keys = keys_of(list@);
    let ghost scores = |key: RankKey| key.score > 0;
    let ghost path = |key: RankKey| key.path;
    assert(keys == lexical_order(
        query@,
        segment_texts(partial_path_segments),
        file_views(files@),
    ));
    let only_matches = any_match(&list);
    let ghost kept = |n: int| if only_matches {
        keys.take(n).filter(scores)
    } else {
        keys.take(n)
    };
    let mut paths: Vec<String> = Vec::new();
    let mut i: usize = 0;
    proof {
        reveal(Seq::filter);
        assert(kept(0) =~= Seq::empty());
        assert(lists::texts(paths@) =~= kept(0).map_values(path));
    }
    while i < list.len()
        invariant
            i <= list@.len(),
            keys == keys_of(list@),
            scores == (|key: RankKey| key.score > 0),
            path == (|key: RankKey| key.path),
            kept == (|n: int| if only_matches {
                keys.take(n).filter(scores)
            } else {
                keys.take(n)
            }),
            lists::texts(paths@) == kept(i as int).map_values(path),
        decreases list@.len() - i,
    {
        let ranked = &list[i];
        let ghost before = lists::texts(paths@);
        if !only_matches || ranked.score > 0 {
            paths.push(ranked.path.clone());
            assert(lists::texts(paths@) =~= before.push(ranked@.path));
            assert(kept(i as int).push(ranked@).map_values(path) =~= before.push(ranked@.path));
        }
        proof {
            assert(keys[i as int] == ranked@);
            assert(keys.take(i + 1) =~= keys.take(i as int).push(ranked@));
            keys.take(i as int).lemma_filter_push(ranked@, scores);
        }
        i += 1;
    }
    proof {
        assert(keys.take(keys.len() as int) =~= keys);
        assert(lists::texts(paths@) == kept_keys(keys).map_values(path));
        assert(lists::first_items(kept_keys(keys).map_values(path), MAX_CANDIDATES as int)
            =~= lists::first_items(kept_keys(keys), MAX_CANDIDATES as int).map_values(path));
    }
    lists::first_of(paths, MAX_CANDIDATES)
}

/// The symbols of the file at `path`: of the last one, where several have it.
pub open spec fn symbols_at(files: Seq<FileView>, path: Seq<char>) -> Option<Seq<char>>
    decreases files.len(),
{
    if files.len() == 0 {
        None
    } else if files.last().path == path {
        Some(files.last().symbols)
    } else {
        symbols_at(files.drop_last(), path)
    }
}

/// A candidate as the prompt lists it: its path, and under it the start of its symbols.
pub open spec fn candidate_entry(files: Seq<FileView>, path: Seq<char>) -> Seq<char> {
    path + "\n"@ + match symbols_at(files, path) {
        Some(symbols) => if text::trimmed(symbols).len() > 0 {
            "  "@ + text::first_chars(text::trimmed(symbols), MAX_SYMBOLS_CHARS as int) + "\n"@
        } else {
            Seq::empty()
        },
        None => Seq::empty(),
    }
}

/// The candidates as the prompt lists them.
pub open spec fn candidate_entries(files: Seq<FileView>, candidates: Seq<Seq<char>>) -> Seq<char>
    decreases candidates.len(),
{
    if candidates.len() == 0 {
        Seq::empty()
    } else {
        candidate_entries(files, candidates.drop_last()) + candidate_entry(files, candidates.last())
    }
}

/// What the model is asked.
pub open spec fn ranking_question(
    query: Seq<char>,
    candidates: Seq<Seq<char>>,
    files: Seq<FileView>,
) -> Seq<char> {
    "Question about this repository:\n"@ + text::trimmed(query) + "\n\nCandidate files:\n"@
        + candidate_entries(files, candidates)
}

/// The symbols of the file at `path`: of the last one, where several have it.
fn find_symbols<'a>(files: &'a [FileSymbols], path: &str) -> (symbols: Option<&'a str>)
    ensures
        match symbols {
            Some(symbols) => symbols_at(file_views(files@), path@) == Some(symbols@),
            None => symbols_at(file_views(files@), path@) is None,
        },
{
    let ghost views = file_views(files@);
    let mut i: usize = files.len();
    assert(views.take(views.len() as int) =~= views);
    while i > 0
        invariant
            i <= files@.len(),
            views == file_views(files@),
            symbols_at(views, path@) == symbols_at(views.take(i as int), path@),
        decreases i,
    {
        proof {
            assert(views.take(i as int).last() == files@[i - 1]@);
            assert(views.take(i as int).drop_last() =~= views.take(i - 1));
        }
        if text::same_text(files[i - 1].path.as_str(), path) {
            return Some(files[i - 1].symbols.as_str());
        }
        i -= 1;
    }
    None
}

/// Asks the model to rank the candidates: the question, then each candidate with its symbols.
pub fn ranking_prompt(query: &str, candidates: &[String], files: &[FileSymbols]) -> (prompt: String)
    ensures
        prompt@ == ranking_question(query@, lists::texts(candidates@), file_views(files@)),
{
    let ghost paths = lists::texts(candidates@);
    let ghost views = file_views(files@);
    let mut prompt = "Question about this repository:\n".to_owned();
    prompt.append(text::trim(query));
    prompt.append("\n\nCandidate files:\n");
    let ghost opening = prompt@;
    let mut i: usize = 0;
    proof {
        assert(paths.take(0) =~= Seq::empty());
        assert(prompt@ =~= opening + candidate_entries(views, paths.take(0)));
    }
    while i < candidates.len()
        invariant
            i <= candidates@.len(),
            paths == lists::texts(candidates@),
            views == file_views(files@),
            prompt@ == opening + candidate_entries(views, paths.take(i as int)),
        decreases candidates@.len() - i,
    {
        let path = candidates[i].as_str();
        let ghost before = prompt@;
        prompt.append(path);
        prompt.append("\n");
        if let Some(symbols) = find_symbols(files, path) {
            let symbols = text::trim(symbols);
            if !symbols.is_empty() {
                prompt.append("  ");
                prompt.append(text::truncate(symbols, MAX_SYMBOLS_CHARS));
                prompt.append("\n");
            }
        }
        proof {
            assert(paths.take(i + 1).last() == path@);
            assert(paths.take(i + 1).drop_last() =~= paths.take(i as int));
            assert(prompt@ =~= before + candidate_entry(views, path@));
            assert(prompt@ =~= opening + candidate_entries(views, paths.take(i + 1)));
        }
        i += 1;
    }
    assert(paths.take(paths.len() as int) =~= paths);
    prompt
}

/// The model's answer, as it was read.
#[derive(Debug)]
pub struct RawRanking {
    pub files: Vec<String>,
}

/// The paths that an answer names, trimmed.
pub open spec fn named_paths(files: Seq<Seq<char>>) -> Seq<Seq<char>> {
    files.map_values(|path: Seq<char>| text::trimmed(path))
}

/// The paths of an answer that are candidates, trimmed, each where it first occurs.
pub open spec fn usable_paths(
    files: Seq<Seq<char>>,
    candidates: Seq<Seq<char>>,
) -> Seq<Seq<char>> {
    lists::without_repeats(
        named_paths(files).filter(|path: Seq<char>| candidates.contains(path)),
    )
}

/// Whether a ranking that was given is the usable paths of an answer, or was withheld because
/// there are none.
pub open spec fn ranks_by(
    ranking: Option<Vec<String>>,
    files: Seq<Seq<char>>,
    candidates: Seq<Seq<char>>,
) -> bool {
    match ranking {
        Some(ranked) => usable_paths(files, candidates).len() > 0 && lists::texts(ranked@)
            == usable_paths(files, candidates),
        None => usable_paths(files, candidates).len() == 0,
    }
}

/// The ranking an answer gives: its paths that are candidates, or nothing when none is.
pub fn ranking_from(answer: RawRanking, candidates: &[String]) -> (ranking: Option<Vec<String>>)
    ensures
        ranks_by(ranking, lists::texts(answer.files@), lists::texts(candidates@)),
{
    let files = answer.files;
    let ghost known = lists::texts(candidates@);
    let ghost trims = |path: Seq<char>| text::trimmed(path);
    let ghost allowed = |path: Seq<char>| known.contains(path);
    let ghost given = lists::texts(files@).map_values(trims);
    let mut kept: Vec<String> = Vec::new();
    let mut i: usize = 0;
    proof {
        reveal(Seq::filter);
        assert(given.take(0).filter(allowed) =~= Seq::empty());
        assert(lists::texts(kept@) =~= Seq::empty());
    }
    while i < files.len()
        invariant
            i <= files@.len(),
            known == lists::texts(candidates@),
            trims == (|path: Seq<char>| text::trimmed(path)),
            allowed == (|path: Seq<char>| known.contains(path)),
            given == lists::texts(files@).map_values(trims),
            lists::texts(kept@) == given.take(i as int).filter(allowed),
        decreases files@.len() - i,
    {
        let path = text::trim(files[i].as_str());
        let ghost before = lists::texts(kept@);
        if lists::holds_text(candidates, path) {
            kept.push(path.to_owned());
            assert(lists::texts(kept@) =~= before.push(path@));
        }
        proof {
            assert(given[i as int] == path@);
            assert(given.take(i + 1) =~= given.take(i as int).push(path@));
            given.take(i as int).lemma_filter_push(path@, allowed);
        }
        i += 1;
    }
    assert(given.take(given.len() as int) =~= given);
    let ranked = lists::unique(kept);
    assert(lists::texts(ranked@).len() == ranked@.len());
    if ranked.len() == 0 {
        None
    } else {
        Some(ranked)
    }
}

/// Reads a ranking out of the model's reply: `read` reads the JSON object in it, and the paths
/// that are candidates are kept. There is none when the reply holds no object, the object cannot
/// be read, or none of its paths is a candidate.
pub fn parse_ranking<F: FnOnce(&str) -> Option<RawRanking>>(
    raw: &str,
    candidates: &[String],
    read: F,
) -> (ranking: Option<Vec<String>>)
    requires
        forall|object: &str|
            json::json_object(raw@) == Some(object@) ==> call_requires(read, (object,)),
    ensures
        json::json_object(raw@) is None ==> ranking is None,
        json::json_object(raw@) is Some ==> exists|object: &str, answer: Option<RawRanking>|
            {
                &&& json::json_object(raw@) == Some(object@)
                &&& #[trigger] call_ensures(read, (object,), answer)
                &&& match answer {
                    Some(answer) => ranks_by(
                        ranking,
                        lists::texts(answer.files@),
                        lists::texts(candidates@),
                    ),
                    None => ranking is None,
                }
            },
{
    match json::extract_json_object(raw) {
        Some(object) => match read(object) {
            Some(answer) => ranking_from(answer, candidates),
            None => None,
        },
        None => None,
    }
}

/// What a search does next.
#[derive(Debug)]
pub enum RankingStep {
    /// The search is answered with these paths, out of as many candidates.
    Answer { paths: Vec<String>, candidate_count: usize },
    /// The endpoint is to be asked to rank the candidates.
    Ask { prompt: String, candidates: Vec<String> },
}

/// What a [`RankingStep`] says.
pub enum StepView {
    Answer { paths: Seq<Seq<char>>, candidate_count: nat },
    Ask { prompt: Seq<char>, candidates: Seq<Seq<char>> },
}

impl RankingStep {
    pub open spec fn view(&self) -> StepView {
        match *self {
            RankingStep::Answer { paths, candidate_count } => StepView::Answer {
                paths: lists::texts(paths@),
                candidate_count: candidate_count as nat,
            },
            RankingStep::Ask { prompt, candidates } => StepView::Ask {
                prompt: prompt@,
                candidates: lists::texts(candidates@),
            },
        }
    }
}

/// What a search does next, given whether the endpoint may be asked at all and whether it is left
/// alone at the moment.
pub open spec fn next_step(
    remote: bool,
    suspended: bool,
    query: Seq<char>,
    segments: Seq<Seq<char>>,
    files: Seq<FileView>,
) -> StepView {
    let candidates = candidate_paths(query, segments, files);
    if candidates.len() > MAX_RESULTS && remote && !suspended {
        StepView::Ask { prompt: ranking_question(query, candidates, files), candidates }
    } else {
        StepView::Answer {
            paths: lists::first_items(candidates, MAX_RESULTS as int),
            candidate_count: candidates.len(),
        }
    }
}

/// Starts a search for `query`: the candidates are the answer when they are few; otherwise the
/// endpoint is asked, unless the policy or the circuit keeps it out, in which case the first
/// candidates are the answer.
pub fn plan_ranking(
    policy: &RankingPolicy,
    circuit: &RankingCircuit,
    now_ms: u64,
    query: &str,
    partial_path_segments: Option<&[String]>,
    files: &[FileSymbols],
) -> (step: RankingStep)
    ensures
        ({
            let paths = candidate_paths(
                query@,
                segment_texts(partial_path_segments),
                file_views(files@),
            );
            if paths.len() <= MAX_RESULTS || !policy.remote || circuit@.is_suspended(
                now_ms as nat,
            ) {
                step matches RankingStep::Answer { paths: answer, candidate_count }
                    && lists::texts(answer@) == lists::first_items(paths, MAX_RESULTS as int)
                    && candidate_count == paths.len()
            } else {
                step matches RankingStep::Ask { prompt, candidates } && lists::texts(candidates@)
                    == paths && prompt@ == ranking_question(query@, paths, file_views(files@))
            }
        }),
        step@ == next_step(
            policy.remote,
            circuit@.is_suspended(now_ms as nat),
            query@,
            segment_texts(partial_path_segments),
            file_views(files@),
        ),
{
    let candidates = rank_candidates(query, partial_path_segments, files);
    assert(lists::texts(candidates@).len() == candidates@.len());
    let candidate_count: usize = candidates.len();
    if candidate_count <= MAX_RESULTS {
        return RankingStep::Answer { paths: candidates, candidate_count };
    }
    // An endpoint that just failed too often is left alone instead of being asked again on the
    // next search: the lexical order is what the search falls back to anyway.
    if !policy.remote || circuit.is_suspended(now_ms) {
        return RankingStep::Answer {
            paths: lists::first_of(candidates, MAX_RESULTS),
            candidate_count,
        };
    }
    let prompt = ranking_prompt(query, candidates.as_slice(), files);
    RankingStep::Ask { prompt, candidates }
}

/// The answer that a ranking leads and the candidates fill up.
pub open spec fn filled_ranking(
    ranked: Seq<Seq<char>>,
    candidates: Seq<Seq<char>>,
) -> Seq<Seq<char>> {
    lists::first_items(lists::without_repeats(ranked + candidates), MAX_RESULTS as int)
}

/// What a search that asked the endpoint is answered with.
pub open spec fn settled_answer(
    ranking: Option<Seq<Seq<char>>>,
    candidates: Seq<Seq<char>>,
) -> Seq<Seq<char>> {
    match ranking {
        Some(ranked) => filled_ranking(ranked, candidates),
        None => filled_ranking(candidates, candidates),
    }
}

/// What the circuit remembers after a search that asked the endpoint.
pub open spec fn settled_circuit(
    circuit: CircuitView,
    ranked: bool,
    failure_limit: nat,
    cooldown_ms: nat,
    now_ms: nat,
) -> CircuitView {
    if ranked {
        CircuitView::fresh()
    } else {
        circuit.after_failure(failure_limit, cooldown_ms, now_ms)
    }
}

/// Ends a search that asked the endpoint: notes in the circuit whether it gave a ranking, and
/// answers with that ranking, or the candidates in its place. The heuristic order fills the
/// remaining slots so a terse answer still gives the agent something to read.
pub fn settle_ranking(
    circuit: &mut RankingCircuit,
    policy: &RankingPolicy,
    now_ms: u64,
    candidates: &[String],
    ranking: Option<Vec<String>>,
) -> (answer: Vec<String>)
    requires
        ranking is None && old(circuit)@.is_at_limit(policy.failure_limit as nat) ==> now_ms
            + policy.cooldown_ms() <= u64::MAX,
    ensures
        final(circuit)@ == (match ranking {
            Some(_) => CircuitView::fresh(),
            None => old(circuit)@.after_failure(
                policy.failure_limit as nat,
                policy.cooldown_ms(),
                now_ms as nat,
            ),
        }),
        lists::texts(answer@) == filled_ranking(
            match ranking {
                Some(ranked) => lists::texts(ranked@),
                None => lists::texts(candidates@),
            },
            lists::texts(candidates@),
        ),
        lists::texts(answer@) == settled_answer(
            match ranking {
                Some(ranked) => Some(lists::texts(ranked@)),
                None => None,
            },
            lists::texts(candidates@),
        ),
        final(circuit)@ == settled_circuit(
            old(circuit)@,
            ranking is Some,
            policy.failure_limit as nat,
            policy.cooldown_ms(),
            now_ms as nat,
        ),
{
    let ranked = match ranking {
        Some(ranked) => {
            circuit.note_success();
            ranked
        },
        None => {
            circuit.note_failure(policy, now_ms);
            lists::copied(candidates)
        },
    };
    lists::first_of(lists::unique(lists::chained(ranked, candidates)), MAX_RESULTS)
}

/// The keys of all files, as they come.
pub open spec fn file_keys(
    query: Seq<char>,
    segments: Seq<Seq<char>>,
    files: Seq<FileView>,
) -> Seq<RankKey> {
    files.map_values(|file: FileView| file_key(words::search_tokens(query), segments, file))
}

/// The lexical order holds every file once, and of any two files the one with the higher score,
/// or else the richer symbols, or else the lower path comes first.
pub proof fn lexical_order_is_sorted(
    query: Seq<char>,
    segments: Seq<Seq<char>>,
    files: Seq<FileView>,
)
    ensures
        ({
            let order = lexical_order(query, segments, files);
            &&& order.to_multiset() == file_keys(query, segments, files).to_multiset()
            &&& order.len() == files.len()
            &&& forall|i: int, j: int|
                0 <= i < j < order.len() ==> (#[trigger] order[i]).le(#[trigger] order[j])
        }),
{
    broadcast use vstd::seq_lib::group_to_multiset_ensures;

    let keys = file_keys(query, segments, files);
    let order = lexical_order(query, segments, files);
    rank_order_is_total();
    keys.lemma_sort_by_ensures(rank_order());
    assert(order.len() == order.to_multiset().len());
    assert(keys.len() == keys.to_multiset().len());
    assert forall|i: int, j: int| 0 <= i < j < order.len() implies (#[trigger] order[i]).le(
        #[trigger] order[j],
    ) by {
        assert(rank_order()(order[i], order[j]));
    }
}

/// Whether any file scores for the query.
pub open spec fn any_file_scores(
    query: Seq<char>,
    segments: Seq<Seq<char>>,
    files: Seq<FileView>,
) -> bool {
    exists|k: int|
        0 <= k < files.len() && file_score(
            words::search_tokens(query),
            segments,
            #[trigger] files[k],
        ) > 0
}

/// Whether `key` is the key of one of the files.
spec fn is_key_of_file(
    query: Seq<char>,
    segments: Seq<Seq<char>>,
    files: Seq<FileView>,
    key: RankKey,
) -> bool {
    exists|k: int|
        0 <= k < files.len() && key == file_key(
            words::search_tokens(query),
            segments,
            #[trigger] files[k],
        )
}

/// What stands in the lexical order is the key of a file, and the other way round.
proof fn lemma_order_holds_files(
    query: Seq<char>,
    segments: Seq<Seq<char>>,
    files: Seq<FileView>,
)
    ensures
        forall|key: RankKey| #[trigger]
            lexical_order(query, segments, files).contains(key) <==> is_key_of_file(
                query,
                segments,
                files,
                key,
            ),
{
    broadcast use vstd::seq_lib::group_to_multiset_ensures;

    let order = lexical_order(query, segments, files);
    let tokens = words::search_tokens(query);
    let keys = file_keys(query, segments, files);
    lexical_order_is_sorted(query, segments, files);
    assert forall|key: RankKey| #[trigger] order.contains(key) <==> is_key_of_file(
        query,
        segments,
        files,
        key,
    ) by {
        assert(order.to_multiset().count(key) > 0 <==> order.contains(key));
        assert(keys.to_multiset().count(key) > 0 <==> keys.contains(key));
        if keys.contains(key) {
            let k = choose|k: int| 0 <= k < keys.len() && keys[k] == key;
            assert(key == file_key(tokens, segments, files[k]));
        }
        if is_key_of_file(query, segments, files, key) {
            let k = choose|k: int|
                0 <= k < files.len() && key == file_key(tokens, segments, #[trigger] files[k]);
            assert(keys[k] == key);
        }
    }
}

/// Whether `path` is the path of a file, and of one that overlaps the query where any does.
pub open spec fn is_path_that_matches(
    query: Seq<char>,
    segments: Seq<Seq<char>>,
    files: Seq<FileView>,
    path: Seq<char>,
) -> bool {
    exists|k: int|
        {
            &&& 0 <= k < files.len()
            &&& (#[trigger] files[k]).path == path
            &&& any_file_scores(query, segments, files) ==> file_score(
                words::search_tokens(query),
                segments,
                files[k],
            ) > 0
        }
}

/// Candidates are paths of files, at most as many as the model is handed. Where any file overlaps
/// the query, a file that does not is no candidate.
pub proof fn candidates_are_files_that_match(
    query: Seq<char>,
    segments: Seq<Seq<char>>,
    files: Seq<FileView>,
    i: int,
)
    requires
        0 <= i < candidate_paths(query, segments, files).len(),
    ensures
        candidate_paths(query, segments, files).len() <= MAX_CANDIDATES,
        is_path_that_matches(query, segments, files, candidate_paths(query, segments, files)[i]),
{
    let order = lexical_order(query, segments, files);
    let kept = kept_keys(order);
    let tokens = words::search_tokens(query);
    let scores = |key: RankKey| key.score > 0;
    let key = kept[i];
    lemma_order_holds_files(query, segments, files);
    lemma_scores_agree(query, segments, files);
    assert(kept.contains(key));
    if any_scores(order) {
        lists::lemma_filter_contains(order, scores, key);
    }
    assert(order.contains(key));
    let k = choose|k: int|
        0 <= k < files.len() && key == file_key(tokens, segments, #[trigger] files[k]);
    assert(files[k].path == candidate_paths(query, segments, files)[i]);
}

proof fn lemma_scores_agree(query: Seq<char>, segments: Seq<Seq<char>>, files: Seq<FileView>)
    ensures
        any_scores(lexical_order(query, segments, files)) == any_file_scores(
            query,
            segments,
            files,
        ),
{
    let order = lexical_order(query, segments, files);
    let tokens = words::search_tokens(query);
    lemma_order_holds_files(query, segments, files);
    if any_scores(order) {
        let i = choose|i: int| 0 <= i < order.len() && (#[trigger] order[i]).score > 0;
        assert(order.contains(order[i]));
        let k = choose|k: int|
            0 <= k < files.len() && order[i] == file_key(tokens, segments, #[trigger] files[k]);
        assert(file_score(tokens, segments, files[k]) > 0);
    }
    if any_file_scores(query, segments, files) {
        let k = choose|k: int|
            0 <= k < files.len() && file_score(tokens, segments, #[trigger] files[k]) > 0;
        assert(is_key_of_file(query, segments, files, file_key(tokens, segments, files[k])));
        assert(order.contains(file_key(tokens, segments, files[k])));
        let i = choose|i: int|
            0 <= i < order.len() && order[i] == file_key(tokens, segments, files[k]);
        assert(order[i].score > 0);
    }
}

/// Keys that stand in order still do when some are dropped.
proof fn lemma_filter_keeps_order(keys: Seq<RankKey>, pass: spec_fn(RankKey) -> bool)
    requires
        in_order(keys),
    ensures
        in_order(keys.filter(pass)),
    decreases keys.len(),
{
    reveal(Seq::filter);
    if keys.len() > 0 {
        let rest = keys.drop_last();
        let kept = rest.filter(pass);
        assert forall|i: int, j: int| 0 <= i < j < rest.len() implies (#[trigger] rest[i]).le(
            #[trigger] rest[j],
        ) by {
            assert(keys[i].le(keys[j]));
        }
        lemma_filter_keeps_order(rest, pass);
        assert forall|i: int| 0 <= i < kept.len() implies (#[trigger] kept[i]).le(keys.last()) by {
            assert(kept.contains(kept[i]));
            lists::lemma_filter_contains(rest, pass, kept[i]);
            let k = choose|k: int| 0 <= k < rest.len() && rest[k] == kept[i];
            assert(keys[k].le(keys[keys.len() - 1]));
        }
    }
}

/// Candidates stand best first, and a file that was left out for want of room is no better than
/// any of them.
pub proof fn candidates_stand_best_first(
    query: Seq<char>,
    segments: Seq<Seq<char>>,
    files: Seq<FileView>,
    i: int,
    j: int,
)
    requires
        0 <= i < j < kept_keys(lexical_order(query, segments, files)).len(),
        i < MAX_CANDIDATES,
    ensures
        candidate_keys(query, segments, files)[i].le(
            kept_keys(lexical_order(query, segments, files))[j],
        ),
        j < MAX_CANDIDATES ==> candidate_keys(query, segments, files)[i].le(
            candidate_keys(query, segments, files)[j],
        ),
{
    let order = lexical_order(query, segments, files);
    lexical_order_is_sorted(query, segments, files);
    assert(in_order(order));
    lemma_filter_keeps_order(order, |key: RankKey| key.score > 0);
    assert(in_order(kept_keys(order)));
}

/// A repository with files always gives candidates.
pub proof fn there_are_candidates(
    query: Seq<char>,
    segments: Seq<Seq<char>>,
    files: Seq<FileView>,
)
    requires
        files.len() > 0,
    ensures
        candidate_paths(query, segments, files).len() > 0,
{
    let order = lexical_order(query, segments, files);
    let scores = |key: RankKey| key.score > 0;
    lexical_order_is_sorted(query, segments, files);
    if any_scores(order) {
        let i = choose|i: int| 0 <= i < order.len() && (#[trigger] order[i]).score > 0;
        lists::lemma_filter_contains(order, scores, order[i]);
        assert(order.contains(order[i]));
        assert(order.filter(scores).contains(order[i]));
    }
}

/// The best file leads: no file has a better key than the first candidate. Where nothing overlaps
/// the query, that is the file with the richest symbols.
pub proof fn the_best_file_leads(
    query: Seq<char>,
    segments: Seq<Seq<char>>,
    files: Seq<FileView>,
    k: int,
)
    requires
        0 <= k < files.len(),
    ensures
        ({
            let tokens = words::search_tokens(query);
            exists|best: int|
                {
                    &&& 0 <= best < files.len()
                    &&& (#[trigger] files[best]).path == candidate_paths(
                        query,
                        segments,
                        files,
                    )[0]
                    &&& file_key(tokens, segments, files[best]).le(
                        file_key(tokens, segments, files[k]),
                    )
                }
        }),
{
    let order = lexical_order(query, segments, files);
    let kept = kept_keys(order);
    let tokens = words::search_tokens(query);
    let scores = |key: RankKey| key.score > 0;
    lexical_order_is_sorted(query, segments, files);
    lemma_order_holds_files(query, segments, files);
    there_are_candidates(query, segments, files);
    let key = file_key(tokens, segments, files[k]);
    assert(is_key_of_file(query, segments, files, key));
    assert(order.contains(key));
    let at = choose|at: int| 0 <= at < order.len() && order[at] == key;
    assert(kept[0] == order[0]) by {
        if any_scores(order) {
            let i = choose|i: int| 0 <= i < order.len() && (#[trigger] order[i]).score > 0;
            if i > 0 {
                assert(order[0].le(order[i]));
            }
            lemma_filter_keeps_first(order, scores);
        }
    }
    if at == 0 {
        rank_order_is_total();
        assert(rank_order()(key, key));
    } else {
        assert(order[0].le(order[at]));
    }
    assert(order.contains(order[0]));
    let best = choose|best: int|
        0 <= best < files.len() && order[0] == file_key(
            tokens,
            segments,
            #[trigger] files[best],
        );
    assert(files[best].path == candidate_paths(query, segments, files)[0]);
}

/// A first item that passes stays the first.
proof fn lemma_filter_keeps_first<A>(list: Seq<A>, pass: spec_fn(A) -> bool)
    requires
        list.len() > 0,
        pass(list[0]),
    ensures
        list.filter(pass).len() > 0,
        list.filter(pass)[0] == list[0],
    decreases list.len(),
{
    reveal(Seq::filter);
    if list.len() == 1 {
        assert(list.drop_last().filter(pass) =~= Seq::empty());
    } else {
        lemma_filter_keeps_first(list.drop_last(), pass);
    }
}

/// A ranking read from an answer holds only candidates, none of them twice, and every candidate
/// that the answer names, in the order in which the answer first names them.
pub proof fn rankings_hold_only_candidates(files: Seq<Seq<char>>, candidates: Seq<Seq<char>>)
    ensures
        usable_paths(files, candidates).no_duplicates(),
        forall|path: Seq<char>| #[trigger]
            usable_paths(files, candidates).contains(path) <==> candidates.contains(path)
                && named_paths(files).contains(path),
        forall|i: int, j: int, a: int, b: int|
            {
                &&& 0 <= i < j < usable_paths(files, candidates).len()
                &&& #[trigger] lists::occurs_first(
                    named_paths(files),
                    usable_paths(files, candidates)[i],
                    a,
                )
                &&& #[trigger] lists::occurs_first(
                    named_paths(files),
                    usable_paths(files, candidates)[j],
                    b,
                )
            } ==> a < b,
{
    let allowed = |path: Seq<char>| candidates.contains(path);
    let given = named_paths(files);
    let ranked = usable_paths(files, candidates);
    lists::repeats_are_dropped(given.filter(allowed));
    lists::first_occurrences_keep_their_order(given, allowed);
    assert forall|path: Seq<char>| #[trigger]
        ranked.contains(path) <==> candidates.contains(path) && given.contains(path) by {
        lists::lemma_filter_contains(given, allowed, path);
    }
}

/// The answer to a search holds at most as many paths as are returned to the agent, none of them
/// twice. Where the ranking holds only candidates, so does the answer.
pub proof fn answers_hold_only_candidates(ranked: Seq<Seq<char>>, candidates: Seq<Seq<char>>)
    requires
        forall|path: Seq<char>| #[trigger] ranked.contains(path) ==> candidates.contains(path),
    ensures
        filled_ranking(ranked, candidates).len() <= MAX_RESULTS,
        filled_ranking(ranked, candidates).no_duplicates(),
        forall|path: Seq<char>| #[trigger]
            filled_ranking(ranked, candidates).contains(path) ==> candidates.contains(path),
{
    let all = ranked + candidates;
    let distinct = lists::without_repeats(all);
    let answer = filled_ranking(ranked, candidates);
    lists::repeats_are_dropped(all);
    assert forall|path: Seq<char>| #[trigger] answer.contains(path) implies candidates.contains(
        path,
    ) by {
        let i = choose|i: int| 0 <= i < answer.len() && answer[i] == path;
        assert(distinct[i] == path);
        assert(distinct.contains(path));
        let k = choose|k: int| 0 <= k < all.len() && all[k] == path;
        if k < ranked.len() {
            assert(ranked[k] == path);
            assert(ranked.contains(path));
        } else {
            assert(candidates[k - ranked.len()] == path);
        }
    }
}

/// The model's order leads the answer: as far as the ranking goes, the answer is the ranking.
pub proof fn the_ranking_leads_the_answer(
    ranked: Seq<Seq<char>>,
    candidates: Seq<Seq<char>>,
    i: int,
)
    requires
        ranked.no_duplicates(),
        0 <= i < ranked.len(),
        i < MAX_RESULTS,
    ensures
        i < filled_ranking(ranked, candidates).len(),
        filled_ranking(ranked, candidates)[i] == ranked[i],
{
    lists::distinct_items_stay(ranked);
    lists::leading_items_lead(ranked, candidates);
}

/// A terse ranking is filled up: the answer holds every candidate, unless it is full.
pub proof fn terse_rankings_are_filled_up(
    ranked: Seq<Seq<char>>,
    candidates: Seq<Seq<char>>,
    path: Seq<char>,
)
    requires
        candidates.contains(path),
        filled_ranking(ranked, candidates).len() < MAX_RESULTS,
    ensures
        filled_ranking(ranked, candidates).contains(path),
{
    let all = ranked + candidates;
    lists::repeats_are_dropped(all);
    let k = choose|k: int| 0 <= k < candidates.len() && candidates[k] == path;
    assert(all[ranked.len() + k] == path);
    assert(all.contains(path));
}

/// Without a ranking from the endpoint the answer is the lexical one: the first candidates, each
/// once. Where no path occurs twice, that is what a search answers that never asks the endpoint.
pub proof fn without_a_ranking_the_lexical_order_answers(candidates: Seq<Seq<char>>)
    ensures
        filled_ranking(candidates, candidates) == lists::first_items(
            lists::without_repeats(candidates),
            MAX_RESULTS as int,
        ),
        candidates.no_duplicates() ==> filled_ranking(candidates, candidates)
            == lists::first_items(candidates, MAX_RESULTS as int),
{
    lists::known_items_add_nothing(candidates, candidates);
    if candidates.no_duplicates() {
        lists::distinct_items_stay(candidates);
    }
}

/// What files map to depends on which files there are, and not on their order.
proof fn lemma_keys_of_same_files(
    query: Seq<char>,
    segments: Seq<Seq<char>>,
    files: Seq<FileView>,
    others: Seq<FileView>,
)
    requires
        files.to_multiset() == others.to_multiset(),
    ensures
        file_keys(query, segments, files).to_multiset() == file_keys(
            query,
            segments,
            others,
        ).to_multiset(),
    decreases files.len(),
{
    broadcast use vstd::seq_lib::group_to_multiset_ensures;
    broadcast use vstd::multiset::group_multiset_axioms;

    assert(files.len() == files.to_multiset().len());
    assert(others.len() == others.to_multiset().len());
    let keys = file_keys(query, segments, files);
    let other_keys = file_keys(query, segments, others);
    if files.len() == 0 {
        assert(keys =~= other_keys);
    } else {
        let last = files.last();
        let rest = files.drop_last();
        assert(rest.push(last) =~= files);
        assert(others.to_multiset().count(last) > 0);
        assert(others.contains(last));
        let at = choose|at: int| 0 <= at < others.len() && others[at] == last;
        let others_rest = others.remove(at);
        assert(rest.to_multiset() =~= files.to_multiset().remove(last));
        assert(others_rest.to_multiset() == others.to_multiset().remove(last));
        lemma_keys_of_same_files(query, segments, rest, others_rest);
        let key = file_key(words::search_tokens(query), segments, last);
        assert(keys =~= file_keys(query, segments, rest).push(key));
        assert(other_keys.remove(at) =~= file_keys(query, segments, others_rest));
        assert(other_keys[at] == key);
        assert(other_keys.contains(key));
        assert(other_keys.to_multiset().count(key) > 0);
        assert(other_keys.to_multiset() =~= other_keys.to_multiset().remove(key).insert(key));
    }
}

/// The order in which the files come makes no difference to the candidates.
pub proof fn file_order_makes_no_difference(
    query: Seq<char>,
    segments: Seq<Seq<char>>,
    files: Seq<FileView>,
    others: Seq<FileView>,
)
    requires
        files.to_multiset() == others.to_multiset(),
    ensures
        candidate_paths(query, segments, files) == candidate_paths(query, segments, others),
{
    let keys = file_keys(query, segments, files);
    let other_keys = file_keys(query, segments, others);
    lemma_keys_of_same_files(query, segments, files, others);
    rank_order_is_total();
    keys.lemma_sort_by_ensures(rank_order());
    other_keys.lemma_sort_by_ensures(rank_order());
    vstd::seq_lib::lemma_sorted_unique(
        lexical_order(query, segments, files),
        lexical_order(query, segments, others),
        rank_order(),
    );
}

/// Keys of a list without repeats still do not repeat when some are dropped.
proof fn lemma_filter_keeps_distinct<A>(list: Seq<A>, pass: spec_fn(A) -> bool)
    requires
        list.no_duplicates(),
    ensures
        list.filter(pass).no_duplicates(),
    decreases list.len(),
{
    reveal(Seq::filter);
    if list.len() > 0 {
        let rest = list.drop_last();
        let kept = rest.filter(pass);
        assert forall|i: int, j: int|
            0 <= i < rest.len() && 0 <= j < rest.len() && i != j implies rest[i] != rest[j] by {
            assert(list[i] != list[j]);
        }
        lemma_filter_keeps_distinct(rest, pass);
        assert(!kept.contains(list.last())) by {
            lists::lemma_filter_contains(rest, pass, list.last());
            if rest.contains(list.last()) {
                let i = choose|i: int| 0 <= i < rest.len() && rest[i] == list.last();
                assert(list[i] != list[list.len() - 1]);
            }
        }
        assert forall|i: int, j: int|
            0 <= i < list.filter(pass).len() && 0 <= j < list.filter(pass).len() && i
                != j implies list.filter(pass)[i] != list.filter(pass)[j] by {
            if i < kept.len() {
                assert(kept.contains(kept[i]));
            }
            if j < kept.len() {
                assert(kept.contains(kept[j]));
            }
        }
    }
}

/// Whether no two files have the same path.
pub open spec fn paths_are_distinct(files: Seq<FileView>) -> bool {
    forall|i: int, j: int|
        0 <= i < j < files.len() ==> (#[trigger] files[i]).path != (#[trigger] files[j]).path
}

/// Where no two files have the same path, no candidate comes twice.
pub proof fn distinct_files_give_distinct_candidates(
    query: Seq<char>,
    segments: Seq<Seq<char>>,
    files: Seq<FileView>,
)
    requires
        paths_are_distinct(files),
    ensures
        candidate_paths(query, segments, files).no_duplicates(),
{
    let tokens = words::search_tokens(query);
    let keys = file_keys(query, segments, files);
    let order = lexical_order(query, segments, files);
    let scores = |key: RankKey| key.score > 0;
    assert forall|i: int, j: int|
        0 <= i < keys.len() && 0 <= j < keys.len() && i != j implies keys[i] != keys[j] by {
        if i < j {
            assert(files[i].path != files[j].path);
        } else {
            assert(files[j].path != files[i].path);
        }
    }
    lexical_order_is_sorted(query, segments, files);
    keys.lemma_multiset_has_no_duplicates();
    order.lemma_multiset_has_no_duplicates_conv();
    lemma_filter_keeps_distinct(order, scores);
    lemma_order_holds_files(query, segments, files);
    let kept = kept_keys(order);
    let paths = candidate_paths(query, segments, files);
    assert forall|i: int, j: int|
        0 <= i < paths.len() && 0 <= j < paths.len() && i != j implies paths[i] != paths[j] by {
        assert(kept[i] != kept[j]);
        assert(kept.contains(kept[i]) && kept.contains(kept[j]));
        lists::lemma_filter_contains(order, scores, kept[i]);
        lists::lemma_filter_contains(order, scores, kept[j]);
        assert(order.contains(kept[i]) && order.contains(kept[j]));
        let a = choose|a: int|
            0 <= a < files.len() && kept[i] == file_key(tokens, segments, #[trigger] files[a]);
        let b = choose|b: int|
            0 <= b < files.len() && kept[j] == file_key(tokens, segments, #[trigger] files[b]);
        if a < b {
            assert(files[a].path != files[b].path);
        } else if b < a {
            assert(files[b].path != files[a].path);
        }
    }
}

/// Where no candidate comes twice, an answer has no path twice, and as many paths as there are
/// candidates and room for them, whether it is the first candidates or a ranking of candidates,
/// filled up.
pub proof fn answers_are_full_and_distinct(ranked: Seq<Seq<char>>, candidates: Seq<Seq<char>>)
    requires
        candidates.no_duplicates(),
        forall|path: Seq<char>| #[trigger] ranked.contains(path) ==> candidates.contains(path),
    ensures
        lists::first_items(candidates, MAX_RESULTS as int).no_duplicates(),
        lists::first_items(candidates, MAX_RESULTS as int).len() == (if candidates.len()
            < MAX_RESULTS {
            candidates.len() as int
        } else {
            MAX_RESULTS as int
        }),
        filled_ranking(ranked, candidates).no_duplicates(),
        filled_ranking(ranked, candidates).len() == lists::first_items(
            candidates,
            MAX_RESULTS as int,
        ).len(),
{
    let all = ranked + candidates;
    let distinct = lists::without_repeats(all);
    answers_hold_only_candidates(ranked, candidates);
    lists::repeats_are_dropped(all);
    assert forall|path: Seq<char>| #[trigger] distinct.to_set().contains(
        path,
    ) <==> candidates.to_set().contains(path) by {
        if all.contains(path) {
            let k = choose|k: int| 0 <= k < all.len() && all[k] == path;
            if k < ranked.len() {
                assert(ranked[k] == path);
                assert(ranked.contains(path));
            } else {
                assert(candidates[k - ranked.len()] == path);
            }
        }
        if candidates.contains(path) {
            let k = choose|k: int| 0 <= k < candidates.len() && candidates[k] == path;
            assert(all[ranked.len() + k] == path);
        }
        assert(distinct.contains(path) <==> all.contains(path));
    }
    assert(distinct.to_set() =~= candidates.to_set());
    distinct.unique_seq_to_set();
    candidates.unique_seq_to_set();
}

/// A part of a part of a text is a part of the text.
proof fn lemma_part_of_part(text: Seq<char>, middle: Seq<char>, part: Seq<char>)
    requires
        text::contains_text(text, middle),
        text::contains_text(middle, part),
    ensures
        text::contains_text(text, part),
{
    let i = choose|i: int| text::stands_at(text, middle, i);
    let j = choose|j: int| text::stands_at(middle, part, j);
    let found = text.subrange(i + j, i + j + part.len());
    assert forall|k: int| 0 <= k < part.len() implies #[trigger] found[k] == part[k] by {
        assert(text.subrange(i, i + middle.len())[j + k] == middle[j + k]);
        assert(middle.subrange(j, j + part.len())[k] == part[k]);
    }
    assert(found =~= part);
    assert(text::stands_at(text, part, i + j));
}

/// The middle of a text is a part of it.
proof fn lemma_middle_is_part(before: Seq<char>, middle: Seq<char>, after: Seq<char>)
    ensures
        text::contains_text(before + middle + after, middle),
{
    let text = before + middle + after;
    assert(text.subrange(before.len() as int, (before.len() + middle.len()) as int) =~= middle);
    assert(text::stands_at(text, middle, before.len() as int));
}

proof fn lemma_entry_is_listed(files: Seq<FileView>, candidates: Seq<Seq<char>>, at: int)
    requires
        0 <= at < candidates.len(),
    ensures
        text::contains_text(
            candidate_entries(files, candidates),
            candidate_entry(files, candidates[at]),
        ),
    decreases candidates.len(),
{
    let rest = candidates.drop_last();
    let before = candidate_entries(files, rest);
    let last = candidate_entry(files, candidates.last());
    if at == candidates.len() - 1 {
        lemma_middle_is_part(before, last, Seq::empty());
        assert(before + last + Seq::<char>::empty() =~= before + last);
    } else {
        lemma_entry_is_listed(files, rest, at);
        lemma_middle_is_part(Seq::empty(), before, last);
        assert(Seq::<char>::empty() + before + last =~= before + last);
        lemma_part_of_part(before + last, before, candidate_entry(files, candidates[at]));
    }
}

/// The prompt holds the trimmed question, and of every candidate its path and the start of its
/// symbols.
pub proof fn the_prompt_holds_question_and_candidates(
    query: Seq<char>,
    candidates: Seq<Seq<char>>,
    files: Seq<FileView>,
    at: int,
)
    requires
        0 <= at < candidates.len(),
    ensures
        text::contains_text(ranking_question(query, candidates, files), text::trimmed(query)),
        text::contains_text(
            ranking_question(query, candidates, files),
            candidate_entry(files, candidates[at]),
        ),
        text::contains_text(ranking_question(query, candidates, files), candidates[at]),
{
    let lead = "Question about this repository:\n"@;
    let asked = text::trimmed(query);
    let heading = "\n\nCandidate files:\n"@;
    let entries = candidate_entries(files, candidates);
    let entry = candidate_entry(files, candidates[at]);
    let prompt = ranking_question(query, candidates, files);
    lemma_middle_is_part(lead, asked, heading + entries);
    assert(lead + asked + (heading + entries) =~= prompt);
    lemma_middle_is_part(lead + asked + heading, entries, Seq::empty());
    assert(lead + asked + heading + entries + Seq::<char>::empty() =~= prompt);
    lemma_entry_is_listed(files, candidates, at);
    lemma_part_of_part(prompt, entries, entry);
    let path = candidates[at];
    let rest = entry.skip(path.len() as int);
    assert(Seq::<char>::empty() + path + rest =~= entry);
    lemma_middle_is_part(Seq::empty(), path, rest);
    lemma_part_of_part(prompt, entry, path);
}

/// However rich its symbols are, a candidate adds little more than its path to the prompt.
pub proof fn symbols_are_truncated_per_candidate(files: Seq<FileView>, path: Seq<char>)
    ensures
        candidate_entry(files, path).len() <= path.len() + MAX_SYMBOLS_CHARS + 4,
{
    reveal_strlit("\n");
    reveal_strlit("  ");
}

/// How many of the given texts stand in `text`.
pub open spec fn how_many_stand_in(parts: Seq<Seq<char>>, text: Seq<char>) -> nat {
    parts.filter(|part: Seq<char>| text::contains_text(text, part)).len()
}

/// Every match counts, however many there are: each token adds three if it is in the lowercased
/// path and two if it is in the lowercased symbols, and each segment adds five if it is in the
/// path as it is written.
pub proof fn every_match_counts(
    tokens: Seq<Seq<char>>,
    segments: Seq<Seq<char>>,
    file: FileView,
)
    ensures
        file_score(tokens, segments, file) == 3 * how_many_stand_in(
            tokens,
            text::lowercase(file.path),
        ) + 2 * how_many_stand_in(tokens, text::lowercase(file.symbols)) + 5 * how_many_stand_in(
            segments,
            file.path,
        ),
{
    lemma_tokens_count(tokens, file);
    lemma_segments_count(segments, file);
}

proof fn lemma_tokens_count(tokens: Seq<Seq<char>>, file: FileView)
    ensures
        token_score(tokens, file) == 3 * how_many_stand_in(tokens, text::lowercase(file.path)) + 2
            * how_many_stand_in(tokens, text::lowercase(file.symbols)),
    decreases tokens.len(),
{
    reveal(Seq::filter);
    if tokens.len() > 0 {
        lemma_tokens_count(tokens.drop_last(), file);
    }
}

proof fn lemma_segments_count(segments: Seq<Seq<char>>, file: FileView)
    ensures
        segment_score(segments, file) == 5 * how_many_stand_in(segments, file.path),
    decreases segments.len(),
{
    reveal(Seq::filter);
    if segments.len() > 0 {
        lemma_segments_count(segments.drop_last(), file);
    }
}

/// What one more text adds to how many stand in a text.
proof fn lemma_one_more(parts: Seq<Seq<char>>, part: Seq<char>, at: int, text: Seq<char>)
    requires
        0 <= at <= parts.len(),
    ensures
        how_many_stand_in(parts.insert(at, part), text) == how_many_stand_in(parts, text) + (
        if text::contains_text(text, part) {
            1int
        } else {
            0int
        }),
    decreases parts.len(),
{
    reveal(Seq::filter);
    let more = parts.insert(at, part);
    if at == parts.len() {
        assert(more.drop_last() =~= parts);
        assert(more.last() == part);
    } else {
        lemma_one_more(parts.drop_last(), part, at, text);
        assert(more.drop_last() =~= parts.drop_last().insert(at, part));
        assert(more.last() == parts.last());
    }
}

/// A further token or segment raises a file's score by what it matches, wherever in the list it
/// stands.
pub proof fn further_matches_raise_the_score(
    tokens: Seq<Seq<char>>,
    segments: Seq<Seq<char>>,
    file: FileView,
    part: Seq<char>,
    at: int,
)
    ensures
        0 <= at <= tokens.len() ==> file_score(tokens.insert(at, part), segments, file)
            == file_score(tokens, segments, file) + (if text::contains_text(
            text::lowercase(file.path),
            part,
        ) {
            3int
        } else {
            0int
        }) + (if text::contains_text(text::lowercase(file.symbols), part) {
            2int
        } else {
            0int
        }),
        0 <= at <= segments.len() ==> file_score(tokens, segments.insert(at, part), file)
            == file_score(tokens, segments, file) + (if text::contains_text(file.path, part) {
            5int
        } else {
            0int
        }),
{
    every_match_counts(tokens, segments, file);
    if 0 <= at <= tokens.len() {
        every_match_counts(tokens.insert(at, part), segments, file);
        lemma_one_more(tokens, part, at, text::lowercase(file.path));
        lemma_one_more(tokens, part, at, text::lowercase(file.symbols));
    }
    if 0 <= at <= segments.len() {
        every_match_counts(tokens, segments.insert(at, part), file);
        lemma_one_more(segments, part, at, file.path);
    }
}

proof fn lemma_same_parts(parts: Seq<Seq<char>>, others: Seq<Seq<char>>, text: Seq<char>)
    requires
        parts.to_multiset() == others.to_multiset(),
    ensures
        how_many_stand_in(parts, text) == how_many_stand_in(others, text),
    decreases parts.len(),
{
    broadcast use vstd::seq_lib::group_to_multiset_ensures;
    broadcast use vstd::multiset::group_multiset_axioms;

    assert(parts.len() == parts.to_multiset().len());
    assert(others.len() == others.to_multiset().len());
    if parts.len() == 0 {
        assert(parts =~= others);
    } else {
        let last = parts.last();
        let rest = parts.drop_last();
        assert(rest.push(last) =~= parts);
        assert(others.to_multiset().count(last) > 0);
        assert(others.contains(last));
        let at = choose|at: int| 0 <= at < others.len() && others[at] == last;
        let others_rest = others.remove(at);
        assert(rest.to_multiset() =~= parts.to_multiset().remove(last));
        assert(others_rest.to_multiset() == others.to_multiset().remove(last));
        lemma_same_parts(rest, others_rest, text);
        assert(others_rest.insert(at, last) =~= others);
        assert(rest.insert(rest.len() as int, last) =~= parts);
        lemma_one_more(others_rest, last, at, text);
        lemma_one_more(rest, last, rest.len() as int, text);
    }
}

/// The order of the tokens and that of the segments make no difference to a score.
pub proof fn token_order_makes_no_difference(
    tokens: Seq<Seq<char>>,
    other_tokens: Seq<Seq<char>>,
    segments: Seq<Seq<char>>,
    other_segments: Seq<Seq<char>>,
    file: FileView,
)
    requires
        tokens.to_multiset() == other_tokens.to_multiset(),
        segments.to_multiset() == other_segments.to_multiset(),
    ensures
        file_score(tokens, segments, file) == file_score(other_tokens, other_segments, file),
{
    every_match_counts(tokens, segments, file);
    every_match_counts(other_tokens, other_segments, file);
    lemma_same_parts(tokens, other_tokens, text::lowercase(file.path));
    lemma_same_parts(tokens, other_tokens, text::lowercase(file.symbols));
    lemma_same_parts(segments, other_segments, file.path);
}

proof fn lemma_some_stand_in(parts: Seq<Seq<char>>, text: Seq<char>)
    ensures
        how_many_stand_in(parts, text) > 0 <==> exists|i: int|
            0 <= i < parts.len() && text::contains_text(text, #[trigger] parts[i]),
{
    let pass = |part: Seq<char>| text::contains_text(text, part);
    let kept = parts.filter(pass);
    if kept.len() > 0 {
        assert(kept.contains(kept[0]));
        lists::lemma_filter_contains(parts, pass, kept[0]);
        let i = choose|i: int| 0 <= i < parts.len() && parts[i] == kept[0];
        assert(text::contains_text(text, parts[i]));
    }
    if exists|i: int| 0 <= i < parts.len() && text::contains_text(text, #[trigger] parts[i]) {
        let i = choose|i: int|
            0 <= i < parts.len() && text::contains_text(text, #[trigger] parts[i]);
        assert(parts.contains(parts[i]));
        lists::lemma_filter_contains(parts, pass, parts[i]);
    }
}

/// A file scores exactly when something matches: a token in its path or its symbols, or a segment
/// in its path.
pub proof fn files_score_when_something_matches(
    tokens: Seq<Seq<char>>,
    segments: Seq<Seq<char>>,
    file: FileView,
)
    ensures
        file_score(tokens, segments, file) > 0 <==> {
            ||| exists|i: int|
                0 <= i < tokens.len() && (text::contains_text(
                    text::lowercase(file.path),
                    #[trigger] tokens[i],
                ) || text::contains_text(text::lowercase(file.symbols), tokens[i]))
            ||| exists|i: int|
                0 <= i < segments.len() && text::contains_text(file.path, #[trigger] segments[i])
        },
{
    every_match_counts(tokens, segments, file);
    lemma_some_stand_in(tokens, text::lowercase(file.path));
    lemma_some_stand_in(tokens, text::lowercase(file.symbols));
    lemma_some_stand_in(segments, file.path);
}

/// Of two candidates, the one that comes first belongs to a file with the higher score, or else
/// more bytes of symbols, or else the lower path.
pub proof fn better_files_come_first(
    query: Seq<char>,
    segments: Seq<Seq<char>>,
    files: Seq<FileView>,
    i: int,
    j: int,
)
    requires
        0 <= i < j < candidate_paths(query, segments, files).len(),
    ensures
        ({
            let tokens = words::search_tokens(query);
            let paths = candidate_paths(query, segments, files);
            exists|a: int, b: int|
                {
                    &&& 0 <= a < files.len()
                    &&& 0 <= b < files.len()
                    &&& (#[trigger] files[a]).path == paths[i]
                    &&& (#[trigger] files[b]).path == paths[j]
                    &&& comes_first(tokens, segments, files[a], files[b])
                }
        }),
{
    let tokens = words::search_tokens(query);
    let order = lexical_order(query, segments, files);
    let kept = kept_keys(order);
    let scores = |key: RankKey| key.score > 0;
    candidates_stand_best_first(query, segments, files, i, j);
    lemma_order_holds_files(query, segments, files);
    assert(kept.contains(kept[i]) && kept.contains(kept[j]));
    lists::lemma_filter_contains(order, scores, kept[i]);
    lists::lemma_filter_contains(order, scores, kept[j]);
    assert(order.contains(kept[i]) && order.contains(kept[j]));
    let a = choose|a: int|
        0 <= a < files.len() && kept[i] == file_key(tokens, segments, #[trigger] files[a]);
    let b = choose|b: int|
        0 <= b < files.len() && kept[j] == file_key(tokens, segments, #[trigger] files[b]);
    assert(files[a].path == kept[i].path && files[b].path == kept[j].path);
}

/// Whether `left` may stand before `right`: it scores higher, or as high with more bytes of
/// symbols, or as high with as many and a path that is not greater.
pub open spec fn comes_first(
    tokens: Seq<Seq<char>>,
    segments: Seq<Seq<char>>,
    left: FileView,
    right: FileView,
) -> bool {
    let (high, low) = (
        file_score(tokens, segments, left),
        file_score(tokens, segments, right),
    );
    let (rich, poor) = (
        vstd::utf8::encode_utf8(left.symbols).len(),
        vstd::utf8::encode_utf8(right.symbols).len(),
    );
    &&& high >= low
    &&& high == low ==> rich >= poor
    &&& high == low && rich == poor ==> text::text_le(left.path, right.path)
}

/// No match is left out while there is room: a file that overlaps the query, or any file where
/// none does, is a candidate, unless thirty others that may stand before it are.
pub proof fn matches_are_left_out_for_want_of_room_only(
    query: Seq<char>,
    segments: Seq<Seq<char>>,
    files: Seq<FileView>,
    k: int,
)
    requires
        0 <= k < files.len(),
        file_score(words::search_tokens(query), segments, files[k]) > 0 || forall|n: int|
            0 <= n < files.len() ==> file_score(
                words::search_tokens(query),
                segments,
                #[trigger] files[n],
            ) == 0,
    ensures
        candidate_paths(query, segments, files).contains(files[k].path) || {
            &&& candidate_paths(query, segments, files).len() == 30
            &&& forall|i: int|
                0 <= i < 30 ==> exists|a: int|
                    {
                        &&& 0 <= a < files.len()
                        &&& (#[trigger] files[a]).path == #[trigger] candidate_paths(
                            query,
                            segments,
                            files,
                        )[i]
                        &&& comes_first(words::search_tokens(query), segments, files[a], files[k])
                    }
        },
        candidate_paths(query, segments, files).len() <= files.len(),
{
    let tokens = words::search_tokens(query);
    let order = lexical_order(query, segments, files);
    let kept = kept_keys(order);
    let paths = candidate_paths(query, segments, files);
    let scores = |key: RankKey| key.score > 0;
    let key = file_key(tokens, segments, files[k]);
    lexical_order_is_sorted(query, segments, files);
    lemma_order_holds_files(query, segments, files);
    lemma_scores_agree(query, segments, files);
    assert(is_key_of_file(query, segments, files, key));
    assert(order.contains(key));
    lists::lemma_filter_contains(order, scores, key);
    assert(kept.contains(key));
    lemma_filter_is_no_longer(order, scores);
    let at = choose|at: int| 0 <= at < kept.len() && kept[at] == key;
    if at < 30 {
        assert(paths[at] == files[k].path);
    } else {
        assert forall|i: int| 0 <= i < 30 implies exists|a: int|
            {
                &&& 0 <= a < files.len()
                &&& (#[trigger] files[a]).path == #[trigger] paths[i]
                &&& comes_first(tokens, segments, files[a], files[k])
            } by {
            candidates_stand_best_first(query, segments, files, i, at);
            assert(kept.contains(kept[i]));
            lists::lemma_filter_contains(order, scores, kept[i]);
            assert(order.contains(kept[i]));
            let a = choose|a: int|
                0 <= a < files.len() && kept[i] == file_key(tokens, segments, #[trigger] files[a]);
            assert(files[a].path == paths[i]);
            assert(comes_first(tokens, segments, files[a], files[k]));
        }
    }
}

proof fn lemma_filter_is_no_longer<A>(list: Seq<A>, pass: spec_fn(A) -> bool)
    ensures
        list.filter(pass).len() <= list.len(),
    decreases list.len(),
{
    reveal(Seq::filter);
    if list.len() > 0 {
        lemma_filter_is_no_longer(list.drop_last(), pass);
    }
}

/// The prompt asks the trimmed question and then lists the candidates in their order, whatever
/// part of them is listed first.
pub proof fn the_prompt_lists_in_order(
    query: Seq<char>,
    front: Seq<Seq<char>>,
    back: Seq<Seq<char>>,
    files: Seq<FileView>,
)
    ensures
        ranking_question(query, Seq::empty(), files) == "Question about this repository:\n"@
            + text::trimmed(query) + "\n\nCandidate files:\n"@,
        ranking_question(query, front + back, files) == ranking_question(query, front, files)
            + candidate_entries(files, back),
        front.len() == 1 ==> candidate_entries(files, front) == candidate_entry(files, front[0]),
    decreases back.len(),
{
    let lead = "Question about this repository:\n"@ + text::trimmed(query)
        + "\n\nCandidate files:\n"@;
    assert(ranking_question(query, Seq::empty(), files) =~= lead);
    if front.len() == 1 {
        assert(front.drop_last() =~= Seq::empty());
        assert(candidate_entries(files, front.drop_last()) =~= Seq::empty());
        assert(candidate_entries(files, front) =~= candidate_entry(files, front[0]));
    }
    let all = front + back;
    if back.len() == 0 {
        assert(all =~= front);
    } else {
        the_prompt_lists_in_order(query, front, back.drop_last(), files);
        assert(all.drop_last() =~= front + back.drop_last());
        assert(candidate_entries(files, back) == candidate_entries(files, back.drop_last())
            + candidate_entry(files, back.last()));
        assert(candidate_entries(files, all) == candidate_entries(files, all.drop_last())
            + candidate_entry(files, all.last()));
        let last = candidate_entry(files, back.last());
        assert(ranking_question(query, all, files) =~= ranking_question(
            query,
            all.drop_last(),
            files,
        ) + last);
        assert(ranking_question(query, front, files) + candidate_entries(files, back.drop_last())
            + last =~= ranking_question(query, front, files) + candidate_entries(files, back));
    }
}

/// A candidate is listed with its path on a line. Under it, where the last of the files at that
/// path has symbols that are not blank, stand their first two hundred and forty characters, or
/// all of them when there are fewer.
pub proof fn a_candidate_is_listed_with_its_symbols(
    before: Seq<FileView>,
    file: FileView,
    after: Seq<FileView>,
    head: Seq<char>,
    tail: Seq<char>,
    other: Seq<char>,
)
    requires
        forall|i: int| 0 <= i < after.len() ==> (#[trigger] after[i]).path != file.path,
        text::trimmed(file.symbols) == head + tail,
        tail.len() == 0 || head.len() == 240,
        head.len() <= 240,
        forall|i: int|
            0 <= i < (before + seq![file] + after).len() ==> (#[trigger] (before + seq![file]
                + after)[i]).path != other,
    ensures
        candidate_entry(before + seq![file] + after, file.path) == (if head.len() > 0 {
            file.path + "\n"@ + "  "@ + head + "\n"@
        } else {
            file.path + "\n"@
        }),
        candidate_entry(before + seq![file] + after, other) == other + "\n"@,
{
    let files = before + seq![file] + after;
    lemma_last_file_counts(before + seq![file], after, file.path);
    assert((before + seq![file]).drop_last() =~= before);
    assert(symbols_at(files, file.path) == Some(file.symbols));
    text::cutting_gives_the_beginning(head, tail, 240);
    if tail.len() == 0 {
        assert(head + tail =~= head);
    }
    if head.len() > 0 {
        assert(candidate_entry(files, file.path) =~= file.path + "\n"@ + "  "@ + head + "\n"@);
    } else {
        assert(candidate_entry(files, file.path) =~= file.path + "\n"@);
    }
    lemma_last_file_counts(Seq::empty(), files, other);
    assert(Seq::<FileView>::empty() + files =~= files);
    assert(candidate_entry(files, other) =~= other + "\n"@);
}

proof fn lemma_last_file_counts(before: Seq<FileView>, after: Seq<FileView>, path: Seq<char>)
    requires
        forall|i: int| 0 <= i < after.len() ==> (#[trigger] after[i]).path != path,
    ensures
        symbols_at(before + after, path) == symbols_at(before, path),
    decreases after.len(),
{
    let all = before + after;
    if after.len() == 0 {
        assert(all =~= before);
    } else {
        let rest = after.drop_last();
        assert forall|i: int| 0 <= i < rest.len() implies (#[trigger] rest[i]).path != path by {
            assert(rest[i] == after[i]);
        }
        assert(all.last() == after[after.len() - 1]);
        assert(all.drop_last() =~= before + rest);
        lemma_last_file_counts(before, rest, path);
    }
}

/// A ranking holds exactly the candidates that the answer names, up to white space around them,
/// however many it names, each once.
pub proof fn rankings_hold_what_the_answer_names(
    files: Seq<Seq<char>>,
    candidates: Seq<Seq<char>>,
)
    ensures
        usable_paths(files, candidates).no_duplicates(),
        forall|path: Seq<char>| #[trigger]
            usable_paths(files, candidates).contains(path) <==> candidates.contains(path)
                && exists|k: int| 0 <= k < files.len() && text::trimmed(#[trigger] files[k])
                == path,
{
    let given = named_paths(files);
    let ranked = usable_paths(files, candidates);
    rankings_hold_only_candidates(files, candidates);
    assert forall|path: Seq<char>| #[trigger] ranked.contains(path) <==> candidates.contains(path)
        && exists|k: int|
        0 <= k < files.len() && text::trimmed(#[trigger] files[k]) == path by {
        if given.contains(path) {
            let k = choose|k: int| 0 <= k < given.len() && given[k] == path;
            assert(text::trimmed(files[k]) == path);
        }
        if exists|k: int| 0 <= k < files.len() && text::trimmed(#[trigger] files[k]) == path {
            let k = choose|k: int| 0 <= k < files.len() && text::trimmed(#[trigger] files[k]) == path;
            assert(given[k] == path);
        }
    }
}

/// Whether `at` is where an answer first names `path`, up to white space around it.
pub open spec fn is_first_named_at(files: Seq<Seq<char>>, path: Seq<char>, at: int) -> bool {
    &&& 0 <= at < files.len()
    &&& text::trimmed(files[at]) == path
    &&& forall|k: int| 0 <= k < at ==> text::trimmed(#[trigger] files[k]) != path
}

/// The paths of a ranking stand in the order in which the answer first names them.
pub proof fn rankings_keep_the_order_of_the_answer(
    files: Seq<Seq<char>>,
    candidates: Seq<Seq<char>>,
    i: int,
    j: int,
)
    requires
        0 <= i < j < usable_paths(files, candidates).len(),
    ensures
        exists|a: int, b: int|
            a < b && #[trigger] is_first_named_at(files, usable_paths(files, candidates)[i], a)
                && #[trigger] is_first_named_at(files, usable_paths(files, candidates)[j], b),
{
    let given = named_paths(files);
    let ranked = usable_paths(files, candidates);
    rankings_hold_only_candidates(files, candidates);
    assert(ranked.contains(ranked[i]) && ranked.contains(ranked[j]));
    let a = lemma_first_occurrence(given, ranked[i]);
    let b = lemma_first_occurrence(given, ranked[j]);
    assert(a < b);
    assert forall|k: int| 0 <= k < a implies text::trimmed(#[trigger] files[k]) != ranked[i] by {
        assert(given[k] != ranked[i]);
    }
    assert forall|k: int| 0 <= k < b implies text::trimmed(#[trigger] files[k]) != ranked[j] by {
        assert(given[k] != ranked[j]);
    }
    assert(is_first_named_at(files, ranked[i], a) && is_first_named_at(files, ranked[j], b));
}

proof fn lemma_first_occurrence(list: Seq<Seq<char>>, item: Seq<char>) -> (at: int)
    requires
        list.contains(item),
    ensures
        lists::occurs_first(list, item, at),
    decreases list.len(),
{
    let rest = list.drop_last();
    if rest.contains(item) {
        let at = lemma_first_occurrence(rest, item);
        assert(list[at] == rest[at]);
        assert forall|k: int| 0 <= k < at implies #[trigger] list[k] != item by {
            assert(list[k] == rest[k]);
        }
        at
    } else {
        let at = list.len() - 1;
        assert forall|k: int| 0 <= k < at implies #[trigger] list[k] != item by {
            assert(rest[k] == list[k]);
            if list[k] == item {
                assert(rest.contains(item));
            }
        }
        let i = choose|i: int| 0 <= i < list.len() && list[i] == item;
        assert(i == at);
        at
    }
}

/// What a ranking leaves open is filled with the other candidates in their order: eight paths of
/// the ranking and then those candidates, or all of them when there are fewer.
pub proof fn the_other_candidates_follow_in_order(
    ranked: Seq<Seq<char>>,
    candidates: Seq<Seq<char>>,
    answer: Seq<Seq<char>>,
    rest: Seq<Seq<char>>,
)
    requires
        ranked.no_duplicates(),
        candidates.no_duplicates(),
        ranked + candidates.filter(|path: Seq<char>| !ranked.contains(path)) == answer + rest,
        rest.len() == 0 || answer.len() == 8,
        answer.len() <= 8,
    ensures
        filled_ranking(ranked, candidates) == answer,
{
    lists::distinct_items_stay(ranked);
    lemma_new_items_follow(ranked, candidates);
    lists::cutting_a_list_gives_its_ends(answer, rest, 8);
    if rest.len() == 0 {
        assert(answer + rest =~= answer);
    }
}

proof fn lemma_new_items_follow(front: Seq<Seq<char>>, back: Seq<Seq<char>>)
    requires
        front.no_duplicates(),
        back.no_duplicates(),
    ensures
        lists::without_repeats(front + back) == front + back.filter(
            |item: Seq<char>| !front.contains(item),
        ),
    decreases back.len(),
{
    reveal(Seq::filter);
    let new = |item: Seq<char>| !front.contains(item);
    lists::distinct_items_stay(front);
    let all = front + back;
    if back.len() == 0 {
        assert(all =~= front);
        assert(front + back.filter(new) =~= front);
    } else {
        let rest = back.drop_last();
        let last = back.last();
        assert forall|i: int, j: int|
            0 <= i < rest.len() && 0 <= j < rest.len() && i != j implies rest[i] != rest[j] by {
            assert(back[i] != back[j]);
        }
        lemma_new_items_follow(front, rest);
        assert(all.drop_last() =~= front + rest);
        assert(!rest.contains(last)) by {
            if rest.contains(last) {
                let i = choose|i: int| 0 <= i < rest.len() && rest[i] == last;
                assert(back[i] != back[back.len() - 1]);
            }
        }
        if front.contains(last) {
            let i = choose|i: int| 0 <= i < front.len() && front[i] == last;
            assert((front + rest)[i] == last);
            assert((front + rest).contains(last));
        } else {
            assert(!(front + rest).contains(last)) by {
                if (front + rest).contains(last) {
                    let i = choose|i: int|
                        0 <= i < (front + rest).len() && (front + rest)[i] == last;
                    if i < front.len() {
                        assert(front[i] == last);
                    } else {
                        assert(rest[i - front.len()] == last);
                    }
                }
            }
            assert((front + rest.filter(new)).push(last) =~= front + rest.filter(new).push(last));
        }
    }
}

/// The endpoint is asked exactly when there are more than eight candidates, it may be asked, and it
/// is not left alone; it is then asked about every candidate. Otherwise the candidates are the
/// answer, or the first eight of them when there are more.
pub proof fn the_endpoint_is_asked_about_many_candidates(
    remote: bool,
    suspended: bool,
    query: Seq<char>,
    segments: Seq<Seq<char>>,
    files: Seq<FileView>,
    answer: Seq<Seq<char>>,
    rest: Seq<Seq<char>>,
)
    requires
        candidate_paths(query, segments, files) == answer + rest,
        rest.len() == 0 || answer.len() == 8,
        answer.len() <= 8,
    ensures
        match next_step(remote, suspended, query, segments, files) {
            StepView::Ask { prompt, candidates } => {
                &&& rest.len() > 0 && remote && !suspended
                &&& candidates == answer + rest
                &&& prompt == ranking_question(query, answer + rest, files)
            },
            StepView::Answer { paths, candidate_count } => {
                &&& rest.len() == 0 || !remote || suspended
                &&& paths == answer
                &&& candidate_count == answer.len() + rest.len()
            },
        },
{
    lists::cutting_a_list_gives_its_ends(answer, rest, 8);
    if rest.len() == 0 {
        assert(answer + rest =~= answer);
    }
}

/// A ranking is what the search is answered with as far as it goes, and the endpoint starts with
/// a clean record. Without a ranking the first candidates are the answer, and the failure counts
/// like any other.
pub proof fn searches_end_with_a_ranking_or_a_failure(
    circuit: CircuitView,
    failure_limit: nat,
    cooldown_ms: nat,
    now_ms: nat,
    ranked: Seq<Seq<char>>,
    candidates: Seq<Seq<char>>,
    i: int,
)
    requires
        ranked.no_duplicates(),
        candidates.no_duplicates(),
        0 <= i < 8,
    ensures
        i < ranked.len() ==> settled_answer(Some(ranked), candidates)[i] == ranked[i],
        i < candidates.len() ==> settled_answer(None, candidates)[i] == candidates[i],
        settled_answer(None, candidates).len() <= candidates.len(),
        !settled_circuit(circuit, true, failure_limit, cooldown_ms, now_ms).is_suspended(now_ms),
        settled_circuit(circuit, true, failure_limit, cooldown_ms, now_ms).failures == 0,
        settled_circuit(circuit, false, failure_limit, cooldown_ms, now_ms)
            == circuit.after_failures(failure_limit, cooldown_ms, seq![now_ms]),
{
    if i < ranked.len() {
        the_ranking_leads_the_answer(ranked, candidates, i);
    }
    without_a_ranking_the_lexical_order_answers(candidates);
    let times = seq![now_ms];
    assert(times.drop_last() =~= Seq::empty());
    assert(circuit.after_failures(failure_limit, cooldown_ms, times.drop_last()) == circuit);
}

/// Files and segments are seen as they are: each file with its path and its symbols, and every
/// segment that is given.
pub proof fn files_and_segments_are_seen_whole(
    files: Seq<FileSymbols>,
    segments: Option<&[String]>,
    i: int,
)
    ensures
        file_views(files).len() == files.len(),
        0 <= i < files.len() ==> file_views(files)[i].path == files[i].path@
            && file_views(files)[i].symbols == files[i].symbols@,
        match segments {
            Some(list) => segment_texts(segments).len() == list@.len() && (0 <= i < list@.len()
                ==> segment_texts(segments)[i] == list@[i]@),
            None => segment_texts(segments).len() == 0,
        },
{
}

/// The task tells the model as many paths as are returned, and its answer is budgeted.
pub proof fn the_task_names_the_limit()
    ensures
        text::contains_text(
            SYSTEM_PROMPT@,
            "At most "@ + text::integer_text(MAX_RESULTS as int) + " paths"@,
        ),
        MAX_TOKENS == 200,
{
    reveal_strlit("At most ");
    reveal_strlit(" paths");
    reveal_strlit("You pick which files a coding agent should read to answer a question about a repository.\nReply with one JSON object and nothing else:\n{\"files\": [\"<path>\", ...]}\nRules:\n- Use only paths from the candidate list, most relevant first.\n- Prefer files that define or implement what the question asks about.\n- At most 8 paths; fewer is fine when only a few are relevant.\n- No explanations, no markdown, no extra keys.");
    reveal_with_fuel(text::decimal_digits, 2);
    let named = "At most "@ + text::integer_text(MAX_RESULTS as int) + " paths"@;
    assert(text::integer_text(8) =~= seq!['8']);
    assert(SYSTEM_PROMPT@.subrange(303, 318) =~= named);
    assert(text::stands_at(SYSTEM_PROMPT@, named, 303));
}

/// A ranking that is given is the usable paths of the answer, one for one, and it is withheld only
/// where there are none.
pub proof fn rankings_are_given_whole(
    ranking: Option<Vec<String>>,
    files: Seq<Seq<char>>,
    candidates: Seq<Seq<char>>,
    i: int,
)
    requires
        ranks_by(ranking, files, candidates),
    ensures
        match ranking {
            Some(ranked) => {
                &&& ranked@.len() > 0
                &&& ranked@.len() == usable_paths(files, candidates).len()
                &&& 0 <= i < ranked@.len() ==> ranked@[i]@ == usable_paths(files, candidates)[i]
            },
            None => forall|k: int|
                0 <= k < files.len() ==> !candidates.contains(text::trimmed(#[trigger] files[k])),
        },
{
    match ranking {
        Some(ranked) => {
            lists::every_item_has_its_text(ranked@, 0);
            if 0 <= i < ranked@.len() {
                lists::every_item_has_its_text(ranked@, i);
            }
        },
        None => {
            rankings_hold_what_the_answer_names(files, candidates);
            assert forall|k: int| 0 <= k < files.len() implies !candidates.contains(
                text::trimmed(#[trigger] files[k]),
            ) by {
                let path = text::trimmed(files[k]);
                if candidates.contains(path) {
                    assert(usable_paths(files, candidates).contains(path));
                }
            }
        },
    }
}

/// A step is seen as it is: the answer's paths and the count, or the prompt and the candidates.
pub proof fn steps_are_seen_whole(step: RankingStep)
    ensures
        match step {
            RankingStep::Answer { paths, candidate_count } => step@ == (StepView::Answer {
                paths: lists::texts(paths@),
                candidate_count: candidate_count as nat,
            }),
            RankingStep::Ask { prompt, candidates } => step@ == (StepView::Ask {
                prompt: prompt@,
                candidates: lists::texts(candidates@),
            }),
        },
{
}

} // verus!
