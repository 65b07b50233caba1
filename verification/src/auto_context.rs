//! Files attached to a user query automatically, ranked locally.
//!
//! This is the cheap half of local retrieval: no model call and no server round trip, so it can
//! run on the submit path without adding latency.

use crate::lists;
use crate::local_search;
use crate::local_search::FileSymbols;
use crate::text;
use vstd::prelude::*;

verus! {

/// How many files are attached per query.
pub const MAX_FILES: usize = 3;

/// The size budget for each file's contents.
pub const MAX_FILE_CHARS: usize = 6_000;

/// The paths to attach for a query: the first few candidates.
pub open spec fn selected_paths(
    query: Seq<char>,
    files: Seq<local_search::FileView>,
) -> Seq<Seq<char>> {
    lists::first_items(
        local_search::candidate_paths(query, Seq::empty(), files),
        MAX_FILES as int,
    )
}

/// The repository-relative paths to attach, most relevant first.
pub fn select_files(query: &str, files: &[FileSymbols]) -> (paths: Vec<String>)
    ensures
        lists::texts(paths@) == selected_paths(query@, local_search::file_views(files@)),
{
    lists::first_of(local_search::rank_candidates(query, None, files), MAX_FILES)
}

/// The paths whose files are read for a query: none when the feature is off, or when no outline
/// is ready.
pub open spec fn paths_to_read(
    feature_enabled: bool,
    query: Seq<char>,
    outline: Option<Seq<local_search::FileView>>,
) -> Seq<Seq<char>> {
    match outline {
        Some(files) => if feature_enabled {
            selected_paths(query, files)
        } else {
            Seq::empty()
        },
        None => Seq::empty(),
    }
}

/// The paths whose files are read for a query: none when the feature is off, or when there is no
/// working directory with a complete outline.
pub fn files_to_read(
    feature_enabled: bool,
    query: &str,
    outline: Option<&[FileSymbols]>,
) -> (paths: Vec<String>)
    ensures
        lists::texts(paths@) == paths_to_read(
            feature_enabled,
            query@,
            match outline {
                Some(files) => Some(local_search::file_views(files@)),
                None => None,
            },
        ),
{
    let none: Vec<String> = Vec::new();
    assert(lists::texts(none@) =~= Seq::empty());
    if !feature_enabled {
        return none;
    }
    match outline {
        Some(files) => select_files(query, files),
        None => none,
    }
}

/// How many bytes are read of a file of which `max_chars` characters are wanted.
pub fn read_limit(max_chars: usize) -> (bytes: u64)
    requires
        max_chars * 4 <= u64::MAX,
    ensures
        bytes == max_chars * 4,
{
    max_chars as u64 * 4
}

/// `String::from_utf8`: the text that the bytes encode, when they are valid UTF-8.
#[verifier::external_body]
fn decoded(bytes: Vec<u8>) -> (content: Option<String>)
    ensures
        match content {
            Some(content) => vstd::utf8::valid_utf8(bytes@) && content@ == vstd::utf8::decode_utf8(
                bytes@,
            ),
            None => !vstd::utf8::valid_utf8(bytes@),
        },
{
    String::from_utf8(bytes).ok()
}

/// The first characters of what the bytes encode, when they are valid UTF-8.
pub open spec fn capped_text(bytes: Seq<u8>, max_chars: int) -> Option<Seq<char>> {
    if vstd::utf8::valid_utf8(bytes) {
        Some(text::first_chars(vstd::utf8::decode_utf8(bytes), max_chars))
    } else {
        None
    }
}

/// At most `max_chars` characters of what was read, so a large file cannot blow the request
/// budget; none when it is not text.
pub fn read_capped(bytes: Vec<u8>, max_chars: usize) -> (content: Option<String>)
    ensures
        match content {
            Some(content) => capped_text(bytes@, max_chars as int) == Some(content@),
            None => capped_text(bytes@, max_chars as int) is None,
        },
{
    match decoded(bytes) {
        Some(content) => Some(text::truncate(content.as_str(), max_chars).to_owned()),
        None => None,
    }
}

/// A file that is attached to a query.
#[derive(Debug)]
pub struct AttachedFile {
    pub file_name: String,
    pub content: String,
}

/// What is attached of the bytes read of a file: nothing when they are not text, or only blank.
pub open spec fn attached_content(bytes: Seq<u8>) -> Option<Seq<char>> {
    match capped_text(bytes, MAX_FILE_CHARS as int) {
        Some(content) => if text::trimmed(content).len() > 0 {
            Some(content)
        } else {
            None
        },
        None => None,
    }
}

/// The file to attach, from what was read at its path; `None` when it could not be read, is not
/// text, or is blank.
pub fn file_context(relative_path: &str, bytes: Option<Vec<u8>>) -> (file: Option<AttachedFile>)
    ensures
        match file {
            Some(file) => bytes is Some && attached_content(bytes->0@) == Some(file.content@)
                && file.file_name@ == relative_path@,
            None => bytes is None || attached_content(bytes->0@) is None,
        },
{
    let bytes = match bytes {
        Some(bytes) => bytes,
        None => {
            return None;
        },
    };
    match read_capped(bytes, MAX_FILE_CHARS) {
        Some(content) => {
            if text::trim(content.as_str()).is_empty() {
                None
            } else {
                Some(AttachedFile { file_name: relative_path.to_owned(), content })
            }
        },
        None => None,
    }
}

/// What an [`AttachedFile`] says.
pub struct AttachedView {
    pub file_name: Seq<char>,
    pub content: Seq<char>,
}

impl AttachedFile {
    pub open spec fn view(&self) -> AttachedView {
        AttachedView { file_name: self.file_name@, content: self.content@ }
    }
}

/// What was read at a path: its bytes, where it could be read.
pub struct ReadView {
    pub path: Seq<char>,
    pub bytes: Option<Seq<u8>>,
}

impl ReadView {
    /// What is attached of the file, if anything.
    pub open spec fn attached(self) -> Option<AttachedView> {
        match self.bytes {
            Some(bytes) => match attached_content(bytes) {
                Some(content) => Some(AttachedView { file_name: self.path, content }),
                None => None,
            },
            None => None,
        }
    }
}

/// What was read at each path.
pub open spec fn read_views(files: Seq<(String, Option<Vec<u8>>)>) -> Seq<ReadView> {
    files.map_values(
        |file: (String, Option<Vec<u8>>)|
            ReadView {
                path: file.0@,
                bytes: match file.1 {
                    Some(bytes) => Some(bytes@),
                    None => None,
                },
            },
    )
}

/// The files that are attached of those that were read, in their order: a file of which nothing
/// is attached is left out.
pub open spec fn attachments(files: Seq<ReadView>) -> Seq<AttachedView> {
    files.filter(|file: ReadView| file.attached() is Some).map_values(
        |file: ReadView| file.attached()->0,
    )
}

/// The files to attach, from what was read at each of the selected paths, in their order.
pub fn attached_files(files: Vec<(String, Option<Vec<u8>>)>) -> (attached: Vec<AttachedFile>)
    ensures
        attached@.map_values(|file: AttachedFile| file@) == attachments(read_views(files@)),
{
    let ghost views = read_views(files@);
    let ghost shown = |file: AttachedFile| file@;
    let ghost stays = |file: ReadView| file.attached() is Some;
    let ghost content = |file: ReadView| file.attached()->0;
    let mut attached: Vec<AttachedFile> = Vec::new();
    proof {
        reveal(Seq::filter);
        assert(attached@.map_values(shown) =~= views.take(0).filter(stays).map_values(content));
    }
    for file in it: files
        invariant
            it.seq() == files@,
            views == read_views(files@),
            shown == (|file: AttachedFile| file@),
            stays == (|file: ReadView| file.attached() is Some),
            content == (|file: ReadView| file.attached()->0),
            attached@.map_values(shown) == views.take(it.index() as int).filter(stays).map_values(
                content,
            ),
    {
        let ghost at = it.index() as int;
        let ghost before = attached@.map_values(shown);
        let ghost kept = views.take(at).filter(stays);
        proof {
            assert(views.take(at + 1) =~= views.take(at).push(views[at]));
            views.take(at).lemma_filter_push(views[at], stays);
        }
        let (path, bytes) = file;
        match file_context(path.as_str(), bytes) {
            Some(file) => {
                proof {
                    assert(views[at].attached() == Some(file@));
                    assert(kept.push(views[at]).map_values(content) =~= before.push(file@));
                }
                attached.push(file);
                assert(attached@.map_values(shown) =~= before.push(attached@.last()@));
            },
            None => {
                assert(views[at].attached() is None);
            },
        }
    }
    assert(views.take(views.len() as int) =~= views);
    attached
}

/// The files attached to a query, given what is read at each path: `content` says which bytes.
pub open spec fn query_attachments(
    feature_enabled: bool,
    query: Seq<char>,
    outline: Option<Seq<local_search::FileView>>,
    content: spec_fn(Seq<char>) -> Option<Seq<u8>>,
) -> Seq<AttachedView> {
    attachments(
        paths_to_read(feature_enabled, query, outline).map_values(
            |path: Seq<char>| ReadView { path, bytes: content(path) },
        ),
    )
}

/// Nothing is attached when the feature is off or no outline is ready. Otherwise one file is
/// attached for each selected path at which there is text that is not blank, in the order of the
/// selection: never more than are attached per query, and a path that is left out is not
/// replaced by a later candidate.
pub proof fn the_selection_is_attached(
    feature_enabled: bool,
    query: Seq<char>,
    outline: Option<Seq<local_search::FileView>>,
    content: spec_fn(Seq<char>) -> Option<Seq<u8>>,
)
    ensures
        !feature_enabled || outline is None ==> query_attachments(
            feature_enabled,
            query,
            outline,
            content,
        ).len() == 0,
        query_attachments(feature_enabled, query, outline, content).len() <= MAX_FILES,
        feature_enabled && outline is Some ==> query_attachments(
            feature_enabled,
            query,
            outline,
            content,
        ) == selected_paths(query, outline->0).filter(
            |path: Seq<char>| content(path) is Some && attached_content(content(path)->0) is Some,
        ).map_values(
            |path: Seq<char>|
                AttachedView {
                    file_name: path,
                    content: attached_content(content(path)->0)->0,
                },
        ),
{
    let paths = paths_to_read(feature_enabled, query, outline);
    lemma_attachments_of_paths(paths, content);
}

proof fn lemma_attachments_of_paths(
    paths: Seq<Seq<char>>,
    content: spec_fn(Seq<char>) -> Option<Seq<u8>>,
)
    ensures
        attachments(
            paths.map_values(|path: Seq<char>| ReadView { path, bytes: content(path) }),
        ) == paths.filter(
            |path: Seq<char>| content(path) is Some && attached_content(content(path)->0) is Some,
        ).map_values(
            |path: Seq<char>|
                AttachedView {
                    file_name: path,
                    content: attached_content(content(path)->0)->0,
                },
        ),
        attachments(
            paths.map_values(|path: Seq<char>| ReadView { path, bytes: content(path) }),
        ).len() <= paths.len(),
    decreases paths.len(),
{
    let read = |path: Seq<char>| ReadView { path, bytes: content(path) };
    let has_text = |path: Seq<char>|
        content(path) is Some && attached_content(content(path)->0) is Some;
    let shown = |path: Seq<char>|
        AttachedView { file_name: path, content: attached_content(content(path)->0)->0 };
    let stays = |file: ReadView| file.attached() is Some;
    let given = |file: ReadView| file.attached()->0;
    let files = paths.map_values(read);
    reveal(Seq::filter);
    if paths.len() == 0 {
        assert(attachments(files) =~= paths.filter(has_text).map_values(shown));
    } else {
        let rest = paths.drop_last();
        let path = paths.last();
        lemma_attachments_of_paths(rest, content);
        assert(files.drop_last() =~= rest.map_values(read));
        assert(files.last() == read(path));
        let kept = files.drop_last().filter(stays);
        let named = rest.filter(has_text);
        if has_text(path) {
            assert(kept.push(read(path)).map_values(given) =~= kept.map_values(given).push(
                shown(path),
            ));
            assert(named.push(path).map_values(shown) =~= named.map_values(shown).push(
                shown(path),
            ));
        }
    }
}

/// Never more files are selected than are attached per query, and each of them is the path of a
/// file.
pub proof fn selections_are_bounded(
    query: Seq<char>,
    files: Seq<local_search::FileView>,
    i: int,
)
    requires
        0 <= i < selected_paths(query, files).len(),
    ensures
        selected_paths(query, files).len() <= MAX_FILES,
        local_search::is_path_that_matches(
            query,
            Seq::empty(),
            files,
            selected_paths(query, files)[i],
        ),
{
    local_search::candidates_are_files_that_match(query, Seq::empty(), files, i);
}

/// Attached content is never blank and never over the size budget.
pub proof fn attachments_stay_within_the_budget(bytes: Seq<u8>)
    ensures
        match attached_content(bytes) {
            Some(content) => content.len() <= MAX_FILE_CHARS && !text::is_blank_text(content),
            None => true,
        },
{
    if let Some(content) = attached_content(bytes) {
        text::trimming_empties_blank_text(content);
    }
}

/// A character takes at most four bytes.
proof fn lemma_four_bytes_per_char(bytes: Seq<u8>)
    requires
        vstd::utf8::valid_utf8(bytes),
    ensures
        vstd::utf8::decode_utf8(bytes).len() * 4 >= bytes.len(),
    decreases bytes.len(),
{
    if bytes.len() > 0 {
        lemma_four_bytes_per_char(vstd::utf8::pop_first_scalar(bytes));
    }
}

/// Bytes that go on after valid text decode to that text and more.
proof fn lemma_decoding_goes_on(front: Seq<u8>, back: Seq<u8>)
    requires
        vstd::utf8::valid_utf8(front),
        vstd::utf8::valid_utf8(front + back),
    ensures
        vstd::utf8::decode_utf8(front).is_prefix_of(vstd::utf8::decode_utf8(front + back)),
    decreases front.len(),
{
    let all = front + back;
    if front.len() > 0 {
        let width = vstd::utf8::length_of_first_scalar(front);
        assert(all[0] == front[0]);
        assert(vstd::utf8::length_of_first_scalar(all) == width);
        assert(forall|i: int| 0 <= i < width ==> #[trigger] all[i] == front[i]);
        assert(vstd::utf8::decode_first_scalar(all) == vstd::utf8::decode_first_scalar(front));
        let rest = vstd::utf8::pop_first_scalar(front);
        assert(vstd::utf8::pop_first_scalar(all) =~= rest + back);
        lemma_decoding_goes_on(rest, back);
    }
}

/// Reading four bytes per wanted character is enough: what is kept of a text file is its
/// beginning, whether or not there is more of the file than was read.
pub proof fn what_is_kept_is_the_beginning(file: Seq<u8>, max_chars: nat)
    requires
        vstd::utf8::valid_utf8(file),
    ensures
        match capped_text(lists::first_items(file, (max_chars * 4) as int), max_chars as int) {
            Some(content) => content == text::first_chars(
                vstd::utf8::decode_utf8(file),
                max_chars as int,
            ),
            None => file.len() > max_chars * 4,
        },
{
    let read = lists::first_items(file, (max_chars * 4) as int);
    if vstd::utf8::valid_utf8(read) && file.len() > max_chars * 4 {
        let rest = file.skip((max_chars * 4) as int);
        assert(file =~= read + rest);
        lemma_decoding_goes_on(read, rest);
        lemma_four_bytes_per_char(read);
        assert(text::first_chars(vstd::utf8::decode_utf8(read), max_chars as int)
            =~= text::first_chars(vstd::utf8::decode_utf8(file), max_chars as int));
    }
}

/// The first three candidates are selected, or all of them when there are fewer.
pub proof fn the_first_candidates_are_selected(
    query: Seq<char>,
    files: Seq<local_search::FileView>,
    front: Seq<Seq<char>>,
    back: Seq<Seq<char>>,
)
    requires
        local_search::candidate_paths(query, Seq::empty(), files) == front + back,
        back.len() == 0 || front.len() == 3,
        front.len() <= 3,
    ensures
        selected_paths(query, files) == front,
        paths_to_read(true, query, Some(files)) == front,
        paths_to_read(false, query, Some(files)).len() == 0,
        paths_to_read(true, query, None).len() == 0,
{
    lists::cutting_a_list_gives_its_ends(front, back, 3);
    if back.len() == 0 {
        assert(front + back =~= front);
    }
}

/// Of bytes that encode text as many characters are kept as are wanted, or all of them when there
/// are fewer; of other bytes nothing is.
pub proof fn wanted_characters_are_kept(
    bytes: Seq<u8>,
    max_chars: nat,
    head: Seq<char>,
    tail: Seq<char>,
)
    requires
        vstd::utf8::decode_utf8(bytes) == head + tail,
        tail.len() == 0 || head.len() == max_chars,
        head.len() <= max_chars,
    ensures
        vstd::utf8::valid_utf8(bytes) ==> capped_text(bytes, max_chars as int) == Some(head),
        !vstd::utf8::valid_utf8(bytes) ==> capped_text(bytes, max_chars as int) is None,
        max_chars == 6_000 ==> attached_content(bytes) == (if vstd::utf8::valid_utf8(bytes)
            && !text::is_blank_text(head) {
            Some(head)
        } else {
            None
        }),
{
    text::cutting_gives_the_beginning(head, tail, max_chars as int);
    text::trimming_empties_blank_text(head);
    if tail.len() == 0 {
        assert(head + tail =~= head);
    }
}

/// What was read is seen as it was read: each path with its bytes.
pub proof fn files_are_seen_as_read(files: Seq<(String, Option<Vec<u8>>)>, i: int)
    requires
        0 <= i < files.len(),
    ensures
        read_views(files).len() == files.len(),
        read_views(files)[i].path == files[i].0@,
        match files[i].1 {
            Some(bytes) => read_views(files)[i].bytes == Some(bytes@),
            None => read_views(files)[i].bytes is None,
        },
{
}

/// Files are attached one by one: what two lists of files come to is what the first comes to and
/// then what the second comes to. A file is attached under its path, with its text, unless it
/// could not be read or its text is blank.
pub proof fn files_are_attached_one_by_one(
    front: Seq<ReadView>,
    file: ReadView,
    back: Seq<ReadView>,
)
    ensures
        attachments(front + seq![file] + back) == attachments(front) + (match file.bytes {
            Some(bytes) => match attached_content(bytes) {
                Some(content) => seq![AttachedView { file_name: file.path, content }],
                None => Seq::empty(),
            },
            None => Seq::empty(),
        }) + attachments(back),
        attachments(Seq::empty()).len() == 0,
{
    reveal(Seq::filter);
    let one = seq![file];
    let stays = |file: ReadView| file.attached() is Some;
    let given = |file: ReadView| file.attached()->0;
    lemma_attachments_go_on(front, one);
    lemma_attachments_go_on(front + one, back);
    assert(one.drop_last() =~= Seq::empty());
    assert(one.drop_last().filter(stays) =~= Seq::empty());
    if stays(file) {
        assert(one.filter(stays) =~= one);
        assert(one.map_values(given) =~= seq![given(file)]);
    } else {
        assert(one.filter(stays) =~= Seq::empty());
        assert(attachments(one) =~= Seq::empty());
    }
}

proof fn lemma_attachments_go_on(front: Seq<ReadView>, back: Seq<ReadView>)
    ensures
        attachments(front + back) == attachments(front) + attachments(back),
    decreases back.len(),
{
    reveal(Seq::filter);
    let stays = |file: ReadView| file.attached() is Some;
    let given = |file: ReadView| file.attached()->0;
    let all = front + back;
    if back.len() == 0 {
        assert(all =~= front);
        assert(attachments(back) =~= Seq::empty());
        assert(attachments(front) + attachments(back) =~= attachments(front));
    } else {
        let rest = back.drop_last();
        let last = back.last();
        lemma_attachments_go_on(front, rest);
        assert(all.drop_last() =~= front + rest);
        assert(all.last() == last);
        if stays(last) {
            assert((front + rest).filter(stays).push(last).map_values(given) =~= (front
                + rest).filter(stays).map_values(given).push(given(last)));
            assert(rest.filter(stays).push(last).map_values(given) =~= rest.filter(
                stays,
            ).map_values(given).push(given(last)));
            assert(attachments(all) =~= attachments(front) + attachments(back));
        }
    }
}

/// An attached file is seen as it is.
pub proof fn attached_files_are_seen_whole(file: AttachedFile)
    ensures
        file@.file_name == file.file_name@,
        file@.content == file.content@,
{
}

} // verus!
