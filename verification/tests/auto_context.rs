use byo_inference::auto_context::{
    attached_files, file_context, files_to_read, read_capped, read_limit, select_files, MAX_FILES, MAX_FILE_CHARS,
};
use byo_inference::local_search::FileSymbols;

fn file(path: &str, symbols: &str) -> FileSymbols {
    FileSymbols {
        path: path.to_owned(),
        symbols: symbols.to_owned(),
    }
}

#[test]
fn select_files_returns_the_most_relevant_paths_up_to_the_limit() {
    let files = vec![
        file("src/ui/button.rs", "struct Button"),
        file("src/auth/token.rs", "fn refresh_token"),
        file("src/auth/session.rs", "fn refresh_session"),
        file("src/auth/store.rs", "fn refresh_store"),
        file("docs/readme.md", "intro"),
    ];

    let selected = select_files("where is refresh_token used", &files);

    assert_eq!(
        selected,
        vec![
            "src/auth/token.rs".to_owned(),
            "src/auth/session.rs".to_owned(),
            "src/auth/store.rs".to_owned(),
        ]
    );
}

#[test]
fn select_files_returns_nothing_when_no_file_matches_and_none_are_richer() {
    let files = vec![file("a.rs", ""), file("b.rs", "")];

    let selected = select_files("zzz", &files);

    assert!(
        selected.len() <= MAX_FILES,
        "still bounded by the attachment budget: {selected:?}"
    );
}

#[test]
fn nothing_is_read_when_the_feature_is_off_or_no_outline_is_ready() {
    let files = vec![file("a.rs", "fn a")];
    assert_eq!(files_to_read(true, "a", Some(&files)), vec!["a.rs"]);
    assert_eq!(files_to_read(false, "a", Some(&files)), Vec::<String>::new());
    assert_eq!(files_to_read(true, "a", None), Vec::<String>::new());
}

#[test]
fn four_bytes_are_read_per_character() {
    assert_eq!(read_limit(MAX_FILE_CHARS), 24_000);
    assert_eq!(read_limit(0), 0);
}

#[test]
fn what_was_read_is_cut_to_characters() {
    let bytes = |text: &str| text.as_bytes().to_vec();
    assert_eq!(read_capped(bytes("añb"), 2).as_deref(), Some("añ"));
    assert_eq!(read_capped(bytes("añb"), 3).as_deref(), Some("añb"));
    assert_eq!(read_capped(bytes("añb"), 9).as_deref(), Some("añb"));
    assert_eq!(read_capped(bytes("añb"), 0).as_deref(), Some(""));
    assert_eq!(read_capped(vec![], 5).as_deref(), Some(""));
    assert_eq!(read_capped(vec![0x61, 0xff], 5), None);
}

#[test]
fn four_bytes_per_character_are_enough() {
    let text = "🦀é".repeat(10);
    for wanted in 0..12 {
        let limit = (read_limit(wanted) as usize).min(text.len());
        let kept = read_capped(text.as_bytes()[..limit].to_vec(), wanted);
        let expected: String = text.chars().take(wanted).collect();
        assert!(
            kept.is_none() || kept == Some(expected),
            "what is kept is the beginning"
        );
    }
}

#[test]
fn readable_files_are_attached() {
    let attached = file_context("src/a.rs", Some(b"fn a() {}\n".to_vec())).expect("attached");
    assert_eq!(attached.file_name, "src/a.rs");
    assert_eq!(attached.content, "fn a() {}\n");

    assert!(file_context("gone.rs", None).is_none());
    assert!(file_context("blank.rs", Some(b" \n\t".to_vec())).is_none());
    assert!(file_context("binary", Some(vec![0xc3, 0x28])).is_none());
}

#[test]
fn attachments_stay_within_their_budget() {
    let long = "é".repeat(MAX_FILE_CHARS + 1);
    let attached = file_context("long.txt", Some(long.into_bytes())).expect("attached");
    assert_eq!(attached.content, "é".repeat(MAX_FILE_CHARS));

    let mut late = " ".repeat(MAX_FILE_CHARS);
    late.push_str("text after the budget");
    assert!(file_context("late.txt", Some(late.into_bytes())).is_none());
}

#[test]
fn the_selection_is_attached_in_order() {
    let files = vec![
        file("one.rs", "fn go"),
        file("two.rs", "fn go"),
        file("zero.rs", "fn go"),
        file("zone.rs", "fn go"),
    ];
    let selected = files_to_read(true, "go", Some(&files));
    assert_eq!(selected, vec!["one.rs", "two.rs", "zero.rs"]);

    let read = selected
        .into_iter()
        .map(|path| {
            let bytes = match path.as_str() {
                "two.rs" => Some(b"  ".to_vec()),
                _ => Some(format!("// {path}").into_bytes()),
            };
            (path, bytes)
        })
        .collect();
    let attached: Vec<(String, String)> = attached_files(read)
        .into_iter()
        .map(|file| (file.file_name, file.content))
        .collect();
    assert_eq!(
        attached,
        vec![
            ("one.rs".to_owned(), "// one.rs".to_owned()),
            ("zero.rs".to_owned(), "// zero.rs".to_owned()),
        ],
        "a file that is left out is not replaced"
    );
    assert!(attached_files(vec![("gone.rs".to_owned(), None)]).is_empty());
}
