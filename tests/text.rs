use terraphim_pipeline::text::split_paragraphs;

#[test]
fn it_works() {
    let paragraph = "This is the first sentence.\n\n This is the second sentence. This is the second sentence? This is the second sentence| This is the second sentence!\n\nThis is the third sentence. Mr. John Johnson Jr. was born in the U.S.A but earned his Ph.D. in Israel before joining Nike Inc. as an engineer. He also worked at craigslist.org as a business analyst.";
    for sentence in split_paragraphs(paragraph) {
        println!("{}", sentence);
    }
}

#[test]
fn splits_after_terminators_followed_by_space() {
    let parts = split_paragraphs("This is the second sentence? This is the third| And the fourth");
    assert_eq!(parts, vec!["This is the second sentence?", "This is the third", "And the fourth"]);
}

#[test]
fn terminator_without_space_does_not_split() {
    assert_eq!(split_paragraphs("x|y"), vec!["x|y"]);
    assert_eq!(split_paragraphs("one| two"), vec!["one", "two"]);
    assert_eq!(split_paragraphs("a|  |  b"), vec!["a", "b"]);
}

#[test]
fn sentences_are_trimmed_and_never_empty() {
    assert_eq!(split_paragraphs("Hello there. How are you?"), vec!["Hello there.", "How are you?"]);
    assert!(split_paragraphs("").is_empty());
    assert!(split_paragraphs("   \n\n  ").is_empty());
    for s in split_paragraphs("One.\n\n Two! Three | four") {
        assert!(!s.is_empty());
        assert_eq!(s, s.trim());
    }
}
