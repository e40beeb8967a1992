use criterion_report::path::DirectoryName;
use criterion_report::report::{
    make_filename_safe, BenchmarkId, Throughput, ValueType, MAX_DIRECTORY_NAME_LEN,
};

#[test]
fn test_make_filename_safe_replaces_characters() {
    let input = "?/\\*\"";
    let safe = make_filename_safe(input);
    assert_eq!("_____", &safe);
}

#[test]
fn test_make_filename_safe_truncates_long_strings() {
    let input = "this is a very long string. it is too long to be safe as a directory name, and so it needs to be truncated. what a long string this is.";
    let safe = make_filename_safe(input);
    assert!(input.len() > MAX_DIRECTORY_NAME_LEN);
    assert_eq!(&input[0..MAX_DIRECTORY_NAME_LEN], &safe);
}

#[test]
fn test_make_filename_safe_respects_character_boundaries() {
    let input = "✓✓✓✓✓✓✓✓✓✓✓✓✓✓✓✓✓✓✓✓✓✓✓✓✓✓✓✓✓✓✓✓✓✓";
    let safe = make_filename_safe(input);
    assert!(safe.len() < MAX_DIRECTORY_NAME_LEN);
}

#[test]
fn test_benchmark_id_make_directory_name_unique() {
    let existing_id = BenchmarkId::new(
        "group".to_owned(),
        Some("function".to_owned()),
        Some("value".to_owned()),
        None,
    );
    let mut directories: Vec<DirectoryName> = Vec::new();
    directories.push(existing_id.as_directory_name().clone());

    let mut new_id = existing_id.clone();
    new_id.ensure_directory_name_unique(&directories);
    assert_eq!(
        "group/function/value_2",
        new_id.as_directory_name().to_path_string()
    );
    directories.push(new_id.as_directory_name().clone());

    new_id = existing_id.clone();
    new_id.ensure_directory_name_unique(&directories);
    assert_eq!(
        "group/function/value_3",
        new_id.as_directory_name().to_path_string()
    );
    directories.push(new_id.as_directory_name().clone());
}

#[test]
fn test_benchmark_id_make_long_directory_name_unique() {
    let long_name = (0..MAX_DIRECTORY_NAME_LEN).map(|_| 'a').collect::<String>();
    let existing_id = BenchmarkId::new(long_name, None, None, None);
    let mut directories: Vec<DirectoryName> = Vec::new();
    directories.push(existing_id.as_directory_name().clone());

    let mut new_id = existing_id.clone();
    new_id.ensure_directory_name_unique(&directories);
    assert_ne!(existing_id.as_directory_name(), new_id.as_directory_name());
}

#[test]
fn filename_safe_keeps_safe_names_and_replaces_each_unsafe_character() {
    assert_eq!(make_filename_safe("plain name-1.2"), "plain name-1.2");
    assert_eq!(make_filename_safe("a<b>c:d|e^f"), "a_b_c_d_e_f");
    assert_eq!(make_filename_safe(""), "");
}

#[test]
fn filename_safe_twice_is_filename_safe_once() {
    let inputs = [
        "a/b",
        "✓✓✓✓✓✓✓✓✓✓✓✓✓✓✓✓✓✓✓✓✓✓✓✓✓✓✓✓✓✓✓✓✓✓",
        "this is a very long string. it is too long to be safe as a directory name, and so on",
    ];
    for input in inputs.iter() {
        let once = make_filename_safe(input);
        assert_eq!(make_filename_safe(&once), once);
    }
}

#[test]
fn filename_safe_cuts_at_a_character_boundary() {
    // 21 three-byte characters and one more: 66 bytes, cut to 63.
    let input = "✓".repeat(22);
    let safe = make_filename_safe(&input);
    assert_eq!(safe, "✓".repeat(21));
}

#[test]
fn title_is_the_full_id_when_short() {
    let id = BenchmarkId::new(
        "group".to_owned(),
        Some("function".to_owned()),
        Some("value".to_owned()),
        None,
    );
    assert_eq!(id.as_title(), "group/function/value");
    let id = BenchmarkId::new("group".to_owned(), None, Some("7".to_owned()), None);
    assert_eq!(id.as_title(), "group/7");
    let id = BenchmarkId::new("group".to_owned(), Some("f".to_owned()), None, None);
    assert_eq!(id.as_title(), "group/f");
    let id = BenchmarkId::new("group".to_owned(), None, None, None);
    assert_eq!(id.as_title(), "group");
}

#[test]
fn long_title_is_cut_and_marked() {
    let group = "g".repeat(120);
    let id = BenchmarkId::new(group.clone(), None, None, None);
    let mut expected = "g".repeat(100);
    expected.push_str("...");
    assert_eq!(id.as_title(), expected);
    let exact = BenchmarkId::new("h".repeat(100), None, None, None);
    assert_eq!(exact.as_title(), "h".repeat(100));
}

#[test]
fn directory_is_made_of_safe_parts() {
    let id = BenchmarkId::new(
        "my/group".to_owned(),
        Some("fn:1".to_owned()),
        Some("a*b".to_owned()),
        None,
    );
    assert_eq!(id.as_directory_name().to_path_string(), "my_group/fn_1/a_b");
    assert_eq!(id.as_title(), "my/group/fn:1/a*b");
}

#[test]
fn title_unique_appends_the_first_free_number() {
    let existing_id = BenchmarkId::new("group".to_owned(), Some("f".to_owned()), None, None);
    let mut titles: Vec<String> = vec!["other".to_owned()];
    let mut id = existing_id.clone();
    id.ensure_title_unique(&titles);
    assert_eq!(id.as_title(), "group/f");

    titles.push("group/f".to_owned());
    titles.push("group/f #2".to_owned());
    let mut id = existing_id.clone();
    id.ensure_title_unique(&titles);
    assert_eq!(id.as_title(), "group/f #3");
    titles.push(id.as_title().to_owned());
    let mut again = id.clone();
    again.ensure_title_unique(&titles);
    assert_eq!(again.as_title(), "group/f #3 #2");
}

#[test]
fn free_directory_is_kept() {
    let id = BenchmarkId::new("group".to_owned(), Some("f".to_owned()), None, None);
    let mut new_id = id.clone();
    new_id.ensure_directory_name_unique(&[]);
    assert_eq!(new_id.as_directory_name(), id.as_directory_name());
    assert_eq!(new_id.as_directory_name().to_path_string(), "group/f");
}

#[test]
fn value_type_follows_throughput_then_value() {
    let bytes = BenchmarkId::new("g".to_owned(), None, Some("x".to_owned()), Some(Throughput::Bytes(3)));
    assert_eq!(bytes.value_type(), Some(ValueType::Bytes));
    let decimal = BenchmarkId::new("g".to_owned(), None, None, Some(Throughput::BytesDecimal(3)));
    assert_eq!(decimal.value_type(), Some(ValueType::Bytes));
    let elements = BenchmarkId::new("g".to_owned(), None, None, Some(Throughput::Elements(3)));
    assert_eq!(elements.value_type(), Some(ValueType::Elements));
    let number = BenchmarkId::new("g".to_owned(), None, Some("1.5e3".to_owned()), None);
    assert_eq!(number.value_type(), Some(ValueType::Value));
    let word = BenchmarkId::new("g".to_owned(), None, Some("fast".to_owned()), None);
    assert_eq!(word.value_type(), None);
    let none = BenchmarkId::new("g".to_owned(), Some("f".to_owned()), None, None);
    assert_eq!(none.value_type(), None);
}

#[test]
fn debug_string_matches_the_derived_layout() {
    let id = BenchmarkId::new(
        "group".to_owned(),
        Some("function".to_owned()),
        None,
        Some(Throughput::Elements(12)),
    );
    let expected = format!(
        "BenchmarkId {{ group_id: \"group\", function_id: \"function\", value_str: None, throughput: {:?} }}",
        Some(Throughput::Elements(12))
    );
    assert_eq!(id.to_debug_string(), expected);
    let plain = BenchmarkId::new("g".to_owned(), None, Some("v".to_owned()), None);
    assert_eq!(
        plain.to_debug_string(),
        "BenchmarkId { group_id: \"g\", function_id: None, value_str: \"v\", throughput: None }"
    );
}

#[test]
fn directory_name_paths() {
    let mut dir = DirectoryName::empty();
    dir.push("a".to_owned());
    dir.push("b".to_owned());
    assert_eq!(dir.to_path_string(), "a/b");
    assert_eq!(dir.file_name(), Some("b".to_owned()));
    let renamed = dir.with_file_name("c".to_owned());
    assert_eq!(renamed.to_path_string(), "a/c");
    assert_eq!(renamed.file_name(), Some("c".to_owned()));
    let mut other = DirectoryName::empty();
    other.push("a".to_owned());
    other.push("b".to_owned());
    assert!(dir.same_path(&other));
    assert!(!dir.same_path(&renamed));
    assert_eq!(DirectoryName::empty().file_name(), None);
}

#[test]
fn accessors_give_the_public_fields() {
    let id = BenchmarkId::new(
        "g".to_owned(),
        Some("f".to_owned()),
        None,
        Some(Throughput::Bytes(8)),
    );
    assert_eq!(id.group_id(), "g");
    assert_eq!(id.function_id(), &Some("f".to_owned()));
    assert_eq!(id.value_str(), &None);
    assert_eq!(id.throughput(), Some(Throughput::Bytes(8)));
}
