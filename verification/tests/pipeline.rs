use std::io::Write;
use word_index::archives::{get_contents_from_zip_file, get_file_names_from_zip_bytes};
use word_index::list_and_read::{content_from_bytes, should_index_file, FileForIndex};
use word_index::mt::{MtDeque, FILE_SIZE_LIMIT_BYTES};
use word_index::parallel_merge::merge;
use word_index::reports::{write_map_sorted_by_key, write_map_sorted_by_value};
use word_index::word_count::index_files_from_deque;
use word_index::word_map::WordMap;

fn make_zip(entries: &[(&str, &[u8])]) -> Vec<u8> {
    let mut writer = zip::ZipWriter::new(std::io::Cursor::new(Vec::new()));
    let options = zip::write::SimpleFileOptions::default();
    for (name, data) in entries {
        writer.start_file(*name, options).unwrap();
        writer.write_all(data).unwrap();
    }
    writer.finish().unwrap().into_inner()
}

fn run_pipeline(texts: &[&str]) -> WordMap {
    let mut contents: MtDeque<Option<String>> = MtDeque::new();
    for t in texts {
        contents.push_back(Some(String::from(*t)));
    }
    contents.push_back(None);
    let mut indexes: MtDeque<Option<WordMap>> = MtDeque::new();
    index_files_from_deque(&mut contents, &mut indexes);
    indexes.push_back(None);
    merge(&mut indexes);
    match indexes.pop_front() {
        Some(map) => map,
        None => WordMap::new(),
    }
}

#[test]
fn two_files_give_sorted_reports() {
    let map = run_pipeline(&["Hello hello", "world"]);
    assert_eq!(map.get_count(&String::from("hello")), 2);
    assert_eq!(map.get_count(&String::from("world")), 1);
    let by_a = write_map_sorted_by_key(&map);
    assert_eq!(by_a, "hello 2\nworld 1\n");
    let by_n = write_map_sorted_by_value(&map);
    assert_eq!(by_n, "hello 2\nworld 1\n");
}

#[test]
fn report_orderings_differ_but_totals_agree() {
    let map = run_pipeline(&["bee bee bee ant", "cat cat"]);
    let by_a = write_map_sorted_by_key(&map);
    assert_eq!(by_a, "ant 1\nbee 3\ncat 2\n");
    let by_n = write_map_sorted_by_value(&map);
    assert_eq!(by_n, "bee 3\ncat 2\nant 1\n");
    let total_a: usize = by_a.lines().map(|l| l.rsplit(' ').next().unwrap().parse::<usize>().unwrap()).sum();
    let total_n: usize = by_n.lines().map(|l| l.rsplit(' ').next().unwrap().parse::<usize>().unwrap()).sum();
    assert_eq!(total_a, total_n);
    assert_eq!(total_a, 6);
}

#[test]
fn rerunning_same_input_gives_identical_reports() {
    let first = run_pipeline(&["tic tac tic", "toe"]);
    let second = run_pipeline(&["tic tac tic", "toe"]);
    assert_eq!(write_map_sorted_by_key(&first), write_map_sorted_by_key(&second));
    assert_eq!(write_map_sorted_by_value(&first), write_map_sorted_by_value(&second));
}

#[test]
fn empty_input_gives_empty_reports() {
    let map = run_pipeline(&[]);
    assert_eq!(write_map_sorted_by_key(&map), "");
    assert_eq!(write_map_sorted_by_value(&map), "");
}

#[test]
fn nested_zip_entries_are_discovered_and_counted() {
    let inner = make_zip(&[("inner.txt", b"cat cat dog")]);
    let outer = make_zip(&[("inner.zip", &inner)]);
    let descriptors = get_file_names_from_zip_bytes(outer);
    assert_eq!(descriptors.len(), 2);
    let mut texts: Vec<String> = Vec::new();
    for d in descriptors {
        match d {
            FileForIndex::Zip(paths, mut archive) => {
                let mut contents = get_contents_from_zip_file(&paths, &mut archive);
                texts.append(&mut contents);
            }
            FileForIndex::Regular(_) => panic!("walker emits archive descriptors only"),
        }
    }
    let borrowed: Vec<&str> = texts.iter().map(|s| s.as_str()).collect();
    let map = run_pipeline(&borrowed);
    assert_eq!(map.get_count(&String::from("cat")), 2);
    assert_eq!(map.get_count(&String::from("dog")), 1);
    assert_eq!(map.num_entries(), 2);
}

#[test]
fn oversized_zip_entry_contributes_no_words() {
    let big = vec![b'x'; FILE_SIZE_LIMIT_BYTES + 1];
    let archive_bytes = make_zip(&[("big.txt", big.as_slice()), ("small.txt", b"tiny words")]);
    let descriptors = get_file_names_from_zip_bytes(archive_bytes);
    assert_eq!(descriptors.len(), 1);
    let mut texts: Vec<String> = Vec::new();
    for d in descriptors {
        match d {
            FileForIndex::Zip(paths, mut archive) => {
                assert_eq!(paths.len(), 2);
                let mut contents = get_contents_from_zip_file(&paths, &mut archive);
                texts.append(&mut contents);
            }
            FileForIndex::Regular(_) => panic!("walker emits archive descriptors only"),
        }
    }
    assert_eq!(texts, vec![String::from("tiny words")]);
    let borrowed: Vec<&str> = texts.iter().map(|s| s.as_str()).collect();
    let map = run_pipeline(&borrowed);
    assert_eq!(map.get_count(&String::from("x")), 0);
    assert_eq!(map.get_count(&String::from("xx")), 0);
    assert_eq!(map.get_count(&String::from("tiny")), 1);
    assert_eq!(map.get_count(&String::from("words")), 1);
}

#[test]
fn size_cap_decision_matches_limit() {
    assert!(should_index_file(0));
    assert!(should_index_file((FILE_SIZE_LIMIT_BYTES - 1) as u64));
    assert!(!should_index_file(FILE_SIZE_LIMIT_BYTES as u64));
    assert!(!should_index_file(u64::MAX));
}

#[test]
fn content_decoding_is_lossy_and_skips_empty() {
    assert_eq!(content_from_bytes(&Vec::new()), None);
    assert_eq!(content_from_bytes(&b"plain".to_vec()), Some(String::from("plain")));
    let decoded = content_from_bytes(&vec![0xff, b'h', b'i']).unwrap();
    assert_eq!(decoded, format!("{}hi", '\u{fffd}'));
}

#[test]
fn report_renders_multi_digit_counts() {
    let mut m = WordMap::new();
    m.add_count(&String::from("word"), 1234);
    m.add_count(&String::from("other"), 10);
    assert_eq!(write_map_sorted_by_key(&m), "other 10\nword 1234\n");
    assert_eq!(write_map_sorted_by_value(&m), "word 1234\nother 10\n");
}

#[test]
fn frequency_report_breaks_ties_alphabetically() {
    let mut m = WordMap::new();
    m.add_count(&String::from("beta"), 2);
    m.add_count(&String::from("alpha"), 2);
    m.add_count(&String::from("gamma"), 5);
    assert_eq!(write_map_sorted_by_value(&m), "gamma 5\nalpha 2\nbeta 2\n");
}
