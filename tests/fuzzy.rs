use fuzzy_phrase::fuzzy::{FuzzyMap, FuzzyMapBuilder, FuzzyMapError, SerializableIdList, BIG_NUMBER};
use fuzzy_phrase::variants::get_variants;

fn strings(words: &[&str]) -> Vec<String> {
    words.iter().map(|w| w.to_string()).collect()
}

#[test]
fn lookup_test_cases_d_2() {
    let words = vec!["100", "main", "street"];
    let owned = strings(&words);
    let map = FuzzyMapBuilder::build_from_iter(&owned, 2).unwrap();
    let query1 = "sret";
    let matches = map.lookup(&query1, 2, &owned);
    assert_eq!(matches.unwrap(), [("street".to_owned(), words.binary_search(&"street").unwrap() as u64)])
}

#[test]
fn variants_delete_up_to_d_characters() {
    let mut one = get_variants("abc", 1);
    one.sort();
    one.dedup();
    assert_eq!(one, strings(&["ab", "ac", "bc"]));
    let mut two = get_variants("abc", 2);
    two.sort();
    two.dedup();
    assert_eq!(two, strings(&["a", "ab", "ac", "b", "bc", "c"]));
    assert!(get_variants("", 2).is_empty());
    assert!(get_variants("abc", 0).is_empty());
    let mut wide = get_variants("aé🤔", 1);
    wide.sort();
    wide.dedup();
    assert_eq!(wide, strings(&["aé", "a🤔", "é🤔"]));
}

#[test]
fn lookup_finds_words_within_distance() {
    let words = strings(&["albana", "albazan", "alone", "blockquoteanciently"]);
    let map = FuzzyMapBuilder::build_from_iter(&words, 1).unwrap();
    assert_eq!(map.lookup("alazan", 1, &words).unwrap(), vec![("albazan".to_string(), 1)]);
    assert_eq!(
        map.lookup("albaza", 1, &words).unwrap(),
        vec![("albana".to_string(), 0), ("albazan".to_string(), 1)]
    );
    assert_eq!(
        map.lookup("blockquteanciently", 1, &words).unwrap(),
        vec![("blockquoteanciently".to_string(), 3)]
    );
    assert_eq!(map.lookup("alone", 1, &words).unwrap(), vec![("alone".to_string(), 2)]);
    assert_eq!(map.lookup("🤔", 1, &words).unwrap(), vec![]);
    assert_eq!(map.lookup("", 1, &words).unwrap(), vec![]);
}

#[test]
fn lookup_rejects_far_candidates() {
    // "cab" reaches "abc" through the shared variant "ab", but is two edits away.
    let words = strings(&["abc", "xyz"]);
    let map = FuzzyMapBuilder::build_from_iter(&words, 1).unwrap();
    assert_eq!(map.lookup("cab", 1, &words).unwrap(), vec![]);
    assert_eq!(map.lookup("ab", 1, &words).unwrap(), vec![("abc".to_string(), 0)]);
}

#[test]
fn shared_keys_go_through_the_overflow_table() {
    let words = strings(&["cat", "cot", "cut"]);
    let map = FuzzyMapBuilder::build_from_iter(&words, 1).unwrap();
    // "ct" is a variant of all three words.
    let ct = map.get(b"ct").unwrap();
    assert!(ct >= BIG_NUMBER);
    assert_eq!(map.id_list()[(ct - BIG_NUMBER) as usize], vec![0usize, 1, 2]);
    assert_eq!(map.get(b"cat"), Some(0));
    // cat, cot, cut, at, ot, ut, ct, ca, co, cu
    assert_eq!(map.len(), 10);
    assert!(!map.is_empty());
    assert!(map.contains(b"cu"));
    assert!(!map.contains(b"dog"));
    assert_eq!(
        map.lookup("cxt", 1, &words).unwrap(),
        vec![("cat".to_string(), 0), ("cot".to_string(), 1), ("cut".to_string(), 2)]
    );
}

#[test]
fn lookup_with_unknown_id() {
    let words = strings(&["cat", "dog"]);
    let map = FuzzyMapBuilder::build_from_iter(&words, 1).unwrap();
    assert_eq!(map.lookup("dog", 1, &words[..1]), Err(FuzzyMapError::UnknownId));
}

#[test]
fn lookup_with_dangling_overflow_index() {
    let mut b = fst::raw::Builder::memory();
    b.insert(b"cat", BIG_NUMBER + 5).unwrap();
    let bytes = b.into_inner().unwrap();
    let map = FuzzyMap::from_bytes(bytes, SerializableIdList(vec![vec![0, 1]])).unwrap();
    let words = strings(&["cat", "cut"]);
    assert_eq!(map.lookup("cat", 1, &words), Err(FuzzyMapError::Decode));
}

#[test]
fn build_refuses_ids_past_capacity() {
    let mut builder = FuzzyMapBuilder::new(1);
    builder.insert("cat", BIG_NUMBER);
    assert!(matches!(builder.finish(), Err(FuzzyMapError::BuildCapacity)));
}

#[test]
fn builder_insert_and_finish() {
    let mut builder = FuzzyMapBuilder::new(1);
    builder.insert("ab", 7);
    builder.insert("b", 3);
    let map = builder.finish().unwrap();
    assert_eq!(map.get(b"ab"), Some(7));
    assert_eq!(map.get(b"a"), Some(7));
    let b = map.get(b"b").unwrap();
    assert_eq!(map.id_list()[(b - BIG_NUMBER) as usize], vec![3usize, 7]);
    assert_eq!(map.get(b""), Some(3));
}

#[test]
fn recall_for_one_edit_of_each_kind() {
    let words = strings(&["abcd", "wxyz"]);
    let map = FuzzyMapBuilder::build_from_iter(&words, 1).unwrap();
    let expected = vec![("abcd".to_string(), 0u64)];
    for query in ["abcd", "abd", "abxcd", "abxd", "abdc"] {
        assert_eq!(map.lookup(query, 1, &words).unwrap(), expected);
    }
    assert_eq!(map.lookup("axd", 1, &words).unwrap(), vec![]);
}

#[test]
fn multi_byte_words_round_trip() {
    let words = strings(&["agߪkaधaݤcݤkaqag", "albazan", "blockquoteanciently"]);
    let map = FuzzyMapBuilder::build_from_iter(&words, 1).unwrap();
    assert_eq!(
        map.lookup("agߪkaधaݤcݤkaqag", 1, &words).unwrap(),
        vec![("agߪkaधaݤcݤkaqag".to_string(), 0)]
    );
    let copy = FuzzyMap::from_bytes(map.as_bytes(), SerializableIdList(map.id_list().clone())).unwrap();
    assert_eq!(copy.len(), map.len());
    assert_eq!(copy.lookup("alazan", 1, &words).unwrap(), vec![("albazan".to_string(), 1)]);
    assert!(matches!(FuzzyMap::from_bytes(vec![0, 1, 2], SerializableIdList(vec![])), Err(FuzzyMapError::Decode)));
}
