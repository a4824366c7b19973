use fuzzy_phrase::inverted::{intersect, InvertedIndex, InvertedIndexBuilder, InvertedIndexError};
use fuzzy_phrase::query::{QueryPhrase, QueryWord};

fn full(ids: &[u32]) -> QueryPhrase {
    let words: Vec<QueryWord> = ids.iter().map(|id| QueryWord::new_full(*id, 0)).collect();
    QueryPhrase::new(&words).unwrap()
}

fn sample() -> InvertedIndex {
    let phrases = vec![vec![1u32, 2, 3], vec![3, 1], vec![5, 5, 2], vec![4]];
    let mut builder = InvertedIndexBuilder::memory();
    for (i, p) in phrases.iter().enumerate() {
        builder.insert(i as u32, p);
    }
    let entries = builder.finish();
    InvertedIndex::new(entries, phrases)
}

#[test]
fn builder_sorts_dedups_and_fills_gaps() {
    let mut builder = InvertedIndexBuilder::new();
    builder.insert(7, &[3, 1]);
    builder.insert(2, &[3, 3]);
    builder.insert(7, &[3]);
    let entries = builder.finish();
    assert_eq!(entries, vec![vec![], vec![7u32], vec![], vec![2u32, 7]]);
    assert_eq!(InvertedIndexBuilder::memory().finish(), Vec::<Vec<u32>>::new());
}

#[test]
fn intersect_sorted_lists() {
    assert_eq!(intersect(&vec![1, 3, 5, 7], &vec![2, 3, 4, 7, 9]), vec![3u32, 7]);
    assert_eq!(intersect(&vec![], &vec![1]), Vec::<u32>::new());
}

#[test]
fn contains_is_set_containment() {
    let index = sample();
    assert_eq!(index.contains(&full(&[1, 3])), Ok(true));
    assert_eq!(index.contains(&full(&[3, 1])), Ok(true));
    assert_eq!(index.contains(&full(&[2, 5])), Ok(true));
    assert_eq!(index.contains(&full(&[4, 1])), Ok(false));
    assert_eq!(index.contains(&full(&[9])), Ok(false));
    let ranged = QueryPhrase::new(&[QueryWord::new_full(1, 0), QueryWord::new_prefix((0, 3))]).unwrap();
    assert_eq!(index.contains(&ranged), Err(InvertedIndexError::QueryShape));
}

#[test]
fn match_substring_returns_whole_phrases() {
    let index = sample();
    let got = index.match_substring(&full(&[1, 3])).unwrap();
    assert_eq!(
        got,
        vec![
            vec![QueryWord::new_full(1, 0), QueryWord::new_full(2, 0), QueryWord::new_full(3, 0)],
            vec![QueryWord::new_full(3, 0), QueryWord::new_full(1, 0)],
        ]
    );
    let broken = InvertedIndex::new(vec![vec![], vec![4]], vec![vec![1]]);
    assert_eq!(broken.match_substring(&full(&[1])), Err(InvertedIndexError::UnknownPhrase));
}
