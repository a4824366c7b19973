use fst::Streamer;
use fuzzy_phrase::codec::word_ids_to_key;
use fuzzy_phrase::phrase::{PhraseSet, PhraseSetBuilder, PhraseSetError, PhraseSetLookupResult};
use fuzzy_phrase::query::{QueryPhrase, QueryWord};

fn id3(a: u32, b: u32, c: u32) -> u32 {
    (a << 16) | (b << 8) | c
}

fn build(phrases: &[Vec<u32>]) -> PhraseSet {
    let mut builder = PhraseSetBuilder::memory();
    for p in phrases {
        builder.insert(p).unwrap();
    }
    builder.finish()
}

fn full(ids: &[u32]) -> Vec<QueryWord> {
    ids.iter().map(|id| QueryWord::new_full(*id, 0)).collect()
}

fn shared_prefix_set() -> PhraseSet {
    let tails = [
        (2, 1, 0),
        (2, 3, 2),
        (2, 3, 4),
        (2, 5, 6),
        (4, 1, 1),
        (4, 3, 3),
        (4, 5, 5),
        (6, 3, 4),
        (6, 3, 7),
        (6, 5, 8),
    ];
    let phrases: Vec<Vec<u32>> = tails.iter().map(|(a, b, c)| vec![1, 61_528, id3(*a, *b, *c)]).collect();
    build(&phrases)
}

fn with_range(set: &PhraseSet, lo: u32, hi: u32) -> bool {
    let mut words = full(&[1, 61_528]);
    words.push(QueryWord::new_prefix((lo, hi)));
    set.contains_prefix(&QueryPhrase::new(&words).unwrap())
}

#[test]
fn three_phrases_contains() {
    let set = build(&[vec![1, 61_528, 561_528], vec![61_528, 561_528, 1], vec![561_528, 1, 61_528]]);
    let phrase = QueryPhrase::new(&full(&[1, 61_528, 561_528])).unwrap();
    assert_eq!(set.contains(&phrase), Ok(true));
    let shorter = QueryPhrase::new(&full(&[1, 61_528])).unwrap();
    assert_eq!(set.contains(&shorter), Ok(false));
    let reversed = QueryPhrase::new(&full(&[561_528, 61_528, 1])).unwrap();
    assert_eq!(set.contains(&reversed), Ok(false));
    let mut words = full(&[1, 61_528]);
    words.push(QueryWord::new_prefix((561_000, 562_000)));
    let ranged = QueryPhrase::new(&words).unwrap();
    assert_eq!(set.contains(&ranged), Err(PhraseSetError::QueryShape));
}

#[test]
fn three_phrases_stream_in_key_order() {
    let set = build(&[vec![1, 61_528, 561_528], vec![61_528, 561_528, 1], vec![561_528, 1, 61_528]]);
    let fst = fst::raw::Fst::new(set.as_bytes()).unwrap();
    let mut stream = fst.stream();
    let mut keys: Vec<(Vec<u8>, u64)> = Vec::new();
    while let Some((k, o)) = stream.next() {
        keys.push((k.to_vec(), o.value()));
    }
    assert_eq!(
        keys,
        vec![
            (word_ids_to_key(&[1, 61_528, 561_528]), 0),
            (word_ids_to_key(&[61_528, 561_528, 1]), 1),
            (word_ids_to_key(&[561_528, 1, 61_528]), 2),
        ]
    );
    assert!(keys.iter().all(|(k, _)| k.len() == 9));
}

#[test]
fn insert_out_of_order_is_refused() {
    let mut builder = PhraseSetBuilder::memory();
    builder.insert(&[5, 6]).unwrap();
    assert_eq!(builder.insert(&[5, 6]), Err(PhraseSetError::BuildOrder));
    assert_eq!(builder.insert(&[1, 2, 3]), Err(PhraseSetError::BuildOrder));
    builder.insert(&[5, 7]).unwrap();
    let set = builder.finish();
    assert_eq!(set.contains(&QueryPhrase::new(&full(&[5, 7])).unwrap()), Ok(true));
    assert_eq!(set.contains(&QueryPhrase::new(&full(&[1, 2, 3])).unwrap()), Ok(false));
}

#[test]
fn from_bytes_round_trip_and_decode_error() {
    let set = build(&[vec![3, 4], vec![3, 5]]);
    let copy = PhraseSet::from_bytes(set.as_bytes()).unwrap();
    assert_eq!(copy.contains(&QueryPhrase::new(&full(&[3, 5])).unwrap()), Ok(true));
    assert!(matches!(PhraseSet::from_bytes(vec![1, 2, 3]), Err(PhraseSetError::Decode)));
}

#[test]
fn prefix_range_releases_and_ties() {
    let set = shared_prefix_set();
    assert!(with_range(&set, id3(6, 5, 8), 0xff_ffff));
    assert!(with_range(&set, 0, id3(2, 1, 0)));
    assert!(with_range(&set, id3(2, 0, 255), id3(6, 5, 1)));
    assert!(!with_range(&set, 0, id3(2, 0, 255)));
    assert!(!with_range(&set, id3(6, 5, 9), 0xff_ffff));
}

#[test]
fn prefix_range_inside_one_branch() {
    let set = shared_prefix_set();
    assert!(with_range(&set, id3(4, 3, 1), id3(4, 3, 5)));
    assert!(!with_range(&set, id3(4, 3, 0), id3(4, 3, 2)));
}

#[test]
fn prefix_range_of_one_word() {
    let set = shared_prefix_set();
    assert!(!with_range(&set, id3(4, 3, 1), id3(4, 3, 1)));
    assert!(with_range(&set, id3(6, 5, 8), id3(6, 5, 8)));
}

#[test]
fn every_proper_prefix_is_a_prefix() {
    let set = shared_prefix_set();
    assert!(set.contains_prefix(&QueryPhrase::new(&full(&[1])).unwrap()));
    assert!(set.contains_prefix(&QueryPhrase::new(&full(&[1, 61_528])).unwrap()));
    assert!(set.contains_prefix(&QueryPhrase::new(&full(&[1, 61_528, id3(4, 3, 3)])).unwrap()));
    assert!(!set.contains_prefix(&QueryPhrase::new(&full(&[61_528])).unwrap()));
    assert!(!set.contains_prefix(&QueryPhrase::new(&full(&[1, 61_528, id3(4, 3, 4)])).unwrap()));
}

#[test]
fn lookup_reports_ids_and_ranges() {
    let set = shared_prefix_set();
    let found = set.lookup(&full(&[1, 61_528, id3(4, 1, 1)]));
    assert!(found.found());
    assert!(found.found_final());
    assert_eq!(found.id(), Some(4));
    assert!(!found.has_continuations());
    assert_eq!(found.range(), Some((4, 4)));

    let prefix = set.lookup(&full(&[1, 61_528]));
    assert!(prefix.found());
    assert!(!prefix.found_final());
    assert_eq!(prefix.id(), None);
    assert!(prefix.has_continuations());
    assert_eq!(prefix.range(), Some((0, 9)));

    let mut words = full(&[1, 61_528]);
    words.push(QueryWord::new_prefix((id3(2, 3, 0), id3(4, 3, 3))));
    let ranged = set.lookup(&words);
    assert!(ranged.found());
    assert!(!ranged.found_final());
    assert_eq!(ranged.range(), Some((1, 5)));

    let missing = set.lookup(&full(&[1, 2]));
    assert!(!missing.found());
    assert!(matches!(missing, PhraseSetLookupResult::NotFound));
    assert_eq!(missing.range(), None);
}

#[test]
fn combinations_within_budget() {
    let set = shared_prefix_set();
    let poss = vec![
        vec![QueryWord::new_full(1, 0)],
        vec![QueryWord::new_full(61_528, 0), QueryWord::new_full(61_529, 1)],
        vec![
            QueryWord::new_full(id3(4, 1, 1), 0),
            QueryWord::new_full(id3(4, 3, 3), 1),
            QueryWord::new_full(id3(9, 9, 9), 1),
            QueryWord::new_full(id3(6, 5, 8), 2),
        ],
    ];
    let got = set.match_combinations(&poss, 1).unwrap();
    assert_eq!(
        got,
        vec![
            vec![QueryWord::new_full(1, 0), QueryWord::new_full(61_528, 0), QueryWord::new_full(id3(4, 1, 1), 0)],
            vec![QueryWord::new_full(1, 0), QueryWord::new_full(61_528, 0), QueryWord::new_full(id3(4, 3, 3), 1)],
        ]
    );
    let all = set.match_combinations(&poss, 2).unwrap();
    assert_eq!(all.len(), 3);
    assert!(all.iter().all(|c| set.contains(&QueryPhrase::new(c).unwrap()) == Ok(true)));
    let none = set.match_combinations(&poss, 0).unwrap();
    assert_eq!(none.len(), 1);
}

#[test]
fn combinations_stop_at_first_over_budget() {
    let set = shared_prefix_set();
    // An unsorted candidate list: the candidate after the costly one is not reached.
    let poss = vec![
        vec![QueryWord::new_full(1, 0)],
        vec![QueryWord::new_full(61_528, 0)],
        vec![QueryWord::new_full(id3(4, 1, 1), 2), QueryWord::new_full(id3(4, 3, 3), 0)],
    ];
    assert_eq!(set.match_combinations(&poss, 1).unwrap(), Vec::<Vec<QueryWord>>::new());
}

#[test]
fn combinations_refuse_ranges() {
    let set = shared_prefix_set();
    let poss = vec![vec![QueryWord::new_full(1, 0)], vec![QueryWord::new_prefix((0, 10))]];
    assert_eq!(set.match_combinations(&poss, 1), Err(PhraseSetError::QueryShape));
    assert_eq!(set.match_combinations(&[], 1), Ok(Vec::new()));
}

#[test]
fn combinations_as_prefixes() {
    let set = shared_prefix_set();
    let poss = vec![
        vec![QueryWord::new_full(1, 0)],
        vec![QueryWord::new_full(61_528, 0), QueryWord::new_prefix((61_000, 62_000))],
        vec![QueryWord::new_prefix((id3(4, 3, 0), id3(4, 3, 2))), QueryWord::new_prefix((id3(4, 3, 0), id3(4, 4, 0)))],
    ];
    let got = set.match_combinations_as_prefixes(&poss, 0).unwrap();
    assert_eq!(
        got,
        vec![
            vec![QueryWord::new_full(1, 0), QueryWord::new_full(61_528, 0), QueryWord::new_prefix((id3(4, 3, 0), id3(4, 4, 0)))],
            vec![QueryWord::new_full(1, 0), QueryWord::new_prefix((61_000, 62_000))],
        ]
    );
    let short = vec![vec![QueryWord::new_full(1, 0)], vec![QueryWord::new_full(61_528, 0)]];
    assert_eq!(set.match_combinations_as_prefixes(&short, 0).unwrap(), vec![full(&[1, 61_528])]);
}

#[test]
fn combinations_as_windows() {
    let set = build(&[vec![1, 2], vec![1, 2, 3, 4], vec![1, 2, 3, 5]]);
    let poss = vec![
        vec![QueryWord::new_full(1, 0)],
        vec![QueryWord::new_full(2, 0)],
        vec![QueryWord::new_full(3, 0)],
    ];
    let closed = set.match_combinations_as_windows(&poss, 0, false).unwrap();
    assert_eq!(closed, vec![(full(&[1, 2]), false)]);
    let open = set.match_combinations_as_windows(&poss, 0, true).unwrap();
    assert_eq!(open, vec![(full(&[1, 2]), false), (full(&[1, 2, 3]), true)]);

    let mut ranged = poss.clone();
    ranged[2] = vec![QueryWord::new_prefix((3, 3))];
    assert_eq!(set.match_combinations_as_windows(&ranged, 0, false), Err(PhraseSetError::QueryShape));
    let windows = set.match_combinations_as_windows(&ranged, 0, true).unwrap();
    assert_eq!(
        windows,
        vec![(full(&[1, 2]), false), (vec![QueryWord::new_full(1, 0), QueryWord::new_full(2, 0), QueryWord::new_prefix((3, 3))], true)]
    );
    for (c, tag) in windows {
        if !tag {
            assert_eq!(set.contains(&QueryPhrase::new(&c).unwrap()), Ok(true));
        } else {
            assert!(set.contains_prefix(&QueryPhrase::new(&c).unwrap()));
        }
    }
}

#[test]
fn query_phrase_shape() {
    assert!(QueryPhrase::new(&[]).is_err());
    let bad = vec![QueryWord::new_prefix((1, 2)), QueryWord::new_full(3, 0)];
    assert!(QueryPhrase::new(&bad).is_err());
    let good = QueryPhrase::new(&[QueryWord::new_full(3, 0), QueryWord::new_prefix((1, 2))]).unwrap();
    assert!(good.has_prefix);
    assert_eq!(good.len(), 2);
    assert_eq!(QueryWord::new_full(0x01_0203, 0).key(), vec![1u8, 2, 3]);
}

#[test]
fn bytes_round_trip_keeps_membership() {
    let mut b = PhraseSetBuilder::memory();
    b.insert(&[1, 61_528, 561_528]).unwrap();
    b.insert(&[61_528, 561_528, 1]).unwrap();
    b.insert(&[561_528, 1, 61_528]).unwrap();
    let s = PhraseSet::from_bytes(b.into_inner()).unwrap();
    assert!(s.lookup(&full(&[1, 61_528, 561_528])).found_final());
    assert!(!s.lookup(&full(&[1, 61_528])).found_final());
}
