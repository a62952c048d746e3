use moveset::file::{
    insert_sorted, list_pokemon_data, remove_by_equality, split, Move, SaveFile, SaveFileError,
    POKEMON_DELIMITER,
};

fn delimited(chunks: &[&[u8]]) -> Vec<u8> {
    // header-less helper: joins the given chunks, a delimiter after each.
    let mut out = Vec::new();
    for chunk in chunks {
        out.extend_from_slice(chunk);
        out.extend_from_slice(&POKEMON_DELIMITER);
    }
    out
}

#[test]
fn decode_reads_little_endian_halves() {
    let m = Move::decode(&[0x01, 0x00, 0x05, 0x00]);
    assert_eq!(m, Move::new(1, 5));
    let m = Move::decode(&[0x34, 0x12, 0x78, 0x56]);
    assert_eq!(m, Move::new(0x1234, 0x5678));
}

#[test]
fn encode_writes_little_endian_halves() {
    assert_eq!(Move::new(1, 5).encode(), [0x01, 0x00, 0x05, 0x00]);
    assert_eq!(Move::new(0x1234, 0x5678).encode(), [0x34, 0x12, 0x78, 0x56]);
}

#[test]
fn decode_encode_round_trip() {
    for m in [
        Move::new(0, 0),
        Move::new(1, 5),
        Move::new(0xffff, 0),
        Move::new(0, 0xffff),
        Move::new(0xffff, 0xffff),
        Move::new(300, 77),
    ] {
        assert_eq!(Move::decode(&m.encode()), m);
    }
}

#[test]
fn encode_decode_round_trip() {
    for b in [
        [0u8, 0, 0, 0],
        [1, 0, 5, 0],
        [0xff, 0xff, 0xff, 0xff],
        [0xab, 0xcd, 0xef, 0x01],
    ] {
        assert_eq!(Move::decode(&b).encode(), b);
    }
}

#[test]
fn split_finds_first_occurrence() {
    let hay = [1u8, 2, 3, 4, 3, 4, 5];
    let (before, at) = split(&hay, &[3, 4]).unwrap();
    assert_eq!(before, &[1, 2]);
    assert_eq!(at, &[3, 4, 3, 4, 5]);
}

#[test]
fn split_reports_absence() {
    let hay = [1u8, 2, 3];
    assert!(split(&hay, &[9]).is_none());
}

#[test]
fn split_short_haystack_is_absence() {
    let hay = [1u8, 2];
    assert!(split(&hay, &[1, 2, 3]).is_none());
}

#[test]
fn list_pokemon_data_collects_blocks_in_order() {
    // data starts with the delimiter that ended the header
    let mut data = delimited(&[&[], &[1, 2, 3, 4], &[5, 6]]);
    data.extend_from_slice(&[0xaa, 0xbb]); // trailing bytes: dropped
    let blocks = list_pokemon_data(&data);
    assert_eq!(blocks, vec![vec![1, 2, 3, 4], vec![5, 6]]);
}

#[test]
fn parses_header_and_single_species() {
    // scenario: one species with one move {id=1, level=5}
    let bytes = [
        0xaa, 0xbb, 0xcc, 0xdd, 0xff, 0xff, 0xff, 0xff, 0x01, 0x00, 0x05, 0x00, 0xff, 0xff,
        0xff, 0xff,
    ];
    let save = SaveFile::parse(&bytes).unwrap();
    assert_eq!(save.file_start, vec![0xaa, 0xbb, 0xcc, 0xdd]);
    assert_eq!(save.pokemons, vec![vec![Move::new(1, 5)]]);
}

#[test]
fn parses_empty_header_and_empty_species() {
    let bytes = delimited(&[&[], &[]]);
    let save = SaveFile::parse(&bytes).unwrap();
    assert_eq!(save.file_start, Vec::<u8>::new());
    assert_eq!(save.pokemons, vec![Vec::<Move>::new()]);
}

#[test]
fn parse_without_delimiter_is_malformed_container() {
    let bytes = [0x01u8, 0x02, 0x03, 0x04, 0x05];
    assert!(matches!(
        SaveFile::parse(&bytes),
        Err(SaveFileError::MalformedContainer)
    ));
    assert!(matches!(
        SaveFile::parse(&[]),
        Err(SaveFileError::MalformedContainer)
    ));
}

#[test]
fn parse_with_ragged_block_is_malformed_record() {
    let bytes = delimited(&[&[], &[1, 0, 5]]);
    assert!(matches!(
        SaveFile::parse(&bytes),
        Err(SaveFileError::MalformedRecord)
    ));
}

#[test]
fn serialize_reproduces_well_formed_prefix() {
    let mut bytes = delimited(&[&[0x10, 0x20], &[1, 0, 5, 0, 2, 0, 9, 0], &[7, 0, 1, 0]]);
    let well_formed = bytes.clone();
    bytes.extend_from_slice(&[0xde, 0xad]); // trailing bytes after the last delimiter
    let save = SaveFile::parse(&bytes).unwrap();
    assert_eq!(save.to_binary_format(), well_formed);
}

#[test]
fn serialize_emits_records_and_delimiters() {
    let save = SaveFile {
        file_start: vec![0x42],
        pokemons: vec![vec![Move::new(1, 5)], vec![]],
    };
    assert_eq!(
        save.to_binary_format(),
        vec![
            0x42, 0xff, 0xff, 0xff, 0xff, 0x01, 0x00, 0x05, 0x00, 0xff, 0xff, 0xff, 0xff,
            0xff, 0xff, 0xff, 0xff,
        ]
    );
}

#[test]
fn delimiter_valued_record_is_reparsed_as_delimiter() {
    // Known format limitation, inherited and deliberately not "fixed": a move
    // whose id and level are both 0xffff encodes exactly as the delimiter, so
    // re-parsing its serialization splits the block at that record.
    let ambiguous = Move::new(0xffff, 0xffff);
    assert_eq!(ambiguous.encode(), POKEMON_DELIMITER);
    let save = SaveFile {
        file_start: vec![],
        pokemons: vec![vec![ambiguous, Move::new(1, 5)]],
    };
    let reparsed = SaveFile::parse(&save.to_binary_format()).unwrap();
    assert_eq!(
        reparsed.pokemons,
        vec![vec![], vec![Move::new(1, 5)]] // not the original single list
    );
}

#[test]
fn insert_sorted_places_between_levels() {
    // scenario: {9,3} lands between levels 1 and 5
    let mut list = vec![Move::new(2, 1), Move::new(3, 5)];
    insert_sorted(&mut list, Move::new(9, 3));
    assert_eq!(list, vec![Move::new(2, 1), Move::new(9, 3), Move::new(3, 5)]);
}

#[test]
fn insert_sorted_is_stable_on_level_ties() {
    let mut list = vec![Move::new(1, 5), Move::new(2, 5)];
    insert_sorted(&mut list, Move::new(3, 5));
    assert_eq!(list, vec![Move::new(1, 5), Move::new(2, 5), Move::new(3, 5)]);
}

#[test]
fn insert_sorted_keeps_list_non_decreasing() {
    let mut list = Vec::new();
    for m in [
        Move::new(1, 40),
        Move::new(2, 10),
        Move::new(3, 25),
        Move::new(4, 10),
        Move::new(5, 0),
    ] {
        insert_sorted(&mut list, m);
    }
    for pair in list.windows(2) {
        assert!(pair[0].level <= pair[1].level);
    }
    assert_eq!(list.len(), 5);
}

#[test]
fn remove_by_equality_round_trip() {
    // scenario: removing {9,3} undoes the insertion, then reports absence
    let mut list = vec![Move::new(2, 1), Move::new(9, 3), Move::new(3, 5)];
    assert!(remove_by_equality(&mut list, Move::new(9, 3)));
    assert_eq!(list, vec![Move::new(2, 1), Move::new(3, 5)]);
    assert!(!remove_by_equality(&mut list, Move::new(9, 3)));
    assert_eq!(list, vec![Move::new(2, 1), Move::new(3, 5)]);
}

#[test]
fn remove_by_equality_removes_every_match() {
    let target = Move::new(7, 7);
    let mut list = vec![target, Move::new(1, 1), target, target, Move::new(2, 2)];
    assert!(remove_by_equality(&mut list, target));
    assert_eq!(list, vec![Move::new(1, 1), Move::new(2, 2)]);
}

#[test]
fn remove_by_equality_needs_both_fields_equal() {
    let mut list = vec![Move::new(7, 7)];
    assert!(!remove_by_equality(&mut list, Move::new(7, 8)));
    assert!(!remove_by_equality(&mut list, Move::new(8, 7)));
    assert_eq!(list, vec![Move::new(7, 7)]);
}

#[test]
fn insert_move_checks_species_index() {
    let mut save = SaveFile {
        file_start: vec![],
        pokemons: vec![vec![]],
    };
    assert_eq!(save.insert_move(0, Move::new(1, 5)), Ok(()));
    assert_eq!(
        save.insert_move(1, Move::new(1, 5)),
        Err(SaveFileError::IndexOutOfRange)
    );
    assert_eq!(save.pokemons, vec![vec![Move::new(1, 5)]]);
}

#[test]
fn remove_move_checks_species_index() {
    let mut save = SaveFile {
        file_start: vec![],
        pokemons: vec![vec![Move::new(1, 5)]],
    };
    assert_eq!(
        save.remove_move(3, Move::new(1, 5)),
        Err(SaveFileError::IndexOutOfRange)
    );
    assert_eq!(save.remove_move(0, Move::new(1, 5)), Ok(true));
    assert_eq!(save.remove_move(0, Move::new(1, 5)), Ok(false));
    assert_eq!(save.pokemons, vec![Vec::<Move>::new()]);
}
