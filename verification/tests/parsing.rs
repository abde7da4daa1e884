use pr0wser::scenedatabase::{parse, parse_database, ParserError, Scene, SceneDatabase};
use pr0wser::tokenizer::Tokenizer;

fn ok(input: &[u8]) -> SceneDatabase {
    match parse(input) {
        Ok(db) => db,
        Err(e) => panic!("parse failed: {}", String::from_utf8_lossy(&e.message())),
    }
}

fn err(input: &[u8]) -> ParserError {
    match parse(input) {
        Ok(_) => panic!("parse unexpectedly succeeded"),
        Err(e) => e,
    }
}

fn sorted_tags(sc: &Scene) -> Vec<Vec<u8>> {
    let mut v = sc.tags.clone();
    v.sort();
    v
}

#[test]
fn parse_database_drives_a_fresh_tokenizer() {
    let input = b"type: pr0wser3\nbaseDir: \"/media\"\n".to_vec();
    let mut t = Tokenizer::new(&input);
    let db = parse_database(&mut t).ok().unwrap();
    assert_eq!(db.base_dir, b"/media".to_vec());
    assert!(db.film.is_empty());
}

#[test]
fn minimal_input_parses_to_empty_film_list() {
    let db = ok(b"type: pr0wser3\nbaseDir: \"/media\"\n");
    assert_eq!(db.base_dir, b"/media".to_vec());
    assert!(db.film.is_empty());
    assert!(db.def_search.is_none());
    assert!(db.tags.is_empty());
}

#[test]
fn minimal_input_other_format_and_comments() {
    let db = ok(b"# catalog\ntype: pr0wser4 # new revision\nbaseDir: media\n");
    assert_eq!(db.base_dir, b"media".to_vec());
    assert!(db.film.is_empty());
}

#[test]
fn header_order_is_free_and_def_search_kept() {
    let db = ok(b"baseDir: \"/m\"\ndefSearch: \"latest:5\"\ntype: pr0wser3\n");
    assert_eq!(db.base_dir, b"/m".to_vec());
    assert_eq!(db.def_search, Some(b"latest:5".to_vec()));
}

fn one_entry(extra: &str) -> Vec<u8> {
    let mut s = String::from("type: pr0wser3\nbaseDir: \"/m\"\n{\n");
    s.push_str("fileName: \"a.mp4\"\ndirectory: \"d\"\ntags: \"x\"\nnumGirls: 1\nnumBoys: 0\n");
    s.push_str(extra);
    s.push_str("}\n");
    s.into_bytes()
}

#[test]
fn ids_descend_to_one_in_reverse_file_order() {
    let mut s = String::from("type: pr0wser3\nbaseDir: \"/m\"\n");
    for i in 0..3 {
        s.push_str(&format!(
            "{{ fileName: \"f{}\" directory: d tags: \"\" numGirls: 0 numBoys: 0 }}\n",
            i
        ));
    }
    let db = ok(s.as_bytes());
    assert_eq!(db.film.len(), 3);
    assert_eq!(db.film[0].id, 3);
    assert_eq!(db.film[1].id, 2);
    assert_eq!(db.film[2].id, 1);
    assert_eq!(db.film[0].file_name, b"f0".to_vec());
    assert_eq!(db.film[2].file_name, b"f2".to_vec());
}

#[test]
fn tags_are_trimmed_and_deduplicated() {
    let db = ok(&one_entry("")[..]);
    assert_eq!(db.film[0].tags, vec![b"x".to_vec()]);
    let mut s = String::from("type: pr0wser3\nbaseDir: \"/m\"\n{\n");
    s.push_str("fileName: f directory: d numGirls: 0 numBoys: 0\n");
    s.push_str("tags: \" Action,  Drama ,Action\"\n}\n");
    let db = ok(s.as_bytes());
    let tags = sorted_tags(&db.film[0]);
    assert_eq!(tags, vec![b"Action".to_vec(), b"Drama".to_vec()]);
}

#[test]
fn empty_tag_pieces_become_the_empty_tag() {
    let db = ok(&one_entry("")[..]);
    assert_eq!(db.film[0].tags.len(), 1);
    let mut s = String::from("type: pr0wser3\nbaseDir: \"/m\"\n{\n");
    s.push_str("fileName: f directory: d numGirls: 0 numBoys: 0 tags: \" , \"\n}\n");
    let db = ok(s.as_bytes());
    assert_eq!(db.film[0].tags, vec![b"".to_vec()]);
}

#[test]
fn durations_decode_from_colon_strings_and_numbers() {
    let db = ok(&one_entry("begin: \"1:30\"\nend: 45\nlength: \"2:00:00\"\n")[..]);
    let sc = &db.film[0];
    assert_eq!(sc.begin, Some(90));
    assert_eq!(sc.end, Some(45));
    assert_eq!(sc.length, Some(7200));
}

#[test]
fn absent_durations_are_none() {
    let db = ok(&one_entry("")[..]);
    let sc = &db.film[0];
    assert_eq!(sc.begin, None);
    assert_eq!(sc.end, None);
    assert_eq!(sc.length, None);
    assert_eq!(sc.year, None);
    assert_eq!(sc.score, 0);
    assert_eq!(sc.name, None);
    assert_eq!(sc.notes, None);
}

#[test]
fn duration_components_may_carry_a_sign() {
    let db = ok(&one_entry("begin: \"1:-2\"\nend: \"-90\"\nlength: \"+45\"\n")[..]);
    let sc = &db.film[0];
    assert_eq!(sc.begin, Some(58));
    assert_eq!(sc.end, Some(-90));
    assert_eq!(sc.length, Some(45));
    let db = ok(&one_entry("begin: \"-2147483648\"\n")[..]);
    assert_eq!(db.film[0].begin, Some(i32::MIN));
}

#[test]
fn out_of_range_duration_components_are_rejected() {
    assert!(matches!(
        err(&one_entry("begin: \"2147483648\"\n")[..]),
        ParserError::ExpectedString
    ));
    assert!(matches!(
        err(&one_entry("begin: \"-2147483649\"\n")[..]),
        ParserError::ExpectedString
    ));
    assert!(matches!(
        err(&one_entry("begin: \"--2\"\n")[..]),
        ParserError::ExpectedString
    ));
    // the fold itself must stay within the i32 range
    assert!(matches!(
        err(&one_entry("begin: \"2000000000:0\"\n")[..]),
        ParserError::ExpectedString
    ));
}

#[test]
fn malformed_duration_component_is_rejected() {
    let e = err(&one_entry("begin: \"1:xx\"\n")[..]);
    assert!(matches!(e, ParserError::ExpectedString));
    let e = err(&one_entry("begin: \"1:\"\n")[..]);
    assert!(matches!(e, ParserError::ExpectedString));
}

#[test]
fn basic_shortcut_expands_and_overwrites_explicit_fields() {
    let db = ok(&one_entry("basic: 1999\n")[..]);
    let sc = &db.film[0];
    assert_eq!(sc.year, Some(1999));
    assert_eq!(sc.num_girls, 1);
    assert_eq!(sc.num_boys, 1);
    // the expansion runs after the object is read, so it overwrites an
    // explicit numGirls in the same object
    let db = ok(&one_entry("basic: 1999\nnumGirls: 3\n")[..]);
    let sc = &db.film[0];
    assert_eq!(sc.num_girls, 1);
    assert_eq!(sc.num_boys, 1);
    assert_eq!(sc.year, Some(1999));
}

#[test]
fn optional_string_fields_carry_over() {
    let db = ok(&one_entry(
        "name: \"A b\"\nthumbFileName: t\nwebSite: w\nactors: ac\ncmdParm: cp\nnotes: n\nscore: 7\nyear: 2001\n",
    )[..]);
    let sc = &db.film[0];
    assert_eq!(sc.name, Some(b"A b".to_vec()));
    assert_eq!(sc.thumb_file_name, Some(b"t".to_vec()));
    assert_eq!(sc.website, Some(b"w".to_vec()));
    assert_eq!(sc.actors, Some(b"ac".to_vec()));
    assert_eq!(sc.cmd_parm, Some(b"cp".to_vec()));
    assert_eq!(sc.notes, Some(b"n".to_vec()));
    assert_eq!(sc.score, 7);
    assert_eq!(sc.year, Some(2001));
}

#[test]
fn duplicate_keys_keep_the_last_value() {
    let db = ok(&one_entry("name: first\nname: second\n")[..]);
    assert_eq!(db.film[0].name, Some(b"second".to_vec()));
}

#[test]
fn unknown_header_key_fails() {
    let e = err(b"type: pr0wser3\nfoo: \"bar\"\nbaseDir: b\n");
    match e {
        ParserError::UnknownKey(k) => assert_eq!(k, b"foo".to_vec()),
        _ => panic!("expected UnknownKey"),
    }
}

#[test]
fn missing_file_name_fails() {
    let s = b"type: pr0wser3\nbaseDir: b\n{ directory: d tags: \"\" numGirls: 0 numBoys: 0 }";
    match err(s) {
        ParserError::KeyNotFound(k) => assert_eq!(k, b"fileName".to_vec()),
        _ => panic!("expected KeyNotFound"),
    }
}

#[test]
fn missing_mandatory_fields_fail() {
    let s = b"type: pr0wser3\nbaseDir: b\n{ fileName: f tags: \"\" numGirls: 0 numBoys: 0 }";
    match err(s) {
        ParserError::KeyNotFound(k) => assert_eq!(k, b"directory".to_vec()),
        _ => panic!("expected KeyNotFound"),
    }
    let s = b"type: pr0wser3\nbaseDir: b\n{ fileName: f directory: d tags: \"\" numBoys: 0 }";
    match err(s) {
        ParserError::KeyNotFound(k) => assert_eq!(k, b"numGirls".to_vec()),
        _ => panic!("expected KeyNotFound"),
    }
    let s = b"type: pr0wser3\nbaseDir: b\n{ fileName: f directory: d numGirls: 0 numBoys: 0 }";
    match err(s) {
        ParserError::KeyNotFound(k) => assert_eq!(k, b"tags".to_vec()),
        _ => panic!("expected KeyNotFound for tags"),
    }
}

#[test]
fn unterminated_quote_fails_with_unexpected_end() {
    let e = err(b"type: pr0wser3\nbaseDir: \"no end");
    assert!(matches!(e, ParserError::UnexpectedEnd));
}

#[test]
fn truncated_entry_fails_with_unexpected_end() {
    // inside an object, a missing value is a value-position mismatch against
    // the end of the input
    let e = err(b"type: pr0wser3\nbaseDir: b\n{ fileName: ");
    match e {
        ParserError::ExpectedToken(ete) => {
            assert_eq!(ete.expected.render(), b"\"<value>\"".to_vec());
            assert_eq!(ete.found.render(), b"<EOF>".to_vec());
        },
        _ => panic!("expected ExpectedToken"),
    }
    // a header line cut off after its key ends with UnexpectedEnd
    let e = err(b"type: pr0wser3\nbaseDir");
    assert!(matches!(e, ParserError::UnexpectedEnd));
}

#[test]
fn unknown_format_fails() {
    assert!(matches!(
        err(b"type: pr0wser9\nbaseDir: b\n"),
        ParserError::UnknownFileFormat
    ));
    assert!(matches!(err(b"baseDir: b\n"), ParserError::UnknownFileFormat));
    assert!(matches!(err(b""), ParserError::UnknownFileFormat));
}

#[test]
fn missing_or_empty_base_dir_fails() {
    assert!(matches!(err(b"type: pr0wser3\n"), ParserError::NoBaseDir));
    assert!(matches!(
        err(b"type: pr0wser3\nbaseDir: \"\"\n"),
        ParserError::NoBaseDir
    ));
}

#[test]
fn header_number_value_fails_expected_string() {
    assert!(matches!(
        err(b"type: pr0wser3\nbaseDir: 5\n"),
        ParserError::ExpectedString
    ));
}

#[test]
fn missing_colon_fails_expected_token() {
    let e = err(b"type pr0wser3\n");
    match e {
        ParserError::ExpectedToken(ete) => {
            assert_eq!(ete.expected.render(), b"':'".to_vec());
            assert_eq!(ete.found.render(), b"\"pr0wser3\"".to_vec());
        },
        _ => panic!("expected ExpectedToken"),
    }
}

#[test]
fn header_tags_object_is_collected() {
    let db = ok(b"type: pr0wser3\ntags: { a: \"1\" b: \"two words\" }\nbaseDir: b\n");
    assert_eq!(db.tags.len(), 2);
    assert_eq!(db.tags[0], (b"a".to_vec(), b"1".to_vec()));
    assert_eq!(db.tags[1], (b"b".to_vec(), b"two words".to_vec()));
}

#[test]
fn object_value_under_type_key_is_no_accepted_format() {
    // an object value stands in for the literal "tags object" in the key
    // dispatch, so it never matches a format tag
    assert!(matches!(
        err(b"type: { }\nbaseDir: b\n"),
        ParserError::UnknownFileFormat
    ));
}

#[test]
fn string_value_under_tags_key_is_ignored() {
    let db = ok(b"type: pr0wser3\ntags: words\nbaseDir: b\n");
    assert!(db.tags.is_empty());
}

#[test]
fn object_value_under_base_dir_key_stands_in_for_its_label() {
    // any object value is recorded as the tag dictionary and enters the key
    // dispatch as the literal "tags object"
    let db = ok(b"type: pr0wser3\nbaseDir: { a: \"1\" }\n");
    assert_eq!(db.base_dir, b"tags object".to_vec());
    assert_eq!(db.tags, vec![(b"a".to_vec(), b"1".to_vec())]);
}

#[test]
fn numeric_pairs_of_the_tags_object_are_dropped() {
    let db = ok(b"type: pr0wser3\ntags: { a: \"1\" n: 5 }\nbaseDir: b\n");
    assert_eq!(db.tags, vec![(b"a".to_vec(), b"1".to_vec())]);
}

#[test]
fn empty_entry_object_misses_its_tags() {
    let e = err(b"type: pr0wser3\nbaseDir: b\n{ }");
    match e {
        ParserError::KeyNotFound(k) => assert_eq!(k, b"tags".to_vec()),
        _ => panic!("expected KeyNotFound"),
    }
}

#[test]
fn stray_token_in_entry_position_fails() {
    let e = err(b"type: pr0wser3\nbaseDir: b\n:");
    match e {
        ParserError::ExpectedToken(ete) => {
            assert_eq!(ete.expected.render(), b"'{'".to_vec());
            assert_eq!(ete.found.render(), b"':'".to_vec());
        },
        _ => panic!("expected ExpectedToken"),
    }
}

#[test]
fn error_messages_render() {
    assert_eq!(
        err(b"").message(),
        b"Unknown file format".to_vec()
    );
    assert_eq!(
        err(b"type: pr0wser3\n").message(),
        b"No baseDir given".to_vec()
    );
    assert_eq!(
        err(b"type: pr0wser3\nfoo: x\nbaseDir: b\n").message(),
        b"Unknown assignment foo".to_vec()
    );
    assert_eq!(
        err(b"type: pr0wser3\nbaseDir: \"x").message(),
        b"Unexpected end of file".to_vec()
    );
    assert_eq!(
        err(b"type pr0wser3\n").message(),
        b"Expected ':', found \"pr0wser3\"".to_vec()
    );
}

#[test]
fn entry_key_must_be_a_string() {
    let e = err(b"type: pr0wser3\nbaseDir: b\n{ 5: x }");
    match e {
        ParserError::ExpectedToken(ete) => {
            assert_eq!(ete.expected.render(), b"\"<key>\"".to_vec());
            assert_eq!(ete.found.render(), b"number <5>".to_vec());
        },
        _ => panic!("expected ExpectedToken"),
    }
}

#[test]
fn entry_value_must_be_string_or_number() {
    let e = err(b"type: pr0wser3\nbaseDir: b\n{ a: } }");
    match e {
        ParserError::ExpectedToken(ete) => {
            assert_eq!(ete.expected.render(), b"\"<value>\"".to_vec());
            assert_eq!(ete.found.render(), b"'}'".to_vec());
        },
        _ => panic!("expected ExpectedToken"),
    }
}
