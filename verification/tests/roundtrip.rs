use pr0wser::dbfiles::absolute_directory;
use pr0wser::scenedatabase::{parse, Scene, SceneDatabase};

fn s(v: &[u8]) -> String {
    String::from_utf8(v.to_vec()).unwrap()
}

/// A format-preserving writer, as an external collaborator would keep one.
fn write_db(db: &SceneDatabase) -> Vec<u8> {
    let mut out = String::new();
    out.push_str("type: pr0wser4\n");
    out.push_str(&format!("baseDir: \"{}\"\n", s(&db.base_dir)));
    if let Some(d) = &db.def_search {
        out.push_str(&format!("defSearch: \"{}\"\n", s(d)));
    }
    if !db.tags.is_empty() {
        out.push_str("tags: {\n");
        for (k, v) in &db.tags {
            out.push_str(&format!("  {}: \"{}\"\n", s(k), s(v)));
        }
        out.push_str("}\n");
    }
    for sc in &db.film {
        out.push_str("{\n");
        out.push_str(&format!("  fileName: \"{}\"\n", s(&sc.file_name)));
        out.push_str(&format!("  directory: \"{}\"\n", s(&sc.directory)));
        let tags: Vec<String> = sc.tags.iter().map(|t| s(t)).collect();
        out.push_str(&format!("  tags: \"{}\"\n", tags.join(",")));
        out.push_str(&format!("  numGirls: {}\n", sc.num_girls));
        out.push_str(&format!("  numBoys: {}\n", sc.num_boys));
        if let Some(n) = &sc.name {
            out.push_str(&format!("  name: \"{}\"\n", s(n)));
        }
        if let Some(v) = &sc.thumb_file_name {
            out.push_str(&format!("  thumbFileName: \"{}\"\n", s(v)));
        }
        if let Some(v) = &sc.website {
            out.push_str(&format!("  webSite: \"{}\"\n", s(v)));
        }
        if let Some(v) = &sc.actors {
            out.push_str(&format!("  actors: \"{}\"\n", s(v)));
        }
        if let Some(v) = &sc.cmd_parm {
            out.push_str(&format!("  cmdParm: \"{}\"\n", s(v)));
        }
        if let Some(v) = &sc.notes {
            out.push_str(&format!("  notes: \"{}\"\n", s(v)));
        }
        if let Some(v) = sc.begin {
            out.push_str(&format!("  begin: {}\n", v));
        }
        if let Some(v) = sc.end {
            out.push_str(&format!("  end: {}\n", v));
        }
        if let Some(v) = sc.length {
            out.push_str(&format!("  length: {}\n", v));
        }
        if let Some(v) = sc.year {
            out.push_str(&format!("  year: {}\n", v));
        }
        if sc.score != 0 {
            out.push_str(&format!("  score: {}\n", sc.score));
        }
        out.push_str("}\n");
    }
    out.into_bytes()
}

fn scenes_equal(a: &Scene, b: &Scene) -> bool {
    let mut ta = a.tags.clone();
    let mut tb = b.tags.clone();
    ta.sort();
    tb.sort();
    a.id == b.id && a.file_name == b.file_name && a.name == b.name && a.directory == b.directory
        && a.thumb_file_name == b.thumb_file_name && a.website == b.website
        && a.actors == b.actors && a.cmd_parm == b.cmd_parm && ta == tb && a.begin == b.begin
        && a.end == b.end && a.year == b.year && a.length == b.length
        && a.num_girls == b.num_girls && a.num_boys == b.num_boys && a.score == b.score
        && a.notes == b.notes
}

#[test]
fn round_trip_preserves_the_scenes() {
    let text = b"type: pr0wser4\n\
        baseDir: \"/media/films\"\n\
        defSearch: \"latest:10\"\n\
        tags: { genre: \"what kind\" mood: \"how it feels\" }\n\
        # first entry\n\
        { fileName: \"a.mp4\" directory: \"d1\" tags: \" Action, Drama ,Action\"\n\
          numGirls: 2 numBoys: 1 begin: \"1:30\" length: \"2:00:00\" year: 1999 score: 4\n\
          name: \"First one\" actors: \"A, B\" }\n\
        { fileName: \"b.mp4\" directory: \"d2\" tags: \"\" basic: 2004\n\
          thumbFileName: \"b.jpg\" webSite: \"site\" cmdParm: \"--x\" notes: \"n\" end: 45 }\n";
    let db1 = parse(text).ok().unwrap();
    assert_eq!(db1.film.len(), 2);
    let text2 = write_db(&db1);
    let db2 = parse(&text2).ok().unwrap();
    assert_eq!(db1.base_dir, db2.base_dir);
    assert_eq!(db1.def_search, db2.def_search);
    assert_eq!(db1.tags, db2.tags);
    assert_eq!(db1.film.len(), db2.film.len());
    for (a, b) in db1.film.iter().zip(db2.film.iter()) {
        assert!(scenes_equal(a, b));
    }
}

#[test]
fn absolute_directory_joins_relative_paths() {
    assert_eq!(absolute_directory(b"/base", b"d"), b"/base/d".to_vec());
    assert_eq!(absolute_directory(b"/base/", b"d"), b"/base/d".to_vec());
    assert_eq!(absolute_directory(b"", b"d"), b"d".to_vec());
}

#[test]
fn absolute_directory_lets_an_absolute_path_replace_the_base() {
    assert_eq!(absolute_directory(b"/base", b"/abs/d"), b"/abs/d".to_vec());
}
