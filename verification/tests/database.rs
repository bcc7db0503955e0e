use marblecomic::{
    Comic, ComicDatabase, ComicDatabaseLoadError, DirectoryScan, GetComicNavigationError,
    LoadEntry,
};

fn comic(id: usize, keywords: Vec<(&str, Vec<&str>)>, translations: Vec<(&str, usize)>) -> Comic {
    Comic {
        id,
        comic_name: Some(format!("comic {}", id)),
        description: None,
        keywords: keywords
            .into_iter()
            .map(|(c, ts)| (c.to_string(), ts.into_iter().map(|t| t.to_string()).collect()))
            .collect(),
        translations: translations
            .into_iter()
            .map(|(l, t)| (l.to_string(), t))
            .collect(),
        found: true,
    }
}

fn names(ns: &[&str]) -> Vec<String> {
    ns.iter().map(|n| n.to_string()).collect()
}

#[test]
fn tag_index_follows_declarations() {
    let mut db = ComicDatabase::default();
    db.add_comic("a".to_string(), comic(1, vec![("genre", vec!["comedy", "drama"])], vec![]));
    db.add_comic("b".to_string(), comic(2, vec![("genre", vec!["comedy"])], vec![]));
    let kw = db.keywords();
    assert_eq!(kw.lookup("genre", "comedy"), Some(&vec![1usize, 2usize]));
    assert_eq!(kw.lookup("genre", "drama"), Some(&vec![1usize]));
    assert_eq!(kw.lookup("genre", "horror"), None);
    assert_eq!(kw.lookup("author", "comedy"), None);
}

#[test]
fn translation_category_rules() {
    let mut db = ComicDatabase::default();
    // only the related entries that point back at the record's own id count
    db.add_comic(
        "a".to_string(),
        comic(3, vec![], vec![("english", 3), ("french", 4)]),
    );
    let kw = db.keywords();
    assert_eq!(kw.lookup("translation", "english"), Some(&vec![3usize]));
    assert_eq!(kw.lookup("translation", "french"), None);
}

#[test]
fn translation_category_exists_even_when_empty() {
    let mut db = ComicDatabase::default();
    db.add_comic("a".to_string(), comic(5, vec![], vec![]));
    assert!(db.keywords().has_category("translation"));
    assert!(!db.keywords().has_category("genre"));
}

#[test]
fn load_registers_found_records_only() {
    let mut db = ComicDatabase::default();
    let mut hidden = comic(2, vec![], vec![]);
    hidden.found = false;
    let r = db.load_from_dir(DirectoryScan::Listed {
        directory: "root".to_string(),
        entries: vec![
            LoadEntry::Record { directory: "root/one".to_string(), comic: comic(1, vec![], vec![]) },
            LoadEntry::NoMetadata,
            LoadEntry::Record { directory: "root/two".to_string(), comic: hidden },
        ],
    });
    assert!(r.is_ok());
    assert!(db.get_comic(1).is_some());
    assert!(db.get_comic(2).is_none());
    assert_eq!(db.comic_directory(1), Some(&"root/one".to_string()));
}

#[test]
fn load_fails_fast_and_leaves_nothing_behind() {
    let mut db = ComicDatabase::default();
    let r = db.load_from_dir(DirectoryScan::Listed {
        directory: "root".to_string(),
        entries: vec![
            LoadEntry::Record { directory: "root/one".to_string(), comic: comic(1, vec![], vec![]) },
            LoadEntry::Malformed { path: "root/two/data.json".to_string() },
        ],
    });
    assert_eq!(
        r,
        Err(ComicDatabaseLoadError::CantDeserializeComic("root/two/data.json".to_string()))
    );
    // the whole load failed: not even the first record is visible
    assert!(db.get_comic(1).is_none());
}

#[test]
fn load_error_kinds() {
    let mut db = ComicDatabase::default();
    assert_eq!(
        db.load_from_dir(DirectoryScan::Unlistable { directory: "root".to_string() }),
        Err(ComicDatabaseLoadError::CantReadDirectory("root".to_string()))
    );
    assert_eq!(
        db.load_from_dir(DirectoryScan::Listed {
            directory: "root".to_string(),
            entries: vec![LoadEntry::Unreadable],
        }),
        Err(ComicDatabaseLoadError::CantReadDirEntry("root".to_string()))
    );
    assert_eq!(
        db.load_from_dir(DirectoryScan::Listed {
            directory: "root".to_string(),
            entries: vec![LoadEntry::Unopenable { path: "root/x/data.json".to_string() }],
        }),
        Err(ComicDatabaseLoadError::CantOpenFile("root/x/data.json".to_string()))
    );
}

#[test]
fn navigation_gap_handling() {
    let mut db = ComicDatabase::default();
    db.add_comic("d".to_string(), comic(1, vec![], vec![]));
    let m = db.get_comic_navigation(1, &names(&["0-0.x", "0-2.x"])).unwrap();
    assert_eq!(m.len(), 1);
    assert_eq!(m[0].len(), 3);
    assert_eq!(m[0][0], Some("d/0-0.x".to_string()));
    assert_eq!(m[0][1], None);
    assert_eq!(m[0][2], Some("d/0-2.x".to_string()));
}

#[test]
fn navigation_excludes_reserved_names() {
    let mut db = ComicDatabase::default();
    db.add_comic("d".to_string(), comic(1, vec![], vec![]));
    // the metadata file and temporary files never reach the matrix, even
    // when their names would address a cell
    let m = db
        .get_comic_navigation(1, &names(&["data.json", "1-1.tmp", "0-1.png.tmp", "0-0.png"]))
        .unwrap();
    assert_eq!(m.len(), 1);
    assert_eq!(m[0], vec![Some("d/0-0.png".to_string())]);
}

#[test]
fn navigation_is_memoized_and_idempotent() {
    let mut db = ComicDatabase::default();
    db.add_comic("d".to_string(), comic(1, vec![], vec![]));
    assert_eq!(db.cached_navigation(1), None);
    let first = db.get_comic_navigation(1, &names(&["0-0.png"])).unwrap();
    // the second resolution ignores a listing that says otherwise
    let second = db.get_comic_navigation(1, &names(&["7-7.png", "1-2.gif"])).unwrap();
    assert_eq!(first, second);
    assert_eq!(db.cached_navigation(1), Some(first));
}

#[test]
fn navigation_later_entry_wins_cell() {
    let mut db = ComicDatabase::default();
    db.add_comic("d".to_string(), comic(1, vec![], vec![]));
    let m = db.get_comic_navigation(1, &names(&["0-0.png", "0-0.jpg"])).unwrap();
    assert_eq!(m[0][0], Some("d/0-0.jpg".to_string()));
}

#[test]
fn navigation_ignores_listing_order() {
    let mut db = ComicDatabase::default();
    db.add_comic("d".to_string(), comic(1, vec![], vec![]));
    let m = db.get_comic_navigation(1, &names(&["1-0.x", "0-1.x", "0-0.x"])).unwrap();
    assert_eq!(m.len(), 2);
    assert_eq!(m[0], vec![Some("d/0-0.x".to_string()), Some("d/0-1.x".to_string())]);
    assert_eq!(m[1], vec![Some("d/1-0.x".to_string())]);
}

#[test]
fn navigation_unknown_comic() {
    let mut db = ComicDatabase::default();
    assert_eq!(
        db.get_comic_navigation(99, &names(&[])),
        Err(GetComicNavigationError::ComicDontExist(99))
    );
}

#[test]
fn navigation_error_no_second_token() {
    let mut db = ComicDatabase::default();
    db.add_comic("d".to_string(), comic(1, vec![], vec![]));
    assert_eq!(
        db.get_comic_navigation(1, &names(&["12.png"])),
        Err(GetComicNavigationError::CantGetSplitedDash(1, "12".to_string()))
    );
}

#[test]
fn navigation_error_bad_first_token() {
    let mut db = ComicDatabase::default();
    db.add_comic("d".to_string(), comic(1, vec![], vec![]));
    assert_eq!(
        db.get_comic_navigation(1, &names(&["abc.png"])),
        Err(GetComicNavigationError::CantConvertStringFromPathToInt(
            "abc".to_string(),
            "d/abc.png".to_string()
        ))
    );
}

#[test]
fn navigation_error_bad_second_token() {
    let mut db = ComicDatabase::default();
    db.add_comic("d".to_string(), comic(1, vec![], vec![]));
    assert_eq!(
        db.get_comic_navigation(1, &names(&["1-x.png"])),
        Err(GetComicNavigationError::CantConvertStringFromPathToInt(
            "x".to_string(),
            "d/1-x.png".to_string()
        ))
    );
}

#[test]
fn navigation_hidden_file_is_not_an_extension() {
    let mut db = ComicDatabase::default();
    db.add_comic("d".to_string(), comic(1, vec![], vec![]));
    // ".tmp" has no extension, so it is not excluded; its stem ".tmp"
    // fails to read as a number
    assert_eq!(
        db.get_comic_navigation(1, &names(&[".tmp"])),
        Err(GetComicNavigationError::CantConvertStringFromPathToInt(
            ".tmp".to_string(),
            "d/.tmp".to_string()
        ))
    );
}

#[test]
fn navigation_extra_tokens_are_ignored() {
    let mut db = ComicDatabase::default();
    db.add_comic("d".to_string(), comic(1, vec![], vec![]));
    let m = db.get_comic_navigation(1, &names(&["3-4-9.png"])).unwrap();
    assert_eq!(m.len(), 4);
    assert_eq!(m[3][4], Some("d/3-4-9.png".to_string()));
}

#[test]
fn comics_store_is_reachable() {
    let mut db = ComicDatabase::default();
    db.add_comic("a".to_string(), comic(4, vec![], vec![]));
    let store = db.comics();
    assert_eq!(store.len(), 1);
    let (dir, c) = store.get(4).unwrap();
    assert_eq!(dir, "a");
    assert_eq!(c.id, 4);
    assert_eq!(db.get_comic(4).unwrap().comic_name, Some("comic 4".to_string()));
}

#[test]
fn keyword_entries_expose_registration_order() {
    let mut db = ComicDatabase::default();
    db.add_comic("a".to_string(), comic(1, vec![("genre", vec!["comedy"])], vec![]));
    db.add_comic("b".to_string(), comic(2, vec![("author", vec!["someone"])], vec![]));
    let cats: Vec<&str> = db.keywords().entries().iter().map(|(c, _)| c.as_str()).collect();
    assert_eq!(cats, vec!["genre", "translation", "author"]);
}
