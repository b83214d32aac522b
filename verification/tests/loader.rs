use polyanya::loader::{parse_number, parse_numbers, split_words, LoadError, MeshLoader, Phase};

#[test]
fn words_are_stretches_without_blanks() {
    assert_eq!(split_words(b"12 -3  x\t7\r"), vec![b"12".to_vec(), b"-3".to_vec(), b"x".to_vec(), b"7".to_vec()]);
    assert_eq!(split_words(b""), Vec::<Vec<u8>>::new());
    assert_eq!(split_words(b"   "), Vec::<Vec<u8>>::new());
    assert_eq!(split_words(b" a"), vec![b"a".to_vec()]);
}

#[test]
fn numbers_in_base_ten() {
    assert_eq!(parse_number(&b"0".to_vec()), Some(0));
    assert_eq!(parse_number(&b"007".to_vec()), Some(7));
    assert_eq!(parse_number(&b"-1".to_vec()), Some(-1));
    assert_eq!(parse_number(&b"1234567890".to_vec()), Some(1_234_567_890));
    assert_eq!(parse_number(&b"9223372036854775807".to_vec()), Some(i64::MAX));
    assert_eq!(parse_number(&b"-9223372036854775807".to_vec()), Some(-i64::MAX));
    assert_eq!(parse_number(&b"9223372036854775808".to_vec()), None);
    assert_eq!(parse_number(&b"-9223372036854775808".to_vec()), None);
    assert_eq!(parse_number(&b"99999999999999999999999".to_vec()), None);
    assert_eq!(parse_number(&b"".to_vec()), None);
    assert_eq!(parse_number(&b"-".to_vec()), None);
    assert_eq!(parse_number(&b"1-2".to_vec()), None);
    assert_eq!(parse_number(&b"--2".to_vec()), None);
    assert_eq!(parse_number(&b"+2".to_vec()), None);
    assert_eq!(parse_number(&b"1.5".to_vec()), None);
}

#[test]
fn a_line_of_numbers() {
    assert_eq!(parse_numbers(b"4 0 1 5 4 -1 1 3 -1"), Some(vec![4, 0, 1, 5, 4, -1, 1, 3, -1]));
    assert_eq!(parse_numbers(b""), Some(vec![]));
    assert_eq!(parse_numbers(b"1 two 3"), None);
}

fn feed_all(lines: &[&str]) -> Result<MeshLoader, LoadError> {
    let mut loader = MeshLoader::new();
    for line in lines {
        loader.feed(line.as_bytes())?;
    }
    Ok(loader)
}

#[test]
fn a_whole_file() {
    let loader = feed_all(&[
        "mesh",
        "2",
        "6 2",
        "0 0 2 0 -1",
        "1 0 3 0 1 -1",
        "2 0 2 1 -1",
        "2 1 2 1 -1",
        "1 1 3 1 0 -1",
        "0 1 2 0 -1",
        "4 0 1 4 5 -1 1 -1 -1",
        "4 1 2 3 4 -1 -1 -1 0",
    ])
    .unwrap();
    assert!(loader.is_complete());
    assert_eq!(loader.phase, Phase::Polygons);
    let mesh = loader.finish();
    assert_eq!(mesh.vertices.len(), 6);
    assert_eq!(mesh.polygons.len(), 2);
    assert_eq!(mesh.vertices[4].x, 1_000_000);
    assert_eq!(mesh.vertices[4].y, 1_000_000);
    assert_eq!(mesh.vertices[4].polygons, vec![1, 0, -1]);
    assert!(mesh.vertices[4].is_corner);
    assert_eq!(mesh.polygons[1].vertices, vec![1, 2, 3, 4]);
    assert!(mesh.polygons[1].is_one_way);
    assert!(mesh.is_well_formed());
}

#[test]
fn header_lines_are_optional() {
    let loader = feed_all(&["1 0", "5 6 0"]).unwrap();
    assert!(loader.is_complete());
    let mesh = loader.finish();
    assert_eq!(mesh.vertices.len(), 1);
    assert_eq!(mesh.vertices[0].polygons, Vec::<isize>::new());
    assert!(!mesh.vertices[0].is_corner);
}

#[test]
fn a_partial_file_is_not_complete() {
    assert!(!MeshLoader::new().is_complete());
    assert!(!feed_all(&["mesh", "2"]).unwrap().is_complete());
    assert!(!feed_all(&["2 1", "0 0 1 0"]).unwrap().is_complete());
    assert!(!feed_all(&["1 1", "0 0 1 0"]).unwrap().is_complete());
    assert!(feed_all(&["0 0"]).unwrap().is_complete());
}

#[test]
fn a_bad_header() {
    assert_eq!(feed_all(&["mesh", "3"]).err(), Some(LoadError::Header));
    assert_eq!(feed_all(&["1 2 3"]).err(), Some(LoadError::Header));
    assert_eq!(feed_all(&["-1 2"]).err(), Some(LoadError::Header));
    assert_eq!(feed_all(&["a b"]).err(), Some(LoadError::Header));
    assert_eq!(feed_all(&[""]).err(), Some(LoadError::Header));
    assert_eq!(feed_all(&["meshes"]).err(), Some(LoadError::Header));
}

#[test]
fn a_bad_vertex() {
    assert_eq!(feed_all(&["1 0", "5"]).err(), Some(LoadError::Vertex));
    assert_eq!(feed_all(&["1 0", "-5 0 1 0"]).err(), Some(LoadError::Vertex));
    assert_eq!(feed_all(&["1 0", "0 4294967296 1 0"]).err(), Some(LoadError::Vertex));
    assert_eq!(feed_all(&["1 0", "0 0 1 x"]).err(), Some(LoadError::Vertex));
    assert_eq!(feed_all(&["1 0", ""]).err(), Some(LoadError::Vertex));
    assert!(feed_all(&["1 0", "0 4294967295 1 0"]).is_ok());
}

#[test]
fn a_bad_polygon() {
    assert_eq!(feed_all(&["0 1", "3 0 1 2 -1 -1"]).err(), Some(LoadError::Polygon));
    assert_eq!(feed_all(&["0 1", "3 0 1 2 -1 -1 -1 -1"]).err(), Some(LoadError::Polygon));
    assert_eq!(feed_all(&["0 1", "-1"]).err(), Some(LoadError::Polygon));
    assert_eq!(feed_all(&["0 1", ""]).err(), Some(LoadError::Polygon));
    assert_eq!(feed_all(&["0 1", "1 0 z"]).err(), Some(LoadError::Polygon));
    assert!(feed_all(&["0 1", "0"]).is_ok());
}

#[test]
fn a_line_too_many() {
    assert_eq!(feed_all(&["0 0", "1 2 3"]).err(), Some(LoadError::Surplus));
    assert_eq!(
        feed_all(&["0 1", "1 0 -1", "1 0 -1"]).err(),
        Some(LoadError::Surplus)
    );
    assert_eq!(feed_all(&["1 0", "0 0 0", "0 0 0"]).err(), Some(LoadError::Surplus));
}

#[test]
fn a_refused_line_changes_nothing() {
    let mut loader = feed_all(&["1 1", "0 0 1 0"]).unwrap();
    assert_eq!(loader.feed(b"3 0 1"), Err(LoadError::Polygon));
    assert_eq!(loader.nb_polygons, 1);
    assert_eq!(loader.mesh.polygons.len(), 0);
    assert_eq!(loader.mesh.vertices.len(), 1);
    assert_eq!(loader.feed(b"1 0 -1"), Ok(()));
    assert!(loader.is_complete());
}
