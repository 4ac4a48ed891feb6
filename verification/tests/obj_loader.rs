use planet_raster::obj_loader::{parse_line, parse_vertex_index, split_words, ObjLine, Span};

fn words(line: &str) -> Vec<String> {
    split_words(line.as_bytes())
        .iter()
        .map(|s| line[s.start..s.end].to_string())
        .collect()
}

/// The index the standard library reads from a word, for comparison.
fn by_the_standard_library(word: &str) -> Option<usize> {
    let n = word.split('/').next().unwrap_or("0").parse::<usize>().unwrap_or(0);
    if n > 0 {
        Some(n - 1)
    } else {
        None
    }
}

#[test]
fn words_are_split_at_blanks_and_tabs() {
    assert_eq!(words("v 1.0 2.0 3.0"), vec!["v", "1.0", "2.0", "3.0"]);
    assert_eq!(words("  f\t1/2/3   4//5\t\t6 \r"), vec!["f", "1/2/3", "4//5", "6"]);
    assert_eq!(words("single"), vec!["single"]);
    assert_eq!(words("a b"), vec!["a", "b"]);
    assert!(words("").is_empty());
    assert!(words(" \t \r\n").is_empty());
}

#[test]
fn words_agree_with_the_standard_library() {
    for line in ["v 1 2 3", "  lead", "trail  ", "\ta\tb\x0Bc\x0Cd  e\r\n", "x", " ", "f 1/1 2/2 3/3"] {
        let want: Vec<String> = line.split_whitespace().map(|w| w.to_string()).collect();
        assert_eq!(words(line), want, "{:?}", line);
    }
}

#[test]
fn spans_give_the_place_of_each_word() {
    assert_eq!(
        split_words(b" ab  c"),
        vec![Span { start: 1, end: 3 }, Span { start: 5, end: 6 }]
    );
}

#[test]
fn vertex_index_counts_from_one() {
    assert_eq!(parse_vertex_index(b"1"), Some(0));
    assert_eq!(parse_vertex_index(b"12"), Some(11));
    assert_eq!(parse_vertex_index(b"12/7/9"), Some(11));
    assert_eq!(parse_vertex_index(b"3//4"), Some(2));
    assert_eq!(parse_vertex_index(b"+7"), Some(6));
    assert_eq!(parse_vertex_index(b"007"), Some(6));
    assert_eq!(parse_vertex_index(b"0"), None);
    assert_eq!(parse_vertex_index(b"000/5"), None);
    assert_eq!(parse_vertex_index(b""), None);
    assert_eq!(parse_vertex_index(b"/3"), None);
    assert_eq!(parse_vertex_index(b"+"), None);
    assert_eq!(parse_vertex_index(b"++1"), None);
    assert_eq!(parse_vertex_index(b"-1"), None);
    assert_eq!(parse_vertex_index(b"1x"), None);
    assert_eq!(parse_vertex_index(b"x1"), None);
    assert_eq!(parse_vertex_index(b"1.5"), None);
}

#[test]
fn vertex_index_stops_at_the_machine_range() {
    let max = usize::MAX.to_string();
    assert_eq!(parse_vertex_index(max.as_bytes()), Some(usize::MAX - 1));
    let mut beyond = max.clone();
    let last = beyond.pop().unwrap();
    beyond.push((last as u8 + 1) as char);
    assert_eq!(parse_vertex_index(beyond.as_bytes()), None);
    let longer = format!("{}0", max);
    assert_eq!(parse_vertex_index(longer.as_bytes()), None);
    let padded = format!("0000000000{}/1", max);
    assert_eq!(parse_vertex_index(padded.as_bytes()), Some(usize::MAX - 1));
}

#[test]
fn vertex_index_agrees_with_the_standard_library() {
    let max = usize::MAX.to_string();
    let over = format!("{}1", max);
    for word in [
        "1", "42", "42/1/2", "0", "", "/", "+3", "+", "-3", "3-", " 3", "0x10", "99999999999",
        "18446744073709551615", "18446744073709551616", "28446744073709551615", "1e3", "٣",
        max.as_str(), over.as_str(),
    ] {
        assert_eq!(parse_vertex_index(word.as_bytes()), by_the_standard_library(word), "{:?}", word);
    }
}

#[test]
fn vertex_line_gives_the_three_coordinate_words() {
    let line = "v 1.5 -2 3e1";
    let (_, meaning) = parse_line(line.as_bytes());
    match meaning {
        ObjLine::Vertex { x, y, z } => {
            assert_eq!(&line[x.start..x.end], "1.5");
            assert_eq!(&line[y.start..y.end], "-2");
            assert_eq!(&line[z.start..z.end], "3e1");
        }
        other => panic!("{:?}", other),
    }
    let line = "\tv  0 1 2 0.5 extra";
    match parse_line(line.as_bytes()).1 {
        ObjLine::Vertex { x, y, z } => {
            assert_eq!(&line[x.start..x.end], "0");
            assert_eq!(&line[y.start..y.end], "1");
            assert_eq!(&line[z.start..z.end], "2");
        }
        other => panic!("{:?}", other),
    }
}

#[test]
fn short_vertex_line_is_passed_over() {
    assert_eq!(parse_line(b"v 1 2").1, ObjLine::Other);
    assert_eq!(parse_line(b"v").1, ObjLine::Other);
}

#[test]
fn face_line_gives_indices_from_zero() {
    assert_eq!(parse_line(b"f 1 2 3").1, ObjLine::Face { indices: vec![0, 1, 2] });
    assert_eq!(
        parse_line(b"f 4/1/1 3/2/1 2/3/1 1/4/1").1,
        ObjLine::Face { indices: vec![3, 2, 1, 0] }
    );
    assert_eq!(parse_line(b"  f 10//2 11//2 12//2 \r").1, ObjLine::Face { indices: vec![9, 10, 11] });
}

#[test]
fn face_line_passes_over_words_that_name_no_vertex() {
    assert_eq!(parse_line(b"f 1 0 2 x 3").1, ObjLine::Face { indices: vec![0, 1, 2] });
    assert_eq!(parse_line(b"f 1 2 -3 4").1, ObjLine::Face { indices: vec![0, 1, 3] });
}

#[test]
fn face_of_fewer_than_three_vertices_is_passed_over() {
    assert_eq!(parse_line(b"f 1 2").1, ObjLine::Other);
    assert_eq!(parse_line(b"f 1 2 0").1, ObjLine::Other);
    assert_eq!(parse_line(b"f").1, ObjLine::Other);
}

#[test]
fn other_lines_are_passed_over() {
    for line in ["", "   ", "# v 1 2 3", "vn 0 0 1", "vt 0.5 0.5", "g body", "ff 1 2 3", "V 1 2 3", "o f 1 2 3"] {
        assert_eq!(parse_line(line.as_bytes()).1, ObjLine::Other, "{:?}", line);
    }
}

#[test]
fn a_small_mesh_read_line_by_line() {
    let text = "# a square\nv 0 0 0\nv 1 0 0\nv 1 1 0\nv 0 1 0\n\nvn 0 0 1\nf 1//1 2//1 3//1 4//1\nf 1 3\n";
    let mut vertices: Vec<[f32; 3]> = Vec::new();
    let mut faces: Vec<Vec<usize>> = Vec::new();
    for line in text.lines() {
        match parse_line(line.as_bytes()).1 {
            ObjLine::Vertex { x, y, z } => {
                let read = |s: Span| line[s.start..s.end].parse::<f32>().unwrap_or(0.0);
                vertices.push([read(x), read(y), read(z)]);
            }
            ObjLine::Face { indices } => faces.push(indices),
            ObjLine::Other => {}
        }
    }
    assert_eq!(vertices, vec![[0.0, 0.0, 0.0], [1.0, 0.0, 0.0], [1.0, 1.0, 0.0], [0.0, 1.0, 0.0]]);
    assert_eq!(faces, vec![vec![0, 1, 2, 3]]);
}
