use vertex_puzzle::geometry::PuzzleData;
use vertex_puzzle::mesh_model::GeometryError;

fn load(lines: &[&str]) -> Result<PuzzleData, GeometryError> {
    let owned: Vec<String> = lines.iter().map(|l| l.to_string()).collect();
    PuzzleData::from_lines(&owned)
}

fn error_of(lines: &[&str]) -> GeometryError {
    match load(lines) {
        Ok(_) => panic!("accepted"),
        Err(e) => e,
    }
}

#[test]
fn lines_are_told_apart_by_their_token_count() {
    let data = load(&["0 0", "  1.5\t-2e3 ", "0 1", "255 0 0", "1 2 3", "0 1 2 0", "2 1 0 2"]).unwrap();
    assert_eq!(data.num_vertices(), 3);
    assert_eq!(data.num_triangles(), 2);
    assert_eq!(data.colors(), &vec![(255, 0, 0), (1, 2, 3)]);
    let t = data.triangles();
    assert_eq!((t[0].v0, t[0].v1, t[0].v2, t[0].color), (0, 1, 2, 0));
    assert_eq!((t[1].v0, t[1].v1, t[1].v2, t[1].color), (2, 1, 0, 2));
}

#[test]
fn an_empty_description_is_an_empty_mesh() {
    let data = load(&[]).unwrap();
    assert_eq!(data.num_vertices(), 0);
    assert_eq!(data.num_triangles(), 0);
    assert!(data.colors().is_empty());
}

#[test]
fn other_token_counts_are_a_parse_failure() {
    assert_eq!(error_of(&[""]), GeometryError::ParseFailure);
    assert_eq!(error_of(&["   "]), GeometryError::ParseFailure);
    assert_eq!(error_of(&["1"]), GeometryError::ParseFailure);
    assert_eq!(error_of(&["0 0", "1 2 3 4 5"]), GeometryError::ParseFailure);
}

#[test]
fn a_coordinate_that_is_no_number_is_an_invalid_vertex() {
    assert_eq!(error_of(&["0 x"]), GeometryError::InvalidVertex);
    assert_eq!(error_of(&["1e 0"]), GeometryError::InvalidVertex);
    assert_eq!(error_of(&["0 0", ". 1"]), GeometryError::InvalidVertex);
    assert!(load(&["inf -NaN", "+.5 5.", "1E-2 -infinity"]).is_ok());
}

#[test]
fn a_channel_out_of_range_is_an_invalid_color() {
    assert_eq!(error_of(&["256 0 0"]), GeometryError::InvalidColor);
    assert_eq!(error_of(&["0 -1 0"]), GeometryError::InvalidColor);
    assert_eq!(error_of(&["0 0 1.0"]), GeometryError::InvalidColor);
    assert_eq!(error_of(&["0 0 red"]), GeometryError::InvalidColor);
    assert!(load(&["+255 000 0"]).is_ok());
}

#[test]
fn a_triangle_must_name_three_known_vertices() {
    let head = ["0 0", "1 0", "0 1", "9 9 9"];
    let with = |line: &'static str| {
        let mut all: Vec<&str> = head.to_vec();
        all.push(line);
        all
    };
    assert_eq!(error_of(&with("0 1 3 0")), GeometryError::InvalidTriangle);
    assert_eq!(error_of(&with("0 1 1 0")), GeometryError::InvalidTriangle);
    assert_eq!(error_of(&with("2 1 2 0")), GeometryError::InvalidTriangle);
    assert_eq!(error_of(&with("0 0 1 0")), GeometryError::InvalidTriangle);
    assert_eq!(error_of(&with("0 1 x 0")), GeometryError::InvalidTriangle);
    assert_eq!(error_of(&with("0 1 2 x")), GeometryError::InvalidTriangle);
    assert_eq!(error_of(&with("0 1 -2 0")), GeometryError::InvalidTriangle);
    assert_eq!(error_of(&with("0 1 4294967296 0")), GeometryError::InvalidTriangle);
    assert!(load(&with("0 1 2 0")).is_ok());
}

#[test]
fn a_colour_index_may_equal_the_number_of_colours() {
    let data = load(&["0 0", "1 0", "0 1", "9 9 9", "0 1 2 1"]).unwrap();
    assert_eq!(data.triangles()[0].color, 1);
    assert_eq!(
        error_of(&["0 0", "1 0", "0 1", "9 9 9", "0 1 2 2"]),
        GeometryError::InvalidTriangle
    );
    assert!(load(&["0 0", "1 0", "0 1", "0 1 2 0"]).is_ok());
}

#[test]
fn a_triangle_sees_only_what_was_read_before_it() {
    assert_eq!(
        error_of(&["0 0", "1 0", "0 1 2 0", "0 1", "9 9 9"]),
        GeometryError::InvalidTriangle
    );
    assert_eq!(
        error_of(&["0 0", "1 0", "0 1", "0 1 2 1", "9 9 9"]),
        GeometryError::InvalidTriangle
    );
}

#[test]
fn the_first_bad_line_gives_the_error() {
    assert_eq!(error_of(&["0 0", "300 0 0", "x y", "1"]), GeometryError::InvalidColor);
    assert_eq!(error_of(&["0 0", "x y", "300 0 0"]), GeometryError::InvalidVertex);
    assert_eq!(error_of(&["1 2 3 4 5", "x y"]), GeometryError::ParseFailure);
}

#[test]
fn edges_are_canonical_pairs_of_the_corners() {
    let data = load(&["0 0", "1 0", "0 1", "1 1", "2 0 3 0"]).unwrap();
    assert_eq!(data.get_edges_for_triangle(0), vec![(0, 2), (2, 3), (0, 3)]);
    assert_eq!(data.edges_of_triangle(0), &[(0, 2), (2, 3), (0, 3)]);
}

#[test]
fn adjacency_of_two_triangles_sharing_an_edge() {
    let data = load(&["0 0", "1 0", "0 1", "1 1", "5 5", "0 1 2 0", "3 2 1 0"]).unwrap();
    assert_eq!(data.triangles_with_edge(&(1, 2)), Some(&vec![0, 1]));
    assert_eq!(data.triangles_with_edge(&(0, 1)), Some(&vec![0]));
    assert_eq!(data.triangles_with_edge(&(0, 2)), Some(&vec![0]));
    assert_eq!(data.triangles_with_edge(&(2, 3)), Some(&vec![1]));
    assert_eq!(data.triangles_with_edge(&(1, 3)), Some(&vec![1]));
    assert_eq!(data.triangles_with_edge(&(0, 3)), None);
    assert_eq!(data.triangles_with_edge(&(2, 1)), None);
    assert_eq!(data.triangles_with_edge(&(7, 9)), None);
    assert_eq!(data.num_edges_from_vertex(0), 2);
    assert_eq!(data.num_edges_from_vertex(1), 3);
    assert_eq!(data.num_edges_from_vertex(2), 3);
    assert_eq!(data.num_edges_from_vertex(3), 2);
    assert_eq!(data.num_edges_from_vertex(4), 0);
    assert_eq!(data.num_edges_from_vertex(5), 0);
    assert_eq!(data.num_edges_from_vertex(u32::MAX), 0);
}

#[test]
fn the_same_triangle_twice_is_listed_twice() {
    let data = load(&["0 0", "1 0", "0 1", "0 1 2 0", "1 2 0 0"]).unwrap();
    assert_eq!(data.triangles_with_edge(&(0, 1)), Some(&vec![0, 1]));
    assert_eq!(data.num_edges_from_vertex(0), 2);
}

#[test]
fn any_pair_of_vertices_is_a_valid_edge() {
    let data = load(&["0 0", "1 0", "0 1", "1 1", "0 1 2 0"]).unwrap();
    assert!(data.is_valid_edge(&(0, 3)));
    assert!(data.is_valid_edge(&(3, 0)));
    assert!(data.is_valid_edge(&(2, 2)));
    assert!(!data.is_valid_edge(&(0, 4)));
    assert!(!data.is_valid_edge(&(4, 0)));
    assert!(!data.is_valid_edge(&(u32::MAX, u32::MAX)));
}

#[test]
fn static_picture_lays_out_corners_and_colours() {
    let data = load(&["0 0", "1 0", "0 1", "1 1", "255 0 16", "1 2 3", "0 1 2 1", "3 2 1 0"]).unwrap();
    let picture = data.get_static_graphics_data();
    assert_eq!(picture.num_vertices, 4);
    assert_eq!(picture.triangle_vertex_indices, vec![0, 1, 2, 3, 2, 1]);
    assert_eq!(picture.triangle_color_idx_vertices, vec![1, 1, 1, 0, 0, 0]);
    assert_eq!(picture.colors_uniform, vec![255, 0, 16, 1, 2, 3]);
}

#[test]
fn the_first_vertex_within_reach_is_meant() {
    let data = load(&["0 0", "1 0", "0 1", "1 1"]).unwrap();
    assert_eq!(data.get_vertex_near(&vec![false, false, false, false]), None);
    assert_eq!(data.get_vertex_near(&vec![false, true, false, true]), Some(1));
    assert_eq!(data.get_vertex_near(&vec![true, true, true, true]), Some(0));
    assert_eq!(data.get_vertex_near(&vec![false, false, false, true]), Some(3));
    let none = load(&[]).unwrap();
    assert_eq!(none.get_vertex_near(&vec![]), None);
}
