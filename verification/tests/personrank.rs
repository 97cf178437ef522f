use cracking::graph::load_person_csv::Person;
use cracking::graph::personrank::{get_out_degree, get_vertices, out_degree};

fn person(id: i64) -> Person {
    Person { id, first_name: String::from("A"), last_name: String::from("B") }
}

#[test]
fn vertices_are_the_ids_in_order() {
    let people = vec![person(7), person(3), person(12)];
    assert_eq!(get_vertices(&people), vec![7, 3, 12]);
    assert_eq!(get_vertices(&Vec::new()), Vec::<i64>::new());
}

#[test]
fn out_degree_counts_sources_of_vertices() {
    let vertices = vec![1, 2, 3, 4];
    let src = vec![1, 1, 2, 1, 9, 3, 9];
    let d = get_out_degree(&vertices, &src);
    assert_eq!(d.len(), 4);
    assert_eq!(d[&1], 3);
    assert_eq!(d[&2], 1);
    assert_eq!(d[&3], 1);
    assert_eq!(d[&4], 0);
    assert!(!d.contains_key(&9));
}

#[test]
fn out_degree_without_edges_is_zero() {
    let d = get_out_degree(&vec![5, 6], &Vec::new());
    assert_eq!(d.len(), 2);
    assert_eq!(d[&5], 0);
    assert_eq!(d[&6], 0);
}

#[test]
fn out_degree_of_one_vertex() {
    let col = [4, 2, 4, 4, 7];
    assert_eq!(out_degree(&col, 4), 3);
    assert_eq!(out_degree(&col, 7), 1);
    assert_eq!(out_degree(&col, 5), 0);
    assert_eq!(out_degree(&[], 5), 0);
}
