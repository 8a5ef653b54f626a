use club_ranking::catalog::{list_all, players_from_people};
use club_ranking::rows::PersonRow;

fn person(id: i64, name: &str) -> PersonRow {
    PersonRow { id, name: String::from(name) }
}

#[test]
fn list_all_sorts_by_name_ascending() {
    let people = vec![person(1, "Cara"), person(2, "Alma"), person(3, "Bo")];
    let r = list_all(&people);
    let names: Vec<&str> = r.iter().map(|p| p.name.as_str()).collect();
    assert_eq!(names, vec!["Alma", "Bo", "Cara"]);
}

#[test]
fn list_all_keeps_input_order_for_equal_names() {
    let people = vec![person(5, "Bob"), person(2, "Bob"), person(9, "Ann")];
    let r = list_all(&people);
    assert_eq!(r.len(), 3);
    assert_eq!(r[0].name, "Ann");
    // the two rows named Bob keep their input order
    assert_eq!(r[1].id, 5);
    assert_eq!(r[2].id, 2);
}

#[test]
fn list_all_is_identical_on_repeated_calls() {
    let people = vec![person(4, "Nia"), person(1, "Mo"), person(8, "Zed"), person(3, "Mo")];
    let a = list_all(&people);
    let b = list_all(&people);
    assert_eq!(a, b);
}

#[test]
fn list_all_of_no_people_is_empty() {
    let r = list_all(&vec![]);
    assert!(r.is_empty());
}

#[test]
fn players_from_people_keeps_ids_names_and_order() {
    let people = vec![person(3, "Ada"), person(1, "Lin")];
    let r = players_from_people(&people);
    assert_eq!(r.len(), 2);
    assert_eq!(r[0].id, 3);
    assert_eq!(r[0].name, "Ada");
    assert_eq!(r[1].id, 1);
    assert_eq!(r[1].name, "Lin");
}
