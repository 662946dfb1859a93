use model::model::{Call, Data, Person};
use model::store::Worker;

fn person(id: u64, name: &str, location: &str, year: u16) -> Person {
    Person::new(id, name.to_string(), location.to_string(), year)
}

fn kansas() -> Worker {
    let mut data = Data::new();
    data.insert("1".to_string(), person(1, "rakin", "Kansas City", 2018));
    data.insert("2".to_string(), person(2, "amina", "Kansas City", 2019));
    data.insert("3".to_string(), person(3, "rakin", "Wichita", 2018));
    Worker::new(23001, data)
}

#[test]
fn year_query_keeps_location_and_year() {
    let mut data = Data::new();
    data.insert("1".to_string(), person(1, "rakin", "Kansas City", 2018));
    data.insert("2".to_string(), person(2, "amina", "Kansas City", 2019));
    let worker = Worker::new(23001, data);
    let r = worker.get_by_year("Kansas City".to_string(), 2018);
    assert_eq!(r.len(), 1);
    let p = r.get(&"1".to_string()).unwrap();
    assert_eq!(p.record_id, 1);
    assert_eq!(p.name, "rakin");
    assert_eq!(p.location, "Kansas City");
    assert_eq!(p.year, 2018);
}

#[test]
fn name_query_is_exact() {
    let w = kansas();
    let r = w.get_by_name("rakin".to_string());
    assert_eq!(r.len(), 2);
    assert!(r.get(&"1".to_string()).is_some());
    assert!(r.get(&"3".to_string()).is_some());
    assert_eq!(w.get_by_name("Rakin".to_string()).len(), 0);
    assert_eq!(w.get_by_name("rak".to_string()).len(), 0);
}

#[test]
fn location_query_is_exact() {
    let w = kansas();
    let r = w.get_by_location("Kansas City".to_string());
    assert_eq!(r.len(), 2);
    assert!(r.get(&"1".to_string()).is_some());
    assert!(r.get(&"2".to_string()).is_some());
    assert_eq!(w.get_by_location("kansas city".to_string()).len(), 0);
}

#[test]
fn repeated_query_gives_same_result() {
    let w = kansas();
    let call = Call::Location { location: "Kansas City".to_string() };
    let a = w.query(&call);
    let b = w.query(&call);
    assert_eq!(a.len(), b.len());
    for key in ["1", "2", "3"] {
        let k = key.to_string();
        assert_eq!(a.get(&k).map(|p| p.record_id), b.get(&k).map(|p| p.record_id));
    }
    assert_eq!(w.get_by_location("Kansas City".to_string()).len(), 2);
}

#[test]
fn empty_store_answers_nothing() {
    let w = Worker::new(1, Data::new());
    assert_eq!(w.get_by_name("rakin".to_string()).len(), 0);
    assert_eq!(w.port(), 1);
}

#[test]
fn handle_decodes_then_queries() {
    let w = kansas();
    let r = w.handle(br#"{"Name":{"name":"amina"}}"#).unwrap();
    assert_eq!(r.len(), 1);
    assert_eq!(r.get(&"2".to_string()).unwrap().record_id, 2);
    assert!(w.handle(b"{\"Na").is_err());
}

#[test]
fn insert_replaces_and_extend_prefers_later() {
    let mut a = Data::new();
    a.insert("5".to_string(), person(5, "x", "A", 1));
    a.insert("5".to_string(), person(50, "y", "A", 1));
    assert_eq!(a.len(), 1);
    assert_eq!(a.get(&"5".to_string()).unwrap().record_id, 50);
    let mut b = Data::new();
    b.insert("5".to_string(), person(500, "z", "B", 2));
    b.insert("6".to_string(), person(6, "w", "B", 2));
    a.extend(&b);
    assert_eq!(a.len(), 2);
    assert_eq!(a.get(&"5".to_string()).unwrap().record_id, 500);
    assert_eq!(a.get(&"6".to_string()).unwrap().record_id, 6);
}
