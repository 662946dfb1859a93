use model::model::{Call, Data, Group, Person};
use model::router::{DispatchError, Server, Step};
use model::store::Worker;

fn person(id: u64, name: &str, location: &str, year: u16) -> Person {
    Person::new(id, name.to_string(), location.to_string(), year)
}

fn run(server: &Server, workers: &[Worker], call: Call) -> Data {
    let mut d = server.start(call);
    let mut i = 0;
    loop {
        match d.next_step() {
            Step::Ask(port) => {
                assert_eq!(port, workers[i].port());
                let reply = workers[i].query(d.get_call());
                d.on_reply(&reply);
                i += 1;
            }
            Step::Done => break,
        }
    }
    d.finish()
}

#[test]
fn two_workers_merge_disjoint_keys() {
    let mut a = Data::new();
    a.insert("5".to_string(), person(5, "rakin", "Kansas City", 2018));
    let mut b = Data::new();
    b.insert("7".to_string(), person(7, "rakin", "Wichita", 2020));
    let workers = [Worker::new(23001, a), Worker::new(23002, b)];
    let mut server = Server::new(23000);
    server.attach_worker(23001);
    server.attach_worker(23002);
    let r = run(&server, &workers, Call::Name { name: "rakin".to_string() });
    assert_eq!(r.len(), 2);
    assert_eq!(r.get(&"5".to_string()).unwrap().location, "Kansas City");
    assert_eq!(r.get(&"7".to_string()).unwrap().location, "Wichita");
}

#[test]
fn collision_keeps_later_worker() {
    let mut a = Data::new();
    a.insert("1".to_string(), person(1, "rakin", "Kansas City", 2018));
    let mut b = Data::new();
    b.insert("1".to_string(), person(1, "rakin", "Auckland", 2018));
    let workers = [Worker::new(23001, a), Worker::new(23002, b)];
    let mut server = Server::new(23000);
    server.attach_worker(23001);
    server.attach_worker(23002);
    let call = || Call::Name { name: "rakin".to_string() };
    let first = run(&server, &workers, call());
    let second = run(&server, &workers, call());
    assert_eq!(first.len(), 1);
    assert_eq!(first.get(&"1".to_string()).unwrap().location, "Auckland");
    assert_eq!(second.get(&"1".to_string()).unwrap().location, "Auckland");
}

#[test]
fn no_workers_means_empty_result() {
    let server = Server::new(23000);
    assert_eq!(server.port(), 23000);
    let d = server.start(Call::Location { location: "x".to_string() });
    assert_eq!(d.next_step(), Step::Done);
    assert_eq!(d.finish().len(), 0);
}

#[test]
fn begin_rejects_bad_datagram_and_names_silent_worker() {
    let mut server = Server::new(23000);
    server.attach_worker(23001);
    assert!(server.begin(b"garbage").is_err());
    let d = server.begin(br#"{"Location":{"location":"Kansas City"}}"#).unwrap();
    assert_eq!(d.next_step(), Step::Ask(23001));
    assert_eq!(d.give_up(), DispatchError::PeerUnreachable(23001));
    assert_eq!(server.workers().len(), 1);
}

#[test]
fn group_names() {
    assert_eq!(Group::try_from("am".to_string()), Ok(Group::Am));
    assert_eq!(Group::try_from("NZ".to_string()), Ok(Group::Nz));
    assert_eq!(
        Group::try_from("eu".to_string()),
        Err("The only valid groups are `am` and `nz`.")
    );
    assert_eq!(Group::from_lowered("NZ"), None);
    assert_eq!(Group::Am.to_string(), "am");
    assert_eq!(Group::Unimplemented.to_string(), "unimplemented");
}
