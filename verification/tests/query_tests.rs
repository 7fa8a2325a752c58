use duiker::store::RecordStore;

fn store_with(lines: Vec<&str>) -> RecordStore {
    let mut store = RecordStore::new();
    let owned: Vec<String> = lines.iter().map(|l| l.to_string()).collect();
    store.import(&owned).unwrap();
    store
}

#[test]
fn head_orders_by_timestamp_ascending() {
    let store = store_with(vec!["10 first", "30 second", "20 third"]);
    let rows = store.head(2).unwrap();
    let stamps: Vec<i32> = rows.iter().map(|r| r.timestamp).collect();
    assert_eq!(vec![10, 20], stamps);
}

#[test]
fn tail_takes_latest_and_resorts_ascending() {
    let store = store_with(vec!["10 first", "30 second", "20 third"]);
    let rows = store.tail(2).unwrap();
    let stamps: Vec<i32> = rows.iter().map(|r| r.timestamp).collect();
    assert_eq!(vec![20, 30], stamps);
}

#[test]
fn log_keeps_insertion_order() {
    let store = store_with(vec!["10 first", "30 second", "20 third"]);
    let rows = store.log().unwrap();
    let stamps: Vec<i32> = rows.iter().map(|r| r.timestamp).collect();
    assert_eq!(vec![10, 30, 20], stamps);
    assert_eq!(vec!["first", "second", "third"], rows.iter().map(|r| r.command.as_str()).collect::<Vec<&str>>());
}

#[test]
fn head_and_tail_with_zero_or_negative_limit_return_all() {
    let store = store_with(vec!["10 first", "30 second", "20 third"]);
    assert_eq!(3, store.head(0).unwrap().len());
    assert_eq!(3, store.head(-1).unwrap().len());
    assert_eq!(3, store.tail(0).unwrap().len());
    assert_eq!(3, store.tail(-7).unwrap().len());
    assert_eq!(3, store.head(99).unwrap().len());
}

#[test]
fn head_breaks_timestamp_ties_by_insertion() {
    let store = store_with(vec!["10 one", "10 two", "10 three"]);
    let rows = store.head(0).unwrap();
    let cmds: Vec<&str> = rows.iter().map(|r| r.command.as_str()).collect();
    assert_eq!(vec!["one", "two", "three"], cmds);
}

#[test]
fn search_finds_matching_word() {
    let store = store_with(vec!["100 deploy the app", "200 run tests"]);
    let rows = store.search("deploy").unwrap();
    assert_eq!(1, rows.len());
    assert_eq!("deploy the app", rows[0].command);
}

#[test]
fn search_misses_absent_word() {
    let store = store_with(vec!["100 deploy the app", "200 run tests"]);
    let rows = store.search("nonexistent-token").unwrap();
    assert_eq!(0, rows.len());
}

#[test]
fn search_requires_every_query_word() {
    let store = store_with(vec!["100 git push origin", "200 git pull origin"]);
    let rows = store.search("git origin").unwrap();
    assert_eq!(2, rows.len());
    assert_eq!("git push origin", rows[0].command);
    assert_eq!("git pull origin", rows[1].command);
    let rows = store.search("git push").unwrap();
    assert_eq!(1, rows.len());
    assert_eq!("git push origin", rows[0].command);
}

#[test]
fn every_logged_record_is_searchable_by_its_own_words() {
    let store = store_with(vec!["100 deploy the app", "200 run tests", "300 make -j8 all"]);
    for row in store.log().unwrap() {
        for word in row.command.split_whitespace() {
            let hits = store.search(word).unwrap();
            assert!(
                hits.iter().any(|h| h.id == row.id),
                "record {} not found via its word {:?}",
                row.id,
                word
            );
        }
    }
}

#[test]
fn top_counts_repeated_commands() {
    let store = store_with(vec!["1 make test", "2 make test", "3 ls", "4 make test"]);
    let rows = store.top(1).unwrap();
    assert_eq!(1, rows.len());
    assert_eq!(3, rows[0].frequency);
    assert_eq!("make test", rows[0].command);
}

#[test]
fn top_orders_by_count_then_first_seen() {
    let store = store_with(vec!["1 beta", "2 alpha", "3 alpha", "4 gamma", "5 beta", "6 beta"]);
    let rows = store.top(0).unwrap();
    let view: Vec<(i32, &str)> = rows.iter().map(|r| (r.frequency, r.command.as_str())).collect();
    assert_eq!(vec![(3, "beta"), (2, "alpha"), (1, "gamma")], view);
}

#[test]
fn top_limit_bounds_the_ranking() {
    let store = store_with(vec!["1 a", "2 b", "3 b", "4 c"]);
    assert_eq!(2, store.top(2).unwrap().len());
    assert_eq!(3, store.top(0).unwrap().len());
    assert_eq!(3, store.top(50).unwrap().len());
}

#[test]
fn queries_on_empty_store_return_nothing() {
    let store = RecordStore::new();
    assert_eq!(0, store.head(5).unwrap().len());
    assert_eq!(0, store.tail(5).unwrap().len());
    assert_eq!(0, store.log().unwrap().len());
    assert_eq!(0, store.search("anything").unwrap().len());
    assert_eq!(0, store.top(5).unwrap().len());
}

#[test]
fn trimmed_prepares_commands_for_insert() {
    let mut store = RecordStore::new();
    let t = duiker::parse::trimmed("   cargo   check  ");
    assert_eq!("cargo   check", t);
    assert_eq!("", duiker::parse::trimmed(" \t "));
    if !t.is_empty() {
        store.insert(42, &t);
    }
    let rows = store.log().unwrap();
    assert_eq!(1, rows.len());
    assert_eq!("cargo   check", rows[0].command);
}

#[test]
fn insert_assigns_increasing_ids_and_indexes() {
    let mut store = RecordStore::new();
    let a = store.insert(100, "cargo build");
    let b = store.insert(50, "cargo test");
    assert_eq!(1, a);
    assert_eq!(2, b);
    let hits = store.search("cargo").unwrap();
    assert_eq!(2, hits.len());
    let rows = store.head(1).unwrap();
    assert_eq!(50, rows[0].timestamp);
    assert_eq!("cargo test", rows[0].command);
}
