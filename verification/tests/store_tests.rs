use recall::store::Recalls;

fn empty_store(cwd: &str) -> Recalls {
    Recalls::new(None, cwd.to_string()).unwrap()
}

fn notes(xs: &[&str]) -> Vec<String> {
    xs.iter().map(|s| s.to_string()).collect()
}

#[test]
fn add_to_empty_creates_list() {
    let mut rec = empty_store("/proj");
    rec.add(notes(&["first", "second"]));
    assert_eq!(rec.get_list().unwrap(), &notes(&["first", "second"]));
}

#[test]
fn adds_concatenate_in_call_order() {
    let mut rec = empty_store("/proj");
    rec.add(notes(&["a", "b"]));
    rec.add(notes(&["c"]));
    rec.add(notes(&["d", "e"]));
    assert_eq!(rec.get_list().unwrap(), &notes(&["a", "b", "c", "d", "e"]));
}

#[test]
fn add_keeps_duplicates() {
    let mut rec = empty_store("/proj");
    rec.add(notes(&["same", "same"]));
    rec.add(notes(&["same"]));
    assert_eq!(rec.get_list().unwrap(), &notes(&["same", "same", "same"]));
}

#[test]
fn add_does_not_touch_other_directories() {
    let content = "{\"/other\":[\"keep\"]}";
    let mut rec = Recalls::new(Some(content), "/proj".to_string()).unwrap();
    rec.add(notes(&["mine"]));
    assert_eq!(rec.get_list().unwrap(), &notes(&["mine"]));
    let again = Recalls::new(Some(&rec.write()), "/other".to_string()).unwrap();
    assert_eq!(again.get_list().unwrap(), &notes(&["keep"]));
}

#[test]
fn remove_takes_exactly_the_named_positions() {
    let mut rec = empty_store("/proj");
    rec.add(notes(&["a", "b", "c", "d", "e", "f"]));
    rec.remove(vec![0, 3, 4]);
    assert_eq!(rec.get_list().unwrap(), &notes(&["b", "c", "f"]));
}

#[test]
fn remove_with_duplicate_indexes_counts_each_once() {
    let mut rec1 = empty_store("/proj");
    rec1.add(notes(&["a", "b", "c", "d"]));
    rec1.remove(vec![0, 2, 2, 0]);
    let mut rec2 = empty_store("/proj");
    rec2.add(notes(&["a", "b", "c", "d"]));
    rec2.remove(vec![0, 2]);
    assert_eq!(rec1.get_list().unwrap(), &notes(&["b", "d"]));
    assert_eq!(rec1.get_list().unwrap(), rec2.get_list().unwrap());
}

#[test]
fn remove_order_of_indexes_does_not_matter() {
    let mut rec1 = empty_store("/proj");
    rec1.add(notes(&["a", "b", "c", "d"]));
    rec1.remove(vec![3, 1]);
    let mut rec2 = empty_store("/proj");
    rec2.add(notes(&["a", "b", "c", "d"]));
    rec2.remove(vec![1, 3]);
    assert_eq!(rec1.get_list().unwrap(), &notes(&["a", "c"]));
    assert_eq!(rec1.get_list().unwrap(), rec2.get_list().unwrap());
}

#[test]
fn remove_out_of_range_index_is_a_no_op() {
    let mut rec = empty_store("/proj");
    rec.add(notes(&["a", "b", "c"]));
    rec.remove(vec![5]);
    assert_eq!(rec.get_list().unwrap(), &notes(&["a", "b", "c"]));
    rec.remove(vec![1, 10]);
    assert_eq!(rec.get_list().unwrap(), &notes(&["a", "c"]));
}

#[test]
fn remove_everything_leaves_an_empty_list_present() {
    let mut rec = empty_store("/proj");
    rec.add(notes(&["only"]));
    rec.remove(vec![0]);
    assert_eq!(rec.get_list().unwrap(), &Vec::<String>::new());
}

#[test]
fn remove_on_absent_directory_is_a_no_op() {
    let mut rec = empty_store("/proj");
    rec.remove(vec![0, 1]);
    assert!(rec.get_list().is_none());
}

#[test]
fn listing_unknown_directory_finds_nothing() {
    let rec = empty_store("/proj");
    assert!(rec.get_list().is_none());
}
