use tree_builder::basics;
use tree_builder::parsing;
use tree_builder::restaurant;

#[test]
fn get_sum_adds() {
    assert_eq!(basics::get_sum(5, 5), 10);
    assert_eq!(basics::get_sum(-3, 2), -1);
}

#[test]
fn return_multiple_returns_both() {
    assert_eq!(basics::return_multiple(1, 2), (1, 2));
}

#[test]
fn change_vector_doubles_in_place() {
    let mut v = vec![1, 2, 3];
    basics::change_vector(&mut v);
    assert_eq!(v, vec![2, 4, 6]);
}

#[test]
fn change_vector_on_empty() {
    let mut v: Vec<i32> = Vec::new();
    basics::change_vector(&mut v);
    assert!(v.is_empty());
}

#[test]
fn change_my_vector_appends_four() {
    let mut v = vec![1, 2, 3];
    basics::change_my_vector(&mut v);
    assert_eq!(v, vec![1, 2, 3, 4]);
}

#[test]
fn get_sum_gen_sums() {
    assert_eq!(basics::get_sum_gen(5i32, 4i32), 9);
    assert_eq!(basics::get_sum_gen(5u8, 4u8), 9);
}

#[test]
fn string_and_casting_run() {
    basics::string_example();
    basics::casting();
    basics::modules();
}

#[test]
fn try_to_parse_reports_error() {
    assert!(parsing::try_to_parse().is_err());
}

#[test]
fn order_food_message() {
    assert_eq!(restaurant::order_food(), "One order of pasta, coming right up!");
}
