use quadtree::adder::{add, add_two, greeting, Guess};

#[test]
fn it_adds_two() {
    assert_eq!(4, add_two(2));
}

#[test]
fn lib_it_works() -> Result<(), String> {
    if 2 + 2 == 4 {
        Ok(())
    } else {
        Err(String::from("two plus two does not equal four"))
    }
}

#[test]
fn exploration() {
    assert_eq!(2 + 2, 4);
}

#[test]
fn greeting_contains_name() {
    let result = greeting("Carol");
    assert!(
        result.contains("Carol"),
        "Greeting did not contain name, value was `{}`",
        result
    );
}

#[test]
fn it_adds_two_integration_test() {
    assert_eq!(4, add_two(2));
}

#[test]
fn yet_another_it_adds_two_integration_test() {
    assert_eq!(4, add_two(2));
}

#[test]
fn add_works() {
    assert_eq!(add(2, 2), 4);
    assert_eq!(add(0, 0), 0);
}

#[test]
fn guess_accepts_bounds() {
    let _low = Guess::new(1);
    let _high = Guess::new(100);
    let _mid = Guess::new(50);
}
