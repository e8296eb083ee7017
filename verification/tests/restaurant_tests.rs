use quadtree::restaurant::{add, Appetizer, Breakfast};

#[test]
fn it_works() {
    let result = add(2, 2);
    assert_eq!(result, 4);
}

#[test]
fn summer_breakfast_takes_toast() {
    let mut meal = Breakfast::summer("Rye");
    assert_eq!(meal.toast, "Rye");
    meal.toast = String::from("Wheat");
    assert_eq!(meal.toast, "Wheat");
}

#[test]
fn appetizer_choices() {
    let order1 = Appetizer::Soup;
    let order2 = Appetizer::Salad;
    assert!(matches!(order1, Appetizer::Soup));
    assert!(matches!(order2, Appetizer::Salad));
}
