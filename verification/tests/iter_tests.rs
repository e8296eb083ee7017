use quadtree::shoes::{shoes_in_size, Shoe};

#[test]
fn iterator_demonstration() {
    let v1 = vec![10, 11, 12];
    let mut v1_iter = v1.iter();

    assert_eq!(v1_iter.next(), Some(&10));
    assert_eq!(v1_iter.next(), Some(&11));
    assert_eq!(v1_iter.next(), Some(&12));
    assert_eq!(v1_iter.next(), None);

    let v2 = vec![1, 2, 4];
    let total: i32 = v2.iter().sum();
    assert_eq!(total, 7);

    let v3 = vec![1, 2, 3];
    let v4: Vec<_> = v3.iter().map(|x| x + 1).collect();
    assert_eq!(v4, vec![2, 3, 4]);
}

#[test]
fn filters_by_size() {
    let shoes = vec![
        Shoe {
            size: 10,
            style: String::from("sneaker"),
        },
        Shoe {
            size: 13,
            style: String::from("sandal"),
        },
        Shoe {
            size: 10,
            style: String::from("boot"),
        },
    ];

    let in_my_size = shoes_in_size(shoes, 10);

    assert_eq!(
        in_my_size,
        vec![
            Shoe {
                size: 10,
                style: String::from("sneaker"),
            },
            Shoe {
                size: 10,
                style: String::from("boot"),
            },
        ]
    )
}
