use sudoku::number_options::NumberOptions;

#[test]
fn number_options_util() {
    let mut options = NumberOptions::<9>::default();
    println!("{:?}", options);

    options.add_number(1);
    options.add_number(9);
    println!("{:?}", options);

    options.remove_number(9);
    options.remove_number(2);
    println!("{:?}", options);

    assert!(options.has_number(1));
    assert!(!options.has_number(9));
    assert!(!options.has_number(2));
}

#[test]
fn default_set_is_empty() {
    let options = NumberOptions::<9>::default();
    assert!(options.empty());
    assert!(!options.all());
    assert_eq!(options.count(), 0);
    assert_eq!(options.first(), None);
    assert_eq!(options.as_vec(), Vec::<u8>::new());
    assert_eq!(options.as_bool_array(), [false; 9]);
}

#[test]
fn add_and_remove_are_idempotent() {
    let mut options = NumberOptions::<9>::default();
    options.add_number(4);
    let once = options;
    options.add_number(4);
    assert_eq!(options, once);
    assert_eq!(options.count(), 1);
    options.remove_number(4);
    let gone = options;
    options.remove_number(4);
    assert_eq!(options, gone);
    assert!(options.empty());
}

#[test]
fn count_first_and_enumeration() {
    let mut options = NumberOptions::<9>::default();
    options.add_number(7);
    options.add_number(3);
    options.add_number(9);
    assert_eq!(options.count(), 3);
    assert_eq!(options.first(), Some(3));
    assert_eq!(options.as_vec(), vec![3, 7, 9]);
    assert_eq!(
        options.as_bool_array(),
        [false, false, true, false, false, false, true, false, true]
    );
    assert!(options.has_number(7));
    assert!(!options.has_number(8));
    assert!(!options.empty());
    assert!(!options.all());
}

#[test]
fn union_intersection_and_complement() {
    let mut left = NumberOptions::<9>::default();
    left.add_number(1);
    left.add_number(2);
    let mut right = NumberOptions::<9>::default();
    right.add_number(2);
    right.add_number(3);

    assert_eq!((left | right).as_vec(), vec![1, 2, 3]);
    assert_eq!((left & right).as_vec(), vec![2]);
    assert_eq!((!left).as_vec(), vec![3, 4, 5, 6, 7, 8, 9]);
    assert_eq!((!left).count(), 7);
    assert_eq!((!(!left)), left);
}

#[test]
fn complement_of_the_empty_set_holds_every_digit() {
    let none = NumberOptions::<9>::default();
    let every = !none;
    assert!(every.all());
    assert_eq!(every.count(), 9);
    assert_eq!(every.first(), Some(1));
    assert_eq!(every.as_vec(), vec![1, 2, 3, 4, 5, 6, 7, 8, 9]);
    assert_eq!((!every).count(), 0);
    assert!((!every).empty());
}

#[test]
fn complement_is_taken_over_the_whole_word() {
    let mut nine = NumberOptions::<9>::default();
    for digit in 1..=9 {
        nine.add_number(digit);
    }
    assert!(nine.all());
    // no digit from 1 to 9 is left, but the digits above are
    assert_eq!((!nine).count(), 0);
    assert_eq!((!nine).first(), None);
    assert!(!(!nine).empty());
    assert_ne!(nine, !NumberOptions::<9>::default());
}

#[test]
fn sets_of_sixteen_digits() {
    let mut options = NumberOptions::<16>::default();
    options.add_number(16);
    options.add_number(10);
    assert_eq!(options.as_vec(), vec![10, 16]);
    assert_eq!(options.count(), 2);
    assert_eq!(options.first(), Some(10));
    assert!((!NumberOptions::<16>::default()).all());
    assert_eq!((!options).count(), 14);
}

#[test]
fn sets_of_four_digits_ignore_the_digits_above() {
    let every = !NumberOptions::<4>::default();
    assert_eq!(every.count(), 4);
    assert_eq!(every.as_vec(), vec![1, 2, 3, 4]);
    assert_eq!(every.as_bool_array(), [true; 4]);
    assert!(every.all());
}

#[test]
fn union_in_place() {
    let mut left = NumberOptions::<9>::default();
    left.add_number(1);
    let mut right = NumberOptions::<9>::default();
    right.add_number(8);
    let both = left | right;
    left |= right;
    assert_eq!(left, both);
    assert_eq!(left.as_vec(), vec![1, 8]);
}
