use spreadsheet::vector::Vector;

#[test]
fn test_new_vector() {
    let vec = Vector::new();
    assert_eq!(vec.container.len(), 0);
}

#[test]
fn test_push_back_and_back() {
    let mut vec = Vector::new();
    assert!(vec.push_back(10));
    assert!(vec.push_back(20));
    assert_eq!(vec.back(), Some(&20));
    assert_eq!(vec.container.len(), 2);
}

#[test]
fn test_resize_smaller_than_length() {
    let mut vec = Vector::new();
    vec.push_back(1);
    vec.push_back(2);
    vec.push_back(3);
    assert!(!vec.resize(2));
    assert_eq!(vec.container.len(), 3);
}

#[test]
fn test_pop_back_shrink() {
    let mut vec = Vector::new();
    for i in 0..20 {
        vec.push_back(i);
    }
    let len_before = vec.container.len();
    vec.pop_back();
    assert_eq!(vec.container.len(), len_before - 1);
    while vec.container.len() > 1 {
        vec.pop_back();
    }
    assert!(vec.container.len() == 1);
    assert!(vec.container.capacity() >= 1);
}

#[test]
fn test_erase_existing() {
    let mut vec = Vector::new();
    vec.push_back(5);
    vec.push_back(10);
    vec.push_back(15);
    let erased = vec.erase(10);
    assert!(erased);
    assert!(vec.container.iter().all(|&x| x != 10));
    assert_eq!(vec.container.len(), 2);
}

#[test]
fn test_erase_non_existing() {
    let mut vec = Vector::new();
    vec.push_back(5);
    vec.push_back(10);
    let erased = vec.erase(20);
    assert!(!erased);
    assert_eq!(vec.container.len(), 2);
}

#[test]
fn test_back_empty() {
    let vec = Vector::new();
    assert_eq!(vec.back(), None);
}

#[test]
fn test_erase_removes_first_only() {
    let mut vec = Vector::new();
    vec.push_back(7);
    vec.push_back(8);
    vec.push_back(7);
    assert!(vec.erase(7));
    assert_eq!(vec.container, vec![8, 7]);
}

#[test]
fn test_resize_keeps_elements() {
    let mut vec = Vector::new();
    vec.push_back(1);
    assert!(vec.resize(50));
    assert!(vec.container.capacity() >= 50);
    assert_eq!(vec.container, vec![1]);
}

#[test]
fn test_print_function() {
    let mut vec = Vector::new();
    vec.push_back(1);
    vec.push_back(2);
    vec.push_back(3);
    assert_eq!(vec.text(), "(1, 2, 3)");
}

#[test]
fn test_text_of_empty_and_negative() {
    let mut vec = Vector::new();
    assert_eq!(vec.text(), "()");
    vec.push_back(i32::MIN);
    vec.push_back(0);
    vec.push_back(-7);
    assert_eq!(vec.text(), "(-2147483648, 0, -7)");
}
