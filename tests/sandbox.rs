use actionkv::num::{add_some_nums, SomeNum};

#[test]
fn it_works() {
    let num_1 = SomeNum { val: 10 };
    let num_2 = SomeNum { val: 20 };

    let result = add_some_nums(num_1, num_2);

    assert_eq!(result.val, 30);
}

#[test]
fn some_num_new_and_add() {
    let a = SomeNum::new(-7);
    assert_eq!(a.val, -7);
    let b = a.add(SomeNum::new(i32::MAX));
    assert_eq!(b.val, i32::MAX - 7);
}
