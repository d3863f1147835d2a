use hydro::resource::Resources;

#[derive(Debug, PartialEq)]
enum TestRes {
    One(String),
    Two(String),
}

const RES_ONE: u32 = 1;
const RES_TWO: u32 = 2;

#[test]
fn simple_read_write_test() {
    let mut resources: Resources<TestRes> = Resources::new();
    resources.insert(RES_ONE, TestRes::One("poop".to_string()));
    resources.insert(RES_TWO, TestRes::Two("balls".to_string()));

    assert_eq!(
        resources.get(RES_ONE).unwrap(),
        &TestRes::One("poop".to_string())
    );
    assert_eq!(
        resources.get(RES_TWO).unwrap(),
        &TestRes::Two("balls".to_string())
    );

    // test re-ownership
    let owned = resources.remove(RES_TWO);
    assert_eq!(owned.unwrap(), TestRes::Two("balls".to_string()));
}

#[test]
fn contains_and_replace() {
    let mut resources: Resources<u64> = Resources::new();
    assert_eq!(false, resources.contains(RES_ONE));
    resources.insert(RES_ONE, 7);
    assert_eq!(true, resources.contains(RES_ONE));
    resources.insert(RES_ONE, 9);
    assert_eq!(Some(&9), resources.get(RES_ONE));

    assert_eq!(true, resources.get_mut(RES_ONE, 11));
    assert_eq!(Some(&11), resources.get(RES_ONE));
    assert_eq!(false, resources.get_mut(RES_TWO, 1));
}

#[test]
fn remove_absent_is_none() {
    let mut resources: Resources<u64> = Resources::new();
    assert_eq!(None, resources.remove(RES_ONE));
    resources.insert(RES_ONE, 3);
    assert_eq!(Some(3), resources.remove(RES_ONE));
    assert_eq!(None, resources.remove(RES_ONE));
}
