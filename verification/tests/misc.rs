use rand::Rng;
use rmcts::reward::MILLI;

#[test]
fn test_if_map_take_ownership() {
    let a = vec![Some(1), None, Some(3)];
    let mut children: Vec<u32> = a.iter().map(|x| if x.is_some() { 1 } else { 0 }).collect();
    for (_i, j) in children.iter_mut().enumerate() {
        *j += 1;
    }
    for (i, j) in children.iter_mut().enumerate() {
        println!("{} - {}", i, j);
    }
}

#[test]
fn test_rand() {
    let mut rng = rand::thread_rng();
    for _ in 0..5 {
        println!("rand gen {} ", rng.gen_range(0..10));
    }
}

#[test]
fn milli_is_a_thousand() {
    assert_eq!(MILLI, 1000);
}
