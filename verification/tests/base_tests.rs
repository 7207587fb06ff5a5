use raytracer::base::OrElse;

#[test]
fn map_or_else_maps_a_success() {
    let outcome: Result<i32, String> = Ok(20);
    let folded = OrElse::map_or_else(outcome, |e: String| e.len() as i32, |t: i32| t + 1);
    assert_eq!(folded, 21);
}

#[test]
fn map_or_else_falls_back_on_a_failure() {
    let outcome: Result<i32, String> = Err(String::from("miss"));
    let folded = OrElse::map_or_else(outcome, |e: String| e.len() as i32, |t: i32| t + 1);
    assert_eq!(folded, 4);
}

#[test]
fn map_or_else_calls_only_one_of_the_two() {
    let hit: Result<u8, ()> = Ok(3);
    let folded = OrElse::map_or_else(hit, |_| panic!("fallback called on a success"), |t: u8| t);
    assert_eq!(folded, 3);
    let miss: Result<u8, u8> = Err(9);
    let folded = OrElse::map_or_else(miss, |e: u8| e, |_| panic!("map called on a failure"));
    assert_eq!(folded, 9);
}
