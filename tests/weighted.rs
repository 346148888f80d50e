use roundrobin::wrr::{
    Balancer, EmptySetError, InsertError, Server, WeightedRoundRobinBalancer, MAX_WEIGHT,
};

fn effect_of(wrr: &WeightedRoundRobinBalancer, url: &str) -> i32 {
    wrr.search_server_by_url(&url.to_string()).unwrap().get_effect_weight()
}

#[test]
fn test_next() {
    let url = "http://localhost:8081".to_string();

    let mut wrr = WeightedRoundRobinBalancer::new();
    wrr.insert_url(url.clone(), 5).unwrap();

    let r1 = wrr.next().unwrap();
    assert_eq!(r1.get_url(), &url.clone());
    assert_eq!(r1.get_effect_weight(), 2);

    let r2 = wrr.next().unwrap();
    assert_eq!(r2.get_effect_weight(), 3);

    let _r3 = wrr.next().unwrap(); // effect_weight = 4
    let _r4 = wrr.next().unwrap(); // effect_weight = 5

    let r5 = wrr.next().unwrap(); // effect_weight = max_weight
    assert_eq!(r5.get_effect_weight(), 5);
}

#[test]
fn test_fail() {
    let url = "http://localhost:8081".to_string();

    let mut wrr = WeightedRoundRobinBalancer::new();
    wrr.insert_url(url.clone(), 5).unwrap();

    let r1 = wrr.next().unwrap();
    assert_eq!(r1.get_url(), &url.clone());
    assert_eq!(r1.get_effect_weight(), 2);

    wrr.fail(&url);
    let s1 = wrr.search_server_by_url(&url).unwrap(); // effect_weight = 1
    assert_eq!(s1.get_effect_weight(), 1);

    wrr.fail(&url);
    let _s2 = wrr.search_server_by_url(&url).unwrap(); // effect_weight = 0
    let s3 = wrr.search_server_by_url(&url).unwrap(); // still effect_weight = 0
    assert_eq!(s3.get_effect_weight(), 0);
}

#[test]
fn test_fail_then_next() {
    let url = "http://localhost:8086".to_string();

    let mut wrr = WeightedRoundRobinBalancer::new();
    wrr.insert_url(url.clone(), 3).unwrap();

    let r1 = wrr.next().unwrap();
    assert_eq!(r1.get_url(), &url.clone());
    assert_eq!(r1.get_effect_weight(), 2);

    wrr.fail(&url);
    let s1 = wrr.search_server_by_url(&url).unwrap(); // effect_weight = 1
    assert_eq!(s1.get_effect_weight(), 1);

    let r2 = wrr.next().unwrap();
    assert_eq!(r2.get_effect_weight(), 2);
}

#[test]
fn single_server_ramps_then_holds() {
    let mut wrr = WeightedRoundRobinBalancer::new();
    wrr.insert_url("only".to_string(), 4).unwrap();
    let mut seen = Vec::new();
    for _ in 0..6 {
        let r = wrr.next().unwrap();
        assert_eq!(r.get_url(), "only");
        assert_eq!(r.get_weight(), 4);
        assert_eq!(r.get_cur_weight(), 0);
        seen.push(r.get_effect_weight());
    }
    assert_eq!(seen, vec![2, 3, 4, 4, 4, 4]);
}

#[test]
fn two_servers_one_to_five_share_and_smoothness() {
    let mut wrr = WeightedRoundRobinBalancer::new();
    wrr.insert_url("light".to_string(), 1).unwrap();
    wrr.insert_url("heavy".to_string(), 5).unwrap();
    let picks: Vec<String> = (0..600).map(|_| wrr.next().unwrap().get_url().clone()).collect();
    let light = picks.iter().filter(|u| u.as_str() == "light").count();
    let heavy = picks.iter().filter(|u| u.as_str() == "heavy").count();
    assert_eq!(light, 101);
    assert_eq!(heavy, 499);
    // Once warmed up, every six picks hold the light server exactly once.
    for window in picks[4..].chunks(6) {
        if window.len() == 6 {
            assert_eq!(window.iter().filter(|u| u.as_str() == "light").count(), 1);
        }
    }
    for pair in picks.windows(2) {
        assert!(!(pair[0] == "light" && pair[1] == "light"));
    }
    let first: Vec<&str> = picks[..6].iter().map(|u| u.as_str()).collect();
    assert_eq!(first, vec!["light", "heavy", "heavy", "heavy", "light", "heavy"]);
}

#[test]
fn fail_decays_by_a_third_and_stops_at_zero() {
    let mut wrr = WeightedRoundRobinBalancer::new();
    wrr.insert_url("s".to_string(), 9).unwrap();
    for _ in 0..8 {
        wrr.next().unwrap();
    }
    assert_eq!(effect_of(&wrr, "s"), 9);
    wrr.fail(&"s".to_string());
    assert_eq!(effect_of(&wrr, "s"), 6);
    wrr.fail(&"s".to_string());
    assert_eq!(effect_of(&wrr, "s"), 3);
    wrr.fail(&"s".to_string());
    assert_eq!(effect_of(&wrr, "s"), 0);
    wrr.fail(&"s".to_string());
    assert_eq!(effect_of(&wrr, "s"), 0);
}

#[test]
fn repeated_fail_from_full_weight() {
    let mut wrr = WeightedRoundRobinBalancer::new();
    wrr.insert_url("s".to_string(), 6).unwrap();
    for _ in 0..5 {
        wrr.next().unwrap();
    }
    assert_eq!(effect_of(&wrr, "s"), 6);
    // decay = max(6 / 3, 1) = 2
    let mut seen = Vec::new();
    for _ in 0..4 {
        wrr.fail(&"s".to_string());
        seen.push(effect_of(&wrr, "s"));
    }
    assert_eq!(seen, vec![4, 2, 0, 0]);
}

#[test]
fn fail_of_light_server_decays_by_one() {
    let mut wrr = WeightedRoundRobinBalancer::new();
    wrr.insert_url("s".to_string(), 2).unwrap();
    wrr.next().unwrap();
    assert_eq!(effect_of(&wrr, "s"), 2);
    wrr.fail(&"s".to_string());
    assert_eq!(effect_of(&wrr, "s"), 1);
}

#[test]
fn tick_recovers_servers_not_picked() {
    let mut wrr = WeightedRoundRobinBalancer::new();
    wrr.insert_url("a".to_string(), 3).unwrap();
    wrr.insert_url("b".to_string(), 1).unwrap();
    let r1 = wrr.next().unwrap();
    assert_eq!(r1.get_url(), "a");
    assert_eq!(r1.get_effect_weight(), 2);
    assert_eq!(r1.get_cur_weight(), -1);
    let r2 = wrr.next().unwrap();
    assert_eq!(r2.get_url(), "b");
    assert_eq!(r2.get_cur_weight(), -1);
    // "a" was not picked and still recovered.
    assert_eq!(effect_of(&wrr, "a"), 3);
    let a = wrr.search_server_by_url(&"a".to_string()).unwrap();
    assert_eq!(a.get_cur_weight(), 1);
    let r3 = wrr.next().unwrap();
    assert_eq!(r3.get_url(), "a");
    assert_eq!(r3.get_cur_weight(), 0);
}

#[test]
fn duplicate_insert_keeps_size_and_state() {
    let mut wrr = WeightedRoundRobinBalancer::new();
    wrr.insert_url("a".to_string(), 4).unwrap();
    wrr.next().unwrap();
    wrr.next().unwrap();
    assert_eq!(effect_of(&wrr, "a"), 3);
    assert_eq!(wrr.insert_url("a".to_string(), 9), Ok(()));
    assert_eq!(wrr.insert_server(Server::new("a".to_string(), 1)), Ok(()));
    assert_eq!(wrr.get_servers().len(), 1);
    let a = wrr.search_server_by_url(&"a".to_string()).unwrap();
    assert_eq!(a.get_weight(), 4);
    assert_eq!(a.get_effect_weight(), 3);
}

#[test]
fn next_on_empty_is_error() {
    let mut wrr = WeightedRoundRobinBalancer::new();
    assert_eq!(wrr.next().unwrap_err(), EmptySetError);
}

#[test]
fn scenario_weight_five_fail_twice() {
    let url = "w5".to_string();
    let mut wrr = WeightedRoundRobinBalancer::new();
    wrr.insert_url(url.clone(), 5).unwrap();
    let r = wrr.next().unwrap();
    assert_eq!(r.get_url(), &url);
    assert_eq!(r.get_effect_weight(), 2);
    wrr.fail(&url);
    assert_eq!(effect_of(&wrr, "w5"), 1);
    wrr.fail(&url);
    assert_eq!(effect_of(&wrr, "w5"), 0);
    let r = wrr.next().unwrap();
    assert_eq!(r.get_url(), &url);
    assert_eq!(r.get_effect_weight(), 1);
}

#[test]
fn scenario_weight_three_fail_once() {
    let url = "w3".to_string();
    let mut wrr = WeightedRoundRobinBalancer::new();
    wrr.insert_url(url.clone(), 3).unwrap();
    assert_eq!(wrr.next().unwrap().get_effect_weight(), 2);
    wrr.fail(&url);
    assert_eq!(effect_of(&wrr, "w3"), 1);
    assert_eq!(wrr.next().unwrap().get_effect_weight(), 2);
}

#[test]
fn insert_rejects_weight_out_of_range() {
    let mut wrr = WeightedRoundRobinBalancer::new();
    assert_eq!(wrr.insert_url("neg".to_string(), -1), Err(InsertError::InvalidWeight));
    assert_eq!(
        wrr.insert_url("big".to_string(), MAX_WEIGHT + 1),
        Err(InsertError::InvalidWeight)
    );
    assert_eq!(
        wrr.insert_server(Server::new("neg".to_string(), -7)),
        Err(InsertError::InvalidWeight)
    );
    assert_eq!(wrr.get_servers().len(), 0);
    assert_eq!(wrr.insert_url("max".to_string(), MAX_WEIGHT), Ok(()));
    assert_eq!(wrr.get_servers().len(), 1);
}

#[test]
fn zero_weight_server_is_never_picked_over_others() {
    let mut wrr = WeightedRoundRobinBalancer::new();
    wrr.insert_url("zero".to_string(), 0).unwrap();
    wrr.insert_url("one".to_string(), 1).unwrap();
    assert_eq!(effect_of(&wrr, "zero"), 0);
    for _ in 0..5 {
        assert_eq!(wrr.next().unwrap().get_url(), "one");
    }
}

#[test]
fn fail_of_unknown_url_changes_nothing() {
    let mut wrr = WeightedRoundRobinBalancer::new();
    wrr.insert_url("a".to_string(), 3).unwrap();
    wrr.fail(&"b".to_string());
    assert_eq!(effect_of(&wrr, "a"), 1);
    assert!(wrr.search_server_by_url(&"b".to_string()).is_none());
}

#[test]
fn new_server_starts_cold() {
    let s = Server::new("x".to_string(), 7);
    assert_eq!(s.get_weight(), 7);
    assert_eq!(s.get_effect_weight(), 1);
    assert_eq!(s.get_cur_weight(), 0);
    assert_eq!(s.get_url(), "x");
    assert_eq!(Server::new("z".to_string(), 0).get_effect_weight(), 0);
}

#[test]
fn balancer_trait_drives_weighted_balancer() {
    fn pick_and_fail<B: Balancer>(b: &mut B, url: &String) -> String {
        let s = b.next().unwrap();
        b.fail(url);
        s.get_url().clone()
    }
    let mut wrr = WeightedRoundRobinBalancer::new();
    wrr.insert_url("a".to_string(), 3).unwrap();
    assert_eq!(pick_and_fail(&mut wrr, &"a".to_string()), "a");
    assert_eq!(effect_of(&wrr, "a"), 1);
}
