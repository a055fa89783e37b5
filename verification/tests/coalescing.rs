use mula::coordinator::{Enrollment, Mula, Ticket};

/// Registers interest and returns the ticket, running the work (here:
/// uppercase) and the delivery pass when this caller is the lead — the role
/// the runtime's background execution plays for the coordinator.
fn subscribe_and_run(m: &mut Mula, key: &str, executions: &mut usize) -> Ticket {
    match m.subscribe_to(&key.to_string()) {
        Enrollment::Lead(t) => {
            *executions += 1;
            t
        }
        Enrollment::Member(t) => t,
        Enrollment::Ready(_) => panic!("key unexpectedly already completed"),
    }
}

fn deliver_uppercase(m: &mut Mula, key: &str) {
    m.deliver(&key.to_string(), Some(key.to_uppercase()));
}

fn collect_value(m: &mut Mula, t: &Ticket) -> String {
    match m.collect(t) {
        Some(Some(v)) => v,
        Some(None) => panic!("work reported failure"),
        None => panic!("no delivery yet"),
    }
}

#[test]
fn it_works() {
    let mut m = Mula::new();
    let mut executions: usize = 0;
    let mut served: usize = 0;

    let t1 = subscribe_and_run(&mut m, "kov", &mut executions);
    let t2 = subscribe_and_run(&mut m, "kov", &mut executions);
    let t3 = subscribe_and_run(&mut m, "kovera", &mut executions);
    let t4 = subscribe_and_run(&mut m, "kovera", &mut executions);
    let t5 = subscribe_and_run(&mut m, "kovid", &mut executions);
    let t6 = subscribe_and_run(&mut m, "kov", &mut executions);

    deliver_uppercase(&mut m, "kov");
    deliver_uppercase(&mut m, "kovera");
    deliver_uppercase(&mut m, "kovid");

    assert_eq!(collect_value(&mut m, &t1), "KOV".to_string());
    served += 1;
    assert_eq!(collect_value(&mut m, &t2), "KOV".to_string());
    served += 1;
    assert_eq!(collect_value(&mut m, &t3), "KOVERA".to_string());
    served += 1;
    assert_eq!(collect_value(&mut m, &t4), "KOVERA".to_string());
    served += 1;
    assert_eq!(collect_value(&mut m, &t5), "KOVID".to_string());
    served += 1;
    assert_eq!(collect_value(&mut m, &t6), "KOV".to_string());
    served += 1;

    // All six call sites got a reply.
    assert_eq!(served, 6);
    // The work was shared per input: a single execution for each.
    assert_eq!(executions, 3);
}

#[test]
fn test_basic() {
    // The convenience-wrapper path: one coordinator reused by every call of
    // the wrapped function; the first call leads, later calls share.
    let mut m = Mula::new();
    let t = match m.subscribe_to(&"kov".to_string()) {
        Enrollment::Lead(t) => t,
        _ => panic!("first call must lead"),
    };
    m.deliver(&"kov".to_string(), Some("kov".to_uppercase()));
    assert_eq!(collect_value(&mut m, &t), "KOV".to_string());
    // A later call through the same coordinator reuses the result.
    match m.subscribe_to(&"kov".to_string()) {
        Enrollment::Ready(Some(v)) => assert_eq!(v, "KOV".to_string()),
        _ => panic!("completed key must answer at once"),
    }
}

#[test]
fn scenario_two_keys_five_callers() {
    // Work uppercases its input; three callers ask for "burro" and two for
    // "mula" before either delivery: two executions in total, each caller
    // receives its own key's result.
    let mut m = Mula::new();
    let mut executions: usize = 0;

    let b1 = subscribe_and_run(&mut m, "burro", &mut executions);
    let b2 = subscribe_and_run(&mut m, "burro", &mut executions);
    let u1 = subscribe_and_run(&mut m, "mula", &mut executions);
    let b3 = subscribe_and_run(&mut m, "burro", &mut executions);
    let u2 = subscribe_and_run(&mut m, "mula", &mut executions);

    assert_eq!(executions, 2);

    deliver_uppercase(&mut m, "burro");
    deliver_uppercase(&mut m, "mula");

    assert_eq!(collect_value(&mut m, &b1), "BURRO".to_string());
    assert_eq!(collect_value(&mut m, &b2), "BURRO".to_string());
    assert_eq!(collect_value(&mut m, &b3), "BURRO".to_string());
    assert_eq!(collect_value(&mut m, &u1), "MULA".to_string());
    assert_eq!(collect_value(&mut m, &u2), "MULA".to_string());
}

#[test]
fn staggered_arrival_single_execution() {
    // Requests arriving at different times, all before completion, share
    // the one execution: only the first leads.
    let mut m = Mula::new();
    let key = "slow".to_string();
    let first = m.subscribe_to(&key);
    assert!(matches!(first, Enrollment::Lead(_)));
    let later = m.subscribe_to(&key);
    assert!(matches!(later, Enrollment::Member(_)));
    let latest = m.subscribe_to(&key);
    assert!(matches!(latest, Enrollment::Member(_)));
}

#[test]
fn independent_keys() {
    // Delivery for one key neither serves nor disturbs another key's
    // waiters.
    let mut m = Mula::new();
    let mut executions: usize = 0;
    let ta = subscribe_and_run(&mut m, "first", &mut executions);
    let tb = subscribe_and_run(&mut m, "second", &mut executions);

    deliver_uppercase(&mut m, "first");
    // The other key is still pending: its waiter gets nothing yet.
    assert!(m.collect(&tb).is_none());
    assert_eq!(collect_value(&mut m, &ta), "FIRST".to_string());

    deliver_uppercase(&mut m, "second");
    assert_eq!(collect_value(&mut m, &tb), "SECOND".to_string());
}

#[test]
fn late_joiner_gets_result() {
    // A request issued strictly after the key's delivery pass is answered
    // at once with the recorded result.
    let mut m = Mula::new();
    let mut executions: usize = 0;
    let t = subscribe_and_run(&mut m, "done", &mut executions);
    deliver_uppercase(&mut m, "done");
    assert_eq!(collect_value(&mut m, &t), "DONE".to_string());

    match m.subscribe_to(&"done".to_string()) {
        Enrollment::Ready(Some(v)) => assert_eq!(v, "DONE".to_string()),
        _ => panic!("late joiner must be served the recorded result"),
    }
    assert_eq!(executions, 1);
}

#[test]
fn abandoned_waiter_sheds_copy() {
    // A waiter that gives up before delivery causes no extra publication:
    // the pass publishes one copy per waiter still live, and only those.
    let mut m = Mula::new();
    let mut executions: usize = 0;
    let t1 = subscribe_and_run(&mut m, "key", &mut executions);
    let t2 = subscribe_and_run(&mut m, "key", &mut executions);
    let t3 = subscribe_and_run(&mut m, "key", &mut executions);

    m.abandon(&t3);
    deliver_uppercase(&mut m, "key");

    // Two copies for the two live waiters, none for the abandoned one.
    assert_eq!(m.copies_in_flight(&"key".to_string()), Some(2));
    assert_eq!(collect_value(&mut m, &t1), "KEY".to_string());
    assert_eq!(collect_value(&mut m, &t2), "KEY".to_string());
    assert_eq!(m.copies_in_flight(&"key".to_string()), Some(0));
}

#[test]
fn abandon_after_delivery_discards_copy() {
    let mut m = Mula::new();
    let mut executions: usize = 0;
    let t1 = subscribe_and_run(&mut m, "key", &mut executions);
    let t2 = subscribe_and_run(&mut m, "key", &mut executions);
    deliver_uppercase(&mut m, "key");
    assert_eq!(m.copies_in_flight(&"key".to_string()), Some(2));
    m.abandon(&t2);
    assert_eq!(m.copies_in_flight(&"key".to_string()), Some(1));
    assert_eq!(collect_value(&mut m, &t1), "KEY".to_string());
}

#[test]
fn work_failure_reaches_every_waiter() {
    // When the work fails, the delivery pass still runs and every waiter
    // observes the tagged failure instead of hanging.
    let mut m = Mula::new();
    let mut executions: usize = 0;
    let t1 = subscribe_and_run(&mut m, "bad", &mut executions);
    let t2 = subscribe_and_run(&mut m, "bad", &mut executions);
    m.deliver(&"bad".to_string(), None);
    assert_eq!(m.collect(&t1), Some(None));
    assert_eq!(m.collect(&t2), Some(None));
    // A later request for the failed key observes the failure too.
    match m.subscribe_to(&"bad".to_string()) {
        Enrollment::Ready(None) => {}
        _ => panic!("failed key must answer with the recorded failure"),
    }
}

#[test]
fn collect_before_delivery_is_pending() {
    let mut m = Mula::new();
    let mut executions: usize = 0;
    let t = subscribe_and_run(&mut m, "pending", &mut executions);
    assert!(m.collect(&t).is_none());
    assert!(m.collect(&t).is_none());
    deliver_uppercase(&mut m, "pending");
    assert_eq!(collect_value(&mut m, &t), "PENDING".to_string());
}

#[test]
fn empty_key_is_a_key() {
    let mut m = Mula::new();
    let t = match m.subscribe_to(&String::new()) {
        Enrollment::Lead(t) => t,
        _ => panic!("first call must lead"),
    };
    m.deliver(&String::new(), Some(String::new()));
    assert_eq!(collect_value(&mut m, &t), String::new());
}
