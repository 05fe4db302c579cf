use balance::balancer::{BalanceError, Balancer, BalancerState, Event, Ticket};
use balance::layer::layer;

const MS: u64 = 1_000_000;
const SEC: u64 = 1_000_000_000;

fn keys(b: &Balancer) -> Vec<u64> {
    b.endpoints.iter().map(|e| e.key).collect()
}

fn ready(events: Vec<Event>) -> Balancer {
    let mut b = Balancer::new(50 * MS, 10 * SEC);
    assert_eq!(b.apply_batch(&events), Ok(()));
    b
}

#[test]
fn membership_follows_events_in_order() {
    let b = ready(vec![
        Event::Insert { key: 1, weight: 1 },
        Event::Insert { key: 2, weight: 1 },
        Event::Remove { key: 1 },
        Event::Insert { key: 3, weight: 2 },
        Event::Remove { key: 4 },
        Event::Insert { key: 1, weight: 1 },
        Event::Remove { key: 2 },
    ]);
    assert_eq!(keys(&b), vec![3, 1]);
    assert_eq!(b.state, BalancerState::Ready);
}

#[test]
fn zero_weight_insert_is_refused() {
    let b = ready(vec![Event::Insert { key: 7, weight: 0 }, Event::Insert { key: 8, weight: 3 }]);
    assert_eq!(keys(&b), vec![8]);
    assert_eq!(b.find(7), None);
}

#[test]
fn reinsert_replaces_member() {
    let mut b = ready(vec![Event::Insert { key: 1, weight: 1 }]);
    let first = b.endpoints[0].instance;
    b.apply_event(Event::Insert { key: 1, weight: 5 });
    assert_eq!(b.endpoints.len(), 1);
    assert_eq!(b.endpoints[0].weight, 5);
    assert!(b.endpoints[0].instance != first);
    assert_eq!(b.endpoints[0].ewma.estimate, 50 * MS);
}

#[test]
fn empty_or_pending_balancer_asks_to_wait() {
    let mut b = Balancer::new(50 * MS, 10 * SEC);
    assert_eq!(b.select(0, 0), Err(BalanceError::NoEndpointsAvailable));
    assert_eq!(b.apply_batch(&vec![]), Ok(()));
    assert_eq!(b.select(0, 0), Err(BalanceError::NoEndpointsAvailable));
    b.apply_event(Event::Insert { key: 1, weight: 1 });
    b.begin_update();
    assert_eq!(b.state, BalancerState::Pending);
    assert_eq!(b.select(0, 0), Err(BalanceError::NoEndpointsAvailable));
    assert_eq!(b.apply_batch(&vec![]), Ok(()));
    assert!(b.select(0, 0).is_ok());
}

#[test]
fn failed_discovery_is_fatal() {
    let mut b = ready(vec![Event::Insert { key: 1, weight: 1 }]);
    b.fail();
    assert_eq!(b.select(0, 0), Err(BalanceError::Discovery));
    assert_eq!(b.apply_batch(&vec![Event::Insert { key: 2, weight: 1 }]), Err(BalanceError::Discovery));
    b.begin_update();
    assert_eq!(b.state, BalancerState::Failed);
    assert_eq!(keys(&b), vec![1]);
}

#[test]
fn single_member_is_always_chosen() {
    let mut b = ready(vec![Event::Insert { key: 9, weight: 1 }]);
    let t = b.select(123, 456).unwrap();
    assert_eq!(t.key, 9);
    assert_eq!(b.endpoints[0].pending, 1);
}

#[test]
fn lower_load_of_two_always_wins() {
    let mut b = ready(vec![Event::Insert { key: 1, weight: 1 }, Event::Insert { key: 2, weight: 1 }]);
    b.endpoints[0].ewma.estimate = 80 * MS;
    b.endpoints[1].ewma.estimate = 20 * MS;
    for r1 in 0..4u64 {
        for r2 in 0..4u64 {
            assert_eq!(b.choose_index(r1, r2), 1);
        }
    }
}

#[test]
fn weight_divides_load() {
    let mut b = ready(vec![Event::Insert { key: 1, weight: 1 }, Event::Insert { key: 2, weight: 4 }]);
    b.endpoints[0].ewma.estimate = 30 * MS;
    b.endpoints[1].ewma.estimate = 100 * MS;
    assert_eq!(b.choose_index(0, 0), 1);
    assert_eq!(b.choose_index(1, 0), 1);
}

#[test]
fn pending_requests_raise_load() {
    let mut b = ready(vec![Event::Insert { key: 1, weight: 1 }, Event::Insert { key: 2, weight: 1 }]);
    b.endpoints[0].ewma.estimate = 10 * MS;
    b.endpoints[1].ewma.estimate = 25 * MS;
    b.endpoints[0].pending = 2;
    assert_eq!(b.choose_index(0, 0), 1);
}

#[test]
fn tie_goes_to_first_draw() {
    let b = ready(vec![Event::Insert { key: 1, weight: 1 }, Event::Insert { key: 2, weight: 1 }]);
    assert_eq!(b.choose_index(0, 0), 0);
    assert_eq!(b.choose_index(1, 0), 1);
}

#[test]
fn draws_cover_every_pair_once() {
    let b = ready(vec![
        Event::Insert { key: 1, weight: 1 },
        Event::Insert { key: 2, weight: 1 },
        Event::Insert { key: 3, weight: 1 },
        Event::Insert { key: 4, weight: 1 },
    ]);
    let n = b.endpoints.len() as u64;
    let mut counts = vec![0u32; 4];
    for r1 in 0..n {
        for r2 in 0..(n - 1) {
            counts[b.choose_index(r1, r2)] += 1;
        }
    }
    assert_eq!(counts, vec![3, 3, 3, 3]);
}

#[test]
fn completion_releases_and_observes() {
    let mut b = ready(vec![Event::Insert { key: 1, weight: 1 }]);
    let t = b.select(0, 0).unwrap();
    assert_eq!(b.endpoints[0].pending, 1);
    b.complete(t, Some(12 * MS), 3 * SEC);
    assert_eq!(b.endpoints[0].pending, 0);
    assert_eq!(b.endpoints[0].ewma.estimate, 12 * MS);
    let u = b.select(0, 0).unwrap();
    b.complete(u, None, 4 * SEC);
    assert_eq!(b.endpoints[0].pending, 0);
    assert_eq!(b.endpoints[0].ewma.estimate, 12 * MS);
}

#[test]
fn removed_endpoint_drops_out_of_next_selection() {
    let mut b = ready(vec![Event::Insert { key: 1, weight: 1 }, Event::Insert { key: 2, weight: 1 }]);
    b.endpoints[0].ewma.estimate = MS;
    let t = b.select(0, 0).unwrap();
    assert_eq!(t.key, 1);
    assert_eq!(b.apply_batch(&vec![Event::Remove { key: 1 }]), Ok(()));
    for r1 in 0..3u64 {
        for r2 in 0..3u64 {
            assert_eq!(b.select(r1, r2).unwrap().key, 2);
        }
    }
    let pending_on_two = b.endpoints[0].pending;
    b.complete(t, Some(500 * MS), SEC);
    assert_eq!(keys(&b), vec![2]);
    assert_eq!(b.endpoints[0].pending, pending_on_two);
    assert_eq!(b.endpoints[0].ewma.estimate, 50 * MS);
}

#[test]
fn stale_ticket_misses_reinserted_member() {
    let mut b = ready(vec![Event::Insert { key: 1, weight: 1 }]);
    let t = b.select(0, 0).unwrap();
    b.apply_event(Event::Remove { key: 1 });
    b.apply_event(Event::Insert { key: 1, weight: 1 });
    b.complete(t, Some(900 * MS), SEC);
    assert_eq!(b.endpoints[0].ewma.estimate, 50 * MS);
    assert_eq!(b.endpoints[0].pending, 0);
    assert!(b.endpoints[0].instance != t.instance);
    let missing = Ticket { key: 42, instance: 0 };
    b.complete(missing, Some(MS), SEC);
    assert_eq!(keys(&b), vec![1]);
}

#[test]
fn three_endpoints_end_to_end() {
    let mut b = ready(vec![
        Event::Insert { key: 0xA, weight: 1 },
        Event::Insert { key: 0xB, weight: 1 },
        Event::Insert { key: 0xC, weight: 1 },
    ]);
    let ta = Ticket { key: 0xA, instance: b.endpoints[0].instance };
    let tb = Ticket { key: 0xB, instance: b.endpoints[1].instance };
    b.endpoints[0].pending = 1;
    b.endpoints[1].pending = 1;
    b.complete(ta, Some(10 * MS), SEC);
    b.complete(tb, Some(100 * MS), SEC);
    assert_eq!(b.endpoints[2].ewma.estimate, 50 * MS);
    let mut counts = vec![0u32; 3];
    for r1 in 0..3u64 {
        for r2 in 0..2u64 {
            let i = b.choose_index(r1, r2);
            let a = (r1 % 3) as usize;
            let c = { let x = (r2 % 2) as usize; if x >= a { x + 1 } else { x } };
            if (a == 0 && c == 1) || (a == 1 && c == 0) {
                assert_eq!(i, 0);
            }
            counts[i] += 1;
        }
    }
    assert_eq!(counts, vec![4, 0, 2]);
}

#[test]
fn layer_builds_configured_balancer() {
    let l = layer(50 * MS, 10 * SEC);
    assert_eq!(l.default_rtt, 50 * MS);
    assert_eq!(l.decay, 10 * SEC);
    let m = l.layer("resolver");
    assert_eq!(m.inner, "resolver");
    let pending = m.call(7u8);
    assert_eq!(pending.inner, 7u8);
    assert_eq!(pending.decay, 10 * SEC);
    let ok: Result<u32, String> = Ok(5);
    let (b, feed) = pending.poll(ok).unwrap();
    assert_eq!(feed, 5);
    assert_eq!(b.state, BalancerState::Empty);
    assert_eq!(b.default_rtt, 50 * MS);
    assert_eq!(b.decay, 10 * SEC);
    assert!(b.endpoints.is_empty());
    let err: Result<u32, String> = Err("unresolved".to_string());
    assert_eq!(pending.poll(err).err(), Some("unresolved".to_string()));
}

#[test]
fn batch_keeps_untouched_members() {
    let mut b = ready(vec![Event::Insert { key: 1, weight: 1 }, Event::Insert { key: 2, weight: 1 }]);
    let t = b.select(0, 0).unwrap();
    b.complete(t, Some(7 * MS), SEC);
    let kept = b.endpoints[0];
    assert_eq!(b.apply_batch(&vec![Event::Remove { key: 2 }, Event::Insert { key: 3, weight: 2 }]), Ok(()));
    assert_eq!(keys(&b), vec![1, 3]);
    assert_eq!(b.endpoints[0].ewma.estimate, kept.ewma.estimate);
    assert_eq!(b.endpoints[0].instance, kept.instance);
    assert_eq!(b.endpoints[1].ewma.estimate, 50 * MS);
}

#[test]
fn zero_weight_insert_leaves_existing_member() {
    let mut b = ready(vec![Event::Insert { key: 1, weight: 3 }]);
    b.apply_event(Event::Insert { key: 1, weight: 0 });
    assert_eq!(keys(&b), vec![1]);
    assert_eq!(b.endpoints[0].weight, 3);
}
