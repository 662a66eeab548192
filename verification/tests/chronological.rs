use datetime::{Duration, Instant};

use timewise_deque::{Timestamp, TimewiseDeque};

#[derive(Debug)]
struct Event {
    val: usize,
}

fn moment(instant: Instant) -> Timestamp {
    Timestamp::new(instant.seconds(), instant.milliseconds())
}

#[test]
fn it_works() {
    let mut queue = TimewiseDeque::<Event>::new();

    queue.add_item(moment(Instant::now()), Event { val: 10 });
    println!("{:?}", queue);
    let now = Instant::now();
    queue.add_item(moment(now), Event { val: 10 });
    println!("{:?}", queue);

    queue.prune_before(&moment(now));
    println!("{:?}", queue);
    queue.prune_before(&moment(Instant::now()));
    println!("{:?}", queue);

    queue.add_item(moment(Instant::now()), Event { val: 10 });
    queue.add_item(moment(Instant::now()), Event { val: 10 });
    queue.add_item(moment(Instant::now()), Event { val: 10 });

    for item in queue.fetch_items_since(moment(now)) {
        println!("{:?}", item)
    }

    let sum = queue
        .fetch_items_since(moment(now - Duration::of_ms(10, 0)))
        .iter()
        .fold(0, |acc, (_t, event)| acc + event.val);
    println!("{sum}")
}
