use select_all::select_all::{select_all, Polled, Pulled, SelectAll, Source};

/// A source that follows a fixed script of pull results. After the script
/// it reports exhaustion. Each time it is not ready it records its slot in
/// the context, as a real source would arrange for a wake.
struct Script {
    steps: Vec<Pulled<u32, String>>,
    pos: usize,
}

fn script(steps: Vec<Pulled<u32, String>>) -> Script {
    Script { steps, pos: 0 }
}

fn items(values: &[u32]) -> Script {
    script(values.iter().map(|v| Pulled::Item(*v)).collect())
}

impl Source<Vec<usize>> for Script {
    type Item = u32;
    type Error = String;

    fn pull(&mut self, cx: &mut Vec<usize>, slot: usize) -> Pulled<u32, String> {
        if self.pos >= self.steps.len() {
            return Pulled::Exhausted;
        }
        let step = match &self.steps[self.pos] {
            Pulled::NotReady => Pulled::NotReady,
            Pulled::Item(v) => Pulled::Item(*v),
            Pulled::Exhausted => Pulled::Exhausted,
            Pulled::Failed(e) => Pulled::Failed(e.clone()),
        };
        self.pos += 1;
        if let Pulled::NotReady = step {
            cx.push(slot);
        }
        step
    }
}

/// Polls until completion, delivering every requested wake before the next
/// poll, and collects what the polls reported.
fn drain(set: &mut SelectAll<Script>) -> Vec<Polled<u32, String>> {
    let mut out = Vec::new();
    let mut wakes: Vec<usize> = Vec::new();
    for _ in 0..1000 {
        for slot in wakes.drain(..) {
            set.wake(slot);
        }
        match set.poll_next(&mut wakes) {
            Polled::Completed => {
                out.push(Polled::Completed);
                return out;
            }
            Polled::Pending => {}
            other => out.push(other),
        }
    }
    panic!("the set did not complete");
}

fn items_of(out: &[Polled<u32, String>]) -> Vec<u32> {
    out.iter()
        .filter_map(|p| match p {
            Polled::ItemReady(v) => Some(*v),
            _ => None,
        })
        .collect()
}

#[test]
fn empty_set_completes_at_once() {
    let mut set: SelectAll<Script> = SelectAll::new();
    assert_eq!(set.len(), 0);
    assert!(set.is_empty());
    let mut wakes = Vec::new();
    assert_eq!(set.poll_next(&mut wakes), Polled::Completed);
    assert!(wakes.is_empty());
}

#[test]
fn one_source_yields_its_items_then_completes() {
    let mut set = SelectAll::new();
    set.push(items(&[7, 9]));
    let mut wakes = Vec::new();
    assert_eq!(set.poll_next(&mut wakes), Polled::ItemReady(7));
    assert_eq!(set.len(), 1);
    assert_eq!(set.poll_next(&mut wakes), Polled::ItemReady(9));
    assert_eq!(set.len(), 1);
    assert_eq!(set.poll_next(&mut wakes), Polled::Completed);
    assert_eq!(set.len(), 0);
}

#[test]
fn push_is_counted_at_once_and_pulled_on_next_poll() {
    let mut set = SelectAll::new();
    set.push(items(&[1]));
    let mut wakes = Vec::new();
    assert_eq!(set.poll_next(&mut wakes), Polled::ItemReady(1));
    set.push(items(&[2]));
    assert_eq!(set.len(), 2);
    let out = drain(&mut set);
    let mut got = items_of(&out);
    got.sort();
    assert_eq!(got, vec![2]);
    assert_eq!(set.len(), 0);
}

#[test]
fn failure_is_reported_once_and_others_go_on() {
    let mut set = SelectAll::new();
    set.push(script(vec![Pulled::Failed("broken".to_string())]));
    set.push(items(&[4, 5]));
    assert_eq!(set.len(), 2);
    let mut wakes = Vec::new();
    assert_eq!(set.poll_next(&mut wakes), Polled::Failed("broken".to_string()));
    assert_eq!(set.len(), 1);
    let out = drain(&mut set);
    assert_eq!(out, vec![Polled::ItemReady(4), Polled::ItemReady(5), Polled::Completed]);
}

#[test]
fn completion_repeats_once_reached() {
    let mut set = SelectAll::new();
    set.push(items(&[3]));
    let mut wakes = Vec::new();
    assert_eq!(set.poll_next(&mut wakes), Polled::ItemReady(3));
    assert_eq!(set.poll_next(&mut wakes), Polled::Completed);
    assert_eq!(set.len(), 0);
    assert_eq!(set.poll_next(&mut wakes), Polled::Completed);
    assert_eq!(set.len(), 0);
    assert!(set.is_empty());
}

#[test]
fn every_item_surfaces_exactly_once() {
    let mut set = select_all(vec![
        script(vec![Pulled::Item(1), Pulled::NotReady, Pulled::Item(2), Pulled::Item(3)]),
        script(vec![Pulled::NotReady, Pulled::NotReady, Pulled::Item(10)]),
        items(&[20, 21, 22]),
        script(vec![]),
    ]);
    assert_eq!(set.len(), 4);
    let out = drain(&mut set);
    let mut got = items_of(&out);
    got.sort();
    assert_eq!(got, vec![1, 2, 3, 10, 20, 21, 22]);
    assert_eq!(out.last(), Some(&Polled::Completed));
    assert_eq!(set.len(), 0);
}

#[test]
fn waiting_member_gives_pending_until_woken() {
    let mut set = SelectAll::new();
    let slot = set.push(script(vec![Pulled::NotReady, Pulled::Item(8)]));
    let mut wakes = Vec::new();
    assert_eq!(set.poll_next(&mut wakes), Polled::Pending);
    assert_eq!(wakes, vec![slot]);
    assert_eq!(set.len(), 1);
    // Without a wake the member is not pulled again.
    let mut none = Vec::new();
    assert_eq!(set.poll_next(&mut none), Polled::Pending);
    assert!(none.is_empty());
    set.wake(slot);
    assert_eq!(set.poll_next(&mut none), Polled::ItemReady(8));
}

#[test]
fn exhausted_member_is_passed_over_within_one_poll() {
    let mut set = select_all(vec![script(vec![]), items(&[6])]);
    let mut wakes = Vec::new();
    assert_eq!(set.poll_next(&mut wakes), Polled::ItemReady(6));
    assert_eq!(set.len(), 1);
}

#[test]
fn exhaustion_of_every_member_completes_in_one_poll() {
    let mut set = select_all(vec![script(vec![]), script(vec![]), script(vec![])]);
    let mut wakes = Vec::new();
    assert_eq!(set.poll_next(&mut wakes), Polled::Completed);
    assert_eq!(set.len(), 0);
}

#[test]
fn select_all_queues_sources_in_order() {
    let mut set = select_all(vec![items(&[1]), items(&[2]), items(&[3])]);
    assert_eq!(set.len(), 3);
    let (first, src) = set.take_ready().unwrap();
    assert_eq!(first, 0);
    assert_eq!(set.settle(first, src, Pulled::<u32, String>::NotReady), None);
    let (second, src) = set.take_ready().unwrap();
    assert_eq!(second, 1);
    assert_eq!(set.settle(second, src, Pulled::<u32, String>::Exhausted), None);
    assert_eq!(set.len(), 2);
    set.wake(first);
    let out = drain(&mut set);
    let mut got = items_of(&out);
    got.sort();
    assert_eq!(got, vec![1, 3]);
}

#[test]
fn settle_reports_item_and_rearms() {
    let mut set = SelectAll::new();
    set.push(items(&[]));
    let (slot, src) = set.take_ready().unwrap();
    assert_eq!(set.settle(slot, src, Pulled::<u32, String>::Item(42)), Some(Polled::ItemReady(42)));
    assert_eq!(set.len(), 1);
    let (again, _) = set.take_ready().unwrap();
    assert_eq!(again, slot);
}

#[test]
fn settle_reports_failure_and_removes() {
    let mut set = SelectAll::new();
    set.push(items(&[]));
    let (slot, src) = set.take_ready().unwrap();
    assert_eq!(
        set.settle(slot, src, Pulled::<u32, String>::Failed("e".to_string())),
        Some(Polled::Failed("e".to_string()))
    );
    assert_eq!(set.len(), 0);
}

#[test]
fn settle_drops_exhausted_silently() {
    let mut set = SelectAll::new();
    set.push(items(&[]));
    let (slot, src) = set.take_ready().unwrap();
    assert_eq!(set.settle(slot, src, Pulled::<u32, String>::Exhausted), None);
    assert_eq!(set.len(), 0);
    assert!(set.take_ready().is_none());
}

#[test]
fn settle_puts_back_member_that_is_not_ready() {
    let mut set = SelectAll::new();
    set.push(items(&[]));
    let (slot, src) = set.take_ready().unwrap();
    assert_eq!(set.settle(slot, src, Pulled::<u32, String>::NotReady), None);
    assert_eq!(set.len(), 1);
    assert!(set.take_ready().is_none());
    set.wake(slot);
    let (again, _) = set.take_ready().unwrap();
    assert_eq!(again, slot);
}

#[test]
fn wake_during_pull_is_not_lost() {
    let mut set = SelectAll::new();
    set.push(items(&[]));
    let (slot, src) = set.take_ready().unwrap();
    set.wake(slot);
    assert_eq!(set.settle(slot, src, Pulled::<u32, String>::NotReady), None);
    let (again, _) = set.take_ready().unwrap();
    assert_eq!(again, slot);
}
