use brk_core::{HistogramRaw, HistogramRing};

fn hist(bin: usize, times: u32) -> HistogramRaw {
    let mut h = HistogramRaw::zeros();
    for _ in 0..times {
        h.increment(bin);
    }
    h
}

#[test]
fn ring_keeps_the_newest_histograms_newest_first_by_age() {
    let mut ring = HistogramRing::new(3);
    assert_eq!(ring.filled(), 0);
    for k in 1..=4u32 {
        ring.push(&hist(k as usize, k));
    }
    assert_eq!(ring.filled(), 3);
    assert_eq!(ring.at_age(0).get(4), 4);
    assert_eq!(ring.at_age(1).get(3), 3);
    assert_eq!(ring.at_age(2).get(2), 2);
    let recent = ring.recent(2);
    assert_eq!(recent.len(), 2);
    assert_eq!(recent[0].get(3), 3);
    assert_eq!(recent[1].get(4), 4);
    assert_eq!(ring.recent(10).len(), 3);
}

#[test]
fn histogram_counts_and_totals() {
    let mut h = HistogramRaw::zeros();
    assert_eq!(h.total(), 0);
    h.increment(7);
    h.increment(7);
    h.increment(2_399);
    assert_eq!(h.get(7), 2);
    assert_eq!(h.total(), 3);
    assert_eq!(h.len(), 2_400);
}
