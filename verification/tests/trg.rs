use trg::gen::Positive;
use trg::mlu::TrgSignal;
use trg::trg::{TrgBox, Verdict};

fn cascade(drift_veto: i64, scaledown: u32, dead_time: i64) -> TrgBox {
    TrgBox::new(
        Positive::new(drift_veto).unwrap(),
        scaledown,
        Positive::new(dead_time).unwrap(),
    )
}

fn verdicts(trg: &mut TrgBox, times: &[i64]) -> Vec<Verdict> {
    times
        .iter()
        .map(|t| trg.process(&TrgSignal { time: *t }))
        .collect()
}

use Verdict::{Accepted, DeadTime, DriftVeto, Scaledown};

#[test]
fn trg_first_candidate_goes_out() {
    assert_eq!(verdicts(&mut cascade(5, 0, 7), &[-3]), vec![Accepted]);
}

#[test]
fn trg_veto_lasts_up_to_the_watermark() {
    assert_eq!(
        verdicts(&mut cascade(5, 0, 1), &[0, 5, 6]),
        vec![Accepted, DriftVeto, Accepted]
    );
}

#[test]
fn trg_vetoed_candidate_does_not_move_the_watermark() {
    assert_eq!(
        verdicts(&mut cascade(5, 0, 1), &[0, 4, 6, 8]),
        vec![Accepted, DriftVeto, Accepted, DriftVeto]
    );
}

#[test]
fn trg_dead_time_lasts_up_to_the_watermark() {
    assert_eq!(
        verdicts(&mut cascade(1, 0, 7), &[0, 7, 9]),
        vec![Accepted, DeadTime, Accepted]
    );
}

#[test]
fn trg_dead_time_watermark_moves_only_on_output() {
    // The candidate at 6 is held back by the dead time and leaves the
    // dead-time watermark at 7; the one at 8 goes out.
    assert_eq!(
        verdicts(&mut cascade(1, 0, 7), &[0, 6, 8, 14, 16]),
        vec![Accepted, DeadTime, Accepted, DeadTime, Accepted]
    );
}

#[test]
fn trg_veto_watermark_moves_on_every_cleared_candidate() {
    assert_eq!(
        verdicts(&mut cascade(5, 0, 9), &[5, 9, 13, 17, 21]),
        vec![Accepted, DriftVeto, DeadTime, DriftVeto, Accepted]
    );
    assert_eq!(
        verdicts(&mut cascade(5, 1, 1), &[0, 4, 6, 10, 12]),
        vec![Scaledown, DriftVeto, Accepted, DriftVeto, Scaledown]
    );
}

#[test]
fn trg_scaledown_suppresses_the_first_of_each_group() {
    assert_eq!(
        verdicts(&mut cascade(1, 1, 1), &[10, 20, 30, 40, 50]),
        vec![Scaledown, Accepted, Scaledown, Accepted, Scaledown]
    );
    assert_eq!(
        verdicts(&mut cascade(1, 3, 1), &[10, 20, 30, 40, 50, 60, 70, 80]),
        vec![
            Scaledown, Scaledown, Scaledown, Accepted, Scaledown, Scaledown, Scaledown, Accepted
        ]
    );
}

#[test]
fn trg_scaledown_counts_only_cleared_candidates() {
    assert_eq!(
        verdicts(&mut cascade(5, 1, 1), &[10, 12, 20, 22, 30]),
        vec![Scaledown, DriftVeto, Accepted, DriftVeto, Scaledown]
    );
}

#[test]
fn trg_scaledown_counter_starts_again_behind_the_dead_time() {
    assert_eq!(
        verdicts(&mut cascade(1, 1, 100), &[10, 20, 30, 40, 50, 140]),
        vec![Scaledown, Accepted, Scaledown, DeadTime, Scaledown, Accepted]
    );
}

#[test]
fn trg_takes_times_at_the_ends_of_the_range() {
    assert_eq!(
        verdicts(
            &mut cascade(i64::MAX, u32::MAX, i64::MAX),
            &[i64::MIN, i64::MAX]
        ),
        vec![Scaledown, Scaledown]
    );
    assert_eq!(
        verdicts(&mut cascade(i64::MAX, 0, i64::MAX), &[i64::MAX, i64::MAX]),
        vec![Accepted, DriftVeto]
    );
    assert_eq!(
        verdicts(&mut cascade(1, 0, 1), &[i64::MAX, i64::MAX]),
        vec![Accepted, DriftVeto]
    );
}
