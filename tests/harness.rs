use pmc_harness::descriptor::{PerfCtlDescriptor, NUM_SLOTS};
use pmc_harness::error::HarnessError;
use pmc_harness::event::Event;
use pmc_harness::layout::{
    check_labels, nop_bytes, padding_bytes, padding_plan, plan_region, Label, BARRIER_LEN,
    CACHE_LINE,
};
use pmc_harness::record::{
    parse_decimal, parse_record, parse_report, render_record, render_report, write_decimal,
};
use pmc_harness::run::{delta, MeasurementRun, Reading};
use pmc_harness::stats::Statistics;

fn branch_events() -> PerfCtlDescriptor {
    PerfCtlDescriptor::new()
        .set(0, Event::LsPrefInstrDisp(0x01))
        .unwrap()
        .set(1, Event::ExRetBrnMisp(0x00))
        .unwrap()
        .set(2, Event::ExRetBrn(0x00))
        .unwrap()
}

fn reading(before: [u64; 4], after: [u64; 4]) -> Reading {
    Reading { before, after }
}

#[test]
fn event_codes_and_names() {
    assert_eq!(Event::LsPrefInstrDisp(0x01).selector(), 0x4b);
    assert_eq!(Event::LsPrefInstrDisp(0x01).unit_mask(), 0x01);
    assert_eq!(Event::ExRetBrn(0).selector(), 0xc2);
    assert_eq!(Event::ExRetBrnMisp(0).selector(), 0xc3);
    assert_eq!(Event::BpDeReDirect(0).selector(), 0x91);
    assert_eq!(Event::DeDisOpsFromDecoder(0x08).unit_mask(), 0x08);
    assert_eq!(Event::ExRetBrnMisp(0).name(), "ExRetBrnMisp");
    assert_eq!(Event::BpDeReDirect(0).name(), "BpDeReDirect");
}

#[test]
fn descriptor_binds_slots() {
    let d = branch_events();
    assert_eq!(d.get(0), Some(Event::LsPrefInstrDisp(0x01)));
    assert_eq!(d.get(1), Some(Event::ExRetBrnMisp(0)));
    assert_eq!(d.get(2), Some(Event::ExRetBrn(0)));
    assert_eq!(d.get(3), None);
    let d = d.set(3, Event::BpDeReDirect(0)).unwrap();
    assert_eq!(d.get(3), Some(Event::BpDeReDirect(0)));
    let d = d.set(0, Event::LsNotHaltedCyc(0)).unwrap();
    assert_eq!(d.get(0), Some(Event::LsNotHaltedCyc(0)));
}

#[test]
fn descriptor_rejects_slot_out_of_range() {
    let r = PerfCtlDescriptor::new().set(NUM_SLOTS, Event::ExRetBrn(0));
    assert_eq!(r.err(), Some(HarnessError::Programming));
    let r = PerfCtlDescriptor::new().set(usize::MAX, Event::ExRetBrn(0));
    assert_eq!(r.err(), Some(HarnessError::Programming));
}

#[test]
fn delta_per_slot() {
    let d = delta(&reading([10, 20, 30, 40], [10, 25, 31, 1040])).unwrap();
    assert_eq!(d, [0, 5, 1, 1000]);
}

#[test]
fn delta_rejects_counter_wrap() {
    let r = delta(&reading([10, 20, 30, 40], [10, 25, 29, 1040]));
    assert_eq!(r, Err(HarnessError::CounterWrap));
}

#[test]
fn run_iter_produces_one_sample_per_iteration() {
    let mut run = MeasurementRun::new("jcc (always-taken)".to_string(), branch_events());
    let readings: Vec<Reading> = (0..4096u64)
        .map(|i| reading([i, 2 * i, 3 * i, 0], [i, 2 * i, 3 * i + 1, 0]))
        .collect();
    run.run_iter(&readings).unwrap();
    assert_eq!(run.samples.len(), 4096);
    assert_eq!(run.samples[17], [0, 0, 1, 0]);
    let st = run.statistics(2);
    assert_eq!(st.count, 4096);
    assert_eq!(st.min, 1);
    assert_eq!(st.max, 1);
    let misp = run.statistics(1);
    assert_eq!(misp.count, 4096);
    assert_eq!(misp.sum, 0);
    assert_eq!(misp.mean_floor(), 0);
    run.run_iter(&readings[..10].to_vec()).unwrap();
    assert_eq!(run.samples.len(), 4106);
}

#[test]
fn run_iter_keeps_execution_order() {
    let mut run = MeasurementRun::new("order".to_string(), branch_events());
    let readings = vec![
        reading([0, 0, 0, 0], [3, 0, 0, 0]),
        reading([0, 0, 0, 0], [1, 0, 0, 0]),
        reading([0, 0, 0, 0], [2, 0, 0, 0]),
    ];
    run.run_iter(&readings).unwrap();
    assert_eq!(run.column(0), vec![3, 1, 2]);
}

#[test]
fn run_iter_appends_nothing_on_wrap() {
    let mut run = MeasurementRun::new("wrap".to_string(), branch_events());
    run.run_iter(&vec![reading([0; 4], [1; 4])]).unwrap();
    let readings = vec![reading([0; 4], [1; 4]), reading([5, 5, 5, 5], [6, 4, 6, 6])];
    assert_eq!(run.run_iter(&readings), Err(HarnessError::CounterWrap));
    assert_eq!(run.samples.len(), 1);
    assert_eq!(run.description, "wrap");
}

#[test]
fn quiet_slot_is_zero_in_every_sample() {
    let mut run = MeasurementRun::new("no branch".to_string(), branch_events());
    let readings: Vec<Reading> = (0..4096u64)
        .map(|i| reading([i, 7, 9, 0], [i + 2, 7, 9, 0]))
        .collect();
    run.run_iter(&readings).unwrap();
    assert!(run.samples.iter().all(|s| s[1] == 0 && s[2] == 0));
    let st = run.statistics(1);
    assert_eq!((st.min, st.max, st.sum, st.sum_sq_hi, st.sum_sq_lo), (0, 0, 0, 0, 0));
}

#[test]
fn statistics_of_constant_sequence() {
    let st = Statistics::of(&vec![7u64; 10]);
    assert_eq!(st.count, 10);
    assert_eq!(st.min, 7);
    assert_eq!(st.max, 7);
    assert_eq!(st.sum, 70);
    assert_eq!((st.sum_sq_hi, st.sum_sq_lo), (0, 490));
    assert_eq!(st.mean_floor(), 7);
    let n = st.count as u128;
    assert_eq!(n * st.sum_sq_lo - st.sum * st.sum, 0);
}

#[test]
fn statistics_exact_values() {
    let st = Statistics::of(&vec![4, 1, 3, 2]);
    assert_eq!(st, Statistics { count: 4, min: 1, max: 4, sum: 10, sum_sq_hi: 0, sum_sq_lo: 30 });
    assert_eq!(st.mean_floor(), 2);
    let mean = st.sum as f64 / st.count as f64;
    let var = (st.count as u128 * st.sum_sq_lo - st.sum * st.sum) as f64 / 16.0;
    assert!((mean - 2.5).abs() < 1e-12);
    assert!((var.sqrt() - 1.25f64.sqrt()).abs() < 1e-12);
}

#[test]
fn statistics_of_empty_sequence() {
    let st = Statistics::of(&Vec::new());
    assert_eq!(st, Statistics { count: 0, min: 0, max: 0, sum: 0, sum_sq_hi: 0, sum_sq_lo: 0 });
    assert_eq!(st.mean_floor(), 0);
}

#[test]
fn statistics_of_largest_values() {
    let m = u64::MAX as u128;
    let one = Statistics::of(&vec![u64::MAX]);
    assert_eq!((one.sum_sq_hi, one.sum_sq_lo), (0, m * m));
    // 2 * m^2 = 2^129 - 2^66 + 2 = 1 * 2^128 + (2^128 - 2^66 + 2).
    let two = Statistics::of(&vec![u64::MAX, u64::MAX]);
    assert_eq!(two.count, 2);
    assert_eq!(two.min, u64::MAX);
    assert_eq!(two.sum, 2 * m);
    assert_eq!(two.sum_sq_hi, 1);
    assert_eq!(two.sum_sq_lo, (m * m) - (u128::MAX - m * m) - 1);
    assert_eq!(two.sum_sq_lo, u128::MAX - (1u128 << 66) + 3);
}

#[test]
fn decimal_digits() {
    let mut out = b"x".to_vec();
    write_decimal(0, &mut out);
    write_decimal(1234567890, &mut out);
    assert_eq!(out, b"x01234567890".to_vec());
    let mut out = Vec::new();
    write_decimal(u128::MAX, &mut out);
    assert_eq!(out, u128::MAX.to_string().into_bytes());
}

#[test]
fn decimal_parsing() {
    let s = b"4096 7".to_vec();
    assert_eq!(parse_decimal(&s, 0, b' '), Some((4096, 5)));
    assert_eq!(parse_decimal(&s, 5, b' '), None);
    assert_eq!(parse_decimal(&s, 4, b' '), None);
    let big = format!("{}0 ", u128::MAX).into_bytes();
    assert_eq!(parse_decimal(&big, 0, b' '), None);
    let max = format!("{} ", u128::MAX).into_bytes();
    assert_eq!(parse_decimal(&max, 0, b' '), Some((u128::MAX, max.len())));
}

#[test]
fn record_text() {
    let st = Statistics { count: 4096, min: 0, max: 1, sum: 3, sum_sq_hi: 5, sum_sq_lo: 3 };
    assert_eq!(render_record(2, &st), b"2 4096 0 1 3 5 3\n".to_vec());
}

#[test]
fn record_round_trip() {
    let mut run = MeasurementRun::new("jmp direct".to_string(), branch_events());
    let readings: Vec<Reading> = (0..100u64)
        .map(|i| reading([0; 4], [i % 3, 1, i, 1 << 40]))
        .collect();
    run.run_iter(&readings).unwrap();
    for slot in 0..NUM_SLOTS {
        let st = run.statistics(slot);
        let text = render_record(slot as u64, &st);
        assert_eq!(parse_record(&text), Some((slot as u64, st)));
    }
    let extreme = Statistics {
        count: u64::MAX,
        min: 0,
        max: u64::MAX,
        sum: u128::MAX,
        sum_sq_hi: u64::MAX,
        sum_sq_lo: u128::MAX,
    };
    assert_eq!(parse_record(&render_record(u64::MAX, &extreme)), Some((u64::MAX, extreme)));
}

#[test]
fn record_rejects_malformed_text() {
    assert_eq!(parse_record(&b"2 4096 0 1 3 0\n".to_vec()), None);
    assert_eq!(parse_record(&b"2 4096 0 1 3 0 3\nx".to_vec()), None);
    assert_eq!(parse_record(&b"2 4096 0 1 3 0 3".to_vec()), None);
    assert_eq!(parse_record(&b"2  4096 0 1 3 0 3\n".to_vec()), None);
    assert_eq!(parse_record(&b"2 4096 0 1 3 18446744073709551616 3\n".to_vec()), None);
    assert_eq!(parse_record(&b"".to_vec()), None);
    let too_big = format!("18446744073709551616 1 1 1 1 0 1\n").into_bytes();
    assert_eq!(parse_record(&too_big), None);
    assert_eq!(
        parse_record(&b"007 1 1 1 1 0 1\n".to_vec()),
        Some((7, Statistics { count: 1, min: 1, max: 1, sum: 1, sum_sq_hi: 0, sum_sq_lo: 1 }))
    );
}

#[test]
fn padding_matches_preamble() {
    assert_eq!(padding_plan(12), vec![15, 15, 15, 4]);
    assert_eq!(padding_plan(61), Vec::<u8>::new());
    assert_eq!(padding_plan(0), vec![15, 15, 15, 15, 1]);
    assert_eq!(padding_plan(54), vec![4, 1, 1, 1]);
    assert_eq!(padding_plan(31), vec![15, 15]);
}

#[test]
fn nop_encodings() {
    assert_eq!(nop_bytes(4), vec![0x0f, 0x1f, 0x40, 0x00]);
    assert_eq!(nop_bytes(1), vec![0x90]);
    assert_eq!(nop_bytes(15).len(), 15);
    let bytes = padding_bytes(&vec![15, 4, 1]);
    assert_eq!(bytes.len(), 20);
    assert_eq!(&bytes[15..], &[0x0f, 0x1f, 0x40, 0x00, 0x90]);
}

#[test]
fn aligned_body_starts_on_cache_line() {
    let labels = vec![Label::BranchTarget, Label::End];
    for prefix in 0..300u64 {
        let plan = plan_region(prefix, true, &labels).unwrap();
        assert_eq!(plan.body_offset % CACHE_LINE, 0);
        assert_eq!(plan.body_offset, prefix + plan.padding.len() as u64 + BARRIER_LEN);
    }
    let plan = plan_region(12, false, &labels).unwrap();
    assert_eq!(plan.padding.len(), 0);
    assert_eq!(plan.body_offset, 15);
}

#[test]
fn region_requires_labels() {
    assert_eq!(check_labels(&vec![Label::End, Label::BranchTarget]), Ok(()));
    assert_eq!(check_labels(&vec![Label::End]), Err(HarnessError::Assembly));
    assert_eq!(check_labels(&vec![Label::BranchTarget]), Err(HarnessError::Assembly));
    assert_eq!(check_labels(&vec![]), Err(HarnessError::Assembly));
    assert!(plan_region(12, true, &vec![Label::BranchTarget]).is_err());
}

#[test]
fn error_messages() {
    for e in [
        HarnessError::Privilege,
        HarnessError::Programming,
        HarnessError::Assembly,
        HarnessError::CounterWrap,
    ] {
        assert!(!e.message().is_empty());
    }
    assert_eq!(HarnessError::CounterWrap.message(), "counter went backwards during a sample");
    assert_eq!(HarnessError::Privilege.message(), "counter-control interface unavailable");
}

#[test]
fn report_round_trip() {
    let mut run = MeasurementRun::new("jmp direct".to_string(), branch_events());
    let readings: Vec<Reading> = (0..4096u64)
        .map(|i| reading([0; 4], [1, i % 2, 1, 0]))
        .collect();
    run.run_iter(&readings).unwrap();
    let recs = run.records();
    assert_eq!(recs.len(), 3);
    assert_eq!(recs[1], (1, run.statistics(1)));
    let text = render_report(&recs);
    assert_eq!(
        text,
        b"0 4096 1 1 4096 0 4096\n1 4096 0 1 2048 0 2048\n2 4096 1 1 4096 0 4096\n".to_vec()
    );
    assert_eq!(run.report(), text);
    assert_eq!(parse_report(&text), Some(recs));
}

#[test]
fn report_edge_cases() {
    assert_eq!(render_report(&Vec::new()), Vec::<u8>::new());
    assert_eq!(parse_report(&Vec::new()), Some(Vec::new()));
    assert_eq!(parse_report(&b"0 1 1 1 1 0 1\n1 1 1 1 1 0 1".to_vec()), None);
    assert_eq!(parse_report(&b"0 1 1 1 1 0 1\n\n".to_vec()), None);
    assert_eq!(parse_report(&b"0 1 1 1 1 0\n".to_vec()), None);
}

#[test]
fn records_only_for_bound_slots() {
    let d = PerfCtlDescriptor::new()
        .set(3, Event::BpDeReDirect(0))
        .unwrap()
        .set(1, Event::ExRetBrn(0))
        .unwrap();
    let mut run = MeasurementRun::new("sparse".to_string(), d);
    run.run_iter(&vec![reading([0; 4], [1, 2, 3, 4]), reading([0; 4], [1, 6, 3, 8])]).unwrap();
    let recs = run.records();
    assert_eq!(
        recs,
        vec![
            (1, Statistics { count: 2, min: 2, max: 6, sum: 8, sum_sq_hi: 0, sum_sq_lo: 40 }),
            (3, Statistics { count: 2, min: 4, max: 8, sum: 12, sum_sq_hi: 0, sum_sq_lo: 80 }),
        ]
    );
    assert_eq!(run.report(), b"1 2 2 6 8 0 40\n3 2 4 8 12 0 80\n".to_vec());
    let empty = MeasurementRun::new("none".to_string(), PerfCtlDescriptor::new());
    assert_eq!(empty.records(), Vec::new());
    assert_eq!(empty.report(), Vec::<u8>::new());
}

#[test]
fn prefetch_delta_gives_positive_statistics() {
    let mut run = MeasurementRun::new("jmp direct".to_string(), branch_events());
    let readings: Vec<Reading> = (0..4096u64)
        .map(|i| reading([100 * i, 0, 0, 0], [100 * i + (i % 2), 0, 0, 0]))
        .collect();
    run.run_iter(&readings).unwrap();
    let st = run.statistics(0);
    assert_eq!(st.count, 4096);
    assert_eq!(st.max, 1);
    assert_eq!(st.sum, 2048);
}
