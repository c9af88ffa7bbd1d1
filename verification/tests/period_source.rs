use lime_rtw::events::ClockId;
use lime_rtw::job_separator::JobSeparator;
use lime_rtw::model_extractors::arrival::periodic::{period_source, PeriodSource};

#[test]
fn absolute_monotonic_sleeps_give_periods_on_arrival() {
    let sep = JobSeparator::ClockNanosleep { clock_id: ClockId::ClockMonotonic, abs_time: true };
    assert_eq!(period_source(&sep), PeriodSource::OnArrival);
}

#[test]
fn other_separators_give_periods_on_release() {
    let rel = JobSeparator::ClockNanosleep { clock_id: ClockId::ClockMonotonic, abs_time: false };
    assert_eq!(period_source(&rel), PeriodSource::OnRelease);
    let rt = JobSeparator::ClockNanosleep { clock_id: ClockId::ClockRealtime, abs_time: true };
    assert_eq!(period_source(&rt), PeriodSource::OnRelease);
    assert_eq!(period_source(&JobSeparator::Pause), PeriodSource::OnRelease);
}
