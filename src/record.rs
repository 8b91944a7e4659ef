//! The care report record and the payload that callers supply.
use vstd::prelude::*;

verus! {

/// Mathematical model of a [`CareReport`]: text fields as character sequences.
pub struct ReportView {
    pub id: u64,
    pub elder_name: Seq<char>,
    pub caregiver_name: Seq<char>,
    pub report_details: Seq<char>,
    pub timestamp: u64,
    pub updated_at: Option<u64>,
}

/// Model of a [`CareReportPayload`]: the three caller-supplied text fields.
pub struct PayloadView {
    pub elder_name: Seq<char>,
    pub caregiver_name: Seq<char>,
    pub report_details: Seq<char>,
}

/// One care report, as stored and as returned to callers.
#[derive(Clone, Debug)]
pub struct CareReport {
    pub id: u64,
    pub elder_name: String,
    pub caregiver_name: String,
    pub report_details: String,
    pub timestamp: u64,
    pub updated_at: Option<u64>,
}

/// The text fields that callers supply when creating or updating a report.
#[derive(Clone, Debug)]
pub struct CareReportPayload {
    pub elder_name: String,
    pub caregiver_name: String,
    pub report_details: String,
}

impl View for CareReport {
    type V = ReportView;

    open spec fn view(&self) -> ReportView {
        ReportView {
            id: self.id,
            elder_name: self.elder_name@,
            caregiver_name: self.caregiver_name@,
            report_details: self.report_details@,
            timestamp: self.timestamp,
            updated_at: self.updated_at,
        }
    }
}

impl View for CareReportPayload {
    type V = PayloadView;

    open spec fn view(&self) -> PayloadView {
        PayloadView {
            elder_name: self.elder_name@,
            caregiver_name: self.caregiver_name@,
            report_details: self.report_details@,
        }
    }
}

impl CareReportPayload {
    pub fn new(elder_name: String, caregiver_name: String, report_details: String) -> (r: Self)
        ensures
            r.elder_name@ == elder_name@,
            r.caregiver_name@ == caregiver_name@,
            r.report_details@ == report_details@,
    {
        CareReportPayload { elder_name, caregiver_name, report_details }
    }
}

} // verus!
