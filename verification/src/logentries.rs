use vstd::prelude::*;

verus! {

/// One access-log record of the `logentries` collection. `ip` refers to a
/// `hostdata` record by value; the store enforces no relationship between the
/// two collections, so the deletion operations keep them consistent. `time`
/// is the timestamp as milliseconds since the Unix epoch, the same integer
/// the store persists for a datetime field.
#[derive(Debug, PartialEq, Eq)]
pub struct LogEntry {
    pub ip: String,
    pub time: i64,
    pub method: String,
    pub code: u32,
    pub nbytes: u32,
    pub referrer: String,
    pub ua: String,
    pub line: String,
}

/// Mathematical content of a [`LogEntry`] record.
#[verifier::ext_equal]
pub ghost struct LogEntryView {
    pub ip: Seq<char>,
    pub time: int,
    pub method: Seq<char>,
    pub code: int,
    pub nbytes: int,
    pub referrer: Seq<char>,
    pub ua: Seq<char>,
    pub line: Seq<char>,
}

impl View for LogEntry {
    type V = LogEntryView;

    open spec fn view(&self) -> LogEntryView {
        LogEntryView {
            ip: self.ip@,
            time: self.time as int,
            method: self.method@,
            code: self.code as int,
            nbytes: self.nbytes as int,
            referrer: self.referrer@,
            ua: self.ua@,
            line: self.line@,
        }
    }
}

/// The views of a sequence of log records.
pub open spec fn views_of_logs(s: Seq<LogEntry>) -> Seq<LogEntryView> {
    s.map_values(|e: LogEntry| e@)
}

impl Clone for LogEntry {
    fn clone(&self) -> (r: Self)
        ensures
            r@ == self@,
    {
        LogEntry {
            ip: self.ip.clone(),
            time: self.time,
            method: self.method.clone(),
            code: self.code,
            nbytes: self.nbytes,
            referrer: self.referrer.clone(),
            ua: self.ua.clone(),
            line: self.line.clone(),
        }
    }
}

} // verus!
