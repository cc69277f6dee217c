use vstd::prelude::*;

verus! {

/// Why a simulator run gave no figure.
#[derive(Debug)]
pub enum SimError {
    /// The simulator binary is not a file at this path.
    BinaryNotFound { path: String },
    /// The run left no new parquet file in this directory.
    NoParquetFile { data_dir: String },
    /// Reading the new parquet file at this position of the list failed; of
    /// several such files, the last one is named.
    ScanFailed { file_index: usize },
    /// The new parquet files held no time tag.
    NoTimeTags,
    /// The simulator did not stop in time after it was interrupted.
    ShutdownTimedOut,
    /// The simulator's output ended before a measurement was complete.
    TelemetryEnded,
}

/// The text that describes `e`.
pub open spec fn error_text(e: SimError) -> Seq<char> {
    match e {
        SimError::BinaryNotFound { path } => path@
            + " not found; build fresnel with cargo build --release first"@,
        SimError::NoParquetFile { data_dir } => "run produced no parquet file in "@ + data_dir@,
        SimError::ScanFailed { .. } => "reading a parquet file of the run failed"@,
        SimError::NoTimeTags => "run produced a parquet file with zero time tags"@,
        SimError::ShutdownTimedOut =>
            "fresnel did not exit within 10s of SIGINT; the parquet file would be truncated"@,
        SimError::TelemetryEnded => "fresnel exited before emitting enough telemetry lines"@,
    }
}

impl SimError {
    /// The text that describes this error.
    pub fn message(&self) -> (m: String)
        ensures
            m@ == error_text(*self),
    {
        match self {
            SimError::BinaryNotFound { path } => {
                let mut m = path.clone();
                m.append(" not found; build fresnel with cargo build --release first");
                m
            },
            SimError::NoParquetFile { data_dir } => {
                let mut m = "run produced no parquet file in ".to_owned();
                m.append(data_dir.as_str());
                m
            },
            SimError::ScanFailed { .. } => "reading a parquet file of the run failed".to_owned(),
            SimError::NoTimeTags => "run produced a parquet file with zero time tags".to_owned(),
            SimError::ShutdownTimedOut =>
                "fresnel did not exit within 10s of SIGINT; the parquet file would be truncated".to_owned(),
            SimError::TelemetryEnded =>
                "fresnel exited before emitting enough telemetry lines".to_owned(),
        }
    }
}

} // verus!
