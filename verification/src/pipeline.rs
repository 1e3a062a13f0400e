//! The trimming steps of a run, in the order in which a read passes through
//! them.

use crate::qual_trim::{QualTrimEnd, QualTrimStart};
use crate::trimming::{Trimming, Window};
use vstd::prelude::*;

verus! {

/// Configuration of quality trimming at the end of a read.
#[derive(Debug, Eq, PartialEq, Ord, PartialOrd, Hash, Clone)]
pub struct QualTrimEndConf {
    threshold: u8,
}

impl QualTrimEndConf {
    /// The quality threshold.
    pub closed spec fn threshold(&self) -> u8 {
        self.threshold
    }

    /// Trimming at the end with the quality threshold `threshold`.
    pub fn new(threshold: u8) -> (conf: Self)
        ensures
            conf.threshold() == threshold,
    {
        QualTrimEndConf { threshold }
    }

    /// The quality threshold.
    pub fn threshold_value(&self) -> (threshold: u8)
        ensures
            threshold == self.threshold(),
    {
        self.threshold
    }

    /// The trimming step that this configures.
    pub fn qual_trim_end(&self) -> (trim: QualTrimEnd)
        ensures
            trim.threshold() == self.threshold(),
    {
        QualTrimEnd::new(self.threshold)
    }
}

/// Configuration of quality trimming at the start of a read.
#[derive(Debug, Eq, PartialEq, Ord, PartialOrd, Hash, Clone)]
pub struct QualTrimStartConf {
    threshold: u8,
}

impl QualTrimStartConf {
    /// The quality threshold.
    pub closed spec fn threshold(&self) -> u8 {
        self.threshold
    }

    /// Trimming at the start with the quality threshold `threshold`.
    pub fn new(threshold: u8) -> (conf: Self)
        ensures
            conf.threshold() == threshold,
    {
        QualTrimStartConf { threshold }
    }

    /// The quality threshold.
    pub fn threshold_value(&self) -> (threshold: u8)
        ensures
            threshold == self.threshold(),
    {
        self.threshold
    }

    /// The trimming step that this configures.
    pub fn qual_trim_start(&self) -> (trim: QualTrimStart)
        ensures
            trim.threshold() == self.threshold(),
    {
        QualTrimStart::new(self.threshold)
    }
}

/// Configuration of a pipeline.
#[derive(Debug, Eq, PartialEq, Ord, PartialOrd, Hash, Clone)]
pub struct PipelineConf {
    qual_trim_start: QualTrimStartConf,
    qual_trim_end: QualTrimEndConf,
}

impl PipelineConf {
    /// Configuration of trimming at the start.
    pub closed spec fn start(&self) -> QualTrimStartConf {
        self.qual_trim_start
    }

    /// Configuration of trimming at the end.
    pub closed spec fn end(&self) -> QualTrimEndConf {
        self.qual_trim_end
    }

    /// A pipeline configuration of the two steps.
    pub fn new(qual_trim_start: QualTrimStartConf, qual_trim_end: QualTrimEndConf) -> (conf: Self)
        ensures
            conf.start() == qual_trim_start,
            conf.end() == qual_trim_end,
    {
        PipelineConf { qual_trim_start, qual_trim_end }
    }

    /// Configuration of trimming at the start.
    pub fn qual_trim_start_conf(&self) -> (conf: &QualTrimStartConf)
        ensures
            *conf == self.start(),
    {
        &self.qual_trim_start
    }

    /// Configuration of trimming at the end.
    pub fn qual_trim_end_conf(&self) -> (conf: &QualTrimEndConf)
        ensures
            *conf == self.end(),
    {
        &self.qual_trim_end
    }
}

/// The trimming steps that a read passes through: quality trimming at the
/// start, then at the end, each if it is there.
#[derive(Eq, PartialEq, Ord, PartialOrd, Hash, Clone)]
pub struct Pipeline {
    qual_trim_start: Option<QualTrimStart>,
    qual_trim_end: Option<QualTrimEnd>,
}

impl Pipeline {
    /// The step at the start, if there is one.
    pub closed spec fn start(&self) -> Option<QualTrimStart> {
        self.qual_trim_start
    }

    /// The step at the end, if there is one.
    pub closed spec fn end(&self) -> Option<QualTrimEnd> {
        self.qual_trim_end
    }

    /// A pipeline of the given steps.
    pub fn new(
        qual_trim_start: Option<QualTrimStart>,
        qual_trim_end: Option<QualTrimEnd>,
    ) -> (pipeline: Self)
        ensures
            pipeline.start() == qual_trim_start,
            pipeline.end() == qual_trim_end,
    {
        Pipeline { qual_trim_start, qual_trim_end }
    }

    /// The step at the start, if there is one.
    pub fn qual_trim_start(&self) -> (step: &Option<QualTrimStart>)
        ensures
            *step == self.start(),
    {
        &self.qual_trim_start
    }

    /// The step at the end, if there is one.
    pub fn qual_trim_end(&self) -> (step: &Option<QualTrimEnd>)
        ensures
            *step == self.end(),
    {
        &self.qual_trim_end
    }

    /// The window that [`process`](Self::process) leaves of `window`.
    pub open spec fn processed(&self, window: Window) -> Window {
        let after_start = match self.start() {
            Some(step) => step.trimmed(window),
            None => window,
        };
        match self.end() {
            Some(step) => step.trimmed(after_start),
            None => after_start,
        }
    }

    /// Passes a read through the steps.
    pub fn process(&self, trimming: &mut Trimming)
        requires
            old(trimming)@.qual_covers(),
        ensures
            final(trimming)@ == self.processed(old(trimming)@),
            final(trimming)@.qual_covers(),
    {
        if let Some(qts) = &self.qual_trim_start {
            qts.trim(trimming);
        }
        if let Some(qte) = &self.qual_trim_end {
            qte.trim(trimming);
        }
    }
}

} // verus!
