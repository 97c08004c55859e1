//! Ground-truth data model for diff accuracy evaluation.
//!
//! Each test case pairs two documents with a description of the intended
//! changes; the evaluator compares it with the engine's output.

use vstd::prelude::*;
use crate::report::{DiffMode, mode_name};

verus! {

/// A single ground-truth change region on a page.
#[derive(Debug)]
pub struct ChangeRegion {
    /// Bounding box `[left, top, right, bottom]` in PDF points with the origin
    /// at the top-left of the page, each the bit pattern of an `f32`. `None`
    /// where no reliable box is known: such regions take part in text
    /// matching only.
    pub rect: Option<[u32; 4]>,
    /// Text expected in the old document (removed / modified regions).
    pub old_text: Option<String>,
    /// Text expected in the new document (added / modified regions).
    pub new_text: Option<String>,
}

/// Ground truth for a single page.
#[derive(Debug)]
pub struct PageTruth {
    /// 1-based page number.
    pub page: usize,
    /// Semantic status: `"match"`, `"modified"`, `"added"` or `"removed"`.
    pub status: String,
    /// Per-mode status overrides; without one the semantic status applies.
    pub text_status: Option<String>,
    pub visual_status: Option<String>,
    pub hybrid_status: Option<String>,
    pub regions: Vec<ChangeRegion>,
}

/// The expected status of a page in a mode: the mode's override if present,
/// else the semantic status.
pub open spec fn expected_status(p: PageTruth, mode: DiffMode) -> Seq<char> {
    let o = match mode {
        DiffMode::Text => p.text_status,
        DiffMode::Visual => p.visual_status,
        DiffMode::Hybrid => p.hybrid_status,
    };
    match o {
        Some(s) => s@,
        None => p.status@,
    }
}

impl PageTruth {
    /// Expected status for a given comparison mode.
    pub fn status_for(&self, mode: DiffMode) -> (r: &str)
        ensures
            r@ == expected_status(*self, mode),
    {
        let o = match mode {
            DiffMode::Text => &self.text_status,
            DiffMode::Visual => &self.visual_status,
            DiffMode::Hybrid => &self.hybrid_status,
        };
        match o {
            Some(s) => s.as_str(),
            None => self.status.as_str(),
        }
    }
}

/// Complete ground truth for one test case.
#[derive(Debug)]
pub struct GroundTruth {
    pub name: String,
    pub description: String,
    pub pages: Vec<PageTruth>,
}

} // verus!
