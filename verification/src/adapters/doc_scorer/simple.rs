//! Binary documentation scorer.
use crate::domain::node::DocScore;
use crate::domain::policy::{opt_str_view, DocumentationScorer, NodeInfo, NodeInfoModel};
use crate::text::{str_chars, trim, trim_spec};
use vstd::prelude::*;

verus! {

/// Some documentation that is not only white space.
pub open spec fn has_doc_text(doc: Option<Seq<char>>) -> bool {
    match doc {
        Some(d) => trim_spec(d).len() > 0,
        None => false,
    }
}

/// Simple documentation scorer.
/// Binary scoring: a docstring scores 1, no doc scores 0.
pub struct SimpleDocScorer;

impl SimpleDocScorer {
    pub fn new() -> (r: Self) {
        Self
    }
}

impl Default for SimpleDocScorer {
    fn default() -> (r: Self) {
        Self::new()
    }
}

impl DocumentationScorer for SimpleDocScorer {
    open spec fn spec_score(&self, info: NodeInfoModel, doc: Option<Seq<char>>) -> DocScore {
        if has_doc_text(doc) {
            DocScore { numerator: 1, denominator: 1 }
        } else {
            DocScore { numerator: 0, denominator: 1 }
        }
    }

    fn score(&self, _node_info: &NodeInfo, doc_text: Option<&str>) -> (r: DocScore) {
        match doc_text {
            Some(doc) => {
                let chars = str_chars(doc);
                let t = trim(chars.as_slice());
                if t.len() > 0 {
                    DocScore::one()
                } else {
                    DocScore::zero()
                }
            },
            None => DocScore::zero(),
        }
    }
}

} // verus!
