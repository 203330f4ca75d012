//! The request shapes of the report and consolidation services, and the checks on
//! the parameters of report jobs.
use vstd::prelude::*;
use crate::expand::{trim_spec, trim_chars};
use crate::text::{chars_of, copy_str};

verus! {

/// A run of a scheme for a period.
#[derive(Debug, Clone, Default)]
pub struct RunBody {
    pub scheme: String,
    pub period: String,
}

/// A worksheet lookup.
#[derive(Debug, Clone, Default)]
pub struct WsQuery {
    pub scheme: Option<String>,
    pub period: Option<String>,
    pub node: Option<String>,
    pub account: Option<String>,
}

/// A cash-flow worksheet run against a previous period.
#[derive(Debug, Clone, Default)]
pub struct CfWorksheetBody {
    pub scheme: String,
    pub period: String,
    pub prev_period: Option<String>,
}

/// An advance of the period close.
#[derive(Debug, Clone, Default)]
pub struct CloseAdvanceBody {
    pub scheme: String,
    pub period: String,
    pub step: Option<String>,
    pub approve: bool,
}

/// A scope-change run against a previous period.
#[derive(Debug, Clone, Default)]
pub struct ScopeChangeBody {
    pub scheme: String,
    pub period: String,
    pub prev_period: Option<String>,
}

/// A listing of layout operations.
#[derive(Debug, Clone, Default)]
pub struct OpsQuery {
    pub version: Option<String>,
    pub since: Option<i64>,
    pub limit: Option<i64>,
}

/// A compute request for a report file.
#[derive(Debug, Clone, Default)]
pub struct RptComputeReq {
    pub domain: Option<String>,
    pub application: Option<String>,
    pub module: Option<String>,
    pub file: Option<String>,
    pub org: Option<String>,
    pub period: Option<String>,
}

/// The default of a flag that is on unless said otherwise.
pub fn default_true() -> (r: bool)
    ensures
        r,
{
    true
}

/// An upsert of a source binding.
#[derive(Debug, Clone)]
pub struct UpsertSourceBindingReq {
    pub source_key: String,
    pub org_id: Option<String>,
    pub target_kind: String,
    pub target_ref: String,
    pub transport: Option<String>,
    pub priority: i64,
    /// On unless given (see `default_true`).
    pub enabled: bool,
    pub remark: Option<String>,
}

/// A batch read of native pages.
#[derive(Debug, Clone, Default)]
pub struct BatchReq {
    pub ids: Vec<String>,
}

/// A page of a list.
#[derive(Debug, Clone, Default)]
pub struct PageQuery {
    pub page: Option<u32>,
    pub page_size: Option<u32>,
}

/// A page of the HTML page list, with filters.
#[derive(Debug, Clone, Default)]
pub struct HtmlListQuery {
    pub page: Option<u32>,
    pub page_size: Option<u32>,
    pub domain: Option<String>,
    pub app: Option<String>,
    pub module: Option<String>,
    pub keyword: Option<String>,
}

/// A native page with its source.
#[derive(Debug, Clone, Default)]
pub struct NativePageFull {
    pub id: String,
    pub name: String,
    pub details: String,
    pub source_type: String,
    pub rel_path: String,
    /// Revision: the xxHash of the source (see `layout::content_rev`).
    pub rev: String,
    pub source: String,
}

/// A report listing, filtered.
#[derive(Debug, Clone, Default)]
pub struct ReportListQuery {
    pub category: Option<String>,
    pub period_type: Option<String>,
    pub q: Option<String>,
}

/// A report detail request.
#[derive(Debug, Clone, Default)]
pub struct ReportDetailQuery {
    pub version: Option<String>,
}

/// A new report version.
#[derive(Debug, Clone, Default)]
pub struct CreateVersionBody {
    pub code: Option<String>,
    pub name: Option<String>,
    pub base_version_code: Option<String>,
    pub change_summary: Option<String>,
    pub is_current: Option<bool>,
}

/// A layout request.
#[derive(Debug, Clone, Default)]
pub struct LayoutQuery {
    pub version: Option<String>,
}

/// Why a report job's parameters are refused (the job answers 400).
#[derive(Debug, PartialEq, Eq)]
pub enum JobParamError {
    /// No organisation (missing or blank).
    MissingOrg,
    /// No period (missing or blank).
    MissingPeriod,
}

fn trim_str(s: &str) -> (r: String)
    ensures
        r@ == trim_spec(s@),
{
    let cs = chars_of(s);
    trim_chars(&cs)
}

/// The context of a report job: the organisation and period (required, trimmed)
/// and the version (empty when not given).
pub fn require_ctx(org: Option<&str>, period: Option<&str>, version: Option<&str>) -> (r: Result<(String, String, String), JobParamError>)
    ensures
        match (org, period) {
            (Some(o), Some(p)) if trim_spec(o@).len() > 0 && trim_spec(p@).len() > 0 => r matches Ok(t) && t.0@
                == trim_spec(o@) && t.1@ == trim_spec(p@) && t.2@ == (match version {
                Some(v) => v@,
                None => Seq::empty(),
            }),
            (Some(o), _) if trim_spec(o@).len() > 0 => r == Err::<(String, String, String), JobParamError>(
                JobParamError::MissingPeriod,
            ),
            _ => r == Err::<(String, String, String), JobParamError>(JobParamError::MissingOrg),
        },
{
    let o = match org {
        Some(x) => trim_str(x),
        None => {
            return Err(JobParamError::MissingOrg);
        },
    };
    if o.as_str().is_empty() {
        return Err(JobParamError::MissingOrg);
    }
    let p = match period {
        Some(x) => trim_str(x),
        None => {
            return Err(JobParamError::MissingPeriod);
        },
    };
    if p.as_str().is_empty() {
        return Err(JobParamError::MissingPeriod);
    }
    let v = match version {
        Some(x) => copy_str(x),
        None => String::new(),
    };
    Ok((o, p, v))
}

/// The report codes a job names: trimmed, blanks dropped; None (all reports) when
/// none is left.
pub open spec fn job_codes_spec(codes: Seq<Seq<char>>) -> Option<Seq<Seq<char>>> {
    let t = crate::store::trimmed_nonempty(codes);
    if t.len() == 0 {
        None
    } else {
        Some(t)
    }
}

/// The report codes a job names (see `job_codes_spec`).
pub fn parse_codes(codes: &Vec<String>) -> (r: Option<Vec<String>>)
    ensures
        match job_codes_spec(codes@.map_values(|s: String| s@)) {
            Some(c) => r matches Some(v) && v@.map_values(|s: String| s@) == c,
            None => r is None,
        },
{
    let ghost cv = codes@.map_values(|s: String| s@);
    let mut out: Vec<String> = Vec::new();
    let mut i: usize = 0;
    proof {
        assert(cv.subrange(0, 0) =~= Seq::<Seq<char>>::empty());
        assert(out@.map_values(|s: String| s@) =~= Seq::<Seq<char>>::empty());
    }
    while i < codes.len()
        invariant
            i <= codes@.len(),
            cv == codes@.map_values(|s: String| s@),
            out@.map_values(|s: String| s@) == crate::store::trimmed_nonempty(cv.subrange(0, i as int)),
        decreases codes@.len() - i,
    {
        let ghost before = out@.map_values(|s: String| s@);
        proof {
            let nx = cv.subrange(0, i + 1);
            assert(nx.drop_last() =~= cv.subrange(0, i as int));
            assert(nx.last() == codes@[i as int]@);
        }
        let t = trim_str(codes[i].as_str());
        if !t.as_str().is_empty() {
            out.push(t);
            proof {
                assert(out@.map_values(|s: String| s@) =~= before.push(trim_spec(codes@[i as int]@)));
            }
        }
        i = i + 1;
    }
    proof {
        assert(cv.subrange(0, codes@.len() as int) =~= cv);
    }
    if out.len() == 0 {
        None
    } else {
        Some(out)
    }
}

} // verus!
