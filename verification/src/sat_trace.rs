//! Validation of the SAT trace an AVATAR refutation may carry: metadata,
//! manifest, digest, and the replay of the trace against the manifest.
use vstd::prelude::*;
use vstd::string::*;
use vstd::utf8::encode_utf8;
use crate::verdict::{KernelVerdict, VerdictView, VerificationLimits, inconclusive, rejected};
use crate::hex::{decode_hex_bytes, decode_hex, decode_hex_digest};
use crate::text::{str_chars, token_is};
use crate::trace::{
    saturating_mul, sat_mul, abs_int, manifest_view, lrat_outcome, frat_outcome, replay_lrat,
    replay_frat_lrat,
};
use crate::sat::satisfiable;

verus! {

/// The SAT trace metadata of an AVATAR refutation certificate.
pub struct AvatarSatTrace {
    pub format: Option<String>,
    pub variables: Option<usize>,
    pub digest: Option<String>,
    pub original_ids: Vec<i64>,
    pub cited_indices: Vec<usize>,
    pub clauses: Vec<Vec<i32>>,
    pub bytes: Option<String>,
}

/// The trace formats that can be replayed.
#[derive(PartialEq, Eq, Structural)]
pub enum TraceFormat {
    FratLrat,
    Lrat,
}

/// The checked payload of a trace: its format, variable bound, declared
/// digest and decoded proof bytes.
pub struct TracePayload {
    pub format: TraceFormat,
    pub variables: usize,
    pub expected_digest: [u8; 32],
    pub trace: Vec<u8>,
}

pub open spec fn format_of(name: Seq<char>) -> Option<TraceFormat> {
    if name == "frat-lrat"@ {
        Some(TraceFormat::FratLrat)
    } else if name == "lrat"@ {
        Some(TraceFormat::Lrat)
    } else {
        None
    }
}

pub open spec fn unsupported_format_text(name: Seq<char>) -> Seq<char> {
    "unsupported AVATAR SAT trace format `"@ + name + "`"@
}

/// Every manifest literal is non-zero and within the variable bound.
pub open spec fn manifest_within(clauses: Seq<Seq<i32>>, variables: usize) -> bool {
    forall|i: int, j: int| 0 <= i < clauses.len() && 0 <= j < clauses[i].len()
        ==> #[trigger] clauses[i][j] != 0 && abs_int(clauses[i][j] as int) <= variables
}

/// What checking the trace metadata before its digest gives: the payload
/// `(format, variables, declared digest, proof bytes)`, or the verdict.
pub open spec fn trace_payload_check(t: AvatarSatTrace, limits: VerificationLimits) -> Result<(TraceFormat, usize, Seq<u8>, Seq<u8>), VerdictView> {
    match t.format {
        None => Err(VerdictView::Inconclusive("avatar SAT trace metadata is incomplete"@)),
        Some(f) => match format_of(f@) {
            None => Err(VerdictView::Inconclusive(unsupported_format_text(f@))),
            Some(kind) => match t.variables {
                None => Err(VerdictView::Inconclusive("avatar SAT trace omits its variable bound"@)),
                Some(vars) => if vars > u32::MAX {
                    Err(VerdictView::Inconclusive("avatar SAT trace variable bound exceeds the supported integer range"@))
                } else if vars > limits.max_avatar_steps {
                    Err(VerdictView::Inconclusive("avatar SAT trace declares too many variables"@))
                } else {
                    match t.digest {
                        None => Err(VerdictView::Inconclusive("avatar SAT trace omits its digest"@)),
                        Some(d) => match decode_hex_bytes(encode_utf8(d@)) {
                            Some(digest) if digest.len() == 32 => match t.bytes {
                                None => Err(VerdictView::Inconclusive("avatar SAT trace omits its proof bytes"@)),
                                Some(b) => match decode_hex_bytes(encode_utf8(b@)) {
                                    None => Err(VerdictView::Rejected("avatar SAT trace has invalid hexadecimal proof bytes"@)),
                                    Some(trace) => if trace.len() > sat_mul(limits.max_clause_literals, 1024) {
                                        Err(VerdictView::Inconclusive("avatar SAT trace exceeds the strict byte limit"@))
                                    } else if t.original_ids@.len() != t.clauses@.len() || t.original_ids@.len() == 0
                                        || t.cited_indices@.len() == 0 {
                                        Err(VerdictView::Rejected("avatar SAT trace clause IDs do not match its manifest"@))
                                    } else if t.clauses@.len() > limits.max_nodes {
                                        Err(VerdictView::Inconclusive("avatar SAT trace manifest exceeds the strict node limit"@))
                                    } else if exists|k: int| 0 <= k < t.cited_indices@.len() && #[trigger] t.cited_indices@[k] >= t.clauses@.len() {
                                        Err(VerdictView::Rejected("avatar SAT trace cites an out-of-range manifest index"@))
                                    } else if !manifest_within(manifest_view(t.clauses@), vars) {
                                        Err(VerdictView::Rejected("avatar SAT trace manifest contains an invalid literal"@))
                                    } else {
                                        Ok((kind, vars, digest, trace))
                                    },
                                },
                            },
                            _ => Err(VerdictView::Rejected("avatar SAT trace has an invalid SHA-256 digest"@)),
                        },
                    }
                },
            },
        },
    }
}

fn format_text(f: &String) -> (r: String)
    ensures
        r@ == unsupported_format_text(f@),
{
    let mut text = String::from_str("unsupported AVATAR SAT trace format `");
    text.append(f.as_str());
    text.append("`");
    proof {
        reveal_strlit("unsupported AVATAR SAT trace format `");
        reveal_strlit("`");
    }
    text
}

fn literal_within(l: i32, vars: usize) -> (r: bool)
    ensures
        r == (l != 0 && abs_int(l as int) <= vars),
{
    let a: i64 = if l < 0 { -(l as i64) } else { l as i64 };
    l != 0 && (a as u64) <= (vars as u64)
}

fn manifest_within_exec(clauses: &Vec<Vec<i32>>, vars: usize) -> (r: bool)
    ensures
        r == manifest_within(manifest_view(clauses@), vars),
{
    let ghost m = manifest_view(clauses@);
    let mut i: usize = 0;
    while i < clauses.len()
        invariant
            0 <= i <= clauses.len(),
            m == manifest_view(clauses@),
            forall|a: int, j: int| 0 <= a < i && 0 <= j < m[a].len()
                ==> #[trigger] m[a][j] != 0 && abs_int(m[a][j] as int) <= vars,
        decreases clauses.len() - i,
    {
        let mut j: usize = 0;
        while j < clauses[i].len()
            invariant
                0 <= i < clauses.len(),
                0 <= j <= clauses@[i as int]@.len(),
                m == manifest_view(clauses@),
                forall|a: int, b: int| 0 <= a < i && 0 <= b < m[a].len()
                    ==> #[trigger] m[a][b] != 0 && abs_int(m[a][b] as int) <= vars,
                forall|b: int| 0 <= b < j ==> #[trigger] m[i as int][b] != 0 && abs_int(m[i as int][b] as int) <= vars,
            decreases clauses@[i as int]@.len() - j,
        {
            assert(m[i as int] == clauses@[i as int]@);
            if !literal_within(clauses[i][j], vars) {
                assert(!(m[i as int][j as int] != 0 && abs_int(m[i as int][j as int] as int) <= vars));
                return false;
            }
            j = j + 1;
        }
        i = i + 1;
    }
    true
}

fn all_below(indices: &Vec<usize>, n: usize) -> (r: bool)
    ensures
        r == !exists|k: int| 0 <= k < indices@.len() && #[trigger] indices@[k] >= n,
{
    let mut k: usize = 0;
    while k < indices.len()
        invariant
            0 <= k <= indices@.len(),
            forall|q: int| 0 <= q < k ==> #[trigger] indices@[q] < n,
        decreases indices.len() - k,
    {
        if indices[k] >= n {
            return false;
        }
        k = k + 1;
    }
    true
}

/// Checks the trace metadata up to its digest, decoding the declared digest
/// and the proof bytes.
pub fn check_trace_payload(t: &AvatarSatTrace, limits: VerificationLimits) -> (r: Result<TracePayload, KernelVerdict>)
    ensures
        match trace_payload_check(*t, limits) {
            Ok((kind, vars, digest, trace)) => r matches Ok(p) && p.format == kind && p.variables == vars
                && p.expected_digest@ == digest && p.trace@ == trace,
            Err(e) => r matches Err(v) && v@ == e,
        },
{
    let format_name = match &t.format {
        Some(f) => f,
        None => return Err(inconclusive("avatar SAT trace metadata is incomplete")),
    };
    let name = str_chars(format_name.as_str());
    let format = if token_is(&name, "frat-lrat") {
        TraceFormat::FratLrat
    } else if token_is(&name, "lrat") {
        TraceFormat::Lrat
    } else {
        return Err(KernelVerdict::Inconclusive(format_text(format_name)));
    };
    let variables = match t.variables {
        Some(v) => v,
        None => return Err(inconclusive("avatar SAT trace omits its variable bound")),
    };
    if variables > 4294967295usize {
        return Err(inconclusive("avatar SAT trace variable bound exceeds the supported integer range"));
    }
    if variables > limits.max_avatar_steps {
        return Err(inconclusive("avatar SAT trace declares too many variables"));
    }
    let digest_text = match &t.digest {
        Some(d) => d,
        None => return Err(inconclusive("avatar SAT trace omits its digest")),
    };
    let expected_digest = match decode_hex_digest(digest_text.as_str()) {
        Some(d) => d,
        None => return Err(rejected("avatar SAT trace has an invalid SHA-256 digest")),
    };
    let bytes_text = match &t.bytes {
        Some(b) => b,
        None => return Err(inconclusive("avatar SAT trace omits its proof bytes")),
    };
    let trace = match decode_hex(bytes_text.as_str()) {
        Some(b) => b,
        None => return Err(rejected("avatar SAT trace has invalid hexadecimal proof bytes")),
    };
    if trace.len() > saturating_mul(limits.max_clause_literals, 1024) {
        return Err(inconclusive("avatar SAT trace exceeds the strict byte limit"));
    }
    if t.original_ids.len() != t.clauses.len() || t.original_ids.len() == 0 || t.cited_indices.len() == 0 {
        return Err(rejected("avatar SAT trace clause IDs do not match its manifest"));
    }
    if t.clauses.len() > limits.max_nodes {
        return Err(inconclusive("avatar SAT trace manifest exceeds the strict node limit"));
    }
    if !all_below(&t.cited_indices, t.clauses.len()) {
        return Err(rejected("avatar SAT trace cites an out-of-range manifest index"));
    }
    if !manifest_within_exec(&t.clauses, variables) {
        return Err(rejected("avatar SAT trace manifest contains an invalid literal"));
    }
    Ok(TracePayload { format, variables, expected_digest, trace })
}

/// The variable bound a replay works with: literals are `i32`, so a bound
/// above `i32::MAX` admits every literal but `i32::MIN`, as `i32::MAX` does.
pub open spec fn replay_bound(v: usize) -> usize {
    if v > 2147483647 {
        2147483647
    } else {
        v
    }
}

pub(crate) fn same_digest(a: &[u8; 32], b: &[u8; 32]) -> (r: bool)
    ensures
        r == (a@ == b@),
{
    let mut i: usize = 0;
    while i < 32
        invariant
            0 <= i <= 32,
            a@.len() == 32,
            b@.len() == 32,
            forall|k: int| 0 <= k < i ==> a@[k] == b@[k],
        decreases 32 - i,
    {
        if a[i] != b[i] {
            return false;
        }
        i = i + 1;
    }
    assert(a@ =~= b@);
    true
}

fn negatable_manifest(clauses: &Vec<Vec<i32>>) -> (r: bool)
    ensures
        r == crate::trace::manifest_negatable(manifest_view(clauses@)),
{
    let ghost m = manifest_view(clauses@);
    let mut i: usize = 0;
    while i < clauses.len()
        invariant
            0 <= i <= clauses.len(),
            m == manifest_view(clauses@),
            forall|a: int| 0 <= a < i ==> crate::sat::negatable(#[trigger] m[a]),
        decreases clauses.len() - i,
    {
        let mut j: usize = 0;
        while j < clauses[i].len()
            invariant
                0 <= i < clauses.len(),
                0 <= j <= clauses@[i as int]@.len(),
                m == manifest_view(clauses@),
                forall|b: int| 0 <= b < j ==> #[trigger] m[i as int][b] != i32::MIN,
            decreases clauses@[i as int]@.len() - j,
        {
            assert(m[i as int] == clauses@[i as int]@);
            if clauses[i][j] == i32::MIN {
                assert(!crate::sat::negatable(m[i as int]));
                return false;
            }
            j = j + 1;
        }
        i = i + 1;
    }
    true
}

/// What validating an AVATAR SAT trace gives, `actual_digest` being the
/// digest of its payload: the metadata checks, then the digest, then the
/// replay of the proof bytes against the manifest.
pub open spec fn trace_check(t: AvatarSatTrace, actual_digest: Seq<u8>, limits: VerificationLimits) -> Result<(), VerdictView> {
    match trace_payload_check(t, limits) {
        Err(e) => Err(e),
        Ok((kind, vars, digest, trace)) => if actual_digest != digest {
            Err(VerdictView::Rejected("avatar SAT trace digest does not match its payload"@))
        } else if !crate::trace::manifest_negatable(manifest_view(t.clauses@)) {
            Err(VerdictView::Rejected("avatar SAT trace manifest contains an invalid literal"@))
        } else if kind == TraceFormat::FratLrat {
            frat_outcome(manifest_view(t.clauses@), t.original_ids@, trace, replay_bound(vars), limits)
        } else {
            lrat_outcome(manifest_view(t.clauses@), t.original_ids@, trace, replay_bound(vars), limits)
        },
    }
}

/// Validates an AVATAR SAT trace and replays it against its manifest.
/// `actual_digest` is the SHA-256 digest of the trace payload (format,
/// variable bound, clause IDs, cited indices, manifest and proof bytes),
/// which must equal the declared one.
pub fn verify_avatar_sat_trace(t: &AvatarSatTrace, actual_digest: [u8; 32], limits: VerificationLimits) -> (r: Result<(), KernelVerdict>)
    ensures
        match trace_check(*t, actual_digest@, limits) {
            Ok(()) => r is Ok,
            Err(e) => r matches Err(v) && v@ == e,
        },
        r is Ok ==> !satisfiable(manifest_view(t.clauses@)),
{
    let payload = match check_trace_payload(t, limits) {
        Ok(p) => p,
        Err(v) => return Err(v),
    };
    if !same_digest(&actual_digest, &payload.expected_digest) {
        return Err(rejected("avatar SAT trace digest does not match its payload"));
    }
    if !negatable_manifest(&t.clauses) {
        return Err(rejected("avatar SAT trace manifest contains an invalid literal"));
    }
    let bound: usize = if payload.variables > 2147483647usize { 2147483647usize } else { payload.variables };
    match payload.format {
        TraceFormat::FratLrat => replay_frat_lrat(t.clauses.as_slice(), t.original_ids.as_slice(), payload.trace.as_slice(), bound, limits),
        TraceFormat::Lrat => replay_lrat(t.clauses.as_slice(), t.original_ids.as_slice(), payload.trace.as_slice(), bound, limits),
    }
}

} // verus!
