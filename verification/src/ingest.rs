//! The startup ingestion pipeline: candidate paths in, appends out.

use vstd::prelude::*;

verus! {

use crate::paths::accepts_path;
use crate::paths::is_supported_image;
use crate::state::AppState;

/// A startup candidate: a path string as supplied on the command line,
/// together with the caller's file-system probe of it.  The probe is
/// `true` exactly when the path names an existing regular file; the
/// library takes the probe's verdict as given and does no file-system
/// access of its own.
pub struct Candidate {
    /// The candidate path, unmodified.
    pub path: String,
    /// Whether the path names an existing regular file.
    pub is_regular_file: bool,
}

/// Validation verdict on one candidate: it must name an existing
/// regular file and pass the extension check.
pub open spec fn candidate_accepted(candidate: Candidate) -> bool {
    candidate.is_regular_file && accepts_path(candidate.path@)
}

/// The paths of the accepted candidates, in the order they were given.
pub open spec fn accepted_paths(candidates: Seq<Candidate>) -> Seq<Seq<char>>
    decreases candidates.len(),
{
    if candidates.len() == 0 {
        Seq::empty()
    } else {
        let rest = accepted_paths(candidates.drop_last());
        if candidate_accepted(candidates.last()) {
            rest.push(candidates.last().path@)
        } else {
            rest
        }
    }
}

/// `accepted_paths` is the filtered sub-sequence it claims to be: the
/// candidates that pass validation, kept in the order they were given with
/// the others dropped and nothing reordered, projected to their paths.
pub proof fn lemma_accepted_paths_is_filtered(candidates: Seq<Candidate>)
    ensures
        accepted_paths(candidates) == candidates.filter(
            |candidate: Candidate| candidate_accepted(candidate),
        ).map_values(|candidate: Candidate| candidate.path@),
    decreases candidates.len(),
{
    reveal(Seq::filter);
    let pred = |candidate: Candidate| candidate_accepted(candidate);
    let project = |candidate: Candidate| candidate.path@;
    if candidates.len() > 0 {
        lemma_accepted_paths_is_filtered(candidates.drop_last());
        if pred(candidates.last()) {
            assert(candidates.filter(pred).map_values(project) =~= candidates.drop_last().filter(
                pred,
            ).map_values(project).push(candidates.last().path@));
        }
    }
}

/// The one-shot startup ingestion: walks the candidates in order and
/// appends the path of every accepted one to the registry, exactly as
/// given.  Rejected candidates are silently dropped — no error, no
/// report.  An empty candidate list leaves the registry unchanged.
pub fn ingest_candidates(state: &mut AppState, candidates: Vec<Candidate>)
    ensures
        final(state)@ == old(state)@ + accepted_paths(candidates@),
{
    let mut i: usize = 0;
    while i < candidates.len()
        invariant
            i <= candidates@.len(),
            state@ == old(state)@ + accepted_paths(candidates@.take(i as int)),
        decreases candidates@.len() - i,
    {
        let candidate = &candidates[i];
        if is_supported_image(candidate.path.as_str(), candidate.is_regular_file) {
            state.add_image(candidate.path.clone());
        }
        proof {
            let taken = candidates@.take(i + 1);
            assert(taken.drop_last() =~= candidates@.take(i as int));
            assert(taken.last() == candidates@[i as int]);
            assert(state@ =~= old(state)@ + accepted_paths(taken));
        }
        i = i + 1;
    }
    proof {
        assert(candidates@.take(i as int) =~= candidates@);
    }
}

} // verus!

