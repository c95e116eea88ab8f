//! The course of a submission.
//!
//! An upload that can be read is analysed. Whatever the analysis says, the upload is
//! then archived, and the answer is that of the analysis.

use vstd::prelude::*;

use crate::api::ApiError;
use crate::gpx_archive::ArchiveCategory;

verus! {

/// How far a submission has come. An analysis that succeeded tells whether it came
/// from the cache.
#[derive(Clone, Copy, Debug)]
pub enum SubmissionStage {
    /// The upload is being read.
    Reading,
    /// The upload is being analysed.
    Analysing,
    /// The upload is being archived.
    Archiving { result: Result<bool, ApiError> },
    /// The submission is answered.
    Answered { result: Result<bool, ApiError> },
}

/// What has happened to a submission.
#[derive(Clone, Copy, Debug)]
pub enum SubmissionEvent {
    UploadRead,
    UploadRefused(ApiError),
    Analysed { cache_hit: bool },
    AnalysisFailed(ApiError),
    Archived,
    ArchivingFailed,
}

impl SubmissionStage {
    /// The stage after an event; nothing where the event does not belong to the stage.
    pub open spec fn following(self, event: SubmissionEvent) -> Option<SubmissionStage> {
        match (self, event) {
            (SubmissionStage::Reading, SubmissionEvent::UploadRead) => Some(
                SubmissionStage::Analysing,
            ),
            (SubmissionStage::Reading, SubmissionEvent::UploadRefused(error)) => Some(
                SubmissionStage::Answered { result: Err(error) },
            ),
            (SubmissionStage::Analysing, SubmissionEvent::Analysed { cache_hit }) => Some(
                SubmissionStage::Archiving { result: Ok(cache_hit) },
            ),
            (SubmissionStage::Analysing, SubmissionEvent::AnalysisFailed(error)) => Some(
                SubmissionStage::Archiving { result: Err(error) },
            ),
            (SubmissionStage::Archiving { result }, SubmissionEvent::Archived) => Some(
                SubmissionStage::Answered { result },
            ),
            (SubmissionStage::Archiving { result }, SubmissionEvent::ArchivingFailed) => Some(
                SubmissionStage::Answered { result },
            ),
            _ => None,
        }
    }

    /// The stage after an event; nothing where the event does not belong to the stage.
    pub fn after(self, event: SubmissionEvent) -> (next: Option<Self>)
        ensures
            next == self.following(event),
    {
        match (self, event) {
            (SubmissionStage::Reading, SubmissionEvent::UploadRead) => Some(
                SubmissionStage::Analysing,
            ),
            (SubmissionStage::Reading, SubmissionEvent::UploadRefused(error)) => Some(
                SubmissionStage::Answered { result: Err(error) },
            ),
            (SubmissionStage::Analysing, SubmissionEvent::Analysed { cache_hit }) => Some(
                SubmissionStage::Archiving { result: Ok(cache_hit) },
            ),
            (SubmissionStage::Analysing, SubmissionEvent::AnalysisFailed(error)) => Some(
                SubmissionStage::Archiving { result: Err(error) },
            ),
            (SubmissionStage::Archiving { result }, SubmissionEvent::Archived) => Some(
                SubmissionStage::Answered { result },
            ),
            (SubmissionStage::Archiving { result }, SubmissionEvent::ArchivingFailed) => Some(
                SubmissionStage::Answered { result },
            ),
            _ => None,
        }
    }
}

/// The stage to which some events lead from the beginning.
pub open spec fn stage_after(events: Seq<SubmissionEvent>) -> Option<SubmissionStage>
    decreases events.len(),
{
    if events.len() == 0 {
        Some(SubmissionStage::Reading)
    } else {
        match stage_after(events.drop_last()) {
            Some(stage) => stage.following(events.last()),
            None => None,
        }
    }
}

/// What the analysis says, if the event is its end.
pub open spec fn analysis_result(event: SubmissionEvent) -> Option<Result<bool, ApiError>> {
    match event {
        SubmissionEvent::Analysed { cache_hit } => Some(Ok(cache_hit)),
        SubmissionEvent::AnalysisFailed(error) => Some(Err(error)),
        _ => None,
    }
}

/// Every submission is answered in one of two ways: an upload that is refused is
/// neither analysed nor archived and is answered with the refusal; any other is
/// analysed and then archived once, and is answered as the analysis says, whether or
/// not it could be archived.
pub proof fn answers_are_those_of_the_analysis(
    events: Seq<SubmissionEvent>,
    result: Result<bool, ApiError>,
)
    requires
        stage_after(events) == Some(SubmissionStage::Answered { result }),
    ensures
        ({
            ||| {
                &&& events.len() == 1
                &&& events[0] matches SubmissionEvent::UploadRefused(error)
                &&& result == Err::<bool, ApiError>(error)
            }
            ||| {
                &&& events.len() == 3
                &&& events[0] == SubmissionEvent::UploadRead
                &&& analysis_result(events[1]) == Some(result)
                &&& events[2] == SubmissionEvent::Archived || events[2]
                    == SubmissionEvent::ArchivingFailed
            }
        }),
{
    let before = events.drop_last();
    if before.len() > 0 {
        assert(before.last() == events[events.len() - 2]);
        let earlier = before.drop_last();
        if earlier.len() > 0 {
            assert(earlier.last() == events[events.len() - 3]);
        }
    }
    reveal_with_fuel(stage_after, 5);
}

/// Whether archiving succeeds changes nothing about what follows.
pub proof fn archiving_never_changes_the_answer(stage: SubmissionStage)
    ensures
        stage.following(SubmissionEvent::Archived) == stage.following(
            SubmissionEvent::ArchivingFailed,
        ),
{
}

/// How a submission is filed and reported.
#[derive(Clone, Copy, Debug)]
pub struct SubmissionOutcome {
    pub category: ArchiveCategory,
    pub error_code: Option<&'static str>,
    pub cache_hit: Option<bool>,
}

/// How a submission is filed and reported: the analysis succeeded, with or without
/// the cache, or it failed with an error.
pub fn submission_outcome(result: &Result<bool, ApiError>) -> (outcome: SubmissionOutcome)
    ensures
        match *result {
            Ok(cache_hit) => {
                &&& outcome.category == ArchiveCategory::Valid
                &&& outcome.error_code is None
                &&& outcome.cache_hit == Some(cache_hit)
            },
            Err(error) => {
                &&& outcome.category == ArchiveCategory::Error
                &&& outcome.error_code == Some(error.code)
                &&& outcome.cache_hit is None
            },
        },
{
    match result {
        Ok(cache_hit) => SubmissionOutcome {
            category: ArchiveCategory::Valid,
            error_code: None,
            cache_hit: Some(*cache_hit),
        },
        Err(error) => SubmissionOutcome {
            category: ArchiveCategory::Error,
            error_code: Some(error.code),
            cache_hit: None,
        },
    }
}

/// Every upload that is read is analysed and archived and then answered, and every one
/// that is refused is answered at once; no other event leads on.
pub proof fn every_submission_is_answered(
    error: ApiError,
    result: Result<bool, ApiError>,
    analysed: SubmissionEvent,
    archived: SubmissionEvent,
)
    requires
        analysed == match result {
            Ok(cache_hit) => SubmissionEvent::Analysed { cache_hit },
            Err(failure) => SubmissionEvent::AnalysisFailed(failure),
        },
        archived == SubmissionEvent::Archived || archived == SubmissionEvent::ArchivingFailed,
    ensures
        stage_after(seq![SubmissionEvent::UploadRefused(error)]) == Some(
            SubmissionStage::Answered { result: Err(error) },
        ),
        stage_after(seq![SubmissionEvent::UploadRead]) == Some(SubmissionStage::Analysing),
        stage_after(seq![SubmissionEvent::UploadRead, analysed]) == Some(
            SubmissionStage::Archiving { result },
        ),
        stage_after(seq![SubmissionEvent::UploadRead, analysed, archived]) == Some(
            SubmissionStage::Answered { result },
        ),
{
    let refused = seq![SubmissionEvent::UploadRefused(error)];
    let read = seq![SubmissionEvent::UploadRead];
    let two = seq![SubmissionEvent::UploadRead, analysed];
    let three = seq![SubmissionEvent::UploadRead, analysed, archived];
    assert(refused.drop_last() =~= Seq::empty());
    assert(read.drop_last() =~= Seq::empty());
    assert(two.drop_last() =~= read);
    assert(three.drop_last() =~= two);
    reveal_with_fuel(stage_after, 2);
}

/// Nothing happens to a submission that is answered, and it is neither analysed before
/// it is read nor archived before it is analysed.
pub proof fn stages_follow_in_order(stage: SubmissionStage, event: SubmissionEvent)
    ensures
        stage is Answered ==> stage.following(event) is None,
        stage.following(event) matches Some(next) ==> {
            &&& next is Analysing <==> stage is Reading && event is UploadRead
            &&& next is Archiving <==> stage is Analysing
            &&& next is Answered <==> (stage is Reading && event is UploadRefused
                || stage is Archiving)
            &&& !(next is Reading)
        },
{
}

} // verus!
