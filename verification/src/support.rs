//! Support rooms (meeting room, office): the evaluators check that the input
//! is of their room before its evaluation is handed on.

use vstd::prelude::*;

use crate::layout::FacilityKind;

verus! {

/// An evaluator was handed the input of another kind of room.
#[derive(Debug, Clone, Copy, PartialEq, Eq, Structural)]
pub enum SupportError {
    /// The meeting-room evaluator got no meeting-room input.
    NotMeetingRoom,
    /// The office evaluator got no office input.
    NotOffice,
}

impl SupportError {
    /// The error's message.
    pub fn message(&self) -> (res: String) {
        match self {
            SupportError::NotMeetingRoom => "meeting evaluator requires meeting input".to_string(),
            SupportError::NotOffice => "office evaluator requires office input".to_string(),
        }
    }
}

/// The meeting-room evaluation of a support room: the room's evaluation
/// `result` when its `facility` is the meeting room, an error otherwise.
pub fn evaluate_meeting<R>(facility: FacilityKind, result: R) -> (res: Result<R, SupportError>)
    ensures
        facility == FacilityKind::MeetingRoom ==> res == Ok::<R, SupportError>(result),
        facility != FacilityKind::MeetingRoom ==> res == Err::<R, SupportError>(SupportError::NotMeetingRoom),
{
    if facility != FacilityKind::MeetingRoom {
        return Err(SupportError::NotMeetingRoom);
    }
    Ok(result)
}

/// The office evaluation of a support room: the room's evaluation `result`
/// when its `facility` is the office, an error otherwise.
pub fn evaluate_office<R>(facility: FacilityKind, result: R) -> (res: Result<R, SupportError>)
    ensures
        facility == FacilityKind::Office ==> res == Ok::<R, SupportError>(result),
        facility != FacilityKind::Office ==> res == Err::<R, SupportError>(SupportError::NotOffice),
{
    if facility != FacilityKind::Office {
        return Err(SupportError::NotOffice);
    }
    Ok(result)
}

} // verus!
