//! A two-phase commit engine: a coordinator, participants and clients that
//! exchange protocol messages over in-process channels, append-only operation
//! logs with two storage backends, and an offline checker for finished runs.

pub mod checker;
pub mod client;
pub mod codec;
pub mod commit_op_log;
pub mod coordinator;
pub mod log;
pub mod message;
pub mod participant;
pub mod transport;

pub use checker::{
    check_last_run, check_participant, CheckFailure, CheckViolation, ParticipantLog, ParticipantReport,
};
pub use client::{Client, ClientError, Ending, Reply};
pub use commit_op_log::{CommitOpLog, RoleLog};
pub use coordinator::{tally_votes, Coordinator, CoordinatorError, CoordinatorState, Peer};
pub use log::{InMemory, LineSink, LogEntry, LogError, LogRecords, MessageLog, OpLog};
pub use message::{MessageType, ProtocolMessage, RequestStatus};
pub use participant::{Chance, Flow, Participant, ParticipantError, ParticipantState};
