//! Typed event streams with scoped authority, bounded retention, and explicit
//! backpressure.
#![allow(unused_imports)]

pub mod allowance;
pub mod authority_laws;
pub mod bind_laws;
pub mod broker;
pub mod broker_laws;
pub mod bytes;
pub mod daemon;
pub mod delivery;
pub mod derive_laws;
pub mod endpoint;
pub mod error;
pub mod event;
pub mod export_laws;
pub mod export_schedule;
pub mod fabric;
pub mod fabric_laws;
pub mod fabric_model;
pub mod fabric_steps;
pub mod frame_laws;
pub mod grant;
pub mod grant_laws;
pub mod guarded;
pub mod import_laws;
pub mod import_schedule;
pub mod ipc;
pub mod item;
pub mod ledger;
pub mod ledger_laws;
pub mod ledger_model;
pub mod link;
pub mod link_charge_laws;
pub mod member_laws;
pub mod metadata;
pub mod payload;
pub mod port;
pub mod publish_laws;
pub mod reserve;
pub mod revocation_laws;
pub mod schema;
pub mod schema_laws;
pub mod static_core;
pub mod static_laws;
pub mod static_stream;
pub mod stream_laws;
pub mod text;
pub mod transform;
pub mod unix_export;
pub mod unix_import;
pub mod unix_link;
pub mod wake_laws;
pub mod wire;

pub use endpoint::{DynamicReceiver, DynamicSender, PreparedPublication};
pub use error::{
    CloseReason, PortError, ReceiveError, SendError, TopicError, TopicTypeMismatch, TrySendError,
};
pub use event::{EventId, EventSpec, EventValue};
pub use fabric::DynamicFabric;
pub use fabric_model::StreamConfig;
pub use grant::{Limits, Permission, Rights, StreamLimits};
pub use ipc::IpcError;
pub use item::{PayloadValue, StreamItem, SubscriptionRole};
pub use ledger::Grant;
pub use link::Link;
pub use metadata::{DedupKey, EventMetadata, OriginId, SchemaRevision, WireEnvelope, WireMajor};
pub use payload::{Carries, Payloads, Shared, Single};
pub use port::{
    publish, EventPort, EventReceiver, EventSender, OwnedPortBinding, Port, PortBinding, PortExt,
    PortPreparation, PreparedSend, Topic,
};
pub use schema::{
    validate_evolution, validate_schema, FieldKind, FieldPresence, FieldSpec, Schema, SchemaError,
};
pub use static_stream::{
    StaticFabric, StaticPublication, StaticReceiveFuture, StaticReceiver, StaticSendFuture,
    StaticSender, StaticStream,
};
pub use transform::{AsyncTransform, Then, Transform, TransformOp};
pub use unix_link::UnixLink;
pub use wire::{EnvelopeHeader, WireCodec, WireError, ENVELOPE_HEADER_BYTES};
