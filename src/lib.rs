//! Core of an HTTP mocking server: request matching, the rule registry with
//! its dispatch decisions, bounded request history, recording and playback,
//! the command line, and the small text and byte utilities the server uses.

pub mod cookies;
pub mod document;
pub mod error;
pub mod http_bytes;
pub mod matcher;
pub mod normalize;
pub mod params;
pub mod recording;
pub mod request;
pub mod response;
pub mod rules;
pub mod state;
pub mod target;
pub mod text;

pub use error::ServerAdapterError;
pub use http_bytes::HttpMockBytes;
pub use matcher::Matcher;
pub use params::{ExecutionParameters, ParamsError};
pub use request::HttpRequest;
pub use rules::{
    ActiveForwardingRule, ActiveMock, ActiveProxyRule, ActiveRecording, ForwardingRuleConfig,
    MockDefinition, MockResponse, ProxyRuleConfig, RecordedEntry, RecordedRequest,
    RecordedResponse, RecordingRuleConfig,
};
pub use state::{ClosestMatch, Dispatch, StateManager};
pub use target::{absolute_target, forward_target, next_retry_step, RequestMetadata, RetryStep};
pub use text::{is_none_or_empty, title_case};
