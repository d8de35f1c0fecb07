//! rustnet: IPv4, ICMP, UDP and TCP implemented from scratch.
//!
//! Each module states what its functions do over mathematical models; the
//! modules whose names end in `laws` state what follows for the whole.
pub mod checksum;
pub mod checksum_laws;
pub mod connection_laws;
pub mod connection_model;
pub mod connection_proof;
pub mod driver;
pub mod format_laws;
pub mod http;
pub mod interface;
pub mod packet;
pub mod packet_laws;
pub mod program_laws;
pub mod seqno;
pub mod seqno_laws;
pub mod service;
pub mod service_laws;
pub mod stack;
pub mod stack_laws;
pub mod stack_model;
pub mod stack_proof;
pub mod tcp;
pub mod text;
pub mod text_laws;
pub mod transition_laws;
pub mod wire;
