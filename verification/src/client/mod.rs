//! What the adapters to model providers are configured with.

pub mod glm;
pub mod openai;
