//! Multi-tenant role-based access control with deny-by-default decisions.
//!
//! Identifiers and permissions are validated value types. An [`Engine`]
//! resolves the effective permissions of a principal within a tenant from
//! a [`Store`], optionally through a [`Cache`], and renders a [`Decision`]
//! or a [`Scope`] from them.

pub mod auth;
pub mod cache;
pub mod chain;
pub mod collection;
pub mod engine;
pub mod error;
pub mod hierarchy;
pub mod memory_cache;
pub mod memory_store;
pub mod permission;
pub mod resolution;
pub mod store;
pub mod text;
pub mod types;

pub use crate::cache::Cache;
pub use crate::cache::NoCache;
pub use crate::engine::Decision;
pub use crate::engine::Engine;
pub use crate::engine::EngineBuilder;
pub use crate::engine::Scope;
pub use crate::error::Error;
pub use crate::error::StoreError;
pub use crate::permission::DefaultPermissionValidator;
pub use crate::permission::Permission;
pub use crate::permission::PermissionValidator;
pub use crate::store::GlobalRoleStore;
pub use crate::store::RoleStore;
pub use crate::store::Store;
pub use crate::store::TenantStore;
pub use crate::types::GlobalRoleId;
pub use crate::types::PrincipalId;
pub use crate::types::ResourceName;
pub use crate::types::RoleId;
pub use crate::types::TenantId;
pub use crate::memory_cache::MemoryCache;
pub use crate::memory_store::MemoryStore;
