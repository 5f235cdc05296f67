pub mod aggregator;
pub mod alert;
pub mod anomaly;
pub mod anomaly_reporter;
pub mod audit;
pub mod audit_reporter;
pub mod baseline_reporter;
pub mod buffer;
pub mod buffer_manager;
pub mod checkpoint;
pub mod checkpoint_manager;
pub mod circuit_breaker;
pub mod circuit_breaker_manager;
pub mod circuit_breaker_reporter;
pub mod cooldown;
pub mod debounce;
pub mod dedup;
pub mod dispatcher;
pub mod drain;
pub mod escalation;
pub mod filter_chain;
pub mod health;
pub mod heartbeat;
pub mod history_store;
pub mod keyed_map;
pub mod label;
pub mod label_manager;
pub mod label_reporter;
pub mod notifier;
pub mod notifier_manager;
pub mod process_filter;
pub mod procfs;
pub mod text;
pub mod throttle;
pub mod time;
pub mod webhook;
