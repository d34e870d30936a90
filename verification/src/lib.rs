//! A privileged shell service, its client, and a probe tracer.

pub mod artifact;
pub mod bytes;
pub mod children;
pub mod cli;
pub mod command;
pub mod elf;
pub mod fault;
pub mod grant;
pub mod groups;
pub mod lists;
pub mod maps;
pub mod numbers;
pub mod output;
pub mod perf;
pub mod probes;
pub mod pty;
pub mod ratelimit;
pub mod report;
pub mod ring;
pub mod service;
pub mod session;
pub mod setup;
pub mod shell;
pub mod sites;
pub mod su;
pub mod symbolizer;
pub mod target;
pub mod text;
pub mod trace;
