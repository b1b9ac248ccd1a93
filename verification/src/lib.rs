//! Explicit-state formal-verification laboratory: finite transition systems,
//! breadth-first safety checking, reachable-graph analyses, Büchi automata
//! products and fairness-aware recurrence checks.

pub mod state;
pub mod text;
pub mod syntax;
pub mod model;
pub mod checker;
pub mod graph;
pub mod recurrence;
pub mod bounded;
pub mod product;
pub mod buchi;
pub mod fairness;
pub mod combined_fairness;
pub mod fair_enablement;
pub mod builder;
pub mod declarative;
pub mod declarative_ctl;
pub mod declarative_ctl_report;
pub mod declarative_mu;
pub mod declarative_mu_report;
pub mod buchi_examples;
pub mod examples;
pub mod fixpoint;
pub mod ctl;
pub mod ctl_bounded;
pub mod ctl_parse;
pub mod ctl_round_trip;
pub mod mu_bounded;
pub mod mu_calculus;
pub mod mu_parse;
pub mod mu_round_trip;
pub mod certificate_verification_result;
pub mod certificate_verification_job;
pub mod certificate_verification_job_run;
pub mod eventuality;
pub mod exact_state;
pub mod monitor;
pub mod monitor_fairness;
pub mod monitor_examples;
pub mod multi_response;
pub mod multi_response_examples;
pub mod multi_temporal;
