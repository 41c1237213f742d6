pub mod acceptance;
pub mod air;
pub mod composed;
pub mod containment;
pub mod expr;
pub mod field;
pub mod full;
pub mod gen;
pub mod hash;
pub mod table;
pub mod trace;
pub mod vacuous;
pub mod whole;
pub mod witness;
pub mod merkle;
pub mod prover;
pub mod revocation;
pub mod spend;
pub mod spend_trace;
pub mod spend2;
pub mod soundness;
pub mod spend_controls;
pub mod composed_controls;
pub mod spend_accept;
pub mod spend_frame;
pub mod whole_frame;
pub mod composed_accept;
pub mod spend_two_accept;
pub mod containment_sound;
pub mod policy_laws;
