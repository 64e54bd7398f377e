//! Walking a subtree of an SNMP agent's object identifiers: the dotted
//! identifiers read into arcs, and the decisions of a bulk walk.
pub mod oid;
pub mod walk;
pub mod report;
