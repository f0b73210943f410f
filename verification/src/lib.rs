//! Verified core of FluxFang's attribution-evidence features: the RF-picture
//! window diff, the pairing and witness framing of the periodic correlation
//! pass, and the subject filter of the attribution-evidence store.

pub mod lexical;
pub mod timestamp;
pub mod rf_diff;
pub mod correlate;
pub mod evidence;
