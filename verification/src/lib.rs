//! Reading EDIDs, capping the refresh rates they advertise, and choosing the displays to cap.
//!
//! The display coprocessor of an Apple Silicon Mac reserves display pipes for a monitor from
//! the highest mode in its EDID. Capping produces an EDID that no longer advertises a timing
//! above a given refresh rate, which frees a pipe for another monitor.
//!
//! * [`edid`] decodes an EDID, [`describe`] shows it to a reader; [`block`], [`timing`],
//!   [`cta`] and [`displayid`] read and write its parts.
//! * [`cap`] caps an EDID, with [`cta_cap`], [`bitmap`] and [`displayid_cap`] for the
//!   extension blocks; [`laws`] states what that guarantees, and [`kept_laws`] what is kept.
//! * [`registry`] makes sense of what the I/O Registry says about displays, [`limits`] of what
//!   a pipe can carry, [`status`] and [`select`] of both together.
//! * [`session`] and [`agent`] decide what the commands do next.
//! * [`decode_laws`] states what the bytes of an EDID mean, [`text_laws`] what the texts that
//!   are read and written hold, [`note_laws`] what a cap notes, and [`report_laws`] what the
//!   reports show. [`view_laws`] ties the values to the models that all of these speak of.

pub mod agent;
pub mod bitmap;
pub mod block;
pub mod cap;
pub mod cta;
pub mod cta_cap;
pub mod cta_laws;
pub mod decode_laws;
pub mod describe;
pub mod displayid;
pub mod displayid_cap;
pub mod displayid_laws;
pub mod edid;
pub mod kept_laws;
pub mod laws;
pub mod limits;
pub mod note_laws;
pub mod property;
pub mod rate;
pub mod registry;
pub mod report_laws;
pub mod select;
pub mod seqs;
pub mod session;
pub mod status;
pub mod text;
pub mod text_laws;
pub mod timing;
pub mod view_laws;
