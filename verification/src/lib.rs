//! A verified codec for APRS packets: the textual packet header and the
//! bodies of position reports, messages, grid locators, raw NMEA sentences,
//! third-party packets, user-defined packets, positionless weather reports
//! and telemetry reports.

pub mod callsign;
pub mod components;
pub mod compressed;
pub mod error;
pub mod grid;
pub mod message;
pub mod nmea;
pub mod packet;
pub mod telemetry;
pub mod text;
pub mod third_party;
pub mod user_defined;
pub mod weather;

pub use callsign::{Callsign, QConstruct, Via};
pub use components::lonlat::{Latitude, Longitude, Precision, UNITS_PER_DEGREE};
pub use components::position::{AprsCst, Dao, Position};
pub use compressed::{AprsAltitude, AprsCompressedCs, AprsCompressionType, AprsCourseSpeed};
pub use error::{DecodeError, EncodeError};
pub use grid::AprsGridLocator;
pub use message::AprsMessage;
pub use nmea::AprsNmea;
pub use packet::{AprsData, AprsPacket, AprsPosition, AprsUnknown};
pub use telemetry::AprsTelemetry;
pub use third_party::AprsThirdParty;
pub use user_defined::AprsUserDefined;
pub use weather::{AprsPositionlessWeather, AprsWeather};
