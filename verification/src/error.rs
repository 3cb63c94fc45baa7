//! The errors that decoding and encoding report.

use vstd::prelude::*;

verus! {

/// Why a packet, or a part of one, could not be decoded. Each variant carries
/// the bytes that were rejected.
#[derive(PartialEq, Debug, Clone)]
pub enum DecodeError {
    InvalidPacket(Vec<u8>),
    InvalidCallsign(Vec<u8>),
    InvalidVia(Vec<u8>),
    InvalidLatitude(Vec<u8>),
    InvalidLongitude(Vec<u8>),
    InvalidPosition(Vec<u8>),
    InvalidCourseSpeed(Vec<u8>),
    InvalidMessage(Vec<u8>),
    InvalidGridLocator(Vec<u8>),
    InvalidTelemetry(Vec<u8>),
    InvalidWeather(Vec<u8>),
}

/// A `DecodeError` with its bytes as a sequence.
pub enum DecodeErrorView {
    InvalidPacket(Seq<u8>),
    InvalidCallsign(Seq<u8>),
    InvalidVia(Seq<u8>),
    InvalidLatitude(Seq<u8>),
    InvalidLongitude(Seq<u8>),
    InvalidPosition(Seq<u8>),
    InvalidCourseSpeed(Seq<u8>),
    InvalidMessage(Seq<u8>),
    InvalidGridLocator(Seq<u8>),
    InvalidTelemetry(Seq<u8>),
    InvalidWeather(Seq<u8>),
}

impl View for DecodeError {
    type V = DecodeErrorView;

    open spec fn view(&self) -> DecodeErrorView {
        match self {
            DecodeError::InvalidPacket(b) => DecodeErrorView::InvalidPacket(b@),
            DecodeError::InvalidCallsign(b) => DecodeErrorView::InvalidCallsign(b@),
            DecodeError::InvalidVia(b) => DecodeErrorView::InvalidVia(b@),
            DecodeError::InvalidLatitude(b) => DecodeErrorView::InvalidLatitude(b@),
            DecodeError::InvalidLongitude(b) => DecodeErrorView::InvalidLongitude(b@),
            DecodeError::InvalidPosition(b) => DecodeErrorView::InvalidPosition(b@),
            DecodeError::InvalidCourseSpeed(b) => DecodeErrorView::InvalidCourseSpeed(b@),
            DecodeError::InvalidMessage(b) => DecodeErrorView::InvalidMessage(b@),
            DecodeError::InvalidGridLocator(b) => DecodeErrorView::InvalidGridLocator(b@),
            DecodeError::InvalidTelemetry(b) => DecodeErrorView::InvalidTelemetry(b@),
            DecodeError::InvalidWeather(b) => DecodeErrorView::InvalidWeather(b@),
        }
    }
}

/// Why encoding failed. Encoding into a `Vec<u8>` never fails; the variant is
/// what a writer that refuses bytes reports.
#[derive(PartialEq, Eq, Debug, Clone, Copy)]
pub enum EncodeError {
    Write,
}

} // verus!
