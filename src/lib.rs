//! A serial-to-wireless bridge: bytes read from a UART are hex-encoded and
//! broadcast, hex datagrams received over the air are decoded and written back
//! to the UART. The library holds the codec and the bridge's buffering and
//! flush decisions; the peripherals are driven by the caller.
pub mod bridge;
pub mod codec;
