//! Verified core of a firmware for the HC32F460 microcontroller.
//!
//! The library holds what the firmware computes and decides; reading and writing
//! registers, flash and serial lines is left to the program around it.

pub mod arch;
pub mod banner;
pub mod board;
pub mod build_info;
pub mod can;
pub mod can_timing;
pub mod clk;
pub mod config;
pub mod console;
pub mod crc;
pub mod critical_section;
pub mod dma;
pub mod efm;
pub mod exception_frame;
pub mod filesystem;
pub mod gpio;
pub mod heap;
pub mod heap_layout;
pub mod heap_tlsf;
pub mod icg;
pub mod intc;
pub mod latency;
pub mod littlefs;
pub mod log;
pub mod logfile;
pub mod logfile_core;
pub mod logring;
pub mod mmio;
pub mod mpu;
pub mod notify;
pub mod ots;
pub mod panic;
pub mod peripherals;
pub mod rtc;
pub mod settings;
pub mod text;
