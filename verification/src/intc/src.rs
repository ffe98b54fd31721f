//! Numbers of the events that can be routed to interrupt lines.

use vstd::prelude::*;

verus! {

pub const PORT_EIRQ0: u32 = 0;

pub const PORT_EIRQ1: u32 = 1;

pub const PORT_EIRQ2: u32 = 2;

pub const PORT_EIRQ3: u32 = 3;

pub const PORT_EIRQ4: u32 = 4;

pub const PORT_EIRQ5: u32 = 5;

pub const PORT_EIRQ6: u32 = 6;

pub const PORT_EIRQ7: u32 = 7;

pub const PORT_EIRQ8: u32 = 8;

pub const PORT_EIRQ9: u32 = 9;

pub const PORT_EIRQ10: u32 = 10;

pub const PORT_EIRQ11: u32 = 11;

pub const PORT_EIRQ12: u32 = 12;

pub const PORT_EIRQ13: u32 = 13;

pub const PORT_EIRQ14: u32 = 14;

pub const PORT_EIRQ15: u32 = 15;

pub const DMA1_TC0: u32 = 32;

pub const DMA1_TC1: u32 = 33;

pub const DMA1_TC2: u32 = 34;

pub const DMA1_TC3: u32 = 35;

pub const DMA2_TC0: u32 = 36;

pub const DMA2_TC1: u32 = 37;

pub const DMA2_TC2: u32 = 38;

pub const DMA2_TC3: u32 = 39;

pub const DMA1_ERR: u32 = 48;

pub const DMA2_ERR: u32 = 49;

pub const EFM_PEERR: u32 = 50;

pub const EFM_COLERR: u32 = 51;

pub const EFM_OPTEND: u32 = 52;

pub const TMR0_1_CMP_A: u32 = 64;

pub const TMR0_1_CMP_B: u32 = 65;

pub const TMR0_2_CMP_A: u32 = 66;

pub const TMR0_2_CMP_B: u32 = 67;

pub const RTC_ALM: u32 = 81;

pub const RTC_PRD: u32 = 82;

pub const TMR6_1_GCMP_A: u32 = 96;

pub const TMR6_1_GCMP_B: u32 = 97;

pub const TMR6_1_GCMP_C: u32 = 98;

pub const TMR6_1_GCMP_D: u32 = 99;

pub const TMR6_1_GCMP_E: u32 = 100;

pub const TMR6_1_GCMP_F: u32 = 101;

pub const TMR6_1_OVF: u32 = 102;

pub const TMR6_1_UDF: u32 = 103;

pub const TMR6_1_DTE: u32 = 104;

pub const TMR6_1_SCMP_A: u32 = 107;

pub const TMR6_1_SCMP_B: u32 = 108;

pub const TMR6_2_GCMP_A: u32 = 112;

pub const TMR6_2_GCMP_B: u32 = 113;

pub const TMR6_2_GCMP_C: u32 = 114;

pub const TMR6_2_GCMP_D: u32 = 115;

pub const TMR6_2_GCMP_E: u32 = 116;

pub const TMR6_2_GCMP_F: u32 = 117;

pub const TMR6_2_OVF: u32 = 118;

pub const TMR6_2_UDF: u32 = 119;

pub const TMR6_2_DTE: u32 = 120;

pub const TMR6_2_SCMP_A: u32 = 123;

pub const TMR6_2_SCMP_B: u32 = 124;

pub const TMR6_3_GCMP_A: u32 = 128;

pub const TMR6_3_GCMP_B: u32 = 129;

pub const TMR6_3_GCMP_C: u32 = 130;

pub const TMR6_3_GCMP_D: u32 = 131;

pub const TMR6_3_GCMP_E: u32 = 132;

pub const TMR6_3_GCMP_F: u32 = 133;

pub const TMR6_3_OVF: u32 = 134;

pub const TMR6_3_UDF: u32 = 135;

pub const TMR6_3_DTE: u32 = 136;

pub const TMR6_3_SCMP_A: u32 = 139;

pub const TMR6_3_SCMP_B: u32 = 140;

pub const TMRA_1_OVF: u32 = 256;

pub const TMRA_1_UDF: u32 = 257;

pub const TMRA_1_CMP: u32 = 258;

pub const TMRA_2_OVF: u32 = 259;

pub const TMRA_2_UDF: u32 = 260;

pub const TMRA_2_CMP: u32 = 261;

pub const TMRA_3_OVF: u32 = 262;

pub const TMRA_3_UDF: u32 = 263;

pub const TMRA_3_CMP: u32 = 264;

pub const TMRA_4_OVF: u32 = 265;

pub const TMRA_4_UDF: u32 = 266;

pub const TMRA_4_CMP: u32 = 267;

pub const TMRA_5_OVF: u32 = 268;

pub const TMRA_5_UDF: u32 = 269;

pub const TMRA_5_CMP: u32 = 270;

pub const TMRA_6_OVF: u32 = 271;

pub const TMRA_6_UDF: u32 = 272;

pub const TMRA_6_CMP: u32 = 273;

pub const USBFS_GLB: u32 = 275;

pub const USART1_EI: u32 = 278;

pub const USART1_RI: u32 = 279;

pub const USART1_TI: u32 = 280;

pub const USART1_TCI: u32 = 281;

pub const USART1_RTO: u32 = 282;

pub const USART2_EI: u32 = 283;

pub const USART2_RI: u32 = 284;

pub const USART2_TI: u32 = 285;

pub const USART2_TCI: u32 = 286;

pub const USART2_RTO: u32 = 287;

pub const USART3_EI: u32 = 288;

pub const USART3_RI: u32 = 289;

pub const USART3_TI: u32 = 290;

pub const USART3_TCI: u32 = 291;

pub const USART3_RTO: u32 = 292;

pub const USART4_EI: u32 = 293;

pub const USART4_RI: u32 = 294;

pub const USART4_TI: u32 = 295;

pub const USART4_TCI: u32 = 296;

pub const USART4_RTO: u32 = 297;

pub const CMP1: u32 = 416;

pub const CMP2: u32 = 417;

pub const CMP3: u32 = 418;

pub const I2C1_RXI: u32 = 420;

pub const I2C1_TXI: u32 = 421;

pub const I2C1_TEI: u32 = 422;

pub const I2C2_RXI: u32 = 424;

pub const I2C2_TXI: u32 = 425;

pub const I2C2_TEI: u32 = 426;

pub const I2C3_RXI: u32 = 428;

pub const I2C3_TXI: u32 = 429;

pub const I2C3_TEI: u32 = 430;

pub const LVD1: u32 = 433;

pub const LVD2: u32 = 434;

pub const OTS: u32 = 435;

pub const WDT_REFUDF: u32 = 439;

pub const ADC1_EOCA: u32 = 448;

pub const ADC1_EOCB: u32 = 449;

pub const ADC2_EOCA: u32 = 452;

pub const ADC2_EOCB: u32 = 453;

pub const TRNG_END: u32 = 456;

} // verus!
