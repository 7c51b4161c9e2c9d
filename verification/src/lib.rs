pub mod amlogic;
pub mod archive;
pub mod bytes;
pub mod detect;
pub mod kddi;
pub mod mtk_sign;
pub mod nb0;
pub mod order;
pub mod ozip;
pub mod pac;
pub mod pattern;
pub mod plan;
pub mod qfil;
pub mod rockchip;
pub mod sin;
pub mod sparse;
pub mod text;
pub mod zte;
