//! Finding the AV1 CRF at which a video keeps an SSIMULACRA2 score of 90:
//! the encoder settings and command lines, the splitting of a command line
//! into process arguments, the cutting of the video into clips, the reading of
//! the tools' output, and the search for each clip's CRF.
use vstd::prelude::*;

pub mod text;
pub mod args;
pub mod decimal;
pub mod crf;
pub mod settings;
pub mod clips;
pub mod ssim2;
pub mod paths;

