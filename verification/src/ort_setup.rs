//! Which build of the inference runtime is used, and which files of its archive are kept.

use vstd::prelude::*;

use crate::text::{cat3, ends_with, lower_case, str_ends_with, lowered};

verus! {

pub const ORT_VERSION: &'static str = "1.20.0";

pub const CPU_URL: &'static str =
    "https://github.com/microsoft/onnxruntime/releases/download/v1.20.0/onnxruntime-win-x64-1.20.0.zip";

pub const GPU_URL: &'static str =
    "https://github.com/microsoft/onnxruntime/releases/download/v1.20.0/onnxruntime-win-x64-gpu-1.20.0.zip";

/// A build of the runtime.
#[derive(Debug)]
pub struct OrtBuild {
    pub gpu: bool,
    /// The folder in which it is kept.
    pub folder: String,
    pub url: &'static str,
    pub label: &'static str,
}

/// The build for the graphics card where it is wanted and there is one; else the one that
/// runs everywhere.
pub fn ensure_ort(use_gpu: bool, gpu_present: bool) -> (r: OrtBuild)
    ensures
        r.gpu == (use_gpu && gpu_present),
        r.gpu ==> r.folder@ == ORT_VERSION@ + "-"@ + "gpu"@ && r.url@ == GPU_URL@ && r.label@
            == "GPU"@,
        !r.gpu ==> r.folder@ == ORT_VERSION@ + "-"@ + "cpu"@ && r.url@ == CPU_URL@ && r.label@
            == "CPU"@,
{
    if use_gpu && gpu_present {
        OrtBuild { gpu: true, folder: cat3(ORT_VERSION, "-", "gpu"), url: GPU_URL, label: "GPU" }
    } else {
        OrtBuild { gpu: false, folder: cat3(ORT_VERSION, "-", "cpu"), url: CPU_URL, label: "CPU" }
    }
}

/// Whether a file of the archive is kept: the libraries are, whatever their letter case.
pub fn keeps_entry(name: &str) -> (r: bool)
    ensures
        r == ends_with(lower_case(name@), ".dll"@),
{
    str_ends_with(lowered(name).as_str(), ".dll")
}

} // verus!
